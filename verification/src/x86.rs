//! The lowering of a program to machine instructions for a 32-bit machine,
//! and their assembly text.

use crate::text::{decimal, decimal_text, hex, hex_text, signed_decimal, signed_decimal_text};
use crate::util::{id_text, label_number, lemma_label_number_step, LabelAllocator};
use crate::vm;
use crate::vm::MEMORY_SIZE;
use crate::vm::{lemma_loop_model, loop_count, op_loop_count, Op};
use vstd::arithmetic::div_mod::{
    lemma_add_mod_noop, lemma_mod_multiples_vanish, lemma_mod_self_0, lemma_small_mod,
};
use vstd::prelude::*;
use vstd::string::StringExecFns;

verus! {

/// An operand of a machine instruction.
#[derive(Debug, PartialEq)]
pub enum Operand {
    /// The tape cell at the given distance from the cursor register.
    MemoryOffset(i32),
    /// A register, by name.
    Register(&'static str),
    ConstI32(i32),
    ConstU32(u32),
    ConstU8(u8),
}

/// The model of an operand: register names are sequences of characters.
pub enum OperandModel {
    MemoryOffset(i32),
    Register(Seq<char>),
    ConstI32(i32),
    ConstU32(u32),
    ConstU8(u8),
}

impl DeepView for Operand {
    type V = OperandModel;

    open spec fn deep_view(&self) -> OperandModel {
        match self {
            Operand::MemoryOffset(offset) => OperandModel::MemoryOffset(*offset),
            Operand::Register(name) => OperandModel::Register(name@),
            Operand::ConstI32(value) => OperandModel::ConstI32(*value),
            Operand::ConstU32(value) => OperandModel::ConstU32(*value),
            Operand::ConstU8(value) => OperandModel::ConstU8(*value),
        }
    }
}

impl Clone for Operand {
    fn clone(&self) -> (copy: Self)
        ensures
            copy.deep_view() == self.deep_view(),
    {
        match self {
            Operand::MemoryOffset(offset) => Operand::MemoryOffset(*offset),
            Operand::Register(name) => Operand::Register(name),
            Operand::ConstI32(value) => Operand::ConstI32(*value),
            Operand::ConstU32(value) => Operand::ConstU32(*value),
            Operand::ConstU8(value) => Operand::ConstU8(*value),
        }
    }
}

/// A machine instruction; two-operand forms name the destination first.
#[derive(Debug, PartialEq)]
pub enum Instruction {
    Add(Operand, Operand),
    Sub(Operand, Operand),
    /// A conditional jump: the mnemonic and the label to jump to.
    Jif(&'static str, String),
    Mov(Operand, Operand),
    Label(String),
    Cmp(Operand, Operand),
    /// The trap into the operating system.
    Int(u8),
}

/// The model of a machine instruction.
pub enum Asm {
    Add(OperandModel, OperandModel),
    Sub(OperandModel, OperandModel),
    Jif(Seq<char>, Seq<char>),
    Mov(OperandModel, OperandModel),
    Label(Seq<char>),
    Cmp(OperandModel, OperandModel),
    Int(u8),
}

impl DeepView for Instruction {
    type V = Asm;

    open spec fn deep_view(&self) -> Asm {
        match self {
            Instruction::Add(dst, src) => Asm::Add(dst.deep_view(), src.deep_view()),
            Instruction::Sub(dst, src) => Asm::Sub(dst.deep_view(), src.deep_view()),
            Instruction::Jif(mnemonic, label) => Asm::Jif(mnemonic@, label@),
            Instruction::Mov(dst, src) => Asm::Mov(dst.deep_view(), src.deep_view()),
            Instruction::Label(label) => Asm::Label(label@),
            Instruction::Cmp(left, right) => Asm::Cmp(left.deep_view(), right.deep_view()),
            Instruction::Int(number) => Asm::Int(*number),
        }
    }
}

impl Clone for Instruction {
    fn clone(&self) -> (copy: Self)
        ensures
            copy.deep_view() == self.deep_view(),
    {
        match self {
            Instruction::Add(dst, src) => Instruction::Add(dst.clone(), src.clone()),
            Instruction::Sub(dst, src) => Instruction::Sub(dst.clone(), src.clone()),
            Instruction::Jif(mnemonic, label) => Instruction::Jif(mnemonic, label.clone()),
            Instruction::Mov(dst, src) => Instruction::Mov(dst.clone(), src.clone()),
            Instruction::Label(label) => Instruction::Label(label.clone()),
            Instruction::Cmp(left, right) => Instruction::Cmp(left.clone(), right.clone()),
            Instruction::Int(number) => Instruction::Int(*number),
        }
    }
}

/// The register that holds the cursor.
pub open spec fn cursor_register() -> OperandModel {
    OperandModel::Register("esi"@)
}

/// The register that takes the selector of a call into the operating
/// system.
pub open spec fn eax() -> OperandModel {
    OperandModel::Register("eax"@)
}

/// The register that takes the channel of a transfer, or the status of an
/// exit.
pub open spec fn ebx() -> OperandModel {
    OperandModel::Register("ebx"@)
}

/// The register that takes the number of bytes of a transfer.
pub open spec fn ecx() -> OperandModel {
    OperandModel::Register("ecx"@)
}

/// The register that takes the address of the cell of a transfer.
pub open spec fn edx() -> OperandModel {
    OperandModel::Register("edx"@)
}

/// The number of the trap that enters the operating system.
pub const SYSTEM_CALL: u8 = 0x80;

/// The selector of the service that ends the process.
pub const SYS_EXIT: i32 = 1;

/// The selector of the service that reads from a channel.
pub const SYS_READ: i32 = 3;

/// The selector of the service that writes to a channel.
pub const SYS_WRITE: i32 = 4;

/// The channel that a program reads from.
pub const STDIN: i32 = 0;

/// The channel that a program writes to.
pub const STDOUT: i32 = 1;

/// The label that opens the loop with the given number.
pub open spec fn open_label(number: usize) -> Seq<char> {
    ".L_OPEN_"@ + decimal(number as nat)
}

/// The label that closes the loop with the given number.
pub open spec fn close_label(number: usize) -> Seq<char> {
    ".L_CLOSE_"@ + decimal(number as nat)
}

/// The low 32 bits of an offset, read as a signed displacement.
pub open spec fn displacement(offset: isize) -> i32 {
    offset as i32
}

/// The low 32 bits of the size of an offset.
pub open spec fn magnitude(offset: isize) -> u32 {
    if offset < 0 {
        (-offset) as u32
    } else {
        offset as u32
    }
}

/// Moving a register by an offset: nothing for zero, else one addition or
/// subtraction of the offset's size.
pub open spec fn adjust(register: OperandModel, offset: isize) -> Seq<Asm> {
    if offset < 0 {
        seq![Asm::Sub(register, OperandModel::ConstU32(magnitude(offset)))]
    } else if offset > 0 {
        seq![Asm::Add(register, OperandModel::ConstU32(magnitude(offset)))]
    } else {
        Seq::empty()
    }
}

/// The test of a loop's guard: the cell under the cursor against zero.
pub open spec fn guard_test() -> Asm {
    Asm::Cmp(OperandModel::MemoryOffset(0), OperandModel::ConstU8(0))
}

/// The transfer of one byte between the cell at `offset` and a channel.
pub open spec fn transfer(selector: i32, channel: i32, offset: isize) -> Seq<Asm> {
    seq![
        Asm::Mov(eax(), OperandModel::ConstI32(selector)),
        Asm::Mov(ebx(), OperandModel::ConstI32(channel)),
        Asm::Mov(ecx(), OperandModel::ConstI32(1)),
        Asm::Mov(edx(), cursor_register()),
    ] + adjust(edx(), offset) + seq![Asm::Int(SYSTEM_CALL)]
}

/// The machine instructions for one instruction. `count` is the count at
/// which the counter of identifiers stands: a loop takes the number of that
/// count, and the loops inside it the numbers after that.
pub open spec fn lower_op(op: Op, count: int) -> Seq<Asm>
    decreases op,
{
    match op {
        Op::Add(value, offset) => seq![
            Asm::Add(OperandModel::MemoryOffset(displacement(offset)), OperandModel::ConstU8(value)),
        ],
        Op::Assign(value, offset) => seq![
            Asm::Mov(OperandModel::MemoryOffset(displacement(offset)), OperandModel::ConstU8(value)),
        ],
        Op::Move(offset) => adjust(cursor_register(), offset),
        Op::Loop(body) => seq![
            guard_test(),
            Asm::Jif("jz"@, close_label(label_number(count))),
            Asm::Label(open_label(label_number(count))),
        ] + lower(body, count + 1) + seq![
            guard_test(),
            Asm::Jif("jnz"@, open_label(label_number(count))),
            Asm::Label(close_label(label_number(count))),
        ],
        Op::Write(offset) => transfer(SYS_WRITE, STDOUT, offset),
        Op::Read(offset) => transfer(SYS_READ, STDIN, offset),
    }
}

/// The machine instructions for a program: each instruction's own, in
/// order. `count` is the count at which the counter of identifiers stands
/// at the start; every loop takes the next number, in the order in which
/// the loops open.
pub open spec fn lower(code: Seq<Op>, count: int) -> Seq<Asm>
    decreases code,
{
    if code.len() == 0 {
        Seq::empty()
    } else {
        lower(code.drop_last(), count) + lower_op(
            code.last(),
            count + loop_count(code.drop_last()),
        )
    }
}

/// Appends one instruction.
fn emit(out: &mut Vec<Instruction>, instruction: Instruction)
    ensures
        final(out).deep_view() == old(out).deep_view().push(instruction.deep_view()),
{
    out.push(instruction);
    assert(out.deep_view() =~= old(out).deep_view().push(instruction.deep_view()));
}

/// The size of an offset, cut to 32 bits.
fn magnitude_of(offset: isize) -> (size: u32)
    ensures
        size == magnitude(offset),
{
    if offset < 0 {
        let size: usize = (-(offset + 1)) as usize + 1;
        #[verifier::truncate]
        (size as u32)
    } else {
        #[verifier::truncate]
        (offset as u32)
    }
}

/// Appends what moves `register` by `offset`.
fn emit_adjust(out: &mut Vec<Instruction>, register: Operand, offset: isize)
    ensures
        final(out).deep_view() == old(out).deep_view() + adjust(register.deep_view(), offset),
{
    if offset < 0 {
        emit(out, Instruction::Sub(register, Operand::ConstU32(magnitude_of(offset))));
    } else if offset > 0 {
        emit(out, Instruction::Add(register, Operand::ConstU32(magnitude_of(offset))));
    }
    assert(out.deep_view() =~= old(out).deep_view() + adjust(register.deep_view(), offset));
}

/// Appends the transfer of one byte between the cell at `offset` and a
/// channel.
fn emit_transfer(out: &mut Vec<Instruction>, selector: i32, channel: i32, offset: isize)
    ensures
        final(out).deep_view() == old(out).deep_view() + transfer(selector, channel, offset),
{
    emit(out, Instruction::Mov(Operand::Register("eax"), Operand::ConstI32(selector)));
    emit(out, Instruction::Mov(Operand::Register("ebx"), Operand::ConstI32(channel)));
    emit(out, Instruction::Mov(Operand::Register("ecx"), Operand::ConstI32(1)));
    emit(out, Instruction::Mov(Operand::Register("edx"), Operand::Register("esi")));
    emit_adjust(out, Operand::Register("edx"), offset);
    emit(out, Instruction::Int(SYSTEM_CALL));
    assert(out.deep_view() =~= old(out).deep_view() + transfer(selector, channel, offset));
}

/// The counter after one more identifier.
fn following(number: usize, Ghost(count): Ghost<int>) -> (next: usize)
    requires
        number == label_number(count),
    ensures
        next == label_number(count + 1),
{
    proof {
        lemma_label_number_step(count);
        let turn = usize::MAX as nat + 1;
        if number < usize::MAX {
            lemma_small_mod((number + 1) as nat, turn);
        } else {
            lemma_mod_self_0(turn as int);
        }
    }
    number.wrapping_add(1)
}

/// Appends the machine instructions for a program. `next` is the number
/// that the next loop takes.
fn lower_into(
    code: &Vec<vm::Instruction>,
    next: &mut usize,
    out: &mut Vec<Instruction>,
    Ghost(count): Ghost<int>,
)
    requires
        *old(next) == label_number(count),
    ensures
        final(out).deep_view() == old(out).deep_view() + lower(code.deep_view(), count),
        *final(next) == label_number(count + loop_count(code.deep_view())),
    decreases code,
{
    let ghost ops = code.deep_view();
    let mut i: usize = 0;
    assert(out.deep_view() =~= old(out).deep_view() + lower(ops.take(0), count));
    while i < code.len()
        invariant
            ops == code.deep_view(),
            i <= code.len(),
            out.deep_view() == old(out).deep_view() + lower(ops.take(i as int), count),
            *next == label_number(count + loop_count(ops.take(i as int))),
        decreases code.len() - i,
    {
        let ghost before = out.deep_view();
        let ghost here = count + loop_count(ops.take(i as int));
        proof {
            assert(ops.take(i + 1).drop_last() =~= ops.take(i as int));
            assert(ops.take(i + 1).last() == code[i as int].deep_view());
            assert(loop_count(ops.take(i + 1)) == loop_count(ops.take(i as int)) + op_loop_count(
                code[i as int].deep_view(),
            ));
        }
        match &code[i] {
            vm::Instruction::Add(value, offset) => {
                emit(
                    out,
                    Instruction::Add(
                        Operand::MemoryOffset(
                            #[verifier::truncate]
                            (*offset as i32),
                        ),
                        Operand::ConstU8(*value),
                    ),
                );
            },
            vm::Instruction::Assign(value, offset) => {
                emit(
                    out,
                    Instruction::Mov(
                        Operand::MemoryOffset(
                            #[verifier::truncate]
                            (*offset as i32),
                        ),
                        Operand::ConstU8(*value),
                    ),
                );
            },
            vm::Instruction::Move(offset) => {
                emit_adjust(out, Operand::Register("esi"), *offset);
            },
            vm::Instruction::Loop(body) => {
                let unique_id = id_text(*next);
                *next = following(*next, Ghost(here));
                let opening = String::from_str(".L_OPEN_").concat(unique_id.as_str());
                let closing = String::from_str(".L_CLOSE_").concat(unique_id.as_str());
                proof {
                    lemma_loop_model(*body);
                }
                emit(out, Instruction::Cmp(Operand::MemoryOffset(0), Operand::ConstU8(0)));
                emit(out, Instruction::Jif("jz", closing.clone()));
                emit(out, Instruction::Label(opening.clone()));
                lower_into(body, next, out, Ghost(here + 1));
                emit(out, Instruction::Cmp(Operand::MemoryOffset(0), Operand::ConstU8(0)));
                emit(out, Instruction::Jif("jnz", opening));
                emit(out, Instruction::Label(closing));
            },
            vm::Instruction::Write(offset) => {
                emit_transfer(out, SYS_WRITE, STDOUT, *offset);
            },
            vm::Instruction::Read(offset) => {
                emit_transfer(out, SYS_READ, STDIN, *offset);
            },
        }
        assert(out.deep_view() =~= before + lower_op(code[i as int].deep_view(), here));
        assert(out.deep_view() =~= old(out).deep_view() + lower(ops.take(i + 1), count));
        i += 1;
    }
    assert(ops.take(code.len() as int) =~= ops);
}

/// Lowers a program to machine instructions over the cursor register, with
/// `first` as the number of the first loop: the loops are numbered from
/// there on, in the order in which they open, and each loop's two labels
/// are made of its number.
pub fn compile_from(instr: Vec<vm::Instruction>, first: usize) -> (compiled: Vec<Instruction>)
    ensures
        compiled.deep_view() == lower(instr.deep_view(), first as int),
{
    let mut compiled: Vec<Instruction> = Vec::new();
    let mut next = first;
    proof {
        lemma_small_mod(first as nat, usize::MAX as nat + 1);
    }
    lower_into(&instr, &mut next, &mut compiled, Ghost(first as int));
    assert(compiled.deep_view() =~= lower(instr.deep_view(), first as int));
    compiled
}

/// The number of loops in a program, nested ones included, as far as the
/// counter of identifiers can tell them apart.
pub fn count_loops(code: &Vec<vm::Instruction>) -> (count: usize)
    ensures
        count == label_number(loop_count(code.deep_view()) as int),
    decreases code,
{
    let ghost ops = code.deep_view();
    let mut count: usize = 0;
    let mut i: usize = 0;
    proof {
        lemma_small_mod(0, usize::MAX as nat + 1);
    }
    while i < code.len()
        invariant
            ops == code.deep_view(),
            i <= code.len(),
            count == label_number(loop_count(ops.take(i as int)) as int),
        decreases code.len() - i,
    {
        let ghost seen = loop_count(ops.take(i as int)) as int;
        proof {
            assert(ops.take(i + 1).drop_last() =~= ops.take(i as int));
            assert(ops.take(i + 1).last() == code[i as int].deep_view());
            assert(loop_count(ops.take(i + 1)) == seen + op_loop_count(code[i as int].deep_view()));
        }
        match &code[i] {
            vm::Instruction::Loop(body) => {
                proof {
                    lemma_loop_model(*body);
                }
                let inner = count_loops(body);
                count = following(count, Ghost(seen));
                proof {
                    lemma_label_number_sum(seen + 1, loop_count(body.deep_view()) as int);
                }
                count = count.wrapping_add(inner);
            },
            _ => {},
        }
        i += 1;
    }
    assert(ops.take(code.len() as int) =~= ops);
    count
}

/// The numbers of two counts add up, around the counter, to the number of
/// their sum.
proof fn lemma_label_number_sum(a: int, b: int)
    ensures
        vstd::wrapping::usize_specs::wrapping_add(label_number(a), label_number(b)) == label_number(
            a + b,
        ),
{
    let turn = usize::MAX as int + 1;
    lemma_add_mod_noop(a, b, turn);
    let sum = label_number(a) + label_number(b);
    if sum > usize::MAX {
        lemma_mod_multiples_vanish(-1, sum, turn);
        lemma_small_mod((sum - turn) as nat, turn as nat);
    } else {
        lemma_small_mod(sum as nat, turn as nat);
    }
}

/// Lowers a program to machine instructions over the cursor register. As
/// many identifiers as the program has loops are taken from `labels` in one
/// step; the loops are numbered from the first of them on, in the order in
/// which they open.
pub fn compile(instr: Vec<vm::Instruction>, labels: &LabelAllocator) -> (compiled: Vec<Instruction>)
    ensures
        exists|first: usize| compiled.deep_view() == lower(instr.deep_view(), first as int),
{
    let first = labels.reserve(count_loops(&instr));
    compile_from(instr, first)
}

/// How an operand is written.
pub open spec fn operand_text(operand: OperandModel) -> Seq<char> {
    match operand {
        OperandModel::ConstI32(value) => "dword "@ + signed_decimal(value as int),
        OperandModel::ConstU32(value) => "dword "@ + decimal(value as nat),
        OperandModel::Register(name) => name,
        OperandModel::ConstU8(value) => "byte "@ + decimal(value as nat),
        OperandModel::MemoryOffset(offset) => if offset < 0 {
            "[esi - "@ + decimal((-offset) as nat) + "]"@
        } else {
            "[esi + "@ + decimal(offset as nat) + "]"@
        },
    }
}

/// How a two-operand instruction is written.
pub open spec fn binary_text(mnemonic: Seq<char>, first: OperandModel, second: OperandModel) -> Seq<
    char,
> {
    "\t"@ + mnemonic + "\t"@ + operand_text(first) + ",\t"@ + operand_text(second)
}

/// How an instruction is written, on one line.
pub open spec fn instruction_text(instruction: Asm) -> Seq<char> {
    match instruction {
        Asm::Add(sum, term) => binary_text("add"@, sum, term),
        Asm::Mov(to, from) => binary_text("mov"@, to, from),
        Asm::Sub(difference, term) => binary_text("sub"@, difference, term),
        Asm::Cmp(left, right) => binary_text("cmp"@, left, right),
        Asm::Jif(mnemonic, label) => "\t"@ + mnemonic + "\t"@ + label,
        Asm::Label(label) => label,
        Asm::Int(number) => "int "@ + hex(number),
    }
}

/// The lines of a sequence of instructions, each ended by a line feed.
pub open spec fn listing(program: Seq<Asm>) -> Seq<char>
    decreases program.len(),
{
    if program.len() == 0 {
        Seq::empty()
    } else {
        listing(program.drop_last()) + instruction_text(program.last()) + "\n"@
    }
}

/// What stands before the instructions of every program: the section that
/// reserves the tape under the name `mem`, the start of the code at its
/// entry label, and the cursor register set to the start of the tape.
pub open spec fn prologue() -> Seq<char> {
    "global _start\nsection .bss\n\tmem resb "@ + decimal(MEMORY_SIZE as nat)
        + "\nsection .text\n_start:\n\tmov\tesi,\tmem\n"@
}

/// What ends every program: the exit from the process, with the cell under
/// the cursor as its status.
pub open spec fn epilogue() -> Seq<Asm> {
    seq![
        Asm::Mov(eax(), OperandModel::ConstI32(SYS_EXIT)),
        Asm::Mov(ebx(), OperandModel::ConstI32(0)),
        Asm::Mov(OperandModel::Register("bl"@), OperandModel::MemoryOffset(0)),
        Asm::Int(SYSTEM_CALL),
    ]
}

/// The assembly text of a program.
pub open spec fn assembly(program: Seq<Asm>) -> Seq<char> {
    prologue() + listing(program) + listing(epilogue())
}

impl Operand {
    /// Writes the operand.
    pub fn to_text(&self) -> (text: String)
        ensures
            text@ == operand_text(self.deep_view()),
    {
        match self {
            Operand::ConstI32(value) => {
                let digits = signed_decimal_text(*value as i64);
                String::from_str("dword ").concat(digits.as_str())
            },
            Operand::ConstU32(value) => {
                let digits = decimal_text(*value as u64);
                String::from_str("dword ").concat(digits.as_str())
            },
            Operand::Register(name) => String::from_str(name),
            Operand::ConstU8(value) => {
                let digits = decimal_text(*value as u64);
                String::from_str("byte ").concat(digits.as_str())
            },
            Operand::MemoryOffset(offset) => {
                if *offset < 0 {
                    let digits = decimal_text((-(*offset as i64)) as u64);
                    String::from_str("[esi - ").concat(digits.as_str()).concat("]")
                } else {
                    let digits = decimal_text(*offset as u64);
                    String::from_str("[esi + ").concat(digits.as_str()).concat("]")
                }
            },
        }
    }
}

/// Writes a two-operand instruction.
fn binary_line(mnemonic: &str, first: &Operand, second: &Operand) -> (text: String)
    ensures
        text@ == binary_text(mnemonic@, first.deep_view(), second.deep_view()),
{
    let left = first.to_text();
    let right = second.to_text();
    String::from_str("\t").concat(mnemonic).concat("\t").concat(left.as_str()).concat(
        ",\t",
    ).concat(right.as_str())
}

impl Instruction {
    /// Writes the instruction, on one line.
    pub fn to_text(&self) -> (text: String)
        ensures
            text@ == instruction_text(self.deep_view()),
    {
        match self {
            Instruction::Add(sum, term) => binary_line("add", sum, term),
            Instruction::Mov(to, from) => binary_line("mov", to, from),
            Instruction::Sub(difference, term) => binary_line("sub", difference, term),
            Instruction::Cmp(left, right) => binary_line("cmp", left, right),
            Instruction::Jif(mnemonic, label) => String::from_str("\t").concat(mnemonic).concat(
                "\t",
            ).concat(label.as_str()),
            Instruction::Label(label) => label.clone(),
            Instruction::Int(number) => {
                let digits = hex_text(*number);
                String::from_str("int ").concat(digits.as_str())
            },
        }
    }
}

/// Appends the lines of the instructions to the text.
fn append_listing(text: &mut String, program: &Vec<Instruction>)
    ensures
        final(text)@ == old(text)@ + listing(program.deep_view()),
{
    let ghost lines = program.deep_view();
    let mut i: usize = 0;
    assert(text@ =~= old(text)@ + listing(lines.take(0)));
    while i < program.len()
        invariant
            lines == program.deep_view(),
            i <= program.len(),
            text@ == old(text)@ + listing(lines.take(i as int)),
        decreases program.len() - i,
    {
        let line = program[i].to_text();
        let ghost before = text@;
        text.append(line.as_str());
        text.append("\n");
        proof {
            assert(lines.take(i + 1).drop_last() =~= lines.take(i as int));
            assert(lines.take(i + 1).last() == program[i as int].deep_view());
            assert(text@ =~= old(text)@ + listing(lines.take(i + 1)));
        }
        i += 1;
    }
    assert(lines.take(program.len() as int) =~= lines);
}

/// Writes a whole program as assembly text: the tape and the start of the
/// code, the instructions, and the exit with the cell under the cursor as
/// the status of the process.
pub fn generate_asm(program: Vec<Instruction>) -> (text: String)
    ensures
        text@ == assembly(program.deep_view()),
{
    let size = decimal_text(MEMORY_SIZE as u64);
    let mut text = String::from_str("global _start\nsection .bss\n\tmem resb ").concat(
        size.as_str(),
    ).concat("\nsection .text\n_start:\n\tmov\tesi,\tmem\n");
    append_listing(&mut text, &program);
    let mut exit: Vec<Instruction> = Vec::new();
    emit(&mut exit, Instruction::Mov(Operand::Register("eax"), Operand::ConstI32(SYS_EXIT)));
    emit(&mut exit, Instruction::Mov(Operand::Register("ebx"), Operand::ConstI32(0)));
    emit(&mut exit, Instruction::Mov(Operand::Register("bl"), Operand::MemoryOffset(0)));
    emit(&mut exit, Instruction::Int(SYSTEM_CALL));
    assert(exit.deep_view() =~= epilogue());
    append_listing(&mut text, &exit);
    text
}

} // verus!

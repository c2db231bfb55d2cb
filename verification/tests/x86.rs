use tape_compiler::util::LabelAllocator;
use tape_compiler::vm;
use tape_compiler::x86::{compile, compile_from, count_loops, generate_asm, Instruction, Operand};

fn esi() -> Operand {
    Operand::Register("esi")
}

fn guard() -> Instruction {
    Instruction::Cmp(Operand::MemoryOffset(0), Operand::ConstU8(0))
}

fn transfer(selector: i32, channel: i32) -> Vec<Instruction> {
    vec![
        Instruction::Mov(Operand::Register("eax"), Operand::ConstI32(selector)),
        Instruction::Mov(Operand::Register("ebx"), Operand::ConstI32(channel)),
        Instruction::Mov(Operand::Register("ecx"), Operand::ConstI32(1)),
        Instruction::Mov(Operand::Register("edx"), esi()),
    ]
}

#[test]
fn add_and_assign_target_the_cell() {
    let labels = LabelAllocator::new();
    assert_eq!(
        compile(vec![vm::Instruction::Add(3, 2), vm::Instruction::Assign(9, -4)], &labels),
        vec![
            Instruction::Add(Operand::MemoryOffset(2), Operand::ConstU8(3)),
            Instruction::Mov(Operand::MemoryOffset(-4), Operand::ConstU8(9)),
        ]
    );
}

#[test]
fn move_adds_or_subtracts_the_size_of_the_offset() {
    let labels = LabelAllocator::new();
    assert_eq!(
        compile(
            vec![vm::Instruction::Move(5), vm::Instruction::Move(-7), vm::Instruction::Move(0)],
            &labels
        ),
        vec![
            Instruction::Add(esi(), Operand::ConstU32(5)),
            Instruction::Sub(esi(), Operand::ConstU32(7)),
        ]
    );
}

#[test]
fn offsets_are_cut_to_32_bits() {
    let labels = LabelAllocator::new();
    let wide: isize = (1isize << 32) + 5;
    assert_eq!(
        compile(
            vec![
                vm::Instruction::Add(1, wide),
                vm::Instruction::Move(wide),
                vm::Instruction::Move(-wide),
                vm::Instruction::Move(isize::MIN),
            ],
            &labels
        ),
        vec![
            Instruction::Add(Operand::MemoryOffset(5), Operand::ConstU8(1)),
            Instruction::Add(esi(), Operand::ConstU32(5)),
            Instruction::Sub(esi(), Operand::ConstU32(5)),
            Instruction::Sub(esi(), Operand::ConstU32(0)),
        ]
    );
}

#[test]
fn loop_tests_the_cell_under_the_cursor() {
    let labels = LabelAllocator::new();
    let compiled = compile(
        vec![vm::Instruction::Loop(vec![vm::Instruction::Add(255, 0)])],
        &labels,
    );
    assert_eq!(
        compiled,
        vec![
            guard(),
            Instruction::Jif("jz", String::from(".L_CLOSE_0")),
            Instruction::Label(String::from(".L_OPEN_0")),
            Instruction::Add(Operand::MemoryOffset(0), Operand::ConstU8(255)),
            guard(),
            Instruction::Jif("jnz", String::from(".L_OPEN_0")),
            Instruction::Label(String::from(".L_CLOSE_0")),
        ]
    );
}

#[test]
fn loops_are_numbered_in_the_order_they_open() {
    let labels = LabelAllocator::new();
    let program = vec![
        vm::Instruction::Loop(vec![vm::Instruction::Loop(Vec::new())]),
        vm::Instruction::Loop(Vec::new()),
    ];
    let compiled = compile(program, &labels);
    let mut names = Vec::new();
    for instruction in &compiled {
        if let Instruction::Label(name) = instruction {
            names.push(name.clone());
        }
    }
    assert_eq!(
        names,
        vec![".L_OPEN_0", ".L_OPEN_1", ".L_CLOSE_1", ".L_CLOSE_0", ".L_OPEN_2", ".L_CLOSE_2"]
    );
    assert_eq!(labels.next_id(), "3");
}

#[test]
fn labels_continue_where_the_allocator_stands() {
    let labels = LabelAllocator::new();
    labels.next_id();
    labels.next_id();
    let first = compile(vec![vm::Instruction::Loop(Vec::new())], &labels);
    let second = compile(vec![vm::Instruction::Loop(Vec::new())], &labels);
    assert_eq!(first[2], Instruction::Label(String::from(".L_OPEN_2")));
    assert_eq!(second[2], Instruction::Label(String::from(".L_OPEN_3")));
}

#[test]
fn compile_from_numbers_the_loops_from_the_given_number() {
    let program = vec![
        vm::Instruction::Loop(vec![vm::Instruction::Loop(Vec::new())]),
        vm::Instruction::Move(1),
    ];
    assert_eq!(
        compile_from(program, 41),
        vec![
            guard(),
            Instruction::Jif("jz", String::from(".L_CLOSE_41")),
            Instruction::Label(String::from(".L_OPEN_41")),
            guard(),
            Instruction::Jif("jz", String::from(".L_CLOSE_42")),
            Instruction::Label(String::from(".L_OPEN_42")),
            guard(),
            Instruction::Jif("jnz", String::from(".L_OPEN_42")),
            Instruction::Label(String::from(".L_CLOSE_42")),
            guard(),
            Instruction::Jif("jnz", String::from(".L_OPEN_41")),
            Instruction::Label(String::from(".L_CLOSE_41")),
            Instruction::Add(esi(), Operand::ConstU32(1)),
        ]
    );
}

#[test]
fn compile_from_wraps_the_numbers_around() {
    let program = vec![vm::Instruction::Loop(Vec::new()), vm::Instruction::Loop(Vec::new())];
    let compiled = compile_from(program, usize::MAX);
    assert_eq!(compiled[2], Instruction::Label(format!(".L_OPEN_{}", usize::MAX)));
    assert_eq!(compiled[8], Instruction::Label(String::from(".L_OPEN_0")));
}

#[test]
fn count_loops_counts_nested_loops() {
    assert_eq!(count_loops(&Vec::new()), 0);
    assert_eq!(count_loops(&vec![vm::Instruction::Add(1, 0), vm::Instruction::Write(0)]), 0);
    let program = vec![
        vm::Instruction::Loop(vec![
            vm::Instruction::Loop(Vec::new()),
            vm::Instruction::Move(1),
            vm::Instruction::Loop(vec![vm::Instruction::Loop(Vec::new())]),
        ]),
        vm::Instruction::Read(0),
        vm::Instruction::Loop(Vec::new()),
    ];
    assert_eq!(count_loops(&program), 5);
}

#[test]
fn compile_takes_one_identifier_for_each_loop() {
    let labels = LabelAllocator::new();
    assert_eq!(labels.next_id(), "0");
    let program = vec![
        vm::Instruction::Loop(vec![vm::Instruction::Loop(Vec::new())]),
        vm::Instruction::Loop(Vec::new()),
    ];
    let compiled = compile(program, &labels);
    assert_eq!(compiled[2], Instruction::Label(String::from(".L_OPEN_1")));
    assert_eq!(labels.next_id(), "4");
    assert_eq!(compile(vec![vm::Instruction::Move(1)], &labels).len(), 1);
    assert_eq!(labels.next_id(), "5");
}

#[test]
fn labels_of_one_program_are_distinct() {
    let labels = LabelAllocator::new();
    let mut program = Vec::new();
    for _ in 0..40 {
        program = vec![vm::Instruction::Loop(program), vm::Instruction::Loop(Vec::new())];
    }
    let compiled = compile(program, &labels);
    let mut seen = std::collections::HashSet::new();
    let mut count = 0;
    for instruction in &compiled {
        if let Instruction::Label(name) = instruction {
            count += 1;
            assert!(seen.insert(name.clone()));
        }
    }
    assert_eq!(count, 160);
}

#[test]
fn write_and_read_load_the_call_registers() {
    let labels = LabelAllocator::new();
    let mut expected = transfer(4, 1);
    expected.push(Instruction::Add(Operand::Register("edx"), Operand::ConstU32(2)));
    expected.push(Instruction::Int(0x80));
    expected.extend(transfer(3, 0));
    expected.push(Instruction::Sub(Operand::Register("edx"), Operand::ConstU32(1)));
    expected.push(Instruction::Int(0x80));
    expected.extend(transfer(4, 1));
    expected.push(Instruction::Int(0x80));
    assert_eq!(
        compile(
            vec![vm::Instruction::Write(2), vm::Instruction::Read(-1), vm::Instruction::Write(0)],
            &labels
        ),
        expected
    );
}

#[test]
fn operands_are_written_as_text() {
    assert_eq!(Operand::ConstI32(-5).to_text(), "dword -5");
    assert_eq!(Operand::ConstI32(i32::MIN).to_text(), "dword -2147483648");
    assert_eq!(Operand::ConstI32(17).to_text(), "dword 17");
    assert_eq!(Operand::ConstU32(4000000000).to_text(), "dword 4000000000");
    assert_eq!(Operand::ConstU8(255).to_text(), "byte 255");
    assert_eq!(Operand::Register("eax").to_text(), "eax");
    assert_eq!(Operand::MemoryOffset(12).to_text(), "[esi + 12]");
    assert_eq!(Operand::MemoryOffset(0).to_text(), "[esi + 0]");
    assert_eq!(Operand::MemoryOffset(-12).to_text(), "[esi - 12]");
    assert_eq!(Operand::MemoryOffset(i32::MIN).to_text(), "[esi - 2147483648]");
}

#[test]
fn instructions_are_written_as_text() {
    assert_eq!(
        Instruction::Add(Operand::MemoryOffset(1), Operand::ConstU8(2)).to_text(),
        "\tadd\t[esi + 1],\tbyte 2"
    );
    assert_eq!(
        Instruction::Sub(esi(), Operand::ConstU32(3)).to_text(),
        "\tsub\tesi,\tdword 3"
    );
    assert_eq!(
        Instruction::Mov(Operand::Register("eax"), Operand::ConstI32(4)).to_text(),
        "\tmov\teax,\tdword 4"
    );
    assert_eq!(guard().to_text(), "\tcmp\t[esi + 0],\tbyte 0");
    assert_eq!(
        Instruction::Jif("jnz", String::from(".L_OPEN_7")).to_text(),
        "\tjnz\t.L_OPEN_7"
    );
    assert_eq!(Instruction::Label(String::from(".L_CLOSE_7")).to_text(), ".L_CLOSE_7");
    assert_eq!(Instruction::Int(0x80).to_text(), "int 80");
}

#[test]
fn generate_asm_frames_the_instructions() {
    let text = generate_asm(vec![Instruction::Add(Operand::MemoryOffset(0), Operand::ConstU8(1))]);
    assert_eq!(
        text,
        "global _start\nsection .bss\n\tmem resb 30000\nsection .text\n_start:\n\tmov\tesi,\tmem\n\
\tadd\t[esi + 0],\tbyte 1\n\
\tmov\teax,\tdword 1\n\
\tmov\tebx,\tdword 0\n\
\tmov\tbl,\t[esi + 0]\n\
int 80\n"
    );
}

#[test]
fn generate_asm_of_nothing_still_starts_and_exits() {
    assert_eq!(
        generate_asm(Vec::new()),
        "global _start\nsection .bss\n\tmem resb 30000\nsection .text\n_start:\n\tmov\tesi,\tmem\n\
\tmov\teax,\tdword 1\n\
\tmov\tebx,\tdword 0\n\
\tmov\tbl,\t[esi + 0]\n\
int 80\n"
    );
}

#[test]
fn every_jump_goes_to_a_label_of_the_program() {
    let mut program = vec![vm::Instruction::Write(0)];
    for depth in 0..6 {
        program = vec![
            vm::Instruction::Loop(program),
            vm::Instruction::Move(depth),
            vm::Instruction::Loop(vec![vm::Instruction::Add(1, 0), vm::Instruction::Loop(Vec::new())]),
        ];
    }
    let compiled = compile_from(program, 7);
    let mut names = std::collections::HashSet::new();
    for instruction in &compiled {
        if let Instruction::Label(name) = instruction {
            names.insert(name.clone());
        }
    }
    let mut jumps = 0;
    for instruction in &compiled {
        if let Instruction::Jif(_, target) = instruction {
            jumps += 1;
            assert!(names.contains(target));
        }
    }
    assert_eq!(jumps, 36);
    assert_eq!(names.len(), 36);
}

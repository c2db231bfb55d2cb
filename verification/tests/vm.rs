use tape_compiler::driver::optimize;
use tape_compiler::parser::parse;
use tape_compiler::vm::Instruction::{Add, Assign, Loop, Move, Read, Write};
use tape_compiler::vm::{RuntimeError, VM};

const LIMIT: usize = 100_000;

fn same_behaviour(source: &[u8], input: &[u8]) {
    let program = parse(source).unwrap();
    let plain = VM::run(&program, input, LIMIT);
    assert!(plain.is_ok());
    let optimized = optimize(program);
    assert_eq!(VM::run(&optimized, input, LIMIT), plain);
}

#[test]
fn new_machine_is_blank() {
    let vm = VM::new();
    assert_eq!(vm.memory.len(), 30000);
    assert!(vm.memory.iter().all(|cell| *cell == 0));
    assert_eq!(vm.cursor, 0);
    assert!(vm.output.is_empty());
}

#[test]
fn machine_with_input_has_it_all_unread() {
    let vm = VM::with_input(b"abc");
    assert_eq!(vm.input, b"abc".to_vec());
    assert_eq!(vm.consumed, 0);
    assert_eq!(vm.memory.len(), 30000);
    assert_eq!(vm.cursor, 0);
}

#[test]
fn compute_offset_stays_on_the_tape() {
    let mut vm = VM::new();
    assert_eq!(vm.compute_offset(0), Ok(0));
    assert_eq!(vm.compute_offset(29999), Ok(29999));
    assert_eq!(vm.compute_offset(30000), Err(RuntimeError::OutOfMemoryBounds));
    assert_eq!(vm.compute_offset(-1), Err(RuntimeError::OutOfMemoryBounds));
    assert_eq!(vm.compute_offset(isize::MAX), Err(RuntimeError::OutOfMemoryBounds));
    assert_eq!(vm.compute_offset(isize::MIN), Err(RuntimeError::OutOfMemoryBounds));
    vm.cursor = 100;
    assert_eq!(vm.compute_offset(-100), Ok(0));
    assert_eq!(vm.compute_offset(-101), Err(RuntimeError::OutOfMemoryBounds));
    assert_eq!(vm.compute_offset(29899), Ok(29999));
    assert_eq!(vm.compute_offset(29900), Err(RuntimeError::OutOfMemoryBounds));
    assert_eq!(vm.compute_offset(isize::MAX), Err(RuntimeError::OutOfMemoryBounds));
}

#[test]
fn run_returns_the_cell_under_the_cursor() {
    assert_eq!(VM::run(&vec![Add(3, 0), Add(254, 0)], b"", LIMIT), Ok((1, Vec::new())));
    assert_eq!(VM::run(&vec![Assign(9, 2), Move(2)], b"", LIMIT), Ok((9, Vec::new())));
    assert_eq!(VM::run(&Vec::new(), b"", LIMIT), Ok((0, Vec::new())));
}

#[test]
fn run_collects_the_output() {
    let program = vec![Add(72, 0), Write(0), Add(33, 1), Write(1), Move(1)];
    assert_eq!(VM::run(&program, b"", LIMIT), Ok((33, vec![72, 33])));
}

#[test]
fn run_reads_the_input_and_keeps_the_cell_at_its_end() {
    let program = vec![Read(0), Write(0), Read(1), Write(1), Assign(5, 2), Read(2), Write(2)];
    assert_eq!(VM::run(&program, b"ab", LIMIT), Ok((97, vec![97, 98, 5])));
}

#[test]
fn run_loops_while_the_cell_is_not_zero() {
    let program = vec![Add(3, 0), Loop(vec![Add(2, 1), Add(255, 0)]), Move(1)];
    assert_eq!(VM::run(&program, b"", LIMIT), Ok((6, Vec::new())));
}

#[test]
fn run_fails_outside_the_tape() {
    assert_eq!(VM::run(&vec![Move(-1)], b"", LIMIT), Err(RuntimeError::OutOfMemoryBounds));
    assert_eq!(VM::run(&vec![Add(1, 30000)], b"", LIMIT), Err(RuntimeError::OutOfMemoryBounds));
    assert_eq!(
        VM::run(&vec![Add(1, 0), Loop(vec![Move(1)])], b"", LIMIT),
        Ok((0, Vec::new()))
    );
    assert_eq!(
        VM::run(&vec![Add(1, 0), Loop(vec![Move(1), Add(1, 0)])], b"", LIMIT),
        Err(RuntimeError::OutOfMemoryBounds)
    );
    assert_eq!(VM::run(&vec![Move(-1), Move(1)], b"", LIMIT), Err(RuntimeError::OutOfMemoryBounds));
}

#[test]
fn run_stops_a_loop_at_the_limit() {
    let forever = vec![Add(1, 0), Loop(Vec::new())];
    assert_eq!(VM::run(&forever, b"", 10), Err(RuntimeError::LoopLimit));
    let three_rounds = vec![Add(3, 0), Loop(vec![Add(255, 0)])];
    assert_eq!(VM::run(&three_rounds, b"", 3), Ok((0, Vec::new())));
    assert_eq!(VM::run(&three_rounds, b"", 2), Err(RuntimeError::LoopLimit));
    assert_eq!(VM::run(&vec![Loop(Vec::new())], b"", 0), Ok((0, Vec::new())));
}

#[test]
fn folded_run_behaves_as_the_run() {
    let run = vec![
        Move(2),
        Add(1, 0),
        Move(-1),
        Add(2, 0),
        Assign(7, 3),
        Add(3, 3),
        Add(200, -1),
        Add(100, -1),
    ];
    let folded = tape_compiler::optimizer::optimize_set(&run);
    assert_eq!(folded, vec![Add(44, 0), Add(2, 1), Add(1, 2), Assign(10, 4), Move(1)]);
    let mut before = vec![Assign(10, 0), Assign(99, 4)];
    before.extend(run.iter().cloned());
    before.extend([Write(-1), Write(0), Write(1), Write(3)]);
    let mut after = vec![Assign(10, 0), Assign(99, 4)];
    after.extend(folded.iter().cloned());
    after.extend([Write(-1), Write(0), Write(1), Write(3)]);
    assert_eq!(VM::run(&before, b"", LIMIT), Ok((2, vec![54, 2, 1, 10])));
    assert_eq!(VM::run(&after, b"", LIMIT), VM::run(&before, b"", LIMIT));
}

#[test]
fn folded_run_may_succeed_where_the_run_leaves_the_tape() {
    let run = vec![Move(-1), Move(1), Add(1, 0)];
    assert_eq!(VM::run(&run, b"", LIMIT), Err(RuntimeError::OutOfMemoryBounds));
    let folded = tape_compiler::optimizer::optimize_set(&run);
    assert_eq!(VM::run(&folded, b"", LIMIT), Ok((1, Vec::new())));
}

#[test]
fn optimized_programs_behave_as_before() {
    same_behaviour(b"", b"");
    same_behaviour(b"+++.", b"");
    same_behaviour(b"++[>+++<-]>.", b"");
    same_behaviour(b"++++++++[>++++++++<-]>+.+.+.", b"");
    same_behaviour(b",[.,]", b"hello\x00");
    same_behaviour(b",>,<[->+<]>.", b"\x03\x04");
    same_behaviour(b"+++[-]>[-]+[.-]", b"");
    same_behaviour(b"+[-][.]>++[<+>-]<.", b"");
    same_behaviour(b">+++[<++[>>+<<-]>-]>.", b"");
    same_behaviour(b"++>+++<[->[->+>+<<]>>[-<<+>>]<<<]>>.", b"");
    same_behaviour(b"+[[-]]>,[>+<-]>.", b"A");
    same_behaviour(b"-[>+<-----]>.", b"");
}

#[test]
fn hello_is_printed_before_and_after_optimization() {
    let source = b"++++++++[>++++[>++>+++>+++>+<<<<-]>+>+>->>+[<]<-]>>.>---.+++++++..+++.>>.<-.<.+++.------.--------.>>+.>++.";
    let program = parse(source).unwrap();
    let plain = VM::run(&program, b"", LIMIT).unwrap();
    assert_eq!(plain.1, b"Hello World!\n".to_vec());
    let optimized = optimize(program);
    assert_eq!(VM::run(&optimized, b"", LIMIT), Ok(plain));
}

fn next(seed: &mut u64) -> u64 {
    *seed = seed.wrapping_mul(6364136223846793005).wrapping_add(1442695040888963407);
    *seed >> 33
}

fn random_program(seed: &mut u64, depth: u32, length: u64) -> Vec<tape_compiler::vm::Instruction> {
    let mut code = Vec::new();
    for _ in 0..length {
        let offset = (next(seed) % 5) as isize - 2;
        let value = (next(seed) % 4) as u8;
        let instruction = match next(seed) % 9 {
            0 | 1 => Add(value.wrapping_sub(1), offset),
            2 => Assign(value, offset),
            3 | 4 => Move(offset),
            5 => Write(offset),
            6 => Read(offset),
            _ if depth > 0 => {
                let inner = next(seed) % 4;
                Loop(random_program(seed, depth - 1, inner))
            }
            _ => Add(255, 0),
        };
        code.push(instruction);
    }
    code
}

#[test]
fn generated_programs_behave_as_before_after_optimization() {
    let mut seed = 2024;
    let mut finished = 0;
    for _ in 0..400 {
        let length = next(&mut seed) % 12;
        let mut program = vec![Move(100)];
        program.extend(random_program(&mut seed, 3, length));
        let plain = VM::run(&program, b"input bytes", 300);
        if plain.is_ok() {
            finished += 1;
            let optimized = optimize(program);
            assert_eq!(VM::run(&optimized, b"input bytes", 300), plain);
        }
    }
    assert!(finished > 100);
}

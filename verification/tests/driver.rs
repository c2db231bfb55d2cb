use tape_compiler::driver::{compile_x86, optimize, parse};
use tape_compiler::optimizer::{optimize as pass, optimize_instructions, MaximumOptimizationReached};
use tape_compiler::util::LabelAllocator;
use tape_compiler::vm::Instruction;
use tape_compiler::vm::Instruction::{Add, Assign, Loop, Move, Read, Write};

fn count(code: &Vec<Instruction>) -> usize {
    let mut n = 0;
    for instruction in code {
        n += 1;
        if let Loop(body) = instruction {
            n += count(body);
        }
    }
    n
}

fn samples() -> Vec<Vec<Instruction>> {
    vec![
        Vec::new(),
        vec![Move(0)],
        vec![Add(1, 1), Add(1, 0)],
        vec![Add(1, 0), Add(1, 0), Add(1, 0)],
        vec![Loop(vec![Add(255, 0)])],
        vec![Loop(vec![Loop(vec![Loop(Vec::new())])])],
        vec![Loop(vec![Add(1, 0), Loop(vec![Add(1, 0), Loop(vec![Add(1, 0)])])])],
        vec![Assign(0, 0), Loop(vec![Write(0)]), Loop(vec![Read(0)]), Add(1, 0)],
        vec![Add(3, 0), Loop(vec![Move(1), Add(2, 0), Move(-1), Add(255, 0)]), Move(1), Write(0)],
        vec![Read(0), Loop(vec![Loop(vec![Add(255, 0)]), Move(1), Loop(vec![Add(255, 0)]), Move(-1)])],
        parse(b"++[>+++<-]>[-]<[.>]+[[-]]").unwrap(),
    ]
}

#[test]
fn driver_returns_a_converged_program() {
    for program in samples() {
        let converged = optimize(program);
        assert_eq!(pass(&converged), Err(MaximumOptimizationReached));
        assert_eq!(optimize_instructions(&converged), converged);
    }
}

#[test]
fn driver_keeps_a_converged_program() {
    let converged = vec![Add(2, 0), Loop(vec![Write(0), Move(1)]), Assign(0, 3)];
    assert_eq!(pass(&converged), Err(MaximumOptimizationReached));
    assert_eq!(optimize(converged.clone()), converged);
}

#[test]
fn optimizing_twice_is_optimizing_once() {
    for program in samples() {
        let once = optimize(program);
        let twice = optimize(once.clone());
        assert_eq!(twice, once);
    }
}

#[test]
fn driver_converges_within_the_instruction_count() {
    for program in samples() {
        let bound = count(&program);
        let mut current = program;
        let mut changes = 0;
        while let Ok(next) = pass(&current) {
            current = next;
            changes += 1;
            assert!(changes <= bound);
        }
    }
}

#[test]
fn nested_clearing_loops_take_one_pass_per_level() {
    let program = vec![Loop(vec![Add(1, 0), Loop(vec![Add(1, 0), Loop(vec![Add(1, 0)])])])];
    let first = pass(&program).unwrap();
    assert_eq!(first, vec![Loop(vec![Add(1, 0), Loop(vec![Add(1, 0), Assign(0, 0)])])]);
    let second = pass(&first).unwrap();
    assert_eq!(second, vec![Loop(vec![Add(1, 0), Assign(0, 0)])]);
    let third = pass(&second).unwrap();
    assert_eq!(third, vec![Assign(0, 0)]);
    assert_eq!(pass(&third), Err(MaximumOptimizationReached));
    assert_eq!(optimize(program), vec![Assign(0, 0)]);
}

#[test]
fn driver_merges_runs_around_a_removed_loop() {
    let program = vec![Add(1, 0), Loop(vec![Add(255, 0)]), Add(2, 0), Loop(vec![Write(0)])];
    assert_eq!(optimize(program), vec![Assign(2, 0), Loop(vec![Write(0)])]);
}

#[test]
fn driver_parse_words_the_error() {
    assert_eq!(parse(b"+]"), Err(String::from("unexpected `]`: no loop is open")));
    assert_eq!(parse(b"+-"), Ok(vec![Add(1, 0), Add(255, 0)]));
}

#[test]
fn compile_x86_writes_the_whole_program() {
    let labels = LabelAllocator::new();
    let text = compile_x86(b"+++[>.<-]", &labels).unwrap();
    let expected = "global _start\nsection .bss\n\tmem resb 30000\nsection .text\n_start:\n\tmov\tesi,\tmem\n\
\tadd\t[esi + 0],\tbyte 3\n\
\tcmp\t[esi + 0],\tbyte 0\n\
\tjz\t.L_CLOSE_0\n\
.L_OPEN_0\n\
\tadd\tesi,\tdword 1\n\
\tmov\teax,\tdword 4\n\
\tmov\tebx,\tdword 1\n\
\tmov\tecx,\tdword 1\n\
\tmov\tedx,\tesi\n\
int 80\n\
\tadd\t[esi - 1],\tbyte 255\n\
\tsub\tesi,\tdword 1\n\
\tcmp\t[esi + 0],\tbyte 0\n\
\tjnz\t.L_OPEN_0\n\
.L_CLOSE_0\n\
\tmov\teax,\tdword 1\n\
\tmov\tebx,\tdword 0\n\
\tmov\tbl,\t[esi + 0]\n\
int 80\n";
    assert_eq!(text, expected);
    assert_eq!(labels.next_id(), "1");
}

#[test]
fn compile_x86_rejects_an_unopened_bracket() {
    let labels = LabelAllocator::new();
    assert_eq!(
        compile_x86(b"[+]]", &labels),
        Err(String::from("unexpected `]`: no loop is open"))
    );
    assert_eq!(labels.next_id(), "0");
}

#[test]
fn compile_x86_takes_labels_for_the_optimized_program_only() {
    let labels = LabelAllocator::new();
    let text = compile_x86(b"[-]+[.]", &labels).unwrap();
    assert!(text.contains(".L_OPEN_0\n"));
    assert!(!text.contains(".L_OPEN_1"));
    assert_eq!(labels.next_id(), "1");
}

#[test]
fn optimizing_never_makes_a_program_longer() {
    for program in samples() {
        let before = count(&program);
        let mut current = program;
        while let Ok(next) = pass(&current) {
            assert!(count(&next) <= count(&current));
            current = next;
        }
        assert!(count(&current) <= before);
    }
}

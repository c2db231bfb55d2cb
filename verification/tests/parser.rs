use tape_compiler::parser::{parse, ParserError};
use tape_compiler::vm::Instruction;
use tape_compiler::vm::Instruction::{Add, Loop, Move, Read, Write};

#[test]
fn each_character_gives_its_instruction() {
    assert_eq!(
        parse(b"+-<>.,"),
        Ok(vec![Add(1, 0), Add(255, 0), Move(-1), Move(1), Write(0), Read(0)])
    );
}

#[test]
fn other_characters_are_skipped() {
    assert_eq!(parse(b"a + b\n- \t#"), Ok(vec![Add(1, 0), Add(255, 0)]));
    assert_eq!(parse(b"hello"), Ok(Vec::new()));
}

#[test]
fn empty_source_is_the_empty_program() {
    assert_eq!(parse(b""), Ok(Vec::<Instruction>::new()));
}

#[test]
fn brackets_nest() {
    assert_eq!(
        parse(b"+[>[-]<[]]."),
        Ok(vec![
            Add(1, 0),
            Loop(vec![Move(1), Loop(vec![Add(255, 0)]), Move(-1), Loop(Vec::new())]),
            Write(0),
        ])
    );
}

#[test]
fn closing_bracket_without_an_open_loop_is_an_error() {
    assert_eq!(parse(b"]"), Err(ParserError::UnexpectedBracket));
    assert_eq!(parse(b"+[-]]+"), Err(ParserError::UnexpectedBracket));
    assert_eq!(parse(b"[]][+"), Err(ParserError::UnexpectedBracket));
}

#[test]
fn loops_open_at_the_end_are_closed_there() {
    assert_eq!(parse(b"["), Ok(vec![Loop(Vec::new())]));
    assert_eq!(
        parse(b"+[-[>"),
        Ok(vec![Add(1, 0), Loop(vec![Add(255, 0), Loop(vec![Move(1)])])])
    );
}

#[test]
fn errors_are_worded() {
    assert_eq!(ParserError::UnexpectedBracket.to_text(), "unexpected `]`: no loop is open");
    assert_eq!(
        ParserError::IOError(String::from("disk on fire")).to_text(),
        "cannot read the source: disk on fire"
    );
}

fn source_of(code: &Vec<Instruction>) -> Vec<u8> {
    let mut text = Vec::new();
    for instruction in code {
        match instruction {
            Add(1, 0) => text.push(b'+'),
            Add(255, 0) => text.push(b'-'),
            Move(1) => text.push(b'>'),
            Move(-1) => text.push(b'<'),
            Write(0) => text.push(b'.'),
            Read(0) => text.push(b','),
            Loop(body) => {
                text.push(b'[');
                text.extend(source_of(body));
                text.push(b']');
            }
            other => panic!("{:?} has no character", other),
        }
    }
    text
}

#[test]
fn parsing_the_source_of_a_program_gives_it_back() {
    let program = vec![
        Add(1, 0),
        Loop(vec![
            Move(1),
            Loop(Vec::new()),
            Read(0),
            Loop(vec![Add(255, 0), Loop(vec![Write(0)])]),
            Move(-1),
        ]),
        Loop(Vec::new()),
        Write(0),
    ];
    let text = source_of(&program);
    assert_eq!(text, b"+[>[],[-[.]]<][].".to_vec());
    assert_eq!(parse(&text), Ok(program));
}

use brainpurr::bf_parser::{parse, try_parse, unparse};
use brainpurr::error::BrainpurrError;
use brainpurr::parser::{self as brainpurr_text, Instruction};

#[test]
fn bf_parser_parsing() {
    assert_eq!(
        parse("><+-.,[]"),
        vec![
            Instruction::PointerIncrement(1),
            Instruction::PointerDecrement(1),
            Instruction::ByteIncrement(1),
            Instruction::ByteDecrement(1),
            Instruction::ByteOutput,
            Instruction::ByteInput,
            Instruction::OpenLoop(7),
            Instruction::CloseLoop(6)
        ]
    );
}

#[test]
fn bf_parser_unparsing() {
    assert_eq!(
        unparse(vec![
            Instruction::PointerIncrement(1),
            Instruction::PointerDecrement(1),
            Instruction::ByteIncrement(1),
            Instruction::ByteDecrement(1),
            Instruction::ByteOutput,
            Instruction::ByteInput,
            Instruction::OpenLoop(7),
            Instruction::CloseLoop(6)
        ]),
        "><+-.,[]"
    );
}

#[test]
fn bf_try_parse_reports_unbalanced_brackets() {
    assert!(matches!(try_parse("[[]"), Err(BrainpurrError::TooManyNya)));
    assert!(matches!(try_parse("[]]"), Err(BrainpurrError::TooManyColonThree)));
    assert!(matches!(try_parse("][["), Err(BrainpurrError::TooManyColonThree)));
}

#[test]
fn bf_parse_skips_comments_and_does_not_merge() {
    assert_eq!(
        parse("a>>b [-] c"),
        vec![
            Instruction::PointerIncrement(1),
            Instruction::PointerIncrement(1),
            Instruction::OpenLoop(4),
            Instruction::ByteDecrement(1),
            Instruction::CloseLoop(2)
        ]
    );
}

#[test]
fn bf_unparse_repeats_symbols() {
    assert_eq!(
        unparse(vec![
            Instruction::PointerIncrement(3),
            Instruction::ByteDecrement(2),
            Instruction::PointerDecrement(0),
            Instruction::CloseLoop(9)
        ]),
        ">>>--]"
    );
}

#[test]
fn bf_text_reads_back() {
    let program = parse("++[>+++<-]>.,comment");
    let text = unparse(program.clone());
    assert_eq!(text, "++[>+++<-]>.,");
    assert_eq!(parse(&text), program);
}

#[test]
#[should_panic]
fn bf_parser_too_many_open_loop() {
    try_parse("[[]").unwrap();
}

#[test]
#[should_panic]
fn bf_parser_too_many_close_loop() {
    try_parse("[]]").unwrap();
}

#[test]
fn bf_to_brainpurr_keeps_program() {
    let program = parse("+[->+<].");
    let text = brainpurr_text::unparse(program.clone());
    assert_eq!(text, "mrp nya purr meow mrp mrow :3 :3c");
    assert_eq!(brainpurr_text::parse(&text).unwrap(), program);
}

#[test]
fn brainpurr_to_bf_keeps_program() {
    let program = brainpurr_text::parse("mrp mrp nya purr meow meow mrp mrow mrow :3").unwrap();
    let text = unparse(program.clone());
    assert_eq!(text, "++[->>+<<]");
    let read = parse(&text);
    assert_eq!(read.len(), 10);
    assert_eq!(brainpurr_text::fix_instructions(read).unwrap(), program);
}

#[test]
fn bf_unparse_gives_the_symbols() {
    assert_eq!(unparse(parse("a+b [-] c.\n,>< end")), "+[-].,><");
}

#[test]
fn brainpurr_to_bf_and_back() {
    let p = brainpurr_text::parse("purr purr nya meow mrp mrow purr :3 >:3").unwrap();
    let back = brainpurr_text::fix_instructions(parse(&unparse(p.clone()))).unwrap();
    assert_eq!(back, p);
}

use brainpurr::error::BrainpurrError;
use brainpurr::parser::{fix_instructions, optimize_instructions, parse, unparse, Instruction};
use brainpurr::optimizer::try_optimize_instructions;

#[test]
fn parser_parsing() {
    assert_eq!(
        parse("meow mrp mrow purr :3c >:3 nya :3").unwrap(),
        vec![
            Instruction::PointerIncrement(1),
            Instruction::ByteIncrement(1),
            Instruction::PointerDecrement(1),
            Instruction::ByteDecrement(1),
            Instruction::ByteOutput,
            Instruction::ByteInput,
            Instruction::OpenLoop(7),
            Instruction::CloseLoop(6)
        ]
    );
}

#[test]
fn parser_unparsing() {
    assert_eq!(
        unparse(vec![
            Instruction::PointerIncrement(1),
            Instruction::PointerDecrement(1),
            Instruction::ByteIncrement(1),
            Instruction::ByteDecrement(1),
            Instruction::ByteOutput,
            Instruction::ByteInput,
            Instruction::OpenLoop(7),
            Instruction::CloseLoop(6)
        ]),
        "meow mrow mrp purr :3c >:3 nya :3"
    );
}

#[test]
#[should_panic]
fn parser_too_many_open_loop() {
    parse("nya nya :3").unwrap();
}

#[test]
#[should_panic]
fn parser_too_many_close_loop() {
    parse("nya :3 :3").unwrap();
}

#[test]
fn optimizations() {
    assert_eq!(
        parse("meow mrp meow mrp meow mrp purr mrow purr mrow purr mrow").unwrap(),
        vec![]
    );
}

#[test]
fn parse_reports_unmatched_close_first() {
    assert!(matches!(parse(":3 nya"), Err(BrainpurrError::TooManyColonThree)));
    assert!(matches!(parse("nya nya :3"), Err(BrainpurrError::TooManyNya)));
    assert!(matches!(parse("nya :3 :3 nya"), Err(BrainpurrError::TooManyColonThree)));
}

#[test]
fn parse_merges_adjacent_steps() {
    assert_eq!(
        parse("meow meow meow mrp mrp mrow").unwrap(),
        vec![
            Instruction::PointerIncrement(3),
            Instruction::ByteIncrement(2),
            Instruction::PointerDecrement(1)
        ]
    );
    assert_eq!(
        parse("mrow mrow meow purr").unwrap(),
        vec![Instruction::PointerDecrement(1), Instruction::ByteDecrement(1)]
    );
}

#[test]
fn parse_ignores_other_words_and_any_whitespace() {
    assert_eq!(
        parse("hello\tmeow\n\n  cat :3c\u{3000}nyaa nya\r\n:3 meowmeow").unwrap(),
        vec![
            Instruction::PointerIncrement(1),
            Instruction::ByteOutput,
            Instruction::OpenLoop(3),
            Instruction::CloseLoop(2)
        ]
    );
    assert_eq!(parse("").unwrap(), vec![]);
    assert_eq!(parse("   ").unwrap(), vec![]);
}

#[test]
fn parse_links_nested_loops() {
    assert_eq!(
        parse("nya :3c nya mrp :3 :3").unwrap(),
        vec![
            Instruction::OpenLoop(5),
            Instruction::ByteOutput,
            Instruction::OpenLoop(4),
            Instruction::ByteIncrement(1),
            Instruction::CloseLoop(2),
            Instruction::CloseLoop(0)
        ]
    );
}

#[test]
fn unparse_repeats_words() {
    assert_eq!(
        unparse(vec![
            Instruction::PointerIncrement(3),
            Instruction::ByteDecrement(2),
            Instruction::OpenLoop(0)
        ]),
        "meow meow meow purr purr nya"
    );
    assert_eq!(unparse(vec![]), "");
    assert_eq!(
        unparse(vec![Instruction::ByteOutput, Instruction::ByteIncrement(0), Instruction::ByteInput]),
        ":3c  >:3"
    );
}

#[test]
fn optimize_reads_counts_as_i32() {
    assert_eq!(
        optimize_instructions(vec![
            Instruction::ByteIncrement(5),
            Instruction::ByteDecrement(7),
            Instruction::ByteOutput,
            Instruction::PointerDecrement(0)
        ]),
        vec![Instruction::ByteDecrement(2), Instruction::ByteOutput]
    );
    assert_eq!(
        optimize_instructions(vec![Instruction::PointerIncrement(1usize << 32)]),
        vec![]
    );
}

#[test]
fn fix_instructions_optimises_then_links() {
    assert_eq!(
        fix_instructions(vec![
            Instruction::OpenLoop(0),
            Instruction::ByteIncrement(1),
            Instruction::ByteIncrement(1),
            Instruction::CloseLoop(0)
        ])
        .unwrap(),
        vec![
            Instruction::OpenLoop(2),
            Instruction::ByteIncrement(2),
            Instruction::CloseLoop(0)
        ]
    );
}

#[test]
fn optimizing_twice_is_optimizing_once() {
    let program = vec![
        Instruction::PointerIncrement(2),
        Instruction::PointerDecrement(1),
        Instruction::ByteIncrement(3),
        Instruction::ByteDecrement(3),
        Instruction::PointerIncrement(4),
        Instruction::ByteOutput,
        Instruction::ByteDecrement(0),
        Instruction::ByteDecrement(2),
    ];
    let once = optimize_instructions(program);
    assert_eq!(
        once,
        vec![Instruction::PointerIncrement(5), Instruction::ByteOutput, Instruction::ByteDecrement(2)]
    );
    assert_eq!(optimize_instructions(once.clone()), once);
}

#[test]
fn optimizer_keeps_io_and_loops_and_totals() {
    let program = vec![
        Instruction::OpenLoop(0),
        Instruction::ByteIncrement(1),
        Instruction::ByteInput,
        Instruction::PointerDecrement(2),
        Instruction::PointerIncrement(2),
        Instruction::PointerIncrement(1),
        Instruction::CloseLoop(0),
        Instruction::ByteDecrement(1),
        Instruction::ByteDecrement(1),
    ];
    let out = optimize_instructions(program.clone());
    let control = |s: &Vec<Instruction>| {
        s.iter()
            .filter(|i| {
                !matches!(
                    i,
                    Instruction::PointerIncrement(_)
                        | Instruction::PointerDecrement(_)
                        | Instruction::ByteIncrement(_)
                        | Instruction::ByteDecrement(_)
                )
            })
            .cloned()
            .collect::<Vec<_>>()
    };
    assert_eq!(control(&out), control(&program));
    let total = |s: &Vec<Instruction>, moves: bool| -> i64 {
        s.iter()
            .map(|i| match (i, moves) {
                (Instruction::PointerIncrement(x), true) | (Instruction::ByteIncrement(x), false) => *x as i64,
                (Instruction::PointerDecrement(x), true) | (Instruction::ByteDecrement(x), false) => -(*x as i64),
                _ => 0,
            })
            .sum()
    };
    assert_eq!(total(&out, true), total(&program, true));
    assert_eq!(total(&out, false), total(&program, false));
    assert_eq!(
        out,
        vec![
            Instruction::OpenLoop(0),
            Instruction::ByteIncrement(1),
            Instruction::ByteInput,
            Instruction::PointerIncrement(1),
            Instruction::CloseLoop(0),
            Instruction::ByteDecrement(2)
        ]
    );
}

#[test]
fn loop_balance_is_decided_by_nya_and_colon_three() {
    assert!(matches!(parse("nya meow mrow :3 :3"), Err(BrainpurrError::TooManyColonThree)));
    assert!(matches!(parse("nya nya mrp purr :3"), Err(BrainpurrError::TooManyNya)));
    assert!(parse("nya meow mrow :3").is_ok());
}

#[test]
fn linked_loops_point_to_each_other() {
    let program = parse("nya nya :3 meow nya mrp :3 :3 nya :3").unwrap();
    for (i, instruction) in program.iter().enumerate() {
        match instruction {
            Instruction::OpenLoop(j) => assert_eq!(program[*j], Instruction::CloseLoop(i)),
            Instruction::CloseLoop(j) => assert_eq!(program[*j], Instruction::OpenLoop(i)),
            _ => {}
        }
    }
}

#[test]
fn brainpurr_text_reads_back() {
    let program = parse("meow meow mrp nya purr purr purr meow :3 >:3 mrow mrow :3c").unwrap();
    let text = unparse(program.clone());
    assert_eq!(text, "meow meow mrp nya purr purr purr meow :3 >:3 mrow mrow :3c");
    assert_eq!(parse(&text).unwrap(), program);
}

#[test]
fn optimizing_the_optimised_output_gives_it_back() {
    let v = vec![
        Instruction::PointerIncrement(2),
        Instruction::PointerDecrement(5),
        Instruction::ByteIncrement(0),
        Instruction::ByteDecrement(3),
        Instruction::ByteIncrement(1),
        Instruction::ByteOutput,
    ];
    let r = optimize_instructions(v);
    assert_eq!(r, vec![Instruction::PointerDecrement(3), Instruction::ByteDecrement(2), Instruction::ByteOutput]);
    assert_eq!(optimize_instructions(r.clone()), r);
}

#[test]
fn fixing_fixed_instructions_gives_them_back() {
    let r = fix_instructions(vec![
        Instruction::ByteIncrement(1),
        Instruction::OpenLoop(0),
        Instruction::ByteDecrement(1),
        Instruction::ByteDecrement(1),
        Instruction::CloseLoop(0),
    ])
    .unwrap();
    assert_eq!(r, vec![Instruction::ByteIncrement(1), Instruction::OpenLoop(3), Instruction::ByteDecrement(2), Instruction::CloseLoop(1)]);
    assert_eq!(fix_instructions(r.clone()).unwrap(), r);
}

#[test]
fn parsing_unparsed_program_gives_it_back() {
    let p = parse("mrp mrp nya purr meow mrp mrp mrow :3 :3c").unwrap();
    assert_eq!(parse(&unparse(p.clone())).unwrap(), p);
}

#[test]
fn parse_ignores_other_words() {
    let with_noise = parse("hello meow, meow\tmrp\n:3c cat nya purr :3 :3cc").unwrap();
    assert_eq!(with_noise, parse("meow mrp :3c nya purr :3").unwrap());
    assert_eq!(with_noise.len(), 6);
}

#[test]
fn parse_checked_reads_as_parse() {
    match brainpurr::parser::parse_checked("meow mrp nya purr :3") {
        Some(Ok(p)) => assert_eq!(p, parse("meow mrp nya purr :3").unwrap()),
        _ => panic!("expected a program"),
    }
    assert!(matches!(brainpurr::parser::parse_checked("nya"), Some(Err(BrainpurrError::TooManyNya))));
}

#[test]
fn try_optimize_reports_overflowing_sums() {
    assert_eq!(
        try_optimize_instructions(vec![Instruction::ByteIncrement(i32::MAX as usize), Instruction::ByteIncrement(1)]),
        None
    );
    assert_eq!(
        try_optimize_instructions(vec![Instruction::ByteIncrement(i32::MAX as usize), Instruction::ByteDecrement(1)]),
        Some(vec![Instruction::ByteIncrement(i32::MAX as usize - 1)])
    );
}

fn stretch_totals(s: &[Instruction], pointer: bool) -> Vec<i64> {
    let mut totals = vec![0i64];
    for i in s {
        let (is_move, v) = match *i {
            Instruction::PointerIncrement(x) => (true, x as i64),
            Instruction::PointerDecrement(x) => (true, -(x as i64)),
            Instruction::ByteIncrement(x) => (false, x as i64),
            Instruction::ByteDecrement(x) => (false, -(x as i64)),
            _ => {
                totals.push(0);
                continue;
            }
        };
        if is_move == pointer {
            *totals.last_mut().unwrap() += v;
        }
    }
    totals
}

#[test]
fn optimizer_keeps_each_stretch_net_effect() {
    let v = vec![
        Instruction::PointerIncrement(2),
        Instruction::ByteIncrement(4),
        Instruction::PointerDecrement(3),
        Instruction::ByteOutput,
        Instruction::ByteIncrement(1),
        Instruction::ByteIncrement(2),
        Instruction::OpenLoop(0),
        Instruction::PointerDecrement(1),
        Instruction::PointerIncrement(1),
        Instruction::CloseLoop(0),
    ];
    let r = optimize_instructions(v.clone());
    assert_eq!(stretch_totals(&r, true), vec![-1, 0, 0, 0]);
    assert_eq!(stretch_totals(&r, true), stretch_totals(&v, true));
    assert_eq!(stretch_totals(&r, false), vec![4, 3, 0, 0]);
    assert_eq!(stretch_totals(&r, false), stretch_totals(&v, false));
}

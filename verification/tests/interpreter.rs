use std::path::PathBuf;

use brainpurr::args::{Args, InputMethod, OutputMethod, PointerWrapMode};
use brainpurr::interpreter::{newline_zero_map, InputOutcome, Interpreter, StepOutcome};
use brainpurr::parser::{parse, Instruction};

fn args(input: InputMethod, output: OutputMethod, newline_zero: bool, max_array_size: Option<u32>) -> Args {
    Args {
        path: PathBuf::from("test.bp"),
        show_final_array: false,
        from_brainfuck: false,
        to_brainpurr: false,
        to_brainfuck: false,
        to_c: false,
        compile: false,
        max_array_size,
        gcc_args: None,
        input,
        output,
        newline_zero,
        pointer_wrap: PointerWrapMode::Crash,
    }
}

/// Runs a program to its end as the tool does, reading from `lines`; stops
/// with the outcome that ends the program early, if any.
fn run(
    instructions: Vec<Instruction>,
    args: &Args,
    writer: &mut Vec<u8>,
    lines: &[&str],
) -> Result<Vec<u8>, StepOutcome> {
    let mut machine = Interpreter::new(instructions, args);
    let mut next_line = 0;
    loop {
        match machine.step() {
            StepOutcome::Ran => {}
            StepOutcome::Output(bytes) => writer.extend_from_slice(&bytes),
            StepOutcome::NeedInput => loop {
                assert!(next_line < lines.len(), "no more input");
                let line = lines[next_line];
                next_line += 1;
                match machine.give_input(line) {
                    InputOutcome::Stored => break,
                    InputOutcome::NeedMore => {}
                    InputOutcome::Invalid => panic!("invalid input"),
                }
            },
            StepOutcome::Finished => return Ok(machine.into_array()),
            other => return Err(other),
        }
    }
}

fn interpreter(instructions: Vec<Instruction>, args: &Args, writer: &mut Vec<u8>) -> Vec<u8> {
    match run(instructions, args, writer, &[]) {
        Ok(array) => array,
        Err(outcome) => panic!("program stopped: {:?}", outcome),
    }
}

fn normal() -> Args {
    args(InputMethod::Normal, OutputMethod::Normal, false, None)
}

const ECHO: &str = ">:3 purr purr purr purr purr purr purr purr purr purr nya mrp mrp mrp mrp mrp mrp mrp mrp mrp mrp :3c >:3 purr purr purr purr purr purr purr purr purr purr :3 mrp mrp mrp mrp mrp mrp mrp mrp mrp mrp :3c";

const NEWLINE_ZERO: &str = ">:3 meow >:3 mrow :3c meow :3c mrow :3c meow :3c";

#[test]
fn interpreter_increment() {
    assert_eq!(interpreter(vec![Instruction::ByteIncrement(1)], &normal(), &mut vec![]), vec![1]);
}

#[test]
fn interpreter_byte_overflow() {
    assert_eq!(interpreter(vec![Instruction::ByteIncrement(1); 256], &normal(), &mut vec![]), vec![0]);
}

#[test]
fn interpreter_increment_overflow() {
    assert_eq!(interpreter(vec![Instruction::ByteIncrement(256)], &normal(), &mut vec![]), vec![0]);
}

#[test]
fn interpreter_decrement() {
    assert_eq!(
        interpreter(vec![Instruction::ByteIncrement(1), Instruction::ByteDecrement(1)], &normal(), &mut vec![]),
        vec![0]
    );
}

#[test]
fn interpreter_byte_underflow() {
    assert_eq!(interpreter(vec![Instruction::ByteDecrement(1); 256], &normal(), &mut vec![]), vec![0]);
}

#[test]
fn interpreter_decrement_overflow() {
    assert_eq!(interpreter(vec![Instruction::ByteDecrement(256)], &normal(), &mut vec![]), vec![0]);
}

#[test]
fn interpreter_pointer_increment() {
    assert_eq!(
        interpreter(vec![Instruction::PointerIncrement(1), Instruction::ByteIncrement(1)], &normal(), &mut vec![]),
        vec![0, 1]
    );
}

#[test]
fn interpreter_pointer_decrement() {
    assert_eq!(
        interpreter(
            vec![Instruction::PointerIncrement(1), Instruction::PointerDecrement(1), Instruction::ByteIncrement(1)],
            &normal(),
            &mut vec![]
        ),
        vec![1, 0]
    );
}

#[test]
#[should_panic]
fn interpreter_pointer_underflow() {
    interpreter(vec![Instruction::PointerDecrement(1)], &normal(), &mut vec![]);
}

#[test]
fn interpreter_input_normal_mode() {
    let mut out = vec![];
    run(parse(ECHO).unwrap(), &normal(), &mut out, &["pomme is cute\n"]).unwrap();
    assert_eq!(out, b"pomme is cute\n".to_vec());
}

#[test]
fn input_first_char_only_mode() {
    let text = "pomme is cute\n".chars().map(|x| x.to_string()).collect::<Vec<String>>().join("\n");
    let lines: Vec<String> = text.split_inclusive('\n').map(|l| l.to_string()).collect();
    let lines: Vec<&str> = lines.iter().map(|l| l.as_str()).collect();
    let mut out = vec![];
    let a = args(InputMethod::FirstCharOnly, OutputMethod::Normal, false, None);
    run(parse(ECHO).unwrap(), &a, &mut out, &lines).unwrap();
    assert_eq!(out, b"pomme is cute\n".to_vec());
}

#[test]
fn input_byte_as_number_mode() {
    let lines: Vec<String> = "pomme is cute\n".chars().map(|x| format!("{}\n", x as u8)).collect();
    let lines: Vec<&str> = lines.iter().map(|l| l.as_str()).collect();
    let mut out = vec![];
    let a = args(InputMethod::ByteAsNumber, OutputMethod::Normal, false, None);
    run(parse(ECHO).unwrap(), &a, &mut out, &lines).unwrap();
    assert_eq!(out, b"pomme is cute\n".to_vec());
}

#[test]
fn interpreter_output_normal_mode() {
    let instructions = vec![Instruction::ByteIncrement(67), Instruction::ByteOutput];
    let mut result = vec![];
    interpreter(instructions, &normal(), &mut result);
    assert_eq!(result, vec![67])
}

#[test]
fn interpreter_output_byte_as_number() {
    let instructions = vec![Instruction::ByteIncrement(67), Instruction::ByteOutput];
    let mut result = vec![];
    let a = args(InputMethod::Normal, OutputMethod::ByteAsNumber, false, None);
    interpreter(instructions, &a, &mut result);
    assert_eq!(result, vec!['6' as u8, '7' as u8, '\n' as u8])
}

#[test]
fn nya_loop() {
    let mut instructions = vec![
        Instruction::ByteIncrement(7),
        Instruction::OpenLoop(6),
        Instruction::ByteDecrement(1),
        Instruction::PointerIncrement(1),
        Instruction::ByteIncrement(6),
        Instruction::PointerDecrement(1),
        Instruction::CloseLoop(1),
    ];
    instructions.push(Instruction::ByteOutput);
    let a = args(InputMethod::Normal, OutputMethod::ByteAsNumber, false, None);
    let result = interpreter(instructions, &a, &mut vec![]);
    assert_eq!(result, vec![0, 42])
}

#[test]
fn newline_zero() {
    let program = parse(NEWLINE_ZERO).unwrap();
    let mut out = vec![];
    let a = args(InputMethod::Normal, OutputMethod::Normal, true, None);
    run(program.clone(), &a, &mut out, &["\n", "\0"]).unwrap();
    assert_eq!(out, b"\n\0\n\0".to_vec());

    let mut out = vec![];
    let a = args(InputMethod::ByteAsNumber, OutputMethod::ByteAsNumber, true, None);
    run(program.clone(), &a, &mut out, &["10\n", "0\n"]).unwrap();
    assert_eq!(out, b"10\n0\n10\n0\n".to_vec());

    let mut out = vec![];
    let a = args(InputMethod::FirstCharOnly, OutputMethod::Normal, true, None);
    run(program, &a, &mut out, &["\n", "\0\n"]).unwrap();
    assert_eq!(out, b"\n\0\n\0".to_vec());
}

#[test]
fn interpreter_max_array_size_border() {
    let program = parse("meow meow meow meow meow meow meow meow meow").unwrap();
    let mut out = vec![];
    let a = args(InputMethod::Normal, OutputMethod::Normal, false, Some(10));
    assert_eq!(run(program, &a, &mut out, &[]).unwrap(), vec![0; 10]);
    assert_eq!(out, Vec::<u8>::new());
}

#[test]
fn interpreter_max_array_size_overflow() {
    let program = parse("meow meow meow meow meow meow meow meow meow").unwrap();
    let mut out = vec![];
    let a = args(InputMethod::Normal, OutputMethod::Normal, false, Some(9));
    assert!(matches!(run(program, &a, &mut out, &[]), Err(StepOutcome::PointerOverflow)));
    assert_eq!(out, Vec::<u8>::new());
}

#[test]
fn growing_array_follows_long_moves() {
    assert_eq!(
        interpreter(vec![Instruction::PointerIncrement(3), Instruction::ByteIncrement(5)], &normal(), &mut vec![]),
        vec![0, 0, 0, 5]
    );
}

#[test]
fn empty_fixed_array_has_no_cell() {
    let a = args(InputMethod::Normal, OutputMethod::Normal, false, Some(0));
    assert!(matches!(run(vec![Instruction::ByteIncrement(1)], &a, &mut vec![], &[]), Err(StepOutcome::OutOfBounds)));
    assert_eq!(run(vec![], &a, &mut vec![], &[]).unwrap(), Vec::<u8>::new());
}

#[test]
fn high_bytes_are_written_as_utf8_characters() {
    let mut out = vec![];
    interpreter(vec![Instruction::ByteIncrement(200), Instruction::ByteOutput], &normal(), &mut out);
    assert_eq!(out, "\u{c8}".as_bytes().to_vec());
    let mut out = vec![];
    let a = args(InputMethod::Normal, OutputMethod::ByteAsNumber, false, None);
    interpreter(vec![Instruction::ByteDecrement(1), Instruction::ByteOutput], &a, &mut out);
    assert_eq!(out, b"255\n".to_vec());
}

#[test]
fn byte_as_number_input_rejects_bad_lines() {
    let program = vec![Instruction::ByteInput];
    let a = args(InputMethod::ByteAsNumber, OutputMethod::Normal, false, None);
    for bad in ["256\n", "-1\n", "x\n", "\n", "", "+\n", "12\u{e9}"] {
        let mut machine = Interpreter::new(program.clone(), &a);
        assert!(matches!(machine.step(), StepOutcome::NeedInput));
        assert_eq!(machine.give_input(bad), InputOutcome::Invalid, "{:?}", bad);
    }
    for (good, value) in [("255\n", 255u8), ("+7\n", 7), ("007\n", 7), ("42", 4)] {
        let mut machine = Interpreter::new(program.clone(), &a);
        assert!(matches!(machine.step(), StepOutcome::NeedInput));
        assert_eq!(machine.give_input(good), InputOutcome::Stored);
        assert_eq!(machine.array(), &vec![value]);
    }
}

#[test]
fn first_char_input_keeps_the_low_byte() {
    let a = args(InputMethod::FirstCharOnly, OutputMethod::Normal, false, None);
    let mut machine = Interpreter::new(vec![Instruction::ByteInput], &a);
    assert!(matches!(machine.step(), StepOutcome::NeedInput));
    assert_eq!(machine.give_input(""), InputOutcome::Invalid);
    assert_eq!(machine.give_input("\u{141}x\n"), InputOutcome::Stored);
    assert_eq!(machine.array(), &vec![0x41]);
}

#[test]
fn normal_input_queues_the_rest_of_the_line() {
    let program = vec![Instruction::ByteInput, Instruction::PointerIncrement(1), Instruction::ByteInput];
    let mut machine = Interpreter::new(program, &normal());
    assert!(matches!(machine.step(), StepOutcome::NeedInput));
    assert_eq!(machine.give_input(""), InputOutcome::NeedMore);
    assert_eq!(machine.give_input("\u{e9}"), InputOutcome::Stored);
    assert!(matches!(machine.step(), StepOutcome::Ran));
    assert!(matches!(machine.step(), StepOutcome::Ran));
    assert!(matches!(machine.step(), StepOutcome::Finished));
    assert_eq!(machine.into_array(), vec![0xC3, 0xA9]);
}

#[test]
fn newline_zero_map_swaps_and_undoes_itself() {
    assert_eq!(newline_zero_map(0), 10);
    assert_eq!(newline_zero_map(10), 0);
    assert_eq!(newline_zero_map(65), 65);
    for b in 0..=255u8 {
        assert_eq!(newline_zero_map(newline_zero_map(b)), b);
    }
}

#[test]
fn adding_then_subtracting_restores_the_cell() {
    for start in [0u8, 1, 200, 255] {
        let program = vec![
            Instruction::ByteIncrement(start as usize),
            Instruction::ByteIncrement(1000),
            Instruction::ByteDecrement(1000),
        ];
        assert_eq!(interpreter(program, &normal(), &mut vec![]), vec![start]);
    }
}

#[test]
fn merged_additions_change_the_cell_alike() {
    let two = interpreter(
        vec![Instruction::ByteIncrement(200), Instruction::ByteIncrement(100)],
        &normal(),
        &mut vec![],
    );
    let one = interpreter(vec![Instruction::ByteIncrement(300)], &normal(), &mut vec![]);
    assert_eq!(two, vec![44]);
    assert_eq!(one, two);
    let mixed = interpreter(
        vec![Instruction::ByteIncrement(3), Instruction::ByteDecrement(5)],
        &normal(),
        &mut vec![],
    );
    assert_eq!(mixed, interpreter(vec![Instruction::ByteDecrement(2)], &normal(), &mut vec![]));
    assert_eq!(mixed, vec![254]);
}

#[test]
fn merged_moves_agree() {
    let two = interpreter(
        vec![Instruction::PointerIncrement(2), Instruction::PointerIncrement(3), Instruction::ByteIncrement(1)],
        &normal(),
        &mut vec![],
    );
    let one = interpreter(
        vec![Instruction::PointerIncrement(5), Instruction::ByteIncrement(1)],
        &normal(),
        &mut vec![],
    );
    assert_eq!(two, vec![0, 0, 0, 0, 0, 1]);
    assert_eq!(one, two);
    let fixed = args(InputMethod::Normal, OutputMethod::Normal, false, Some(5));
    assert!(matches!(
        run(vec![Instruction::PointerIncrement(2), Instruction::PointerIncrement(3)], &fixed, &mut vec![], &[]),
        Err(StepOutcome::PointerOverflow)
    ));
    assert!(matches!(
        run(vec![Instruction::PointerIncrement(5)], &fixed, &mut vec![], &[]),
        Err(StepOutcome::PointerOverflow)
    ));
}

#[test]
fn zero_steps_change_nothing() {
    let array = interpreter(
        vec![
            Instruction::ByteIncrement(7),
            Instruction::PointerIncrement(0),
            Instruction::ByteDecrement(0),
            Instruction::PointerDecrement(0),
            Instruction::ByteIncrement(0),
        ],
        &normal(),
        &mut vec![],
    );
    assert_eq!(array, vec![7]);
}

#[test]
fn loop_past_the_last_position_stops_the_program() {
    assert!(matches!(
        run(vec![Instruction::OpenLoop(usize::MAX)], &normal(), &mut vec![], &[]),
        Err(StepOutcome::JumpOverflow)
    ));
    assert!(matches!(
        run(vec![Instruction::ByteIncrement(1), Instruction::CloseLoop(usize::MAX)], &normal(), &mut vec![], &[]),
        Err(StepOutcome::JumpOverflow)
    ));
    assert_eq!(
        interpreter(vec![Instruction::CloseLoop(usize::MAX)], &normal(), &mut vec![]),
        vec![0]
    );
}

#[test]
fn arrays_grow_with_zero_cells() {
    let fixed = args(InputMethod::Normal, OutputMethod::Normal, false, Some(4));
    let array = interpreter(
        vec![Instruction::ByteIncrement(9), Instruction::PointerIncrement(2), Instruction::ByteIncrement(1)],
        &fixed,
        &mut vec![],
    );
    assert_eq!(array, vec![9, 0, 1, 0]);
    let growing = interpreter(
        vec![Instruction::ByteIncrement(9), Instruction::PointerIncrement(3), Instruction::PointerDecrement(1)],
        &normal(),
        &mut vec![],
    );
    assert_eq!(growing, vec![9, 0, 0, 0]);
}

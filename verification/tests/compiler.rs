use std::path::PathBuf;

use brainpurr::args::{Args, CompilerArgs, InputMethod, OutputMethod, PointerWrapMode};
use brainpurr::compiler::{compile_to_c, gcc_arguments};
use brainpurr::error::BrainpurrError;
use brainpurr::parser::Instruction;

fn args(max_array_size: Option<u32>, pointer_wrap: PointerWrapMode, input: InputMethod, output: OutputMethod, newline_zero: bool) -> Args {
    Args {
        path: PathBuf::from("test.bp"),
        show_final_array: false,
        from_brainfuck: false,
        to_brainpurr: false,
        to_brainfuck: false,
        to_c: true,
        compile: false,
        max_array_size,
        gcc_args: Some("-o  out".to_string()),
        input,
        output,
        newline_zero,
        pointer_wrap,
    }
}

const HEADER: &str = "#include <stdio.h>\nconst unsigned long ARRAY_LENGTH = 67000;\nconst int INPUT_LENGTH = 2;\nint main(){\nunsigned char array[ARRAY_LENGTH];\nchar input[INPUT_LENGTH];\nchar first_char = 0;\nchar is_first_char_found = 0;\nfor (int i=0;i<ARRAY_LENGTH;i++){\narray[i] = 0;\n}\nunsigned long pointer = 0;\n";

#[test]
fn compile_small_program() {
    let a = args(None, PointerWrapMode::Unsafe, InputMethod::Normal, OutputMethod::Normal, false);
    let c = compile_to_c(
        &[
            Instruction::ByteIncrement(67),
            Instruction::OpenLoop(3),
            Instruction::ByteOutput,
            Instruction::CloseLoop(1),
        ],
        &a,
    );
    assert_eq!(
        c,
        format!(
            "{}array[pointer] += 67;\nwhile (array[pointer] != 0){{\nprintf(\"%c\", array[pointer]);\n}}\nreturn 0;\n}}",
            HEADER
        )
    );
}

#[test]
fn compile_empty_program() {
    let a = args(Some(10), PointerWrapMode::Crash, InputMethod::Normal, OutputMethod::Normal, false);
    let c = compile_to_c(&[], &a);
    assert_eq!(c, format!("{}\nreturn 0;\n}}", HEADER.replace("67000", "10")));
}

#[test]
fn compile_pointer_moves_per_wrap_mode() {
    let moves = [Instruction::PointerIncrement(3), Instruction::PointerDecrement(2)];
    let body = |mode| {
        let c = compile_to_c(&moves, &args(Some(5), mode, InputMethod::Normal, OutputMethod::Normal, false));
        c[HEADER.len() - 4..c.len() - 12].to_string()
    };
    assert_eq!(
        body(PointerWrapMode::Crash),
        "if (pointer >= ARRAY_LENGTH || 3 >= ARRAY_LENGTH - pointer){\nfprintf(stderr, \"pointer overflow\\n\");\nreturn 1;\n}\npointer += 3;\nif (pointer < 2){\nfprintf(stderr, \"pointer underflow\\n\");\nreturn 1;\n}\npointer -= 2;"
    );
    assert_eq!(body(PointerWrapMode::Unsafe), "pointer += 3;\npointer -= 2;");
    assert_eq!(
        body(PointerWrapMode::WrapAround),
        "pointer = (pointer + 3) % 5;\npointer = (pointer + 5 - (2 % 5)) % 5;"
    );
    assert_eq!(
        body(PointerWrapMode::Stick),
        "if (pointer + 3 >= ARRAY_LENGTH - 1){\npointer = ARRAY_LENGTH - 1;\n}\nelse{\npointer += 3;\n}\nif (pointer < 2){\npointer = 0;\n}\nelse{\npointer -= 2;\n}"
    );
}

#[test]
fn compile_input_and_output() {
    let a = args(None, PointerWrapMode::Crash, InputMethod::ByteAsNumber, OutputMethod::ByteAsNumber, true);
    let c = compile_to_c(&[Instruction::ByteInput, Instruction::ByteOutput, Instruction::ByteDecrement(4)], &a);
    assert_eq!(
        c,
        format!(
            "{}scanf(\"%hhu\", &array[pointer]);\nif (array[pointer] == 10){{\narray[pointer] = 0;\n}}else if (array[pointer] == 0){{\narray[pointer] = 10;\n}}\nif (array[pointer] == 10){{\nprintf(\"%d\\n\", 0);\n}}else if (array[pointer] == 0){{\nprintf(\"%d\\n\", 10);\n}}else {{\nprintf(\"%d\\n\", array[pointer]);\n}}\narray[pointer] -= 4;\nreturn 0;\n}}",
            HEADER
        )
    );
}

#[test]
fn compiler_args_defaults() {
    let a = args(None, PointerWrapMode::Crash, InputMethod::Normal, OutputMethod::Normal, false);
    assert_eq!(CompilerArgs::get_max_array_size(&a), 67000);
    assert_eq!(a.get_gcc_args(), Some("-o  out".to_string()));
}

#[test]
fn gcc_arguments_drop_empty_pieces() {
    assert_eq!(gcc_arguments("-o  out -O2 "), vec!["-o".to_string(), "out".to_string(), "-O2".to_string()]);
    assert_eq!(gcc_arguments(""), Vec::<String>::new());
    assert_eq!(gcc_arguments("   "), Vec::<String>::new());
    assert_eq!(gcc_arguments("a\tb"), vec!["a\tb".to_string()]);
}

#[test]
fn error_messages() {
    assert_eq!(BrainpurrError::TooManyNya.message(), "found a nya without its required :3");
    assert_eq!(BrainpurrError::TooManyColonThree.message(), "found a :3 without its required nya");
    assert_eq!(
        BrainpurrError::CompilingError("boom".to_string()).message(),
        "failed to compile the file: boom"
    );
    assert_eq!(BrainpurrError::UserInput("x".to_string()).message(), "failed to read user input: x");
    assert_eq!(BrainpurrError::ParsingError("y".to_string()).message(), "failed to parse the file: y");
    assert_eq!(BrainpurrError::Output("z".to_string()).message(), "failed to output: z");
}

#[test]
fn compile_normal_input_reads_a_character() {
    let a = args(None, PointerWrapMode::Unsafe, InputMethod::Normal, OutputMethod::Normal, false);
    let c = compile_to_c(&[Instruction::ByteInput], &a);
    assert_eq!(c, format!("{}scanf(\"%c\", &array[pointer]);\n\nreturn 0;\n}}", HEADER));
    let swapped = compile_to_c(&[Instruction::ByteInput], &args(None, PointerWrapMode::Unsafe, InputMethod::Normal, OutputMethod::Normal, true));
    assert_eq!(
        swapped,
        format!(
            "{}scanf(\"%c\", &array[pointer]);\nif (array[pointer] == 10){{\narray[pointer] = 0;\n}}else if (array[pointer] == 0){{\narray[pointer] = 10;\n}}\nreturn 0;\n}}",
            HEADER
        )
    );
}

//! The C text of a program, and the splitting of gcc's argument string.
use vstd::prelude::*;

use crate::args::{CompilerArgs, InputMethod, OutputMethod, PointerWrapMode};
use crate::parser::Instruction;
use crate::text::{append_decimal, decimal};

verus! {

/// The C statements of a move right by `x` on an array of `len` cells.
pub open spec fn c_pointer_increment(mode: PointerWrapMode, x: nat, len: nat) -> Seq<char> {
    match mode {
        PointerWrapMode::Crash => "if (pointer >= ARRAY_LENGTH || "@ + decimal(x)
            + " >= ARRAY_LENGTH - pointer){\nfprintf(stderr, \"pointer overflow\\n\");\nreturn 1;\n}\npointer += "@
            + decimal(x) + ";"@,
        PointerWrapMode::Unsafe => "pointer += "@ + decimal(x) + ";"@,
        PointerWrapMode::WrapAround => "pointer = (pointer + "@ + decimal(x) + ") % "@ + decimal(
            len,
        ) + ";"@,
        PointerWrapMode::Stick => "if (pointer + "@ + decimal(x)
            + " >= ARRAY_LENGTH - 1){\npointer = ARRAY_LENGTH - 1;\n}\nelse{\npointer += "@
            + decimal(x) + ";\n}"@,
    }
}

/// The C statements of a move left by `x` on an array of `len` cells.
pub open spec fn c_pointer_decrement(mode: PointerWrapMode, x: nat, len: nat) -> Seq<char> {
    match mode {
        PointerWrapMode::Crash => "if (pointer < "@ + decimal(x)
            + "){\nfprintf(stderr, \"pointer underflow\\n\");\nreturn 1;\n}\npointer -= "@
            + decimal(x) + ";"@,
        PointerWrapMode::Unsafe => "pointer -= "@ + decimal(x) + ";"@,
        PointerWrapMode::WrapAround => "pointer = (pointer + "@ + decimal(len) + " - ("@ + decimal(
            x,
        ) + " % "@ + decimal(len) + ")) % "@ + decimal(len) + ";"@,
        PointerWrapMode::Stick => "if (pointer < "@ + decimal(x)
            + "){\npointer = 0;\n}\nelse{\npointer -= "@ + decimal(x) + ";\n}"@,
    }
}

/// The C statements that exchange 10 and 0 in the cell just read, if asked.
pub open spec fn c_newline_zero_input(newline_zero: bool) -> Seq<char> {
    if newline_zero {
        "if (array[pointer] == 10){\narray[pointer] = 0;\n}else if (array[pointer] == 0){\narray[pointer] = 10;\n}"@
    } else {
        Seq::empty()
    }
}

/// The C statements of a `>:3`.
pub open spec fn c_input(method: InputMethod, newline_zero: bool) -> Seq<char> {
    match method {
        InputMethod::Normal => "scanf(\"%c\", &array[pointer]);\n"@ + c_newline_zero_input(
            newline_zero,
        ),
        InputMethod::FirstCharOnly => "while (1){\nfgets(input, INPUT_LENGTH, stdin);\nif (is_first_char_found == 0){\nfirst_char = input[0];\nis_first_char_found = 1;\n}\nif (input[0] == 10){\nbreak;\n}\n}\narray[pointer] = first_char;\nis_first_char_found = 0;\n"@
            + c_newline_zero_input(newline_zero),
        InputMethod::ByteAsNumber => "scanf(\"%hhu\", &array[pointer]);\n"@ + c_newline_zero_input(
            newline_zero,
        ),
    }
}

/// The C statements of a `:3c`.
pub open spec fn c_output(method: OutputMethod, newline_zero: bool) -> Seq<char> {
    match method {
        OutputMethod::Normal => if newline_zero {
            "if (array[pointer] == 10){\nprintf(\"%c\", 0);\n}else if (array[pointer] == 0){\nprintf(\"%c\", 10);\n}else {\nprintf(\"%c\", array[pointer]);\n}"@
        } else {
            "printf(\"%c\", array[pointer]);"@
        },
        OutputMethod::ByteAsNumber => if newline_zero {
            "if (array[pointer] == 10){\nprintf(\"%d\\n\", 0);\n}else if (array[pointer] == 0){\nprintf(\"%d\\n\", 10);\n}else {\nprintf(\"%d\\n\", array[pointer]);\n}"@
        } else {
            "printf(\"%d\\n\", array[pointer]);"@
        },
    }
}

/// The C call that prints `value` with the `printf` format `format`.
pub open spec fn c_printf(format: Seq<char>, value: Seq<char>) -> Seq<char> {
    "printf(\""@ + format + "\", "@ + value + ");"@
}

/// The C text of a case split on the cell that prints 0 for a cell of 10,
/// 10 for a cell of 0, and the cell itself otherwise, with `format`.
pub open spec fn c_print_swapped(format: Seq<char>) -> Seq<char> {
    "if (array[pointer] == 10){\n"@ + c_printf(format, "0"@) + "\n}else if (array[pointer] == 0){\n"@
        + c_printf(format, "10"@) + "\n}else {\n"@ + c_printf(format, "array[pointer]"@) + "\n}"@
}

/// A `:3c` prints the cell as a character (`%c`), or as a decimal number
/// followed by a newline (`%d\n`); when newlines and zeros are exchanged it
/// prints, with the same format, 0 for a cell of 10, 10 for a cell of 0, and
/// the cell otherwise.
pub proof fn output_text_prints_the_cell()
    ensures
        c_output(OutputMethod::Normal, false) == c_printf("%c"@, "array[pointer]"@),
        c_output(OutputMethod::ByteAsNumber, false) == c_printf("%d\\n"@, "array[pointer]"@),
        c_output(OutputMethod::Normal, true) == c_print_swapped("%c"@),
        c_output(OutputMethod::ByteAsNumber, true) == c_print_swapped("%d\\n"@),
{
    reveal_strlit("printf(\"");
    reveal_strlit("\", ");
    reveal_strlit(");");
    reveal_strlit("%c");
    reveal_strlit("%d\\n");
    reveal_strlit("0");
    reveal_strlit("10");
    reveal_strlit("array[pointer]");
    reveal_strlit("if (array[pointer] == 10){\n");
    reveal_strlit("\n}else if (array[pointer] == 0){\n");
    reveal_strlit("\n}else {\n");
    reveal_strlit("\n}");
    reveal_strlit("printf(\"%c\", array[pointer]);");
    reveal_strlit("printf(\"%d\\n\", array[pointer]);");
    reveal_strlit(
        "if (array[pointer] == 10){\nprintf(\"%c\", 0);\n}else if (array[pointer] == 0){\nprintf(\"%c\", 10);\n}else {\nprintf(\"%c\", array[pointer]);\n}",
    );
    reveal_strlit(
        "if (array[pointer] == 10){\nprintf(\"%d\\n\", 0);\n}else if (array[pointer] == 0){\nprintf(\"%d\\n\", 10);\n}else {\nprintf(\"%d\\n\", array[pointer]);\n}",
    );
    assert(c_output(OutputMethod::Normal, false) =~= c_printf("%c"@, "array[pointer]"@));
    assert(c_output(OutputMethod::ByteAsNumber, false) =~= c_printf("%d\\n"@, "array[pointer]"@));
    assert(c_output(OutputMethod::Normal, true) =~= c_print_swapped("%c"@));
    assert(c_output(OutputMethod::ByteAsNumber, true) =~= c_print_swapped("%d\\n"@));
}

/// A `>:3` reads as its input method asks, then, when newlines and zeros are
/// exchanged, exchanges them in the cell it read: the statements of the
/// exchange follow the reading statements unchanged.
pub proof fn input_text_then_newline_swap(method: InputMethod)
    ensures
        c_input(method, true) == c_input(method, false) + c_newline_zero_input(true),
        c_newline_zero_input(false) == Seq::<char>::empty(),
        c_input(InputMethod::Normal, false) == "scanf(\"%c\", &array[pointer]);\n"@,
        c_input(InputMethod::ByteAsNumber, false) == "scanf(\"%hhu\", &array[pointer]);\n"@,
{
    assert("scanf(\"%c\", &array[pointer]);\n"@ + Seq::<char>::empty()
        =~= "scanf(\"%c\", &array[pointer]);\n"@);
    assert("scanf(\"%hhu\", &array[pointer]);\n"@ + Seq::<char>::empty()
        =~= "scanf(\"%hhu\", &array[pointer]);\n"@);
    match method {
        InputMethod::FirstCharOnly => {
            let t = "while (1){\nfgets(input, INPUT_LENGTH, stdin);\nif (is_first_char_found == 0){\nfirst_char = input[0];\nis_first_char_found = 1;\n}\nif (input[0] == 10){\nbreak;\n}\n}\narray[pointer] = first_char;\nis_first_char_found = 0;\n"@;
            assert(t + Seq::<char>::empty() =~= t);
        },
        _ => {},
    }
}

/// The settings that shape the C text of an instruction.
pub struct CSettings {
    pub wrap: PointerWrapMode,
    pub array_length: u32,
    pub input_method: InputMethod,
    pub output_method: OutputMethod,
    pub newline_zero: bool,
}

/// The C text of one instruction.
pub open spec fn c_instruction(i: Instruction, c: CSettings) -> Seq<char> {
    match i {
        Instruction::PointerIncrement(x) => c_pointer_increment(
            c.wrap,
            x as nat,
            c.array_length as nat,
        ),
        Instruction::PointerDecrement(x) => c_pointer_decrement(
            c.wrap,
            x as nat,
            c.array_length as nat,
        ),
        Instruction::ByteIncrement(x) => "array[pointer] += "@ + decimal(x as nat) + ";"@,
        Instruction::ByteDecrement(x) => "array[pointer] -= "@ + decimal(x as nat) + ";"@,
        Instruction::ByteInput => c_input(c.input_method, c.newline_zero),
        Instruction::ByteOutput => c_output(c.output_method, c.newline_zero),
        Instruction::OpenLoop(_) => "while (array[pointer] != 0){"@,
        Instruction::CloseLoop(_) => "}"@,
    }
}

/// The C texts of the instructions, one per line.
pub open spec fn c_body(s: Seq<Instruction>, c: CSettings) -> Seq<char>
    decreases s.len(),
{
    if s.len() == 0 {
        Seq::empty()
    } else if s.len() == 1 {
        c_instruction(s[0], c)
    } else {
        c_body(s.drop_last(), c) + "\n"@ + c_instruction(s.last(), c)
    }
}

/// The whole C program: the array and its length, then the instructions inside `main`.
pub open spec fn c_program(s: Seq<Instruction>, c: CSettings) -> Seq<char> {
    "#include <stdio.h>\n"@ + "const unsigned long ARRAY_LENGTH = "@ + decimal(
        c.array_length as nat,
    ) + ";\nconst int INPUT_LENGTH = 2;\n"@
        + "int main(){\nunsigned char array[ARRAY_LENGTH];\nchar input[INPUT_LENGTH];\nchar first_char = 0;\nchar is_first_char_found = 0;\nfor (int i=0;i<ARRAY_LENGTH;i++){\narray[i] = 0;\n}\nunsigned long pointer = 0;\n"@
        + c_body(s, c) + "\nreturn 0;\n}"@
}

fn get_pointer_increment_instruction(pointer_wrap_mode: &PointerWrapMode, x: usize, array_length: u32) -> (r:
    String)
    ensures
        r@ == c_pointer_increment(*pointer_wrap_mode, x as nat, array_length as nat),
{
    let mut s = String::new();
    match pointer_wrap_mode {
        PointerWrapMode::Crash => {
            s.append("if (pointer >= ARRAY_LENGTH || ");
            append_decimal(&mut s, x as u64);
            s.append(" >= ARRAY_LENGTH - pointer){\nfprintf(stderr, \"pointer overflow\\n\");\nreturn 1;\n}\npointer += ");
            append_decimal(&mut s, x as u64);
            s.append(";");
        },
        PointerWrapMode::Unsafe => {
            s.append("pointer += ");
            append_decimal(&mut s, x as u64);
            s.append(";");
        },
        PointerWrapMode::WrapAround => {
            s.append("pointer = (pointer + ");
            append_decimal(&mut s, x as u64);
            s.append(") % ");
            append_decimal(&mut s, array_length as u64);
            s.append(";");
        },
        PointerWrapMode::Stick => {
            s.append("if (pointer + ");
            append_decimal(&mut s, x as u64);
            s.append(" >= ARRAY_LENGTH - 1){\npointer = ARRAY_LENGTH - 1;\n}\nelse{\npointer += ");
            append_decimal(&mut s, x as u64);
            s.append(";\n}");
        },
    }
    assert(s@ =~= c_pointer_increment(*pointer_wrap_mode, x as nat, array_length as nat));
    s
}

fn get_pointer_decrement_instruction(pointer_wrap_mode: &PointerWrapMode, x: usize, array_length: u32) -> (r:
    String)
    ensures
        r@ == c_pointer_decrement(*pointer_wrap_mode, x as nat, array_length as nat),
{
    let mut s = String::new();
    match pointer_wrap_mode {
        PointerWrapMode::Crash => {
            s.append("if (pointer < ");
            append_decimal(&mut s, x as u64);
            s.append("){\nfprintf(stderr, \"pointer underflow\\n\");\nreturn 1;\n}\npointer -= ");
            append_decimal(&mut s, x as u64);
            s.append(";");
        },
        PointerWrapMode::Unsafe => {
            s.append("pointer -= ");
            append_decimal(&mut s, x as u64);
            s.append(";");
        },
        PointerWrapMode::WrapAround => {
            s.append("pointer = (pointer + ");
            append_decimal(&mut s, array_length as u64);
            s.append(" - (");
            append_decimal(&mut s, x as u64);
            s.append(" % ");
            append_decimal(&mut s, array_length as u64);
            s.append(")) % ");
            append_decimal(&mut s, array_length as u64);
            s.append(";");
        },
        PointerWrapMode::Stick => {
            s.append("if (pointer < ");
            append_decimal(&mut s, x as u64);
            s.append("){\npointer = 0;\n}\nelse{\npointer -= ");
            append_decimal(&mut s, x as u64);
            s.append(";\n}");
        },
    }
    assert(s@ =~= c_pointer_decrement(*pointer_wrap_mode, x as nat, array_length as nat));
    s
}

fn get_byte_increment_instruction(x: usize) -> (r: String)
    ensures
        r@ == "array[pointer] += "@ + decimal(x as nat) + ";"@,
{
    let mut s = String::new();
    s.append("array[pointer] += ");
    append_decimal(&mut s, x as u64);
    s.append(";");
    assert(s@ =~= "array[pointer] += "@ + decimal(x as nat) + ";"@);
    s
}

fn get_byte_decrement_instruction(x: usize) -> (r: String)
    ensures
        r@ == "array[pointer] -= "@ + decimal(x as nat) + ";"@,
{
    let mut s = String::new();
    s.append("array[pointer] -= ");
    append_decimal(&mut s, x as u64);
    s.append(";");
    assert(s@ =~= "array[pointer] -= "@ + decimal(x as nat) + ";"@);
    s
}

fn get_input_instruction(input_method: &InputMethod, newline_zero: bool) -> (r: String)
    ensures
        r@ == c_input(*input_method, newline_zero),
{
    let mut s = String::new();
    match input_method {
        InputMethod::Normal => s.append("scanf(\"%c\", &array[pointer]);\n"),
        InputMethod::FirstCharOnly => s.append(
            "while (1){\nfgets(input, INPUT_LENGTH, stdin);\nif (is_first_char_found == 0){\nfirst_char = input[0];\nis_first_char_found = 1;\n}\nif (input[0] == 10){\nbreak;\n}\n}\narray[pointer] = first_char;\nis_first_char_found = 0;\n",
        ),
        InputMethod::ByteAsNumber => s.append("scanf(\"%hhu\", &array[pointer]);\n"),
    }
    if newline_zero {
        s.append(
            "if (array[pointer] == 10){\narray[pointer] = 0;\n}else if (array[pointer] == 0){\narray[pointer] = 10;\n}",
        );
    }
    assert(s@ =~= c_input(*input_method, newline_zero));
    s
}

fn get_output_instruction(output_method: &OutputMethod, newline_zero: bool) -> (r: String)
    ensures
        r@ == c_output(*output_method, newline_zero),
{
    let mut s = String::new();
    match output_method {
        OutputMethod::Normal => if newline_zero {
            s.append(
                "if (array[pointer] == 10){\nprintf(\"%c\", 0);\n}else if (array[pointer] == 0){\nprintf(\"%c\", 10);\n}else {\nprintf(\"%c\", array[pointer]);\n}",
            );
        } else {
            s.append("printf(\"%c\", array[pointer]);");
        },
        OutputMethod::ByteAsNumber => if newline_zero {
            s.append(
                "if (array[pointer] == 10){\nprintf(\"%d\\n\", 0);\n}else if (array[pointer] == 0){\nprintf(\"%d\\n\", 10);\n}else {\nprintf(\"%d\\n\", array[pointer]);\n}",
            );
        } else {
            s.append("printf(\"%d\\n\", array[pointer]);");
        },
    }
    assert(s@ =~= c_output(*output_method, newline_zero));
    s
}

fn instruction_to_c(i: Instruction, c: &CSettings) -> (r: String)
    ensures
        r@ == c_instruction(i, *c),
{
    match i {
        Instruction::PointerIncrement(x) => get_pointer_increment_instruction(
            &c.wrap,
            x,
            c.array_length,
        ),
        Instruction::PointerDecrement(x) => get_pointer_decrement_instruction(
            &c.wrap,
            x,
            c.array_length,
        ),
        Instruction::ByteIncrement(x) => get_byte_increment_instruction(x),
        Instruction::ByteDecrement(x) => get_byte_decrement_instruction(x),
        Instruction::ByteInput => get_input_instruction(&c.input_method, c.newline_zero),
        Instruction::ByteOutput => get_output_instruction(&c.output_method, c.newline_zero),
        Instruction::OpenLoop(_) => {
            let mut s = String::new();
            s.append("while (array[pointer] != 0){");
            s
        },
        Instruction::CloseLoop(_) => {
            let mut s = String::new();
            s.append("}");
            s
        },
    }
}

/// Turns a program into C: an array of the configured length, then one
/// block of statements per instruction, each on its own line.
pub fn compile_to_c<T: CompilerArgs>(instructions: &[Instruction], args: &T) -> (r: String)
    ensures
        r@ == c_program(
            instructions@,
            CSettings {
                wrap: args.spec_pointer_wrap_mode(),
                array_length: args.spec_max_array_size(),
                input_method: args.spec_input_method(),
                output_method: args.spec_output_method(),
                newline_zero: args.spec_newline_zero(),
            },
        ),
{
    let max_array_size = args.get_max_array_size();
    let settings = CSettings {
        wrap: *args.get_pointer_wrap_mode(),
        array_length: max_array_size,
        input_method: *args.get_input_method(),
        output_method: *args.get_output_method(),
        newline_zero: args.get_newline_zero(),
    };
    let ghost s = instructions@;
    let mut out = String::new();
    out.append("#include <stdio.h>\n");
    out.append("const unsigned long ARRAY_LENGTH = ");
    append_decimal(&mut out, max_array_size as u64);
    out.append(";\nconst int INPUT_LENGTH = 2;\n");
    out.append(
        "int main(){\nunsigned char array[ARRAY_LENGTH];\nchar input[INPUT_LENGTH];\nchar first_char = 0;\nchar is_first_char_found = 0;\nfor (int i=0;i<ARRAY_LENGTH;i++){\narray[i] = 0;\n}\nunsigned long pointer = 0;\n",
    );
    let ghost header = out@;
    let n = instructions.len();
    let mut k: usize = 0;
    while k < n
        invariant
            s == instructions@,
            n == s.len(),
            k <= n,
            out@ == header + c_body(s.take(k as int), settings),
        decreases n - k,
    {
        let text = instruction_to_c(instructions[k], &settings);
        if k > 0 {
            out.append("\n");
        }
        out.append(text.as_str());
        proof {
            assert(s.take(k + 1).drop_last() =~= s.take(k as int));
            assert(s.take(k + 1).last() == s[k as int]);
            assert(out@ =~= header + c_body(s.take(k + 1), settings));
        }
        k += 1;
    }
    out.append("\nreturn 0;\n}");
    assert(s.take(n as int) =~= s);
    assert(out@ =~= c_program(s, settings));
    out
}

} // verus!

verus! {

/// Reading `s` from the left: the space-separated pieces completed so far, and the piece being read.
pub open spec fn piece_scan(s: Seq<char>) -> (Seq<Seq<char>>, Seq<char>)
    decreases s.len(),
{
    if s.len() == 0 {
        (Seq::empty(), Seq::empty())
    } else {
        let (done, current) = piece_scan(s.drop_last());
        let c = s.last();
        if c == ' ' {
            (if current.len() > 0 {
                done.push(current)
            } else {
                done
            }, Seq::empty())
        } else {
            (done, current.push(c))
        }
    }
}

/// The arguments that a gcc argument string stands for: its pieces between
/// single spaces, the empty pieces dropped.
pub open spec fn gcc_argument_list(s: Seq<char>) -> Seq<Seq<char>> {
    let (done, current) = piece_scan(s);
    if current.len() > 0 {
        done.push(current)
    } else {
        done
    }
}

/// Splits the gcc argument string at its spaces, dropping the empty pieces.
pub fn gcc_arguments(gcc_args: &str) -> (r: Vec<String>)
    ensures
        r.deep_view() == gcc_argument_list(gcc_args@),
{
    let ghost s = gcc_args@;
    let total = gcc_args.unicode_len();
    let mut out: Vec<String> = Vec::new();
    let mut start: usize = 0;
    let mut i: usize = 0;
    for c in it: gcc_args.chars()
        invariant
            total == s.len(),
            it.seq() == s,
            s == gcc_args@,
            i == it.index(),
            start <= i,
            out.deep_view() == piece_scan(s.take(i as int)).0,
            s.subrange(start as int, i as int) == piece_scan(s.take(i as int)).1,
    {
        proof {
            assert(s.take(i + 1).drop_last() =~= s.take(i as int));
            assert(s.take(i + 1).last() == c);
        }
        if c == ' ' {
            if start < i {
                let piece = String::from_str(gcc_args.substring_char(start, i));
                let ghost before = out.deep_view();
                out.push(piece);
                assert(out.deep_view() =~= before.push(s.subrange(start as int, i as int)));
            }
            start = i + 1;
            assert(s.subrange(start as int, (i + 1) as int) =~= Seq::<char>::empty());
        } else {
            assert(s.subrange(start as int, (i + 1) as int) =~= s.subrange(start as int, i as int).push(c));
        }
        i += 1;
    }
    assert(s.take(s.len() as int) =~= s);
    if start < i {
        let piece = String::from_str(gcc_args.substring_char(start, i));
        let ghost before = out.deep_view();
        out.push(piece);
        assert(out.deep_view() =~= before.push(s.subrange(start as int, i as int)));
    }
    out
}

/// `w` has no space in it.
pub open spec fn space_free(w: Seq<char>) -> bool {
    forall|i: int| 0 <= i < w.len() ==> #[trigger] w[i] != ' '
}

/// `w` can be one argument: not empty, with no space in it.
pub open spec fn is_piece(w: Seq<char>) -> bool {
    w.len() > 0 && space_free(w)
}

proof fn lemma_piece_scan_shape(s: Seq<char>)
    ensures
        forall|k: int| 0 <= k < piece_scan(s).0.len() ==> is_piece(#[trigger] piece_scan(s).0[k]),
        space_free(piece_scan(s).1),
    decreases s.len(),
{
    if s.len() > 0 {
        lemma_piece_scan_shape(s.drop_last());
        let (done, current) = piece_scan(s.drop_last());
        let c = s.last();
        if c == ' ' {
            if current.len() > 0 {
                assert forall|k: int| 0 <= k < done.push(current).len() implies is_piece(
                    #[trigger] done.push(current)[k],
                ) by {
                    if k < done.len() {
                        assert(done.push(current)[k] == done[k]);
                    }
                }
            }
        } else {
            assert forall|i: int| 0 <= i < current.push(c).len() implies #[trigger] current.push(
                c,
            )[i] != ' ' by {
                if i < current.len() {
                    assert(current.push(c)[i] == current[i]);
                }
            }
        }
    }
}

proof fn lemma_piece_scan_append(x: Seq<char>, w: Seq<char>)
    requires
        space_free(w),
    ensures
        piece_scan(x + w) == (piece_scan(x).0, piece_scan(x).1 + w),
    decreases w.len(),
{
    if w.len() == 0 {
        assert(x + w =~= x);
        assert(piece_scan(x).1 + w =~= piece_scan(x).1);
    } else {
        let wl = w.drop_last();
        assert forall|i: int| 0 <= i < wl.len() implies #[trigger] wl[i] != ' ' by {
            assert(wl[i] == w[i]);
        }
        lemma_piece_scan_append(x, wl);
        assert((x + w).drop_last() =~= x + wl);
        assert((x + w).last() == w[w.len() - 1]);
        assert(piece_scan(x).1 + w =~= (piece_scan(x).1 + wl).push(w.last()));
    }
}

proof fn lemma_piece_scan_after_break(x: Seq<char>, b: Seq<char>)
    requires
        piece_scan(x).1.len() == 0,
    ensures
        piece_scan(x + b) == (piece_scan(x).0 + piece_scan(b).0, piece_scan(b).1),
    decreases b.len(),
{
    if b.len() == 0 {
        assert(x + b =~= x);
        assert(piece_scan(x).0 + piece_scan(b).0 =~= piece_scan(x).0);
        assert(piece_scan(x).1 =~= piece_scan(b).1);
    } else {
        lemma_piece_scan_after_break(x, b.drop_last());
        assert((x + b).drop_last() =~= x + b.drop_last());
        assert((x + b).last() == b.last());
        let (bd, bc) = piece_scan(b.drop_last());
        if b.last() == ' ' && bc.len() > 0 {
            assert(piece_scan(x).0 + bd.push(bc) =~= (piece_scan(x).0 + bd).push(bc));
        }
    }
}

/// The gcc arguments are the pieces of the string between its spaces, in
/// order: every one is non-empty and has no space; a string that is one such
/// piece is one argument; the empty string and a lone space give none; and a space splits a string into two whose arguments follow
/// each other.
pub proof fn gcc_arguments_are_the_pieces(s: Seq<char>, a: Seq<char>, b: Seq<char>)
    ensures
        forall|k: int|
            0 <= k < gcc_argument_list(s).len() ==> is_piece(#[trigger] gcc_argument_list(s)[k]),
        is_piece(s) ==> gcc_argument_list(s) == seq![s],
        gcc_argument_list(Seq::<char>::empty()) == Seq::<Seq<char>>::empty(),
        gcc_argument_list(seq![' ']) == Seq::<Seq<char>>::empty(),
        gcc_argument_list(a + seq![' '] + b) == gcc_argument_list(a) + gcc_argument_list(b),
{
    lemma_piece_scan_shape(s);
    let (done, current) = piece_scan(s);
    if current.len() > 0 {
        assert forall|k: int| 0 <= k < done.push(current).len() implies is_piece(
            #[trigger] done.push(current)[k],
        ) by {
            if k < done.len() {
                assert(done.push(current)[k] == done[k]);
            }
        }
    }
    if space_free(s) {
        lemma_piece_scan_append(Seq::empty(), s);
        assert(Seq::<char>::empty() + s =~= s);
        assert(piece_scan(Seq::<char>::empty()).1 + s =~= s);
        if s.len() > 0 {
            assert(Seq::<Seq<char>>::empty().push(s) =~= seq![s]);
        }
    }
    assert(seq![' '].drop_last() =~= Seq::<char>::empty());
    assert(seq![' '].last() == ' ');
    assert(piece_scan(seq![' ']).1.len() == 0);
    let x = a + seq![' '];
    assert(x.drop_last() =~= a);
    assert(x.last() == ' ');
    assert(piece_scan(x).0 == gcc_argument_list(a));
    lemma_piece_scan_after_break(x, b);
    let (bd, bc) = piece_scan(b);
    if bc.len() > 0 {
        assert(gcc_argument_list(a) + bd.push(bc) =~= (gcc_argument_list(a) + bd).push(bc));
    }
}

} // verus!

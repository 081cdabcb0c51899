//! The instructions, and reading and writing brainpurr text.
use vstd::prelude::*;

use crate::error::BrainpurrError;
use crate::loops::{link_loops, link_outcome_ok};
pub use crate::optimizer::optimize_instructions;
use crate::optimizer::try_optimize_instructions;
use crate::optimizer::{
    amounts_fit, count_fits, is_add, is_move, is_zero_step, lemma_optimized_loops_unlinked,
    lemma_optimized_unit_steps, light_programs_fit, optimize_fits, optimize_keeps_loop_balance,
    optimized, optimized_is_normal, step_weight, unlink, unlinked, loops_unlinked,
    lemma_unit_steps_fit, lemma_normal_is_optimized, lemma_same_shape_normal, no_zero_steps,
    no_adjacent_steps, counts_fit,
};

verus! {

/// One instruction of a program. The counts of the moves and additions
/// say how many times the step is repeated; the loop instructions carry
/// the index of their partner once the program is linked.
#[derive(Debug, Clone, Copy, PartialEq, Eq, Hash, Structural)]
pub enum Instruction {
    PointerIncrement(usize),
    PointerDecrement(usize),
    ByteIncrement(usize),
    ByteDecrement(usize),
    ByteOutput,
    ByteInput,
    OpenLoop(usize),
    CloseLoop(usize),
}

} // verus!

verus! {

/// The characters with the Unicode `White_Space` property, which separate words.
pub open spec fn is_whitespace(c: char) -> bool {
    let u = c as u32;
    ||| 0x09 <= u <= 0x0D
    ||| u == 0x20
    ||| u == 0x85
    ||| u == 0xA0
    ||| u == 0x1680
    ||| 0x2000 <= u <= 0x200A
    ||| u == 0x2028
    ||| u == 0x2029
    ||| u == 0x202F
    ||| u == 0x205F
    ||| u == 0x3000
}

/// Reading `s` from the left: the words completed so far, and the word being read.
pub open spec fn word_scan(s: Seq<char>) -> (Seq<Seq<char>>, Seq<char>)
    decreases s.len(),
{
    if s.len() == 0 {
        (Seq::empty(), Seq::empty())
    } else {
        let (done, current) = word_scan(s.drop_last());
        let c = s.last();
        if is_whitespace(c) {
            (if current.len() > 0 {
                done.push(current)
            } else {
                done
            }, Seq::empty())
        } else {
            (done, current.push(c))
        }
    }
}

/// The words of `s`: its maximal runs of characters that are not whitespace.
pub open spec fn words(s: Seq<char>) -> Seq<Seq<char>> {
    let (done, current) = word_scan(s);
    if current.len() > 0 {
        done.push(current)
    } else {
        done
    }
}

pub open spec fn word_meow() -> Seq<char> {
    seq!['m', 'e', 'o', 'w']
}

pub open spec fn word_mrow() -> Seq<char> {
    seq!['m', 'r', 'o', 'w']
}

pub open spec fn word_mrp() -> Seq<char> {
    seq!['m', 'r', 'p']
}

pub open spec fn word_purr() -> Seq<char> {
    seq!['p', 'u', 'r', 'r']
}

pub open spec fn word_output() -> Seq<char> {
    seq![':', '3', 'c']
}

pub open spec fn word_input() -> Seq<char> {
    seq!['>', ':', '3']
}

pub open spec fn word_nya() -> Seq<char> {
    seq!['n', 'y', 'a']
}

pub open spec fn word_close() -> Seq<char> {
    seq![':', '3']
}

/// The instruction a word stands for, before the loops are linked; `None`
/// for a word that is no instruction (it is ignored).
pub open spec fn word_instruction(w: Seq<char>) -> Option<Instruction> {
    if w == word_meow() {
        Some(Instruction::PointerIncrement(1))
    } else if w == word_mrow() {
        Some(Instruction::PointerDecrement(1))
    } else if w == word_mrp() {
        Some(Instruction::ByteIncrement(1))
    } else if w == word_purr() {
        Some(Instruction::ByteDecrement(1))
    } else if w == word_output() {
        Some(Instruction::ByteOutput)
    } else if w == word_input() {
        Some(Instruction::ByteInput)
    } else if w == word_nya() {
        Some(Instruction::OpenLoop(0))
    } else if w == word_close() {
        Some(Instruction::CloseLoop(0))
    } else {
        None
    }
}

/// The instructions that a list of words stands for, in order.
pub open spec fn words_instructions(ws: Seq<Seq<char>>) -> Seq<Instruction>
    decreases ws.len(),
{
    if ws.len() == 0 {
        Seq::empty()
    } else {
        let rest = words_instructions(ws.drop_last());
        match word_instruction(ws.last()) {
            Some(i) => rest.push(i),
            None => rest,
        }
    }
}

/// The instructions of a brainpurr program, one per instruction word, loops not yet linked.
pub open spec fn program_instructions(s: Seq<char>) -> Seq<Instruction> {
    words_instructions(words(s))
}

fn same_word(w: &Vec<char>, lit: &str) -> (r: bool)
    ensures
        r == (w@ == lit@),
{
    let n = w.len();
    let mut lit_chars: Vec<char> = Vec::new();
    for c in it: lit.chars()
        invariant
            lit_chars@ == it.seq().take(it.index() as int),
            it.seq() == lit@,
    {
        lit_chars.push(c);
    }
    assert(lit_chars@ =~= lit@);
    if lit_chars.len() != n {
        return false;
    }
    let mut i: usize = 0;
    while i < n
        invariant
            lit_chars@ == lit@,
            n == w@.len(),
            n == lit_chars@.len(),
            i <= n,
            forall|k: int| 0 <= k < i ==> w@[k] == lit_chars@[k],
        decreases n - i,
    {
        if w[i] != lit_chars[i] {
            return false;
        }
        i += 1;
    }
    assert(w@ =~= lit_chars@);
    true
}

fn word_to_instruction(w: &Vec<char>) -> (r: Option<Instruction>)
    ensures
        r == word_instruction(w@),
{
    proof {
        reveal_strlit("meow");
        reveal_strlit("mrow");
        reveal_strlit("mrp");
        reveal_strlit("purr");
        reveal_strlit(":3c");
        reveal_strlit(">:3");
        reveal_strlit("nya");
        reveal_strlit(":3");
        assert("meow"@ =~= word_meow());
        assert("mrow"@ =~= word_mrow());
        assert("mrp"@ =~= word_mrp());
        assert("purr"@ =~= word_purr());
        assert(":3c"@ =~= word_output());
        assert(">:3"@ =~= word_input());
        assert("nya"@ =~= word_nya());
        assert(":3"@ =~= word_close());
    }
    if same_word(w, "meow") {
        Some(Instruction::PointerIncrement(1))
    } else if same_word(w, "mrow") {
        Some(Instruction::PointerDecrement(1))
    } else if same_word(w, "mrp") {
        Some(Instruction::ByteIncrement(1))
    } else if same_word(w, "purr") {
        Some(Instruction::ByteDecrement(1))
    } else if same_word(w, ":3c") {
        Some(Instruction::ByteOutput)
    } else if same_word(w, ">:3") {
        Some(Instruction::ByteInput)
    } else if same_word(w, "nya") {
        Some(Instruction::OpenLoop(0))
    } else if same_word(w, ":3") {
        Some(Instruction::CloseLoop(0))
    } else {
        None
    }
}

/// Whether `c` is a whitespace character (Unicode `White_Space`).
fn is_whitespace_exec(c: char) -> (r: bool)
    ensures
        r == is_whitespace(c),
{
    let u = c as u32;
    (0x09 <= u && u <= 0x0D) || u == 0x20 || u == 0x85 || u == 0xA0 || u == 0x1680 || (0x2000
        <= u && u <= 0x200A) || u == 0x2028 || u == 0x2029 || u == 0x202F || u == 0x205F || u
        == 0x3000
}

proof fn lemma_words_instructions_push(ws: Seq<Seq<char>>, w: Seq<char>)
    ensures
        words_instructions(ws.push(w)) == match word_instruction(w) {
            Some(i) => words_instructions(ws).push(i),
            None => words_instructions(ws),
        },
{
    assert(ws.push(w).drop_last() =~= ws);
}

/// The instructions of a brainpurr program, read word by word; words that
/// are no instruction are skipped.
fn get_instructions(program: &str) -> (r: Vec<Instruction>)
    ensures
        r@ == program_instructions(program@),
{
    let mut out: Vec<Instruction> = Vec::new();
    let mut current: Vec<char> = Vec::new();
    for c in it: program.chars()
        invariant
            it.seq() == program@,
            out@ == words_instructions(word_scan(it.seq().take(it.index() as int)).0),
            current@ == word_scan(it.seq().take(it.index() as int)).1,
    {
        let ghost k = it.index() as int;
        let ghost before = it.seq().take(k);
        proof {
            assert(it.seq().take(k + 1).drop_last() =~= before);
        }
        if is_whitespace_exec(c) {
            if current.len() > 0 {
                proof {
                    lemma_words_instructions_push(word_scan(before).0, current@);
                }
                match word_to_instruction(&current) {
                    Some(i) => out.push(i),
                    None => {},
                }
            }
            current = Vec::new();
        } else {
            current.push(c);
        }
    }
    proof {
        assert(program@.take(program@.len() as int) =~= program@);
        if current@.len() > 0 {
            lemma_words_instructions_push(word_scan(program@).0, current@);
        }
    }
    if current.len() > 0 {
        match word_to_instruction(&current) {
            Some(i) => out.push(i),
            None => {},
        }
    }
    out
}

} // verus!

verus! {

proof fn lemma_word_scan_len(s: Seq<char>)
    ensures
        word_scan(s).0.len() + (if word_scan(s).1.len() > 0 {
            1int
        } else {
            0int
        }) <= s.len(),
    decreases s.len(),
{
    if s.len() > 0 {
        lemma_word_scan_len(s.drop_last());
    }
}

proof fn lemma_words_instructions_weight(ws: Seq<Seq<char>>, pointer: bool)
    ensures
        step_weight(words_instructions(ws), pointer) <= words_instructions(ws).len(),
        words_instructions(ws).len() <= ws.len(),
    decreases ws.len(),
{
    if ws.len() > 0 {
        lemma_words_instructions_weight(ws.drop_last(), pointer);
        let rest = words_instructions(ws.drop_last());
        match word_instruction(ws.last()) {
            Some(i) => {
                assert(rest.push(i).drop_last() =~= rest);
            },
            None => {},
        }
    }
}

/// A program of at most `i32::MAX` characters has amounts that fit the optimiser.
proof fn lemma_program_amounts_fit(s: Seq<char>)
    requires
        s.len() <= i32::MAX,
    ensures
        amounts_fit(program_instructions(s)),
{
    lemma_word_scan_len(s);
    lemma_words_instructions_weight(words(s), true);
    lemma_words_instructions_weight(words(s), false);
}

/// Every program text of at most `i32::MAX` characters can be optimised:
/// no sum the optimiser forms leaves the `i32` range.
pub proof fn short_programs_fit(s: Seq<char>)
    requires
        s.len() <= i32::MAX,
    ensures
        optimize_fits(program_instructions(s)),
{
    lemma_program_amounts_fit(s);
    light_programs_fit(program_instructions(s));
}

/// Optimises the program, then links its loops. Fails with `TooManyColonThree`
/// if a `:3` closes a loop that is not open, else with `TooManyNya` if a loop
/// is left open.
pub fn fix_instructions(instructions: Vec<Instruction>) -> (r: Result<Vec<Instruction>, BrainpurrError>)
    requires
        optimize_fits(instructions@),
    ensures
        link_outcome_ok(optimized(instructions@), r),
        r is Ok <==> crate::loops::balanced(instructions@),
        r matches Err(e) ==> (e is TooManyColonThree <==> !crate::loops::never_negative(
            instructions@,
        )),
{
    proof {
        optimize_keeps_loop_balance(instructions@);
    }
    let instructions = optimize_instructions(instructions);
    link_loops(instructions)
}

/// Reads a brainpurr program as `parse` does when every round of the
/// optimiser stays in `i32` range; `None` when one would not.
pub fn parse_checked(program: &str) -> (r: Option<Result<Vec<Instruction>, BrainpurrError>>)
    ensures
        r is Some <==> optimize_fits(program_instructions(program@)),
        r matches Some(x) ==> {
            &&& link_outcome_ok(optimized(program_instructions(program@)), x)
            &&& (x is Ok <==> crate::loops::balanced(program_instructions(program@)))
            &&& (x matches Err(e) ==> (e is TooManyColonThree <==> !crate::loops::never_negative(
                program_instructions(program@),
            )))
        },
{
    let instructions = get_instructions(program);
    match try_optimize_instructions(instructions) {
        None => None,
        Some(optimized_instructions) => {
            proof {
                optimize_keeps_loop_balance(program_instructions(program@));
            }
            Some(link_loops(optimized_instructions))
        },
    }
}

/// Reads a brainpurr program: its instruction words, optimised, with the loops linked.
pub fn parse(program: &str) -> (r: Result<Vec<Instruction>, BrainpurrError>)
    requires
        optimize_fits(program_instructions(program@)),
    ensures
        link_outcome_ok(optimized(program_instructions(program@)), r),
        r is Ok <==> crate::loops::balanced(program_instructions(program@)),
        r matches Err(e) ==> (e is TooManyColonThree <==> !crate::loops::never_negative(
            program_instructions(program@),
        )),
{
    fix_instructions(get_instructions(program))
}

} // verus!

verus! {

/// `n` copies of `w` separated by single spaces (empty when `n` is zero).
pub open spec fn repeat_word(w: Seq<char>, n: nat) -> Seq<char>
    decreases n,
{
    if n == 0 {
        Seq::empty()
    } else if n == 1 {
        w
    } else {
        repeat_word(w, (n - 1) as nat) + seq![' '] + w
    }
}

/// The brainpurr text of one instruction.
pub open spec fn instruction_text(i: Instruction) -> Seq<char> {
    match i {
        Instruction::PointerIncrement(x) => repeat_word(word_meow(), x as nat),
        Instruction::PointerDecrement(x) => repeat_word(word_mrow(), x as nat),
        Instruction::ByteIncrement(x) => repeat_word(word_mrp(), x as nat),
        Instruction::ByteDecrement(x) => repeat_word(word_purr(), x as nat),
        Instruction::ByteOutput => word_output(),
        Instruction::ByteInput => word_input(),
        Instruction::OpenLoop(_) => word_nya(),
        Instruction::CloseLoop(_) => word_close(),
    }
}

/// The brainpurr text of a program: the texts of its instructions separated by single spaces.
pub open spec fn program_text(s: Seq<Instruction>) -> Seq<char>
    decreases s.len(),
{
    if s.len() == 0 {
        Seq::empty()
    } else if s.len() == 1 {
        instruction_text(s[0])
    } else {
        program_text(s.drop_last()) + seq![' '] + instruction_text(s.last())
    }
}

fn append_repeated(out: &mut String, word: &str, n: usize)
    ensures
        final(out)@ == old(out)@ + repeat_word(word@, n as nat),
{
    proof {
        reveal_strlit(" ");
    }
    let mut i: usize = 0;
    while i < n
        invariant
            " "@ == seq![' '],
            i <= n,
            out@ == old(out)@ + repeat_word(word@, i as nat),
        decreases n - i,
    {
        if i > 0 {
            out.append(" ");
        }
        out.append(word);
        proof {
            if i == 0 {
                assert(out@ =~= old(out)@ + repeat_word(word@, (i + 1) as nat));
            } else {
                assert(repeat_word(word@, (i + 1) as nat) == repeat_word(word@, i as nat) + seq![' ']
                    + word@);
                assert(out@ =~= old(out)@ + repeat_word(word@, (i + 1) as nat));
            }
        }
        i += 1;
    }
}

fn append_instruction_text(out: &mut String, i: Instruction)
    ensures
        final(out)@ == old(out)@ + instruction_text(i),
{
    proof {
        reveal_strlit("meow");
        reveal_strlit("mrow");
        reveal_strlit("mrp");
        reveal_strlit("purr");
        reveal_strlit(":3c");
        reveal_strlit(">:3");
        reveal_strlit("nya");
        reveal_strlit(":3");
        assert("meow"@ =~= word_meow());
        assert("mrow"@ =~= word_mrow());
        assert("mrp"@ =~= word_mrp());
        assert("purr"@ =~= word_purr());
        assert(":3c"@ =~= word_output());
        assert(">:3"@ =~= word_input());
        assert("nya"@ =~= word_nya());
        assert(":3"@ =~= word_close());
    }
    match i {
        Instruction::PointerIncrement(x) => append_repeated(out, "meow", x),
        Instruction::PointerDecrement(x) => append_repeated(out, "mrow", x),
        Instruction::ByteIncrement(x) => append_repeated(out, "mrp", x),
        Instruction::ByteDecrement(x) => append_repeated(out, "purr", x),
        Instruction::ByteOutput => out.append(":3c"),
        Instruction::ByteInput => out.append(">:3"),
        Instruction::OpenLoop(_) => out.append("nya"),
        Instruction::CloseLoop(_) => out.append(":3"),
    }
}

/// Writes a program back as brainpurr text: each instruction as its words
/// (a move or addition by `n` as `n` words), all separated by single spaces.
pub fn unparse(instructions: Vec<Instruction>) -> (r: String)
    ensures
        r@ == program_text(instructions@),
{
    let ghost s = instructions@;
    let mut out = String::new();
    let n = instructions.len();
    let mut k: usize = 0;
    proof {
        reveal_strlit(" ");
    }
    while k < n
        invariant
            " "@ == seq![' '],
            s == instructions@,
            n == s.len(),
            k <= n,
            out@ == program_text(s.take(k as int)),
        decreases n - k,
    {
        proof {
            assert(s.take(k + 1).drop_last() =~= s.take(k as int));
            assert(s.take(k + 1).last() == s[k as int]);
        }
        if k > 0 {
            out.append(" ");
        }
        append_instruction_text(&mut out, instructions[k]);
        proof {
            if k == 0 {
                assert(out@ =~= program_text(s.take(k + 1)));
            } else {
                assert(program_text(s.take(k + 1)) == program_text(s.take(k as int)) + seq![' ']
                    + instruction_text(s[k as int]));
                assert(out@ =~= program_text(s.take(k + 1)));
            }
        }
        k += 1;
    }
    assert(s.take(n as int) =~= s);
    out
}

} // verus!

verus! {

/// A program with every move and addition by `n` spelled out as `n` steps of
/// one, and the loop instructions not yet linked.
pub open spec fn unit_steps(s: Seq<Instruction>) -> Seq<Instruction>
    decreases s.len(),
{
    if s.len() == 0 {
        Seq::empty()
    } else {
        unit_steps(s.drop_last()) + unit_steps_of(s.last())
    }
}

pub open spec fn unit_steps_of(i: Instruction) -> Seq<Instruction> {
    match i {
        Instruction::PointerIncrement(x) => Seq::new(x as nat, |_k: int| Instruction::PointerIncrement(1)),
        Instruction::PointerDecrement(x) => Seq::new(x as nat, |_k: int| Instruction::PointerDecrement(1)),
        Instruction::ByteIncrement(x) => Seq::new(x as nat, |_k: int| Instruction::ByteIncrement(1)),
        Instruction::ByteDecrement(x) => Seq::new(x as nat, |_k: int| Instruction::ByteDecrement(1)),
        Instruction::ByteOutput => seq![Instruction::ByteOutput],
        Instruction::ByteInput => seq![Instruction::ByteInput],
        Instruction::OpenLoop(_) => seq![Instruction::OpenLoop(0)],
        Instruction::CloseLoop(_) => seq![Instruction::CloseLoop(0)],
    }
}

} // verus!

verus! {

/// `w` is a word: not empty, with no whitespace in it.
pub open spec fn is_word(w: Seq<char>) -> bool {
    w.len() > 0 && forall|i: int| 0 <= i < w.len() ==> !is_whitespace(#[trigger] w[i])
}

proof fn lemma_scan_append_word_chars(x: Seq<char>, w: Seq<char>)
    requires
        forall|i: int| 0 <= i < w.len() ==> !is_whitespace(#[trigger] w[i]),
    ensures
        word_scan(x + w) == (word_scan(x).0, word_scan(x).1 + w),
    decreases w.len(),
{
    if w.len() == 0 {
        assert(x + w =~= x);
        assert(word_scan(x).1 + w =~= word_scan(x).1);
    } else {
        let wl = w.drop_last();
        assert forall|i: int| 0 <= i < wl.len() implies !is_whitespace(#[trigger] wl[i]) by {
            assert(wl[i] == w[i]);
        }
        lemma_scan_append_word_chars(x, wl);
        assert((x + w).drop_last() =~= x + wl);
        assert((x + w).last() == w[w.len() - 1]);
        assert(word_scan(x).1 + w =~= (word_scan(x).1 + wl).push(w.last()));
    }
}

proof fn lemma_scan_after_break(x: Seq<char>, b: Seq<char>)
    requires
        word_scan(x).1.len() == 0,
    ensures
        word_scan(x + b) == (word_scan(x).0 + word_scan(b).0, word_scan(b).1),
    decreases b.len(),
{
    if b.len() == 0 {
        assert(x + b =~= x);
        assert(word_scan(x).0 + word_scan(b).0 =~= word_scan(x).0);
        assert(word_scan(x).1 =~= word_scan(b).1);
    } else {
        lemma_scan_after_break(x, b.drop_last());
        assert((x + b).drop_last() =~= x + b.drop_last());
        assert((x + b).last() == b.last());
        let (bd, bc) = word_scan(b.drop_last());
        if is_whitespace(b.last()) && bc.len() > 0 {
            assert(word_scan(x).0 + bd.push(bc) =~= (word_scan(x).0 + bd).push(bc));
        }
    }
}

/// The words of two texts joined by a space are the words of the first, then of the second.
proof fn lemma_words_join(a: Seq<char>, b: Seq<char>)
    ensures
        words(a + seq![' '] + b) == words(a) + words(b),
{
    let x = a + seq![' '];
    assert(x.drop_last() =~= a);
    assert(x.last() == ' ');
    assert(is_whitespace(' '));
    assert(word_scan(x).0 == words(a));
    lemma_scan_after_break(x, b);
    let (bd, bc) = word_scan(b);
    if bc.len() > 0 {
        assert(words(a) + bd.push(bc) =~= (words(a) + bd).push(bc));
    }
}

proof fn lemma_words_of_word(w: Seq<char>)
    requires
        is_word(w),
    ensures
        words(w) == seq![w],
{
    lemma_scan_append_word_chars(Seq::empty(), w);
    assert(Seq::<char>::empty() + w =~= w);
    assert(word_scan(Seq::<char>::empty()).1 + w =~= w);
    assert(Seq::<Seq<char>>::empty().push(w) =~= seq![w]);
}

proof fn lemma_words_repeat(w: Seq<char>, n: nat)
    requires
        is_word(w),
    ensures
        words(repeat_word(w, n)) == Seq::new(n, |_k: int| w),
    decreases n,
{
    if n == 0 {
        assert(words(Seq::<char>::empty()) =~= Seq::<Seq<char>>::empty());
        assert(Seq::new(n, |_k: int| w) =~= Seq::<Seq<char>>::empty());
    } else if n == 1 {
        lemma_words_of_word(w);
        assert(Seq::new(n, |_k: int| w) =~= seq![w]);
    } else {
        lemma_words_repeat(w, (n - 1) as nat);
        lemma_words_join(repeat_word(w, (n - 1) as nat), w);
        lemma_words_of_word(w);
        assert(Seq::new(n, |_k: int| w) =~= Seq::new((n - 1) as nat, |_k: int| w) + seq![w]);
    }
}

proof fn lemma_words_instructions_concat(a: Seq<Seq<char>>, b: Seq<Seq<char>>)
    ensures
        words_instructions(a + b) == words_instructions(a) + words_instructions(b),
    decreases b.len(),
{
    if b.len() == 0 {
        assert(a + b =~= a);
        assert(words_instructions(b) =~= Seq::<Instruction>::empty());
        assert(words_instructions(a) + words_instructions(b) =~= words_instructions(a));
    } else {
        lemma_words_instructions_concat(a, b.drop_last());
        assert((a + b).drop_last() =~= a + b.drop_last());
        assert((a + b).last() == b.last());
        match word_instruction(b.last()) {
            Some(i) => {
                assert(words_instructions(a) + words_instructions(b) =~= (words_instructions(a)
                    + words_instructions(b.drop_last())).push(i));
            },
            None => {},
        }
    }
}

proof fn lemma_words_instructions_copies(w: Seq<char>, n: nat, i: Instruction)
    requires
        word_instruction(w) == Some(i),
    ensures
        words_instructions(Seq::new(n, |_k: int| w)) == Seq::new(n, |_k: int| i),
    decreases n,
{
    if n == 0 {
        assert(words_instructions(Seq::new(n, |_k: int| w)) =~= Seq::<Instruction>::empty());
        assert(Seq::new(n, |_k: int| i) =~= Seq::<Instruction>::empty());
    } else {
        lemma_words_instructions_copies(w, (n - 1) as nat, i);
        assert(Seq::new(n, |_k: int| w).drop_last() =~= Seq::new((n - 1) as nat, |_k: int| w));
        assert(Seq::new(n, |_k: int| i) =~= Seq::new((n - 1) as nat, |_k: int| i).push(i));
    }
}

proof fn lemma_words_instructions_single(w: Seq<char>, i: Instruction)
    requires
        word_instruction(w) == Some(i),
    ensures
        words_instructions(seq![w]) == seq![i],
{
    assert(seq![w].drop_last() =~= Seq::<Seq<char>>::empty());
    assert(seq![w].last() == w);
    assert(words_instructions(Seq::<Seq<char>>::empty()) =~= Seq::<Instruction>::empty());
    assert(Seq::<Instruction>::empty().push(i) =~= seq![i]);
}

proof fn lemma_instruction_words_are_words()
    ensures
        is_word(word_meow()),
        is_word(word_mrow()),
        is_word(word_mrp()),
        is_word(word_purr()),
        is_word(word_output()),
        is_word(word_input()),
        is_word(word_nya()),
        is_word(word_close()),
        word_instruction(word_meow()) == Some(Instruction::PointerIncrement(1)),
        word_instruction(word_mrow()) == Some(Instruction::PointerDecrement(1)),
        word_instruction(word_mrp()) == Some(Instruction::ByteIncrement(1)),
        word_instruction(word_purr()) == Some(Instruction::ByteDecrement(1)),
        word_instruction(word_output()) == Some(Instruction::ByteOutput),
        word_instruction(word_input()) == Some(Instruction::ByteInput),
        word_instruction(word_nya()) == Some(Instruction::OpenLoop(0)),
        word_instruction(word_close()) == Some(Instruction::CloseLoop(0)),
{
    assert(word_mrow() != word_meow());
    assert(word_mrp() != word_meow());
    assert(word_mrp() != word_mrow());
    assert(word_purr() != word_meow());
    assert(word_purr() != word_mrow());
    assert(word_purr() != word_mrp());
    assert(word_output() != word_meow());
    assert(word_output() != word_mrow());
    assert(word_output() != word_mrp());
    assert(word_output() != word_purr());
    assert(word_input() != word_meow());
    assert(word_input() != word_mrow());
    assert(word_input() != word_mrp());
    assert(word_input() != word_purr());
    assert(word_input() != word_output());
    assert(word_nya() != word_meow());
    assert(word_nya() != word_mrow());
    assert(word_nya() != word_mrp());
    assert(word_nya() != word_purr());
    assert(word_nya() != word_output());
    assert(word_nya() != word_input());
    assert(word_close() != word_meow());
    assert(word_close() != word_mrow());
    assert(word_close() != word_mrp());
    assert(word_close() != word_purr());
    assert(word_close().len() != word_output().len());
    assert(word_close() != word_output());
    assert(word_close() != word_input());
    assert(word_close() != word_nya());
}

proof fn lemma_instruction_text_reads_back(i: Instruction)
    ensures
        words_instructions(words(instruction_text(i))) == unit_steps_of(i),
{
    lemma_instruction_words_are_words();
    match i {
        Instruction::PointerIncrement(x) => {
            lemma_words_repeat(word_meow(), x as nat);
            lemma_words_instructions_copies(word_meow(), x as nat, Instruction::PointerIncrement(1));
        },
        Instruction::PointerDecrement(x) => {
            lemma_words_repeat(word_mrow(), x as nat);
            lemma_words_instructions_copies(word_mrow(), x as nat, Instruction::PointerDecrement(1));
        },
        Instruction::ByteIncrement(x) => {
            lemma_words_repeat(word_mrp(), x as nat);
            lemma_words_instructions_copies(word_mrp(), x as nat, Instruction::ByteIncrement(1));
        },
        Instruction::ByteDecrement(x) => {
            lemma_words_repeat(word_purr(), x as nat);
            lemma_words_instructions_copies(word_purr(), x as nat, Instruction::ByteDecrement(1));
        },
        Instruction::ByteOutput => {
            lemma_words_of_word(word_output());
            lemma_words_instructions_single(word_output(), Instruction::ByteOutput);
        },
        Instruction::ByteInput => {
            lemma_words_of_word(word_input());
            lemma_words_instructions_single(word_input(), Instruction::ByteInput);
        },
        Instruction::OpenLoop(_) => {
            lemma_words_of_word(word_nya());
            lemma_words_instructions_single(word_nya(), Instruction::OpenLoop(0));
        },
        Instruction::CloseLoop(_) => {
            lemma_words_of_word(word_close());
            lemma_words_instructions_single(word_close(), Instruction::CloseLoop(0));
        },
    }
}

/// Reading the brainpurr text of a program gives back the program with its
/// moves and additions spelled out as steps of one, loops unlinked.
pub proof fn text_reads_back(s: Seq<Instruction>)
    ensures
        program_instructions(program_text(s)) == unit_steps(s),
    decreases s.len(),
{
    if s.len() == 0 {
        assert(words(Seq::<char>::empty()) =~= Seq::<Seq<char>>::empty());
        assert(program_instructions(program_text(s)) =~= unit_steps(s));
    } else if s.len() == 1 {
        lemma_instruction_text_reads_back(s[0]);
        assert(s.drop_last() =~= Seq::<Instruction>::empty());
        assert(unit_steps(s.drop_last()) =~= Seq::<Instruction>::empty());
        assert(unit_steps(s) =~= unit_steps_of(s[0]));
    } else {
        text_reads_back(s.drop_last());
        lemma_words_join(program_text(s.drop_last()), instruction_text(s.last()));
        lemma_words_instructions_concat(
            words(program_text(s.drop_last())),
            words(instruction_text(s.last())),
        );
        lemma_instruction_text_reads_back(s.last());
    }
}

} // verus!

verus! {

proof fn lemma_program_loops_unlinked(ws: Seq<Seq<char>>)
    ensures
        loops_unlinked(words_instructions(ws)),
    decreases ws.len(),
{
    if ws.len() > 0 {
        lemma_program_loops_unlinked(ws.drop_last());
        let rest = words_instructions(ws.drop_last());
        match word_instruction(ws.last()) {
            Some(i) => {
                assert forall|k: int| 0 <= k < rest.push(i).len() implies #[trigger] unlink(
                    rest.push(i)[k],
                ) == rest.push(i)[k] by {
                    if k < rest.len() {
                        assert(rest.push(i)[k] == rest[k]);
                    }
                }
            },
            None => {},
        }
    }
}

/// A read program, linked, spelled out again as steps of one, optimises back
/// to the program it was read as.
pub(crate) proof fn lemma_linked_unit_steps_optimize_back(p: Seq<char>, out: Seq<Instruction>)
    requires
        optimize_fits(program_instructions(p)),
        crate::loops::linked(optimized(program_instructions(p)), out),
    ensures
        optimized(unit_steps(out)) == optimized(program_instructions(p)),
        unlinked(out) == optimized(program_instructions(p)),
        no_zero_steps(out),
        no_adjacent_steps(out),
        counts_fit(out),
        optimize_fits(unit_steps(out)),
{
    let s = program_instructions(p);
    let t = optimized(s);
    optimized_is_normal(s);
    lemma_program_loops_unlinked(words(p));
    lemma_optimized_loops_unlinked(s);
    assert forall|k: int| 0 <= k < out.len() implies !is_zero_step(#[trigger] out[k]) && count_fits(
        out[k],
    ) && unlink(out[k]) == t[k] by {
        assert(crate::loops::same_shape(t[k], out[k]));
        assert(!is_zero_step(t[k]));
        assert(count_fits(t[k]));
        assert(unlink(t[k]) == t[k]);
    }
    assert forall|k: int| 0 <= k < out.len() - 1 implies !(is_move(#[trigger] out[k]) && is_move(
        out[k + 1],
    )) && !(is_add(out[k]) && is_add(out[k + 1])) by {
        assert(crate::loops::same_shape(t[k], out[k]));
        assert(crate::loops::same_shape(t[k + 1], out[k + 1]));
        assert(!(is_move(t[k]) && is_move(t[k + 1])) && !(is_add(t[k]) && is_add(t[k + 1])));
    }
    lemma_optimized_unit_steps(out);
    lemma_unit_steps_fit(out);
    assert(unlinked(out) =~= t);
}

/// Writing a read brainpurr program back as brainpurr text and reading
/// that again gives the same instructions: `parse(unparse(x)) == Ok(x)` when
/// `x == parse(p)?`. The text reads back to the same optimised instructions,
/// whose linked form is `out` again.
pub proof fn brainpurr_round_trip(p: Seq<char>, out: Seq<Instruction>)
    requires
        optimize_fits(program_instructions(p)),
        crate::loops::balanced(program_instructions(p)),
        crate::loops::linked(optimized(program_instructions(p)), out),
    ensures
        optimize_fits(program_instructions(program_text(out))),
        crate::loops::balanced(program_instructions(program_text(out))),
        optimized(program_instructions(program_text(out))) == optimized(program_instructions(p)),
        forall|again: Seq<Instruction>|
            crate::loops::linked(optimized(program_instructions(program_text(out))), again)
                <==> again == out,
{
    let s = program_instructions(p);
    let t = optimized(s);
    lemma_linked_unit_steps_optimize_back(p, out);
    text_reads_back(out);
    lemma_unit_steps_balanced(p, out);
    assert forall|again: Seq<Instruction>|
        crate::loops::linked(optimized(program_instructions(program_text(out))), again) <==> again
        == out by {
        if crate::loops::linked(t, again) {
            crate::loops::linked_form_is_unique(t, again, out);
        }
    }
}

/// The loops of a read program, linked and spelled out again as steps of
/// one, still balance.
proof fn lemma_unit_steps_balanced(p: Seq<char>, out: Seq<Instruction>)
    requires
        optimize_fits(program_instructions(p)),
        crate::loops::balanced(program_instructions(p)),
        crate::loops::linked(optimized(program_instructions(p)), out),
    ensures
        crate::loops::balanced(unit_steps(out)),
{
    lemma_linked_unit_steps_optimize_back(p, out);
    optimize_keeps_loop_balance(program_instructions(p));
    optimize_keeps_loop_balance(unit_steps(out));
}

/// Linking the output of `fix_instructions` again gives it back: it is
/// optimised already, its loops balance, and its linked form is itself.
pub proof fn fix_instructions_is_idempotent(v: Seq<Instruction>, r: Seq<Instruction>)
    requires
        optimize_fits(v),
        crate::loops::balanced(v),
        crate::loops::linked(optimized(v), r),
    ensures
        optimize_fits(r),
        optimized(r) == r,
        crate::loops::balanced(r),
        forall|again: Seq<Instruction>| crate::loops::linked(optimized(r), again) <==> again == r,
{
    let t = optimized(v);
    optimized_is_normal(v);
    optimize_keeps_loop_balance(v);
    assert forall|k: int| 0 <= k < t.len() implies #[trigger] unlinked(t)[k] == unlinked(r)[k] by {
        assert(crate::loops::same_shape(t[k], r[k]));
    }
    assert(unlinked(t) =~= unlinked(r));
    lemma_same_shape_normal(t, r);
    lemma_normal_is_optimized(r);
    crate::loops::linking_ignores_partner_indexes(t, r);
    assert forall|again: Seq<Instruction>| crate::loops::linked(optimized(r), again) <==> again
        == r by {
        if crate::loops::linked(r, again) {
            crate::loops::linked_form_is_unique(t, again, r);
        }
    }
}

} // verus!

verus! {

/// The words separated by single spaces.
pub open spec fn join_words(ws: Seq<Seq<char>>) -> Seq<char>
    decreases ws.len(),
{
    if ws.len() == 0 {
        Seq::empty()
    } else if ws.len() == 1 {
        ws[0]
    } else {
        join_words(ws.drop_last()) + seq![' '] + ws.last()
    }
}

/// A word that stands for an instruction.
pub open spec fn is_instruction_word(w: Seq<char>) -> bool {
    word_instruction(w) is Some
}

/// The instruction words of `s`, in order, separated by single spaces: `s`
/// with every other word taken out.
pub open spec fn instruction_words_text(s: Seq<char>) -> Seq<char> {
    join_words(words(s).filter(|w: Seq<char>| is_instruction_word(w)))
}

proof fn lemma_instruction_word_is_word(w: Seq<char>)
    requires
        is_instruction_word(w),
    ensures
        is_word(w),
{
    lemma_instruction_words_are_words();
}

proof fn lemma_words_of_joined(ws: Seq<Seq<char>>)
    requires
        forall|k: int| 0 <= k < ws.len() ==> is_word(#[trigger] ws[k]),
    ensures
        words(join_words(ws)) == ws,
    decreases ws.len(),
{
    if ws.len() == 0 {
        assert(words(Seq::<char>::empty()) =~= Seq::<Seq<char>>::empty());
    } else if ws.len() == 1 {
        assert(is_word(ws[0]));
        lemma_words_of_word(ws[0]);
        assert(seq![ws[0]] =~= ws);
    } else {
        let d = ws.drop_last();
        assert forall|k: int| 0 <= k < d.len() implies is_word(#[trigger] d[k]) by {
            assert(d[k] == ws[k]);
        }
        lemma_words_of_joined(d);
        lemma_words_join(join_words(d), ws.last());
        assert(is_word(ws[ws.len() - 1]));
        lemma_words_of_word(ws.last());
        assert(d + seq![ws.last()] =~= ws);
    }
}

proof fn lemma_instructions_of_instruction_words(ws: Seq<Seq<char>>)
    ensures
        words_instructions(ws.filter(|w: Seq<char>| is_instruction_word(w))) == words_instructions(
            ws,
        ),
    decreases ws.len(),
{
    reveal(Seq::filter);
    let f = |w: Seq<char>| is_instruction_word(w);
    if ws.len() > 0 {
        let d = ws.drop_last();
        lemma_instructions_of_instruction_words(d);
        if is_instruction_word(ws.last()) {
            lemma_words_instructions_push(d.filter(f), ws.last());
        }
    } else {
        assert(ws.filter(f) =~= ws);
    }
}

/// Words that are not instruction words (`hello`, `meow,`) do not change what
/// a program reads as: reading `s` and reading only its instruction words,
/// separated by single spaces, give the same instructions, hence the same
/// `parse` result.
pub proof fn parse_ignores_other_words(s: Seq<char>)
    ensures
        program_instructions(instruction_words_text(s)) == program_instructions(s),
{
    broadcast use vstd::seq_lib::group_filter_ensures;

    let f = |w: Seq<char>| is_instruction_word(w);
    let ws = words(s).filter(f);
    assert forall|k: int| 0 <= k < ws.len() implies is_word(#[trigger] ws[k]) by {
        assert(ws.contains(ws[k]));
        assert(f(ws[k]));
        lemma_instruction_word_is_word(ws[k]);
    }
    lemma_words_of_joined(ws);
    lemma_instructions_of_instruction_words(words(s));
}

} // verus!

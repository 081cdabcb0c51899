//! Reading brainfuck text into instructions, and writing instructions as brainfuck text.
use vstd::prelude::*;

use crate::error::BrainpurrError;
use crate::loops::{balanced, link_loops, link_outcome_ok, linked};
use crate::optimizer::{lemma_optimized_unlinked, optimize_fits, optimized, unlinked};
use crate::parser::{
    lemma_linked_unit_steps_optimize_back, program_instructions, program_text, text_reads_back,
    unit_steps, unit_steps_of, Instruction,
};

verus! {

/// The instruction a brainfuck character stands for; `None` for the
/// characters that are no instruction (they are comments).
pub open spec fn symbol_instruction(c: char) -> Option<Instruction> {
    if c == '>' {
        Some(Instruction::PointerIncrement(1))
    } else if c == '<' {
        Some(Instruction::PointerDecrement(1))
    } else if c == '+' {
        Some(Instruction::ByteIncrement(1))
    } else if c == '-' {
        Some(Instruction::ByteDecrement(1))
    } else if c == '.' {
        Some(Instruction::ByteOutput)
    } else if c == ',' {
        Some(Instruction::ByteInput)
    } else if c == '[' {
        Some(Instruction::OpenLoop(0))
    } else if c == ']' {
        Some(Instruction::CloseLoop(0))
    } else {
        None
    }
}

/// The instructions of a brainfuck program, one per instruction character, loops not yet linked.
pub open spec fn bf_instructions(s: Seq<char>) -> Seq<Instruction>
    decreases s.len(),
{
    if s.len() == 0 {
        Seq::empty()
    } else {
        let rest = bf_instructions(s.drop_last());
        match symbol_instruction(s.last()) {
            Some(i) => rest.push(i),
            None => rest,
        }
    }
}

fn symbol_to_instruction(c: char) -> (r: Option<Instruction>)
    ensures
        r == symbol_instruction(c),
{
    if c == '>' {
        Some(Instruction::PointerIncrement(1))
    } else if c == '<' {
        Some(Instruction::PointerDecrement(1))
    } else if c == '+' {
        Some(Instruction::ByteIncrement(1))
    } else if c == '-' {
        Some(Instruction::ByteDecrement(1))
    } else if c == '.' {
        Some(Instruction::ByteOutput)
    } else if c == ',' {
        Some(Instruction::ByteInput)
    } else if c == '[' {
        Some(Instruction::OpenLoop(0))
    } else if c == ']' {
        Some(Instruction::CloseLoop(0))
    } else {
        None
    }
}

fn get_instructions(program: &str) -> (r: Vec<Instruction>)
    ensures
        r@ == bf_instructions(program@),
{
    let mut out: Vec<Instruction> = Vec::new();
    for c in it: program.chars()
        invariant
            it.seq() == program@,
            out@ == bf_instructions(it.seq().take(it.index() as int)),
    {
        proof {
            let k = it.index() as int;
            assert(it.seq().take(k + 1).drop_last() =~= it.seq().take(k));
        }
        match symbol_to_instruction(c) {
            Some(i) => out.push(i),
            None => {},
        }
    }
    assert(program@.take(program@.len() as int) =~= program@);
    out
}

/// Reads a brainfuck program and links its loops, reporting an unbalanced
/// program: `TooManyColonThree` for a `]` with no open loop (the first
/// failure met in reading order), else `TooManyNya` for a `[` left open.
pub fn try_parse(program: &str) -> (r: Result<Vec<Instruction>, BrainpurrError>)
    ensures
        link_outcome_ok(bf_instructions(program@), r),
{
    link_loops(get_instructions(program))
}

/// Reads a brainfuck program whose brackets are balanced: one instruction
/// per instruction character, each loop instruction carrying its partner's index.
pub fn parse(program: &str) -> (r: Vec<Instruction>)
    requires
        balanced(bf_instructions(program@)),
    ensures
        linked(bf_instructions(program@), r@),
{
    match try_parse(program) {
        Ok(instructions) => instructions,
        Err(_) => Vec::new(),
    }
}

/// `n` copies of the character `c`.
pub open spec fn repeat_char(c: char, n: nat) -> Seq<char> {
    Seq::new(n, |_i: int| c)
}

/// The brainfuck text of one instruction.
pub open spec fn bf_instruction_text(i: Instruction) -> Seq<char> {
    match i {
        Instruction::PointerIncrement(x) => repeat_char('>', x as nat),
        Instruction::PointerDecrement(x) => repeat_char('<', x as nat),
        Instruction::ByteIncrement(x) => repeat_char('+', x as nat),
        Instruction::ByteDecrement(x) => repeat_char('-', x as nat),
        Instruction::ByteOutput => seq!['.'],
        Instruction::ByteInput => seq![','],
        Instruction::OpenLoop(_) => seq!['['],
        Instruction::CloseLoop(_) => seq![']'],
    }
}

/// The brainfuck text of a program: the texts of its instructions, one after the other.
pub open spec fn bf_program_text(s: Seq<Instruction>) -> Seq<char>
    decreases s.len(),
{
    if s.len() == 0 {
        Seq::empty()
    } else {
        bf_program_text(s.drop_last()) + bf_instruction_text(s.last())
    }
}

fn append_repeated_char(out: &mut String, symbol: &str, n: usize)
    requires
        symbol@.len() == 1,
    ensures
        final(out)@ == old(out)@ + repeat_char(symbol@[0], n as nat),
{
    let mut i: usize = 0;
    while i < n
        invariant
            symbol@.len() == 1,
            i <= n,
            out@ == old(out)@ + repeat_char(symbol@[0], i as nat),
        decreases n - i,
    {
        out.append(symbol);
        i += 1;
        assert(out@ =~= old(out)@ + repeat_char(symbol@[0], i as nat));
    }
}

fn append_bf_text(out: &mut String, i: Instruction)
    ensures
        final(out)@ == old(out)@ + bf_instruction_text(i),
{
    proof {
        reveal_strlit(">");
        reveal_strlit("<");
        reveal_strlit("+");
        reveal_strlit("-");
        reveal_strlit(".");
        reveal_strlit(",");
        reveal_strlit("[");
        reveal_strlit("]");
    }
    match i {
        Instruction::PointerIncrement(x) => append_repeated_char(out, ">", x),
        Instruction::PointerDecrement(x) => append_repeated_char(out, "<", x),
        Instruction::ByteIncrement(x) => append_repeated_char(out, "+", x),
        Instruction::ByteDecrement(x) => append_repeated_char(out, "-", x),
        Instruction::ByteOutput => out.append("."),
        Instruction::ByteInput => out.append(","),
        Instruction::OpenLoop(_) => out.append("["),
        Instruction::CloseLoop(_) => out.append("]"),
    }
    assert(out@ =~= old(out)@ + bf_instruction_text(i));
}

/// Writes a program as brainfuck text: a move or addition by `n` as `n`
/// symbols, the other instructions as one symbol each, with no separators.
pub fn unparse(instructions: Vec<Instruction>) -> (r: String)
    ensures
        r@ == bf_program_text(instructions@),
{
    let ghost s = instructions@;
    let mut out = String::new();
    let n = instructions.len();
    let mut k: usize = 0;
    while k < n
        invariant
            s == instructions@,
            n == s.len(),
            k <= n,
            out@ == bf_program_text(s.take(k as int)),
        decreases n - k,
    {
        proof {
            assert(s.take(k + 1).drop_last() =~= s.take(k as int));
        }
        append_bf_text(&mut out, instructions[k]);
        k += 1;
        assert(out@ =~= bf_program_text(s.take(k as int)));
    }
    assert(s.take(n as int) =~= s);
    out
}

} // verus!

verus! {

proof fn lemma_bf_instructions_concat(a: Seq<char>, b: Seq<char>)
    ensures
        bf_instructions(a + b) == bf_instructions(a) + bf_instructions(b),
    decreases b.len(),
{
    if b.len() == 0 {
        assert(a + b =~= a);
        assert(bf_instructions(a) + bf_instructions(b) =~= bf_instructions(a));
    } else {
        lemma_bf_instructions_concat(a, b.drop_last());
        assert((a + b).drop_last() =~= a + b.drop_last());
        assert((a + b).last() == b.last());
        match symbol_instruction(b.last()) {
            Some(i) => {
                assert(bf_instructions(a) + bf_instructions(b) =~= (bf_instructions(a)
                    + bf_instructions(b.drop_last())).push(i));
            },
            None => {},
        }
    }
}

proof fn lemma_bf_repeat(c: char, n: nat, i: Instruction)
    requires
        symbol_instruction(c) == Some(i),
    ensures
        bf_instructions(repeat_char(c, n)) == Seq::new(n, |_k: int| i),
    decreases n,
{
    if n > 0 {
        lemma_bf_repeat(c, (n - 1) as nat, i);
        assert(repeat_char(c, n).drop_last() =~= repeat_char(c, (n - 1) as nat));
        assert(Seq::new(n, |_k: int| i) =~= Seq::new((n - 1) as nat, |_k: int| i).push(i));
    } else {
        assert(bf_instructions(repeat_char(c, n)) =~= Seq::<Instruction>::empty());
    }
}

proof fn lemma_bf_single(c: char)
    ensures
        bf_instructions(seq![c]) == match symbol_instruction(c) {
            Some(i) => seq![i],
            None => Seq::empty(),
        },
{
    assert(seq![c].drop_last() =~= Seq::<char>::empty());
    assert(bf_instructions(Seq::<char>::empty()) =~= Seq::<Instruction>::empty());
    assert(seq![c].last() == c);
    match symbol_instruction(c) {
        Some(i) => {
            assert(Seq::<Instruction>::empty().push(i) =~= seq![i]);
        },
        None => {},
    }
}

proof fn lemma_bf_instruction_text(i: Instruction)
    ensures
        bf_instructions(bf_instruction_text(i)) == unit_steps_of(i),
{
    match i {
        Instruction::PointerIncrement(x) => lemma_bf_repeat('>', x as nat, Instruction::PointerIncrement(1)),
        Instruction::PointerDecrement(x) => lemma_bf_repeat('<', x as nat, Instruction::PointerDecrement(1)),
        Instruction::ByteIncrement(x) => lemma_bf_repeat('+', x as nat, Instruction::ByteIncrement(1)),
        Instruction::ByteDecrement(x) => lemma_bf_repeat('-', x as nat, Instruction::ByteDecrement(1)),
        Instruction::ByteOutput => lemma_bf_single('.'),
        Instruction::ByteInput => lemma_bf_single(','),
        Instruction::OpenLoop(_) => lemma_bf_single('['),
        Instruction::CloseLoop(_) => lemma_bf_single(']'),
    }
}

/// Reading the brainfuck text of a program gives back the program with its
/// moves and additions spelled out as steps of one, loops unlinked.
pub proof fn bf_text_reads_back(s: Seq<Instruction>)
    ensures
        bf_instructions(bf_program_text(s)) == unit_steps(s),
    decreases s.len(),
{
    if s.len() > 0 {
        bf_text_reads_back(s.drop_last());
        lemma_bf_instructions_concat(bf_program_text(s.drop_last()), bf_instruction_text(s.last()));
        lemma_bf_instruction_text(s.last());
    } else {
        assert(bf_instructions(bf_program_text(s)) =~= unit_steps(s));
    }
}

proof fn lemma_bf_instructions_unit(p: Seq<char>)
    ensures
        unit_steps(bf_instructions(p)) == bf_instructions(p),
    decreases p.len(),
{
    if p.len() > 0 {
        lemma_bf_instructions_unit(p.drop_last());
        let rest = bf_instructions(p.drop_last());
        match symbol_instruction(p.last()) {
            Some(i) => {
                assert(rest.push(i).drop_last() =~= rest);
                assert(unit_steps_of(i) =~= seq![i]);
                assert(rest + seq![i] =~= rest.push(i));
            },
            None => {},
        }
    } else {
        assert(unit_steps(bf_instructions(p)) =~= bf_instructions(p));
    }
}

proof fn lemma_unit_steps_same_shape(t: Seq<Instruction>, out: Seq<Instruction>)
    requires
        t.len() == out.len(),
        forall|k: int| 0 <= k < t.len() ==> crate::loops::same_shape(#[trigger] t[k], out[k]),
    ensures
        unit_steps(out) == unit_steps(t),
    decreases t.len(),
{
    if t.len() > 0 {
        assert forall|k: int| 0 <= k < t.drop_last().len() implies crate::loops::same_shape(
            #[trigger] t.drop_last()[k],
            out.drop_last()[k],
        ) by {
            assert(t.drop_last()[k] == t[k]);
            assert(out.drop_last()[k] == out[k]);
        }
        lemma_unit_steps_same_shape(t.drop_last(), out.drop_last());
        assert(crate::loops::same_shape(t[t.len() - 1], out[out.len() - 1]));
    }
}

/// Writing a read brainfuck program back as brainfuck text and reading
/// that again gives the same instructions: `parse(unparse(parse(p))) == parse(p)`.
pub proof fn bf_round_trip(p: Seq<char>, out: Seq<Instruction>)
    requires
        linked(bf_instructions(p), out),
    ensures
        bf_instructions(bf_program_text(out)) == bf_instructions(p),
        forall|again: Seq<Instruction>|
            linked(bf_instructions(bf_program_text(out)), again) ==> again == out,
{
    let t = bf_instructions(p);
    bf_text_reads_back(out);
    lemma_unit_steps_same_shape(t, out);
    lemma_bf_instructions_unit(p);
    assert forall|again: Seq<Instruction>|
        linked(bf_instructions(bf_program_text(out)), again) implies again == out by {
        crate::loops::linked_form_is_unique(t, again, out);
    }
}

/// Converting brainfuck into brainpurr keeps the program: the brainpurr
/// text of a read brainfuck program reads back to the same instructions.
pub proof fn bf_to_brainpurr_keeps_program(p: Seq<char>, out: Seq<Instruction>)
    requires
        linked(bf_instructions(p), out),
    ensures
        program_instructions(program_text(out)) == bf_instructions(p),
{
    text_reads_back(out);
    lemma_unit_steps_same_shape(bf_instructions(p), out);
    lemma_bf_instructions_unit(p);
}

/// Converting brainpurr into brainfuck keeps the program: the brainfuck
/// text of a read brainpurr program reads back, once optimised, to the same
/// optimised instructions.
pub proof fn brainpurr_to_bf_keeps_program(p: Seq<char>, out: Seq<Instruction>)
    requires
        optimize_fits(program_instructions(p)),
        linked(optimized(program_instructions(p)), out),
    ensures
        bf_instructions(bf_program_text(out)) == unit_steps(out),
        optimized(bf_instructions(bf_program_text(out))) == optimized(program_instructions(p)),
{
    bf_text_reads_back(out);
    lemma_linked_unit_steps_optimize_back(p, out);
}

/// The instruction characters of a text, in order: what is left of it once
/// the comments are taken out.
pub open spec fn bf_symbols(s: Seq<char>) -> Seq<char> {
    s.filter(|c: char| symbol_instruction(c) is Some)
}

proof fn lemma_bf_text_same_shape(t: Seq<Instruction>, out: Seq<Instruction>)
    requires
        t.len() == out.len(),
        forall|k: int| 0 <= k < t.len() ==> crate::loops::same_shape(#[trigger] t[k], out[k]),
    ensures
        bf_program_text(out) == bf_program_text(t),
    decreases t.len(),
{
    if t.len() > 0 {
        assert forall|k: int| 0 <= k < t.drop_last().len() implies crate::loops::same_shape(
            #[trigger] t.drop_last()[k],
            out.drop_last()[k],
        ) by {
            assert(t.drop_last()[k] == t[k]);
            assert(out.drop_last()[k] == out[k]);
        }
        lemma_bf_text_same_shape(t.drop_last(), out.drop_last());
        assert(crate::loops::same_shape(t[t.len() - 1], out[out.len() - 1]));
    }
}

proof fn lemma_bf_text_of_reading(s: Seq<char>)
    ensures
        bf_program_text(bf_instructions(s)) == bf_symbols(s),
    decreases s.len(),
{
    reveal(Seq::filter);
    if s.len() == 0 {
        assert(bf_symbols(s) =~= Seq::<char>::empty());
    } else {
        let d = s.drop_last();
        let c = s.last();
        lemma_bf_text_of_reading(d);
        let rest = bf_instructions(d);
        match symbol_instruction(c) {
            Some(i) => {
                assert(rest.push(i).drop_last() =~= rest);
                assert(bf_instruction_text(i) =~= seq![c]);
                assert(bf_symbols(d).push(c) =~= bf_symbols(d) + seq![c]);
            },
            None => {},
        }
    }
}

/// Writing a read brainfuck program back gives the instruction characters of
/// its text: `unparse(parse(s))` is `s` with its comments taken out.
pub proof fn bf_unparse_gives_the_symbols(s: Seq<char>, out: Seq<Instruction>)
    requires
        linked(bf_instructions(s), out),
    ensures
        bf_program_text(out) == bf_symbols(s),
{
    lemma_bf_text_same_shape(bf_instructions(s), out);
    lemma_bf_text_of_reading(s);
}

/// Converting a read brainpurr program into brainfuck and reading that back
/// gives the program again once fixed: the brainfuck reading can be optimised,
/// its loops balance, and the only linked form of its optimised instructions
/// is the program.
pub proof fn brainpurr_to_bf_and_back(p: Seq<char>, out: Seq<Instruction>, v: Seq<Instruction>)
    requires
        optimize_fits(program_instructions(p)),
        crate::loops::balanced(program_instructions(p)),
        linked(optimized(program_instructions(p)), out),
        linked(bf_instructions(bf_program_text(out)), v),
    ensures
        balanced(bf_instructions(bf_program_text(out))),
        optimize_fits(v),
        balanced(v),
        forall|again: Seq<Instruction>| linked(optimized(v), again) <==> again == out,
{
    let u = unit_steps(out);
    let t = optimized(program_instructions(p));
    bf_text_reads_back(out);
    lemma_linked_unit_steps_optimize_back(p, out);
    crate::parser::brainpurr_round_trip(p, out);
    text_reads_back(out);
    assert forall|k: int| 0 <= k < u.len() implies #[trigger] unlinked(u)[k] == unlinked(v)[k] by {
        assert(crate::loops::same_shape(u[k], v[k]));
    }
    assert(unlinked(u) =~= unlinked(v));
    crate::loops::linking_ignores_partner_indexes(u, v);
    lemma_optimized_unlinked(u);
    lemma_optimized_unlinked(v);
    assert(unlinked(unlinked(out)) =~= unlinked(out));
    let w = optimized(v);
    assert(unlinked(w) == unlinked(t));
    crate::loops::linking_ignores_partner_indexes(w, t);
    assert forall|again: Seq<Instruction>| linked(optimized(v), again) <==> again == out by {
        if linked(t, again) {
            crate::loops::linked_form_is_unique(t, again, out);
        }
    }
}

} // verus!

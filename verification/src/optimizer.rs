//! Merging adjacent moves and adjacent additions, and the laws the optimiser keeps.
use vstd::prelude::*;

use crate::parser::{unit_steps, unit_steps_of, Instruction};

verus! {

/// A pointer move (`meow`, `mrow`).
pub open spec fn is_move(i: Instruction) -> bool {
    i is PointerIncrement || i is PointerDecrement
}

/// A byte addition (`mrp`, `purr`).
pub open spec fn is_add(i: Instruction) -> bool {
    i is ByteIncrement || i is ByteDecrement
}

/// A step of the kind the optimiser is merging: moves when `pointer`, additions otherwise.
pub open spec fn is_step(i: Instruction, pointer: bool) -> bool {
    if pointer {
        is_move(i)
    } else {
        is_add(i)
    }
}

/// The signed amount of a move or an addition, its count read as an `i32`
/// (negative for the decrements); zero for the other instructions.
pub open spec fn amount(i: Instruction) -> int {
    match i {
        Instruction::PointerIncrement(x) => (x as i32) as int,
        Instruction::PointerDecrement(x) => -((x as i32) as int),
        Instruction::ByteIncrement(x) => (x as i32) as int,
        Instruction::ByteDecrement(x) => -((x as i32) as int),
        _ => 0,
    }
}

/// The move (`pointer`) or addition of signed amount `v`.
pub open spec fn make_step(pointer: bool, v: int) -> Instruction {
    if pointer {
        if v >= 0 {
            Instruction::PointerIncrement(v as usize)
        } else {
            Instruction::PointerDecrement((-v) as usize)
        }
    } else {
        if v >= 0 {
            Instruction::ByteIncrement(v as usize)
        } else {
            Instruction::ByteDecrement((-v) as usize)
        }
    }
}

/// Sum of the amounts of the run of adjacent steps of one kind that ends at `i`.
pub open spec fn run_sum(s: Seq<Instruction>, pointer: bool, i: int) -> int
    decreases i,
{
    if i < 0 {
        0
    } else if i > 0 && is_step(s[i - 1], pointer) {
        amount(s[i]) + run_sum(s, pointer, i - 1)
    } else {
        amount(s[i])
    }
}

/// Position `i` after merging the runs of one kind: the last step of a run
/// carries the run's total, the steps before it become steps of zero.
pub open spec fn merged_at(s: Seq<Instruction>, pointer: bool, i: int) -> Instruction {
    if is_step(s[i], pointer) {
        if i + 1 < s.len() && is_step(s[i + 1], pointer) {
            make_step(pointer, 0)
        } else {
            make_step(pointer, run_sum(s, pointer, i))
        }
    } else {
        s[i]
    }
}

pub open spec fn merge_runs(s: Seq<Instruction>, pointer: bool) -> Seq<Instruction> {
    Seq::new(s.len(), |i: int| merged_at(s, pointer, i))
}

/// A move or addition whose count is zero.
pub open spec fn is_zero_step(i: Instruction) -> bool {
    ||| i == Instruction::PointerIncrement(0)
    ||| i == Instruction::PointerDecrement(0)
    ||| i == Instruction::ByteIncrement(0)
    ||| i == Instruction::ByteDecrement(0)
}

pub open spec fn keeps(i: Instruction) -> bool {
    !is_zero_step(i)
}

/// One round of the optimiser: merge the moves, merge the additions, drop the steps of zero.
pub open spec fn optimize_pass(s: Seq<Instruction>) -> Seq<Instruction> {
    merge_runs(merge_runs(s, true), false).filter(keep_pred())
}

pub open spec fn keep_pred() -> spec_fn(Instruction) -> bool {
    |i: Instruction| keeps(i)
}

/// Rounds of the optimiser until one leaves the length unchanged.
pub open spec fn optimized(s: Seq<Instruction>) -> Seq<Instruction>
    decreases s.len(),
{
    let t = optimize_pass(s);
    if t.len() < s.len() {
        optimized(t)
    } else {
        t
    }
}

/// Sum of the absolute amounts of the steps of one kind in `s`.
pub open spec fn step_weight(s: Seq<Instruction>, pointer: bool) -> int
    decreases s.len(),
{
    if s.len() == 0 {
        0
    } else {
        step_weight(s.drop_last(), pointer) + weight_of(s.last(), pointer)
    }
}

/// The absolute amount of a step of the given kind; zero for any other instruction.
pub open spec fn weight_of(i: Instruction, pointer: bool) -> int {
    if is_step(i, pointer) {
        abs(amount(i))
    } else {
        0
    }
}

pub open spec fn abs(v: int) -> int {
    if v < 0 {
        -v
    } else {
        v
    }
}

/// The moves, and the additions, add up to at most `i32::MAX` in absolute
/// value: the optimiser's `i32` sums cannot overflow.
pub open spec fn amounts_fit(s: Seq<Instruction>) -> bool {
    &&& step_weight(s, true) <= i32::MAX
    &&& step_weight(s, false) <= i32::MAX
}

/// Position `k` holds the last step of a run of its kind.
pub open spec fn ends_run(s: Seq<Instruction>, pointer: bool, k: int) -> bool {
    !(k + 1 < s.len() && is_step(s[k + 1], pointer))
}

/// The optimiser's `i32` arithmetic on the runs of one kind stays in range:
/// every step's amount can be formed, every partial sum of a run fits an
/// `i32`, and every run's total can be negated.
pub open spec fn merge_fits(s: Seq<Instruction>, pointer: bool) -> bool {
    forall|k: int|
        0 <= k < s.len() && is_step(#[trigger] s[k], pointer) ==> {
            &&& amount(s[k]) <= i32::MAX
            &&& i32::MIN <= run_sum(s, pointer, k) <= i32::MAX
            &&& ends_run(s, pointer, k) ==> -i32::MAX <= run_sum(s, pointer, k)
        }
}

/// A round of the optimiser stays in range: first on the moves, then on the additions.
pub open spec fn pass_fits(s: Seq<Instruction>) -> bool {
    merge_fits(s, true) && merge_fits(merge_runs(s, true), false)
}

/// Every round the optimiser makes on `s` stays in `i32` range.
pub open spec fn optimize_fits(s: Seq<Instruction>) -> bool
    decreases s.len(),
{
    pass_fits(s) && (optimize_pass(s).len() < s.len() ==> optimize_fits(optimize_pass(s)))
}

} // verus!

verus! {

proof fn lemma_weight_take_step(s: Seq<Instruction>, pointer: bool, k: int)
    requires
        0 <= k < s.len(),
    ensures
        step_weight(s.take(k + 1), pointer) == step_weight(s.take(k), pointer) + weight_of(
            s[k],
            pointer,
        ),
{
    assert(s.take(k + 1).drop_last() =~= s.take(k));
}

proof fn lemma_weight_nonneg(s: Seq<Instruction>, pointer: bool)
    ensures
        step_weight(s, pointer) >= 0,
    decreases s.len(),
{
    if s.len() > 0 {
        lemma_weight_nonneg(s.drop_last(), pointer);
    }
}

proof fn lemma_weight_prefix(s: Seq<Instruction>, pointer: bool, k: int)
    requires
        0 <= k <= s.len(),
    ensures
        step_weight(s.take(k), pointer) <= step_weight(s, pointer),
    decreases s.len() - k,
{
    if k == s.len() {
        assert(s.take(k) =~= s);
    } else {
        lemma_weight_take_step(s, pointer, k);
        lemma_weight_prefix(s, pointer, k + 1);
    }
}

/// The total of a run is bounded by the weight of the prefix that ends with it.
proof fn lemma_run_sum_bound(s: Seq<Instruction>, pointer: bool, i: int)
    requires
        0 <= i < s.len(),
        is_step(s[i], pointer),
    ensures
        abs(run_sum(s, pointer, i)) <= step_weight(s.take(i + 1), pointer),
    decreases i,
{
    lemma_weight_take_step(s, pointer, i);
    if i > 0 && is_step(s[i - 1], pointer) {
        lemma_run_sum_bound(s, pointer, i - 1);
    } else {
        lemma_weight_nonneg(s.take(i), pointer);
    }
}

proof fn lemma_make_step(pointer: bool, v: int)
    requires
        -i32::MAX <= v <= i32::MAX,
    ensures
        amount(make_step(pointer, v)) == v,
        is_step(make_step(pointer, v), pointer),
        !is_step(make_step(pointer, v), !pointer),
        is_zero_step(make_step(pointer, v)) <==> v == 0,
{
}

fn is_step_exec(i: Instruction, pointer: bool) -> (r: bool)
    ensures
        r == is_step(i, pointer),
{
    match i {
        Instruction::PointerIncrement(_) | Instruction::PointerDecrement(_) => pointer,
        Instruction::ByteIncrement(_) | Instruction::ByteDecrement(_) => !pointer,
        _ => false,
    }
}

fn step_amount(i: Instruction) -> (r: i64)
    ensures
        r == amount(i),
{
    match i {
        Instruction::PointerIncrement(x) => (x as i32) as i64,
        Instruction::PointerDecrement(x) => -((x as i32) as i64),
        Instruction::ByteIncrement(x) => (x as i32) as i64,
        Instruction::ByteDecrement(x) => -((x as i32) as i64),
        _ => 0,
    }
}

fn make_step_exec(pointer: bool, v: i64) -> (r: Instruction)
    requires
        -i32::MAX <= v <= i32::MAX,
    ensures
        r == make_step(pointer, v as int),
{
    if pointer {
        if v >= 0 {
            Instruction::PointerIncrement(v as usize)
        } else {
            Instruction::PointerDecrement((-v) as usize)
        }
    } else {
        if v >= 0 {
            Instruction::ByteIncrement(v as usize)
        } else {
            Instruction::ByteDecrement((-v) as usize)
        }
    }
}

/// Merges every run of adjacent steps of one kind into its last step.
fn merge_runs_exec(instructions: Vec<Instruction>, pointer: bool) -> (r: Vec<Instruction>)
    requires
        merge_fits(instructions@, pointer),
    ensures
        r@ == merge_runs(instructions@, pointer),
{
    let ghost s = instructions@;
    let n = instructions.len();
    let mut out: Vec<Instruction> = Vec::new();
    let mut acc: i64 = 0;
    let mut i: usize = 0;
    while i < n
        invariant
            s == instructions@,
            n == s.len(),
            i <= n,
            out@.len() == i,
            merge_fits(s, pointer),
            forall|m: int| 0 <= m < i ==> #[trigger] out@[m] == merged_at(s, pointer, m),
            i > 0 && is_step(s[i - 1], pointer) ==> acc == run_sum(s, pointer, i - 1),
        decreases n - i,
    {
        let ins = instructions[i];
        if is_step_exec(ins, pointer) {
            assert(is_step(s[i as int], pointer));
            if i > 0 {
                assert(is_step(s[i - 1], pointer) ==> i32::MIN <= run_sum(s, pointer, i - 1));
            }
            let a = step_amount(ins);
            if i > 0 && is_step_exec(instructions[i - 1], pointer) {
                acc = acc + a;
            } else {
                acc = a;
            }
            assert(acc == run_sum(s, pointer, i as int));
            if i + 1 < n && is_step_exec(instructions[i + 1], pointer) {
                out.push(make_step_exec(pointer, 0));
            } else {
                out.push(make_step_exec(pointer, acc));
            }
        } else {
            out.push(ins);
        }
        i += 1;
    }
    assert(out@ =~= merge_runs(s, pointer));
    out
}

/// Merges the runs of adjacent pointer moves: each run becomes one move by
/// the run's total, preceded by moves of zero where its other moves stood.
fn optimize_instructions_pointer(instructions: Vec<Instruction>) -> (r: Vec<Instruction>)
    requires
        merge_fits(instructions@, true),
    ensures
        r@ == merge_runs(instructions@, true),
{
    merge_runs_exec(instructions, true)
}

/// Merges the runs of adjacent byte additions, as the pointer version does for moves.
fn optimize_instructions_byte(instructions: Vec<Instruction>) -> (r: Vec<Instruction>)
    requires
        merge_fits(instructions@, false),
    ensures
        r@ == merge_runs(instructions@, false),
{
    merge_runs_exec(instructions, false)
}

} // verus!

verus! {

proof fn lemma_make_step_kind(pointer: bool, v: int)
    ensures
        is_step(make_step(pointer, v), pointer),
        !is_step(make_step(pointer, v), !pointer),
{
}

/// Merging the runs of one kind leaves the steps of the other kind alone.
proof fn lemma_merge_other_weight(s: Seq<Instruction>, pointer: bool, k: int)
    requires
        0 <= k <= s.len(),
    ensures
        step_weight(merge_runs(s, pointer).take(k), !pointer) == step_weight(s.take(k), !pointer),
    decreases k,
{
    if k > 0 {
        lemma_merge_other_weight(s, pointer, k - 1);
        lemma_weight_take_step(s, !pointer, k - 1);
        lemma_weight_take_step(merge_runs(s, pointer), !pointer, k - 1);
        lemma_make_step_kind(pointer, 0);
        lemma_make_step_kind(pointer, run_sum(s, pointer, k - 1));
    }
}

pub open spec fn pending(s: Seq<Instruction>, pointer: bool, k: int) -> int {
    if 0 < k < s.len() && is_step(s[k - 1], pointer) && is_step(s[k], pointer) {
        abs(run_sum(s, pointer, k - 1))
    } else {
        0
    }
}

proof fn lemma_merge_same_weight(s: Seq<Instruction>, pointer: bool, k: int)
    requires
        0 <= k <= s.len(),
        step_weight(s, pointer) <= i32::MAX,
    ensures
        step_weight(merge_runs(s, pointer).take(k), pointer) + pending(s, pointer, k)
            <= step_weight(s.take(k), pointer),
    decreases k,
{
    if k > 0 {
        let j = k - 1;
        lemma_merge_same_weight(s, pointer, j);
        lemma_weight_take_step(s, pointer, j);
        lemma_weight_take_step(merge_runs(s, pointer), pointer, j);
        if is_step(s[j], pointer) {
            lemma_run_sum_bound(s, pointer, j);
            lemma_weight_prefix(s, pointer, j + 1);
            lemma_make_step(pointer, 0);
            lemma_make_step(pointer, run_sum(s, pointer, j));
        }
    }
}

proof fn lemma_filter_weight(s: Seq<Instruction>, pointer: bool)
    ensures
        step_weight(s.filter(keep_pred()), pointer) == step_weight(s, pointer),
    decreases s.len(),
{
    reveal(Seq::filter);
    if s.len() > 0 {
        lemma_filter_weight(s.drop_last(), pointer);
        let t = s.drop_last().filter(keep_pred());
        if keeps(s.last()) {
            assert(t.push(s.last()).drop_last() =~= t);
        }
    }
}

/// A round of the optimiser does not make the amounts heavier.
proof fn lemma_pass_weight(s: Seq<Instruction>)
    requires
        amounts_fit(s),
    ensures
        step_weight(optimize_pass(s), true) <= step_weight(s, true),
        step_weight(optimize_pass(s), false) <= step_weight(s, false),
        amounts_fit(optimize_pass(s)),
{
    let m1 = merge_runs(s, true);
    let m2 = merge_runs(m1, false);
    assert(s.take(s.len() as int) =~= s);
    assert(m1.take(m1.len() as int) =~= m1);
    assert(m2.take(m2.len() as int) =~= m2);
    lemma_merge_same_weight(s, true, s.len() as int);
    lemma_merge_other_weight(s, true, s.len() as int);
    lemma_merge_same_weight(m1, false, m1.len() as int);
    lemma_merge_other_weight(m1, false, m1.len() as int);
    lemma_filter_weight(m2, true);
    lemma_filter_weight(m2, false);
}

proof fn lemma_weight_merge_fits(s: Seq<Instruction>, pointer: bool)
    requires
        step_weight(s, pointer) <= i32::MAX,
    ensures
        merge_fits(s, pointer),
{
    assert forall|k: int| 0 <= k < s.len() && is_step(#[trigger] s[k], pointer) implies {
        &&& amount(s[k]) <= i32::MAX
        &&& i32::MIN <= run_sum(s, pointer, k) <= i32::MAX
        &&& ends_run(s, pointer, k) ==> -i32::MAX <= run_sum(s, pointer, k)
    } by {
        lemma_run_sum_bound(s, pointer, k);
        lemma_weight_prefix(s, pointer, k + 1);
        lemma_weight_take_step(s, pointer, k);
        lemma_weight_nonneg(s.take(k), pointer);
    }
}

/// Programs whose moves, and whose additions, weigh at most `i32::MAX` keep
/// every round of the optimiser in range.
pub proof fn light_programs_fit(s: Seq<Instruction>)
    requires
        amounts_fit(s),
    ensures
        optimize_fits(s),
    decreases s.len(),
{
    lemma_weight_merge_fits(s, true);
    lemma_merge_other_weight(s, true, s.len() as int);
    assert(s.take(s.len() as int) =~= s);
    assert(merge_runs(s, true).take(s.len() as int) =~= merge_runs(s, true));
    lemma_weight_merge_fits(merge_runs(s, true), false);
    lemma_pass_weight(s);
    merge_runs(merge_runs(s, true), false).lemma_filter_len(keep_pred());
    if optimize_pass(s).len() < s.len() {
        light_programs_fit(optimize_pass(s));
    }
}

proof fn lemma_filter_take_step(s: Seq<Instruction>, k: int)
    requires
        0 <= k < s.len(),
    ensures
        s.take(k + 1).filter(keep_pred()) == if keeps(s[k]) {
            s.take(k).filter(keep_pred()).push(s[k])
        } else {
            s.take(k).filter(keep_pred())
        },
{
    reveal(Seq::filter);
    assert(s.take(k + 1).drop_last() =~= s.take(k));
}

fn is_zero_step_exec(i: Instruction) -> (r: bool)
    ensures
        r == is_zero_step(i),
{
    match i {
        Instruction::PointerIncrement(x) => x == 0,
        Instruction::PointerDecrement(x) => x == 0,
        Instruction::ByteIncrement(x) => x == 0,
        Instruction::ByteDecrement(x) => x == 0,
        _ => false,
    }
}

/// Drops the moves and additions whose count is zero.
fn remove_zero_steps(instructions: Vec<Instruction>) -> (r: Vec<Instruction>)
    ensures
        r@ == instructions@.filter(keep_pred()),
{
    let ghost s = instructions@;
    let mut out: Vec<Instruction> = Vec::new();
    let n = instructions.len();
    let mut i: usize = 0;
    while i < n
        invariant
            s == instructions@,
            n == s.len(),
            i <= n,
            out@ == s.take(i as int).filter(keep_pred()),
        decreases n - i,
    {
        proof {
            lemma_filter_take_step(s, i as int);
        }
        let ins = instructions[i];
        if !is_zero_step_exec(ins) {
            out.push(ins);
        }
        i += 1;
    }
    assert(s.take(n as int) =~= s);
    out
}

/// Merges adjacent moves and adjacent additions and drops the steps of zero,
/// round after round, until a round leaves the program's length unchanged.
pub fn optimize_instructions(instructions: Vec<Instruction>) -> (r: Vec<Instruction>)
    requires
        optimize_fits(instructions@),
    ensures
        r@ == optimized(instructions@),
{
    let ghost s = instructions@;
    let mut current = instructions;
    loop
        invariant
            s == instructions@,
            optimize_fits(current@),
            optimized(current@) == optimized(s),
        decreases current@.len(),
    {
        let previous_length = current.len();
        let ghost before = current@;
        let merged = optimize_instructions_byte(optimize_instructions_pointer(current));
        let next = remove_zero_steps(merged);
        assert(next@ == optimize_pass(before));
        proof {
            before.filter(keep_pred()).lemma_filter_len(keep_pred());
            merge_runs(merge_runs(before, true), false).lemma_filter_len(keep_pred());
        }
        if next.len() == previous_length {
            return next;
        }
        current = next;
    }
}

} // verus!

verus! {

/// No move or addition of `s` has a count of zero.
pub open spec fn no_zero_steps(s: Seq<Instruction>) -> bool {
    forall|i: int| 0 <= i < s.len() ==> !is_zero_step(#[trigger] s[i])
}

/// No two moves, and no two additions, of `s` stand next to each other.
pub open spec fn no_adjacent_steps(s: Seq<Instruction>) -> bool {
    forall|i: int|
        0 <= i < s.len() - 1 ==> !(is_move(#[trigger] s[i]) && is_move(s[i + 1])) && !(is_add(s[i])
            && is_add(s[i + 1]))
}

/// Every move and addition of `s` has a count of at most `i32::MAX`.
pub open spec fn counts_fit(s: Seq<Instruction>) -> bool {
    forall|i: int| 0 <= i < s.len() ==> count_fits(#[trigger] s[i])
}

pub open spec fn count_fits(i: Instruction) -> bool {
    match i {
        Instruction::PointerIncrement(x) => x <= i32::MAX,
        Instruction::PointerDecrement(x) => x <= i32::MAX,
        Instruction::ByteIncrement(x) => x <= i32::MAX,
        Instruction::ByteDecrement(x) => x <= i32::MAX,
        _ => true,
    }
}

proof fn lemma_filter_all_kept(s: Seq<Instruction>)
    requires
        s.filter(keep_pred()).len() == s.len(),
    ensures
        no_zero_steps(s),
        s.filter(keep_pred()) == s,
    decreases s.len(),
{
    reveal(Seq::filter);
    if s.len() > 0 {
        s.drop_last().lemma_filter_len(keep_pred());
        let t = s.drop_last().filter(keep_pred());
        if !keeps(s.last()) {
            assert(false);
        }
        lemma_filter_all_kept(s.drop_last());
        assert(s.drop_last().push(s.last()) =~= s);
        assert forall|i: int| 0 <= i < s.len() implies !is_zero_step(#[trigger] s[i]) by {
            if i < s.len() - 1 {
                assert(s[i] == s.drop_last()[i]);
            }
        }
    }
}

proof fn lemma_merge_kinds(s: Seq<Instruction>, pointer: bool, i: int)
    requires
        0 <= i < s.len(),
    ensures
        is_move(merged_at(s, pointer, i)) == is_move(s[i]),
        is_add(merged_at(s, pointer, i)) == is_add(s[i]),
        !is_step(s[i], pointer) ==> merged_at(s, pointer, i) == s[i],
{
}

/// A round that leaves the length unchanged leaves a program in normal form.
proof fn lemma_stable_pass_is_normal(s: Seq<Instruction>)
    requires
        optimize_pass(s).len() == s.len(),
    ensures
        no_zero_steps(optimize_pass(s)),
        no_adjacent_steps(optimize_pass(s)),
{
    let m1 = merge_runs(s, true);
    let m2 = merge_runs(m1, false);
    lemma_filter_all_kept(m2);
    assert forall|i: int| 0 <= i < m2.len() - 1 implies !(is_move(#[trigger] m2[i]) && is_move(
        m2[i + 1],
    )) && !(is_add(m2[i]) && is_add(m2[i + 1])) by {
        lemma_merge_kinds(m1, false, i);
        lemma_merge_kinds(m1, false, i + 1);
        lemma_merge_kinds(s, true, i);
        lemma_merge_kinds(s, true, i + 1);
        assert(!is_zero_step(m2[i]));
        if is_move(m2[i]) && is_move(m2[i + 1]) {
            assert(m1[i] == make_step(true, 0));
        }
        if is_add(m2[i]) && is_add(m2[i + 1]) {
            assert(m2[i] == make_step(false, 0));
        }
    }
}

proof fn lemma_pass_counts_fit(s: Seq<Instruction>)
    requires
        pass_fits(s),
    ensures
        counts_fit(optimize_pass(s)),
{
    let m1 = merge_runs(s, true);
    let m2 = merge_runs(m1, false);
    assert forall|i: int| 0 <= i < m2.len() implies count_fits(#[trigger] m2[i]) by {
        lemma_merge_kinds(m1, false, i);
        lemma_merge_kinds(s, true, i);
        if is_step(s[i], true) {
            lemma_make_step(true, 0);
            if ends_run(s, true, i) {
                lemma_make_step(true, run_sum(s, true, i));
            }
        }
        if is_step(m1[i], false) {
            lemma_make_step(false, 0);
            if ends_run(m1, false, i) {
                lemma_make_step(false, run_sum(m1, false, i));
            }
        }
    }
    lemma_filter_keeps_property(m2);
}

proof fn lemma_filter_keeps_property(s: Seq<Instruction>)
    requires
        counts_fit(s),
    ensures
        counts_fit(s.filter(keep_pred())),
{
    broadcast use vstd::seq_lib::group_filter_ensures;

    assert forall|i: int| 0 <= i < s.filter(keep_pred()).len() implies count_fits(
        #[trigger] s.filter(keep_pred())[i],
    ) by {
        let x = s.filter(keep_pred())[i];
        assert(s.filter(keep_pred()).contains(x));
        s.lemma_filter_contains_rev(keep_pred(), x);
        let k = choose|k: int| 0 <= k < s.len() && s[k] == x;
        assert(count_fits(s[k]));
    }
}

/// The optimiser's result is in normal form: no step has a count of zero,
/// no two moves and no two additions are adjacent, and every count fits an `i32`.
pub proof fn optimized_is_normal(s: Seq<Instruction>)
    requires
        optimize_fits(s),
    ensures
        no_zero_steps(optimized(s)),
        no_adjacent_steps(optimized(s)),
        counts_fit(optimized(s)),
    decreases s.len(),
{
    let t = optimize_pass(s);
    lemma_pass_counts_fit(s);
    merge_runs(merge_runs(s, true), false).lemma_filter_len(keep_pred());
    if t.len() < s.len() {
        optimized_is_normal(t);
    } else {
        lemma_stable_pass_is_normal(s);
    }
}

/// A program in normal form whose counts fit is left as it is by a round of the optimiser.
proof fn lemma_pass_fixes_normal(t: Seq<Instruction>)
    requires
        no_zero_steps(t),
        no_adjacent_steps(t),
        counts_fit(t),
    ensures
        optimize_pass(t) == t,
{
    let m1 = merge_runs(t, true);
    assert forall|i: int| 0 <= i < t.len() implies #[trigger] m1[i] == t[i] by {
        assert(count_fits(t[i]));
        assert(!is_zero_step(t[i]));
        if i > 0 {
            assert(!(is_move(t[i - 1]) && is_move(t[(i - 1) + 1])));
        }
        if i + 1 < t.len() {
            assert(!(is_move(t[i]) && is_move(t[i + 1])));
        }
    }
    assert(m1 =~= t);
    let m2 = merge_runs(m1, false);
    assert forall|i: int| 0 <= i < t.len() implies #[trigger] m2[i] == t[i] by {
        assert(count_fits(t[i]));
        assert(!is_zero_step(t[i]));
        if i > 0 {
            assert(!(is_add(t[i - 1]) && is_add(t[(i - 1) + 1])));
        }
        if i + 1 < t.len() {
            assert(!(is_add(t[i]) && is_add(t[i + 1])));
        }
    }
    assert(m2 =~= t);
    lemma_filter_all_keep_when_no_zero(t);
}

proof fn lemma_filter_all_keep_when_no_zero(s: Seq<Instruction>)
    requires
        no_zero_steps(s),
    ensures
        s.filter(keep_pred()) == s,
    decreases s.len(),
{
    reveal(Seq::filter);
    if s.len() > 0 {
        assert(!is_zero_step(s[s.len() - 1]));
        assert forall|i: int| 0 <= i < s.drop_last().len() implies !is_zero_step(
            #[trigger] s.drop_last()[i],
        ) by {
            assert(s.drop_last()[i] == s[i]);
        }
        lemma_filter_all_keep_when_no_zero(s.drop_last());
        assert(s.drop_last().push(s.last()) =~= s);
    }
}

/// Optimising twice is optimising once.
pub proof fn optimize_is_idempotent(s: Seq<Instruction>)
    requires
        optimize_fits(s),
    ensures
        optimize_fits(optimized(s)),
        optimized(optimized(s)) == optimized(s),
{
    let t = optimized(s);
    optimized_is_normal(s);
    lemma_pass_fixes_normal(t);
    optimized_programs_fit(s);
}

} // verus!

verus! {

/// An instruction that is neither a move nor an addition: input, output, or a loop.
pub open spec fn is_control(i: Instruction) -> bool {
    !is_move(i) && !is_add(i)
}

pub open spec fn control_pred() -> spec_fn(Instruction) -> bool {
    |i: Instruction| is_control(i)
}

proof fn lemma_control_filter_pointwise(a: Seq<Instruction>, b: Seq<Instruction>)
    requires
        a.len() == b.len(),
        forall|i: int|
            0 <= i < a.len() ==> is_control(#[trigger] a[i]) == is_control(b[i]) && (is_control(
                a[i],
            ) ==> a[i] == b[i]),
    ensures
        a.filter(control_pred()) == b.filter(control_pred()),
    decreases a.len(),
{
    reveal(Seq::filter);
    if a.len() > 0 {
        assert forall|i: int| 0 <= i < a.drop_last().len() implies is_control(
            #[trigger] a.drop_last()[i],
        ) == is_control(b.drop_last()[i]) && (is_control(a.drop_last()[i]) ==> a.drop_last()[i]
            == b.drop_last()[i]) by {
            assert(a.drop_last()[i] == a[i]);
            assert(b.drop_last()[i] == b[i]);
        }
        lemma_control_filter_pointwise(a.drop_last(), b.drop_last());
        assert(is_control(a[a.len() - 1]) == is_control(b[b.len() - 1]));
    }
}

proof fn lemma_control_filter_after_keep(m: Seq<Instruction>)
    ensures
        m.filter(keep_pred()).filter(control_pred()) == m.filter(control_pred()),
    decreases m.len(),
{
    reveal(Seq::filter);
    if m.len() > 0 {
        lemma_control_filter_after_keep(m.drop_last());
        let t = m.drop_last().filter(keep_pred());
        if keeps(m.last()) {
            t.lemma_filter_push(m.last(), control_pred());
        }
    }
}

proof fn lemma_pass_keeps_control(s: Seq<Instruction>)
    ensures
        optimize_pass(s).filter(control_pred()) == s.filter(control_pred()),
{
    let m1 = merge_runs(s, true);
    let m2 = merge_runs(m1, false);
    assert forall|i: int| 0 <= i < s.len() implies is_control(#[trigger] m1[i]) == is_control(
        s[i],
    ) && (is_control(m1[i]) ==> m1[i] == s[i]) by {
        lemma_merge_kinds(s, true, i);
    }
    lemma_control_filter_pointwise(m1, s);
    assert forall|i: int| 0 <= i < m1.len() implies is_control(#[trigger] m2[i]) == is_control(
        m1[i],
    ) && (is_control(m2[i]) ==> m2[i] == m1[i]) by {
        lemma_merge_kinds(m1, false, i);
    }
    lemma_control_filter_pointwise(m2, m1);
    lemma_control_filter_after_keep(m2);
}

/// The optimiser keeps the input, output and loop instructions, in their
/// order: it only merges and drops moves and additions.
pub proof fn optimize_keeps_control_instructions(s: Seq<Instruction>)
    ensures
        optimized(s).filter(control_pred()) == s.filter(control_pred()),
    decreases s.len(),
{
    let t = optimize_pass(s);
    lemma_pass_keeps_control(s);
    merge_runs(merge_runs(s, true), false).lemma_filter_len(keep_pred());
    if t.len() < s.len() {
        optimize_keeps_control_instructions(t);
    }
}

} // verus!

verus! {

/// Sum of the signed amounts of the steps of one kind: the net pointer
/// move, or the net change to bytes.
pub open spec fn step_total(s: Seq<Instruction>, pointer: bool) -> int
    decreases s.len(),
{
    if s.len() == 0 {
        0
    } else {
        step_total(s.drop_last(), pointer) + if is_step(s.last(), pointer) {
            amount(s.last())
        } else {
            0
        }
    }
}

proof fn lemma_total_take_step(s: Seq<Instruction>, pointer: bool, k: int)
    requires
        0 <= k < s.len(),
    ensures
        step_total(s.take(k + 1), pointer) == step_total(s.take(k), pointer) + if is_step(
            s[k],
            pointer,
        ) {
            amount(s[k])
        } else {
            0
        },
{
    assert(s.take(k + 1).drop_last() =~= s.take(k));
}

pub open spec fn pending_total(s: Seq<Instruction>, pointer: bool, k: int) -> int {
    if 0 < k < s.len() && is_step(s[k - 1], pointer) && is_step(s[k], pointer) {
        run_sum(s, pointer, k - 1)
    } else {
        0
    }
}

proof fn lemma_merge_same_total(s: Seq<Instruction>, pointer: bool, k: int)
    requires
        0 <= k <= s.len(),
        merge_fits(s, pointer),
    ensures
        step_total(merge_runs(s, pointer).take(k), pointer) + pending_total(s, pointer, k)
            == step_total(s.take(k), pointer),
    decreases k,
{
    if k > 0 {
        let j = k - 1;
        lemma_merge_same_total(s, pointer, j);
        lemma_total_take_step(s, pointer, j);
        lemma_total_take_step(merge_runs(s, pointer), pointer, j);
        if is_step(s[j], pointer) {
            lemma_make_step(pointer, 0);
            if ends_run(s, pointer, j) {
                lemma_make_step(pointer, run_sum(s, pointer, j));
            }
        }
    }
}

proof fn lemma_merge_other_total(s: Seq<Instruction>, pointer: bool, k: int)
    requires
        0 <= k <= s.len(),
    ensures
        step_total(merge_runs(s, pointer).take(k), !pointer) == step_total(s.take(k), !pointer),
    decreases k,
{
    if k > 0 {
        lemma_merge_other_total(s, pointer, k - 1);
        lemma_total_take_step(s, !pointer, k - 1);
        lemma_total_take_step(merge_runs(s, pointer), !pointer, k - 1);
        lemma_make_step_kind(pointer, 0);
        lemma_make_step_kind(pointer, run_sum(s, pointer, k - 1));
    }
}

proof fn lemma_filter_total(s: Seq<Instruction>, pointer: bool)
    ensures
        step_total(s.filter(keep_pred()), pointer) == step_total(s, pointer),
    decreases s.len(),
{
    reveal(Seq::filter);
    if s.len() > 0 {
        lemma_filter_total(s.drop_last(), pointer);
        let t = s.drop_last().filter(keep_pred());
        if keeps(s.last()) {
            assert(t.push(s.last()).drop_last() =~= t);
        }
    }
}

proof fn lemma_pass_total(s: Seq<Instruction>)
    requires
        pass_fits(s),
    ensures
        step_total(optimize_pass(s), true) == step_total(s, true),
        step_total(optimize_pass(s), false) == step_total(s, false),
{
    let m1 = merge_runs(s, true);
    let m2 = merge_runs(m1, false);
    assert(s.take(s.len() as int) =~= s);
    assert(m1.take(m1.len() as int) =~= m1);
    assert(m2.take(m2.len() as int) =~= m2);
    lemma_merge_same_total(s, true, s.len() as int);
    lemma_merge_other_total(s, true, s.len() as int);
    lemma_merge_same_total(m1, false, m1.len() as int);
    lemma_merge_other_total(m1, false, m1.len() as int);
    lemma_filter_total(m2, true);
    lemma_filter_total(m2, false);
}

/// The optimiser keeps the net pointer move and the net change to bytes:
/// the signed counts of the moves, and of the additions, add up as before.
pub proof fn optimize_keeps_totals(s: Seq<Instruction>)
    requires
        optimize_fits(s),
    ensures
        step_total(optimized(s), true) == step_total(s, true),
        step_total(optimized(s), false) == step_total(s, false),
    decreases s.len(),
{
    let t = optimize_pass(s);
    lemma_pass_total(s);
    if t.len() < s.len() {
        optimize_keeps_totals(t);
    }
}

} // verus!

verus! {

proof fn lemma_depth_push_prefix(s: Seq<Instruction>, x: Instruction, k: int)
    requires
        0 <= k <= s.len(),
    ensures
        crate::loops::depth(s.push(x), k) == crate::loops::depth(s, k),
    decreases k,
{
    if k > 0 {
        lemma_depth_push_prefix(s, x, k - 1);
        assert(s.push(x)[k - 1] == s[k - 1]);
    }
}

proof fn lemma_never_negative_push(s: Seq<Instruction>, x: Instruction)
    ensures
        crate::loops::never_negative(s.push(x)) <==> crate::loops::never_negative(s)
            && crate::loops::depth(s.push(x), s.len() + 1int) >= 0,
        crate::loops::depth(s.push(x), s.len() + 1int) == crate::loops::depth(s, s.len() as int)
            + crate::loops::depth_change(x),
{
    let t = s.push(x);
    lemma_depth_push_prefix(s, x, s.len() as int);
    assert(t[s.len() as int] == x);
    if crate::loops::never_negative(t) {
        assert forall|k: int| 0 <= k <= s.len() implies #[trigger] crate::loops::depth(s, k) >= 0 by {
            lemma_depth_push_prefix(s, x, k);
            assert(crate::loops::depth(t, k) >= 0);
        }
    }
    if crate::loops::never_negative(s) && crate::loops::depth(t, s.len() + 1int) >= 0 {
        assert forall|k: int| 0 <= k <= t.len() implies #[trigger] crate::loops::depth(t, k) >= 0 by {
            if k <= s.len() {
                lemma_depth_push_prefix(s, x, k);
            }
        }
    }
}

/// Whether the loops of `s` balance, and its final depth, depend only on its
/// input, output and loop instructions.
proof fn lemma_balance_of_control(s: Seq<Instruction>)
    ensures
        crate::loops::never_negative(s) == crate::loops::never_negative(s.filter(control_pred())),
        crate::loops::depth(s, s.len() as int) == crate::loops::depth(
            s.filter(control_pred()),
            s.filter(control_pred()).len() as int,
        ),
    decreases s.len(),
{
    reveal(Seq::filter);
    if s.len() == 0 {
        assert(crate::loops::depth(s, 0) == 0);
    } else {
        let d = s.drop_last();
        let x = s.last();
        lemma_balance_of_control(d);
        assert(d.push(x) =~= s);
        lemma_never_negative_push(d, x);
        let fd = d.filter(control_pred());
        if is_control(x) {
            lemma_never_negative_push(fd, x);
        }
    }
}

/// Optimising does not change whether the loops of a program balance, nor
/// which of the two failures a reader reports: the result of linking a
/// program's loops is decided by its `nya` and `:3` alone.
pub proof fn optimize_keeps_loop_balance(s: Seq<Instruction>)
    ensures
        crate::loops::never_negative(optimized(s)) == crate::loops::never_negative(s),
        crate::loops::balanced(optimized(s)) == crate::loops::balanced(s),
{
    optimize_keeps_control_instructions(s);
    lemma_balance_of_control(s);
    lemma_balance_of_control(optimized(s));
}

} // verus!

verus! {

/// `i` with the partner index of a loop instruction cleared.
pub open spec fn unlink(i: Instruction) -> Instruction {
    match i {
        Instruction::OpenLoop(_) => Instruction::OpenLoop(0),
        Instruction::CloseLoop(_) => Instruction::CloseLoop(0),
        _ => i,
    }
}

/// `s` with the partner indexes of its loop instructions cleared.
pub open spec fn unlinked(s: Seq<Instruction>) -> Seq<Instruction> {
    Seq::new(s.len(), |k: int| unlink(s[k]))
}

/// The two instructions are not both moves and not both additions.
pub open spec fn separate_kinds(x: Instruction, y: Instruction) -> bool {
    !(is_move(x) && is_move(y)) && !(is_add(x) && is_add(y))
}

/// The runs of `a` and of `b` do not meet where the two are joined.
pub open spec fn joinable(a: Seq<Instruction>, b: Seq<Instruction>) -> bool {
    a.len() == 0 || b.len() == 0 || separate_kinds(a.last(), b[0])
}

proof fn lemma_run_sum_prefix(a: Seq<Instruction>, b: Seq<Instruction>, pointer: bool, i: int)
    requires
        0 <= i < a.len(),
    ensures
        run_sum(a + b, pointer, i) == run_sum(a, pointer, i),
    decreases i,
{
    if i > 0 {
        lemma_run_sum_prefix(a, b, pointer, i - 1);
    }
}

proof fn lemma_run_sum_suffix(a: Seq<Instruction>, b: Seq<Instruction>, pointer: bool, j: int)
    requires
        0 <= j < b.len(),
        joinable(a, b),
        is_step(b[j], pointer),
    ensures
        run_sum(a + b, pointer, a.len() + j) == run_sum(b, pointer, j),
    decreases j,
{
    let s = a + b;
    assert(s[a.len() + j] == b[j]);
    if j > 0 {
        assert(s[a.len() + j - 1] == b[j - 1]);
        if is_step(b[j - 1], pointer) {
            lemma_run_sum_suffix(a, b, pointer, j - 1);
        }
    } else if a.len() > 0 {
        assert(s[a.len() - 1] == a.last());
    }
}

proof fn lemma_merge_concat(a: Seq<Instruction>, b: Seq<Instruction>, pointer: bool)
    requires
        joinable(a, b),
    ensures
        merge_runs(a + b, pointer) == merge_runs(a, pointer) + merge_runs(b, pointer),
{
    let s = a + b;
    assert forall|i: int| 0 <= i < s.len() implies #[trigger] merge_runs(s, pointer)[i] == (
    merge_runs(a, pointer) + merge_runs(b, pointer))[i] by {
        if i < a.len() {
            assert(s[i] == a[i]);
            if i + 1 < a.len() {
                assert(s[i + 1] == a[i + 1]);
            } else if i + 1 < s.len() {
                assert(s[i + 1] == b[0]);
                assert(a.last() == a[i]);
            }
            if is_step(a[i], pointer) {
                lemma_run_sum_prefix(a, b, pointer, i);
            }
        } else {
            let j = i - a.len();
            assert(s[i] == b[j]);
            if j + 1 < b.len() {
                assert(s[i + 1] == b[j + 1]);
            }
            if is_step(b[j], pointer) {
                lemma_run_sum_suffix(a, b, pointer, j);
            }
        }
    }
    assert(merge_runs(s, pointer) =~= merge_runs(a, pointer) + merge_runs(b, pointer));
}

proof fn lemma_pass_concat(a: Seq<Instruction>, b: Seq<Instruction>)
    requires
        joinable(a, b),
    ensures
        optimize_pass(a + b) == optimize_pass(a) + optimize_pass(b),
{
    lemma_merge_concat(a, b, true);
    let a1 = merge_runs(a, true);
    let b1 = merge_runs(b, true);
    if a.len() > 0 && b.len() > 0 {
        lemma_merge_kinds(a, true, a.len() - 1);
        lemma_merge_kinds(b, true, 0);
    }
    lemma_merge_concat(a1, b1, false);
    let a2 = merge_runs(a1, false);
    let b2 = merge_runs(b1, false);
    Seq::<Instruction>::filter_distributes_over_add(a2, b2, keep_pred());
}

proof fn lemma_filter_drops_zero_prefix(s: Seq<Instruction>, z: Instruction, last: Instruction)
    requires
        s.len() > 0,
        is_zero_step(z),
        keeps(last),
        forall|k: int| 0 <= k < s.len() - 1 ==> #[trigger] s[k] == z,
        s[s.len() - 1] == last,
    ensures
        s.filter(keep_pred()) == seq![last],
    decreases s.len(),
{
    reveal(Seq::filter);
    let d = s.drop_last();
    lemma_filter_all_dropped(d, z);
    assert(Seq::<Instruction>::empty().push(last) =~= seq![last]);
}

proof fn lemma_filter_all_dropped(d: Seq<Instruction>, z: Instruction)
    requires
        is_zero_step(z),
        forall|k: int| 0 <= k < d.len() ==> #[trigger] d[k] == z,
    ensures
        d.filter(keep_pred()) == Seq::<Instruction>::empty(),
    decreases d.len(),
{
    reveal(Seq::filter);
    if d.len() > 0 {
        assert forall|k: int| 0 <= k < d.drop_last().len() implies #[trigger] d.drop_last()[k]
            == z by {
            assert(d.drop_last()[k] == d[k]);
        }
        lemma_filter_all_dropped(d.drop_last(), z);
    }
}

proof fn lemma_unit_run_sum(s: Seq<Instruction>, pointer: bool, unit: Instruction, sign: int, k: int)
    requires
        0 <= k < s.len(),
        forall|m: int| 0 <= m < s.len() ==> #[trigger] s[m] == unit,
        is_step(unit, pointer),
        amount(unit) == sign,
    ensures
        run_sum(s, pointer, k) == sign * (k + 1),
    decreases k,
{
    assert(s[k] == unit);
    if k > 0 {
        assert(s[k - 1] == unit);
        lemma_unit_run_sum(s, pointer, unit, sign, k - 1);
        assert(sign * (k + 1) == sign * k + sign) by (nonlinear_arith);
    } else {
        assert(sign * (k + 1) == sign) by (nonlinear_arith)
            requires
                k == 0,
        ;
    }
}

proof fn lemma_step_block(i: Instruction, pointer: bool, unit: Instruction, sign: int, x: usize)
    requires
        unit_steps_of(i) == Seq::new(x as nat, |_k: int| unit),
        is_step(unit, pointer),
        is_step(i, pointer),
        amount(unit) == sign,
        sign == 1 || sign == -1,
        1 <= x <= i32::MAX,
        make_step(pointer, sign * x) == i,
    ensures
        optimize_pass(unit_steps_of(i)) == seq![i],
{
    let u = unit_steps_of(i);
    let m1 = merge_runs(u, true);
    let m2 = merge_runs(m1, false);
    let z = make_step(pointer, 0);
    lemma_make_step(pointer, 0);
    lemma_make_step(pointer, sign * x);
    let merged = merge_runs(u, pointer);
    assert forall|k: int| 0 <= k < u.len() implies #[trigger] merged[k] == (if k < u.len() - 1 {
        z
    } else {
        i
    }) by {
        lemma_unit_run_sum(u, pointer, unit, sign, k);
        assert(u[k] == unit);
        if k + 1 < u.len() {
            assert(u[k + 1] == unit);
        }
    }
    if pointer {
        assert forall|k: int| 0 <= k < u.len() implies #[trigger] m2[k] == m1[k] by {
            lemma_merge_kinds(m1, false, k);
            lemma_merge_kinds(u, true, k);
            assert(u[k] == unit);
        }
        assert(m2 =~= merged);
    } else {
        assert forall|k: int| 0 <= k < u.len() implies #[trigger] m1[k] == u[k] by {
            lemma_merge_kinds(u, true, k);
            assert(u[k] == unit);
        }
        assert(m1 =~= u);
        assert(m2 =~= merged);
    }
    lemma_make_step(pointer, 0);
    lemma_filter_drops_zero_prefix(m2, z, i);
}

proof fn lemma_block_pass(i: Instruction)
    requires
        count_fits(i),
        !is_zero_step(i),
    ensures
        optimize_pass(unit_steps_of(i)) == seq![unlink(i)],
{
    match i {
        Instruction::PointerIncrement(x) => {
            lemma_step_block(i, true, Instruction::PointerIncrement(1), 1, x);
        },
        Instruction::PointerDecrement(x) => {
            lemma_step_block(i, true, Instruction::PointerDecrement(1), -1, x);
        },
        Instruction::ByteIncrement(x) => {
            lemma_step_block(i, false, Instruction::ByteIncrement(1), 1, x);
        },
        Instruction::ByteDecrement(x) => {
            lemma_step_block(i, false, Instruction::ByteDecrement(1), -1, x);
        },
        _ => {
            let u = unit_steps_of(i);
            assert(u =~= seq![unlink(i)]);
            let m1 = merge_runs(u, true);
            let m2 = merge_runs(m1, false);
            assert(m2 =~= u);
            lemma_filter_all_keep_when_no_zero(m2);
        },
    }
}

proof fn lemma_unit_steps_last_kind(s: Seq<Instruction>)
    requires
        s.len() > 0,
        no_zero_steps(s),
    ensures
        unit_steps(s).len() > 0,
        is_move(unit_steps(s).last()) == is_move(s.last()),
        is_add(unit_steps(s).last()) == is_add(s.last()),
{
    assert(!is_zero_step(s[s.len() - 1]));
    let b = unit_steps_of(s.last());
    assert(b.len() > 0);
    assert((unit_steps(s.drop_last()) + b).last() == b.last());
}

proof fn lemma_normal_drop_last(n: Seq<Instruction>)
    requires
        n.len() > 0,
        no_zero_steps(n),
        no_adjacent_steps(n),
        counts_fit(n),
    ensures
        no_zero_steps(n.drop_last()),
        no_adjacent_steps(n.drop_last()),
        counts_fit(n.drop_last()),
{
    let d = n.drop_last();
    assert forall|k: int| 0 <= k < d.len() implies !is_zero_step(#[trigger] d[k]) && count_fits(
        d[k],
    ) by {
        assert(d[k] == n[k]);
    }
    assert forall|k: int| 0 <= k < d.len() - 1 implies !(is_move(#[trigger] d[k]) && is_move(
        d[k + 1],
    )) && !(is_add(d[k]) && is_add(d[k + 1])) by {
        assert(d[k] == n[k]);
        assert(d[k + 1] == n[k + 1]);
    }
}

/// A round of the optimiser on a normal program spelled out in steps of one
/// gives the program back, loops unlinked.
proof fn lemma_pass_unit_steps(n: Seq<Instruction>)
    requires
        no_zero_steps(n),
        no_adjacent_steps(n),
        counts_fit(n),
    ensures
        optimize_pass(unit_steps(n)) == unlinked(n),
    decreases n.len(),
{
    if n.len() == 0 {
        let u = unit_steps(n);
        assert(merge_runs(merge_runs(u, true), false) =~= Seq::<Instruction>::empty());
        lemma_filter_all_keep_when_no_zero(Seq::<Instruction>::empty());
        assert(optimize_pass(u) =~= unlinked(n));
    } else {
        let d = n.drop_last();
        let x = n.last();
        lemma_normal_drop_last(n);
        lemma_pass_unit_steps(d);
        assert(!is_zero_step(n[n.len() - 1]));
        assert(count_fits(n[n.len() - 1]));
        lemma_block_pass(x);
        let b = unit_steps_of(x);
        if d.len() > 0 {
            lemma_unit_steps_last_kind(d);
            assert(!(is_move(n[n.len() - 2]) && is_move(n[(n.len() - 2) + 1])));
            assert(!(is_add(n[n.len() - 2]) && is_add(n[(n.len() - 2) + 1])));
            assert(d.last() == n[n.len() - 2]);
        }
        assert(joinable(unit_steps(d), b));
        lemma_pass_concat(unit_steps(d), b);
        assert(unlinked(n) =~= unlinked(d) + seq![unlink(x)]);
    }
}

proof fn lemma_unlinked_normal(n: Seq<Instruction>)
    requires
        no_zero_steps(n),
        no_adjacent_steps(n),
        counts_fit(n),
    ensures
        no_zero_steps(unlinked(n)),
        no_adjacent_steps(unlinked(n)),
        counts_fit(unlinked(n)),
{
    let u = unlinked(n);
    assert forall|k: int| 0 <= k < u.len() implies !is_zero_step(#[trigger] u[k]) && count_fits(
        u[k],
    ) by {
        assert(!is_zero_step(n[k]));
        assert(count_fits(n[k]));
    }
    assert forall|k: int| 0 <= k < u.len() - 1 implies !(is_move(#[trigger] u[k]) && is_move(
        u[k + 1],
    )) && !(is_add(u[k]) && is_add(u[k + 1])) by {
        assert(!(is_move(n[k]) && is_move(n[k + 1])) && !(is_add(n[k]) && is_add(n[k + 1])));
    }
}

/// Optimising a normal program spelled out in steps of one gives the program back, loops unlinked.
pub(crate) proof fn lemma_optimized_unit_steps(n: Seq<Instruction>)
    requires
        no_zero_steps(n),
        no_adjacent_steps(n),
        counts_fit(n),
    ensures
        optimized(unit_steps(n)) == unlinked(n),
{
    let u = unit_steps(n);
    lemma_pass_unit_steps(n);
    lemma_unlinked_normal(n);
    lemma_pass_fixes_normal(unlinked(n));
    assert(optimized(unlinked(n)) == unlinked(n));
    assert(optimized(u) == unlinked(n));
}

/// Every loop instruction of `s` carries the index 0.
pub open spec fn loops_unlinked(s: Seq<Instruction>) -> bool {
    forall|k: int| 0 <= k < s.len() ==> #[trigger] unlink(s[k]) == s[k]
}

proof fn lemma_filter_loops_unlinked(s: Seq<Instruction>)
    requires
        loops_unlinked(s),
    ensures
        loops_unlinked(s.filter(keep_pred())),
{
    broadcast use vstd::seq_lib::group_filter_ensures;

    let f = s.filter(keep_pred());
    assert forall|k: int| 0 <= k < f.len() implies #[trigger] unlink(f[k]) == f[k] by {
        let x = f[k];
        assert(f.contains(x));
        s.lemma_filter_contains_rev(keep_pred(), x);
        let m = choose|m: int| 0 <= m < s.len() && s[m] == x;
        assert(unlink(s[m]) == s[m]);
    }
}

pub(crate) proof fn lemma_optimized_loops_unlinked(s: Seq<Instruction>)
    requires
        loops_unlinked(s),
    ensures
        loops_unlinked(optimized(s)),
    decreases s.len(),
{
    let m1 = merge_runs(s, true);
    let m2 = merge_runs(m1, false);
    assert forall|k: int| 0 <= k < m2.len() implies #[trigger] unlink(m2[k]) == m2[k] by {
        lemma_merge_kinds(s, true, k);
        lemma_merge_kinds(m1, false, k);
        assert(unlink(s[k]) == s[k]);
        lemma_make_step_kind(true, 0);
        lemma_make_step_kind(true, run_sum(s, true, k));
        lemma_make_step_kind(false, 0);
        lemma_make_step_kind(false, run_sum(m1, false, k));
    }
    lemma_filter_loops_unlinked(m2);
    let t = optimize_pass(s);
    if t.len() < s.len() {
        lemma_optimized_loops_unlinked(t);
    }
}

} // verus!

verus! {

/// Merging the runs of one kind leaves the runs of the other kind, and their sums, alone.
proof fn lemma_run_sum_other(s: Seq<Instruction>, pointer: bool, k: int)
    requires
        0 <= k < s.len(),
        is_step(s[k], !pointer),
    ensures
        run_sum(merge_runs(s, pointer), !pointer, k) == run_sum(s, !pointer, k),
    decreases k,
{
    lemma_merge_kinds(s, pointer, k);
    if k > 0 {
        lemma_merge_kinds(s, pointer, k - 1);
        if is_step(s[k - 1], !pointer) {
            lemma_run_sum_other(s, pointer, k - 1);
        }
    }
}

proof fn lemma_merge_fits_other(s: Seq<Instruction>, pointer: bool)
    requires
        merge_fits(s, !pointer),
    ensures
        merge_fits(merge_runs(s, pointer), !pointer),
{
    let m = merge_runs(s, pointer);
    assert forall|k: int| 0 <= k < m.len() && is_step(#[trigger] m[k], !pointer) implies {
        &&& amount(m[k]) <= i32::MAX
        &&& i32::MIN <= run_sum(m, !pointer, k) <= i32::MAX
        &&& ends_run(m, !pointer, k) ==> -i32::MAX <= run_sum(m, !pointer, k)
    } by {
        lemma_merge_kinds(s, pointer, k);
        assert(is_step(s[k], !pointer));
        lemma_run_sum_other(s, pointer, k);
        if k + 1 < m.len() {
            lemma_merge_kinds(s, pointer, k + 1);
        }
    }
}

/// In a program in normal form every run is a single step whose count fits.
proof fn lemma_normal_merge_fits(t: Seq<Instruction>, pointer: bool)
    requires
        no_zero_steps(t),
        no_adjacent_steps(t),
        counts_fit(t),
    ensures
        merge_fits(t, pointer),
{
    assert forall|k: int| 0 <= k < t.len() && is_step(#[trigger] t[k], pointer) implies {
        &&& amount(t[k]) <= i32::MAX
        &&& i32::MIN <= run_sum(t, pointer, k) <= i32::MAX
        &&& ends_run(t, pointer, k) ==> -i32::MAX <= run_sum(t, pointer, k)
    } by {
        assert(count_fits(t[k]));
        if k > 0 {
            assert(!(is_move(t[k - 1]) && is_move(t[(k - 1) + 1])));
            assert(!(is_add(t[k - 1]) && is_add(t[(k - 1) + 1])));
        }
    }
}

/// A program in normal form can be optimised: every round stays in range.
proof fn lemma_normal_fits(t: Seq<Instruction>)
    requires
        no_zero_steps(t),
        no_adjacent_steps(t),
        counts_fit(t),
    ensures
        optimize_fits(t),
{
    lemma_normal_merge_fits(t, true);
    lemma_normal_merge_fits(t, false);
    lemma_merge_fits_other(t, true);
    lemma_pass_fixes_normal(t);
}

/// What the optimiser returns can be optimised again: every round stays in range.
pub proof fn optimized_programs_fit(s: Seq<Instruction>)
    requires
        optimize_fits(s),
    ensures
        optimize_fits(optimized(s)),
{
    optimized_is_normal(s);
    lemma_normal_fits(optimized(s));
}

/// Runs of one kind that do not meet where two programs are joined stay in
/// range when each program's do.
proof fn lemma_merge_fits_concat(a: Seq<Instruction>, b: Seq<Instruction>, pointer: bool)
    requires
        joinable(a, b),
        merge_fits(a, pointer),
        merge_fits(b, pointer),
    ensures
        merge_fits(a + b, pointer),
{
    let s = a + b;
    assert forall|k: int| 0 <= k < s.len() && is_step(#[trigger] s[k], pointer) implies {
        &&& amount(s[k]) <= i32::MAX
        &&& i32::MIN <= run_sum(s, pointer, k) <= i32::MAX
        &&& ends_run(s, pointer, k) ==> -i32::MAX <= run_sum(s, pointer, k)
    } by {
        if k < a.len() {
            assert(s[k] == a[k]);
            assert(is_step(a[k], pointer));
            lemma_run_sum_prefix(a, b, pointer, k);
            if k + 1 < a.len() {
                assert(s[k + 1] == a[k + 1]);
            }
        } else {
            let j = k - a.len();
            assert(s[k] == b[j]);
            assert(is_step(b[j], pointer));
            lemma_run_sum_suffix(a, b, pointer, j);
            if j + 1 < b.len() {
                assert(s[k + 1] == b[j + 1]);
            }
        }
    }
}

proof fn lemma_unit_block_fits(u: Seq<Instruction>, pointer: bool, unit: Instruction, sign: int)
    requires
        forall|m: int| 0 <= m < u.len() ==> #[trigger] u[m] == unit,
        amount(unit) == sign,
        sign == 1 || sign == -1,
        u.len() <= i32::MAX,
    ensures
        merge_fits(u, pointer),
{
    assert forall|k: int| 0 <= k < u.len() && is_step(#[trigger] u[k], pointer) implies {
        &&& amount(u[k]) <= i32::MAX
        &&& i32::MIN <= run_sum(u, pointer, k) <= i32::MAX
        &&& ends_run(u, pointer, k) ==> -i32::MAX <= run_sum(u, pointer, k)
    } by {
        assert(u[k] == unit);
        lemma_unit_run_sum(u, pointer, unit, sign, k);
        if sign == 1 {
            assert(sign * (k + 1) == k + 1) by (nonlinear_arith)
                requires
                    sign == 1,
            ;
        } else {
            assert(sign * (k + 1) == -(k + 1)) by (nonlinear_arith)
                requires
                    sign == -1,
            ;
        }
    }
}

/// An instruction whose count fits, spelled out in steps of one, stays in range.
proof fn lemma_block_fits(i: Instruction, pointer: bool)
    requires
        count_fits(i),
    ensures
        merge_fits(unit_steps_of(i), pointer),
{
    let u = unit_steps_of(i);
    match i {
        Instruction::PointerIncrement(x) => {
            lemma_unit_block_fits(u, pointer, Instruction::PointerIncrement(1), 1);
        },
        Instruction::PointerDecrement(x) => {
            lemma_unit_block_fits(u, pointer, Instruction::PointerDecrement(1), -1);
        },
        Instruction::ByteIncrement(x) => {
            lemma_unit_block_fits(u, pointer, Instruction::ByteIncrement(1), 1);
        },
        Instruction::ByteDecrement(x) => {
            lemma_unit_block_fits(u, pointer, Instruction::ByteDecrement(1), -1);
        },
        _ => {
            assert forall|k: int| 0 <= k < u.len() implies !is_step(#[trigger] u[k], pointer) by {
                assert(u =~= seq![unlink(i)]);
            }
        },
    }
}

proof fn lemma_unit_steps_merge_fits(n: Seq<Instruction>, pointer: bool)
    requires
        no_zero_steps(n),
        no_adjacent_steps(n),
        counts_fit(n),
    ensures
        merge_fits(unit_steps(n), pointer),
    decreases n.len(),
{
    if n.len() > 0 {
        let d = n.drop_last();
        let x = n.last();
        lemma_normal_drop_last(n);
        lemma_unit_steps_merge_fits(d, pointer);
        assert(count_fits(n[n.len() - 1]));
        lemma_block_fits(x, pointer);
        if d.len() > 0 {
            lemma_unit_steps_last_kind(d);
            assert(!(is_move(n[n.len() - 2]) && is_move(n[(n.len() - 2) + 1])));
            assert(!(is_add(n[n.len() - 2]) && is_add(n[(n.len() - 2) + 1])));
            assert(d.last() == n[n.len() - 2]);
        }
        lemma_merge_fits_concat(unit_steps(d), unit_steps_of(x), pointer);
    }
}

/// A program in normal form spelled out in steps of one can be optimised:
/// every round stays in range.
pub(crate) proof fn lemma_unit_steps_fit(n: Seq<Instruction>)
    requires
        no_zero_steps(n),
        no_adjacent_steps(n),
        counts_fit(n),
    ensures
        optimize_fits(unit_steps(n)),
{
    let u = unit_steps(n);
    lemma_unit_steps_merge_fits(n, true);
    lemma_unit_steps_merge_fits(n, false);
    lemma_merge_fits_other(u, true);
    lemma_pass_unit_steps(n);
    lemma_unlinked_normal(n);
    lemma_normal_fits(unlinked(n));
}

} // verus!

verus! {

proof fn lemma_run_sum_unlinked(s: Seq<Instruction>, pointer: bool, k: int)
    requires
        0 <= k < s.len(),
    ensures
        run_sum(unlinked(s), pointer, k) == run_sum(s, pointer, k),
    decreases k,
{
    if k > 0 {
        lemma_run_sum_unlinked(s, pointer, k - 1);
    }
}

proof fn lemma_merge_unlinked(s: Seq<Instruction>, pointer: bool)
    ensures
        merge_runs(unlinked(s), pointer) == unlinked(merge_runs(s, pointer)),
        merge_fits(unlinked(s), pointer) == merge_fits(s, pointer),
{
    let u = unlinked(s);
    assert forall|i: int| 0 <= i < s.len() implies #[trigger] merge_runs(u, pointer)[i] == unlinked(
        merge_runs(s, pointer),
    )[i] by {
        lemma_run_sum_unlinked(s, pointer, i);
        lemma_make_step_kind(pointer, 0);
        lemma_make_step_kind(pointer, run_sum(s, pointer, i));
    }
    assert(merge_runs(u, pointer) =~= unlinked(merge_runs(s, pointer)));
    if merge_fits(s, pointer) {
        assert forall|k: int| 0 <= k < u.len() && is_step(#[trigger] u[k], pointer) implies {
            &&& amount(u[k]) <= i32::MAX
            &&& i32::MIN <= run_sum(u, pointer, k) <= i32::MAX
            &&& ends_run(u, pointer, k) ==> -i32::MAX <= run_sum(u, pointer, k)
        } by {
            assert(is_step(s[k], pointer));
            lemma_run_sum_unlinked(s, pointer, k);
        }
    }
    if merge_fits(u, pointer) {
        assert forall|k: int| 0 <= k < s.len() && is_step(#[trigger] s[k], pointer) implies {
            &&& amount(s[k]) <= i32::MAX
            &&& i32::MIN <= run_sum(s, pointer, k) <= i32::MAX
            &&& ends_run(s, pointer, k) ==> -i32::MAX <= run_sum(s, pointer, k)
        } by {
            assert(is_step(u[k], pointer));
            lemma_run_sum_unlinked(s, pointer, k);
        }
    }
}

proof fn lemma_filter_unlinked(m: Seq<Instruction>)
    ensures
        unlinked(m).filter(keep_pred()) == unlinked(m.filter(keep_pred())),
    decreases m.len(),
{
    reveal(Seq::filter);
    if m.len() > 0 {
        let d = m.drop_last();
        lemma_filter_unlinked(d);
        assert(unlinked(m).drop_last() =~= unlinked(d));
        let f = d.filter(keep_pred());
        if keeps(m.last()) {
            assert(unlinked(f.push(m.last())) =~= unlinked(f).push(unlink(m.last())));
        }
    } else {
        assert(unlinked(m).filter(keep_pred()) =~= unlinked(m.filter(keep_pred())));
    }
}

/// Optimising does not look at the partner indexes of the loop instructions:
/// clearing them before or after gives the same program, and the same rounds
/// stay in range.
pub(crate) proof fn lemma_optimized_unlinked(s: Seq<Instruction>)
    ensures
        optimized(unlinked(s)) == unlinked(optimized(s)),
        optimize_fits(unlinked(s)) == optimize_fits(s),
    decreases s.len(),
{
    let u = unlinked(s);
    let m1 = merge_runs(s, true);
    lemma_merge_unlinked(s, true);
    lemma_merge_unlinked(m1, false);
    lemma_filter_unlinked(merge_runs(m1, false));
    assert(optimize_pass(u) == unlinked(optimize_pass(s)));
    if optimize_pass(s).len() < s.len() {
        lemma_optimized_unlinked(optimize_pass(s));
    }
}

} // verus!

verus! {

/// A program in normal form is its own optimised form, and optimising it stays in range.
pub(crate) proof fn lemma_normal_is_optimized(t: Seq<Instruction>)
    requires
        no_zero_steps(t),
        no_adjacent_steps(t),
        counts_fit(t),
    ensures
        optimize_fits(t),
        optimized(t) == t,
{
    lemma_normal_fits(t);
    lemma_pass_fixes_normal(t);
}

/// Normal form does not depend on the partner indexes of the loop instructions.
pub(crate) proof fn lemma_same_shape_normal(t: Seq<Instruction>, r: Seq<Instruction>)
    requires
        unlinked(t) == unlinked(r),
        no_zero_steps(t),
        no_adjacent_steps(t),
        counts_fit(t),
    ensures
        no_zero_steps(r),
        no_adjacent_steps(r),
        counts_fit(r),
{
    assert(t.len() == unlinked(t).len() && r.len() == unlinked(r).len());
    assert forall|k: int| 0 <= k < r.len() implies #[trigger] r[k] == t[k] || (r[k] is OpenLoop
        && t[k] is OpenLoop) || (r[k] is CloseLoop && t[k] is CloseLoop) by {
        assert(unlinked(t)[k] == unlink(t[k]));
        assert(unlinked(r)[k] == unlink(r[k]));
        match r[k] {
            Instruction::OpenLoop(_) => {},
            Instruction::CloseLoop(_) => {},
            _ => {
                match t[k] {
                    Instruction::OpenLoop(_) => {},
                    Instruction::CloseLoop(_) => {},
                    _ => {},
                }
            },
        }
    }
    assert forall|k: int| 0 <= k < r.len() implies !is_zero_step(#[trigger] r[k]) && count_fits(
        r[k],
    ) by {
        assert(!is_zero_step(t[k]));
        assert(count_fits(t[k]));
    }
    assert forall|k: int| 0 <= k < r.len() - 1 implies !(is_move(#[trigger] r[k]) && is_move(
        r[k + 1],
    )) && !(is_add(r[k]) && is_add(r[k + 1])) by {
        assert(r[k] == t[k] || (r[k] is OpenLoop && t[k] is OpenLoop) || (r[k] is CloseLoop
            && t[k] is CloseLoop));
        assert(r[k + 1] == t[k + 1] || (r[k + 1] is OpenLoop && t[k + 1] is OpenLoop) || (r[k
            + 1] is CloseLoop && t[k + 1] is CloseLoop));
        assert(!(is_move(t[k]) && is_move(t[k + 1])) && !(is_add(t[k]) && is_add(t[k + 1])));
    }
}

} // verus!

verus! {

/// Whether the optimiser's `i32` arithmetic on the runs of one kind stays in range.
fn merge_fits_exec(instructions: &Vec<Instruction>, pointer: bool) -> (r: bool)
    ensures
        r == merge_fits(instructions@, pointer),
{
    let ghost s = instructions@;
    let n = instructions.len();
    let mut acc: i64 = 0;
    let mut i: usize = 0;
    while i < n
        invariant
            s == instructions@,
            n == s.len(),
            i <= n,
            forall|k: int|
                0 <= k < i && is_step(#[trigger] s[k], pointer) ==> {
                    &&& amount(s[k]) <= i32::MAX
                    &&& i32::MIN <= run_sum(s, pointer, k) <= i32::MAX
                    &&& ends_run(s, pointer, k) ==> -i32::MAX <= run_sum(s, pointer, k)
                },
            i > 0 && is_step(s[i - 1], pointer) ==> acc == run_sum(s, pointer, i - 1),
        decreases n - i,
    {
        let ins = instructions[i];
        if is_step_exec(ins, pointer) {
            assert(is_step(s[i as int], pointer));
            if i > 0 {
                assert(is_step(s[i - 1], pointer) ==> i32::MIN <= run_sum(s, pointer, i - 1) <= i32::MAX);
            }
            let a = step_amount(ins);
            if a > i32::MAX as i64 {
                return false;
            }
            if i > 0 && is_step_exec(instructions[i - 1], pointer) {
                acc = acc + a;
            } else {
                acc = a;
            }
            assert(acc == run_sum(s, pointer, i as int));
            if acc < i32::MIN as i64 || acc > i32::MAX as i64 {
                return false;
            }
            let last = !(i + 1 < n && is_step_exec(instructions[i + 1], pointer));
            assert(last == ends_run(s, pointer, i as int));
            if last && acc < -(i32::MAX as i64) {
                return false;
            }
        }
        i += 1;
    }
    true
}

/// Optimises the program when every round of the optimiser stays in `i32`
/// range, and says so with `None` when one would not.
pub fn try_optimize_instructions(instructions: Vec<Instruction>) -> (r: Option<Vec<Instruction>>)
    ensures
        r is Some <==> optimize_fits(instructions@),
        r matches Some(v) ==> v@ == optimized(instructions@),
{
    let ghost s = instructions@;
    let mut current = instructions;
    loop
        invariant
            s == instructions@,
            optimize_fits(current@) == optimize_fits(s),
            optimize_fits(current@) ==> optimized(current@) == optimized(s),
        decreases current@.len(),
    {
        let previous_length = current.len();
        let ghost before = current@;
        if !merge_fits_exec(&current, true) {
            return None;
        }
        let moved = optimize_instructions_pointer(current);
        if !merge_fits_exec(&moved, false) {
            return None;
        }
        let merged = optimize_instructions_byte(moved);
        let next = remove_zero_steps(merged);
        assert(next@ == optimize_pass(before));
        proof {
            merge_runs(merge_runs(before, true), false).lemma_filter_len(keep_pred());
        }
        if next.len() == previous_length {
            return Some(next);
        }
        current = next;
    }
}

} // verus!

verus! {

/// What an instruction adds to the net move (`pointer`) or net byte change of
/// the stretch it stands in.
pub open spec fn contribution(i: Instruction, pointer: bool) -> int {
    if is_step(i, pointer) {
        amount(i)
    } else {
        0
    }
}

/// `t` with `v` added to its last entry.
pub open spec fn add_last(t: Seq<int>, v: int) -> Seq<int> {
    t.update(t.len() - 1, t.last() + v)
}

/// The net pointer move (`pointer`), or net byte change, of each stretch of
/// `s` between its input, output and loop instructions, in order: one entry
/// for the stretch before the first of them, and one after each.
pub open spec fn stretch_totals(s: Seq<Instruction>, pointer: bool) -> Seq<int>
    decreases s.len(),
{
    if s.len() == 0 {
        seq![0int]
    } else {
        let t = stretch_totals(s.drop_last(), pointer);
        if is_control(s.last()) {
            t.push(0)
        } else {
            add_last(t, contribution(s.last(), pointer))
        }
    }
}

proof fn lemma_stretch_totals_len(s: Seq<Instruction>, pointer: bool)
    ensures
        stretch_totals(s, pointer).len() >= 1,
    decreases s.len(),
{
    if s.len() > 0 {
        lemma_stretch_totals_len(s.drop_last(), pointer);
    }
}

proof fn lemma_add_last_zero(t: Seq<int>)
    requires
        t.len() >= 1,
    ensures
        add_last(t, 0) == t,
{
    assert(add_last(t, 0) =~= t);
}

proof fn lemma_add_last_twice(t: Seq<int>, a: int, b: int)
    requires
        t.len() >= 1,
    ensures
        add_last(add_last(t, a), b) == add_last(t, a + b),
{
    assert(add_last(add_last(t, a), b) =~= add_last(t, a + b));
}

/// Two programs whose instructions agree on being control instructions and
/// on what they contribute have the same stretch totals.
proof fn lemma_same_profile(a: Seq<Instruction>, b: Seq<Instruction>, pointer: bool)
    requires
        a.len() == b.len(),
        forall|k: int| 0 <= k < a.len() ==> is_control(#[trigger] a[k]) == is_control(b[k]),
        forall|k: int| 0 <= k < a.len() ==> contribution(#[trigger] a[k], pointer) == contribution(
            b[k],
            pointer,
        ),
    ensures
        stretch_totals(a, pointer) == stretch_totals(b, pointer),
    decreases a.len(),
{
    if a.len() > 0 {
        let da = a.drop_last();
        let db = b.drop_last();
        assert forall|k: int| 0 <= k < da.len() implies is_control(#[trigger] da[k]) == is_control(
            db[k],
        ) && contribution(da[k], pointer) == contribution(db[k], pointer) by {
            assert(da[k] == a[k] && db[k] == b[k]);
        }
        lemma_same_profile(da, db, pointer);
        assert(is_control(a[a.len() - 1]) == is_control(b[b.len() - 1]));
        assert(contribution(a[a.len() - 1], pointer) == contribution(b[b.len() - 1], pointer));
    }
}

/// Merging the runs of the other kind leaves the stretch totals of one kind alone.
proof fn lemma_stretch_merge_other(s: Seq<Instruction>, pointer: bool)
    ensures
        stretch_totals(merge_runs(s, !pointer), pointer) == stretch_totals(s, pointer),
{
    let m = merge_runs(s, !pointer);
    assert forall|k: int| 0 <= k < m.len() implies is_control(#[trigger] m[k]) == is_control(s[k])
        && contribution(m[k], pointer) == contribution(s[k], pointer) by {
        lemma_merge_kinds(s, !pointer, k);
        lemma_make_step_kind(!pointer, 0);
        lemma_make_step_kind(!pointer, run_sum(s, !pointer, k));
    }
    lemma_same_profile(m, s, pointer);
}

/// Dropping steps of zero leaves the stretch totals alone.
proof fn lemma_stretch_filter(s: Seq<Instruction>, pointer: bool)
    ensures
        stretch_totals(s.filter(keep_pred()), pointer) == stretch_totals(s, pointer),
    decreases s.len(),
{
    reveal(Seq::filter);
    if s.len() > 0 {
        let d = s.drop_last();
        lemma_stretch_filter(d, pointer);
        let f = d.filter(keep_pred());
        lemma_stretch_totals_len(d, pointer);
        if keeps(s.last()) {
            assert(f.push(s.last()).drop_last() =~= f);
        } else {
            assert(contribution(s.last(), pointer) == 0);
            lemma_add_last_zero(stretch_totals(d, pointer));
        }
    }
}

proof fn lemma_take_last(s: Seq<Instruction>, k: int)
    requires
        0 < k <= s.len(),
    ensures
        s.take(k).drop_last() == s.take(k - 1),
        s.take(k).last() == s[k - 1],
{
    assert(s.take(k).drop_last() =~= s.take(k - 1));
}

/// Merging the runs of one kind moves each run's total to its last step,
/// inside the same stretch: up to position `k`, only the part of a run that
/// is not yet merged is missing.
proof fn lemma_stretch_merge_same_prefix(s: Seq<Instruction>, pointer: bool, k: int)
    requires
        0 <= k <= s.len(),
        merge_fits(s, pointer),
    ensures
        add_last(stretch_totals(merge_runs(s, pointer).take(k), pointer), pending_total(
            s,
            pointer,
            k,
        )) == stretch_totals(s.take(k), pointer),
    decreases k,
{
    let m = merge_runs(s, pointer);
    if k == 0 {
        assert(m.take(0) =~= Seq::<Instruction>::empty());
        assert(s.take(0) =~= Seq::<Instruction>::empty());
        lemma_add_last_zero(seq![0int]);
    } else {
        let j = k - 1;
        lemma_stretch_merge_same_prefix(s, pointer, j);
        lemma_take_last(s, k);
        lemma_take_last(m, k);
        lemma_stretch_totals_len(m.take(j), pointer);
        lemma_stretch_totals_len(s.take(j), pointer);
        let tm = stretch_totals(m.take(j), pointer);
        let ts = stretch_totals(s.take(j), pointer);
        lemma_merge_kinds(s, pointer, j);
        if is_step(s[j], pointer) {
            lemma_make_step(pointer, 0);
            assert(!is_control(s[j]) && !is_control(m[j]));
            if j > 0 && is_step(s[j - 1], pointer) {
                assert(pending_total(s, pointer, j) == run_sum(s, pointer, j - 1));
            } else {
                assert(pending_total(s, pointer, j) == 0);
            }
            assert(run_sum(s, pointer, j) == amount(s[j]) + pending_total(s, pointer, j));
            if k < s.len() && is_step(s[k], pointer) {
                assert(contribution(m[j], pointer) == 0);
                lemma_add_last_twice(tm, 0, pending_total(s, pointer, k));
                lemma_add_last_twice(tm, pending_total(s, pointer, j), amount(s[j]));
            } else {
                assert(ends_run(s, pointer, j));
                lemma_make_step(pointer, run_sum(s, pointer, j));
                assert(contribution(m[j], pointer) == run_sum(s, pointer, j));
                assert(pending_total(s, pointer, k) == 0);
                lemma_stretch_totals_len(m.take(k), pointer);
                lemma_add_last_zero(stretch_totals(m.take(k), pointer));
                lemma_add_last_twice(tm, pending_total(s, pointer, j), amount(s[j]));
            }
        } else {
            assert(m[j] == s[j]);
            assert(pending_total(s, pointer, j) == 0);
            assert(pending_total(s, pointer, k) == 0);
            lemma_add_last_zero(tm);
            lemma_stretch_totals_len(m.take(k), pointer);
            lemma_add_last_zero(stretch_totals(m.take(k), pointer));
            if !is_control(s[j]) {
                lemma_add_last_zero(ts);
            }
        }
    }
}

proof fn lemma_stretch_merge_same(s: Seq<Instruction>, pointer: bool)
    requires
        merge_fits(s, pointer),
    ensures
        stretch_totals(merge_runs(s, pointer), pointer) == stretch_totals(s, pointer),
{
    let m = merge_runs(s, pointer);
    lemma_stretch_merge_same_prefix(s, pointer, s.len() as int);
    assert(m.take(s.len() as int) =~= m);
    assert(s.take(s.len() as int) =~= s);
    lemma_stretch_totals_len(m, pointer);
    lemma_add_last_zero(stretch_totals(m, pointer));
}

/// The optimiser keeps the net effect of every stretch between the input,
/// output and loop instructions: in each, the moves add up to the same net
/// pointer move and the additions to the same net byte change as before.
pub proof fn optimize_keeps_stretch_totals(s: Seq<Instruction>)
    requires
        optimize_fits(s),
    ensures
        stretch_totals(optimized(s), true) == stretch_totals(s, true),
        stretch_totals(optimized(s), false) == stretch_totals(s, false),
    decreases s.len(),
{
    let m1 = merge_runs(s, true);
    let m2 = merge_runs(m1, false);
    lemma_stretch_merge_same(s, true);
    lemma_stretch_merge_other(m1, true);
    lemma_stretch_merge_other(s, false);
    lemma_stretch_merge_same(m1, false);
    lemma_stretch_filter(m2, true);
    lemma_stretch_filter(m2, false);
    if optimize_pass(s).len() < s.len() {
        optimize_keeps_stretch_totals(optimize_pass(s));
    }
}

} // verus!

//! Matching every `nya` with its `:3`, and the laws of the matching.
use vstd::prelude::*;

use crate::error::BrainpurrError;
use crate::optimizer::unlinked;
use crate::parser::Instruction;

verus! {

/// How an instruction changes the loop nesting depth.
pub open spec fn depth_change(i: Instruction) -> int {
    match i {
        Instruction::OpenLoop(_) => 1,
        Instruction::CloseLoop(_) => -1,
        _ => 0,
    }
}

/// Number of loops open just before position `k` (opens minus closes in `s[0..k]`).
pub open spec fn depth(s: Seq<Instruction>, k: int) -> int
    decreases k,
{
    if k <= 0 {
        0
    } else {
        depth(s, k - 1) + depth_change(s[k - 1])
    }
}

/// No prefix of `s` closes more loops than it opens.
pub open spec fn never_negative(s: Seq<Instruction>) -> bool {
    forall|k: int| 0 <= k <= s.len() ==> depth(s, k) >= 0
}

/// Every loop of `s` is closed and every close has an open before it.
pub open spec fn balanced(s: Seq<Instruction>) -> bool {
    never_negative(s) && depth(s, s.len() as int) == 0
}

/// The loop opened at `i` is the one closed at `j`.
pub open spec fn loops_match(s: Seq<Instruction>, i: int, j: int) -> bool {
    &&& 0 <= i < j < s.len()
    &&& s[i] is OpenLoop
    &&& s[j] is CloseLoop
    &&& depth(s, j + 1) == depth(s, i)
    &&& forall|m: int| i < m < j ==> #[trigger] depth(s, m + 1) > depth(s, i)
}

/// `b` is `a`, up to the partner index that a loop instruction carries.
pub open spec fn same_shape(a: Instruction, b: Instruction) -> bool {
    match a {
        Instruction::OpenLoop(_) => b is OpenLoop,
        Instruction::CloseLoop(_) => b is CloseLoop,
        _ => a == b,
    }
}

/// `out` is `s` with every loop instruction carrying the index of its partner.
pub open spec fn linked(s: Seq<Instruction>, out: Seq<Instruction>) -> bool {
    &&& out.len() == s.len()
    &&& forall|k: int| 0 <= k < s.len() ==> same_shape(s[k], #[trigger] out[k])
    &&& forall|k: int|
        0 <= k < out.len() ==> match #[trigger] out[k] {
            Instruction::OpenLoop(j) => loops_match(s, k, j as int),
            Instruction::CloseLoop(i) => loops_match(s, i as int, k),
            _ => true,
        }
}

/// What linking the loops of `s` gives: the first failure in reading order, if any.
pub open spec fn link_outcome_ok(s: Seq<Instruction>, r: Result<Vec<Instruction>, BrainpurrError>) -> bool {
    &&& (r is Ok <==> balanced(s))
    &&& (r matches Ok(out) ==> linked(s, out@))
    &&& (r matches Err(e) ==> (e is TooManyColonThree <==> !never_negative(s)))
    &&& (r matches Err(e) ==> (e is TooManyNya <==> never_negative(s)))
    &&& (r matches Err(e) ==> (e is TooManyColonThree || e is TooManyNya))
}

proof fn lemma_depth_step(s: Seq<Instruction>, k: int)
    requires
        0 <= k,
    ensures
        depth(s, k + 1) == depth(s, k) + depth_change(s[k]),
{
}

/// Fills in the partner index of every loop instruction, scanning once with a
/// stack of the loops still open. A close with no open loop is reported as
/// soon as it is met; loops still open at the end are reported after the scan.
pub fn link_loops(instructions: Vec<Instruction>) -> (r: Result<Vec<Instruction>, BrainpurrError>)
    ensures
        link_outcome_ok(instructions@, r),
{
    let ghost s = instructions@;
    let mut out = instructions;
    let mut stack: Vec<usize> = Vec::new();
    let n = out.len();
    let mut k: usize = 0;
    while k < n
        invariant
            s == instructions@,
            n == s.len(),
            out@.len() == n,
            k <= n,
            forall|m: int| 0 <= m < n ==> same_shape(s[m], #[trigger] out@[m]),
            forall|m: int| k <= m < n ==> #[trigger] out@[m] == s[m],
            forall|m: int| 0 <= m <= k ==> #[trigger] depth(s, m) >= 0,
            stack@.len() == depth(s, k as int),
            forall|p: int|
                0 <= p < stack@.len() ==> {
                    &&& #[trigger] stack@[p] < k
                    &&& s[stack@[p] as int] is OpenLoop
                    &&& depth(s, stack@[p] as int) == p
                    &&& forall|m: int| stack@[p] < m <= k ==> #[trigger] depth(s, m) > p
                },
            forall|m: int|
                0 <= m < k ==> match #[trigger] out@[m] {
                    Instruction::OpenLoop(j) => loops_match(s, m, j as int) || exists|p: int|
                        0 <= p < stack@.len() && stack@[p] == m,
                    Instruction::CloseLoop(i) => loops_match(s, i as int, m),
                    _ => true,
                },
        decreases n - k,
    {
        proof {
            lemma_depth_step(s, k as int);
        }
        let ghost old_stack = stack@;
        let ghost old_out = out@;
        match out[k] {
            Instruction::OpenLoop(_) => {
                stack.push(k);
                assert(stack@[old_stack.len() as int] == k);
                assert forall|m: int| 0 <= m < k + 1 implies match #[trigger] out@[m] {
                    Instruction::OpenLoop(j) => loops_match(s, m, j as int) || exists|p: int|
                        0 <= p < stack@.len() && stack@[p] == m,
                    Instruction::CloseLoop(i) => loops_match(s, i as int, m),
                    _ => true,
                } by {
                    if m < k && old_out[m] is OpenLoop && !loops_match(s, m, old_out[m]->OpenLoop_0 as int) {
                        let p = choose|p: int| 0 <= p < old_stack.len() && old_stack[p] == m;
                        assert(stack@[p] == m);
                    }
                    if m == k {
                        assert(stack@[old_stack.len() as int] == m);
                    }
                }
            },
            Instruction::CloseLoop(_) => {
                match stack.pop() {
                    None => {
                        assert(depth(s, k + 1) < 0);
                        assert(!never_negative(s));
                        return Err(BrainpurrError::TooManyColonThree);
                    },
                    Some(t) => {
                        assert(t == old_stack[old_stack.len() - 1]);
                        out.set(t, Instruction::OpenLoop(k));
                        out.set(k, Instruction::CloseLoop(t));
                        assert(loops_match(s, t as int, k as int)) by {
                            assert forall|m: int| t < m < k implies #[trigger] depth(s, m + 1) > depth(s, t as int) by {
                                assert(depth(s, m + 1) > old_stack.len() - 1);
                            }
                        }
                        assert forall|m: int| 0 <= m < k + 1 implies match #[trigger] out@[m] {
                            Instruction::OpenLoop(j) => loops_match(s, m, j as int) || exists|p: int|
                                0 <= p < stack@.len() && stack@[p] == m,
                            Instruction::CloseLoop(i) => loops_match(s, i as int, m),
                            _ => true,
                        } by {
                            if m != t && m != k {
                                assert(out@[m] == old_out[m]);
                                if old_out[m] is OpenLoop && !loops_match(s, m, old_out[m]->OpenLoop_0 as int) {
                                    let p = choose|p: int| 0 <= p < old_stack.len() && old_stack[p] == m;
                                    assert(stack@[p] == m);
                                }
                            }
                        }
                    },
                }
            },
            _ => {},
        }
        k += 1;
    }
    if stack.len() > 0 {
        Err(BrainpurrError::TooManyNya)
    } else {
        Ok(out)
    }
}

/// The partner of a close is unique.
pub proof fn lemma_open_partner_unique(s: Seq<Instruction>, i1: int, i2: int, j: int)
    requires
        loops_match(s, i1, j),
        loops_match(s, i2, j),
    ensures
        i1 == i2,
{
    if i1 < i2 {
        lemma_depth_step(s, i2);
        if i1 < i2 - 1 {
            assert(depth(s, (i2 - 1) + 1) > depth(s, i1));
        }
    } else if i2 < i1 {
        lemma_depth_step(s, i1);
        if i2 < i1 - 1 {
            assert(depth(s, (i1 - 1) + 1) > depth(s, i2));
        }
    }
}

/// The partner of an open is unique.
pub proof fn lemma_close_partner_unique(s: Seq<Instruction>, i: int, j1: int, j2: int)
    requires
        loops_match(s, i, j1),
        loops_match(s, i, j2),
    ensures
        j1 == j2,
{
    if j1 < j2 {
        assert(depth(s, j1 + 1) > depth(s, i));
    } else if j2 < j1 {
        assert(depth(s, j2 + 1) > depth(s, i));
    }
}

/// In a linked program every loop instruction names its partner, and the
/// partner names it back: a `nya` at `i` jumping to `j` has at `j` a `:3`
/// jumping back to `i`, and the other way round.
pub proof fn linked_loops_point_to_each_other(s: Seq<Instruction>, out: Seq<Instruction>)
    requires
        linked(s, out),
    ensures
        forall|i: int|
            0 <= i < out.len() ==> match #[trigger] out[i] {
                Instruction::OpenLoop(j) => i < j < out.len() && out[j as int] == Instruction::CloseLoop(
                    i as usize,
                ),
                Instruction::CloseLoop(j) => j < i && out[j as int] == Instruction::OpenLoop(
                    i as usize,
                ),
                _ => true,
            },
{
    assert forall|i: int| 0 <= i < out.len() implies match #[trigger] out[i] {
        Instruction::OpenLoop(j) => i < j < out.len() && out[j as int] == Instruction::CloseLoop(
            i as usize,
        ),
        Instruction::CloseLoop(j) => j < i && out[j as int] == Instruction::OpenLoop(i as usize),
        _ => true,
    } by {
        match out[i] {
            Instruction::OpenLoop(j) => {
                assert(loops_match(s, i, j as int));
                assert(same_shape(s[j as int], out[j as int]));
                let i2 = out[j as int]->CloseLoop_0;
                assert(loops_match(s, i2 as int, j as int));
                lemma_open_partner_unique(s, i, i2 as int, j as int);
            },
            Instruction::CloseLoop(j) => {
                assert(loops_match(s, j as int, i));
                assert(same_shape(s[j as int], out[j as int]));
                let j2 = out[j as int]->OpenLoop_0;
                assert(loops_match(s, j as int, j2 as int));
                lemma_close_partner_unique(s, j as int, i, j2 as int);
            },
            _ => {},
        }
    }
}

} // verus!

verus! {

/// Linking is determined: a program has at most one linked form.
pub proof fn linked_form_is_unique(s: Seq<Instruction>, a: Seq<Instruction>, b: Seq<Instruction>)
    requires
        linked(s, a),
        linked(s, b),
    ensures
        a == b,
{
    assert forall|k: int| 0 <= k < a.len() implies #[trigger] a[k] == b[k] by {
        assert(same_shape(s[k], a[k]));
        assert(same_shape(s[k], b[k]));
        match a[k] {
            Instruction::OpenLoop(j1) => {
                let j2 = b[k]->OpenLoop_0;
                lemma_close_partner_unique(s, k, j1 as int, j2 as int);
            },
            Instruction::CloseLoop(i1) => {
                let i2 = b[k]->CloseLoop_0;
                lemma_open_partner_unique(s, i1 as int, i2 as int, k);
            },
            _ => {},
        }
    }
    assert(a =~= b);
}

} // verus!

verus! {

proof fn lemma_unlink_kinds(x: Instruction, y: Instruction)
    requires
        crate::optimizer::unlink(x) == crate::optimizer::unlink(y),
    ensures
        depth_change(x) == depth_change(y),
        x is OpenLoop == y is OpenLoop,
        x is CloseLoop == y is CloseLoop,
        !(x is OpenLoop) && !(x is CloseLoop) ==> x == y,
{
    match x {
        Instruction::OpenLoop(_) => {
            assert(y is OpenLoop);
        },
        Instruction::CloseLoop(_) => {
            assert(y is CloseLoop);
        },
        _ => {
            match y {
                Instruction::OpenLoop(_) => {},
                Instruction::CloseLoop(_) => {},
                _ => {},
            }
        },
    }
}

proof fn lemma_depth_same(a: Seq<Instruction>, b: Seq<Instruction>, k: int)
    requires
        unlinked(a) == unlinked(b),
        0 <= k <= a.len(),
    ensures
        depth(a, k) == depth(b, k),
    decreases k,
{
    assert(a.len() == unlinked(a).len() && b.len() == unlinked(b).len());
    if k > 0 {
        lemma_depth_same(a, b, k - 1);
        assert(unlinked(a)[k - 1] == crate::optimizer::unlink(a[k - 1]));
        assert(unlinked(b)[k - 1] == crate::optimizer::unlink(b[k - 1]));
        assert(unlinked(a)[k - 1] == unlinked(b)[k - 1]);
        lemma_unlink_kinds(a[k - 1], b[k - 1]);
    }
}

/// Linking looks only at which instructions open and close loops, not at the
/// partner indexes they carry: two programs that agree once those indexes are
/// cleared balance alike and have the same linked forms.
pub proof fn linking_ignores_partner_indexes(a: Seq<Instruction>, b: Seq<Instruction>)
    requires
        unlinked(a) == unlinked(b),
    ensures
        never_negative(a) == never_negative(b),
        balanced(a) == balanced(b),
        forall|x: Seq<Instruction>| linked(a, x) <==> linked(b, x),
{
    assert(a.len() == unlinked(a).len() && b.len() == unlinked(b).len());
    assert forall|k: int| 0 <= k <= a.len() implies #[trigger] depth(a, k) == depth(b, k) by {
        lemma_depth_same(a, b, k);
    }
    assert forall|k: int| 0 <= k < a.len() implies #[trigger] a[k] is OpenLoop == b[k] is OpenLoop
        && (a[k] is CloseLoop == b[k] is CloseLoop) && (!(a[k] is OpenLoop) && !(a[k] is CloseLoop)
        ==> a[k] == b[k]) by {
        assert(unlinked(a)[k] == crate::optimizer::unlink(a[k]));
        assert(unlinked(b)[k] == crate::optimizer::unlink(b[k]));
        assert(unlinked(a)[k] == unlinked(b)[k]);
        lemma_unlink_kinds(a[k], b[k]);
    }
    assert forall|i: int, j: int| loops_match(a, i, j) <==> loops_match(b, i, j) by {
        if 0 <= i < j < a.len() {
            assert(a[i] is OpenLoop == b[i] is OpenLoop);
            assert(a[j] is CloseLoop == b[j] is CloseLoop);
            assert(depth(a, i) == depth(b, i));
            assert(depth(a, j + 1) == depth(b, j + 1));
            if loops_match(a, i, j) {
                assert forall|m: int| i < m < j implies #[trigger] depth(b, m + 1) > depth(b, i) by {
                    assert(depth(a, m + 1) == depth(b, m + 1));
                    assert(depth(a, m + 1) > depth(a, i));
                }
            }
            if loops_match(b, i, j) {
                assert forall|m: int| i < m < j implies #[trigger] depth(a, m + 1) > depth(a, i) by {
                    assert(depth(a, m + 1) == depth(b, m + 1));
                    assert(depth(b, m + 1) > depth(b, i));
                }
            }
        }
    }
    if never_negative(a) {
        assert forall|k: int| 0 <= k <= b.len() implies #[trigger] depth(b, k) >= 0 by {
            assert(depth(a, k) == depth(b, k));
        }
    }
    if never_negative(b) {
        assert forall|k: int| 0 <= k <= a.len() implies #[trigger] depth(a, k) >= 0 by {
            assert(depth(a, k) == depth(b, k));
        }
    }
    assert(depth(a, a.len() as int) == depth(b, b.len() as int));
    assert forall|x: Seq<Instruction>| linked(a, x) <==> linked(b, x) by {
        if x.len() == a.len() {
            assert forall|k: int| 0 <= k < a.len() implies same_shape(a[k], #[trigger] x[k])
                == same_shape(b[k], x[k]) by {
                assert(a[k] is OpenLoop == b[k] is OpenLoop);
            }
        }
    }
}

} // verus!

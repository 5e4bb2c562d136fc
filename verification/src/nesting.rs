//! How the two jump instructions nest.
//!
//! A `JumpIfZero` opens a loop and a `JumpIfNonZero` closes one. This module
//! says, for a sequence of instructions, how deep each position lies, which
//! opening jump belongs to which closing jump, and which opening jumps are
//! still waiting for theirs after a prefix of the sequence.

use vstd::prelude::*;
use crate::common::Instruction;

verus! {

/// What an instruction does to the nesting depth.
pub open spec fn delta(ins: Instruction) -> int {
    match ins {
        Instruction::JumpIfZero(_) => 1,
        Instruction::JumpIfNonZero(_) => -1,
        _ => 0,
    }
}

/// Opening jumps minus closing jumps among the first `n` instructions.
pub open spec fn depth(t: Seq<Instruction>, n: int) -> int
    decreases n,
{
    if n <= 0 {
        0
    } else {
        depth(t, n - 1) + delta(t[n - 1])
    }
}

/// No prefix of length at most `n` closes more loops than it has opened.
pub open spec fn never_negative(t: Seq<Instruction>, n: int) -> bool {
    forall|m: int| 0 <= m <= n ==> depth(t, m) >= 0
}

/// Every loop that is opened is closed, and none is closed before it is opened.
pub open spec fn balanced(t: Seq<Instruction>) -> bool {
    &&& never_negative(t, t.len() as int)
    &&& depth(t, t.len() as int) == 0
}

/// The opening jump at `j` and the closing jump at `k` delimit one loop:
/// after `k` the depth is back to what it was before `j`, for the first time.
pub open spec fn matched(t: Seq<Instruction>, j: int, k: int) -> bool {
    &&& 0 <= j < k < t.len()
    &&& t[j] is JumpIfZero
    &&& t[k] is JumpIfNonZero
    &&& depth(t, k + 1) == depth(t, j)
    &&& forall|m: int| j < m <= k ==> depth(t, m) > depth(t, j)
}

/// The index of the jump that delimits a loop together with the jump at `i`.
pub open spec fn partner(t: Seq<Instruction>, i: int) -> int {
    if t[i] is JumpIfZero {
        choose|k: int| matched(t, i, k)
    } else {
        choose|j: int| matched(t, j, i)
    }
}

/// The opening jumps among the first `n` instructions that are not yet
/// closed, outermost first.
pub open spec fn pending(t: Seq<Instruction>, n: int) -> Seq<int>
    decreases n,
{
    if n <= 0 {
        Seq::empty()
    } else {
        let before = pending(t, n - 1);
        match t[n - 1] {
            Instruction::JumpIfZero(_) => before.push(n - 1),
            Instruction::JumpIfNonZero(_) => if before.len() > 0 {
                before.drop_last()
            } else {
                before
            },
            _ => before,
        }
    }
}

/// The depth depends only on the instructions before the position.
pub proof fn lemma_depth_of_prefix(t: Seq<Instruction>, u: Seq<Instruction>, n: int)
    requires
        0 <= n <= t.len(),
        n <= u.len(),
        forall|i: int| 0 <= i < n ==> delta(t[i]) == delta(u[i]),
    ensures
        depth(t, n) == depth(u, n),
    decreases n,
{
    if n > 0 {
        lemma_depth_of_prefix(t, u, n - 1);
    }
}

/// An opening jump has at most one partner.
pub proof fn lemma_one_closing(t: Seq<Instruction>, j: int, k1: int, k2: int)
    requires
        matched(t, j, k1),
        matched(t, j, k2),
    ensures
        k1 == k2,
{
    if k1 < k2 {
        assert(depth(t, k1 + 1) > depth(t, j));
    } else if k2 < k1 {
        assert(depth(t, k2 + 1) > depth(t, j));
    }
}

/// A closing jump has at most one partner.
pub proof fn lemma_one_opening(t: Seq<Instruction>, j1: int, j2: int, k: int)
    requires
        matched(t, j1, k),
        matched(t, j2, k),
    ensures
        j1 == j2,
{
    if j1 < j2 {
        assert(depth(t, j2) > depth(t, j1));
    } else if j2 < j1 {
        assert(depth(t, j1) > depth(t, j2));
    }
}

/// The partner of either jump of a matched pair is the other one.
pub proof fn lemma_partner_of_matched(t: Seq<Instruction>, j: int, k: int)
    requires
        matched(t, j, k),
    ensures
        partner(t, j) == k,
        partner(t, k) == j,
{
    lemma_one_closing(t, j, k, partner(t, j));
    lemma_one_opening(t, j, partner(t, k), k);
}

/// What `pending` holds after a prefix that never closes too much: its length
/// is the depth, each entry is an opening jump that has seen no partner yet,
/// and every other jump of the prefix has its partner inside the prefix.
pub proof fn lemma_pending(t: Seq<Instruction>, n: int)
    requires
        0 <= n <= t.len(),
        never_negative(t, n),
    ensures
        pending(t, n).len() == depth(t, n),
        forall|x: int|
            0 <= x < pending(t, n).len() ==> {
                &&& 0 <= #[trigger] pending(t, n)[x] < n
                &&& t[pending(t, n)[x]] is JumpIfZero
                &&& depth(t, pending(t, n)[x]) == x
            },
        forall|x: int, m: int|
            0 <= x < pending(t, n).len() && pending(t, n)[x] < m <= n ==> #[trigger] depth(t, m)
                > depth(t, #[trigger] pending(t, n)[x]),
        forall|i: int|
            0 <= i < n && t[i] is JumpIfZero && !pending(t, n).contains(i) ==> exists|k: int|
                k < n && #[trigger] matched(t, i, k),
        forall|i: int|
            0 <= i < n && t[i] is JumpIfNonZero ==> exists|j: int| #[trigger] matched(t, j, i),
    decreases n,
{
    if n > 0 {
        assert(never_negative(t, n - 1));
        lemma_pending(t, n - 1);
        let before = pending(t, n - 1);
        let after = pending(t, n);
        assert(depth(t, n) >= 0);
        match t[n - 1] {
            Instruction::JumpIfZero(_) => {
                assert forall|i: int|
                    0 <= i < n && t[i] is JumpIfZero && !after.contains(i) implies exists|k: int|
                    k < n && #[trigger] matched(t, i, k) by {
                    assert(after[after.len() - 1] == n - 1);
                    assert(i != n - 1);
                    if before.contains(i) {
                        let x = choose|x: int| 0 <= x < before.len() && before[x] == i;
                        assert(after[x] == i);
                    }
                    let k = choose|k: int| k < n - 1 && matched(t, i, k);
                    assert(matched(t, i, k));
                }
            },
            Instruction::JumpIfNonZero(_) => {
                let j = before.last();
                assert(matched(t, j, n - 1));
                assert forall|i: int|
                    0 <= i < n && t[i] is JumpIfZero && !after.contains(i) implies exists|k: int|
                    k < n && #[trigger] matched(t, i, k) by {
                    if i != j {
                        if before.contains(i) {
                            let x = choose|x: int| 0 <= x < before.len() && before[x] == i;
                            assert(after[x] == i);
                        }
                        let k = choose|k: int| k < n - 1 && matched(t, i, k);
                        assert(matched(t, i, k));
                    }
                }
            },
            _ => {
                assert forall|i: int|
                    0 <= i < n && t[i] is JumpIfZero && !after.contains(i) implies exists|k: int|
                    k < n && #[trigger] matched(t, i, k) by {
                    let k = choose|k: int| k < n - 1 && matched(t, i, k);
                    assert(matched(t, i, k));
                }
            },
        }
    }
}

/// A closing jump that comes while a loop is open closes the innermost one.
pub proof fn lemma_closes_innermost(t: Seq<Instruction>, n: int)
    requires
        0 <= n < t.len(),
        never_negative(t, n),
        t[n] is JumpIfNonZero,
        pending(t, n).len() > 0,
    ensures
        matched(t, pending(t, n).last(), n),
{
    lemma_pending(t, n);
    let j = pending(t, n).last();
    assert(depth(t, n + 1) == depth(t, n) - 1);
    assert(depth(t, j) == pending(t, n).len() - 1);
}

/// In a balanced sequence every jump has its partner.
pub proof fn lemma_balanced_pairs(t: Seq<Instruction>, i: int)
    requires
        balanced(t),
        0 <= i < t.len(),
    ensures
        t[i] is JumpIfZero ==> matched(t, i, partner(t, i)),
        t[i] is JumpIfNonZero ==> matched(t, partner(t, i), i),
{
    lemma_pending(t, t.len() as int);
    assert(pending(t, t.len() as int).len() == 0);
    if t[i] is JumpIfZero {
        assert(!pending(t, t.len() as int).contains(i));
        let k = choose|k: int| k < t.len() && matched(t, i, k);
        assert(matched(t, i, k));
    }
}

} // verus!

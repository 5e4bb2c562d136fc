//! From source bytes to linked bytecode.
//!
//! Bytes other than the eight operators are comments. A maximal run of one of
//! `> < + -` becomes one instruction that carries the run length; `.`, `,`,
//! `[` and `]` become one instruction each. Each `[` is linked with its `]`:
//! both jumps target the instruction after their partner.

use vstd::prelude::*;
use vstd::string::StringSliceAdditionalSpecFns;
use crate::common::Instruction;
use crate::error::Error;
use crate::nesting::{
    balanced, depth, lemma_balanced_pairs, lemma_closes_innermost, lemma_depth_of_prefix,
    lemma_one_closing, lemma_one_opening, lemma_partner_of_matched, lemma_pending, matched,
    never_negative, partner, pending,
};

verus! {

/// The byte `>`.
pub const RIGHT: u8 = 0x3E;

/// The byte `<`.
pub const LEFT: u8 = 0x3C;

/// The byte `+`.
pub const PLUS: u8 = 0x2B;

/// The byte `-`.
pub const MINUS: u8 = 0x2D;

/// The byte `.`.
pub const DOT: u8 = 0x2E;

/// The byte `,`.
pub const COMMA: u8 = 0x2C;

/// The byte `[`.
pub const OPEN: u8 = 0x5B;

/// The byte `]`.
pub const CLOSE: u8 = 0x5D;

/// How often `b` occurs in `s`.
pub open spec fn occurrences(s: Seq<u8>, b: u8) -> nat
    decreases s.len(),
{
    if s.len() == 0 {
        0
    } else {
        occurrences(s.drop_last(), b) + if s.last() == b {
            1nat
        } else {
            0nat
        }
    }
}

/// The source has as many `[` as `]`, and no prefix of it has more `]` than `[`.
pub open spec fn brackets_balance(s: Seq<u8>) -> bool {
    &&& occurrences(s, OPEN) == occurrences(s, CLOSE)
    &&& forall|n: int|
        0 <= n <= s.len() ==> occurrences(#[trigger] s.take(n), OPEN) >= occurrences(
            s.take(n),
            CLOSE,
        )
}

/// One of the four operators whose runs are folded.
pub open spec fn is_run_byte(b: u8) -> bool {
    b == RIGHT || b == LEFT || b == PLUS || b == MINUS
}

/// One of the eight operators.
pub open spec fn is_operator(b: u8) -> bool {
    is_run_byte(b) || b == DOT || b == COMMA || b == OPEN || b == CLOSE
}

/// The first position at or after `i` that does not hold `b`.
pub open spec fn run_end(s: Seq<u8>, i: int, b: u8) -> int
    decreases s.len() - i,
{
    if 0 <= i < s.len() && s[i] == b {
        run_end(s, i + 1, b)
    } else {
        i
    }
}

/// An instruction begins at `i`: an operator stands there, and it does not
/// continue a run.
pub open spec fn starts_token(s: Seq<u8>, i: int) -> bool {
    is_operator(s[i]) && !(is_run_byte(s[i]) && i > 0 && s[i - 1] == s[i])
}

/// The instruction that begins at `i`, with jump targets left at zero.
pub open spec fn token_at(s: Seq<u8>, i: int) -> Instruction {
    let n = run_end(s, i, s[i]) - i;
    if s[i] == RIGHT {
        Instruction::Right(n as usize)
    } else if s[i] == LEFT {
        Instruction::Left(n as usize)
    } else if s[i] == PLUS {
        Instruction::Increment((n % 256) as u8)
    } else if s[i] == MINUS {
        Instruction::Decrement((n % 256) as u8)
    } else if s[i] == DOT {
        Instruction::Output
    } else if s[i] == COMMA {
        Instruction::Input
    } else if s[i] == OPEN {
        Instruction::JumpIfZero(0)
    } else {
        Instruction::JumpIfNonZero(0)
    }
}

/// The instructions that begin among the first `n` bytes, in order.
pub open spec fn tokens_upto(s: Seq<u8>, n: int) -> Seq<Instruction>
    decreases n,
{
    if n <= 0 {
        Seq::empty()
    } else if starts_token(s, n - 1) {
        tokens_upto(s, n - 1).push(token_at(s, n - 1))
    } else {
        tokens_upto(s, n - 1)
    }
}

/// The instructions of a source, with jump targets left at zero.
pub open spec fn tokens(s: Seq<u8>) -> Seq<Instruction> {
    tokens_upto(s, s.len() as int)
}

/// The same instructions, each jump targeting the instruction after its partner.
pub open spec fn linked(t: Seq<Instruction>) -> Seq<Instruction> {
    Seq::new(
        t.len(),
        |i: int|
            match t[i] {
                Instruction::JumpIfZero(_) => Instruction::JumpIfZero((partner(t, i) + 1) as usize),
                Instruction::JumpIfNonZero(_) => Instruction::JumpIfNonZero(
                    (partner(t, i) + 1) as usize,
                ),
                other => other,
            },
    )
}

/// Two instructions that fold runs of the same operator.
pub open spec fn same_run(a: Instruction, b: Instruction) -> bool {
    ||| a is Right && b is Right
    ||| a is Left && b is Left
    ||| a is Increment && b is Increment
    ||| a is Decrement && b is Decrement
}

/// What holds of bytecode that comes from a source: every move has a
/// positive count, the jumps balance, and the two jumps of each loop target
/// the instruction after each other.
pub open spec fn well_formed(p: Seq<Instruction>) -> bool {
    &&& forall|i: int|
        0 <= i < p.len() ==> match #[trigger] p[i] {
            Instruction::Right(n) => n > 0,
            Instruction::Left(n) => n > 0,
            _ => true,
        }
    &&& balanced(p)
    &&& forall|j: int, k: int| #[trigger]
        matched(p, j, k) ==> p[j] == Instruction::JumpIfZero((k + 1) as usize) && p[k]
            == Instruction::JumpIfNonZero((j + 1) as usize)
}

/// In well-formed bytecode every jump targets an instruction of the
/// bytecode or its end: an opening jump one behind it, a closing jump one
/// before it.
pub proof fn lemma_targets_in_range(p: Seq<Instruction>, i: int)
    requires
        well_formed(p),
        0 <= i < p.len() <= usize::MAX,
    ensures
        p[i] matches Instruction::JumpIfZero(target) ==> i + 1 < target <= p.len(),
        p[i] matches Instruction::JumpIfNonZero(target) ==> 1 <= target <= i,
{
    lemma_balanced_pairs(p, i);
}

proof fn lemma_occurrences_step(s: Seq<u8>, n: int, b: u8)
    requires
        0 <= n < s.len(),
    ensures
        occurrences(s.take(n + 1), b) == occurrences(s.take(n), b) + if s[n] == b {
            1nat
        } else {
            0nat
        },
{
    assert(s.take(n + 1).drop_last() =~= s.take(n));
}

proof fn lemma_tokens_prefix(s: Seq<u8>, i: int, n: int)
    requires
        0 <= i <= n,
    ensures
        tokens_upto(s, i).len() <= tokens_upto(s, n).len(),
        forall|x: int|
            0 <= x < tokens_upto(s, i).len() ==> tokens_upto(s, n)[x] == tokens_upto(s, i)[x],
    decreases n - i,
{
    if i < n {
        lemma_tokens_prefix(s, i, n - 1);
    }
}

proof fn lemma_tokens_len(s: Seq<u8>, n: int)
    requires
        0 <= n,
    ensures
        tokens_upto(s, n).len() <= n,
    decreases n,
{
    if n > 0 {
        lemma_tokens_len(s, n - 1);
    }
}

/// What linking changes are the targets of jumps, so nesting is the same
/// before and after.
pub proof fn lemma_linked_nesting(t: Seq<Instruction>, j: int, k: int)
    ensures
        matched(linked(t), j, k) <==> matched(t, j, k),
{
    let u = linked(t);
    assert forall|m: int| 0 <= m <= t.len() implies depth(t, m) == depth(u, m) by {
        lemma_depth_of_prefix(t, u, m);
    }
    if matched(t, j, k) {
        assert(matched(u, j, k));
    }
    if matched(u, j, k) {
        assert(matched(t, j, k));
    }
}

/// In linked bytecode, the opening jump of a loop targets the instruction
/// after the closing jump, and the closing jump targets the instruction
/// after the opening jump.
pub proof fn lemma_linked_targets(t: Seq<Instruction>, j: int, k: int)
    requires
        matched(linked(t), j, k),
    ensures
        linked(t)[j] == Instruction::JumpIfZero((k + 1) as usize),
        linked(t)[k] == Instruction::JumpIfNonZero((j + 1) as usize),
{
    lemma_linked_nesting(t, j, k);
    lemma_partner_of_matched(t, j, k);
}

/// Where every byte is an operator, no two neighbouring instructions fold
/// runs of the same operator: each maximal run gives one instruction.
pub proof fn lemma_runs_folded(s: Seq<u8>, x: int)
    requires
        forall|i: int| 0 <= i < s.len() ==> is_operator(#[trigger] s[i]),
        0 <= x,
        x + 1 < tokens(s).len(),
    ensures
        !same_run(linked(tokens(s))[x], linked(tokens(s))[x + 1]),
{
    lemma_runs_folded_upto(s, s.len() as int);
}

/// The operator that an instruction stands for.
spec fn operator_of(ins: Instruction) -> u8 {
    match ins {
        Instruction::Right(_) => RIGHT,
        Instruction::Left(_) => LEFT,
        Instruction::Increment(_) => PLUS,
        Instruction::Decrement(_) => MINUS,
        Instruction::Output => DOT,
        Instruction::Input => COMMA,
        Instruction::JumpIfZero(_) => OPEN,
        Instruction::JumpIfNonZero(_) => CLOSE,
    }
}

proof fn lemma_runs_folded_upto(s: Seq<u8>, n: int)
    requires
        forall|i: int| 0 <= i < s.len() ==> is_operator(#[trigger] s[i]),
        0 <= n <= s.len(),
    ensures
        n > 0 ==> tokens_upto(s, n).len() > 0 && operator_of(tokens_upto(s, n).last()) == s[n - 1],
        forall|x: int|
            0 <= x && x + 1 < tokens_upto(s, n).len() ==> !same_run(
                #[trigger] tokens_upto(s, n)[x],
                tokens_upto(s, n)[x + 1],
            ),
    decreases n,
{
    if n > 0 {
        lemma_runs_folded_upto(s, n - 1);
        assert(is_operator(s[n - 1]));
        if n > 1 {
            assert(is_operator(s[n - 2]));
        }
    }
}

/// Turns a source into bytecode.
///
/// Succeeds exactly when the brackets of the source balance. The bytecode
/// then holds one instruction for each maximal run of `>`, `<`, `+` or `-`
/// (the count of `+` and `-` taken modulo 256) and one for each other
/// operator, in source order, and each jump targets the instruction after
/// its partner.
pub fn parse(source: &str) -> (r: Result<Vec<Instruction>, Error>)
    ensures
        r is Ok <==> brackets_balance(source.spec_bytes()),
        r matches Err(e) ==> e == Error::UnbalancedBrackets,
        r matches Ok(p) ==> p@ == linked(tokens(source.spec_bytes())),
        r matches Ok(p) ==> well_formed(p@),
{
    parse_bytes(source.as_bytes())
}

/// Turns source bytes into bytecode; see [`parse`].
pub fn parse_bytes(chars: &[u8]) -> (r: Result<Vec<Instruction>, Error>)
    ensures
        r is Ok <==> brackets_balance(chars@),
        r matches Err(e) ==> e == Error::UnbalancedBrackets,
        r matches Ok(p) ==> p@ == linked(tokens(chars@)),
        r matches Ok(p) ==> well_formed(p@),
{
    let ghost s = chars@;
    let ghost t = tokens(s);
    let mut program: Vec<Instruction> = Vec::new();
    let mut stack: Vec<usize> = Vec::new();
    let mut i: usize = 0;
    proof {
        assert(s.take(0).len() == 0);
    }
    while i < chars.len()
        invariant
            s == chars@,
            t == tokens(s),
            0 <= i <= s.len(),
            i > 0 && i < s.len() && is_run_byte(s[i - 1]) ==> s[i as int] != s[i - 1],
            program.len() == tokens_upto(s, i as int).len(),
            program.len() <= i,
            program.len() <= t.len(),
            forall|n: int|
                0 <= n <= i ==> occurrences(#[trigger] s.take(n), OPEN) >= occurrences(
                    s.take(n),
                    CLOSE,
                ),
            occurrences(s.take(i as int), OPEN) - occurrences(s.take(i as int), CLOSE)
                == stack.len(),
            never_negative(t, program.len() as int),
            stack.len() == pending(t, program.len() as int).len(),
            forall|x: int|
                0 <= x < stack.len() ==> #[trigger] stack[x] as int == pending(
                    t,
                    program.len() as int,
                )[x],
            forall|x: int|
                0 <= x < stack.len() ==> 0 <= #[trigger] stack[x] < program.len() && program[stack[x] as int]
                    == Instruction::JumpIfNonZero((stack[x] + 1) as usize),
            forall|x: int|
                0 <= x < program.len() && !(t[x] is JumpIfZero) && !(t[x] is JumpIfNonZero)
                    ==> #[trigger] program[x] == t[x],
            forall|x: int|
                0 <= x < program.len() ==> match #[trigger] program[x] {
                    Instruction::Right(n) => n > 0,
                    Instruction::Left(n) => n > 0,
                    _ => true,
                },
            forall|j: int, k: int| #[trigger]
                matched(t, j, k) && k < program.len() ==> program[j] == Instruction::JumpIfZero(
                    (k + 1) as usize,
                ) && program[k] == Instruction::JumpIfNonZero((j + 1) as usize),
        decreases s.len() - i,
    {
        let ch = chars[i];
        let ghost len0 = program.len() as int;
        proof {
            lemma_occurrences_step(s, i as int, OPEN);
            lemma_occurrences_step(s, i as int, CLOSE);
            lemma_pending(t, len0);
        }
        if ch == RIGHT || ch == LEFT || ch == PLUS || ch == MINUS {
            let j = i;
            assert(starts_token(s, j as int));
            while i < chars.len() && chars[i] == ch
                invariant
                    s == chars@,
                    j <= i <= s.len(),
                    j < s.len(),
                    s[j as int] == ch,
                    is_run_byte(ch),
                    run_end(s, i as int, ch) == run_end(s, j as int, ch),
                    forall|m: int| j <= m < i ==> s[m] == ch,
                    i > j ==> tokens_upto(s, i as int) == tokens_upto(s, j + 1),
                    forall|n: int|
                        0 <= n <= i ==> occurrences(#[trigger] s.take(n), OPEN) >= occurrences(
                            s.take(n),
                            CLOSE,
                        ),
                    occurrences(s.take(i as int), OPEN) == occurrences(s.take(j as int), OPEN),
                    occurrences(s.take(i as int), CLOSE) == occurrences(s.take(j as int), CLOSE),
                decreases s.len() - i,
            {
                proof {
                    lemma_occurrences_step(s, i as int, OPEN);
                    lemma_occurrences_step(s, i as int, CLOSE);
                    if i > j {
                        assert(s[i - 1] == ch);
                        assert(!starts_token(s, i as int));
                    }
                }
                i += 1;
            }
            let n = i - j;
            let token = if ch == RIGHT {
                Instruction::Right(n)
            } else if ch == LEFT {
                Instruction::Left(n)
            } else if ch == PLUS {
                Instruction::Increment((n % 256) as u8)
            } else {
                Instruction::Decrement((n % 256) as u8)
            };
            proof {
                assert(run_end(s, i as int, ch) == i);
                assert(token == token_at(s, j as int));
                assert(tokens_upto(s, i as int) == tokens_upto(s, j as int).push(token));
                lemma_tokens_prefix(s, i as int, s.len() as int);
                assert(t[len0] == token);
            }
            program.push(token);
            proof {
                assert(pending(t, len0 + 1) == pending(t, len0));
                assert(depth(t, len0 + 1) == depth(t, len0));
            }
        } else if ch == DOT || ch == COMMA {
            let token = if ch == DOT {
                Instruction::Output
            } else {
                Instruction::Input
            };
            proof {
                assert(starts_token(s, i as int));
                assert(token == token_at(s, i as int));
                lemma_tokens_prefix(s, i + 1, s.len() as int);
                assert(t[len0] == token);
            }
            program.push(token);
            i += 1;
            proof {
                assert(pending(t, len0 + 1) == pending(t, len0));
                assert(depth(t, len0 + 1) == depth(t, len0));
            }
        } else if ch == OPEN {
            let index = program.len();
            proof {
                assert(starts_token(s, i as int));
                lemma_tokens_prefix(s, i + 1, s.len() as int);
                assert(t[len0] == Instruction::JumpIfZero(0));
            }
            stack.push(index);
            program.push(Instruction::JumpIfNonZero(index + 1));
            i += 1;
            proof {
                assert(pending(t, len0 + 1) == pending(t, len0).push(len0));
                assert(depth(t, len0 + 1) == depth(t, len0) + 1);
            }
        } else if ch == CLOSE {
            proof {
                assert(starts_token(s, i as int));
                lemma_tokens_prefix(s, i + 1, s.len() as int);
                assert(t[len0] == Instruction::JumpIfNonZero(0));
            }
            match stack.pop() {
                None => {
                    proof {
                        assert(occurrences(s.take(i + 1), CLOSE) > occurrences(
                            s.take(i + 1),
                            OPEN,
                        ));
                    }
                    return Err(Error::UnbalancedBrackets);
                },
                Some(jump_if_non_zero) => {
                    let jump_if_zero = program.len();
                    let ghost before = program@;
                    proof {
                        lemma_closes_innermost(t, len0);
                        assert(matched(t, jump_if_non_zero as int, len0));
                    }
                    program.push(Instruction::JumpIfZero(jump_if_zero + 1));
                    let opening = program[jump_if_zero];
                    let closing = program[jump_if_non_zero];
                    program.set(jump_if_non_zero, opening);
                    program.set(jump_if_zero, closing);
                    i += 1;
                    proof {
                        let j0 = jump_if_non_zero as int;
                        assert(pending(t, len0 + 1) == pending(t, len0).drop_last());
                        assert(depth(t, len0 + 1) == depth(t, len0) - 1);
                        assert forall|x: int| 0 <= x < stack.len() implies 0 <= #[trigger] stack[x]
                            < program.len() && program[stack[x] as int]
                            == Instruction::JumpIfNonZero((stack[x] + 1) as usize) by {
                            assert(stack[x] as int == pending(t, len0)[x]);
                            assert(depth(t, pending(t, len0)[x]) == x);
                            assert(depth(t, j0) == pending(t, len0).len() - 1);
                            assert(stack[x] != j0);
                            assert(program[stack[x] as int] == before[stack[x] as int]);
                        }
                        assert forall|j: int, k: int| #[trigger]
                            matched(t, j, k) && k < program.len() implies program[j]
                            == Instruction::JumpIfZero((k + 1) as usize) && program[k]
                            == Instruction::JumpIfNonZero((j + 1) as usize) by {
                            if k == len0 {
                                lemma_one_opening(t, j, j0, len0);
                            } else {
                                if j == j0 {
                                    lemma_one_closing(t, j0, k, len0);
                                }
                                assert(program[j] == before[j]);
                                assert(program[k] == before[k]);
                            }
                        }
                    }
                },
            }
        } else {
            proof {
                assert(!is_operator(s[i as int]));
            }
            i += 1;
        }
    }
    proof {
        assert(s.take(s.len() as int) =~= s);
        lemma_pending(t, t.len() as int);
        lemma_tokens_len(s, s.len() as int);
    }
    if stack.len() == 0 {
        proof {
            assert(balanced(t));
            assert(program@ =~= linked(t)) by {
                assert forall|x: int| 0 <= x < t.len() implies program@[x] == linked(t)[x] by {
                    lemma_balanced_pairs(t, x);
                }
            }
            assert forall|j: int, k: int| #[trigger] matched(program@, j, k) implies program@[j]
                == Instruction::JumpIfZero((k + 1) as usize) && program@[k]
                == Instruction::JumpIfNonZero((j + 1) as usize) by {
                lemma_linked_targets(t, j, k);
            }
            assert forall|m: int| 0 <= m <= program.len() implies depth(program@, m) >= 0 by {
                lemma_depth_of_prefix(program@, t, m);
                assert(depth(t, m) >= 0);
            }
            lemma_depth_of_prefix(program@, t, program.len() as int);
            assert(balanced(program@));
        }
        Ok(program)
    } else {
        Err(Error::UnbalancedBrackets)
    }
}

} // verus!

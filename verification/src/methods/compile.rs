//! The code generator: x86-64 machine code for bytecode, in a growable
//! buffer.
//!
//! The code is a function for the System V calling convention that takes the
//! address of the first cell in RDI, keeps the address of the current cell
//! there, and returns with a single `ret`. It reads and writes through the
//! Linux system calls `read` and `write`.

use vstd::prelude::*;
use vstd::arithmetic::div_mod::{lemma_fundamental_div_mod, lemma_fundamental_div_mod_converse_mod};
use crate::common::Instruction;
use crate::error::Error;
use crate::nesting::{
    balanced, depth, lemma_balanced_pairs, lemma_closes_innermost, lemma_one_closing,
    lemma_one_opening, lemma_partner_of_matched, lemma_pending, matched, never_negative, partner,
    pending,
};

verus! {

/// The alignment of the region that the code is run from: one page.
pub const ALIGNMENT: usize = 4096;

/// The capacity that a buffer of capacity `capacity` grows to: twice as
/// much, at least 8, and no more than the address space.
pub open spec fn grown(capacity: nat) -> nat {
    if capacity < 4 {
        8
    } else if 2 * capacity <= usize::MAX {
        2 * capacity
    } else {
        usize::MAX as nat
    }
}

/// The capacity that a buffer of capacity `capacity` has grown to when it
/// holds `len` bytes.
pub open spec fn fit(capacity: nat, len: nat) -> nat
    decreases
        (if len > capacity {
            len - capacity
        } else {
            0
        }),
{
    if len <= capacity || capacity >= usize::MAX {
        capacity
    } else {
        fit(grown(capacity), len)
    }
}

/// To grow for `a` bytes and then for `b` is to grow for `b`.
pub proof fn lemma_fit_twice(capacity: nat, a: nat, b: nat)
    requires
        a <= b,
    ensures
        fit(fit(capacity, a), b) == fit(capacity, b),
    decreases
        (if a > capacity {
            a - capacity
        } else {
            0
        }),
{
    if !(a <= capacity || capacity >= usize::MAX) {
        lemma_fit_twice(grown(capacity), a, b);
    }
}

/// One byte more makes a full buffer grow once, and another none.
pub proof fn lemma_fit_next(capacity: nat, len: nat)
    requires
        len <= fit(capacity, len) <= usize::MAX,
    ensures
        fit(capacity, len + 1) == if len < fit(capacity, len) {
            fit(capacity, len)
        } else {
            grown(fit(capacity, len))
        },
{
    let full = fit(capacity, len);
    lemma_fit_twice(capacity, len, len + 1);
    if len == full && full < usize::MAX {
        assert(fit(full, len + 1) == fit(grown(full), len + 1));
        assert(fit(grown(full), len + 1) == grown(full));
    }
}

/// A growable buffer of bytes for a region with a given alignment.
pub struct AVec {
    data: Vec<u8>,
    size: usize,
    align: usize,
}

impl View for AVec {
    type V = Seq<u8>;

    closed spec fn view(&self) -> Seq<u8> {
        self.data@
    }
}

impl AVec {
    /// The number of bytes that the buffer has room for.
    pub closed spec fn capacity(&self) -> nat {
        self.size as nat
    }

    /// The alignment that the buffer was made with.
    pub closed spec fn alignment(&self) -> nat {
        self.align as nat
    }

    /// The buffer has room for what it holds.
    pub open spec fn wf(&self) -> bool {
        self@.len() <= self.capacity()
    }

    /// A capacity is a size in memory.
    pub proof fn lemma_capacity_fits(&self)
        ensures
            self.capacity() <= usize::MAX,
    {
    }

    /// An empty buffer without capacity.
    pub fn new(align: usize) -> (v: AVec)
        ensures
            v@ == Seq::<u8>::empty(),
            v.capacity() == 0,
            v.alignment() == align,
            v.wf(),
    {
        AVec { data: Vec::new(), size: 0, align }
    }

    /// Appends one byte. A full buffer grows first.
    pub fn push(&mut self, item: u8)
        requires
            old(self).wf(),
        ensures
            final(self)@ == old(self)@.push(item),
            final(self).capacity() == if old(self)@.len() < old(self).capacity() {
                old(self).capacity()
            } else {
                grown(old(self).capacity())
            },
            final(self).alignment() == old(self).alignment(),
            final(self).wf(),
    {
        if self.data.len() >= self.size {
            let doubled = if self.size > usize::MAX / 2 {
                usize::MAX
            } else {
                self.size * 2
            };
            self.resize(doubled);
        }
        self.data.push(item);
        assert(self.data@.len() == self.data.len());
    }

    /// Appends the bytes in order.
    pub fn extend(&mut self, bytes: &[u8])
        requires
            old(self).wf(),
        ensures
            final(self)@ == old(self)@ + bytes@,
            final(self).capacity() == fit(old(self).capacity(), final(self)@.len()),
            final(self).alignment() == old(self).alignment(),
            final(self).wf(),
    {
        let mut i: usize = 0;
        while i < bytes.len()
            invariant
                i <= bytes.len(),
                self@ == old(self)@ + bytes@.take(i as int),
                self.capacity() == fit(old(self).capacity(), self@.len()),
                self.alignment() == old(self).alignment(),
                self.wf(),
            decreases bytes.len() - i,
        {
            proof {
                self.lemma_capacity_fits();
                lemma_fit_next(old(self).capacity(), self@.len());
            }
            self.push(bytes[i]);
            i += 1;
            assert(bytes@.take(i as int) =~= bytes@.take(i - 1).push(bytes@[i - 1]));
            assert(self@ =~= old(self)@ + bytes@.take(i as int));
        }
        assert(bytes@.take(i as int) =~= bytes@);
    }

    /// Overwrites the bytes from `start` on with `bytes`. The overwritten
    /// range must lie within what the buffer holds.
    pub fn splice(&mut self, start: usize, bytes: &[u8])
        requires
            start + bytes@.len() <= old(self)@.len(),
        ensures
            final(self)@ == old(self)@.take(start as int) + bytes@ + old(self)@.skip(
                start + bytes@.len(),
            ),
            final(self).capacity() == old(self).capacity(),
            final(self).alignment() == old(self).alignment(),
    {
        let mut i: usize = 0;
        while i < bytes.len()
            invariant
                i <= bytes.len(),
                start + bytes.len() <= self.data.len(),
                self@.len() == old(self)@.len(),
                forall|x: int|
                    0 <= x < self@.len() ==> self@[x] == if start <= x < start + i {
                        bytes@[x - start]
                    } else {
                        old(self)@[x]
                    },
                self.capacity() == old(self).capacity(),
                self.alignment() == old(self).alignment(),
            decreases bytes.len() - i,
        {
            self.data[start + i] = bytes[i];
            i += 1;
        }
        assert(self@ =~= old(self)@.take(start as int) + bytes@ + old(self)@.skip(
            start + bytes@.len(),
        ));
    }

    /// The number of bytes that the buffer holds.
    pub fn len(&self) -> (n: usize)
        ensures
            n == self@.len(),
    {
        self.data.len()
    }

    /// Gives up the buffer and hands out its bytes.
    pub fn leak(self) -> (bytes: Vec<u8>)
        ensures
            bytes@ == self@,
    {
        self.data
    }

    /// The capacity and the alignment: the size and the alignment of the
    /// region that holds the buffer.
    pub fn layout(&self) -> (r: (usize, usize))
        ensures
            r.0 == self.capacity(),
            r.1 == self.alignment(),
    {
        (self.size, self.align)
    }

    /// Sets the capacity to `new_size`, and to 8 where that is less.
    fn resize(&mut self, new_size: usize)
        ensures
            final(self)@ == old(self)@,
            final(self).capacity() == if new_size < 8 {
                8
            } else {
                new_size as nat
            },
            final(self).alignment() == old(self).alignment(),
    {
        let new_size = if new_size < 8 {
            8
        } else {
            new_size
        };
        self.size = new_size;
    }
}

/// The four bytes of `v` as a 32-bit number in two's complement, least
/// significant first. Of a `v` that does not fit, its lowest 32 bits.
pub open spec fn le32(v: int) -> Seq<u8> {
    let low = v % 0x1_0000_0000;
    seq![
        (low % 256) as u8,
        (low / 256 % 256) as u8,
        (low / 65536 % 256) as u8,
        (low / 16777216) as u8,
    ]
}

/// The machine code of one instruction. `rel` is the displacement of a
/// jump; the other instructions do not look at it.
pub open spec fn encode(ins: Instruction, rel: int) -> Seq<u8> {
    match ins {
        // add rdi, count
        Instruction::Right(count) => seq![0x48u8, 0x81, 0xC7] + le32(count as int),
        // sub rdi, count
        Instruction::Left(count) => seq![0x48u8, 0x81, 0xEF] + le32(count as int),
        // add byte [rdi], delta
        Instruction::Increment(delta) => seq![0x80u8, 0x07, delta],
        // sub byte [rdi], delta
        Instruction::Decrement(delta) => seq![0x80u8, 0x2F, delta],
        // mov rsi, rdi; mov rax, 1; mov rdi, 1; mov rdx, 1; syscall; mov rdi, rsi
        Instruction::Output => seq![
            0x48u8, 0x89, 0xFE,
            0x48, 0xC7, 0xC0, 0x01, 0x00, 0x00, 0x00,
            0x48, 0xC7, 0xC7, 0x01, 0x00, 0x00, 0x00,
            0x48, 0xC7, 0xC2, 0x01, 0x00, 0x00, 0x00,
            0x0F, 0x05,
            0x48, 0x89, 0xF7,
        ],
        // mov rsi, rdi; mov rax, 0; mov rdi, 0; mov rdx, 1; syscall; mov rdi, rsi
        Instruction::Input => seq![
            0x48u8, 0x89, 0xFE,
            0x48, 0xC7, 0xC0, 0x00, 0x00, 0x00, 0x00,
            0x48, 0xC7, 0xC7, 0x00, 0x00, 0x00, 0x00,
            0x48, 0xC7, 0xC2, 0x01, 0x00, 0x00, 0x00,
            0x0F, 0x05,
            0x48, 0x89, 0xF7,
        ],
        // test byte [rdi] against 0; je rel
        Instruction::JumpIfZero(_) => seq![0x80u8, 0x3F, 0x00, 0x0F, 0x84] + le32(rel),
        // test byte [rdi] against 0; jne rel
        Instruction::JumpIfNonZero(_) => seq![0x80u8, 0x3F, 0x00, 0x0F, 0x85] + le32(rel),
    }
}

/// The number of bytes in the machine code of one instruction.
pub open spec fn size(ins: Instruction) -> int {
    match ins {
        Instruction::Right(_) | Instruction::Left(_) => 7,
        Instruction::Increment(_) | Instruction::Decrement(_) => 3,
        Instruction::Output | Instruction::Input => 29,
        Instruction::JumpIfZero(_) | Instruction::JumpIfNonZero(_) => 9,
    }
}

/// Where the machine code of instruction `n` begins: the number of bytes in
/// the code of the instructions before it.
pub open spec fn offset(t: Seq<Instruction>, n: int) -> int
    decreases n,
{
    if n <= 0 {
        0
    } else {
        offset(t, n - 1) + size(t[n - 1])
    }
}

/// The displacement of the jump at `i`: from the end of its own code to the
/// end of its partner's code. Zero for other instructions.
pub open spec fn displacement(t: Seq<Instruction>, i: int) -> int {
    if t[i] is JumpIfZero || t[i] is JumpIfNonZero {
        offset(t, partner(t, i) + 1) - offset(t, i + 1)
    } else {
        0
    }
}

/// The displacement of every instruction.
pub open spec fn displacements(t: Seq<Instruction>) -> Seq<int> {
    Seq::new(t.len(), |i: int| displacement(t, i))
}

/// The machine code of the first `n` instructions, with `rel[i]` as the
/// displacement of the jump at `i`.
pub open spec fn assemble(t: Seq<Instruction>, rel: Seq<int>, n: int) -> Seq<u8>
    decreases n,
{
    if n <= 0 {
        Seq::empty()
    } else {
        assemble(t, rel, n - 1) + encode(t[n - 1], rel[n - 1])
    }
}

/// The machine code of a program: the code of each instruction in order,
/// each jump with its displacement, and a final `ret`.
pub open spec fn machine_code(t: Seq<Instruction>) -> Seq<u8> {
    assemble(t, displacements(t), t.len() as int).push(0xC3)
}

/// The code of an instruction has the size that `size` gives.
pub proof fn lemma_encode_len(ins: Instruction, rel: int)
    ensures
        encode(ins, rel).len() == size(ins),
{
}

/// The code of the first `n` instructions ends where instruction `n` begins.
pub proof fn lemma_assemble_len(t: Seq<Instruction>, rel: Seq<int>, n: int)
    requires
        0 <= n <= t.len(),
    ensures
        assemble(t, rel, n).len() == offset(t, n),
    decreases n,
{
    if n > 0 {
        lemma_assemble_len(t, rel, n - 1);
        lemma_encode_len(t[n - 1], rel[n - 1]);
    }
}

/// Offsets grow with the index.
pub proof fn lemma_offset_grows(t: Seq<Instruction>, a: int, b: int)
    requires
        0 <= a <= b,
    ensures
        0 <= offset(t, a) <= offset(t, b),
    decreases b,
{
    if a < b {
        lemma_offset_grows(t, a, b - 1);
    } else if a > 0 {
        lemma_offset_grows(t, a - 1, a - 1);
    }
}

proof fn lemma_assemble_same(t: Seq<Instruction>, r1: Seq<int>, r2: Seq<int>, n: int)
    requires
        0 <= n <= t.len(),
        forall|x: int| 0 <= x < n ==> r1[x] == r2[x],
    ensures
        assemble(t, r1, n) == assemble(t, r2, n),
    decreases n,
{
    if n > 0 {
        lemma_assemble_same(t, r1, r2, n - 1);
    }
}

/// To give the jump at `x` the displacement `v` is to overwrite the last
/// four bytes of its code with the bytes of `v`.
proof fn lemma_assemble_patch(t: Seq<Instruction>, rel: Seq<int>, n: int, x: int, v: int)
    requires
        0 <= x < n <= t.len(),
        rel.len() == t.len(),
        t[x] is JumpIfZero || t[x] is JumpIfNonZero,
    ensures
        4 <= offset(t, x + 1) <= offset(t, n) == assemble(t, rel, n).len(),
        assemble(t, rel.update(x, v), n) == assemble(t, rel, n).take(offset(t, x + 1) - 4) + le32(
            v,
        ) + assemble(t, rel, n).skip(offset(t, x + 1)),
    decreases n,
{
    let patched = rel.update(x, v);
    let end = offset(t, x + 1);
    lemma_assemble_len(t, rel, n);
    lemma_assemble_len(t, rel, n - 1);
    lemma_offset_grows(t, x + 1, n);
    lemma_offset_grows(t, x, x);
    let before = assemble(t, rel, n - 1);
    let whole = assemble(t, rel, n);
    if x == n - 1 {
        lemma_assemble_same(t, rel, patched, n - 1);
        assert(assemble(t, patched, n) =~= whole.take(end - 4) + le32(v) + whole.skip(end));
    } else {
        lemma_assemble_patch(t, rel, n - 1, x, v);
        let last = encode(t[n - 1], rel[n - 1]);
        assert(patched[n - 1] == rel[n - 1]);
        assert(assemble(t, patched, n) == (before.take(end - 4) + le32(v) + before.skip(end))
            + last);
        assert((before.take(end - 4) + le32(v) + before.skip(end)) + last =~= whole.take(end - 4)
            + le32(v) + whole.skip(end));
    }
}

/// The opening jump of a loop goes forward by as much as the closing jump
/// goes back: from the end of the one's code to the end of the other's.
pub proof fn lemma_displacement_of_pair(t: Seq<Instruction>, j: int, k: int)
    requires
        matched(t, j, k),
    ensures
        displacement(t, j) == offset(t, k + 1) - offset(t, j + 1),
        displacement(t, j) > 0,
        displacement(t, k) == -displacement(t, j),
{
    lemma_partner_of_matched(t, j, k);
    lemma_offset_grows(t, j + 1, k);
}

/// The number that four bytes stand for as 32 bits in two's complement,
/// least significant first.
pub open spec fn signed32(b: Seq<u8>) -> int {
    let unsigned = b[0] + b[1] * 256 + b[2] * 65536 + b[3] * 16777216;
    if unsigned >= 0x8000_0000 {
        unsigned - 0x1_0000_0000
    } else {
        unsigned
    }
}

/// The four bytes of a number that fits in 32 bits stand for that number.
pub proof fn lemma_signed32_of_le32(v: int)
    requires
        -0x8000_0000 <= v < 0x8000_0000,
    ensures
        le32(v).len() == 4,
        signed32(le32(v)) == v,
{
    let m = 0x1_0000_0000int;
    let low = v % m;
    if v >= 0 {
        assert(low == v);
    } else {
        lemma_fundamental_div_mod_converse_mod(v, m, -1, v + m);
        assert(low == v + m);
    }
}

/// The last four bytes of the code of a jump are the bytes of its
/// displacement.
pub proof fn lemma_displacement_site(t: Seq<Instruction>, x: int)
    requires
        0 <= x < t.len(),
        t[x] is JumpIfZero || t[x] is JumpIfNonZero,
    ensures
        4 <= offset(t, x + 1) < machine_code(t).len(),
        machine_code(t).subrange(offset(t, x + 1) - 4, offset(t, x + 1)) == le32(
            displacement(t, x),
        ),
{
    let rel = displacements(t);
    let end = offset(t, x + 1);
    let code = assemble(t, rel, t.len() as int);
    lemma_assemble_patch(t, rel, t.len() as int, x, displacement(t, x));
    assert(rel.update(x, displacement(t, x)) =~= rel);
    let patched = code.take(end - 4) + le32(displacement(t, x)) + code.skip(end);
    assert(patched.subrange(end - 4, end) =~= le32(displacement(t, x)));
    assert(machine_code(t).subrange(end - 4, end) =~= code.subrange(end - 4, end));
}

/// The displacements that stand in the code of the two jumps of a loop are
/// the negatives of each other, where the code between them is short enough
/// for 32 bits.
pub proof fn lemma_displacements_opposite(t: Seq<Instruction>, j: int, k: int)
    requires
        matched(t, j, k),
        offset(t, k + 1) - offset(t, j + 1) < 0x8000_0000,
    ensures
        signed32(machine_code(t).subrange(offset(t, j + 1) - 4, offset(t, j + 1))) == offset(
            t,
            k + 1,
        ) - offset(t, j + 1),
        signed32(machine_code(t).subrange(offset(t, k + 1) - 4, offset(t, k + 1))) == -signed32(
            machine_code(t).subrange(offset(t, j + 1) - 4, offset(t, j + 1)),
        ),
{
    lemma_displacement_of_pair(t, j, k);
    lemma_displacement_site(t, j);
    lemma_displacement_site(t, k);
    lemma_signed32_of_le32(displacement(t, j));
    lemma_signed32_of_le32(displacement(t, k));
}

/// What holds of the displacements while the code of the first `n`
/// instructions stands: a jump whose partner is among them has its
/// displacement, and every other instruction has zero.
spec fn resolved(t: Seq<Instruction>, rel: Seq<int>, n: int) -> bool {
    &&& 0 <= n <= t.len()
    &&& rel.len() == t.len()
    &&& never_negative(t, n)
    &&& forall|x: int| 0 <= x < pending(t, n).len() ==> rel[#[trigger] pending(t, n)[x]] == 0
    &&& forall|x: int| n <= x < t.len() ==> #[trigger] rel[x] == 0
    &&& forall|x: int|
        0 <= x < t.len() && !(t[x] is JumpIfZero) && !(t[x] is JumpIfNonZero) ==> #[trigger] rel[x]
            == 0
    &&& forall|j: int, k: int| #[trigger]
        matched(t, j, k) && k < n ==> rel[j] == displacement(t, j) && rel[k] == displacement(t, k)
}

/// The offsets that the code generator keeps: for each opening jump that
/// waits for its partner, where its code ends.
spec fn awaited(t: Seq<Instruction>, n: int, stack: Seq<usize>) -> bool {
    &&& stack.len() == pending(t, n).len()
    &&& forall|x: int| 0 <= x < stack.len() ==> #[trigger] stack[x] == offset(t, pending(t, n)[x] + 1)
}

proof fn lemma_resolved_start(t: Seq<Instruction>)
    ensures
        resolved(t, Seq::new(t.len(), |i: int| 0int), 0),
        awaited(t, 0, Seq::empty()),
{
}

/// After an instruction that closes no loop, nothing has to be changed.
proof fn lemma_resolved_next(t: Seq<Instruction>, rel: Seq<int>, n: int)
    requires
        resolved(t, rel, n),
        n < t.len(),
        !(t[n] is JumpIfNonZero),
    ensures
        resolved(t, rel, n + 1),
        pending(t, n + 1) == if t[n] is JumpIfZero {
            pending(t, n).push(n)
        } else {
            pending(t, n)
        },
        assemble(t, rel, n + 1) == assemble(t, rel, n) + encode(t[n], 0),
        assemble(t, rel, n + 1).len() == offset(t, n + 1),
{
    lemma_pending(t, n);
    lemma_assemble_len(t, rel, n + 1);
    assert(depth(t, n + 1) >= depth(t, n));
    assert(never_negative(t, n + 1));
}

/// A closing jump without an open loop leaves the program unbalanced.
proof fn lemma_resolved_stray(t: Seq<Instruction>, rel: Seq<int>, n: int)
    requires
        resolved(t, rel, n),
        n < t.len(),
        t[n] is JumpIfNonZero,
        pending(t, n).len() == 0,
    ensures
        !balanced(t),
{
    lemma_pending(t, n);
    assert(depth(t, n + 1) < 0);
}

/// After a closing jump, it and its partner get their displacements: the
/// last four bytes of the code of each are overwritten.
proof fn lemma_resolved_close(t: Seq<Instruction>, rel: Seq<int>, n: int)
    requires
        resolved(t, rel, n),
        n < t.len(),
        t[n] is JumpIfNonZero,
        pending(t, n).len() > 0,
    ensures
        ({
            let j = pending(t, n).last();
            let from = offset(t, j + 1);
            let to = offset(t, n + 1);
            let linked = rel.update(j, to - from).update(n, from - to);
            let unlinked = assemble(t, rel, n) + encode(t[n], 0);
            let half = unlinked.take(from - 4) + le32(to - from) + unlinked.skip(from);
            &&& 0 <= j < n
            &&& 4 <= from
            &&& from + 9 <= to
            &&& to == unlinked.len()
            &&& resolved(t, linked, n + 1)
            &&& pending(t, n + 1) == pending(t, n).drop_last()
            &&& assemble(t, linked, n + 1) == half.take(to - 4) + le32(from - to) + half.skip(to)
        }),
{
    let j = pending(t, n).last();
    let from = offset(t, j + 1);
    let to = offset(t, n + 1);
    let first = rel.update(j, to - from);
    let linked = first.update(n, from - to);
    lemma_pending(t, n);
    lemma_closes_innermost(t, n);
    lemma_displacement_of_pair(t, j, n);
    lemma_offset_grows(t, j + 1, n);
    lemma_assemble_len(t, rel, n + 1);
    lemma_assemble_patch(t, rel, n + 1, j, to - from);
    lemma_assemble_patch(t, first, n + 1, n, from - to);
    assert(depth(t, n + 1) == depth(t, n) - 1);
    assert(never_negative(t, n + 1));
    assert forall|x: int| 0 <= x < pending(t, n + 1).len() implies linked[#[trigger] pending(
        t,
        n + 1,
    )[x]] == 0 by {
        let e = pending(t, n)[x];
        assert(depth(t, e) == x);
        assert(depth(t, j) == pending(t, n).len() - 1);
    }
    assert forall|j1: int, k1: int| #[trigger] matched(t, j1, k1) && k1 < n + 1 implies linked[j1]
        == displacement(t, j1) && linked[k1] == displacement(t, k1) by {
        if k1 == n {
            lemma_one_opening(t, j1, j, n);
        } else {
            if j1 == j {
                lemma_one_closing(t, j, k1, n);
            }
            assert(linked[j1] == rel[j1]);
            assert(linked[k1] == rel[k1]);
        }
    }
}

/// When every loop is closed, every jump has its displacement.
proof fn lemma_resolved_end(t: Seq<Instruction>, rel: Seq<int>)
    requires
        resolved(t, rel, t.len() as int),
    ensures
        pending(t, t.len() as int).len() == 0 <==> balanced(t),
        balanced(t) ==> assemble(t, rel, t.len() as int).push(0xC3) == machine_code(t),
{
    lemma_pending(t, t.len() as int);
    if balanced(t) {
        assert forall|x: int| 0 <= x < t.len() implies rel[x] == displacements(t)[x] by {
            lemma_balanced_pairs(t, x);
        }
        lemma_assemble_same(t, rel, displacements(t), t.len() as int);
    }
}

/// The negative of a number, as a 32-bit number in two's complement.
proof fn lemma_le32_negated(v: int, low: int, negated: int)
    requires
        low == v % 0x1_0000_0000,
        negated == (0x1_0000_0000 - low) % 0x1_0000_0000,
    ensures
        le32(negated) == le32(-v),
        le32(low) == le32(v),
{
    let m = 0x1_0000_0000int;
    let q = v / m;
    lemma_fundamental_div_mod(v, m);
    assert(low % m == low);
    if low == 0 {
        lemma_fundamental_div_mod_converse_mod(-v, m, -q, 0);
    } else {
        assert(negated == m - low);
        lemma_fundamental_div_mod_converse_mod(-v, m, -q - 1, m - low);
    }
    assert((-v) % m == negated);
    assert(negated % m == negated);
}

/// The four bytes of `v`, least significant first.
fn le32_bytes(v: u64) -> (r: Vec<u8>)
    requires
        v < 0x1_0000_0000,
    ensures
        r@ == le32(v as int),
{
    let mut r: Vec<u8> = Vec::new();
    r.push((v % 256) as u8);
    r.push((v / 256 % 256) as u8);
    r.push((v / 65536 % 256) as u8);
    r.push((v / 16777216) as u8);
    assert(r@ =~= le32(v as int));
    r
}

/// Appends the code of one instruction, a jump with displacement zero.
fn emit(bin: &mut AVec, ins: Instruction)
    requires
        old(bin).wf(),
    ensures
        final(bin)@ == old(bin)@ + encode(ins, 0),
        final(bin).capacity() == fit(old(bin).capacity(), final(bin)@.len()),
        final(bin).alignment() == old(bin).alignment(),
        final(bin).wf(),
{
    proof {
        lemma_fit_twice(old(bin).capacity(), old(bin)@.len() + 3, old(bin)@.len() + 7);
    }
    match ins {
        Instruction::Right(count) => {
            bin.extend(&[0x48, 0x81, 0xC7]);
            bin.extend(le32_bytes((count as u64) % 0x1_0000_0000).as_slice());
        },
        Instruction::Left(count) => {
            bin.extend(&[0x48, 0x81, 0xEF]);
            bin.extend(le32_bytes((count as u64) % 0x1_0000_0000).as_slice());
        },
        Instruction::Increment(delta) => {
            bin.extend(&[0x80, 0x07, delta]);
        },
        Instruction::Decrement(delta) => {
            bin.extend(&[0x80, 0x2F, delta]);
        },
        Instruction::Output => {
            bin.extend(
                &[
                    0x48, 0x89, 0xFE,
                    0x48, 0xC7, 0xC0, 0x01, 0x00, 0x00, 0x00,
                    0x48, 0xC7, 0xC7, 0x01, 0x00, 0x00, 0x00,
                    0x48, 0xC7, 0xC2, 0x01, 0x00, 0x00, 0x00,
                    0x0F, 0x05,
                    0x48, 0x89, 0xF7,
                ],
            );
        },
        Instruction::Input => {
            bin.extend(
                &[
                    0x48, 0x89, 0xFE,
                    0x48, 0xC7, 0xC0, 0x00, 0x00, 0x00, 0x00,
                    0x48, 0xC7, 0xC7, 0x00, 0x00, 0x00, 0x00,
                    0x48, 0xC7, 0xC2, 0x01, 0x00, 0x00, 0x00,
                    0x0F, 0x05,
                    0x48, 0x89, 0xF7,
                ],
            );
        },
        Instruction::JumpIfZero(_) => {
            bin.extend(&[0x80, 0x3F, 0x00, 0x0F, 0x84, 0x00, 0x00, 0x00, 0x00]);
        },
        Instruction::JumpIfNonZero(_) => {
            bin.extend(&[0x80, 0x3F, 0x00, 0x0F, 0x85, 0x00, 0x00, 0x00, 0x00]);
        },
    }
    assert(bin@ =~= old(bin)@ + encode(ins, 0));
}

/// Generates the machine code of a program.
///
/// Succeeds exactly when the jumps of the program balance; which jumps
/// belong together goes by their nesting, not by their targets. The
/// buffer then holds the code of each instruction in order and a final
/// `ret`. A count or a displacement that does not fit in 32 bits is cut to
/// its lowest 32 bits.
pub fn compile(program: &[Instruction]) -> (r: Result<AVec, Error>)
    ensures
        r is Ok <==> balanced(program@),
        r matches Err(e) ==> e == Error::UnbalancedBrackets,
        r matches Ok(bin) ==> bin@ == machine_code(program@),
        r matches Ok(bin) ==> bin@.last() == 0xC3,
        r matches Ok(bin) ==> bin.alignment() == ALIGNMENT && bin.wf(),
        r matches Ok(bin) ==> bin.capacity() == fit(0, bin@.len()),
{
    let ghost t = program@;
    let ghost mut rel: Seq<int> = Seq::new(t.len(), |i: int| 0int);
    let mut bin = AVec::new(ALIGNMENT);
    let mut stack: Vec<usize> = Vec::new();
    let mut n: usize = 0;
    proof {
        lemma_resolved_start(t);
    }
    while n < program.len()
        invariant
            t == program@,
            bin.wf(),
            bin.alignment() == ALIGNMENT,
            bin.capacity() == fit(0, bin@.len()),
            bin@ == assemble(t, rel, n as int),
            resolved(t, rel, n as int),
            awaited(t, n as int, stack@),
        decreases t.len() - n,
    {
        let instruction = program[n];
        proof {
            lemma_fit_twice(0, bin@.len(), bin@.len() + size(instruction) as nat);
            lemma_encode_len(instruction, 0);
        }
        emit(&mut bin, instruction);
        match instruction {
            Instruction::JumpIfZero(_) => {
                proof {
                    lemma_resolved_next(t, rel, n as int);
                }
                stack.push(bin.len());
            },
            Instruction::JumpIfNonZero(_) => {
                match stack.pop() {
                    None => {
                        proof {
                            lemma_resolved_stray(t, rel, n as int);
                        }
                        return Err(Error::UnbalancedBrackets);
                    },
                    Some(idx_jz) => {
                        let idx_jnz = bin.len();
                        proof {
                            lemma_resolved_close(t, rel, n as int);
                            lemma_le32_negated(
                                idx_jnz - idx_jz,
                                (idx_jnz - idx_jz) % 0x1_0000_0000,
                                (0x1_0000_0000 - (idx_jnz - idx_jz) % 0x1_0000_0000)
                                    % 0x1_0000_0000,
                            );
                        }
                        let relative = idx_jnz - idx_jz;
                        let low = (relative as u64) % 0x1_0000_0000;
                        let negated = (0x1_0000_0000 - low) % 0x1_0000_0000;
                        bin.splice(idx_jz - 4, le32_bytes(low).as_slice());
                        bin.splice(idx_jnz - 4, le32_bytes(negated).as_slice());
                        proof {
                            rel = rel.update(pending(t, n as int).last(), idx_jnz - idx_jz).update(
                                n as int,
                                idx_jz - idx_jnz,
                            );
                        }
                    },
                }
            },
            _ => {
                proof {
                    lemma_resolved_next(t, rel, n as int);
                }
            },
        }
        n += 1;
    }
    proof {
        lemma_resolved_end(t, rel);
        bin.lemma_capacity_fits();
        lemma_fit_next(0, bin@.len());
    }
    bin.push(0xC3);
    if stack.len() == 0 {
        Ok(bin)
    } else {
        Err(Error::UnbalancedBrackets)
    }
}

} // verus!

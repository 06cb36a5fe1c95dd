use vstd::prelude::*;
use vstd::arithmetic::power2::{pow2, lemma_pow2_pos, lemma_pow2_adds, lemma_pow2_unfold, lemma2_to64};
use vstd::bits::{lemma_u32_shr_is_div, lemma_u32_low_bits_mask_is_mod, low_bits_mask};

verus! {

/// Number of bits needed to write `n`: `floor(log2 n) + 1` for `n >= 1`, and 0 for 0.
pub open spec fn ilog_spec(n: nat) -> nat
    decreases n,
{
    if n == 0 {
        0
    } else {
        1 + ilog_spec(n / 2)
    }
}

/// Bit `i` of `x`, counting from the least significant bit.
pub open spec fn bit_of(x: nat, i: nat) -> bool {
    (x / pow2(i)) % 2 == 1
}

/// `x` with the order of its eight bits reversed.
pub open spec fn rev8(x: u8) -> u8 {
    ((x & 0x01u8) << 7u8) | ((x & 0x02u8) << 5u8) | ((x & 0x04u8) << 3u8) | ((x & 0x08u8) << 1u8)
        | ((x & 0x10u8) >> 1u8) | ((x & 0x20u8) >> 3u8) | ((x & 0x40u8) >> 5u8) | ((x & 0x80u8)
        >> 7u8)
}

/// `x` with the order of its sixteen bits reversed.
pub open spec fn rev16(x: u16) -> u16 {
    ((rev8(x as u8) as u16) << 8u16) | (rev8((x >> 8u16) as u8) as u16)
}

/// `x` with the order of its thirty-two bits reversed.
pub open spec fn rev32(x: u32) -> u32 {
    ((rev16(x as u16) as u32) << 16u32) | (rev16((x >> 16u32) as u16) as u32)
}

pub proof fn lemma_ilog_bound(x: nat, k: nat)
    requires
        x < pow2(k),
    ensures
        ilog_spec(x) <= k,
    decreases k,
{
    if x > 0 {
        if k == 0 {
            vstd::arithmetic::power2::lemma2_to64();
        } else {
            lemma_pow2_unfold(k);
            lemma_ilog_bound(x / 2, (k - 1) as nat);
        }
    }
}

/// Bit operations on the unsigned integer types that the bit stream is read into.
pub trait Bits: Sized {
    /// The value as a natural number.
    spec fn nat_value(self) -> nat;

    /// Number of bits of the type.
    spec fn width() -> nat;

    /// The value with its bits in reverse order.
    spec fn reversed(self) -> Self;

    /// `floor(log2 self) + 1`, or 0 for 0.
    fn ilog(self) -> (r: usize)
        ensures
            r == ilog_spec(self.nat_value()),
    ;

    /// Whether bit `offset` (from the least significant) is one.
    fn is_bit_set(self, offset: usize) -> (r: bool)
        requires
            offset < Self::width(),
        ensures
            r == bit_of(self.nat_value(), offset as nat),
    ;

    /// The value with its bits in reverse order.
    fn reverse_bits(self) -> (r: Self)
        ensures
            r == self.reversed(),
    ;
}

impl Bits for u32 {
    open spec fn nat_value(self) -> nat {
        self as nat
    }

    open spec fn width() -> nat {
        32
    }

    open spec fn reversed(self) -> u32 {
        rev32(self)
    }

    fn ilog(self) -> (r: usize) {
        ilog_u32(self)
    }

    fn is_bit_set(self, offset: usize) -> (r: bool) {
        bit_set_u32(self, offset)
    }

    fn reverse_bits(self) -> (r: u32) {
        reverse_u32(self)
    }
}

fn ilog_u32(x: u32) -> (r: usize)
    ensures
        r == ilog_spec(x as nat),
{
        let mut v: u32 = x;
        let mut r: usize = 0;
        proof {
            vstd::arithmetic::power2::lemma2_to64();
            lemma_ilog_bound(x as nat, 32);
        }
        while v != 0
            invariant
                r + ilog_spec(v as nat) == ilog_spec(x as nat),
                ilog_spec(x as nat) <= 32,
            decreases v,
        {
            assert(v >> 1u32 == v / 2) by (bit_vector);
            v = v >> 1;
            r = r + 1;
        }
        r
}

fn bit_set_u32(x: u32, offset: usize) -> (r: bool)
    requires
        offset < 32,
    ensures
        r == bit_of(x as nat, offset as nat),
{
    let s = x >> (offset as u32);
    proof {
        lemma_u32_shr_is_div(x, offset as u32);
    }
    assert(s & 1u32 == s % 2) by (bit_vector);
    s & 1 != 0
}

fn reverse_u32(x: u32) -> (r: u32)
    ensures
        r == rev32(x),
{
    let lo = reverse_u16(x as u16);
    let hi = reverse_u16((x >> 16) as u16);
    ((lo as u32) << 16) | (hi as u32)
}

fn reverse_u16(x: u16) -> (r: u16)
    ensures
        r == rev16(x),
{
    let lo = reverse_u8(x as u8);
    let hi = reverse_u8((x >> 8) as u8);
    ((lo as u16) << 8) | (hi as u16)
}

fn reverse_u8(x: u8) -> (r: u8)
    ensures
        r == rev8(x),
{
    ((x & 0x01) << 7) | ((x & 0x02) << 5) | ((x & 0x04) << 3) | ((x & 0x08) << 1) | ((x & 0x10)
        >> 1) | ((x & 0x20) >> 3) | ((x & 0x40) >> 5) | ((x & 0x80) >> 7)
}

impl Bits for u16 {
    open spec fn nat_value(self) -> nat {
        self as nat
    }

    open spec fn width() -> nat {
        16
    }

    open spec fn reversed(self) -> u16 {
        rev16(self)
    }

    fn ilog(self) -> (r: usize) {
        ilog_u32(self as u32)
    }

    fn is_bit_set(self, offset: usize) -> (r: bool) {
        bit_set_u32(self as u32, offset)
    }

    fn reverse_bits(self) -> (r: u16) {
        reverse_u16(self)
    }
}

impl Bits for u8 {
    open spec fn nat_value(self) -> nat {
        self as nat
    }

    open spec fn width() -> nat {
        8
    }

    open spec fn reversed(self) -> u8 {
        rev8(self)
    }

    fn ilog(self) -> (r: usize) {
        ilog_u32(self as u32)
    }

    fn is_bit_set(self, offset: usize) -> (r: bool) {
        bit_set_u32(self as u32, offset)
    }

    fn reverse_bits(self) -> (r: u8) {
        reverse_u8(self)
    }
}

/// Reversing the bits of an 8-bit value twice gives the value back.
pub proof fn lemma_reverse_involutive_u8(x: u8)
    ensures
        rev8(rev8(x)) == x,
{
    assert(rev8(rev8(x)) == x) by (bit_vector);
}

/// Reversing the bits of a 16-bit value twice gives the value back.
pub proof fn lemma_reverse_involutive_u16(x: u16)
    ensures
        rev16(rev16(x)) == x,
{
    assert(rev16(rev16(x)) == x) by (bit_vector);
}

/// Reversing the bits of a 32-bit value twice gives the value back.
pub proof fn lemma_reverse_involutive_u32(x: u32)
    ensures
        rev32(rev32(x)) == x,
{
    assert(rev32(rev32(x)) == x) by (bit_vector);
}

/// A mask of the `len` low bits: `2^len - 1`.
pub fn lsb_mask(len: usize) -> (r: u32)
    requires
        1 <= len <= 32,
    ensures
        r as nat == pow2(len as nat) - 1,
{
    let r = 0xFFFF_FFFFu32 >> ((32 - len) as u32);
    proof {
        if len < 32 {
            lemma_u32_shr_is_div(0xFFFF_FFFFu32, (32 - len) as u32);
            let a = pow2(len as nat) as int;
            let b = pow2((32 - len) as nat) as int;
            lemma_pow2_adds(len as nat, (32 - len) as nat);
            lemma2_to64();
            lemma_pow2_pos(len as nat);
            lemma_pow2_pos((32 - len) as nat);
            assert(0xFFFF_FFFFint == (a - 1) * b + (b - 1)) by (nonlinear_arith)
                requires
                    a * b == 0x1_0000_0000int,
            ;
            vstd::arithmetic::div_mod::lemma_fundamental_div_mod_converse(
                0xFFFF_FFFFint,
                b,
                a - 1,
                b - 1,
            );
        } else {
            assert(0xFFFF_FFFFu32 >> 0u32 == 0xFFFF_FFFFu32) by (bit_vector);
            lemma2_to64();
        }
    }
    r
}

/// The `len` low bits of `x`, that is `x mod 2^len`.
pub fn ls_bits(x: u32, len: usize) -> (r: u32)
    requires
        len <= 32,
    ensures
        r as nat == x as nat % pow2(len as nat),
{
    proof {
        lemma2_to64();
    }
    if len == 0 {
        0
    } else if len == 32 {
        x
    } else {
        let m = lsb_mask(len);
        proof {
            lemma_u32_low_bits_mask_is_mod(x, len as nat);
            vstd::bits::lemma_low_bits_mask_values();
            assert(low_bits_mask(len as nat) == pow2(len as nat) - 1);
            vstd::bits::lemma_u32_pow2_no_overflow(len as nat);
        }
        x & m
    }
}

/// How a [`Pusher2d`] moves after each value: along a row, then to the
/// next row (`RightDown`), or down the rows, then to the next column (`DownRight`).
#[derive(Clone, Copy, Debug)]
pub enum Pusher2dStep {
    RightDown(usize, usize),
    DownRight(usize, usize),
}

/// Lays values out over a two-dimensional array: rows are chosen through
/// `index_map`, and each value pushed is recorded as `(row, column, value)`.
pub struct Pusher2d<T> {
    pub rows: usize,
    pub index_map: Vec<usize>,
    pub len: (usize, usize),
    pub step: Pusher2dStep,
    pub pos: (usize, usize),
    pub out: Vec<(usize, usize, T)>,
}

/// `a + b`, held at the largest `usize`.
pub open spec fn sat_add(a: usize, b: usize) -> usize {
    if a + b > usize::MAX {
        usize::MAX
    } else {
        (a + b) as usize
    }
}

/// The position after one value is pushed at `pos`, in an array of `len`.
pub open spec fn pushed_pos(pos: (usize, usize), len: (usize, usize), step: Pusher2dStep) -> (usize, usize) {
    match step {
        Pusher2dStep::RightDown(s0, s1) => if s1 >= len.1 - pos.1 {
            (sat_add(pos.0, s0), 0)
        } else {
            (pos.0, (pos.1 + s1) as usize)
        },
        Pusher2dStep::DownRight(s0, s1) => if s0 >= len.0 - pos.0 {
            (0, sat_add(pos.1, s1))
        } else {
            ((pos.0 + s0) as usize, pos.1)
        },
    }
}

/// The position after moving on by `off` values from `pos`, in an array of `len`.
pub open spec fn advanced_pos(pos: (usize, usize), len: (usize, usize), step: Pusher2dStep, off: usize) -> (usize, usize) {
    match step {
        Pusher2dStep::RightDown(_, _) => {
            let p: int = pos.0 as int * len.1 as int + pos.1 as int + off as int;
            (held(p / len.1 as int), (p % len.1 as int) as usize)
        },
        Pusher2dStep::DownRight(_, _) => {
            let p: int = pos.1 as int * len.0 as int + pos.0 as int + off as int;
            ((p % len.0 as int) as usize, held(p / len.0 as int))
        },
    }
}

/// `v`, held at the largest `usize`.
pub open spec fn held(v: int) -> usize {
    if v > usize::MAX {
        usize::MAX
    } else {
        v as usize
    }
}

impl<T> Pusher2d<T> {
    /// Every recorded value lies inside the array.
    pub open spec fn wf(&self) -> bool {
        &&& self.len.0 == self.index_map@.len()
        &&& self.len.0 > 0
        &&& self.len.1 > 0
        &&& forall|i: int| 0 <= i < self.index_map@.len() ==> #[trigger] self.index_map@[i] < self.rows
        &&& forall|k: int| 0 <= k < self.out@.len() ==> (#[trigger] self.out@[k]).0 < self.rows && self.out@[k].1 < self.len.1
    }

    /// A pusher over `rows` rows of `row_len` columns, of which `index_map`
    /// lists the rows in use, starting at `pos`.
    pub fn new(rows: usize, row_len: usize, index_map: Vec<usize>, pos: (usize, usize), step: Pusher2dStep) -> (r: Self)
        requires
            index_map@.len() > 0,
            row_len > 0,
            forall|i: int| 0 <= i < index_map@.len() ==> #[trigger] index_map@[i] < rows,
        ensures
            r.wf(),
            r.out@.len() == 0,
            r.pos == pos,
            r.len.0 == index_map@.len(),
            r.len.1 == row_len,
            r.index_map == index_map,
            r.rows == rows,
    {
        let len = (index_map.len(), row_len);
        Pusher2d { rows, index_map, len, step, pos, out: Vec::new() }
    }

    pub fn set_pos(&mut self, pos: (usize, usize))
        ensures
            final(self).pos == pos,
            final(self).out == old(self).out,
            final(self).index_map == old(self).index_map,
            final(self).len == old(self).len,
            final(self).rows == old(self).rows,
    {
        self.pos = pos;
    }

    /// Moves on by `flat_offset` values without recording any: the position
    /// as a flat index (row by row for `RightDown`, column by column for
    /// `DownRight`) grows by `flat_offset`.
    pub fn advance_flat_pos(&mut self, flat_offset: usize)
        requires
            old(self).wf(),
        ensures
            final(self).wf(),
            final(self).out == old(self).out,
            final(self).index_map == old(self).index_map,
            final(self).len == old(self).len,
            final(self).rows == old(self).rows,
            final(self).step == old(self).step,
            final(self).pos == advanced_pos(old(self).pos, old(self).len, old(self).step, flat_offset),
    {
        let (major, minor, width) = match self.step {
            Pusher2dStep::RightDown(_, _) => (self.pos.0, self.pos.1, self.len.1),
            Pusher2dStep::DownRight(_, _) => (self.pos.1, self.pos.0, self.len.0),
        };
        proof {
            assert(major as u128 * width as u128 <= 0xFFFF_FFFF_FFFF_FFFFu128 * 0xFFFF_FFFF_FFFF_FFFFu128) by (nonlinear_arith)
                requires
                    major <= 0xFFFF_FFFF_FFFF_FFFFu128,
                    width <= 0xFFFF_FFFF_FFFF_FFFFu128,
            ;
        }
        let p: u128 = major as u128 * width as u128 + minor as u128 + flat_offset as u128;
        let q = p / (width as u128);
        let rem = (p % (width as u128)) as usize;
        let q_held: usize = if q > usize::MAX as u128 { usize::MAX } else { q as usize };
        match self.step {
            Pusher2dStep::RightDown(_, _) => {
                self.pos = (q_held, rem);
            },
            Pusher2dStep::DownRight(_, _) => {
                self.pos = (rem, q_held);
            },
        }
    }

    /// Records `value` at the current position and steps on. Fails, and
    /// records nothing, where the position lies outside the array.
    pub fn push(&mut self, value: T) -> (r: bool)
        requires
            old(self).wf(),
        ensures
            final(self).wf(),
            final(self).index_map == old(self).index_map,
            final(self).len == old(self).len,
            final(self).rows == old(self).rows,
            r == (old(self).pos.0 < old(self).len.0 && old(self).pos.1 < old(self).len.1),
            r ==> final(self).out@ == old(self).out@.push(
                (old(self).index_map@[old(self).pos.0 as int], old(self).pos.1, value),
            ),
            !r ==> final(self).out@ == old(self).out@,
            final(self).step == old(self).step,
            r ==> final(self).pos == pushed_pos(old(self).pos, old(self).len, old(self).step),
            !r ==> final(self).pos == old(self).pos,
    {
        if self.pos.0 >= self.len.0 || self.pos.1 >= self.len.1 {
            return false;
        }
        let index = self.index_map[self.pos.0];
        self.out.push((index, self.pos.1, value));
        match self.step {
            Pusher2dStep::RightDown(step_0, step_1) => {
                if step_1 >= self.len.1 - self.pos.1 {
                    self.pos.1 = 0;
                    self.pos.0 = if step_0 > usize::MAX - self.pos.0 { usize::MAX } else { self.pos.0 + step_0 };
                } else {
                    self.pos.1 = self.pos.1 + step_1;
                }
            },
            Pusher2dStep::DownRight(step_0, step_1) => {
                if step_0 >= self.len.0 - self.pos.0 {
                    self.pos.0 = 0;
                    self.pos.1 = if step_1 > usize::MAX - self.pos.1 { usize::MAX } else { self.pos.1 + step_1 };
                } else {
                    self.pos.0 = self.pos.0 + step_0;
                }
            },
        }
        true
    }
}

} // verus!

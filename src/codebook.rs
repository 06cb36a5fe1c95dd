use vstd::prelude::*;
use vstd::arithmetic::power2::{pow2, lemma2_to64};
use crate::bitstream::{BitReader, BitsModel, take_bits, skip_bits, field, read_field, bytes_le, lemma_skip_skip};
use crate::error::{Error, Result};
use crate::huffman::{HuffmanDecoder, HuffmanDecoderBuilder, CodeSpec, next_canonical, rev_code};
use crate::util::{Bits, ilog_spec, lemma_ilog_bound};

verus! {

/// The longest codeword length that an ordered length list may reach.
pub const MAX_CODEWORD_LEN: u32 = 24;

/// `b` to the power `e`.
pub open spec fn power(b: nat, e: nat) -> nat
    decreases e,
{
    if e == 0 {
        1
    } else {
        b * power(b, (e - 1) as nat)
    }
}

proof fn lemma_power_grows(b: nat, e1: nat, e2: nat)
    requires
        b >= 1,
        e1 <= e2,
    ensures
        power(b, e1) <= power(b, e2),
    decreases e2,
{
    if e1 < e2 {
        lemma_power_grows(b, e1, (e2 - 1) as nat);
        assert(power(b, (e2 - 1) as nat) <= b * power(b, (e2 - 1) as nat)) by (nonlinear_arith)
            requires
                b >= 1,
        ;
    }
}

/// Whether `b^e <= limit`, where `limit` is below 2^24.
fn power_at_most(b: u64, e: usize, limit: u64) -> (r: bool)
    requires
        1 <= b <= 0x100_0001,
        limit < 0x100_0000,
    ensures
        r == (power(b as nat, e as nat) <= limit),
{
    let mut acc: u64 = 1;
    let mut i: usize = 0;
    while i < e
        invariant
            i <= e,
            acc as nat == power(b as nat, i as nat),
            acc <= limit || (i == 0 && acc == 1),
            i > 0 ==> acc <= limit,
            1 <= b <= 0x100_0001,
            limit < 0x100_0000,
        decreases e - i,
    {
        proof {
            assert(acc * b <= 0x100_0000u64 * 0x100_0001u64) by (nonlinear_arith)
                requires
                    acc <= 0x100_0000,
                    b <= 0x100_0001,
            ;
        }
        acc = acc * b;
        i = i + 1;
        proof {
            assert(acc as nat == b * power(b as nat, (i - 1) as nat)) by (nonlinear_arith)
                requires
                    acc == (power(b as nat, (i - 1) as nat) as int) * b,
            ;
        }
        if acc > limit {
            proof {
                lemma_power_grows(b as nat, i as nat, e as nat);
            }
            return false;
        }
    }
    acc <= limit
}

/// The number of values of a lookup-1 table: the `r` with
/// `r^dim <= entries < (r + 1)^dim`.
pub fn lookup1_value_count(entry_count: usize, dim_count: usize) -> (r: usize)
    requires
        entry_count < 0x100_0000,
        dim_count >= 1,
    ensures
        power(r as nat, dim_count as nat) <= entry_count < power((r + 1) as nat, dim_count as nat),
        r <= entry_count,
{
    let mut r: usize = 0;
    proof {
        assert(power(0, dim_count as nat) == 0 * power(0, (dim_count - 1) as nat));
    }
    let mut go = power_at_most(1, dim_count, entry_count as u64);
    while go
        invariant
            go ==> power((r + 1) as nat, dim_count as nat) <= entry_count,
            !go ==> entry_count < power((r + 1) as nat, dim_count as nat),
            r <= entry_count,
            entry_count < 0x100_0000,
            dim_count >= 1,
            power(r as nat, dim_count as nat) <= entry_count,
        decreases entry_count - r,
    {
        proof {
            lemma_power_grows((r + 1) as nat, 1, dim_count as nat);
            assert(power((r + 1) as nat, 0) == 1);
            assert(power((r + 1) as nat, 1) == (r + 1) * power((r + 1) as nat, 0));
            assert(power((r + 1) as nat, 1) == (r + 1) as nat);
            assert((r + 1) as nat <= entry_count);
        }
        r = r + 1;
        go = power_at_most((r + 1) as u64, dim_count, entry_count as u64);
    }
    r
}

/// The number of values of a lookup-1 table for `e` entries of `d` dimensions.
pub open spec fn lookup1_count(e: nat, d: nat) -> nat {
    choose|r: nat| #[trigger] power(r, d) <= e < power(r + 1, d)
}

/// Number of stored values of a lookup table of kind number `kind`.
pub open spec fn mults_count(kind: nat, e: nat, d: nat) -> nat {
    if kind == 1 {
        lookup1_count(e, d)
    } else {
        e * d
    }
}

/// Whether the bits of `m` hold a valid lookup table description for `e`
/// entries of `d` dimensions (kind 0: no table).
pub open spec fn lookup_ok(m: BitsModel, e: nat, d: nat) -> bool {
    let kind = field(m, 0, 4);
    let n = mults_count(kind, e, d);
    &&& 4 <= m.len
    &&& (kind == 0 || ((kind == 1 || kind == 2) && d >= 1 && 73 <= m.len && n <= 0xFFFF_FFFF && 73 + n * (field(m, 68, 4)
        + 1) <= m.len))
}

proof fn lemma_power_base_le(a: nat, b: nat, d: nat)
    requires
        a <= b,
    ensures
        power(a, d) <= power(b, d),
    decreases d,
{
    if d > 0 {
        lemma_power_base_le(a, b, (d - 1) as nat);
        let pa = power(a, (d - 1) as nat);
        let pb = power(b, (d - 1) as nat);
        assert(a * pa <= b * pb) by (nonlinear_arith)
            requires
                a <= b,
                pa <= pb,
        ;
    }
}

/// The lookup-1 value count is the only number with its defining property.
proof fn lemma_lookup1_count_unique(e: nat, d: nat, r: nat)
    requires
        power(r, d) <= e < power(r + 1, d),
    ensures
        lookup1_count(e, d) == r,
{
    let c = lookup1_count(e, d);
    assert(power(c, d) <= e < power(c + 1, d));
    if c < r {
        lemma_power_base_le(c + 1, r, d);
    } else if r < c {
        lemma_power_base_le(r + 1, c, d);
    }
}

/// The kinds of vector lookup tables.
#[derive(Clone, Copy, Debug, PartialEq, Eq, Structural)]
pub enum LookupKind {
    /// Vectors built from one list of values, one digit per dimension.
    Lookup1,
    /// One stored value per dimension of each entry.
    Lookup2,
}

/// A vector lookup table. Its values are `mults[i] * delta + min`, where
/// `min` and `delta` are 32-bit Vorbis floats kept here as their raw bits.
#[derive(Debug)]
pub struct LookupTable {
    pub kind: LookupKind,
    pub len: usize,
    pub mults: Vec<u16>,
    pub min: u32,
    pub delta: u32,
    pub seq_p: bool,
}

/// Number of stored values of a lookup table of `kind`.
pub open spec fn mults_len_ok(kind: LookupKind, n: nat, entries: nat, dim: nat) -> bool {
    match kind {
        LookupKind::Lookup1 => power(n, dim) <= entries < power(n + 1, dim),
        LookupKind::Lookup2 => n == entries * dim,
    }
}

/// Position in `mults` of component `i` of vector `offset`.
pub open spec fn lookup_index(kind: LookupKind, n: nat, dim: nat, offset: nat, i: nat) -> nat {
    match kind {
        LookupKind::Lookup1 => (offset / power(n, i)) % n,
        LookupKind::Lookup2 => offset * dim + i,
    }
}

impl LookupTable {
    pub open spec fn wf(&self, entries: nat) -> bool {
        &&& self.len >= 1
        &&& mults_len_ok(self.kind, self.mults@.len(), entries, self.len as nat)
        &&& entries < 0x100_0000
    }

    /// Reads a lookup table for `entry_count` entries of `dim_count` dimensions.
    pub fn read(reader: &mut BitReader, entry_count: usize, dim_count: usize) -> (r: Result<Option<Self>>)
        requires
            old(reader).wf(),
            entry_count < 0x100_0000,
            dim_count < 0x1_0000,
        ensures
            final(reader).wf(),
            r.is_ok() && r.unwrap() is Some ==> r.unwrap().unwrap().wf(entry_count as nat)
                && r.unwrap().unwrap().len == dim_count,
            r.is_ok() ==> (r.unwrap() is None <==> take_bits(old(reader)@, 4) == 0),
            r.is_ok() <==> lookup_ok(old(reader)@, entry_count as nat, dim_count as nat),
            r.is_ok() && r.unwrap() is Some ==> ({
                let m = old(reader)@;
                let t = r.unwrap().unwrap();
                let vb = field(m, 68, 4) + 1;
                &&& t.kind == (if field(m, 0, 4) == 1 { LookupKind::Lookup1 } else { LookupKind::Lookup2 })
                &&& t.min == field(m, 4, 32)
                &&& t.delta == field(m, 36, 32)
                &&& t.seq_p == (field(m, 72, 1) == 1)
                &&& t.mults@.len() == mults_count(field(m, 0, 4), entry_count as nat, dim_count as nat)
                &&& forall|i: int| 0 <= i < t.mults@.len() ==> #[trigger] t.mults@[i] == field(m, (73 + i * vb) as nat, vb)
            }),
            r.is_err() ==> r->Err_0 is Undecodable || r->Err_0 is Io,
    {
        let ghost m = reader@;
        proof {
            lemma2_to64();
            assert(skip_bits(m, 0) == m);
        }
        let kind_int = reader.read_u8_bits(4)?;
        proof {
            lemma_skip_skip(m, 0, 4);
        }
        if kind_int == 0 {
            return Ok(None);
        }
        let kind = if kind_int == 1 {
            LookupKind::Lookup1
        } else if kind_int == 2 {
            LookupKind::Lookup2
        } else {
            return Err(Error::Undecodable("Invalid VQ lookup type"));
        };
        if dim_count == 0 {
            return Err(Error::Undecodable("Invalid VQ lookup dimensions"));
        }
        let min = reader.read_u32()?;
        proof {
            lemma_skip_skip(m, 4, 32);
        }
        let delta = reader.read_u32()?;
        proof {
            lemma_skip_skip(m, 36, 32);
        }
        let value_len_bits = reader.read_u8_bits(4)? as usize + 1;
        proof {
            lemma_skip_skip(m, 68, 4);
        }
        let seq_p = reader.read_bool()?;
        proof {
            lemma_skip_skip(m, 72, 1);
        }
        let mults_len = match kind {
            LookupKind::Lookup1 => {
                let n = lookup1_value_count(entry_count, dim_count);
                proof {
                    lemma_lookup1_count_unique(entry_count as nat, dim_count as nat, n as nat);
                }
                n
            },
            LookupKind::Lookup2 => {
                proof {
                    assert(entry_count * dim_count <= 0x100_0000 * 0x1_0000) by (nonlinear_arith)
                        requires
                            entry_count < 0x100_0000,
                            dim_count < 0x1_0000,
                    ;
                }
                let total: u64 = (entry_count as u64) * (dim_count as u64);
                if total > 0xFFFF_FFFF {
                    return Err(Error::Io("Lookup table larger than any packet"));
                }
                total as usize
            },
        };
        let ghost vb = value_len_bits as nat;
        let mut mults: Vec<u16> = Vec::new();
        let mut i: usize = 0;
        proof {
            assert(73 + 0 * vb == 73) by (nonlinear_arith);
        }
        while i < mults_len
            invariant
                reader.wf(),
                i <= mults_len,
                mults@.len() == i,
                value_len_bits <= 16,
                vb == value_len_bits,
                vb == field(m, 68, 4) + 1,
                m == old(reader)@,
                73 <= m.len,
                field(m, 0, 4) == 1 || field(m, 0, 4) == 2,
                dim_count >= 1,
                mults_len == mults_count(field(m, 0, 4), entry_count as nat, dim_count as nat),
                mults_len <= 0xFFFF_FFFF,
                reader@ == skip_bits(m, (73 + i * vb) as nat),
                73 + i * vb <= m.len,
                forall|j: int| 0 <= j < i ==> #[trigger] mults@[j] == field(m, (73 + j * vb) as nat, vb),
            decreases mults_len - i,
        {
            let v = match reader.read_u16_bits(value_len_bits) {
                Ok(v) => v,
                Err(e) => {
                    proof {
                        assert(73 + mults_len * vb > m.len) by (nonlinear_arith)
                            requires
                                73 + i * vb + vb > m.len,
                                i < mults_len,
                        ;
                    }
                    return Err(e);
                },
            };
            proof {
                assert(73 + (i + 1) * vb == 73 + i * vb + vb) by (nonlinear_arith);
                lemma_skip_skip(m, (73 + i * vb) as nat, vb);
            }
            mults.push(v);
            i = i + 1;
        }
        Ok(Some(LookupTable { kind, len: dim_count, mults, min, delta, seq_p }))
    }

    /// Positions in `mults` of the components of vector `offset`.
    pub fn lookup(&self, offset: usize, entry_count: usize) -> (r: Vec<usize>)
        requires
            self.wf(entry_count as nat),
            offset < entry_count,
        ensures
            r@.len() == self.len,
            forall|i: int|
                0 <= i < self.len ==> #[trigger] r@[i] as nat == lookup_index(
                    self.kind,
                    self.mults@.len(),
                    self.len as nat,
                    offset as nat,
                    i as nat,
                ),
            forall|i: int| 0 <= i < self.len ==> #[trigger] r@[i] < self.mults@.len(),
    {
        match self.kind {
            LookupKind::Lookup1 => self.lookup1(offset, Ghost(entry_count as nat)),
            LookupKind::Lookup2 => self.lookup2(offset, Ghost(entry_count as nat)),
        }
    }

    fn lookup1(&self, offset: usize, Ghost(entries): Ghost<nat>) -> (r: Vec<usize>)
        requires
            self.wf(entries),
            self.kind == LookupKind::Lookup1,
            offset < entries,
        ensures
            r@.len() == self.len,
            forall|i: int|
                0 <= i < self.len ==> #[trigger] r@[i] as nat == (offset as nat / power(
                    self.mults@.len(),
                    i as nat,
                )) % self.mults@.len(),
            forall|i: int| 0 <= i < self.len ==> #[trigger] r@[i] < self.mults@.len(),
    {
        let n = self.mults.len();
        proof {
            // At least one value, since 0^dim = 0 < 1 <= entries would contradict the count.
            if n == 0 {
                assert(power(1, self.len as nat) >= 1) by {
                    lemma_power_grows(1, 0, self.len as nat);
                }
                assert(power(1, self.len as nat) == 1) by {
                    lemma_power_one(self.len as nat);
                }
            }
        }
        let mut r: Vec<usize> = Vec::new();
        let mut divisor: usize = 1;
        let mut saturated = offset == 0;
        let mut i: usize = 0;
        while i < self.len
            invariant
                n == self.mults@.len(),
                n >= 1,
                offset < 0x100_0000,
                i <= self.len,
                r@.len() == i,
                saturated ==> power(n as nat, i as nat) > offset,
                !saturated ==> divisor as nat == power(n as nat, i as nat) && divisor <= offset,
                divisor >= 1,
                forall|j: int|
                    0 <= j < i ==> #[trigger] r@[j] as nat == (offset as nat / power(n as nat, j as nat)) % n as nat,
                forall|j: int| 0 <= j < i ==> #[trigger] r@[j] < n,
            decreases self.len - i,
        {
            let ghost old_r = r@;
            let digit = if saturated {
                proof {
                    lemma_power_pos(n as nat, i as nat);
                    vstd::arithmetic::div_mod::lemma_basic_div(offset as int, power(n as nat, i as nat) as int);
                    assert(offset as nat / power(n as nat, i as nat) == 0);
                    assert((0nat % n as nat) == 0) by {
                        vstd::arithmetic::div_mod::lemma_small_mod(0nat, n as nat);
                    }
                }
                0
            } else {
                let d = offset / divisor % n;
                proof {
                    assert(divisor as nat == power(n as nat, i as nat));
                    assert(d as nat == (offset as nat / divisor as nat) % n as nat);
                }
                d
            };
            r.push(digit);
            proof {
                assert(r@[i as int] == digit);
                assert(digit as nat == (offset as nat / power(n as nat, i as nat)) % n as nat);
                assert forall|j: int| 0 <= j < i + 1 implies #[trigger] r@[j] as nat == (offset as nat / power(n as nat, j as nat)) % n as nat && r@[j] < n by {
                    if j < i {
                        assert(r@[j] == old_r[j]);
                    }
                }
                assert(power(n as nat, (i + 1) as nat) == n * power(n as nat, i as nat));
                assert(n * power(n as nat, i as nat) == power(n as nat, i as nat) * n) by (nonlinear_arith);
                lemma_power_grows(n as nat, i as nat, (i + 1) as nat);
            }
            if !saturated {
                if divisor > offset / n {
                    saturated = true;
                    proof {
                        vstd::arithmetic::div_mod::lemma_fundamental_div_mod(offset as int, n as int);
                        assert(divisor * n > offset) by (nonlinear_arith)
                            requires
                                divisor > offset / n,
                                offset == n * (offset / n) + offset % n,
                                offset % n < n,
                                n >= 1,
                        ;
                    }
                } else {
                    proof {
                        assert(divisor * n <= offset) by (nonlinear_arith)
                            requires
                                divisor <= offset / n,
                                n >= 1,
                                offset >= 0,
                        ;
                    }
                    divisor = divisor * n;
                }
            }
            i = i + 1;
        }
        r
    }

    fn lookup2(&self, offset: usize, Ghost(entries): Ghost<nat>) -> (r: Vec<usize>)
        requires
            self.wf(entries),
            self.kind == LookupKind::Lookup2,
            offset < entries,
        ensures
            r@.len() == self.len,
            forall|i: int| 0 <= i < self.len ==> #[trigger] r@[i] == offset * self.len + i,
            forall|i: int| 0 <= i < self.len ==> #[trigger] r@[i] < self.mults@.len(),
    {
        let mut r: Vec<usize> = Vec::new();
        let n = self.mults.len();
        proof {
            assert(offset * self.len + self.len <= entries * self.len) by (nonlinear_arith)
                requires
                    offset < entries,
            ;
        }
        let base = offset * self.len;
        let mut i: usize = 0;
        while i < self.len
            invariant
                n == self.mults@.len(),
                base == offset * self.len,
                base + self.len <= self.mults@.len(),
                i <= self.len,
                r@.len() == i,
                forall|j: int| 0 <= j < i ==> #[trigger] r@[j] == offset * self.len + j,
            decreases self.len - i,
        {
            r.push(base + i);
            i = i + 1;
        }
        r
    }
}

proof fn lemma_power_one(e: nat)
    ensures
        power(1, e) == 1,
    decreases e,
{
    if e > 0 {
        lemma_power_one((e - 1) as nat);
    }
}

proof fn lemma_power_pos(b: nat, e: nat)
    requires
        b >= 1,
    ensures
        power(b, e) >= 1,
{
    lemma_power_grows(b, 0, e);
}

/// A codebook: a Huffman code over its entries and, optionally, a table
/// that maps each entry to a vector.
pub struct Codebook {
    pub dim_count: usize,
    pub entry_count: usize,
    pub idx: usize,
    pub huffman_decoder: HuffmanDecoder,
    pub lookup_table: Option<LookupTable>,
}

/// The allocation state of a new Huffman builder.
pub open spec fn fresh_state() -> Seq<Option<u32>> {
    Seq::new(31, |i: int| None::<u32>)
}

/// The canonical codewords of `(entry, length)` pairs, allocated in order
/// from state `st`, and the state after them; `None` where a length has no
/// code left.
pub open spec fn canon_codes(st: Seq<Option<u32>>, ls: Seq<(nat, nat)>) -> Option<(Seq<CodeSpec>, Seq<Option<u32>>)>
    decreases ls.len(),
{
    if ls.len() == 0 {
        Some((Seq::empty(), st))
    } else {
        match canon_codes(st, ls.drop_last()) {
            Some((cs, st1)) => match next_canonical(st1, ls.last().1) {
                Some((code, st2)) => Some((cs.push((code as nat, ls.last().1, rev_code(code, ls.last().1 as u32) as nat, ls.last().0)), st2)),
                None => None,
            },
            None => None,
        }
    }
}

proof fn lemma_canon_prefix_none(st: Seq<Option<u32>>, a: Seq<(nat, nat)>, b: Seq<(nat, nat)>)
    requires
        a.len() <= b.len(),
        b.take(a.len() as int) == a,
        canon_codes(st, a) is None,
    ensures
        canon_codes(st, b) is None,
    decreases b.len(),
{
    if b.len() > a.len() {
        assert(b.drop_last().take(a.len() as int) =~= a);
        lemma_canon_prefix_none(st, a, b.drop_last());
    } else {
        assert(b =~= a);
    }
}

/// `(entry, length)` pairs of the first `i` entries, lengths read without
/// order: with `sparse`, a used bit first; then 5 bits of length minus one.
pub open spec fn unordered_lens(m: BitsModel, sparse: bool, i: nat) -> Option<(Seq<(nat, nat)>, BitsModel)>
    decreases i,
{
    if i == 0 {
        Some((Seq::empty(), m))
    } else {
        match unordered_lens(m, sparse, (i - 1) as nat) {
            Some((ls, m1)) => {
                let used: Option<(bool, BitsModel)> = if sparse {
                    match read_field(m1, 1) {
                        Some((u, m2)) => Some((u == 1, m2)),
                        None => None,
                    }
                } else {
                    Some((true, m1))
                };
                match used {
                    Some((u, m2)) => if u {
                        match read_field(m2, 5) {
                            Some((l, m3)) => Some((ls.push(((i - 1) as nat, l + 1)), m3)),
                            None => None,
                        }
                    } else {
                        Some((ls, m2))
                    },
                    None => None,
                }
            },
            None => None,
        }
    }
}

proof fn lemma_unordered_prefix(m: BitsModel, sparse: bool, j: nat, k: nat)
    requires
        j <= k,
        unordered_lens(m, sparse, k) is Some,
    ensures
        unordered_lens(m, sparse, j) is Some,
        unordered_lens(m, sparse, k).unwrap().0.take(unordered_lens(m, sparse, j).unwrap().0.len() as int)
            == unordered_lens(m, sparse, j).unwrap().0,
        unordered_lens(m, sparse, j).unwrap().0.len() <= unordered_lens(m, sparse, k).unwrap().0.len(),
    decreases k,
{
    if j < k {
        lemma_unordered_prefix(m, sparse, j, (k - 1) as nat);
        let a = unordered_lens(m, sparse, j).unwrap().0;
        let b1 = unordered_lens(m, sparse, (k - 1) as nat).unwrap().0;
        let b = unordered_lens(m, sparse, k).unwrap().0;
        assert(b.len() >= b1.len());
        assert(b.take(b1.len() as int) =~= b1);
        assert(b.take(a.len() as int) =~= b1.take(a.len() as int));
    } else {
        let b = unordered_lens(m, sparse, k).unwrap().0;
        assert(b.take(b.len() as int) =~= b);
    }
}

proof fn lemma_unordered_none(m: BitsModel, sparse: bool, a: nat, b: nat)
    requires
        a <= b,
        unordered_lens(m, sparse, a) is None,
    ensures
        unordered_lens(m, sparse, b) is None,
    decreases b,
{
    if a < b {
        lemma_unordered_none(m, sparse, a, (b - 1) as nat);
    }
}

/// `(entry, length)` pairs of ordered lengths from entry `e`, with current
/// length `l`: runs of `ilog(count - e)`-bit counts, each of entries of one
/// length, the length growing by one per run (24 at most).
pub open spec fn ordered_from(m: BitsModel, count: nat, e: nat, l: nat) -> Option<(Seq<(nat, nat)>, BitsModel)>
    decreases 25 - l,
{
    if e >= count {
        Some((Seq::empty(), m))
    } else {
        match read_field(m, ilog_spec((count - e) as nat)) {
            Some((num, m1)) => if num > count - e || l > 24 {
                None
            } else {
                match ordered_from(m1, count, e + num, l + 1) {
                    Some((rest, m2)) => Some((Seq::new(num, |k: int| ((e + k) as nat, l)) + rest, m2)),
                    None => None,
                }
            },
            None => None,
        }
    }
}

/// The `(entry, length)` pairs of a codebook of `count` entries at the
/// start of `m` (the ordered flag, then the lengths), and the bits after them.
pub open spec fn code_lens(m: BitsModel, count: nat) -> Option<(Seq<(nat, nat)>, BitsModel)> {
    match read_field(m, 1) {
        Some((o, m1)) => if o == 1 {
            match read_field(m1, 5) {
                Some((l0, m2)) => ordered_from(m2, count, 0, l0 + 1),
                None => None,
            }
        } else {
            match read_field(m1, 1) {
                Some((sp, m2)) => unordered_lens(m2, sp == 1, count),
                None => None,
            }
        },
        None => None,
    }
}

/// Dimensions, entries, canonical codewords and the bits after the lengths
/// of the codebook at the start of `m`; `None` where the sync pattern is
/// wrong, the bits end, or the lengths do not allocate.
pub open spec fn codebook_parts(m: BitsModel) -> Option<(nat, nat, Seq<CodeSpec>, BitsModel)> {
    if m.len < 64 || take_bits(m, 24) != 0x56_4342 {
        None
    } else {
        match code_lens(skip_bits(m, 64), field(m, 40, 24)) {
            Some((ls, m1)) => match canon_codes(fresh_state(), ls) {
                Some((cs, _st)) => Some((field(m, 24, 16), field(m, 40, 24), cs, m1)),
                None => None,
            },
            None => None,
        }
    }
}

/// Whether the bits of `m` hold a valid codebook.
pub open spec fn codebook_ok(m: BitsModel) -> bool {
    codebook_parts(m) matches Some((d, e, _cs, m1)) && lookup_ok(m1, e, d)
}

/// The entry whose codeword starts the bits of `m`, and the bits after
/// the codeword; `None` where no codeword of the codebook starts them.
pub open spec fn scalar_at(cb: Codebook, m: BitsModel) -> Option<(nat, BitsModel)> {
    let codes = cb.huffman_decoder.codes();
    if exists|k: int| 0 <= k < codes.len() && (#[trigger] codes[k]).1 <= m.len && take_bits(m, codes[k].1) == codes[k].2 {
        let k = choose|k: int| 0 <= k < codes.len() && (#[trigger] codes[k]).1 <= m.len && take_bits(m, codes[k].1) == codes[k].2;
        Some((codes[k].3, skip_bits(m, codes[k].1)))
    } else {
        None
    }
}

const SYNC_PATTERN: [u8; 3] = [0x42, 0x43, 0x56];

impl Codebook {
    pub open spec fn wf(&self) -> bool {
        &&& self.huffman_decoder.wf()
        &&& self.entry_count < 0x100_0000
        &&& self.dim_count < 0x1_0000
        &&& forall|k: int|
            0 <= k < self.huffman_decoder.codes().len() ==> (#[trigger] self.huffman_decoder.codes()[k]).3
                < self.entry_count
        &&& (self.lookup_table matches Some(t) ==> t.wf(self.entry_count as nat) && t.len == self.dim_count)
    }

    /// Reads a codebook: sync pattern, dimensions, entry count, codeword
    /// lengths and lookup table.
    pub fn read(reader: &mut BitReader) -> (r: Result<Self>)
        requires
            old(reader).wf(),
        ensures
            final(reader).wf(),
            r.is_ok() ==> r.unwrap().wf(),
            r.is_ok() ==> r.unwrap().dim_count == field(old(reader)@, 24, 16)
                && r.unwrap().entry_count == field(old(reader)@, 40, 24),
            take_bits(old(reader)@, 24) != 0x56_4342 ==> r.is_err(),
            r.is_ok() <==> codebook_ok(old(reader)@),
            r.is_ok() ==> (codebook_parts(old(reader)@) matches Some((d, e, cs, m1)) && r.unwrap().dim_count == d
                && r.unwrap().entry_count == e && r.unwrap().huffman_decoder.codes() == cs
                && (r.unwrap().lookup_table is None <==> take_bits(m1, 4) == 0)),
            r.is_err() ==> r->Err_0 is Undecodable || r->Err_0 is Io,
    {
        let ghost m = reader@;
        let mut sync_pattern: Vec<u8> = vec![0, 0, 0];
        reader.read(&mut sync_pattern)?;
        if sync_pattern[0] != SYNC_PATTERN[0] || sync_pattern[1] != SYNC_PATTERN[1]
            || sync_pattern[2] != SYNC_PATTERN[2] {
            proof {
                let b = sync_pattern@;
                assert(b.drop_first().drop_first().drop_first() =~= Seq::<u8>::empty());
                assert(bytes_le(Seq::<u8>::empty()) == 0);
                assert(bytes_le(b.drop_first().drop_first()) == b[2] as nat + 256 * bytes_le(b.drop_first().drop_first().drop_first()));
                assert(bytes_le(b.drop_first()) == b[1] as nat + 256 * bytes_le(b.drop_first().drop_first()));
                assert(bytes_le(b) == b[0] as nat + 256 * bytes_le(b.drop_first()));
                let (b0, b1, b2) = (b[0] as int, b[1] as int, b[2] as int);
                if bytes_le(b) == 0x56_4342 {
                    assert(b0 == 0x42 && b1 == 0x43 && b2 == 0x56) by (nonlinear_arith)
                        requires
                            b0 + 256 * (b1 + 256 * b2) == 0x56_4342,
                            0 <= b0 < 256,
                            0 <= b1 < 256,
                            0 <= b2 < 256,
                    ;
                }
            }
            return Err(Error::Undecodable("Invalid sync pattern"));
        }
        proof {
            let b = sync_pattern@;
            assert(b.drop_first().drop_first().drop_first() =~= Seq::<u8>::empty());
            assert(bytes_le(b.drop_first().drop_first()) == b[2] as nat + 256 * bytes_le(b.drop_first().drop_first().drop_first()));
            assert(bytes_le(b.drop_first()) == b[1] as nat + 256 * bytes_le(b.drop_first().drop_first()));
            assert(bytes_le(b) == b[0] as nat + 256 * bytes_le(b.drop_first()));
            assert(bytes_le(Seq::<u8>::empty()) == 0);
            assert(skip_bits(m, 0) == m) by {
                lemma2_to64();
            }
        }
        let dim_count = reader.read_u16()? as usize;
        proof {
            lemma_skip_skip(m, 24, 16);
        }
        let entry_count = reader.read_u32_bits(24)? as usize;
        proof {
            lemma_skip_skip(m, 40, 24);
        }
        proof {
            lemma2_to64();
        }
        let ghost m3 = reader@;
        proof {
            assert(m3 == skip_bits(m, 64));
        }
        let ordered = reader.read_bool()?;
        let mut builder = HuffmanDecoder::builder(9);
        proof {
            assert(builder.alloc_state() =~= fresh_state());
        }
        if ordered {
            Self::read_ordered_codeword_lens(reader, entry_count, &mut builder)?;
        } else {
            Self::read_unordered_codeword_lens(reader, entry_count, &mut builder)?;
        }
        let huffman_decoder = builder.build();
        let lookup_table = LookupTable::read(reader, entry_count, dim_count)?;
        Ok(Codebook { dim_count, entry_count, idx: 0, huffman_decoder, lookup_table })
    }

    /// Decodes one entry number.
    pub fn decode_scalar(&self, reader: &mut BitReader) -> (r: Result<u32>)
        requires
            self.wf(),
            old(reader).wf(),
        ensures
            final(reader).wf(),
            r.is_ok() ==> r.unwrap() < self.entry_count,
            r.is_err() ==> r->Err_0 is Io || r->Err_0 is Undecodable,
            old(reader)@.len == 0 ==> r.is_err() && r->Err_0 is Io,
            r.is_err() && r->Err_0 is Io ==> old(reader)@.len < self.huffman_decoder.max_len() || self.huffman_decoder.codes().len() == 0,
            r.is_ok() <==> scalar_at(*self, old(reader)@) is Some,
            r.is_ok() ==> scalar_at(*self, old(reader)@) == Some((r.unwrap() as nat, final(reader)@)),
            r.is_ok() <==> (exists|k: int|
                0 <= k < self.huffman_decoder.codes().len() && (#[trigger] self.huffman_decoder.codes()[k]).1 <= old(reader)@.len
                    && take_bits(old(reader)@, self.huffman_decoder.codes()[k].1) == self.huffman_decoder.codes()[k].2),
            forall|k: int|
                0 <= k < self.huffman_decoder.codes().len() && (#[trigger] self.huffman_decoder.codes()[k]).1 <= old(reader)@.len
                    && take_bits(old(reader)@, self.huffman_decoder.codes()[k].1) == self.huffman_decoder.codes()[k].2 ==> r.is_ok()
                    && r.unwrap() == self.huffman_decoder.codes()[k].3 && final(reader)@ == skip_bits(old(reader)@, self.huffman_decoder.codes()[k].1),
    {
        let r = self.huffman_decoder.decode(reader);
        proof {
            if r.is_ok() {
                let k = choose|k: int|
                    0 <= k < self.huffman_decoder.codes().len() && (#[trigger] self.huffman_decoder.codes()[k]).3 == r.unwrap()
                        && take_bits(old(reader)@, self.huffman_decoder.codes()[k].1) == self.huffman_decoder.codes()[k].2
                        && reader@ == skip_bits(old(reader)@, self.huffman_decoder.codes()[k].1);
            }
        }
        let v = r?;
        Ok(v)
    }

    /// Decodes one entry number of a codebook that has a lookup table: the
    /// vector is the entry's row of the table (see [`LookupTable::lookup`]).
    pub fn decode_vq(&self, reader: &mut BitReader) -> (r: Result<u32>)
        requires
            self.wf(),
            old(reader).wf(),
        ensures
            final(reader).wf(),
            r.is_ok() ==> r.unwrap() < self.entry_count && self.lookup_table is Some,
            r.is_err() ==> r->Err_0 is Io || r->Err_0 is Undecodable,
            self.lookup_table is Some ==> (r.is_ok() <==> (exists|k: int|
                0 <= k < self.huffman_decoder.codes().len() && (#[trigger] self.huffman_decoder.codes()[k]).1 <= old(reader)@.len
                    && take_bits(old(reader)@, self.huffman_decoder.codes()[k].1) == self.huffman_decoder.codes()[k].2)),
            self.lookup_table is Some ==> forall|k: int|
                0 <= k < self.huffman_decoder.codes().len() && (#[trigger] self.huffman_decoder.codes()[k]).1 <= old(reader)@.len
                    && take_bits(old(reader)@, self.huffman_decoder.codes()[k].1) == self.huffman_decoder.codes()[k].2 ==> r.is_ok()
                    && r.unwrap() == self.huffman_decoder.codes()[k].3 && final(reader)@ == skip_bits(old(reader)@, self.huffman_decoder.codes()[k].1),
            self.lookup_table is None ==> r.is_err() && r->Err_0 is Undecodable,
    {
        if self.lookup_table.is_none() {
            return Err(Error::Undecodable("Codebook has no lookup table"));
        }
        self.decode_scalar(reader)
    }

    /// Reads one codeword length per entry; with the sparse flag, each entry
    /// first has a bit that says whether it is used.
    fn read_unordered_codeword_lens(reader: &mut BitReader, count: usize, builder: &mut HuffmanDecoderBuilder) -> (r: Result<()>)
        requires
            old(reader).wf(),
            old(builder).wf(),
            old(builder).codes().len() == 0,
            old(builder).alloc_state() == fresh_state(),
            count < 0x100_0000,
        ensures
            final(reader).wf(),
            final(builder).wf(),
            forall|k: int| 0 <= k < final(builder).codes().len() ==> (#[trigger] final(builder).codes()[k]).3 < count,
            r.is_ok() <==> (read_field(old(reader)@, 1) matches Some((sp, m2)) && (unordered_lens(m2, sp == 1, count as nat)
                matches Some((ls, _m3)) && canon_codes(fresh_state(), ls) is Some)),
            r.is_ok() ==> ({
                let (sp, m2) = read_field(old(reader)@, 1).unwrap();
                let (ls, m3) = unordered_lens(m2, sp == 1, count as nat).unwrap();
                final(reader)@ == m3 && final(builder).codes() == canon_codes(fresh_state(), ls).unwrap().0
            }),
            r.is_err() ==> r->Err_0 is Undecodable || r->Err_0 is Io,
    {
        let ghost m = reader@;
        proof {
            lemma2_to64();
            assert(canon_codes(fresh_state(), Seq::<(nat, nat)>::empty()) == Some((Seq::<CodeSpec>::empty(), fresh_state())));
        }
        let sparse = reader.read_bool()?;
        let ghost m2 = reader@;
        let ghost mut ls: Seq<(nat, nat)> = Seq::empty();
        let mut i: usize = 0;
        while i < count
            invariant
                reader.wf(),
                builder.wf(),
                i <= count,
                count < 0x100_0000,
                forall|k: int| 0 <= k < builder.codes().len() ==> (#[trigger] builder.codes()[k]).3 < i,
                m == old(reader)@,
                read_field(m, 1) == Some((if sparse { 1nat } else { 0nat }, m2)),
                unordered_lens(m2, sparse, i as nat) == Some((ls, reader@)),
                canon_codes(fresh_state(), ls) == Some((builder.codes(), builder.alloc_state())),
            decreases count - i,
        {
            let mut used = true;
            if sparse {
                used = match reader.read_bool() {
                    Ok(u) => u,
                    Err(e) => {
                        proof {
                            lemma_unordered_none(m2, sparse, (i + 1) as nat, count as nat);
                        }
                        return Err(e);
                    },
                };
            }
            if used {
                proof {
                    lemma2_to64();
                }
                let l = match reader.read_u32_bits(5) {
                    Ok(l) => l,
                    Err(e) => {
                        proof {
                            lemma_unordered_none(m2, sparse, (i + 1) as nat, count as nat);
                        }
                        return Err(e);
                    },
                };
                let len = l + 1;
                let ghost before = builder.codes();
                let ghost ls1 = ls.push((i as nat, len as nat));
                proof {
                    assert(unordered_lens(m2, sparse, (i + 1) as nat) == Some((ls1, reader@)));
                    assert(ls1.drop_last() =~= ls);
                }
                match builder.create_code(i as u32, len as usize) {
                    Ok(()) => {},
                    Err(e) => {
                        proof {
                            assert(canon_codes(fresh_state(), ls1) is None);
                            if unordered_lens(m2, sparse, count as nat) is Some {
                                lemma_unordered_prefix(m2, sparse, (i + 1) as nat, count as nat);
                                lemma_canon_prefix_none(fresh_state(), ls1, unordered_lens(m2, sparse, count as nat).unwrap().0);
                            }
                        }
                        return Err(e);
                    },
                }
                proof {
                    assert forall|k: int| 0 <= k < builder.codes().len() implies (#[trigger] builder.codes()[k]).3 < i + 1 by {
                        if k < before.len() {
                            assert(builder.codes().take(before.len() as int)[k] == before[k]);
                        }
                    }
                    assert(builder.codes() =~= before.push(builder.codes().last()));
                    ls = ls1;
                }
            } else {
                proof {
                    assert(unordered_lens(m2, sparse, (i + 1) as nat) == Some((ls, reader@)));
                }
            }
            i = i + 1;
        }
        Ok(())
    }

    /// Reads codeword lengths as runs of entries of increasing length.
    fn read_ordered_codeword_lens(reader: &mut BitReader, count: usize, builder: &mut HuffmanDecoderBuilder) -> (r: Result<()>)
        requires
            old(reader).wf(),
            old(builder).wf(),
            old(builder).codes().len() == 0,
            old(builder).alloc_state() == fresh_state(),
            count < 0x100_0000,
        ensures
            final(reader).wf(),
            final(builder).wf(),
            forall|k: int| 0 <= k < final(builder).codes().len() ==> (#[trigger] final(builder).codes()[k]).3 < count,
            r.is_ok() <==> (read_field(old(reader)@, 5) matches Some((l0, m2)) && (ordered_from(m2, count as nat, 0, l0 + 1)
                matches Some((ls, _m3)) && canon_codes(fresh_state(), ls) is Some)),
            r.is_ok() ==> ({
                let (l0, m2) = read_field(old(reader)@, 5).unwrap();
                let (ls, m3) = ordered_from(m2, count as nat, 0, l0 + 1).unwrap();
                final(reader)@ == m3 && final(builder).codes() == canon_codes(fresh_state(), ls).unwrap().0
            }),
            r.is_err() ==> r->Err_0 is Undecodable || r->Err_0 is Io,
    {
        let ghost m = reader@;
        proof {
            lemma2_to64();
            assert(canon_codes(fresh_state(), Seq::<(nat, nat)>::empty()) == Some((Seq::<CodeSpec>::empty(), fresh_state())));
        }
        let l0 = reader.read_u32_bits(5)?;
        let ghost m2 = reader@;
        let mut cur_entry: usize = 0;
        let mut cur_len: u32 = l0 + 1;
        let ghost mut ls: Seq<(nat, nat)> = Seq::empty();
        proof {
            assert(ls + ordered_from(m2, count as nat, 0, cur_len as nat).unwrap_or((Seq::empty(), m2)).0
                == ordered_from(m2, count as nat, 0, cur_len as nat).unwrap_or((Seq::empty(), m2)).0) by {
                assert(Seq::<(nat, nat)>::empty() + ordered_from(m2, count as nat, 0, cur_len as nat).unwrap_or((Seq::empty(), m2)).0
                    =~= ordered_from(m2, count as nat, 0, cur_len as nat).unwrap_or((Seq::empty(), m2)).0);
            }
        }
        while cur_entry < count
            invariant
                reader.wf(),
                builder.wf(),
                cur_entry <= count,
                count < 0x100_0000,
                cur_len <= 33,
                forall|k: int| 0 <= k < builder.codes().len() ==> (#[trigger] builder.codes()[k]).3 < cur_entry,
                m == old(reader)@,
                read_field(m, 5) == Some((l0 as nat, m2)),
                cur_len >= 1,
                ordered_from(m2, count as nat, 0, (l0 + 1) as nat) == (match ordered_from(reader@, count as nat, cur_entry as nat, cur_len as nat) {
                    Some((rest, mm)) => Some((ls + rest, mm)),
                    None => None,
                }),
                canon_codes(fresh_state(), ls) == Some((builder.codes(), builder.alloc_state())),
            decreases 33 - cur_len,
        {
            proof {
                lemma2_to64();
                lemma_ilog_bound((count - cur_entry) as nat, 24);
            }
            let ghost mr = reader@;
            let num_len_bits = Bits::ilog((count - cur_entry) as u32);
            let num = reader.read_u32_bits(num_len_bits)? as usize;
            let ghost m1 = reader@;
            if num > count - cur_entry {
                return Err(Error::Undecodable("Codeword length counts mismatch"));
            }
            if cur_len > MAX_CODEWORD_LEN {
                return Err(Error::Undecodable("Codeword length too long"));
            }
            let ghost e0 = cur_entry;
            let ghost ls0 = ls;
            let mut j: usize = 0;
            proof {
                let after = ordered_from(m1, count as nat, (e0 + num) as nat, (cur_len + 1) as nat);
                assert(ordered_from(mr, count as nat, e0 as nat, cur_len as nat) == (match after {
                    Some((rest, mm)) => Some((Seq::new(num as nat, |k: int| ((e0 + k) as nat, cur_len as nat)) + rest, mm)),
                    None => None,
                }));
                if let Some((rest, mm)) = after {
                    assert(ls0 + (Seq::new(num as nat, |k: int| ((e0 + k) as nat, cur_len as nat)) + rest)
                        =~= ls0 + Seq::new((num - 0) as nat, |k: int| ((e0 + 0 + k) as nat, cur_len as nat)) + rest);
                }
            }
            while j < num
                invariant
                    reader.wf(),
                    builder.wf(),
                    j <= num,
                    cur_entry == e0 + j,
                    e0 + num <= count,
                    count < 0x100_0000,
                    cur_len <= 24,
                    cur_len >= 1,
                    forall|k: int| 0 <= k < builder.codes().len() ==> (#[trigger] builder.codes()[k]).3 < cur_entry,
                    m == old(reader)@,
                    read_field(m, 5) == Some((l0 as nat, m2)),
                    reader@ == m1,
                    ls.len() == ls0.len() + j,
                    ls.take(ls0.len() as int) == ls0,
                    ordered_from(m2, count as nat, 0, (l0 + 1) as nat) == (match ordered_from(m1, count as nat, (e0 + num) as nat, (cur_len + 1) as nat) {
                        Some((rest, mm)) => Some((ls + Seq::new((num - j) as nat, |k: int| ((cur_entry + k) as nat, cur_len as nat)) + rest, mm)),
                        None => None,
                    }),
                    canon_codes(fresh_state(), ls) == Some((builder.codes(), builder.alloc_state())),
                decreases num - j,
            {
                let ghost before = builder.codes();
                let ghost ls1 = ls.push((cur_entry as nat, cur_len as nat));
                proof {
                    assert(ls1.drop_last() =~= ls);
                }
                match builder.create_code(cur_entry as u32, cur_len as usize) {
                    Ok(()) => {},
                    Err(e) => {
                        proof {
                            assert(canon_codes(fresh_state(), ls1) is None);
                            if let Some((rest, mm)) = ordered_from(m1, count as nat, (e0 + num) as nat, (cur_len + 1) as nat) {
                                let full = ls + Seq::new((num - j) as nat, |k: int| ((cur_entry + k) as nat, cur_len as nat)) + rest;
                                assert(full.take(ls1.len() as int) =~= ls1);
                                lemma_canon_prefix_none(fresh_state(), ls1, full);
                            }
                        }
                        return Err(e);
                    },
                }
                proof {
                    assert forall|k: int| 0 <= k < builder.codes().len() implies (#[trigger] builder.codes()[k]).3 < cur_entry + 1 by {
                        if k < before.len() {
                            assert(builder.codes().take(before.len() as int)[k] == before[k]);
                        }
                    }
                    assert(builder.codes() =~= before.push(builder.codes().last()));
                    if let Some((rest, mm)) = ordered_from(m1, count as nat, (e0 + num) as nat, (cur_len + 1) as nat) {
                        assert(ls + Seq::new((num - j) as nat, |k: int| ((cur_entry + k) as nat, cur_len as nat)) + rest
                            =~= ls1 + Seq::new((num - (j + 1)) as nat, |k: int| ((cur_entry + 1 + k) as nat, cur_len as nat)) + rest);
                    }
                    assert(ls1.take(ls0.len() as int) =~= ls.take(ls0.len() as int));
                    ls = ls1;
                }
                cur_entry = cur_entry + 1;
                j = j + 1;
            }
            proof {
                if let Some((rest, mm)) = ordered_from(m1, count as nat, (e0 + num) as nat, (cur_len + 1) as nat) {
                    assert(ls + Seq::new(0nat, |k: int| ((cur_entry + k) as nat, cur_len as nat)) + rest =~= ls + rest);
                }
            }
            cur_len = cur_len + 1;
        }
        proof {
            assert(ordered_from(reader@, count as nat, cur_entry as nat, cur_len as nat) == Some((Seq::<(nat, nat)>::empty(), reader@)));
            assert(ls + Seq::<(nat, nat)>::empty() =~= ls);
        }
        Ok(())
    }
}

} // verus!

use vstd::prelude::*;
use vstd::arithmetic::power2::{pow2, lemma_pow2_pos, lemma_pow2_adds, lemma2_to64};
use vstd::arithmetic::div_mod::{lemma_fundamental_div_mod_converse, lemma_breakdown, lemma_div_denominator};
use vstd::bits::{lemma_u64_shl_is_mul, lemma_u64_pow2_no_overflow};
use crate::error::{Error, Result};

verus! {

/// The bits that are still to be read, as a number read least significant bit
/// first, and how many bits there are.
pub struct BitsModel {
    pub val: nat,
    pub len: nat,
}

/// Number of bits that a read of `n` bits gets from `m`.
pub open spec fn avail(m: BitsModel, n: nat) -> nat {
    if n <= m.len {
        n
    } else {
        m.len
    }
}

/// The number formed by the first `n` bits of `m`.
pub open spec fn take_bits(m: BitsModel, n: nat) -> nat {
    m.val % pow2(n)
}

/// `m` without its first `n` bits.
pub open spec fn skip_bits(m: BitsModel, n: nat) -> BitsModel {
    BitsModel { val: m.val / pow2(n), len: (m.len - n) as nat }
}

/// `m` with the `n` low bits of `v` put back in front of it.
pub open spec fn push_back_bits(m: BitsModel, v: nat, n: nat) -> BitsModel {
    BitsModel { val: v % pow2(n) + pow2(n) * m.val, len: m.len + n }
}

/// The bytes as a little-endian number.
pub open spec fn bytes_le(s: Seq<u8>) -> nat
    decreases s.len(),
{
    if s.len() == 0 {
        0
    } else {
        s[0] as nat + 256 * bytes_le(s.drop_first())
    }
}

/// The bits of a byte sequence, read least significant bit first.
pub open spec fn bytes_model(s: Seq<u8>) -> BitsModel {
    BitsModel { val: bytes_le(s), len: 8 * s.len() }
}

pub proof fn lemma_bytes_split(s: Seq<u8>, k: nat)
    requires
        k <= s.len(),
    ensures
        bytes_le(s) == bytes_le(s.take(k as int)) + pow2(8 * k) * bytes_le(s.skip(k as int)),
    decreases k,
{
    if k == 0 {
        assert(s.take(0) =~= Seq::<u8>::empty());
        assert(s.skip(0) =~= s);
        assert(bytes_le(s.take(0)) == 0);
        lemma2_to64();
        assert(pow2(8 * k) == 1);
    } else {
        let t = s.drop_first();
        lemma_bytes_split(t, (k - 1) as nat);
        assert(s.take(k as int).drop_first() =~= t.take(k - 1));
        assert(bytes_le(s.take(k as int)) == s[0] as nat + 256 * bytes_le(t.take(k - 1)));
        assert(bytes_le(s) == s[0] as nat + 256 * bytes_le(t));
        assert(s.skip(k as int) =~= t.skip(k - 1));
        lemma_pow2_adds(8, (8 * k - 8) as nat);
        lemma2_to64();
        let a = bytes_le(t.take(k - 1));
        let p = pow2((8 * k - 8) as nat);
        let b = bytes_le(t.skip(k - 1));
        assert(256 * (a + p * b) == 256 * a + (256 * p) * b) by (nonlinear_arith);
        assert(pow2(8 * k) == 256 * p);
        assert(bytes_le(s) == s[0] as nat + 256 * (a + p * b));
        assert(bytes_le(s.skip(k as int)) == b);
        assert(bytes_le(s) == bytes_le(s.take(k as int)) + (256 * p) * b);
    }
}

/// `val = rem + 2^n q` with `rem < 2^n` splits `val` at bit `n`.
pub proof fn lemma_split_at(val: nat, n: nat, q: nat, rem: nat)
    requires
        rem < pow2(n),
        val == rem + pow2(n) * q,
    ensures
        val % pow2(n) == rem,
        val / pow2(n) == q,
{
    lemma_pow2_pos(n);
    assert(pow2(n) * q == q * pow2(n)) by (nonlinear_arith);
    lemma_fundamental_div_mod_converse(val as int, pow2(n) as int, q as int, rem as int);
}

/// Reading `a` bits and then `b` bits reads the same as reading `a + b` bits.
pub proof fn lemma_read_twice(val: nat, a: nat, b: nat)
    ensures
        val % pow2(a + b) == val % pow2(a) + pow2(a) * ((val / pow2(a)) % pow2(b)),
        (val / pow2(a)) / pow2(b) == val / pow2(a + b),
{
    lemma_pow2_pos(a);
    lemma_pow2_pos(b);
    lemma_pow2_adds(a, b);
    lemma_breakdown(val as int, pow2(a) as int, pow2(b) as int);
    lemma_div_denominator(val as int, pow2(a) as int, pow2(b) as int);
}

pub proof fn lemma_pow2_le(a: nat, b: nat)
    requires
        a <= b,
    ensures
        pow2(a) <= pow2(b),
{
    if a < b {
        vstd::arithmetic::power2::lemma_pow2_strictly_increases(a, b);
    }
}

fn pow2_u64(n: usize) -> (r: u64)
    requires
        n < 64,
    ensures
        r as nat == pow2(n as nat),
{
    proof {
        lemma_u64_pow2_no_overflow(n as nat);
        lemma_u64_shl_is_mul(1, n as u64);
    }
    1u64 << (n as u64)
}

/// Reads the bits of a packet, least significant bit of each byte first.
pub struct BitReader {
    data: Vec<u8>,
    byte_pos: usize,
    bit_buf: u64,
    bit_buf_left: usize,
}

impl View for BitReader {
    type V = BitsModel;

    closed spec fn view(&self) -> BitsModel {
        BitsModel {
            val: self.bit_buf as nat + pow2(self.bit_buf_left as nat) * bytes_le(
                self.data@.skip(self.byte_pos as int),
            ),
            len: (self.bit_buf_left + 8 * (self.data@.len() - self.byte_pos)) as nat,
        }
    }
}

impl BitReader {
    /// The reader's internal consistency.
    pub closed spec fn wf(&self) -> bool {
        &&& self.byte_pos <= self.data@.len()
        &&& self.bit_buf_left <= 64
        &&& self.bit_buf < pow2(self.bit_buf_left as nat)
    }

    /// Number of bits held in the buffer, which holds 64 at most.
    pub closed spec fn buffered(&self) -> nat {
        self.bit_buf_left as nat
    }

    pub fn new(data: Vec<u8>) -> (r: Self)
        ensures
            r.wf(),
            r@ == bytes_model(data@),
            r.buffered() == 0,
    {
        let r = BitReader { data, byte_pos: 0, bit_buf: 0, bit_buf_left: 0 };
        proof {
            lemma2_to64();
            assert(r.data@.skip(0) =~= r.data@);
            assert(pow2(0) == 1);
            assert(r@.val == 0 + pow2(0) * bytes_le(r.data@.skip(0)));
            assert(1 * bytes_le(data@) == bytes_le(data@));
            assert(r@.val == bytes_le(data@));
            assert(r@.len == 8 * data@.len());
        }
        r
    }

    /// Loads the next (up to) four bytes into the empty buffer.
    fn fill_bit_buf(&mut self)
        requires
            old(self).wf(),
            old(self).bit_buf_left == 0,
        ensures
            final(self).wf(),
            final(self)@ == old(self)@,
            final(self).bit_buf_left <= 32,
            final(self).bit_buf_left == 0 ==> final(self)@.len == 0,
            final(self)@.len > 0 ==> final(self).bit_buf_left > 0,
            final(self).bit_buf_left < 32 ==> final(self).bit_buf_left == final(self)@.len,
    {
        let remaining = self.data.len() - self.byte_pos;
        let n: usize = if remaining < 4 { remaining } else { 4 };
        let ghost s = self.data@.skip(self.byte_pos as int);
        let mut buf: u64 = 0;
        let mut mult: u64 = 1;
        let mut k: usize = 0;
        let start = self.byte_pos;
        let end = self.byte_pos + n;
        proof {
            lemma2_to64();
            assert(s.take(0) =~= Seq::<u8>::empty());
            assert(bytes_le(Seq::<u8>::empty()) == 0);
        }
        while k < n
            invariant
                n <= 4,
                n <= s.len(),
                s == self.data@.skip(self.byte_pos as int),
                start == self.byte_pos,
                end == start + n,
                end <= self.data@.len(),
                k <= n,
                buf as nat == bytes_le(s.take(k as int)),
                mult as nat == pow2(8 * k as nat),
                buf < mult,
            decreases n - k,
        {
            let b = self.data[start + k];
            proof {
                assert(b == s[k as int]);
                assert(bytes_le(Seq::<u8>::empty()) == 0);
                assert(seq![b].drop_first() =~= Seq::<u8>::empty());
                assert(bytes_le(seq![b]) == b as nat);
                let t = s.take(k + 1);
                lemma_bytes_split(t, k as nat);
                assert(t.take(k as int) =~= s.take(k as int));
                assert(t.skip(k as int) =~= seq![b]);
                assert(seq![b].drop_first() =~= Seq::<u8>::empty());
                lemma_pow2_adds(8 * k as nat, 8);
                lemma_pow2_pos(8 * k as nat);
                lemma2_to64();
                vstd::arithmetic::power2::lemma2_to64_rest();
                assert(pow2(8 * k as nat) <= pow2(24)) by {
                    lemma_pow2_le(8 * k as nat, 24);
                }
                assert(buf + mult * b < mult * 256) by (nonlinear_arith)
                    requires
                        buf < mult,
                        b < 256,
                ;
                assert(mult * 256 <= 0x1_0000_0000) by (nonlinear_arith)
                    requires
                        mult <= 0x100_0000,
                ;
            }
            buf = buf + mult * (b as u64);
            mult = mult * 256;
            k = k + 1;
        }
        proof {
            lemma_bytes_split(s, n as nat);
            assert(s.take(n as int) == s.take(k as int));
            assert(s.skip(n as int) =~= self.data@.skip(self.byte_pos + n));
            assert(s.take(n as int) == s.take(k as int));
            assert(pow2(0) == 1);
            assert(bytes_le(s) == buf as nat + pow2(8 * n as nat) * bytes_le(s.skip(n as int)));
            assert(8 * n as nat == (n * 8) as nat);
        }
        self.bit_buf = buf;
        self.bit_buf_left = n * 8;
        self.byte_pos = self.byte_pos + n;
    }

    /// Moves up to `len` bits from the buffer into `target`, above its `offset` low bits.
    fn read_bit_buf(&mut self, target: &mut u32, offset: usize, len: usize) -> (r: usize)
        requires
            old(self).wf(),
            offset + len <= 32,
            *old(target) < pow2(offset as nat),
        ensures
            final(self).wf(),
            r == (if len <= old(self).bit_buf_left { len } else { old(self).bit_buf_left }),
            final(self).data == old(self).data,
            final(self).byte_pos == old(self).byte_pos,
            final(self).bit_buf_left == old(self).bit_buf_left - r,
            final(self).bit_buf == old(self).bit_buf as nat / pow2(r as nat),
            *final(target) == *old(target) + pow2(offset as nat) * (old(self).bit_buf as nat
                % pow2(r as nat)),
            *final(target) < pow2((offset + r) as nat),
    {
        if len == 0 || self.bit_buf_left == 0 {
            proof {
                lemma2_to64();
                assert(self.bit_buf as nat % 1 == 0);
                assert(*target + pow2(offset as nat) * 0 == *target);
            }
            return 0;
        }
        let can_read = if self.bit_buf_left < len { self.bit_buf_left } else { len };
        let p = pow2_u64(can_read);
        let sh = pow2_u64(offset);
        proof {
            lemma_pow2_pos(can_read as nat);
        }
        let bits = self.bit_buf % p;
        let ghost old_buf = self.bit_buf;
        let ghost old_left = self.bit_buf_left;
        let ghost t = *target;
        proof {
            lemma_pow2_pos(can_read as nat);
            lemma_pow2_adds(offset as nat, can_read as nat);
            lemma2_to64();
            lemma_pow2_le((offset + can_read) as nat, 32);
            assert(t + sh * bits < sh * p) by (nonlinear_arith)
                requires
                    t < sh,
                    bits < p,
            ;
            assert(sh * p == pow2((offset + can_read) as nat));
            assert(sh * p <= 0x1_0000_0000);
            assert(t + bits * sh < 0x1_0000_0000) by (nonlinear_arith)
                requires
                    t + sh * bits < sh * p,
                    sh * p <= 0x1_0000_0000,
            ;
        }
        *target = ((*target as u64) + bits * sh) as u32;
        proof {
            assert(bits * sh == sh * bits) by (nonlinear_arith);
            assert(*target == t + pow2(offset as nat) * (old_buf as nat % pow2(can_read as nat)));
        }
        self.bit_buf = self.bit_buf / p;
        self.bit_buf_left = self.bit_buf_left - can_read;
        proof {
            lemma_pow2_adds(self.bit_buf_left as nat, can_read as nat);
            lemma_pow2_pos(self.bit_buf_left as nat);
            assert(old_left == self.bit_buf_left + can_read);
            assert(old_buf < pow2(old_left as nat));
            assert(pow2(old_left as nat) == pow2(self.bit_buf_left as nat) * pow2(can_read as nat));
            assert(pow2(self.bit_buf_left as nat) * p == p * pow2(self.bit_buf_left as nat)) by (nonlinear_arith);
            assert(old_buf < p * pow2(self.bit_buf_left as nat));
            vstd::arithmetic::div_mod::lemma_multiply_divide_lt(
                old_buf as int,
                p as int,
                pow2(self.bit_buf_left as nat) as int,
            );
        }
        can_read
    }

    /// Reads up to `len_bits` bits: fewer only where the input ends. Returns
    /// the bits as a number and how many were read.
    pub fn try_read_u32_bits(&mut self, len_bits: usize) -> (r: Result<(u32, usize)>)
        requires
            old(self).wf(),
            len_bits <= 32,
        ensures
            final(self).wf(),
            r.is_ok(),
            r.unwrap().1 == avail(old(self)@, len_bits as nat),
            r.unwrap().0 as nat == take_bits(old(self)@, r.unwrap().1 as nat),
            final(self)@ == skip_bits(old(self)@, r.unwrap().1 as nat),
            final(self).buffered() + r.unwrap().1 <= 64,
            old(self).buffered() >= len_bits ==> final(self).buffered() + r.unwrap().1 == old(self).buffered(),
            old(self).buffered() == 0 ==> final(self).buffered() + r.unwrap().1 <= 32,
    {
        proof {
            lemma2_to64();
        }
        if len_bits == 0 {
            proof {
                lemma_skip_zero(self@);
            }
            return Ok((0, 0));
        }
        if self.bit_buf_left == 0 {
            self.fill_bit_buf();
        }
        let ghost m0 = self@;
        let ghost s0 = *self;
        let mut r: u32 = 0;
        let mut read_bits = self.read_bit_buf(&mut r, 0, len_bits);
        proof {
            let q = self@.val;
            {
                lemma_pow2_pos(read_bits as nat);
                lemma_pow2_adds(read_bits as nat, self.bit_buf_left as nat);
                let pr = pow2(read_bits as nat) as int;
                let pl = pow2(self.bit_buf_left as nat) as int;
                let bb = s0.bit_buf as int;
                let bs = bytes_le(self.data@.skip(self.byte_pos as int)) as int;
                vstd::arithmetic::div_mod::lemma_fundamental_div_mod(bb, pr);
                assert(bb % pr + pr * (bb / pr + pl * bs) == bb + (pr * pl) * bs) by (nonlinear_arith)
                    requires
                        bb == pr * (bb / pr) + bb % pr,
                ;
            }
            lemma_split_at(m0.val, read_bits as nat, q, s0.bit_buf as nat % pow2(read_bits as nat));
        }
        if read_bits != 0 && read_bits < len_bits && self.bit_buf_left == 0 {
            let ghost m1 = self@;
            let ghost r1 = r;
            self.fill_bit_buf();
            let ghost s1 = *self;
            let k2 = self.read_bit_buf(&mut r, read_bits, len_bits - read_bits);
            proof {
                let q = self@.val;
                {
                    lemma_pow2_pos(k2 as nat);
                    lemma_pow2_adds(k2 as nat, self.bit_buf_left as nat);
                    let pr = pow2(k2 as nat) as int;
                    let pl = pow2(self.bit_buf_left as nat) as int;
                    let bb = s1.bit_buf as int;
                    let bs = bytes_le(self.data@.skip(self.byte_pos as int)) as int;
                    vstd::arithmetic::div_mod::lemma_fundamental_div_mod(bb, pr);
                    assert(bb % pr + pr * (bb / pr + pl * bs) == bb + (pr * pl) * bs)
                        by (nonlinear_arith)
                        requires
                            bb == pr * (bb / pr) + bb % pr,
                    ;
                }
                lemma_split_at(m1.val, k2 as nat, q, s1.bit_buf as nat % pow2(k2 as nat));
                lemma_read_twice(m0.val, read_bits as nat, k2 as nat);
            }
            read_bits = read_bits + k2;
        }
        Ok((r, read_bits))
    }

    /// Reads exactly `len_bits` bits; fails where the input ends before that.
    pub fn read_u32_bits(&mut self, len_bits: usize) -> (r: Result<u32>)
        requires
            old(self).wf(),
            len_bits <= 32,
        ensures
            final(self).wf(),
            final(self)@ == skip_bits(old(self)@, avail(old(self)@, len_bits as nat)),
            final(self).buffered() + avail(old(self)@, len_bits as nat) <= 64,
            old(self).buffered() >= len_bits ==> final(self).buffered() + len_bits == old(self).buffered(),
            old(self).buffered() == 0 ==> final(self).buffered() + avail(old(self)@, len_bits as nat) <= 32,
            r.is_ok() <==> len_bits <= old(self)@.len,
            r.is_ok() ==> r.unwrap() as nat == take_bits(old(self)@, len_bits as nat),
            r.is_err() ==> r->Err_0 is Io,
    {
        let (v, n) = match self.try_read_u32_bits(len_bits) {
            Ok(p) => p,
            Err(e) => return Err(e),
        };
        if n == len_bits {
            Ok(v)
        } else {
            Err(Error::Io("Couldn't read enough bits"))
        }
    }

    /// Puts the `len_bits` low bits of `bits` back in front of the input.
    pub fn unread_u32_bits(&mut self, bits: u32, len_bits: usize)
        requires
            old(self).wf(),
            len_bits <= 32,
            old(self).buffered() + len_bits <= 64,
        ensures
            final(self).wf(),
            final(self)@ == push_back_bits(old(self)@, bits as nat, len_bits as nat),
            final(self).buffered() == old(self).buffered() + len_bits,
    {
        proof {
            lemma2_to64();
        }
        if len_bits == 0 {
            proof {
                assert(bits as nat % 1 == 0);
                assert(pow2(0) * self@.val == self@.val);
                assert(self@ == push_back_bits(self@, bits as nat, 0));
            }
            return;
        }
        let p = pow2_u64(len_bits);
        let ghost bb = self.bit_buf as int;
        let ghost pl = pow2(self.bit_buf_left as nat) as int;
        let ghost bs = bytes_le(self.data@.skip(self.byte_pos as int)) as int;
        let rem = (bits as u64) % p;
        proof {
            lemma_pow2_pos(len_bits as nat);
            lemma_pow2_adds(self.bit_buf_left as nat, len_bits as nat);
            lemma_pow2_le((self.bit_buf_left + len_bits) as nat, 64);
            assert(bb * p + rem < pl * p) by (nonlinear_arith)
                requires
                    bb < pl,
                    rem < p,
            ;
            assert(pl * p <= 0x1_0000_0000_0000_0000);
            assert(rem + p * (bb + pl * bs) == (bb * p + rem) + (pl * p) * bs) by (nonlinear_arith);
        }
        self.bit_buf = self.bit_buf * p + rem;
        self.bit_buf_left = self.bit_buf_left + len_bits;
    }

    pub fn read_u8_bits(&mut self, len_bits: usize) -> (r: Result<u8>)
        requires
            old(self).wf(),
            len_bits <= 8,
        ensures
            final(self).wf(),
            final(self).buffered() + avail(old(self)@, len_bits as nat) <= 64,
            final(self)@ == skip_bits(old(self)@, avail(old(self)@, len_bits as nat)),
            r.is_ok() <==> len_bits <= old(self)@.len,
            r.is_ok() ==> r.unwrap() as nat == take_bits(old(self)@, len_bits as nat),
            r.is_err() ==> r->Err_0 is Io,
    {
        let v = self.read_u32_bits(len_bits)?;
        proof {
            lemma_pow2_le(len_bits as nat, 8);
            lemma2_to64();
        }
        Ok(v as u8)
    }

    pub fn read_u8(&mut self) -> (r: Result<u8>)
        requires
            old(self).wf(),
        ensures
            final(self).wf(),
            final(self).buffered() + avail(old(self)@, 8) <= 64,
            final(self)@ == skip_bits(old(self)@, avail(old(self)@, 8)),
            r.is_ok() <==> 8 <= old(self)@.len,
            r.is_ok() ==> r.unwrap() as nat == take_bits(old(self)@, 8),
            r.is_err() ==> r->Err_0 is Io,
    {
        self.read_u8_bits(8)
    }

    pub fn read_u16_bits(&mut self, len_bits: usize) -> (r: Result<u16>)
        requires
            old(self).wf(),
            len_bits <= 16,
        ensures
            final(self).wf(),
            final(self).buffered() + avail(old(self)@, len_bits as nat) <= 64,
            final(self)@ == skip_bits(old(self)@, avail(old(self)@, len_bits as nat)),
            r.is_ok() <==> len_bits <= old(self)@.len,
            r.is_ok() ==> r.unwrap() as nat == take_bits(old(self)@, len_bits as nat),
            r.is_err() ==> r->Err_0 is Io,
    {
        let v = self.read_u32_bits(len_bits)?;
        proof {
            lemma_pow2_le(len_bits as nat, 16);
            lemma2_to64();
        }
        Ok(v as u16)
    }

    pub fn read_u16(&mut self) -> (r: Result<u16>)
        requires
            old(self).wf(),
        ensures
            final(self).wf(),
            final(self).buffered() + avail(old(self)@, 16) <= 64,
            final(self)@ == skip_bits(old(self)@, avail(old(self)@, 16)),
            r.is_ok() <==> 16 <= old(self)@.len,
            r.is_ok() ==> r.unwrap() as nat == take_bits(old(self)@, 16),
            r.is_err() ==> r->Err_0 is Io,
    {
        self.read_u16_bits(16)
    }

    pub fn read_u32(&mut self) -> (r: Result<u32>)
        requires
            old(self).wf(),
        ensures
            final(self).wf(),
            final(self).buffered() + avail(old(self)@, 32) <= 64,
            final(self)@ == skip_bits(old(self)@, avail(old(self)@, 32)),
            r.is_ok() <==> 32 <= old(self)@.len,
            r.is_ok() ==> r.unwrap() as nat == take_bits(old(self)@, 32),
            r.is_err() ==> r->Err_0 is Io,
    {
        self.read_u32_bits(32)
    }

    /// Reads one bit.
    pub fn read_bool(&mut self) -> (r: Result<bool>)
        requires
            old(self).wf(),
        ensures
            final(self).wf(),
            final(self).buffered() + avail(old(self)@, 1) <= 64,
            final(self)@ == skip_bits(old(self)@, avail(old(self)@, 1)),
            r.is_ok() <==> 1 <= old(self)@.len,
            r.is_ok() ==> r.unwrap() == (take_bits(old(self)@, 1) == 1),
            r.is_err() ==> r->Err_0 is Io,
    {
        let v = self.read_u8_bits(1)?;
        Ok(v == 1)
    }

    /// Reads a sign-magnitude number: `len_bits - 1` bits of magnitude, then a
    /// sign bit that makes the number negative when set.
    pub fn read_i32_bits(&mut self, len_bits: usize) -> (r: Result<i32>)
        requires
            old(self).wf(),
            1 <= len_bits <= 32,
        ensures
            final(self).wf(),
            r.is_ok() ==> final(self).buffered() + len_bits <= 64,
            r.is_ok() <==> len_bits <= old(self)@.len,
            r.is_ok() ==> r.unwrap() as int == signed_bits(old(self)@, len_bits as nat),
            r.is_ok() ==> final(self)@ == skip_bits(old(self)@, len_bits as nat),
            r.is_err() ==> r->Err_0 is Io,
    {
        let ghost m = self@;
        let u = self.read_u32_bits(len_bits - 1)?;
        let sign = self.read_u32_bits(1)? == 1;
        proof {
            lemma_read_twice(m.val, (len_bits - 1) as nat, 1);
            lemma_pow2_le((len_bits - 1) as nat, 31);
            lemma2_to64();
        }
        if sign {
            Ok(-(u as i32))
        } else {
            Ok(u as i32)
        }
    }

    pub fn read_i32(&mut self) -> (r: Result<i32>)
        requires
            old(self).wf(),
        ensures
            final(self).wf(),
            r.is_ok() ==> final(self).buffered() + 32 <= 64,
            r.is_ok() <==> 32 <= old(self)@.len,
            r.is_ok() ==> r.unwrap() as int == signed_bits(old(self)@, 32),
            r.is_ok() ==> final(self)@ == skip_bits(old(self)@, 32),
            r.is_err() ==> r->Err_0 is Io,
    {
        self.read_i32_bits(32)
    }

    /// Fills `buf` with the next bytes of the input and returns its length.
    pub fn read(&mut self, buf: &mut Vec<u8>) -> (r: Result<usize>)
        requires
            old(self).wf(),
        ensures
            final(self).wf(),
            final(buf)@.len() == old(buf)@.len(),
            r.is_ok() <==> 8 * old(buf)@.len() <= old(self)@.len,
            r.is_ok() ==> r.unwrap() == old(buf)@.len(),
            r.is_ok() ==> bytes_le(final(buf)@) == take_bits(old(self)@, 8 * old(buf)@.len()),
            r.is_ok() ==> final(self)@ == skip_bits(old(self)@, 8 * old(buf)@.len()),
            r.is_ok() && old(buf)@.len() > 0 ==> final(self).buffered() + 8 <= 64,
            r.is_err() ==> r->Err_0 is Io,
    {
        let ghost m0 = self@;
        let n = buf.len();
        let mut i: usize = 0;
        proof {
            lemma2_to64();
            assert(buf@.take(0) =~= Seq::<u8>::empty());
            assert(m0.val % 1 == 0);
            assert(m0.val / 1 == m0.val);
        }
        while i < n
            invariant
                self.wf(),
                i <= n,
                n == buf@.len(),
                n == old(buf)@.len(),
                m0 == old(self)@,
                8 * i <= m0.len,
                bytes_le(buf@.take(i as int)) == take_bits(m0, 8 * i as nat),
                self@ == skip_bits(m0, 8 * i as nat),
                i > 0 ==> self.buffered() + 8 <= 64,
            decreases n - i,
        {
            let b = match self.read_u8() {
                Ok(b) => b,
                Err(e) => {
                    proof {
                        assert(8 * n > m0.len);
                    }
                    return Err(e);
                },
            };
            let ghost before = buf@;
            buf.set(i, b);
            proof {
                let t = buf@.take(i + 1);
                lemma_bytes_split(t, i as nat);
                assert(t.take(i as int) =~= before.take(i as int));
                assert(t.skip(i as int) =~= seq![b]);
                assert(bytes_le(Seq::<u8>::empty()) == 0);
                assert(seq![b].drop_first() =~= Seq::<u8>::empty());
                assert(bytes_le(seq![b]) == b as nat);
                lemma_read_twice(m0.val, 8 * i as nat, 8);
            }
            i = i + 1;
        }
        proof {
            assert(buf@.take(n as int) =~= buf@);
        }
        Ok(n)
    }
}

/// The sign-magnitude number formed by the first `n` bits of `m`.
pub open spec fn signed_bits(m: BitsModel, n: nat) -> int {
    let u = take_bits(m, (n - 1) as nat) as int;
    if take_bits(skip_bits(m, (n - 1) as nat), 1) == 1 {
        -u
    } else {
        u
    }
}

/// Reading `n` bits, pushing them back and reading `n` bits again gives the
/// same value twice, and the push-back restores the input as it was before
/// the first read.
pub proof fn lemma_read_unread_read(m: BitsModel, n: nat)
    requires
        n <= m.len,
    ensures
        ({
            let v = take_bits(m, n);
            let back = push_back_bits(skip_bits(m, n), v, n);
            &&& back == m
            &&& take_bits(back, n) == v
            &&& skip_bits(back, n) == skip_bits(m, n)
        }),
{
    let v = take_bits(m, n);
    lemma_pow2_pos(n);
    vstd::arithmetic::div_mod::lemma_fundamental_div_mod(m.val as int, pow2(n) as int);
    vstd::arithmetic::div_mod::lemma_mod_twice(m.val as int, pow2(n) as int);
    assert(v % pow2(n) + pow2(n) * (m.val / pow2(n)) == m.val);
}

/// The number formed by the `w` bits that start `off` bits into `m`.
pub open spec fn field(m: BitsModel, off: nat, w: nat) -> nat {
    take_bits(skip_bits(m, off), w)
}

/// Skipping `a` bits and then `b` bits skips `a + b` bits.
pub proof fn lemma_skip_skip(m: BitsModel, a: nat, b: nat)
    requires
        a + b <= m.len,
    ensures
        skip_bits(skip_bits(m, a), b) == skip_bits(m, a + b),
{
    lemma_read_twice(m.val, a, b);
}

/// The number that a bit string forms, its first bit least significant.
pub open spec fn bits_val(s: Seq<bool>) -> nat
    decreases s.len(),
{
    if s.len() == 0 {
        0
    } else {
        (if s[0] { 1nat } else { 0nat }) + 2 * bits_val(s.drop_first())
    }
}

/// A bit string written into bytes, least significant bit first, the last
/// byte padded with zeros.
pub open spec fn pack_bits(s: Seq<bool>) -> Seq<u8>
    decreases s.len(),
{
    if s.len() == 0 {
        Seq::empty()
    } else if s.len() <= 8 {
        seq![bits_val(s) as u8]
    } else {
        seq![bits_val(s.take(8)) as u8] + pack_bits(s.skip(8))
    }
}

/// The values of reads of `ns[0]`, `ns[1]`, ... bits from `m`.
pub open spec fn reads(m: BitsModel, ns: Seq<nat>) -> Seq<nat>
    decreases ns.len(),
{
    if ns.len() == 0 {
        Seq::empty()
    } else {
        seq![take_bits(m, ns[0])] + reads(skip_bits(m, ns[0]), ns.drop_first())
    }
}

/// The pieces of `s` of lengths `ns[0]`, `ns[1]`, ..., as numbers.
pub open spec fn pieces(s: Seq<bool>, ns: Seq<nat>) -> Seq<nat>
    decreases ns.len(),
{
    if ns.len() == 0 {
        Seq::empty()
    } else {
        seq![bits_val(s.take(ns[0] as int))] + pieces(s.skip(ns[0] as int), ns.drop_first())
    }
}

/// Sum of the lengths in `ns`.
pub open spec fn total(ns: Seq<nat>) -> nat
    decreases ns.len(),
{
    if ns.len() == 0 {
        0
    } else {
        ns[0] + total(ns.drop_first())
    }
}

pub proof fn lemma_bits_val_bound(s: Seq<bool>)
    ensures
        bits_val(s) < pow2(s.len()),
    decreases s.len(),
{
    lemma2_to64();
    if s.len() > 0 {
        lemma_bits_val_bound(s.drop_first());
        vstd::arithmetic::power2::lemma_pow2_unfold(s.len());
    }
}

/// The first `n` bits of a string and the rest make up its number.
pub proof fn lemma_bits_split(s: Seq<bool>, n: nat)
    requires
        n <= s.len(),
    ensures
        bits_val(s) == bits_val(s.take(n as int)) + pow2(n) * bits_val(s.skip(n as int)),
    decreases n,
{
    lemma2_to64();
    if n == 0 {
        assert(s.take(0) =~= Seq::<bool>::empty());
        assert(s.skip(0) =~= s);
        assert(bits_val(Seq::<bool>::empty()) == 0);
    } else {
        let t = s.drop_first();
        lemma_bits_split(t, (n - 1) as nat);
        assert(s.take(n as int).drop_first() =~= t.take(n - 1));
        assert(s.skip(n as int) =~= t.skip(n - 1));
        vstd::arithmetic::power2::lemma_pow2_unfold(n);
        let a = bits_val(t.take(n - 1));
        let p = pow2((n - 1) as nat);
        let b = bits_val(t.skip(n - 1));
        assert(2 * (a + p * b) == 2 * a + (2 * p) * b) by (nonlinear_arith);
        assert(bits_val(s.take(n as int)) == (if s[0] { 1nat } else { 0nat }) + 2 * a);
    }
}

/// Packing bits into bytes keeps their number.
pub proof fn lemma_pack_value(s: Seq<bool>)
    ensures
        bytes_le(pack_bits(s)) == bits_val(s),
        8 * pack_bits(s).len() >= s.len(),
    decreases s.len(),
{
    lemma2_to64();
    if s.len() == 0 {
    } else if s.len() <= 8 {
        lemma_bits_val_bound(s);
        lemma_pow2_le(s.len(), 8);
        let b = bits_val(s) as u8;
        assert(seq![b].drop_first() =~= Seq::<u8>::empty());
        assert(bytes_le(Seq::<u8>::empty()) == 0);
    } else {
        let head = s.take(8);
        let rest = s.skip(8);
        lemma_pack_value(rest);
        lemma_bits_val_bound(head);
        lemma_bits_split(s, 8);
        let b = bits_val(head) as u8;
        let p = pack_bits(s);
        assert(p == seq![b] + pack_bits(rest));
        assert(p.drop_first() =~= pack_bits(rest));
        assert(p[0] == b);
    }
}

/// A model holding the bits `s` (and maybe more after them) reads them back
/// piece by piece.
pub proof fn lemma_reads_pieces(m: BitsModel, s: Seq<bool>, ns: Seq<nat>)
    requires
        m.val == bits_val(s),
        total(ns) <= s.len(),
    ensures
        reads(m, ns) == pieces(s, ns),
    decreases ns.len(),
{
    if ns.len() > 0 {
        let n = ns[0];
        lemma_bits_split(s, n);
        lemma_bits_val_bound(s.take(n as int));
        lemma_split_at(m.val, n, bits_val(s.skip(n as int)), bits_val(s.take(n as int)));
        lemma_reads_pieces(skip_bits(m, n), s.skip(n as int), ns.drop_first());
    }
}

/// Writing a bit string into bytes, least significant bit first, and reading
/// it back with reads of any lengths gives the pieces of the string, in order.
pub proof fn lemma_round_trip(s: Seq<bool>, ns: Seq<nat>)
    requires
        total(ns) <= s.len(),
    ensures
        reads(bytes_model(pack_bits(s)), ns) == pieces(s, ns),
{
    lemma_pack_value(s);
    lemma_reads_pieces(bytes_model(pack_bits(s)), s, ns);
}

/// Reading a `w`-bit field from `m`: its value and the bits after it;
/// `None` where fewer than `w` bits are left.
pub open spec fn read_field(m: BitsModel, w: nat) -> Option<(nat, BitsModel)> {
    if w <= m.len {
        Some((take_bits(m, w), skip_bits(m, w)))
    } else {
        None
    }
}

/// Reading no bits reads nothing.
pub proof fn lemma_skip_zero(m: BitsModel)
    ensures
        skip_bits(m, 0) == m,
        take_bits(m, 0) == 0,
{
    lemma2_to64();
    assert(pow2(0) == 1);
    assert(m.val / 1 == m.val);
    assert(m.val % 1 == 0);
}

} // verus!

use vstd::prelude::*;
use vstd::arithmetic::power2::{pow2, lemma_pow2_pos, lemma_pow2_adds, lemma_pow2_unfold, lemma2_to64};
use crate::bitstream::{BitReader, BitsModel, take_bits, skip_bits, push_back_bits, avail,
    lemma_read_twice, lemma_pow2_le, lemma_split_at};
use crate::error::{Error, Result};
use crate::util::{Bits, ls_bits};

verus! {

/// Start of the interval of 32-bit strings that begin with the `n.1`-bit code `n.0`.
pub open spec fn lo(n: (nat, nat)) -> nat {
    n.0 * pow2((32 - n.1) as nat)
}

/// End (exclusive) of the interval of 32-bit strings that begin with code `n`.
pub open spec fn hi(n: (nat, nat)) -> nat {
    (n.0 + 1) * pow2((32 - n.1) as nat)
}

/// Two tree nodes `(code, length)` of which neither lies under the other.
pub open spec fn disjoint(a: (nat, nat), b: (nat, nat)) -> bool {
    hi(a) <= lo(b) || hi(b) <= lo(a)
}

/// `a` is a prefix of `b`, both read most significant bit first.
pub open spec fn is_prefix(a: (nat, nat), b: (nat, nat)) -> bool {
    a.1 <= b.1 && b.0 / pow2((b.1 - a.1) as nat) == a.0
}

/// Depth `d` of the allocation state has a free node: the sibling of its last code.
pub open spec fn free_at(cur: Seq<Option<u32>>, d: int) -> bool {
    1 <= d <= 31 && cur[d - 1] is Some && cur[d - 1].unwrap() % 2 == 0
}

/// The free node at depth `d`.
pub open spec fn free_node(cur: Seq<Option<u32>>, d: int) -> (nat, nat) {
    ((cur[d - 1].unwrap() + 1) as nat, d as nat)
}

/// An allocated codeword: its code read most significant bit first, its
/// length, the same code read least significant bit first, and its value.
pub type CodeSpec = (nat, nat, nat, nat);

/// The state of canonical code allocation: the allocated codes and the free
/// nodes are pairwise disjoint nodes of the code tree.
pub open spec fn tree_inv(cur: Seq<Option<u32>>, codes: Seq<(nat, nat)>) -> bool {
    &&& cur.len() == 31
    &&& forall|d: int| 1 <= d <= 31 && #[trigger] cur[d - 1] is Some ==> cur[d - 1].unwrap() < pow2(d as nat)
    &&& forall|d: int| 2 <= d <= 31 && #[trigger] cur[d - 1] is Some ==> cur[d - 2] is Some
    &&& (cur[0] is None ==> codes.len() == 0 && forall|d: int| 1 <= d <= 31 ==> #[trigger] cur[d - 1] is None)
    &&& forall|i: int| 0 <= i < codes.len() ==> 1 <= (#[trigger] codes[i]).1 <= 31 && codes[i].0 < pow2(codes[i].1)
    &&& forall|i: int, j: int| 0 <= i < codes.len() && 0 <= j < codes.len() && i != j ==> disjoint(#[trigger] codes[i], #[trigger] codes[j])
    &&& forall|i: int, d: int| 0 <= i < codes.len() && #[trigger] free_at(cur, d) ==> disjoint(#[trigger] codes[i], free_node(cur, d))
    &&& forall|d1: int, d2: int| #[trigger] free_at(cur, d1) && #[trigger] free_at(cur, d2) && d1 != d2 ==> disjoint(free_node(cur, d1), free_node(cur, d2))
}

/// The tree part `(code, length)` of each allocated codeword.
pub open spec fn tree_codes(codes: Seq<CodeSpec>) -> Seq<(nat, nat)> {
    codes.map_values(|c: CodeSpec| (c.0, c.1))
}

/// The children of a node lie inside it, side by side.
proof fn lemma_children(c: nat, d: nat)
    requires
        d <= 31,
    ensures
        lo((c, d)) == lo((2 * c, d + 1)),
        hi((2 * c, d + 1)) == lo((2 * c + 1, d + 1)),
        hi((2 * c + 1, d + 1)) == hi((c, d)),
        lo((2 * c, d + 1)) < hi((2 * c, d + 1)),
        lo((2 * c + 1, d + 1)) < hi((2 * c + 1, d + 1)),
{
    lemma_pow2_unfold((32 - d) as nat);
    let q = pow2((31 - d) as nat);
    lemma_pow2_pos((31 - d) as nat);
    assert((32 - d) as nat - 1 == (31 - d) as nat);
    assert(c * (2 * q) == (2 * c) * q) by (nonlinear_arith);
    assert((c + 1) * (2 * q) == (2 * c + 1 + 1) * q) by (nonlinear_arith);
    assert((2 * c + 1) * q < (2 * c + 1 + 1) * q) by (nonlinear_arith)
        requires
            q > 0,
    ;
    assert((2 * c) * q < (2 * c + 1) * q) by (nonlinear_arith)
        requires
            q > 0,
    ;
}

/// A node that is disjoint from a parent is disjoint from both its children.
proof fn lemma_child_disjoint(x: (nat, nat), c: nat, d: nat)
    requires
        d <= 31,
        disjoint(x, (c, d)),
    ensures
        disjoint(x, (2 * c, d + 1)),
        disjoint(x, (2 * c + 1, d + 1)),
{
    lemma_children(c, d);
}

/// Nodes of which one is a prefix of the other are not disjoint.
pub proof fn lemma_prefix_not_disjoint(a: (nat, nat), b: (nat, nat))
    requires
        a.1 <= b.1 <= 32,
        is_prefix(a, b),
    ensures
        !disjoint(a, b),
{
    let k = (b.1 - a.1) as nat;
    let pb = pow2((32 - b.1) as nat);
    let pk = pow2(k);
    lemma_pow2_adds(k, (32 - b.1) as nat);
    assert(k + (32 - b.1) as nat == (32 - a.1) as nat);
    lemma_pow2_pos(k);
    lemma_pow2_pos((32 - b.1) as nat);
    let rem = b.0 % pk;
    vstd::arithmetic::div_mod::lemma_fundamental_div_mod(b.0 as int, pk as int);
    assert(b.0 == a.0 * pk + rem);
    assert(lo(a) == a.0 * (pk * pb));
    assert(lo(b) == (a.0 * pk + rem) * pb);
    assert(hi(a) == (a.0 + 1) * (pk * pb));
    assert(hi(b) == (a.0 * pk + rem + 1) * pb);
    assert(a.0 * (pk * pb) <= (a.0 * pk + rem) * pb) by (nonlinear_arith);
    assert((a.0 * pk + rem + 1) * pb <= (a.0 + 1) * (pk * pb)) by (nonlinear_arith)
        requires
            rem < pk,
    ;
    assert((a.0 * pk + rem) * pb < (a.0 * pk + rem + 1) * pb) by (nonlinear_arith)
        requires
            pb > 0,
    ;
}

/// The entries of the direct lookup table.
#[derive(Clone, Copy, Debug)]
pub enum LookupEntry {
    Null,
    Code(CodeValue),
    LongCode,
}

/// A decoded value and the length of its codeword.
#[derive(Clone, Copy, Debug)]
pub struct CodeValue {
    pub value: u32,
    pub len: usize,
}

/// A codeword: `len` bits of `code`.
#[derive(Clone, Copy, Debug)]
pub struct Code {
    pub code: u32,
    pub len: usize,
}

impl Code {
    /// The codeword cut to its `len` first bits, where it is longer.
    pub fn truncate(&self, len: usize) -> (r: Self)
        requires
            len <= 32,
        ensures
            self.len <= len ==> r == *self,
            self.len > len ==> r.len == len && r.code as nat == self.code as nat % pow2(len as nat),
    {
        if self.len <= len {
            *self
        } else {
            Code { code: ls_bits(self.code, len), len }
        }
    }
}

/// A codeword longer than the direct lookup table resolves.
#[derive(Clone, Copy, Debug)]
pub struct LongCode {
    pub sort_key: u32,
    pub code: u32,
    pub value: u32,
    pub len: usize,
}

impl LongCode {
    /// Shifts the sort key left so that it is `len` bits long.
    pub fn pad_sort_key(&mut self, len: usize)
        requires
            old(self).len <= len <= 32,
            old(self).sort_key as nat * pow2((len - old(self).len) as nat) < 0x1_0000_0000,
        ensures
            final(self).sort_key as nat == old(self).sort_key as nat * pow2(
                (len - old(self).len) as nat,
            ),
            final(self).code == old(self).code,
            final(self).value == old(self).value,
            final(self).len == old(self).len,
    {
        let sh = len - self.len;
        proof {
            lemma2_to64();
        }
        if sh == 32 {
            proof {
                assert(self.sort_key == 0) by (nonlinear_arith)
                    requires
                        self.sort_key as nat * pow2(32) < 0x1_0000_0000,
                        pow2(32) == 0x1_0000_0000,
                ;
            }
            return;
        }
        proof {
            vstd::bits::lemma_u32_shl_is_mul(self.sort_key, sh as u32);
        }
        self.sort_key = self.sort_key << (sh as u32);
    }
}

/// Whether the entry of a direct table at `idx` agrees with `codes`.
pub open spec fn entry_ok(codes: Seq<CodeSpec>, e: LookupEntry, idx: nat, len_bits: nat) -> bool {
    match e {
        LookupEntry::Code(cv) => exists|k: int|
            0 <= k < codes.len() && (#[trigger] codes[k]).1 == cv.len && codes[k].3 == cv.value
                && cv.len <= len_bits && idx % pow2(cv.len as nat) == codes[k].2,
        _ => true,
    }
}

/// Whether a long code agrees with `codes`.
pub open spec fn long_ok(codes: Seq<CodeSpec>, lc: LongCode, len_bits: nat) -> bool {
    exists|k: int|
        0 <= k < codes.len() && (#[trigger] codes[k]).1 == lc.len && codes[k].2 == lc.code
            && codes[k].3 == lc.value && lc.len > len_bits
}

/// The direct lookup table, indexed by the next `len_bits` bits of the input.
#[derive(Debug)]
pub struct LookupTable {
    pub entries: Vec<LookupEntry>,
    pub len_bits: usize,
}

impl LookupTable {
    pub fn is_empty(&self) -> (r: bool)
        ensures
            r == (self.len_bits == 0),
    {
        self.len_bits == 0
    }

    /// Writes `entry` at every index whose low `code.len` bits are `code.code`.
    pub fn set(&mut self, code: Code, entry: LookupEntry)
        requires
            code.len <= old(self).len_bits <= 31,
            old(self).entries@.len() == pow2(old(self).len_bits as nat),
            code.code < pow2(code.len as nat),
        ensures
            final(self).len_bits == old(self).len_bits,
            final(self).entries@.len() == old(self).entries@.len(),
            forall|i: int|
                0 <= i < old(self).entries@.len() ==> #[trigger] final(self).entries@[i] == (if i
                    % pow2(code.len as nat) as int == code.code as int {
                    entry
                } else {
                    old(self).entries@[i]
                }),
    {
        proof {
            lemma2_to64();
            lemma_pow2_le(self.len_bits as nat, 31);
            lemma_pow2_le(code.len as nat, 31);
            lemma_pow2_pos(code.len as nat);
            vstd::bits::lemma_usize_pow2_no_overflow(code.len as nat);
            vstd::bits::lemma_usize_shl_is_mul(1, code.len as usize);
        }
        let step: usize = 1usize << code.len;
        let mut index: usize = code.code as usize;
        let n = self.entries.len();
        let ghost old_entries = self.entries@;
        proof {
            vstd::arithmetic::div_mod::lemma_small_mod(code.code as nat, step as nat);
            assert forall|i: int| 0 <= i < n && #[trigger] (i % step as int) == code.code as int implies i >= code.code by {
                vstd::arithmetic::div_mod::lemma_mod_decreases(i as nat, step as nat);
            }
        }
        while index < n
            invariant
                self.len_bits == old(self).len_bits,
                n == self.entries@.len(),
                n == old_entries.len(),
                n <= 0x8000_0000,
                step as nat == pow2(code.len as nat),
                step > 0,
                step <= 0x8000_0000,
                forall|i: int| 0 <= i < n && #[trigger] (i % step as int) == code.code as int ==> i >= code.code,
                index % step == code.code,
                forall|i: int|
                    0 <= i < n ==> #[trigger] self.entries@[i] == (if i % step as int
                        == code.code as int && i < index {
                        entry
                    } else {
                        old_entries[i]
                    }),
                index < n + step,
            decreases n + step - index,
        {
            self.entries.set(index, entry);
            proof {
                vstd::arithmetic::div_mod::lemma_mod_add_multiples_vanish(index as int, step as int);
                assert forall|i: int| 0 <= i < n && #[trigger] (i % step as int) == code.code as int && index < i implies i >= index + step by {
                    lemma_same_residue_apart(i, index as int, step as int);
                }
            }
            index = index + step;
        }
    }
}

/// Decodes Huffman codewords with a direct lookup table and a list of long codes.
pub struct HuffmanDecoder {
    lookup_table: LookupTable,
    long_codes: Vec<LongCode>,
    max_code_len: usize,
    codes: Ghost<Seq<CodeSpec>>,
}

impl HuffmanDecoder {
    /// The length of the longest codeword.
    pub closed spec fn max_len(&self) -> nat {
        self.max_code_len as nat
    }

    /// The codewords this decoder was built from.
    pub closed spec fn codes(&self) -> Seq<CodeSpec> {
        self.codes@
    }

    pub closed spec fn wf(&self) -> bool {
        &&& 1 <= self.lookup_table.len_bits <= 31
        &&& self.lookup_table.entries@.len() == pow2(self.lookup_table.len_bits as nat)
        &&& self.max_code_len <= 31
        &&& forall|i: int|
            0 <= i < self.lookup_table.entries@.len() ==> entry_ok(
                self.codes@,
                #[trigger] self.lookup_table.entries@[i],
                i as nat,
                self.lookup_table.len_bits as nat,
            )
        &&& forall|j: int|
            0 <= j < self.long_codes@.len() ==> long_ok(
                self.codes@,
                #[trigger] self.long_codes@[j],
                self.lookup_table.len_bits as nat,
            )
        &&& forall|k: int| 0 <= k < self.codes@.len() ==> {
            &&& (#[trigger] self.codes@[k]).1 <= self.max_code_len
            &&& self.codes@[k].2 < pow2(self.codes@[k].1)
            &&& self.codes@[k].3 < 0x1_0000_0000
            &&& 1 <= self.codes@[k].1
        }
        &&& lsb_prefix_free(self.codes@)
        &&& table_complete(self.codes@, self.lookup_table.entries@, self.lookup_table.len_bits as nat)
        &&& long_complete(self.codes@, self.long_codes@, self.lookup_table.len_bits as nat)
    }

    /// A builder whose direct table resolves `lookup_table_bits` bits at once.
    pub fn builder(lookup_table_bits: usize) -> (r: HuffmanDecoderBuilder)
        requires
            0 < lookup_table_bits < 32,
        ensures
            r.wf(),
            r.codes() == Seq::<CodeSpec>::empty(),
            r.alloc_state() == Seq::new(31, |i: int| None::<u32>),
            r.longest() == 0,
    {
        proof {
            lemma2_to64();
            vstd::bits::lemma_usize_pow2_no_overflow(lookup_table_bits as nat);
            vstd::bits::lemma_usize_shl_is_mul(1, lookup_table_bits as usize);
        }
        let lookup_table_len: usize = 1usize << lookup_table_bits;
        let lookup_entries: Vec<LookupEntry> = vec![LookupEntry::Null; lookup_table_len];
        let mut cur_codes: Vec<Option<u32>> = Vec::new();
        let mut i: usize = 0;
        while i < 31
            invariant
                i <= 31,
                cur_codes@.len() == i,
                forall|j: int| 0 <= j < i ==> #[trigger] cur_codes@[j] is None,
            decreases 31 - i,
        {
            cur_codes.push(None);
            i = i + 1;
        }
        let r = HuffmanDecoderBuilder {
            lookup_table: LookupTable { entries: lookup_entries, len_bits: lookup_table_bits },
            long_codes: Vec::new(),
            cur_codes,
            max_code_len: 0,
            codes: Ghost(Seq::empty()),
        };
        proof {
            assert(tree_codes(r.codes@) =~= Seq::<(nat, nat)>::empty());
            reveal(table_complete);
            reveal(long_complete);
            assert forall|k: int| 0 <= k < r.lookup_table.entries@.len() implies entry_ok(r.codes@, #[trigger] r.lookup_table.entries@[k], k as nat, r.lookup_table.len_bits as nat) by {}
        }
        r
    }

    /// Decodes one codeword and returns its value. On success the codeword
    /// is one of the codes the decoder was built from, its bits start the
    /// input, and exactly those bits are consumed.
    #[verifier::rlimit(60)]
    pub fn decode(&self, reader: &mut BitReader) -> (r: Result<u32>)
        requires
            self.wf(),
            old(reader).wf(),
        ensures
            final(reader).wf(),
            r.is_err() ==> r->Err_0 is Io || r->Err_0 is Undecodable,
            r.is_ok() ==> exists|k: int|
                0 <= k < self.codes().len() && (#[trigger] self.codes()[k]).3 == r.unwrap()
                    && self.codes()[k].1 <= old(reader)@.len
                    && take_bits(old(reader)@, self.codes()[k].1) == self.codes()[k].2
                    && final(reader)@ == skip_bits(old(reader)@, self.codes()[k].1),
            old(reader)@.len == 0 ==> r.is_err() && r->Err_0 is Io,
            r.is_err() && r->Err_0 is Io ==> old(reader)@.len < self.max_len() || self.codes().len() == 0,
            r.is_err() && old(reader)@.len >= self.max_len() && self.codes().len() > 0 ==> r->Err_0 is Undecodable,
            r.is_ok() ==> forall|k: int|
                0 <= k < self.codes().len() && (#[trigger] self.codes()[k]).1 <= old(reader)@.len
                    && take_bits(old(reader)@, self.codes()[k].1) == self.codes()[k].2 ==> r.unwrap()
                    == self.codes()[k].3 && final(reader)@ == skip_bits(old(reader)@, self.codes()[k].1),
            r.is_ok() <==> (exists|k: int|
                0 <= k < self.codes().len() && (#[trigger] self.codes()[k]).1 <= old(reader)@.len
                    && take_bits(old(reader)@, self.codes()[k].1) == self.codes()[k].2),
    {
        let ghost m = reader@;
        let ghost starts = exists|k: int|
            0 <= k < self.codes@.len() && (#[trigger] self.codes@[k]).1 <= m.len
                && take_bits(m, self.codes@[k].1) == self.codes@[k].2;
        let ghost ks: int = if starts {
            choose|k: int|
                0 <= k < self.codes@.len() && (#[trigger] self.codes@[k]).1 <= m.len
                    && take_bits(m, self.codes@[k].1) == self.codes@[k].2
        } else {
            0
        };
        let len_bits = self.lookup_table.len_bits;
        let lookup_len_bits = if self.max_code_len < len_bits {
            self.max_code_len
        } else {
            len_bits
        };
        let (mut code_bits, mut read) = reader.try_read_u32_bits(lookup_len_bits)?;
        proof {
            if starts {
                assert(1 <= self.codes@[ks].1 <= self.max_code_len);
            }
        }
        if read == 0 {
            proof {
                if self.codes@.len() > 0 {
                    assert(1 <= self.codes@[0].1 <= self.max_code_len);
                }
            }
            return Err(Error::Io("Unexpected EOF while reading Huffman code"));
        }
        proof {
            lemma_pow2_le(read as nat, len_bits as nat);
            lemma_pow2_pos(read as nat);
            vstd::arithmetic::div_mod::lemma_mod_bound(m.val as int, pow2(read as nat) as int);
        }
        let entry = self.lookup_table.entries[code_bits as usize];
        proof {
            assert(entry_ok(self.codes@, self.lookup_table.entries@[code_bits as int], code_bits as nat, len_bits as nat));
            if starts {
                let ck = self.codes@[ks];
                reveal(table_complete);
                assert(table_complete(self.codes@, self.lookup_table.entries@, len_bits as nat));
                if ck.1 <= len_bits {
                    assert(ck.1 <= read);
                    lemma_mod_mod_pow2(m.val, read as nat, ck.1);
                    assert((code_bits as nat) % pow2(ck.1) == ck.2);
                    assert(entry == LookupEntry::Code(CodeValue { value: ck.3 as u32, len: ck.1 as usize }));
                } else {
                    assert(read == len_bits);
                    lemma_mod_mod_pow2(m.val, ck.1, len_bits as nat);
                    assert(code_bits as nat == ck.2 % pow2(len_bits as nat));
                    assert(entry is LongCode);
                }
            }
        }
        let ghost read1 = read;
        let ghost mut kk: int = 0;
        let code = match entry {
            LookupEntry::Code(code) => {
                proof {
                    kk = choose|k: int|
                        0 <= k < self.codes@.len() && (#[trigger] self.codes@[k]).1 == code.len && self.codes@[k].3 == code.value
                            && code.len <= len_bits && code_bits as nat % pow2(code.len as nat) == self.codes@[k].2;
                }
                code
            },
            LookupEntry::LongCode => {
                let (b2, k2) = reader.try_read_u32_bits(self.max_code_len - lookup_len_bits)?;
                proof {
                    lemma_read_twice(m.val, read as nat, k2 as nat);
                    lemma_pow2_adds(read as nat, k2 as nat);
                    lemma_pow2_le((read + k2) as nat, 31);
                    lemma2_to64();
                }
                let p = pow2_u32(read);
                proof {
                    assert(p * b2 == b2 * p) by (nonlinear_arith);
                    assert(code_bits + b2 * p < 0x8000_0000);
                }
                code_bits = code_bits + b2 * p;
                read = read + k2;
                proof {
                    assert(b2 * p == p * b2) by (nonlinear_arith);
                    crate::bitstream::lemma_skip_skip(m, read1 as nat, k2 as nat);
                }
                proof {
                    if starts {
                        let ck = self.codes@[ks];
                        assert(ck.1 > len_bits);
                        assert(ck.1 <= read);
                        lemma_mod_mod_pow2(m.val, read as nat, ck.1);
                        reveal(long_complete);
                        assert(long_complete(self.codes@, self.long_codes@, len_bits as nat));
                        let j = choose|j: int|
                            0 <= j < self.long_codes@.len() && (#[trigger] self.long_codes@[j]).code == ck.2
                                && self.long_codes@[j].len == ck.1 && self.long_codes@[j].value == ck.3;
                        assert(self.long_codes@[j].len <= read && self.long_codes@[j].code as nat == code_bits as nat % pow2(self.long_codes@[j].len as nat));
                    }
                }
                let c = self.find_long_code(code_bits, read)?;
                proof {
                    kk = choose|k: int|
                        0 <= k < self.codes@.len() && (#[trigger] self.codes@[k]).1 == c.len
                            && self.codes@[k].3 == c.value && self.codes@[k].2 == code_bits as nat % pow2(c.len as nat);
                }
                c
            },
            LookupEntry::Null => {
                proof {
                    assert(!starts);
                }
                return Err(Error::Undecodable("Matched a null Huffman code entry"));
            },
        };
        proof {
            lemma_pow2_le(read as nat, 31);
            assert(code_bits as nat == take_bits(m, read as nat));
            assert(reader@ == skip_bits(m, read as nat));
        }
        if code.len < read {
            let unread_len = read - code.len;
            let unread_bits = code_bits >> (code.len as u32);
            proof {
                vstd::bits::lemma_u32_shr_is_div(code_bits, code.len as u32);
                lemma_pushed_back(m, code.len as nat, read as nat);
            }
            reader.unread_u32_bits(unread_bits, unread_len);
        } else if code.len > read {
            proof {
                assert(!starts);
                assert(code.len <= lookup_len_bits);
                assert(read as nat == m.len);
            }
            return Err(Error::Io("Incomplete Huffman code"));
        }
        proof {
            let k = kk;
            lemma_mod_mod_pow2(m.val, read as nat, code.len as nat);
            assert(take_bits(m, self.codes@[k].1) == self.codes@[k].2);
            assert(reader@ == skip_bits(m, self.codes@[k].1));
            assert(0 <= k < self.codes().len() && self.codes()[k].3 == code.value
                && self.codes()[k].1 <= m.len
                && take_bits(m, self.codes()[k].1) == self.codes()[k].2
                && reader@ == skip_bits(m, self.codes()[k].1));
            assert forall|j: int|
                0 <= j < self.codes().len() && (#[trigger] self.codes()[j]).1 <= m.len
                    && take_bits(m, self.codes()[j].1) == self.codes()[j].2 implies code.value
                    == self.codes()[j].3 && reader@ == skip_bits(m, self.codes()[j].1) by {
                if j != k {
                    let cj = self.codes@[j];
                    let ck = self.codes@[k];
                    if cj.1 <= ck.1 {
                        lemma_mod_mod_pow2(m.val, ck.1, cj.1);
                        assert(ck.2 % pow2(cj.1) == cj.2);
                    } else {
                        lemma_mod_mod_pow2(m.val, cj.1, ck.1);
                        assert(cj.2 % pow2(ck.1) == ck.2);
                    }
                }
            }
        }
        Ok(code.value)
    }

    /// The first long code whose bits start `bits` (of which `len` are known).
    fn find_long_code(&self, bits: u32, len: usize) -> (r: Result<CodeValue>)
        requires
            self.wf(),
            len <= 31,
        ensures
            r.is_err() ==> r->Err_0 is Undecodable,
            (exists|j: int|
                0 <= j < self.long_codes@.len() && (#[trigger] self.long_codes@[j]).len <= len
                    && self.long_codes@[j].code as nat == bits as nat % pow2(self.long_codes@[j].len as nat)) ==> r.is_ok(),
            r.is_ok() ==> r.unwrap().len <= len && r.unwrap().len > self.lookup_table.len_bits
                && exists|k: int|
                0 <= k < self.codes@.len() && (#[trigger] self.codes@[k]).1 == r.unwrap().len
                    && self.codes@[k].3 == r.unwrap().value && self.codes@[k].2 == bits as nat
                    % pow2(r.unwrap().len as nat),
    {
        let n = self.long_codes.len();
        let mut j: usize = 0;
        while j < n
            invariant
                n == self.long_codes@.len(),
                self.wf(),
                len <= 31,
                j <= n,
                forall|i: int| 0 <= i < j ==> !((#[trigger] self.long_codes@[i]).len <= len
                    && self.long_codes@[i].code as nat == bits as nat % pow2(self.long_codes@[i].len as nat)),
            decreases n - j,
        {
            let lc = self.long_codes[j];
            proof {
                assert(long_ok(self.codes@, self.long_codes@[j as int], self.lookup_table.len_bits as nat));
                let k = choose|k: int|
                    0 <= k < self.codes@.len() && (#[trigger] self.codes@[k]).1 == lc.len && self.codes@[k].2 == lc.code
                        && self.codes@[k].3 == lc.value && lc.len > self.lookup_table.len_bits;
                assert(self.codes@[k].2 < pow2(lc.len as nat));
                vstd::arithmetic::div_mod::lemma_small_mod(lc.code as nat, pow2(lc.len as nat));
            }
            if lc.len <= len && ls_bits(lc.code, lc.len) == ls_bits(bits, lc.len) {
                proof {
                    let k = choose|k: int|
                        0 <= k < self.codes@.len() && (#[trigger] self.codes@[k]).1 == lc.len && self.codes@[k].2 == lc.code
                            && self.codes@[k].3 == lc.value && lc.len > self.lookup_table.len_bits;
                    assert(self.codes@[k].2 < pow2(lc.len as nat));
                    vstd::arithmetic::div_mod::lemma_small_mod(lc.code as nat, pow2(lc.len as nat));
                }
                return Ok(CodeValue { value: lc.value, len: lc.len });
            }
            j = j + 1;
        }
        Err(Error::Undecodable("Incomplete or unknown Huffman code"))
    }
}

/// Two numbers with the same residue modulo `step` are at least `step` apart.
proof fn lemma_same_residue_apart(i: int, j: int, step: int)
    requires
        step > 0,
        0 <= j < i,
        i % step == j % step,
    ensures
        i >= j + step,
{
    vstd::arithmetic::div_mod::lemma_fundamental_div_mod(i, step);
    vstd::arithmetic::div_mod::lemma_fundamental_div_mod(j, step);
    let q = i / step - j / step;
    vstd::arithmetic::mul::lemma_mul_is_distributive_sub(step, i / step, j / step);
    assert(step * q == i - j);
    assert(q >= 1) by (nonlinear_arith)
        requires
            step * q == i - j,
            i - j > 0,
            step > 0,
    ;
    assert(step * q >= step) by (nonlinear_arith)
        requires
            q >= 1,
            step > 0,
    ;
}

/// `x mod 2^a mod 2^b` is `x mod 2^b` for `b <= a`.
proof fn lemma_mod_mod_pow2(x: nat, a: nat, b: nat)
    requires
        b <= a,
    ensures
        (x % pow2(a)) % pow2(b) == x % pow2(b),
{
    lemma_read_twice(x, b, (a - b) as nat);
    lemma_pow2_pos(b);
    lemma_pow2_pos((a - b) as nat);
    let r = (x / pow2(b)) % pow2((a - b) as nat);
    vstd::arithmetic::div_mod::lemma_mod_bound(x as int, pow2(b) as int);
    lemma_split_at(x % pow2(a), b, r, x % pow2(b));
}

/// Putting back the bits of a read beyond its first `len` leaves the input
/// as if only `len` bits had been read.
proof fn lemma_pushed_back(m: BitsModel, len: nat, read: nat)
    requires
        len <= read <= m.len,
    ensures
        push_back_bits(skip_bits(m, read), take_bits(m, read) / pow2(len), (read - len) as nat)
            == skip_bits(m, len),
{
    let d = (read - len) as nat;
    lemma_read_twice(m.val, len, d);
    lemma_pow2_pos(len);
    lemma_pow2_pos(d);
    let low = m.val % pow2(len);
    let mid = (m.val / pow2(len)) % pow2(d);
    vstd::arithmetic::div_mod::lemma_mod_bound(m.val as int, pow2(len) as int);
    lemma_split_at(m.val % pow2(read), len, mid, low);
    vstd::arithmetic::div_mod::lemma_mod_twice((m.val / pow2(len)) as int, pow2(d) as int);
    vstd::arithmetic::div_mod::lemma_fundamental_div_mod((m.val / pow2(len)) as int, pow2(d) as int);
}

fn pow2_u32(n: usize) -> (r: u32)
    requires
        n < 32,
    ensures
        r as nat == pow2(n as nat),
{
    proof {
        vstd::bits::lemma_u32_pow2_no_overflow(n as nat);
        vstd::bits::lemma_u32_shl_is_mul(1, n as u32);
    }
    1u32 << (n as u32)
}

/// Builds a [`HuffmanDecoder`] from codeword lengths given in order.
pub struct HuffmanDecoderBuilder {
    lookup_table: LookupTable,
    long_codes: Vec<LongCode>,
    /// Current lowest codes for each code length (length 1 is at index 0).
    cur_codes: Vec<Option<u32>>,
    max_code_len: usize,
    codes: Ghost<Seq<CodeSpec>>,
}

impl HuffmanDecoderBuilder {
    /// The allocation state: the last code given out at each length.
    pub closed spec fn alloc_state(&self) -> Seq<Option<u32>> {
        self.cur_codes@
    }

    /// The codewords allocated so far.
    pub closed spec fn codes(&self) -> Seq<CodeSpec> {
        self.codes@
    }

    pub closed spec fn wf(&self) -> bool {
        &&& tree_inv(self.cur_codes@, tree_codes(self.codes@))
        &&& 1 <= self.lookup_table.len_bits <= 31
        &&& self.lookup_table.entries@.len() == pow2(self.lookup_table.len_bits as nat)
        &&& self.max_code_len <= 31
        &&& forall|i: int|
            0 <= i < self.lookup_table.entries@.len() ==> entry_ok(
                self.codes@,
                #[trigger] self.lookup_table.entries@[i],
                i as nat,
                self.lookup_table.len_bits as nat,
            )
        &&& forall|j: int|
            0 <= j < self.long_codes@.len() ==> long_ok(
                self.codes@,
                #[trigger] self.long_codes@[j],
                self.lookup_table.len_bits as nat,
            ) && self.long_codes@[j].sort_key < pow2(self.long_codes@[j].len as nat)
              && self.long_codes@[j].len <= self.max_code_len
        &&& forall|k: int| 0 <= k < self.codes@.len() ==> {
            &&& (#[trigger] self.codes@[k]).1 <= self.max_code_len
            &&& self.codes@[k].2 < pow2(self.codes@[k].1)
            &&& self.codes@[k].2 == rev_code(self.codes@[k].0 as u32, self.codes@[k].1 as u32) as nat
            &&& self.codes@[k].3 < 0x1_0000_0000
        }
        &&& lsb_prefix_free(self.codes@)
        &&& table_complete(self.codes@, self.lookup_table.entries@, self.lookup_table.len_bits as nat)
        &&& long_complete(self.codes@, self.long_codes@, self.lookup_table.len_bits as nat)
    }

    /// The longest code length allocated so far, as a specification.
    pub closed spec fn longest(&self) -> usize {
        self.max_code_len
    }

    /// The longest code length allocated so far.
    pub fn max_code_len(&self) -> (r: usize)
        ensures
            r == self.longest(),
    {
        self.max_code_len
    }

    /// Allocates the next canonical code of length `len` (1 to 31), read most
    /// significant bit first. Fails when no code of that length is left.
    pub fn next_code(&mut self, len: usize) -> (r: Result<u32>)
        requires
            old(self).wf(),
            1 <= len <= 31,
        ensures
            final(self).wf(),
            final(self).codes() == old(self).codes(),
            r.is_ok() ==> r.unwrap() < pow2(len as nat),
            r.is_ok() ==> tree_inv(
                final(self).alloc_state(),
                tree_codes(old(self).codes()).push((r.unwrap() as nat, len as nat)),
            ),
            r.is_err() <==> (old(self).alloc_state()[0] is Some && forall|d: int|
                1 <= d <= len ==> !#[trigger] free_at(old(self).alloc_state(), d)),
            r.is_err() ==> r->Err_0 is Undecodable,
            r.is_ok() <==> next_canonical(old(self).alloc_state(), len as nat) is Some,
            r.is_ok() ==> next_canonical(old(self).alloc_state(), len as nat) == Some((r.unwrap(), final(self).alloc_state())),
            r.is_ok() ==> final(self).longest() == (if len > old(self).longest() { len } else { old(self).longest() }),
            r.is_err() ==> final(self).alloc_state() == old(self).alloc_state() && final(self).longest() == old(self).longest(),
    {
        let ghost t = tree_codes(self.codes@);
        let r = next_code_in(&mut self.cur_codes, len, Ghost(t))?;
        proof {
            let t2 = t.push((r as nat, len as nat));
            assert(t2[t.len() as int] == (r as nat, len as nat));
            lemma_tree_drop_last(self.cur_codes@, t, (r as nat, len as nat));
        }
        if len > self.max_code_len {
            self.max_code_len = len;
        }
        Ok(r)
    }

    /// Allocates a code of length `len` for `value` and enters it in the tables.
    pub fn create_code(&mut self, value: u32, len: usize) -> (r: Result<()>)
        requires
            old(self).wf(),
        ensures
            final(self).wf(),
            r.is_ok() ==> final(self).codes().len() == old(self).codes().len() + 1
                && final(self).codes().take(old(self).codes().len() as int) == old(self).codes()
                && final(self).codes().last().1 == len && final(self).codes().last().3 == value,
            r.is_err() ==> final(self).codes() == old(self).codes(),
            (1 <= len <= 31 && r.is_err()) <==> (1 <= len <= 31 && old(self).alloc_state()[0] is Some
                && forall|d: int| 1 <= d <= len ==> !#[trigger] free_at(old(self).alloc_state(), d)),
            r.is_ok() <==> next_canonical(old(self).alloc_state(), len as nat) is Some,
            r.is_ok() ==> ({
                let (code, state) = next_canonical(old(self).alloc_state(), len as nat).unwrap();
                &&& final(self).alloc_state() == state
                &&& final(self).codes().last() == (code as nat, len as nat, rev_code(code, len as u32) as nat, value as nat)
            }),
            r.is_err() ==> r->Err_0 is Undecodable && final(self).alloc_state() == old(self).alloc_state(),
    {
        if len == 0 || len > 31 {
            return Err(Error::Undecodable("Invalid Huffman code length"));
        }
        let ghost t = tree_codes(self.codes@);
        let ghost old_codes = self.codes@;
        let code_straight = next_code_in(&mut self.cur_codes, len, Ghost(t))?;
        proof {
            let t2 = t.push((code_straight as nat, len as nat));
            assert(t2[t.len() as int] == (code_straight as nat, len as nat));
            assert(code_straight < pow2(len as nat));
        }
        if len > self.max_code_len {
            self.max_code_len = len;
        }
        let rev = Bits::reverse_bits(code_straight);
        let code = rev >> ((32 - len) as u32);
        proof {
            lemma2_to64();
            vstd::bits::lemma_u32_shr_is_div(rev, (32 - len) as u32);
            lemma_pow2_adds(len as nat, (32 - len) as nat);
            assert(len as nat + (32 - len) as nat == 32);
            assert(pow2((32 - len) as nat) * pow2(len as nat) == pow2(len as nat) * pow2((32 - len) as nat)) by (nonlinear_arith);
            assert(rev < pow2((32 - len) as nat) * pow2(len as nat));
            lemma_pow2_pos((32 - len) as nat);
            vstd::arithmetic::div_mod::lemma_multiply_divide_lt(
                rev as int,
                pow2((32 - len) as nat) as int,
                pow2(len as nat) as int,
            );
        }
        let ghost spec_code: CodeSpec = (code_straight as nat, len as nat, code as nat, value as nat);
        proof {
            self.codes = Ghost(old_codes.push(spec_code));
            assert(tree_codes(self.codes@) =~= t.push((code_straight as nat, len as nat)));
        }
        let len_bits = self.lookup_table.len_bits;
        let cv = CodeValue { value, len };
        let ghost entries0 = self.lookup_table.entries@;
        if len <= len_bits {
            self.lookup_table.set(Code { code, len }, LookupEntry::Code(cv));
        } else {
            let c = Code { code, len }.truncate(len_bits);
            proof {
                lemma_pow2_pos(len_bits as nat);
                vstd::arithmetic::div_mod::lemma_mod_bound(code as int, pow2(len_bits as nat) as int);
            }
            self.lookup_table.set(c, LookupEntry::LongCode);
            self.long_codes.push(LongCode { sort_key: code_straight, code, value, len });
        }
        proof {
            let codes = self.codes@;
            let k = old_codes.len() as int;
            assert(codes[k] == spec_code);
            assert forall|i: int| 0 <= i < self.lookup_table.entries@.len() implies entry_ok(
                codes,
                #[trigger] self.lookup_table.entries@[i],
                i as nat,
                len_bits as nat,
            ) by {
                if self.lookup_table.entries@[i] == entries0[i] {
                    assert(entry_ok(old_codes, entries0[i], i as nat, len_bits as nat));
                    lemma_entry_ok_grow(old_codes, spec_code, entries0[i], i as nat, len_bits as nat);
                } else if len <= len_bits {
                    assert(codes[k].1 == cv.len && codes[k].3 == cv.value && (i as nat) % pow2(cv.len as nat) == codes[k].2);
                }
            }
            assert forall|j: int| 0 <= j < self.long_codes@.len() implies long_ok(
                codes,
                #[trigger] self.long_codes@[j],
                len_bits as nat,
            ) && self.long_codes@[j].sort_key < pow2(self.long_codes@[j].len as nat)
              && self.long_codes@[j].len <= self.max_code_len by {
                if j < old(self).long_codes@.len() {
                    assert(self.long_codes@[j] == old(self).long_codes@[j]);
                    assert(long_ok(old_codes, old(self).long_codes@[j], len_bits as nat));
                    lemma_long_ok_grow(old_codes, spec_code, self.long_codes@[j], len_bits as nat);
                } else {
                    assert(codes[k].1 == len && codes[k].2 == code && codes[k].3 == value);
                }
            }
            assert(self.codes@.take(old_codes.len() as int) =~= old_codes);
            // The new codeword is read least significant bit first.
            assert(code == rev_code(code_straight, len as u32));
            let t2 = t.push((code_straight as nat, len as nat));
            assert forall|j: int, kk: int| 0 <= j < codes.len() && 0 <= kk < codes.len() && j != kk && codes[j].1 <= codes[kk].1
                implies #[trigger] codes[kk].2 % pow2(#[trigger] codes[j].1) != codes[j].2 by {
                if j < k && kk < k {
                    assert(codes[j] == old_codes[j] && codes[kk] == old_codes[kk]);
                } else {
                    assert(t2[j] == (codes[j].0, codes[j].1));
                    assert(t2[kk] == (codes[kk].0, codes[kk].1));
                    assert(disjoint(t2[j], t2[kk]));
                    if j < k {
                        assert(codes[j] == old_codes[j]);
                    } else {
                        assert(codes[kk] == old_codes[kk]);
                    }
                    lemma_lsb_pair(codes[j].0, codes[j].1, codes[kk].0, codes[kk].1);
                }
            }
            assert forall|i: int| 0 <= i < entries0.len() implies #[trigger] self.lookup_table.entries@[i] == (if spec_code.1 <= len_bits && (i as nat) % pow2(spec_code.1) == spec_code.2 {
                LookupEntry::Code(CodeValue { value: spec_code.3 as u32, len: spec_code.1 as usize })
            } else if spec_code.1 > len_bits && (i as nat) == spec_code.2 % pow2(len_bits as nat) {
                LookupEntry::LongCode
            } else {
                entries0[i]
            }) by {
                if len > len_bits {
                    vstd::arithmetic::div_mod::lemma_small_mod(i as nat, pow2(len_bits as nat));
                }
            }
            lemma_table_grow(old_codes, spec_code, entries0, self.lookup_table.entries@, len_bits as nat);
            if len > len_bits {
                assert(self.long_codes@ == old(self).long_codes@.push(LongCode { sort_key: code_straight, code, value, len }));
                assert(self.long_codes@.drop_last() =~= old(self).long_codes@);
                assert(self.long_codes@.last().code == spec_code.2);
            } else {
                assert(self.long_codes@ == old(self).long_codes@);
            }
            lemma_long_complete_push(old_codes, spec_code, old(self).long_codes@, self.long_codes@, len_bits as nat);
        }
        Ok(())
    }

    /// The finished decoder, with long codes ordered by their padded codes.
    pub fn build(self) -> (r: HuffmanDecoder)
        requires
            self.wf(),
        ensures
            r.wf(),
            r.codes() == self.codes(),
    {
        let ghost lc0 = self.long_codes@;
        proof {
            reveal(long_complete);
            assert forall|k: int| 0 <= k < self.codes@.len() implies 1 <= (#[trigger] self.codes@[k]).1 by {
                assert(tree_codes(self.codes@)[k] == (self.codes@[k].0, self.codes@[k].1));
            }
            assert forall|j: int| 0 <= j < lc0.len() implies long_ok(self.codes@, #[trigger] lc0[j], self.lookup_table.len_bits as nat)
                && lc0[j].sort_key < pow2(lc0[j].len as nat) && lc0[j].len <= self.max_code_len by {
                assert(lc0[j] == self.long_codes@[j]);
            }
        }
        let HuffmanDecoderBuilder { lookup_table, long_codes, cur_codes, max_code_len, codes } = self;
        proof {
            assert(long_codes@ == lc0);
        }
        let len_bits = lookup_table.len_bits;
        let mut long_codes = long_codes;
        pad_sort_keys(&mut long_codes, max_code_len);
        let ghost padded = long_codes@;
        let order = sort_by_sort_key(&mut long_codes);
        proof {
            let (perm, inv) = order@;
            assert forall|j: int| 0 <= j < long_codes@.len() implies long_ok(codes@, #[trigger] long_codes@[j], len_bits as nat) by {
                let j0 = perm[j];
                assert(same_fields(padded[j0], long_codes@[j]));
                assert(same_fields(lc0[j0], padded[j0]));
                assert(long_ok(codes@, lc0[j0], len_bits as nat));
                let k = choose|k: int|
                    0 <= k < codes@.len() && (#[trigger] codes@[k]).1 == lc0[j0].len && codes@[k].2 == lc0[j0].code
                        && codes@[k].3 == lc0[j0].value && lc0[j0].len > len_bits;
            }
            assert forall|k: int| 0 <= k < codes@.len() && (#[trigger] codes@[k]).1 > len_bits implies exists|j: int|
                0 <= j < long_codes@.len() && (#[trigger] long_codes@[j]).code == codes@[k].2 && long_codes@[j].len
                    == codes@[k].1 && long_codes@[j].value == codes@[k].3 by {
                let j0 = choose|j0: int|
                    0 <= j0 < lc0.len() && (#[trigger] lc0[j0]).code == codes@[k].2 && lc0[j0].len
                        == codes@[k].1 && lc0[j0].value == codes@[k].3;
                assert(same_fields(lc0[j0], padded[j0]));
                let j1 = inv[j0];
                assert(same_fields(padded[j0], long_codes@[j1]));
                assert(long_codes@[j1].code == codes@[k].2);
            }
        }
        HuffmanDecoder { lookup_table, long_codes, max_code_len, codes }
    }
}

/// The canonical allocation of the next code of length `len` from the
/// allocation state `cur` (the last code given out at each length): the
/// code, read most significant bit first, and the new state; `None` where
/// no code of that length is left. The next code of a length is the last
/// one plus one where that is even; otherwise a code one bit shorter is
/// taken and extended by a zero bit.
pub open spec fn next_canonical(cur: Seq<Option<u32>>, len: nat) -> Option<(u32, Seq<Option<u32>>)>
    decreases len,
{
    if len == 0 || len > 31 {
        None
    } else {
        let idx = (len - 1) as nat;
        match cur[idx as int] {
            Some(c) if c % 2 == 0 => Some(((c + 1) as u32, cur.update(idx as int, Some((c + 1) as u32)))),
            Some(c) if len == 1 => None,
            None if len == 1 => Some((0u32, cur.update(0, Some(0u32)))),
            _ => match next_canonical(cur, idx) {
                Some((r1, c1)) => Some(((r1 * 2) as u32, c1.update(idx as int, Some((r1 * 2) as u32)))),
                None => None,
            },
        }
    }
}

/// Allocates the next code of length `len` in the allocation state `cur`,
/// where `codes` are the nodes allocated so far.
fn next_code_in(cur: &mut Vec<Option<u32>>, len: usize, Ghost(codes): Ghost<Seq<(nat, nat)>>) -> (r: Result<u32>)
    requires
        tree_inv(old(cur)@, codes),
        1 <= len <= 31,
    ensures
        r.is_err() <==> (old(cur)@[0] is Some && forall|d: int| 1 <= d <= len ==> !#[trigger] free_at(old(cur)@, d)),
        r.is_err() ==> final(cur)@ == old(cur)@ && r->Err_0 is Undecodable,
        r.is_ok() ==> tree_inv(final(cur)@, codes.push((r.unwrap() as nat, len as nat))),
        r.is_ok() ==> final(cur)@[len - 1] is Some,
        r.is_ok() ==> forall|d: int| len < d <= 31 ==> #[trigger] final(cur)@[d - 1] == old(cur)@[d - 1],
        r.is_ok() <==> next_canonical(old(cur)@, len as nat) is Some,
        r.is_ok() ==> next_canonical(old(cur)@, len as nat) == Some((r.unwrap(), final(cur)@)),
    decreases len,
{
    let idx = len - 1;
    let cur_code = cur[idx];
    proof {
        lemma2_to64();
    }
    match cur_code {
        None => {
            if idx > 0 {
                let r1 = next_code_in(cur, idx, Ghost(codes))?;
                proof {
                    lemma_pow2_unfold(len as nat);
                    lemma_pow2_le(idx as nat, 30);
                    assert(!free_at(cur@, len as int));
                    assert(cur@[len - 2] is Some);
                    lemma_split_node(cur@, codes, r1 as nat, len as nat);
                }
                let r = r1 * 2;
                cur.set(idx, Some(r));
                Ok(r)
            } else {
                proof {
                    lemma_root_split(cur@, codes);
                }
                cur.set(0, Some(0));
                Ok(0)
            }
        },
        Some(c) => {
            if c % 2 == 0 {
                proof {
                    assert(free_at(cur@, len as int));
                    lemma_take_free(cur@, codes, len as nat);
                }
                cur.set(idx, Some(c + 1));
                Ok(c + 1)
            } else {
                if len == 1 {
                    proof {
                        assert forall|d: int| 1 <= d <= len implies !#[trigger] free_at(old(cur)@, d) by {}
                    }
                    return Err(Error::Undecodable("Overspecified Huffman tree"));
                }
                let r1 = next_code_in(cur, idx, Ghost(codes))?;
                proof {
                    lemma_pow2_unfold(len as nat);
                    lemma_pow2_le(idx as nat, 30);
                    assert(!free_at(cur@, len as int));
                    assert(cur@[len - 2] is Some);
                    lemma_split_node(cur@, codes, r1 as nat, len as nat);
                }
                let r = r1 * 2;
                cur.set(idx, Some(r));
                Ok(r)
            }
        },
    }
}

/// An existing witness stays valid when a codeword is added.
proof fn lemma_entry_ok_grow(codes: Seq<CodeSpec>, x: CodeSpec, e: LookupEntry, idx: nat, len_bits: nat)
    requires
        entry_ok(codes, e, idx, len_bits),
    ensures
        entry_ok(codes.push(x), e, idx, len_bits),
{
    if let LookupEntry::Code(cv) = e {
        let k = choose|k: int|
            0 <= k < codes.len() && (#[trigger] codes[k]).1 == cv.len && codes[k].3 == cv.value
                && cv.len <= len_bits && idx % pow2(cv.len as nat) == codes[k].2;
        assert(codes.push(x)[k] == codes[k]);
    }
}

/// An existing witness stays valid when a codeword is added.
proof fn lemma_long_ok_grow(codes: Seq<CodeSpec>, x: CodeSpec, lc: LongCode, len_bits: nat)
    requires
        long_ok(codes, lc, len_bits),
    ensures
        long_ok(codes.push(x), lc, len_bits),
{
    let k = choose|k: int|
        0 <= k < codes.len() && (#[trigger] codes[k]).1 == lc.len && codes[k].2 == lc.code
            && codes[k].3 == lc.value && lc.len > len_bits;
    assert(codes.push(x)[k] == codes[k]);
}

/// Forgetting the last allocated node keeps the invariant.
proof fn lemma_tree_drop_last(cur: Seq<Option<u32>>, codes: Seq<(nat, nat)>, x: (nat, nat))
    requires
        tree_inv(cur, codes.push(x)),
    ensures
        tree_inv(cur, codes),
{
    let c2 = codes.push(x);
    assert forall|i: int| 0 <= i < codes.len() implies #[trigger] codes[i] == c2[i] by {}
    assert forall|i: int, j: int| 0 <= i < codes.len() && 0 <= j < codes.len() && i != j implies disjoint(#[trigger] codes[i], #[trigger] codes[j]) by {
        assert(codes[i] == c2[i] && codes[j] == c2[j]);
    }
    assert forall|i: int, d: int| 0 <= i < codes.len() && #[trigger] free_at(cur, d) implies disjoint(#[trigger] codes[i], free_node(cur, d)) by {
        assert(codes[i] == c2[i]);
    }
}

/// The first allocation splits the root.
proof fn lemma_root_split(cur: Seq<Option<u32>>, codes: Seq<(nat, nat)>)
    requires
        tree_inv(cur, codes),
        cur[0] is None,
    ensures
        tree_inv(cur.update(0, Some(0u32)), codes.push((0, 1))),
{
    let cur2 = cur.update(0, Some(0u32));
    let c2 = codes.push((0nat, 1nat));
    lemma2_to64();
    lemma_children(0, 0);
    assert(free_node(cur2, 1) == (1nat, 1nat));
    assert forall|d: int| #[trigger] free_at(cur2, d) implies d == 1 by {
        if d != 1 {
            assert(cur[d - 1] is None);
        }
    }
    assert forall|d: int| 2 <= d <= 31 && #[trigger] cur2[d - 1] is Some implies cur2[d - 2] is Some by {
        assert(cur[d - 1] is None);
    }
    assert forall|d: int| 1 <= d <= 31 && #[trigger] cur2[d - 1] is Some implies cur2[d - 1].unwrap() < pow2(d as nat) by {
        assert(cur[d - 1] is None || d == 1);
    }
}

/// Taking the free node at depth `len`.
proof fn lemma_take_free(cur: Seq<Option<u32>>, codes: Seq<(nat, nat)>, len: nat)
    requires
        tree_inv(cur, codes),
        1 <= len <= 31,
        free_at(cur, len as int),
    ensures
        cur[len - 1].unwrap() + 1 < pow2(len),
        tree_inv(
            cur.update(len - 1, Some((cur[len - 1].unwrap() + 1) as u32)),
            codes.push(((cur[len - 1].unwrap() + 1) as nat, len)),
        ),
{
    let c = cur[len - 1].unwrap();
    let x = ((c + 1) as nat, len);
    let cur2 = cur.update(len - 1, Some((c + 1) as u32));
    let c2 = codes.push(x);
    lemma_pow2_unfold(len);
    assert(c + 1 < pow2(len));
    assert(x == free_node(cur, len as int));
    assert forall|d: int| #[trigger] free_at(cur2, d) implies free_at(cur, d) && d != len && free_node(cur2, d) == free_node(cur, d) by {}
    assert forall|i: int, j: int| 0 <= i < c2.len() && 0 <= j < c2.len() && i != j implies disjoint(#[trigger] c2[i], #[trigger] c2[j]) by {
        if i < codes.len() && j < codes.len() {
            assert(c2[i] == codes[i] && c2[j] == codes[j]);
        } else if i < codes.len() {
            assert(c2[i] == codes[i]);
            assert(free_at(cur, len as int));
        } else {
            assert(c2[j] == codes[j]);
            assert(free_at(cur, len as int));
        }
    }
    assert forall|i: int, d: int| 0 <= i < c2.len() && #[trigger] free_at(cur2, d) implies disjoint(#[trigger] c2[i], free_node(cur2, d)) by {
        assert(free_at(cur, d));
        if i < codes.len() {
            assert(c2[i] == codes[i]);
        } else {
            assert(free_at(cur, len as int));
        }
    }
    assert forall|d: int| 2 <= d <= 31 && #[trigger] cur2[d - 1] is Some implies cur2[d - 2] is Some by {
        assert(cur[d - 1] is Some);
    }
    assert forall|d: int| 1 <= d <= 31 && #[trigger] cur2[d - 1] is Some implies cur2[d - 1].unwrap() < pow2(d as nat) by {
        assert(cur[d - 1] is Some);
    }
    assert forall|d1: int, d2: int| #[trigger] free_at(cur2, d1) && #[trigger] free_at(cur2, d2) && d1 != d2 implies disjoint(free_node(cur2, d1), free_node(cur2, d2)) by {
        assert(free_at(cur, d1) && free_at(cur, d2));
    }
}

/// After the node `(r1, len - 1)` was taken, splitting it into two children
/// of length `len`: the left one is allocated and the right one becomes free.
proof fn lemma_split_node(cur: Seq<Option<u32>>, codes: Seq<(nat, nat)>, r1: nat, len: nat)
    requires
        2 <= len <= 31,
        tree_inv(cur, codes.push((r1, (len - 1) as nat))),
        !free_at(cur, len as int),
        cur[len - 2] is Some,
    ensures
        2 * r1 < pow2(len),
        2 * r1 < 0x8000_0000,
        tree_inv(cur.update(len - 1, Some((2 * r1) as u32)), codes.push((2 * r1, len))),
{
    let a = (r1, (len - 1) as nat);
    let c1 = codes.push(a);
    let b = (2 * r1, len);
    let f = (2 * r1 + 1, len);
    let cur2 = cur.update(len - 1, Some((2 * r1) as u32));
    let c2 = codes.push(b);
    lemma2_to64();
    assert(c1[codes.len() as int] == a);
    lemma_pow2_unfold(len);
    lemma_pow2_le(len, 31);
    assert(r1 < pow2((len - 1) as nat));
    assert(2 * r1 < pow2(len));
    lemma_children(r1, (len - 1) as nat);
    assert((len - 1) as nat + 1 == len);
    assert(free_node(cur2, len as int) == f);
    assert(disjoint(b, f));
    // Every node that `a` is disjoint from is disjoint from `b` and `f`.
    assert forall|x: (nat, nat)| disjoint(x, a) implies disjoint(x, b) && disjoint(x, f) by {
        lemma_child_disjoint(x, r1, (len - 1) as nat);
    }
    assert forall|d: int| #[trigger] free_at(cur2, d) && d != len implies free_at(cur, d) && free_node(cur2, d) == free_node(cur, d) by {}
    assert forall|i: int| 0 <= i < c2.len() implies 1 <= (#[trigger] c2[i]).1 <= 31 && c2[i].0 < pow2(c2[i].1) by {
        if i < codes.len() {
            assert(c2[i] == c1[i]);
        }
    }
    assert forall|i: int, j: int| 0 <= i < c2.len() && 0 <= j < c2.len() && i != j implies disjoint(#[trigger] c2[i], #[trigger] c2[j]) by {
        if i < codes.len() && j < codes.len() {
            assert(c2[i] == c1[i] && c2[j] == c1[j]);
        } else if i < codes.len() {
            assert(c2[i] == c1[i]);
            assert(disjoint(c1[i], c1[codes.len() as int]));
        } else {
            assert(c2[j] == c1[j]);
            assert(disjoint(c1[j], c1[codes.len() as int]));
            assert(disjoint(c2[j], c2[i]));
        }
    }
    assert forall|i: int, d: int| 0 <= i < c2.len() && #[trigger] free_at(cur2, d) implies disjoint(#[trigger] c2[i], free_node(cur2, d)) by {
        if d == len {
            if i < codes.len() {
                assert(c2[i] == c1[i]);
                assert(disjoint(c1[i], c1[codes.len() as int]));
            }
        } else {
            assert(free_at(cur, d));
            if i < codes.len() {
                assert(c2[i] == c1[i]);
            } else {
                assert(disjoint(c1[codes.len() as int], free_node(cur, d)));
                assert(disjoint(free_node(cur, d), a));
            }
        }
    }
    assert forall|d1: int, d2: int| #[trigger] free_at(cur2, d1) && #[trigger] free_at(cur2, d2) && d1 != d2 implies disjoint(free_node(cur2, d1), free_node(cur2, d2)) by {
        if d1 == len {
            assert(free_at(cur, d2));
            assert(disjoint(c1[codes.len() as int], free_node(cur, d2)));
            assert(disjoint(free_node(cur, d2), a));
        } else if d2 == len {
            assert(free_at(cur, d1));
            assert(disjoint(c1[codes.len() as int], free_node(cur, d1)));
            assert(disjoint(free_node(cur, d1), a));
        } else {
            assert(free_at(cur, d1) && free_at(cur, d2));
        }
    }
    assert forall|d: int| 2 <= d <= 31 && #[trigger] cur2[d - 1] is Some implies cur2[d - 2] is Some by {
        if d != len && d != len + 1 {
            assert(cur[d - 1] is Some);
        }
    }
    assert forall|d: int| 1 <= d <= 31 && #[trigger] cur2[d - 1] is Some implies cur2[d - 1].unwrap() < pow2(d as nat) by {
        if d != len {
            assert(cur[d - 1] is Some);
        }
    }
    assert(cur[0] is Some);
}

/// Canonical codes are prefix-free: of two different codewords that a
/// builder has allocated, neither is a prefix of the other (and so they are
/// distinct).
pub proof fn lemma_codes_prefix_free(b: &HuffmanDecoderBuilder, i: int, j: int)
    requires
        b.wf(),
        0 <= i < b.codes().len(),
        0 <= j < b.codes().len(),
        i != j,
    ensures
        !is_prefix((b.codes()[i].0, b.codes()[i].1), (b.codes()[j].0, b.codes()[j].1)),
        (b.codes()[i].0, b.codes()[i].1) != (b.codes()[j].0, b.codes()[j].1),
{
    let t = tree_codes(b.codes@);
    assert(t[i] == (b.codes()[i].0, b.codes()[i].1));
    assert(t[j] == (b.codes()[j].0, b.codes()[j].1));
    assert(disjoint(t[i], t[j]));
    if is_prefix(t[i], t[j]) {
        lemma_prefix_not_disjoint(t[i], t[j]);
    }
    lemma_children(t[i].0, t[i].1);
    lemma_pow2_pos((32 - t[i].1) as nat);
    assert(lo(t[i]) < hi(t[i])) by (nonlinear_arith)
        requires
            pow2((32 - t[i].1) as nat) > 0,
            lo(t[i]) == t[i].0 * pow2((32 - t[i].1) as nat),
            hi(t[i]) == (t[i].0 + 1) * pow2((32 - t[i].1) as nat),
    ;
}

/// The `l`-bit code `x` read least significant bit first.
pub open spec fn rev_code(x: u32, l: u32) -> u32 {
    crate::util::rev32(x) >> ((32 - l) as u32)
}

proof fn lemma_rev_prefix(a: u32, lk: u32, lj: u32)
    requires
        1 <= lj <= lk <= 31,
        a < (1u32 << lk),
    ensures
        rev_code(a, lk) & (((1u32 << lj) - 1) as u32) == rev_code(a >> ((lk - lj) as u32), lj),
{
    assert(rev_code(a, lk) & (((1u32 << lj) - 1) as u32) == rev_code(a >> ((lk - lj) as u32), lj)) by (bit_vector)
        requires
            1 <= lj <= lk <= 31,
            a < (1u32 << lk),
    ;
}

proof fn lemma_rev_injective(a: u32, b: u32, l: u32)
    requires
        1 <= l <= 31,
        a < (1u32 << l),
        b < (1u32 << l),
        rev_code(a, l) == rev_code(b, l),
    ensures
        a == b,
{
    assert(a == b) by (bit_vector)
        requires
            1 <= l <= 31,
            a < (1u32 << l),
            b < (1u32 << l),
            rev_code(a, l) == rev_code(b, l),
    ;
}

/// Of two different codewords, the shorter one's bits (read least
/// significant bit first) do not start the longer one's.
pub open spec fn lsb_prefix_free(codes: Seq<CodeSpec>) -> bool {
    forall|j: int, k: int|
        0 <= j < codes.len() && 0 <= k < codes.len() && j != k && codes[j].1 <= codes[k].1 ==> #[trigger] codes[k].2 % pow2(#[trigger] codes[j].1) != codes[j].2
}

/// Tree-disjoint codes stay apart when read least significant bit first.
proof fn lemma_lsb_pair(sj: nat, lj: nat, sk: nat, lk: nat)
    requires
        1 <= lj <= lk <= 31,
        sj < pow2(lj),
        sk < pow2(lk),
        disjoint((sj, lj), (sk, lk)),
    ensures
        rev_code(sk as u32, lk as u32) as nat % pow2(lj) != rev_code(sj as u32, lj as u32) as nat,
{
    lemma2_to64();
    lemma_pow2_le(lk, 31);
    let a = sk as u32;
    let b = sj as u32;
    let d = (lk - lj) as u32;
    vstd::bits::lemma_u32_shl_is_mul(1, lk as u32);
    vstd::bits::lemma_u32_shl_is_mul(1, lj as u32);
    vstd::bits::lemma_u32_pow2_no_overflow(lk);
    vstd::bits::lemma_u32_pow2_no_overflow(lj);
    lemma_rev_prefix(a, lk as u32, lj as u32);
    vstd::bits::lemma_u32_low_bits_mask_is_mod(rev_code(a, lk as u32), lj);
    vstd::bits::lemma_low_bits_mask_values();
    assert(vstd::bits::low_bits_mask(lj) == pow2(lj) - 1) by {
        vstd::bits::lemma_low_bits_mask_unfold(lj);
    }
    assert(((1u32 << lj as u32) - 1) as u32 == vstd::bits::low_bits_mask(lj) as u32);
    vstd::bits::lemma_u32_shr_is_div(a, d);
    lemma_pow2_adds(lj, d as nat);
    lemma_pow2_pos(d as nat);
    assert(lj + d as nat == lk);
    assert(pow2(lk) == pow2(lj) * pow2(d as nat));
    assert(pow2(lj) * pow2(d as nat) == pow2(d as nat) * pow2(lj)) by (nonlinear_arith);
    assert(sk < pow2(d as nat) * pow2(lj));
    vstd::arithmetic::div_mod::lemma_multiply_divide_lt(sk as int, pow2(d as nat) as int, pow2(lj) as int);
    if rev_code(sk as u32, lk as u32) as nat % pow2(lj) == rev_code(sj as u32, lj as u32) as nat {
        lemma_rev_injective(a >> d, b, lj as u32);
        assert(is_prefix((sj, lj), (sk, lk)));
        lemma_prefix_not_disjoint((sj, lj), (sk, lk));
    }
}

/// The direct table holds each short codeword at every index that starts
/// with it, and marks as long the index that starts each long codeword.
#[verifier::opaque]
pub open spec fn table_complete(codes: Seq<CodeSpec>, entries: Seq<LookupEntry>, len_bits: nat) -> bool {
    forall|k: int, i: int|
        #![trigger codes[k], entries[i]]
        0 <= k < codes.len() && 0 <= i < entries.len() ==> {
            &&& (codes[k].1 <= len_bits && (i as nat) % pow2(codes[k].1) == codes[k].2 ==> entries[i]
                == LookupEntry::Code(CodeValue { value: codes[k].3 as u32, len: codes[k].1 as usize }))
            &&& (codes[k].1 > len_bits && (i as nat) == codes[k].2 % pow2(len_bits) ==> entries[i] is LongCode)
        }
}

/// Every long codeword is in the list of long codes.
#[verifier::opaque]
pub open spec fn long_complete(codes: Seq<CodeSpec>, long_codes: Seq<LongCode>, len_bits: nat) -> bool {
    forall|k: int|
        0 <= k < codes.len() && (#[trigger] codes[k]).1 > len_bits ==> exists|j: int|
            0 <= j < long_codes.len() && (#[trigger] long_codes[j]).code == codes[k].2 && long_codes[j].len
                == codes[k].1 && long_codes[j].value == codes[k].3
}

/// Adding a codeword and entering it in the table keeps the table complete.
proof fn lemma_table_grow(
    codes: Seq<CodeSpec>,
    x: CodeSpec,
    entries: Seq<LookupEntry>,
    new_entries: Seq<LookupEntry>,
    len_bits: nat,
)
    requires
        1 <= len_bits <= 31,
        table_complete(codes, entries, len_bits),
        lsb_prefix_free(codes.push(x)),
        new_entries.len() == entries.len(),
        entries.len() == pow2(len_bits),
        forall|i: int| 0 <= i < entries.len() ==> #[trigger] new_entries[i] == (if x.1 <= len_bits && (i as nat) % pow2(x.1) == x.2 {
            LookupEntry::Code(CodeValue { value: x.3 as u32, len: x.1 as usize })
        } else if x.1 > len_bits && (i as nat) == x.2 % pow2(len_bits) {
            LookupEntry::LongCode
        } else {
            entries[i]
        }),
    ensures
        table_complete(codes.push(x), new_entries, len_bits),
{
    reveal(table_complete);
    let c2 = codes.push(x);
    let n = codes.len() as int;
    assert(c2[n] == x);
    assert forall|k: int, i: int| #![trigger c2[k], new_entries[i]] 0 <= k < c2.len() && 0 <= i < new_entries.len() implies {
        &&& (c2[k].1 <= len_bits && (i as nat) % pow2(c2[k].1) == c2[k].2 ==> new_entries[i]
            == LookupEntry::Code(CodeValue { value: c2[k].3 as u32, len: c2[k].1 as usize }))
        &&& (c2[k].1 > len_bits && (i as nat) == c2[k].2 % pow2(len_bits) ==> new_entries[i] is LongCode)
    } by {
        let e = new_entries[i];
        if k < n {
            assert(c2[k] == codes[k]);
            let ck = codes[k];
            assert(entries[i] == entries[i]);
            if x.1 <= len_bits && (i as nat) % pow2(x.1) == x.2 {
                // The new short code took index i; no old code starts it.
                if ck.1 <= len_bits && (i as nat) % pow2(ck.1) == ck.2 {
                    if ck.1 <= x.1 {
                        lemma_mod_mod_pow2(i as nat, x.1, ck.1);
                        assert(c2[n].2 % pow2(c2[k].1) == c2[k].2);
                    } else {
                        lemma_mod_mod_pow2(i as nat, ck.1, x.1);
                        assert(c2[k].2 % pow2(c2[n].1) == c2[n].2);
                    }
                }
                if ck.1 > len_bits && (i as nat) == ck.2 % pow2(len_bits) {
                    lemma_mod_mod_pow2(ck.2, len_bits, x.1);
                    assert(c2[k].2 % pow2(c2[n].1) == c2[n].2);
                }
            } else if x.1 > len_bits && (i as nat) == x.2 % pow2(len_bits) {
                if ck.1 <= len_bits && (i as nat) % pow2(ck.1) == ck.2 {
                    lemma_mod_mod_pow2(x.2, len_bits, ck.1);
                    assert(c2[n].2 % pow2(c2[k].1) == c2[k].2);
                }
            } else {
                assert(e == entries[i]);
            }
        } else {
            assert(k == n);
        }
    }
}

/// Two long codes with the same code, length and value.
pub open spec fn same_fields(a: LongCode, b: LongCode) -> bool {
    a.code == b.code && a.len == b.len && a.value == b.value
}

/// Pads each long code's sort key to `max_len` bits.
fn pad_sort_keys(long_codes: &mut Vec<LongCode>, max_len: usize)
    requires
        max_len <= 31,
        forall|j: int| 0 <= j < old(long_codes)@.len() ==> (#[trigger] old(long_codes)@[j]).sort_key < pow2(old(long_codes)@[j].len as nat)
            && old(long_codes)@[j].len <= max_len,
    ensures
        final(long_codes)@.len() == old(long_codes)@.len(),
        forall|j: int| 0 <= j < old(long_codes)@.len() ==> same_fields(#[trigger] old(long_codes)@[j], final(long_codes)@[j]),
{
    let n = long_codes.len();
    let mut i: usize = 0;
    while i < n
        invariant
            n == long_codes@.len(),
            n == old(long_codes)@.len(),
            max_len <= 31,
            i <= n,
            forall|j: int| 0 <= j < n ==> same_fields(#[trigger] old(long_codes)@[j], long_codes@[j]),
            forall|j: int| i <= j < n ==> (#[trigger] long_codes@[j]).sort_key < pow2(long_codes@[j].len as nat)
                && long_codes@[j].len <= max_len,
        decreases n - i,
    {
        let mut lc = long_codes[i];
        proof {
            lemma_pow2_adds(lc.len as nat, (max_len - lc.len) as nat);
            lemma_pow2_le(max_len as nat, 31);
            lemma2_to64();
            assert(lc.sort_key as nat * pow2((max_len - lc.len) as nat) < 0x1_0000_0000) by (nonlinear_arith)
                requires
                    lc.sort_key < pow2(lc.len as nat),
                    pow2(lc.len as nat) * pow2((max_len - lc.len) as nat) <= 0x8000_0000,
            ;
        }
        lc.pad_sort_key(max_len);
        long_codes.set(i, lc);
        i = i + 1;
    }
}

/// Orders the long codes by sort key. Returns where each code came from and
/// where each went.
fn sort_by_sort_key(long_codes: &mut Vec<LongCode>) -> (r: Ghost<(Seq<int>, Seq<int>)>)
    ensures
        final(long_codes)@.len() == old(long_codes)@.len(),
        r@.0.len() == old(long_codes)@.len(),
        r@.1.len() == old(long_codes)@.len(),
        forall|j: int| 0 <= j < old(long_codes)@.len() ==> 0 <= #[trigger] r@.0[j] < old(long_codes)@.len()
            && same_fields(old(long_codes)@[r@.0[j]], final(long_codes)@[j]),
        forall|j: int| 0 <= j < old(long_codes)@.len() ==> 0 <= #[trigger] r@.1[j] < old(long_codes)@.len()
            && same_fields(old(long_codes)@[j], final(long_codes)@[r@.1[j]]),
{
    let n = long_codes.len();
    let ghost orig = long_codes@;
    let ghost mut perm: Seq<int> = Seq::new(n as nat, |j: int| j);
    let ghost mut inv: Seq<int> = Seq::new(n as nat, |j: int| j);
    let mut i: usize = 1;
    while i < n
        invariant
            n == long_codes@.len(),
            n == orig.len(),
            orig == old(long_codes)@,
            perm.len() == n,
            inv.len() == n,
            forall|j: int| 0 <= j < n ==> 0 <= #[trigger] perm[j] < n && same_fields(orig[perm[j]], long_codes@[j]),
            forall|j: int| 0 <= j < n ==> 0 <= #[trigger] inv[j] < n && same_fields(orig[j], long_codes@[inv[j]]),
        decreases n - i,
    {
        let mut j = i;
        while j > 0 && long_codes[j - 1].sort_key > long_codes[j].sort_key
            invariant
                n == long_codes@.len(),
                n == orig.len(),
                j <= i < n,
                perm.len() == n,
                inv.len() == n,
                forall|x: int| 0 <= x < n ==> 0 <= #[trigger] perm[x] < n && same_fields(orig[perm[x]], long_codes@[x]),
                forall|x: int| 0 <= x < n ==> 0 <= #[trigger] inv[x] < n && same_fields(orig[x], long_codes@[inv[x]]),
            decreases j,
        {
            let a = long_codes[j - 1];
            let b = long_codes[j];
            long_codes.set(j - 1, b);
            long_codes.set(j, a);
            proof {
                let lo = j - 1;
                let hi = j as int;
                perm = perm.update(lo, perm[hi]).update(hi, perm[lo]);
                inv = Seq::new(n as nat, |x: int| if inv[x] == lo { hi } else if inv[x] == hi { lo } else { inv[x] });
            }
            j = j - 1;
        }
        i = i + 1;
    }
    Ghost((perm, inv))
}

/// Adding a codeword, and a long code for it where it is long, keeps the
/// list of long codes complete.
proof fn lemma_long_complete_push(
    codes: Seq<CodeSpec>,
    x: CodeSpec,
    lcs: Seq<LongCode>,
    new_lcs: Seq<LongCode>,
    len_bits: nat,
)
    requires
        long_complete(codes, lcs, len_bits),
        x.1 > len_bits ==> new_lcs.len() == lcs.len() + 1 && new_lcs.drop_last() == lcs && new_lcs.last().code
            == x.2 && new_lcs.last().len == x.1 && new_lcs.last().value == x.3,
        x.1 <= len_bits ==> new_lcs == lcs,
    ensures
        long_complete(codes.push(x), new_lcs, len_bits),
{
    reveal(long_complete);
    let c2 = codes.push(x);
    assert forall|k: int| 0 <= k < c2.len() && (#[trigger] c2[k]).1 > len_bits implies exists|j: int|
        0 <= j < new_lcs.len() && (#[trigger] new_lcs[j]).code == c2[k].2 && new_lcs[j].len == c2[k].1
            && new_lcs[j].value == c2[k].3 by {
        if k < codes.len() {
            assert(c2[k] == codes[k]);
            let j = choose|j: int|
                0 <= j < lcs.len() && (#[trigger] lcs[j]).code == codes[k].2 && lcs[j].len == codes[k].1
                    && lcs[j].value == codes[k].3;
            if x.1 > len_bits {
                assert(new_lcs[j] == new_lcs.drop_last()[j]);
            }
            assert(new_lcs[j] == lcs[j]);
        } else {
            let j = new_lcs.len() - 1;
            assert(new_lcs[j] == new_lcs.last());
        }
    }
}

} // verus!

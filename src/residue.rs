use vstd::prelude::*;
use vstd::arithmetic::power2::lemma2_to64;
use crate::bitstream::{BitReader, BitsModel, field, skip_bits, lemma_skip_skip};
use crate::util::bit_of;
use crate::codebook::Codebook;
use crate::error::{Error, ErrorKind, ExpectEof, Result};
use crate::util::{Bits, Pusher2d, Pusher2dStep};

verus! {

/// The three residue layouts.
#[derive(Clone, Copy, Debug, PartialEq, Eq, Structural)]
pub enum ResidueKind {
    Residue0,
    Residue1,
    Residue2,
}

/// A residue descriptor.
#[derive(Debug)]
pub struct Residue {
    pub kind: ResidueKind,
    pub start: usize,
    pub end: usize,
    pub part_len: usize,
    pub classbook: usize,
    pub class_codebooks: Vec<[Option<usize>; 8]>,
}

/// Component `component` of vector `entry` of codebook `book`.
#[derive(Clone, Copy, Debug, PartialEq, Eq, Structural)]
pub struct VqRef {
    pub book: usize,
    pub entry: u32,
    pub component: usize,
}

/// A residue write: add the vector component to sample `.1` of channel `.0`.
pub type ResidueWrite = (usize, usize, VqRef);

/// The write refers to a vector of a codebook that has a lookup table, and
/// to a channel and sample inside the frame.
pub open spec fn write_ok(w: ResidueWrite, codebooks: Seq<Codebook>, channel_count: nat, row_len: nat) -> bool {
    &&& w.0 < channel_count
    &&& w.1 < row_len
    &&& w.2.book < codebooks.len()
    &&& codebooks[w.2.book as int].lookup_table is Some
    &&& w.2.entry < codebooks[w.2.book as int].entry_count
    &&& w.2.component < codebooks[w.2.book as int].dim_count
}

/// The cascade byte of one class at the start of `m` (3 low bits, a flag,
/// and 5 high bits where the flag is set) and its width in bits; `None`
/// where the bits end first.
pub open spec fn cascade_at(m: BitsModel) -> Option<(u8, nat)> {
    if m.len < 4 {
        None
    } else if field(m, 3, 1) == 1 {
        if m.len < 9 {
            None
        } else {
            Some(((field(m, 4, 5) * 8 + field(m, 0, 3)) as u8, 9nat))
        }
    } else {
        Some((field(m, 0, 3) as u8, 4nat))
    }
}

/// The cascades of `count` classes at the start of `m`, and the bits after them.
pub open spec fn cascades(m: BitsModel, count: nat) -> Option<(Seq<u8>, BitsModel)>
    decreases count,
{
    if count == 0 {
        Some((Seq::empty(), m))
    } else {
        match cascades(m, (count - 1) as nat) {
            Some((cs, m1)) => match cascade_at(m1) {
                Some((c, w)) => Some((cs.push(c), skip_bits(m1, w))),
                None => None,
            },
            None => None,
        }
    }
}

/// The codebooks of the first `bit` passes of a class with cascade `c`: an
/// 8-bit codebook number (below `cb`) for each set bit, read in order.
pub open spec fn books_upto(m: BitsModel, c: u8, bit: nat, cb: nat) -> Option<(Seq<Option<usize>>, BitsModel)>
    decreases bit,
{
    if bit == 0 {
        Some((Seq::empty(), m))
    } else {
        match books_upto(m, c, (bit - 1) as nat, cb) {
            Some((bs, m1)) => if bit_of(c as nat, (bit - 1) as nat) {
                if m1.len < 8 || field(m1, 0, 8) >= cb {
                    None
                } else {
                    Some((bs.push(Some(field(m1, 0, 8) as usize)), skip_bits(m1, 8)))
                }
            } else {
                Some((bs.push(None), m1))
            },
            None => None,
        }
    }
}

/// The codebooks of the first `k` classes of cascades `cs`.
pub open spec fn all_books(m: BitsModel, cs: Seq<u8>, k: nat, cb: nat) -> Option<(Seq<Seq<Option<usize>>>, BitsModel)>
    decreases k,
{
    if k == 0 {
        Some((Seq::empty(), m))
    } else {
        match all_books(m, cs, (k - 1) as nat, cb) {
            Some((bss, m1)) => match books_upto(m1, cs[k - 1], 8, cb) {
                Some((bs, m2)) => Some((bss.push(bs), m2)),
                None => None,
            },
            None => None,
        }
    }
}

/// The per-class codebooks of the residue descriptor that the bits of `m` hold.
pub open spec fn residue_tables(m: BitsModel, cb: nat) -> Option<Seq<Seq<Option<usize>>>> {
    match cascades(skip_bits(m, 102), field(m, 88, 6) + 1) {
        Some((cs, m1)) => match all_books(m1, cs, cs.len(), cb) {
            Some((bss, _)) => Some(bss),
            None => None,
        },
        None => None,
    }
}

/// Whether the bits of `m` hold a valid residue descriptor for `cb` codebooks.
pub open spec fn residue_ok(m: BitsModel, cb: nat) -> bool {
    &&& 102 <= m.len
    &&& field(m, 0, 16) <= 2
    &&& field(m, 16, 24) <= field(m, 40, 24)
    &&& field(m, 94, 8) < cb
    &&& residue_tables(m, cb) is Some
}

proof fn lemma_cascades_none(m: BitsModel, a: nat, b: nat)
    requires
        a <= b,
        cascades(m, a) is None,
    ensures
        cascades(m, b) is None,
    decreases b,
{
    if a < b {
        lemma_cascades_none(m, a, (b - 1) as nat);
    }
}

proof fn lemma_books_none(m: BitsModel, c: u8, a: nat, b: nat, cb: nat)
    requires
        a <= b,
        books_upto(m, c, a, cb) is None,
    ensures
        books_upto(m, c, b, cb) is None,
    decreases b,
{
    if a < b {
        lemma_books_none(m, c, a, (b - 1) as nat, cb);
    }
}

proof fn lemma_all_books_none(m: BitsModel, cs: Seq<u8>, a: nat, b: nat, cb: nat)
    requires
        a <= b,
        all_books(m, cs, a, cb) is None,
    ensures
        all_books(m, cs, b, cb) is None,
    decreases b,
{
    if a < b {
        lemma_all_books_none(m, cs, a, (b - 1) as nat, cb);
    }
}

/// The residue kind that a 16-bit kind number names.
pub open spec fn kind_of_number(k: nat) -> ResidueKind {
    if k == 0 {
        ResidueKind::Residue0
    } else if k == 1 {
        ResidueKind::Residue1
    } else {
        ResidueKind::Residue2
    }
}

impl Residue {
    pub open spec fn wf(&self, codebook_count: nat) -> bool {
        &&& self.start <= self.end < 0x100_0000
        &&& 1 <= self.part_len <= 0x100_0000
        &&& self.classbook < codebook_count
        &&& 1 <= self.class_codebooks@.len() <= 64
        &&& forall|c: int, p: int| 0 <= c < self.class_codebooks@.len() && 0 <= p < 8 ==> (#[trigger] self.class_codebooks@[c][p] matches Some(b) ==> b < codebook_count)
    }

    /// Reads a residue descriptor; codebook indices must be below `codebook_count`.
    pub fn read(reader: &mut BitReader, codebook_count: usize) -> (r: Result<Self>)
        requires
            old(reader).wf(),
        ensures
            final(reader).wf(),
            16 <= old(reader)@.len && field(old(reader)@, 0, 16) > 2 ==> r.is_err() && r->Err_0 is Undecodable,
            64 <= old(reader)@.len && field(old(reader)@, 0, 16) <= 2 && field(old(reader)@, 40, 24) < field(old(reader)@, 16, 24) ==> r.is_err() && r->Err_0 is Undecodable,
            102 <= old(reader)@.len && field(old(reader)@, 0, 16) <= 2 && field(old(reader)@, 16, 24) <= field(old(reader)@, 40, 24) && field(old(reader)@, 94, 8) >= codebook_count ==> r.is_err() && r->Err_0 is Undecodable,
            r.is_err() && final(reader)@.len > 0 ==> r->Err_0 is Undecodable,
            r.is_err() && r->Err_0 is Io ==> final(reader)@.len == 0,
            r.is_ok() ==> r.unwrap().wf(codebook_count as nat),
            r.is_ok() ==> {
                let m = old(reader)@;
                let res = r.unwrap();
                &&& res.kind == kind_of_number(field(m, 0, 16))
                &&& res.start == field(m, 16, 24)
                &&& res.end == field(m, 40, 24)
                &&& res.part_len == field(m, 64, 24) + 1
                &&& res.class_codebooks@.len() == field(m, 88, 6) + 1
                &&& res.classbook == field(m, 94, 8)
            },
            old(reader)@.len < 102 ==> r.is_err(),
            field(old(reader)@, 0, 16) > 2 ==> r.is_err(),
            field(old(reader)@, 40, 24) < field(old(reader)@, 16, 24) ==> r.is_err(),
            field(old(reader)@, 94, 8) >= codebook_count ==> r.is_err(),
            r.is_ok() <==> residue_ok(old(reader)@, codebook_count as nat),
            r.is_ok() ==> forall|c: int| 0 <= c < r.unwrap().class_codebooks@.len() ==> (#[trigger] r.unwrap().class_codebooks@[c])@
                == residue_tables(old(reader)@, codebook_count as nat).unwrap()[c],
            r.is_err() ==> r->Err_0 is Undecodable || r->Err_0 is Io,
    {
        let ghost m = reader@;
        proof {
            lemma2_to64();
            assert(skip_bits(m, 0) == m);
        }
        let kind_int = reader.read_u16()?;
        proof {
            lemma_skip_skip(m, 0, 16);
        }
        let kind = if kind_int == 0 {
            ResidueKind::Residue0
        } else if kind_int == 1 {
            ResidueKind::Residue1
        } else if kind_int == 2 {
            ResidueKind::Residue2
        } else {
            return Err(Error::Undecodable("Unsupported residue type"));
        };
        let start = reader.read_u32_bits(24)? as usize;
        proof {
            lemma_skip_skip(m, 16, 24);
        }
        let end = reader.read_u32_bits(24)? as usize;
        proof {
            lemma_skip_skip(m, 40, 24);
        }
        if end < start {
            return Err(Error::Undecodable("Invalid residue range"));
        }
        let part_len = reader.read_u32_bits(24)? as usize + 1;
        proof {
            lemma_skip_skip(m, 64, 24);
        }
        let class_count = reader.read_u8_bits(6)? as usize + 1;
        proof {
            lemma_skip_skip(m, 88, 6);
        }
        let classbook = reader.read_u8_bits(8)? as usize;
        proof {
            lemma_skip_skip(m, 94, 8);
        }
        if classbook >= codebook_count {
            return Err(Error::Undecodable("Invalid codebook index in residue classbook"));
        }
        let ghost m1 = reader@;
        let mut cascade: Vec<u8> = Vec::new();
        let mut c: usize = 0;
        proof {
            assert(m1 == skip_bits(m, 102));
        }
        while c < class_count
            invariant
                reader.wf(),
                c <= class_count,
                cascade@.len() == c,
                m == old(reader)@,
                102 <= m.len,
                field(m, 0, 16) <= 2,
                field(m, 16, 24) <= field(m, 40, 24),
                field(m, 94, 8) < codebook_count,
                class_count == field(m, 88, 6) + 1,
                m1 == skip_bits(m, 102),

                cascades(m1, c as nat) == Some((cascade@, reader@)),
            decreases class_count - c,
        {
            proof {
                lemma2_to64();
            }
            let ghost mc = reader@;
            proof {
                assert(skip_bits(mc, 0) == mc);
            }
            let low_bits = match reader.read_u8_bits(3) {
                Ok(v) => v,
                Err(e) => {
                    proof {
                        assert(cascade_at(mc) is None);
                        lemma_cascades_none(m1, (c + 1) as nat, class_count as nat);
                    }
                    return Err(e);
                },
            };
            proof {
                lemma_skip_skip(mc, 0, 3);
            }
            let has_high_bits = match reader.read_bool() {
                Ok(v) => v,
                Err(e) => {
                    proof {
                        assert(cascade_at(mc) is None);
                        lemma_cascades_none(m1, (c + 1) as nat, class_count as nat);
                    }
                    return Err(e);
                },
            };
            proof {
                lemma_skip_skip(mc, 3, 1);
            }
            let high_bits = if has_high_bits {
                match reader.read_u8_bits(5) {
                    Ok(v) => v,
                    Err(e) => {
                        proof {
                            assert(cascade_at(mc) is None);
                            lemma_cascades_none(m1, (c + 1) as nat, class_count as nat);
                        }
                        return Err(e);
                    },
                }
            } else {
                0
            };
            proof {
                if has_high_bits {
                    lemma_skip_skip(mc, 4, 5);
                }
            }
            cascade.push(high_bits * 8 + low_bits);
            proof {
                assert(cascade@.drop_last() =~= cascades(m1, c as nat).unwrap().0);
            }
            c = c + 1;
        }
        let ghost m2 = reader@;
        let ghost cs = cascade@;
        let mut class_codebooks: Vec<[Option<usize>; 8]> = Vec::new();
        let mut c: usize = 0;
        while c < class_count
            invariant
                reader.wf(),
                c <= class_count,
                cascade@ == cs,
                m == old(reader)@,
                102 <= m.len,
                field(m, 0, 16) <= 2,
                field(m, 16, 24) <= field(m, 40, 24),
                field(m, 94, 8) < codebook_count,
                class_count == field(m, 88, 6) + 1,
                m1 == skip_bits(m, 102),

                cs.len() == class_count,
                class_codebooks@.len() == c,
                cascades(m1, class_count as nat) == Some((cs, m2)),
                all_books(m2, cs, c as nat, codebook_count as nat) matches Some((bss, mb)) && mb == reader@
                    && bss.len() == c && forall|k: int| 0 <= k < c ==> (#[trigger] class_codebooks@[k])@ == bss[k],
                forall|k: int, p: int| 0 <= k < c && 0 <= p < 8 ==> (#[trigger] class_codebooks@[k][p] matches Some(b) ==> b < codebook_count),
            decreases class_count - c,
        {
            let ghost mc = reader@;
            let ghost bss = all_books(m2, cs, c as nat, codebook_count as nat).unwrap().0;
            let mut book_set: [Option<usize>; 8] = [None; 8];
            let mut bit: usize = 0;
            proof {
                assert(book_set@.take(0) =~= Seq::<Option<usize>>::empty());
            }
            while bit < 8
                invariant
                    reader.wf(),
                    bit <= 8,
                    c < class_count,
                    all_books(m2, cs, c as nat, codebook_count as nat) == Some((bss, mc)),
                    cascades(m1, class_count as nat) == Some((cs, m2)),
                    m == old(reader)@,
                    102 <= m.len,
                    field(m, 0, 16) <= 2,
                    field(m, 16, 24) <= field(m, 40, 24),
                    field(m, 94, 8) < codebook_count,
                    class_count == field(m, 88, 6) + 1,
                    m1 == skip_bits(m, 102),

                    cascade@ == cs,
                    cs.len() == class_count,
                    books_upto(mc, cs[c as int], bit as nat, codebook_count as nat) == Some((book_set@.take(bit as int), reader@)),
                    forall|p: int| bit <= p < 8 ==> #[trigger] book_set@[p] is None,
                    forall|p: int| 0 <= p < 8 ==> (#[trigger] book_set@[p] matches Some(b) ==> b < codebook_count),
                decreases 8 - bit,
            {
                let ghost mbk = reader@;
                if Bits::is_bit_set(cascade[c], bit) {
                    let codebook_idx = match reader.read_u8() {
                        Ok(v) => v as usize,
                        Err(e) => {
                            proof {
                                lemma_books_none(mc, cs[c as int], (bit + 1) as nat, 8, codebook_count as nat);
                                lemma_all_books_none(m2, cs, (c + 1) as nat, class_count as nat, codebook_count as nat);
                            }
                            return Err(e);
                        },
                    };
                    proof {
                        lemma2_to64();
                        assert(skip_bits(mbk, 0) == mbk);
                    }
                    if codebook_idx >= codebook_count {
                        proof {
                            lemma_books_none(mc, cs[c as int], (bit + 1) as nat, 8, codebook_count as nat);
                            lemma_all_books_none(m2, cs, (c + 1) as nat, class_count as nat, codebook_count as nat);
                        }
                        return Err(Error::Undecodable("Invalid codebook index in residue"));
                    }
                    book_set[bit] = Some(codebook_idx);
                }
                proof {
                    assert(book_set@.take(bit + 1) =~= book_set@.take(bit as int).push(book_set@[bit as int]));
                    assert(book_set@.take(bit as int) =~= books_upto(mc, cs[c as int], bit as nat, codebook_count as nat).unwrap().0);
                }
                bit = bit + 1;
            }
            class_codebooks.push(book_set);
            proof {
                assert(book_set@.take(8) =~= book_set@);
                assert forall|k: int, p: int| 0 <= k < c + 1 && 0 <= p < 8 implies (#[trigger] class_codebooks@[k][p] matches Some(b) ==> b < codebook_count) by {
                    if k == c {
                        assert(class_codebooks@[k] == book_set);
                    }
                }
                let nb = all_books(m2, cs, (c + 1) as nat, codebook_count as nat).unwrap().0;
                assert forall|k: int| 0 <= k < c + 1 implies (#[trigger] class_codebooks@[k])@ == nb[k] by {
                    if k == c {
                        assert(class_codebooks@[k] == book_set);
                    }
                }
            }
            c = c + 1;
        }
        Ok(Residue { kind, start, end, part_len, classbook, class_codebooks })
    }

    /// Decodes the residue vectors of `channels` (a submap's channels, each
    /// below `channel_count`) for a frame whose rows hold `row_len` samples.
    /// Returns the writes in order: the caller clears the first half-frame of
    /// each listed channel and then adds each vector component to its place.
    /// Where the packet ends inside the residue data, the writes made so far
    /// are returned.
    pub fn decode(
        &self,
        reader: &mut BitReader,
        channel_count: usize,
        row_len: usize,
        channels: &Vec<usize>,
        zero_channels: &Vec<bool>,
        codebooks: &Vec<Codebook>,
    ) -> (r: Result<Vec<ResidueWrite>>)
        requires
            self.wf(codebooks@.len()),
            old(reader).wf(),
            forall|i: int| 0 <= i < codebooks@.len() ==> (#[trigger] codebooks@[i]).wf(),
            forall|i: int| 0 <= i < channels@.len() ==> #[trigger] channels@[i] < channel_count,
            zero_channels@.len() == channel_count,
            row_len > 0,
        ensures
            final(reader).wf(),
            r.is_ok() ==> forall|k: int| 0 <= k < r.unwrap()@.len() ==> write_ok(#[trigger] r.unwrap()@[k], codebooks@, channel_count as nat, row_len as nat),
            r.is_err() ==> r->Err_0 is Undecodable,
            (forall|i: int| 0 <= i < channels@.len() ==> zero_channels@[#[trigger] channels@[i] as int])
                ==> r.is_ok() && r.unwrap()@.len() == 0,
            old(reader)@.len == 0 && self.kind != ResidueKind::Residue0 && codebooks@[self.classbook as int].dim_count >= 1
                ==> r.is_ok(),
    {
        let mut out: Vec<ResidueWrite> = Vec::new();
        let res = self.do_decode(reader, channel_count, row_len, channels, zero_channels, codebooks, &mut out);
        match res.expect_eof() {
            Err(e) => {
                if e.kind() == ErrorKind::ExpectedEof {
                    Ok(out)
                } else {
                    Err(e)
                }
            },
            Ok(()) => Ok(out),
        }
    }

    fn do_decode(
        &self,
        reader: &mut BitReader,
        channel_count: usize,
        row_len: usize,
        channels: &Vec<usize>,
        zero_channels: &Vec<bool>,
        codebooks: &Vec<Codebook>,
        out: &mut Vec<ResidueWrite>,
    ) -> (r: Result<()>)
        requires
            self.wf(codebooks@.len()),
            old(reader).wf(),
            forall|i: int| 0 <= i < codebooks@.len() ==> (#[trigger] codebooks@[i]).wf(),
            forall|i: int| 0 <= i < channels@.len() ==> #[trigger] channels@[i] < channel_count,
            zero_channels@.len() == channel_count,
            row_len > 0,
            old(out)@.len() == 0,
        ensures
            final(reader).wf(),
            forall|k: int| 0 <= k < final(out)@.len() ==> write_ok(#[trigger] final(out)@[k], codebooks@, channel_count as nat, row_len as nat),
            r.is_err() ==> r->Err_0 is Undecodable || r->Err_0 is Io,
            (forall|i: int| 0 <= i < channels@.len() ==> zero_channels@[#[trigger] channels@[i] as int])
                ==> r.is_ok() && final(out)@.len() == 0,
            old(reader)@.len == 0 && self.kind != ResidueKind::Residue0 && codebooks@[self.classbook as int].dim_count >= 1
                ==> r.is_ok() || r->Err_0 is Io,
    {
        let n_to_read = self.end - self.start;
        if n_to_read == 0 || channels.len() == 0 {
            return Ok(());
        }
        let mut all_zero = true;
        let mut i: usize = 0;
        while i < channels.len()
            invariant
                i <= channels@.len(),
                zero_channels@.len() == channel_count,
                forall|j: int| 0 <= j < channels@.len() ==> #[trigger] channels@[j] < channel_count,
                all_zero == forall|j: int| 0 <= j < i ==> zero_channels@[#[trigger] channels@[j] as int],
            decreases channels@.len() - i,
        {
            if !zero_channels[channels[i]] {
                all_zero = false;
            }
            i = i + 1;
        }
        if all_zero {
            return Ok(());
        }
        proof {
            assert(exists|j: int| 0 <= j < channels@.len() && !zero_channels@[#[trigger] channels@[j] as int]);
        }
        if self.kind == ResidueKind::Residue0 {
            return Err(Error::Undecodable("Residue type 0 is not supported"));
        }
        let codebook = &codebooks[self.classbook];
        let classwords_per_codeword = codebook.dim_count;
        proof {
            assert(codebooks@[self.classbook as int].wf());
        }
        if classwords_per_codeword == 0 {
            return Err(Error::Undecodable("Residue classbook has no dimensions"));
        }
        let parts_to_read = n_to_read / self.part_len;
        proof {
            vstd::arithmetic::div_mod::lemma_fundamental_div_mod(n_to_read as int, self.part_len as int);
            vstd::arithmetic::div_mod::lemma_div_is_ordered_by_denominator(n_to_read as int, 1, self.part_len as int);
            assert(parts_to_read * self.part_len <= n_to_read) by (nonlinear_arith)
                requires
                    n_to_read == self.part_len * parts_to_read + n_to_read % self.part_len,
                    n_to_read % self.part_len >= 0,
            ;
        }
        let is_residue2 = self.kind == ResidueKind::Residue2;
        let class_count = self.class_codebooks.len();
        let row_size = classwords_per_codeword + parts_to_read;
        let mut classes: Vec<Vec<usize>> = Vec::new();
        let mut i: usize = 0;
        while i < channels.len()
            invariant
                i <= channels@.len(),
                classes@.len() == i,
                forall|j: int, k: int| 0 <= j < i && 0 <= k < (#[trigger] classes@[j])@.len() ==> #[trigger] classes@[j]@[k] < class_count,
                forall|j: int| 0 <= j < i ==> (#[trigger] classes@[j])@.len() == row_size,
                class_count >= 1,
            decreases channels@.len() - i,
        {
            classes.push(vec![0usize; row_size]);
            i = i + 1;
        }
        let mut pass: usize = 0;
        while pass < 8
            invariant
                self.wf(codebooks@.len()),
                reader.wf(),
                forall|i: int| 0 <= i < codebooks@.len() ==> (#[trigger] codebooks@[i]).wf(),
                forall|i: int| 0 <= i < channels@.len() ==> #[trigger] channels@[i] < channel_count,
                zero_channels@.len() == channel_count,
                row_len > 0,
                channels@.len() > 0,
                pass <= 8,
                class_count == self.class_codebooks@.len(),
                classes@.len() == channels@.len(),
                forall|j: int, k: int| 0 <= j < classes@.len() && 0 <= k < (#[trigger] classes@[j])@.len() ==> #[trigger] classes@[j]@[k] < class_count,
                forall|j: int| 0 <= j < classes@.len() ==> (#[trigger] classes@[j])@.len() == row_size,
                row_size == classwords_per_codeword + parts_to_read,
                classwords_per_codeword == codebooks@[self.classbook as int].dim_count,
                classwords_per_codeword >= 1,
                parts_to_read * self.part_len <= n_to_read,
                n_to_read == self.end - self.start,
                forall|k: int| 0 <= k < out@.len() ==> write_ok(#[trigger] out@[k], codebooks@, channel_count as nat, row_len as nat),
                exists|j: int| 0 <= j < channels@.len() && !zero_channels@[#[trigger] channels@[j] as int],
                old(reader)@.len == 0 && parts_to_read > 0 ==> pass == 0 && reader@ == old(reader)@,
                self.kind != ResidueKind::Residue0,
                is_residue2 == (self.kind == ResidueKind::Residue2),
            decreases 8 - pass,
        {
            let (pusher_pos, pusher_step) = if is_residue2 {
                ((self.start % channels.len(), self.start / channels.len()), Pusher2dStep::DownRight(1, 1))
            } else {
                ((0, 0), Pusher2dStep::RightDown(0, 1))
            };
            let mut pusher = Pusher2d::new(channel_count, row_len, channels.clone(), pusher_pos, pusher_step);
            let res = self.decode_pass(pass, reader, channels, zero_channels, codebooks, &mut classes, &mut pusher, parts_to_read, classwords_per_codeword);
            let mut k: usize = 0;
            while k < pusher.out.len()
                invariant
                    k <= pusher.out@.len(),
                    pusher.wf(),
                    pusher.rows == channel_count,
                    pusher.len.1 == row_len,
                    forall|j: int| 0 <= j < pusher.out@.len() ==> vq_ok(#[trigger] pusher.out@[j].2, codebooks@),
                    forall|j: int| 0 <= j < out@.len() ==> write_ok(#[trigger] out@[j], codebooks@, channel_count as nat, row_len as nat),
                decreases pusher.out@.len() - k,
            {
                out.push(pusher.out[k]);
                k = k + 1;
            }
            if res.is_err() {
                return res;
            }
            pass = pass + 1;
        }
        Ok(())
    }

    /// One of the eight passes over the partitions.
    fn decode_pass(
        &self,
        pass: usize,
        reader: &mut BitReader,
        channels: &Vec<usize>,
        zero_channels: &Vec<bool>,
        codebooks: &Vec<Codebook>,
        classes: &mut Vec<Vec<usize>>,
        pusher: &mut Pusher2d<VqRef>,
        parts_to_read: usize,
        classwords_per_codeword: usize,
    ) -> (r: Result<()>)
        requires
            self.wf(codebooks@.len()),
            old(reader).wf(),
            pass < 8,
            forall|i: int| 0 <= i < codebooks@.len() ==> (#[trigger] codebooks@[i]).wf(),
            channels@.len() > 0,
            forall|i: int| 0 <= i < channels@.len() ==> #[trigger] channels@[i] < zero_channels@.len(),
            old(classes)@.len() == channels@.len(),
            forall|j: int, k: int| 0 <= j < old(classes)@.len() && 0 <= k < (#[trigger] old(classes)@[j])@.len() ==> #[trigger] old(classes)@[j]@[k] < self.class_codebooks@.len(),
            forall|j: int| 0 <= j < old(classes)@.len() ==> (#[trigger] old(classes)@[j])@.len() == classwords_per_codeword + parts_to_read,
            classwords_per_codeword == codebooks@[self.classbook as int].dim_count,
            classwords_per_codeword >= 1,
            parts_to_read * self.part_len <= self.end - self.start,
            old(pusher).wf(),
            old(pusher).index_map@ == channels@,
            old(pusher).out@.len() == 0,
        ensures
            final(reader).wf(),
            final(pusher).wf(),
            final(pusher).rows == old(pusher).rows,
            final(pusher).len == old(pusher).len,
            forall|j: int| 0 <= j < final(pusher).out@.len() ==> vq_ok(#[trigger] final(pusher).out@[j].2, codebooks@),
            final(classes)@.len() == channels@.len(),
            forall|j: int, k: int| 0 <= j < final(classes)@.len() && 0 <= k < (#[trigger] final(classes)@[j])@.len() ==> #[trigger] final(classes)@[j]@[k] < self.class_codebooks@.len(),
            forall|j: int| 0 <= j < final(classes)@.len() ==> (#[trigger] final(classes)@[j])@.len() == classwords_per_codeword + parts_to_read,
            r.is_err() ==> r->Err_0 is Undecodable || r->Err_0 is Io,
            parts_to_read == 0 ==> r.is_ok(),
            pass == 0 && parts_to_read > 0 && old(reader)@.len == 0 && (self.kind == ResidueKind::Residue2
                || exists|k: int| 0 <= k < channels@.len() && !zero_channels@[#[trigger] channels@[k] as int])
                ==> r.is_err() && r->Err_0 is Io,
    {
        let is_residue2 = self.kind == ResidueKind::Residue2;
        let ghost hyp = pass == 0 && old(reader)@.len == 0 && (is_residue2
            || exists|k: int| 0 <= k < channels@.len() && !zero_channels@[#[trigger] channels@[k] as int]);
        let class_count = self.class_codebooks.len();
        let codebook = &codebooks[self.classbook];
        let mut part_count: usize = 0;
        while part_count < parts_to_read
            invariant
                self.wf(codebooks@.len()),
                reader.wf(),
                pass < 8,
                forall|i: int| 0 <= i < codebooks@.len() ==> (#[trigger] codebooks@[i]).wf(),
                channels@.len() > 0,
                forall|i: int| 0 <= i < channels@.len() ==> #[trigger] channels@[i] < zero_channels@.len(),
                classes@.len() == channels@.len(),
                forall|j: int, k: int| 0 <= j < classes@.len() && 0 <= k < (#[trigger] classes@[j])@.len() ==> #[trigger] classes@[j]@[k] < class_count,
                forall|j: int| 0 <= j < classes@.len() ==> (#[trigger] classes@[j])@.len() == classwords_per_codeword + parts_to_read,
                class_count == self.class_codebooks@.len(),
                classwords_per_codeword == codebook.dim_count,
                codebook == codebooks@[self.classbook as int],
                classwords_per_codeword >= 1,
                part_count <= parts_to_read,
                parts_to_read * self.part_len <= self.end - self.start,
                pusher.wf(),
                pusher.rows == old(pusher).rows,
                pusher.len == old(pusher).len,
                pusher.index_map@ == channels@,
                forall|j: int| 0 <= j < pusher.out@.len() ==> vq_ok(#[trigger] pusher.out@[j].2, codebooks@),
                is_residue2 == (self.kind == ResidueKind::Residue2),
                hyp == (pass == 0 && old(reader)@.len == 0 && (is_residue2
                    || exists|k: int| 0 <= k < channels@.len() && !zero_channels@[#[trigger] channels@[k] as int])),
                hyp ==> part_count == 0 && reader@ == old(reader)@,
            decreases parts_to_read - part_count,
        {
            if pass == 0 {
                let mut i: usize = 0;
                while i < channels.len()
                    invariant
                        reader.wf(),
                        codebook.wf(),
                        i <= channels@.len(),
                        part_count < parts_to_read,
                        classes@.len() == channels@.len(),
                        forall|j: int, k: int| 0 <= j < classes@.len() && 0 <= k < (#[trigger] classes@[j])@.len() ==> #[trigger] classes@[j]@[k] < class_count,
                        forall|j: int| 0 <= j < classes@.len() ==> (#[trigger] classes@[j])@.len() == classwords_per_codeword + parts_to_read,
                        forall|i: int| 0 <= i < channels@.len() ==> #[trigger] channels@[i] < zero_channels@.len(),
                        class_count >= 1,
                        class_count == self.class_codebooks@.len(),
                        pusher.wf(),
                        pusher.rows == old(pusher).rows,
                        pusher.len == old(pusher).len,
                        pusher.index_map@ == channels@,
                        forall|j: int| 0 <= j < pusher.out@.len() ==> vq_ok(#[trigger] pusher.out@[j].2, codebooks@),
                        is_residue2 == (self.kind == ResidueKind::Residue2),
                hyp == (pass == 0 && old(reader)@.len == 0 && (is_residue2
                            || exists|k: int| 0 <= k < channels@.len() && !zero_channels@[#[trigger] channels@[k] as int])),
                        hyp ==> part_count == 0 && reader@ == old(reader)@,
                        hyp && is_residue2 ==> i == 0,
                        hyp && !is_residue2 ==> exists|k: int| i <= k < channels@.len() && !zero_channels@[#[trigger] channels@[k] as int],
                        channels@.len() > 0,
                    ensures
                        !hyp,
                    is_residue2 == (self.kind == ResidueKind::Residue2),
                    hyp == (pass == 0 && old(reader)@.len == 0 && (is_residue2
                    || exists|k: int| 0 <= k < channels@.len() && !zero_channels@[#[trigger] channels@[k] as int])),
                        classes@.len() == channels@.len(),
                        forall|j: int, k: int| 0 <= j < classes@.len() && 0 <= k < (#[trigger] classes@[j])@.len() ==> #[trigger] classes@[j]@[k] < class_count,
                        forall|j: int| 0 <= j < classes@.len() ==> (#[trigger] classes@[j])@.len() == classwords_per_codeword + parts_to_read,
                        reader.wf(),
                        pusher.wf(),
                        pusher.rows == old(pusher).rows,
                        pusher.len == old(pusher).len,
                        pusher.index_map@ == channels@,
                        forall|j: int| 0 <= j < pusher.out@.len() ==> vq_ok(#[trigger] pusher.out@[j].2, codebooks@),
                    decreases channels@.len() - i,
                {
                    if !is_residue2 && zero_channels[channels[i]] {
                        proof {
                            if hyp {
                                let k = choose|k: int| i <= k < channels@.len() && !zero_channels@[#[trigger] channels@[k] as int];
                                assert(k != i);
                            }
                        }
                        i = i + 1;
                        continue;
                    }
                    let mut temp = codebook.decode_scalar(reader)? as usize;
                    proof {
                        assert(!hyp);
                    }
                    let mut cw = classwords_per_codeword;
                    while cw > 0
                        invariant
                            cw <= classwords_per_codeword,
                            i < channels@.len(),
                            part_count < parts_to_read,
                            classes@.len() == channels@.len(),
                            forall|j: int, k: int| 0 <= j < classes@.len() && 0 <= k < (#[trigger] classes@[j])@.len() ==> #[trigger] classes@[j]@[k] < class_count,
                            forall|j: int| 0 <= j < classes@.len() ==> (#[trigger] classes@[j])@.len() == classwords_per_codeword + parts_to_read,
                            class_count >= 1,
                        decreases cw,
                    {
                        cw = cw - 1;
                        let mut row = classes[i].clone();
                        row.set(cw + part_count, temp % class_count);
                        classes.set(i, row);
                        temp = temp / class_count;
                    }
                    if is_residue2 {
                        break;
                    }
                    i = i + 1;
                }
            }
            let mut cw: usize = 0;
            let ghost pc0 = part_count;
            while cw < classwords_per_codeword && part_count < parts_to_read
                invariant
                    !hyp,
                    is_residue2 == (self.kind == ResidueKind::Residue2),
                    hyp == (pass == 0 && old(reader)@.len == 0 && (is_residue2
                    || exists|k: int| 0 <= k < channels@.len() && !zero_channels@[#[trigger] channels@[k] as int])),
                    classwords_per_codeword >= 1,
                    pc0 < parts_to_read,
                    cw > 0 ==> part_count > pc0,
                    cw == 0 ==> part_count == pc0,
                    self.wf(codebooks@.len()),
                    reader.wf(),
                    forall|i: int| 0 <= i < codebooks@.len() ==> (#[trigger] codebooks@[i]).wf(),
                    pass < 8,
                    part_count <= parts_to_read,
                    parts_to_read * self.part_len <= self.end - self.start,
                    classes@.len() == channels@.len(),
                    forall|j: int, k: int| 0 <= j < classes@.len() && 0 <= k < (#[trigger] classes@[j])@.len() ==> #[trigger] classes@[j]@[k] < class_count,
                    forall|j: int| 0 <= j < classes@.len() ==> (#[trigger] classes@[j])@.len() == classwords_per_codeword + parts_to_read,
                    class_count == self.class_codebooks@.len(),
                    forall|i: int| 0 <= i < channels@.len() ==> #[trigger] channels@[i] < zero_channels@.len(),
                    pusher.wf(),
                    pusher.rows == old(pusher).rows,
                    pusher.len == old(pusher).len,
                    pusher.index_map@ == channels@,
                    forall|j: int| 0 <= j < pusher.out@.len() ==> vq_ok(#[trigger] pusher.out@[j].2, codebooks@),
                decreases parts_to_read - part_count,
            {
                let mut i: usize = 0;
                while i < channels.len()
                    invariant
                        !hyp,
                    is_residue2 == (self.kind == ResidueKind::Residue2),
                    hyp == (pass == 0 && old(reader)@.len == 0 && (is_residue2
                    || exists|k: int| 0 <= k < channels@.len() && !zero_channels@[#[trigger] channels@[k] as int])),
                        self.wf(codebooks@.len()),
                        reader.wf(),
                        forall|i: int| 0 <= i < codebooks@.len() ==> (#[trigger] codebooks@[i]).wf(),
                        pass < 8,
                        i <= channels@.len(),
                        part_count < parts_to_read,
                        parts_to_read * self.part_len <= self.end - self.start,
                        classes@.len() == channels@.len(),
                        forall|j: int, k: int| 0 <= j < classes@.len() && 0 <= k < (#[trigger] classes@[j])@.len() ==> #[trigger] classes@[j]@[k] < class_count,
                        forall|j: int| 0 <= j < classes@.len() ==> (#[trigger] classes@[j])@.len() == classwords_per_codeword + parts_to_read,
                        class_count == self.class_codebooks@.len(),
                        forall|i: int| 0 <= i < channels@.len() ==> #[trigger] channels@[i] < zero_channels@.len(),
                        pusher.wf(),
                        pusher.rows == old(pusher).rows,
                        pusher.len == old(pusher).len,
                        pusher.index_map@ == channels@,
                        forall|j: int| 0 <= j < pusher.out@.len() ==> vq_ok(#[trigger] pusher.out@[j].2, codebooks@),
                    decreases channels@.len() - i,
                {
                    if !is_residue2 && zero_channels[channels[i]] {
                        i = i + 1;
                        continue;
                    }
                    let vq_class = classes[i][part_count];
                    let vq_book = self.class_codebooks[vq_class][pass];
                    match vq_book {
                        Some(book) => {
                            if !is_residue2 {
                                proof {
                                    assert(part_count * self.part_len <= parts_to_read * self.part_len) by (nonlinear_arith)
                                        requires
                                            part_count < parts_to_read,
                                    ;
                                }
                                pusher.set_pos((i, self.start + part_count * self.part_len));
                            }
                            self.codebook_decode(pusher, reader, codebooks, book)?;
                        },
                        None => {
                            pusher.advance_flat_pos(self.part_len);
                        },
                    }
                    if is_residue2 {
                        break;
                    }
                    i = i + 1;
                }
                part_count = part_count + 1;
                cw = cw + 1;
            }
        }
        Ok(())
    }

    /// Decodes the vectors of one partition with codebook `book`.
    fn codebook_decode(&self, pusher: &mut Pusher2d<VqRef>, reader: &mut BitReader, codebooks: &Vec<Codebook>, book: usize) -> (r: Result<()>)
        requires
            old(pusher).wf(),
            old(reader).wf(),
            book < codebooks@.len(),
            codebooks@[book as int].wf(),
            forall|j: int| 0 <= j < old(pusher).out@.len() ==> vq_ok(#[trigger] old(pusher).out@[j].2, codebooks@),
        ensures
            final(pusher).wf(),
            final(reader).wf(),
            final(pusher).rows == old(pusher).rows,
            final(pusher).len == old(pusher).len,
            final(pusher).index_map == old(pusher).index_map,
            forall|j: int| 0 <= j < final(pusher).out@.len() ==> vq_ok(#[trigger] final(pusher).out@[j].2, codebooks@),
            r.is_err() ==> r->Err_0 is Undecodable || r->Err_0 is Io,
    {
        let codebook = &codebooks[book];
        let dim = codebook.dim_count;
        if dim == 0 || self.part_len % dim != 0 {
            return Err(Error::Undecodable("Residue partition does not fit the codebook dimensions"));
        }
        let count = self.part_len / dim;
        let mut v: usize = 0;
        while v < count
            invariant
                pusher.wf(),
                reader.wf(),
                codebook == codebooks@[book as int],
                codebook.wf(),
                book < codebooks@.len(),
                dim == codebook.dim_count,
                pusher.rows == old(pusher).rows,
                pusher.len == old(pusher).len,
                pusher.index_map == old(pusher).index_map,
                forall|j: int| 0 <= j < pusher.out@.len() ==> vq_ok(#[trigger] pusher.out@[j].2, codebooks@),
            decreases count - v,
        {
            let entry = codebook.decode_vq(reader)?;
            let mut component: usize = 0;
            while component < dim
                invariant
                    pusher.wf(),
                    reader.wf(),
                    codebook == codebooks@[book as int],
                    book < codebooks@.len(),
                    codebook.lookup_table is Some,
                    entry < codebook.entry_count,
                    dim == codebook.dim_count,
                    pusher.rows == old(pusher).rows,
                    pusher.len == old(pusher).len,
                    pusher.index_map == old(pusher).index_map,
                    forall|j: int| 0 <= j < pusher.out@.len() ==> vq_ok(#[trigger] pusher.out@[j].2, codebooks@),
                decreases dim - component,
            {
                let value = VqRef { book, entry, component };
                if !pusher.push(value) {
                    return Err(Error::Undecodable("Residue data beyond the frame"));
                }
                proof {
                    assert(pusher.out@.last().2 == value);
                }
                component = component + 1;
            }
            v = v + 1;
        }
        Ok(())
    }
}

/// The vector component refers to a codebook with a lookup table, and lies inside it.
pub open spec fn vq_ok(v: VqRef, codebooks: Seq<Codebook>) -> bool {
    &&& v.book < codebooks.len()
    &&& codebooks[v.book as int].lookup_table is Some
    &&& v.entry < codebooks[v.book as int].entry_count
    &&& v.component < codebooks[v.book as int].dim_count
}

} // verus!

use vstd::prelude::*;
use vstd::arithmetic::power2::{pow2, lemma2_to64};
use crate::bitstream::{BitReader, BitsModel, field, read_field, skip_bits, signed_bits, lemma_skip_skip, avail};
use crate::error::{Error, Result};
use vstd::string::StringSliceAdditionalSpecFns;

verus! {

/// Fields of the identification header.
#[derive(Clone, Debug)]
pub struct Header {
    pub channel_count: usize,
    pub sample_rate: u32,
    pub bitrates: Bitrates,
    pub frame_lens: FrameLens,
}

/// Bit rates announced by the stream (not enforced).
#[derive(Clone, Copy, Debug)]
pub struct Bitrates {
    pub min: i32,
    pub nom: i32,
    pub max: i32,
}

/// The two frame sizes of a stream.
#[derive(Clone, Copy, Debug, PartialEq, Eq, Structural)]
pub enum FrameKind {
    Short,
    Long,
}

/// Lengths of short and long frames, in samples.
#[derive(Clone, Copy, Debug)]
pub struct FrameLens {
    pub short: usize,
    pub long: usize,
}

/// Exponents of a valid frame length: 64 to 8192 samples.
pub open spec fn valid_frame_exp(e: nat) -> bool {
    6 <= e <= 13
}

/// The identification header that the bits of `m` hold, when they hold a
/// valid one.
pub open spec fn ident_ok(m: BitsModel) -> bool {
    &&& 177 <= m.len
    &&& field(m, 0, 32) == 0
    &&& field(m, 32, 8) > 0
    &&& field(m, 40, 32) > 0
    &&& valid_frame_exp(field(m, 168, 4))
    &&& valid_frame_exp(field(m, 172, 4))
    &&& field(m, 168, 4) <= field(m, 172, 4)
    &&& field(m, 176, 1) == 1
}

impl Header {
    /// The header read from `m` (meaningful where `ident_ok(m)`).
    pub open spec fn matches(&self, m: BitsModel) -> bool {
        &&& self.channel_count == field(m, 32, 8)
        &&& self.sample_rate == field(m, 40, 32)
        &&& self.bitrates.max == signed_bits(skip_bits(m, 72), 32)
        &&& self.bitrates.nom == signed_bits(skip_bits(m, 104), 32)
        &&& self.bitrates.min == signed_bits(skip_bits(m, 136), 32)
        &&& self.frame_lens.short == pow2(field(m, 168, 4))
        &&& self.frame_lens.long == pow2(field(m, 172, 4))
    }

    /// The header's invariant: at least one channel, a positive sample rate
    /// and valid frame lengths.
    pub open spec fn wf(&self) -> bool {
        &&& 0 < self.channel_count <= 255
        &&& self.sample_rate > 0
        &&& self.frame_lens.wf()
    }

    /// Reads the identification header, after its packet tag and magic.
    pub fn read(reader: &mut BitReader) -> (r: Result<Header>)
        requires
            old(reader).wf(),
        ensures
            final(reader).wf(),
            r.is_ok() <==> ident_ok(old(reader)@),
            r.is_ok() ==> r.unwrap().matches(old(reader)@) && r.unwrap().wf(),
            r.is_err() ==> r->Err_0 is Undecodable || r->Err_0 is Io,
            177 <= old(reader)@.len && !ident_ok(old(reader)@) ==> r.is_err() && r->Err_0 is Undecodable,
    {
        let ghost m = reader@;
        proof {
            lemma2_to64();
        }
        let version = reader.read_u32()?;
        if version != 0 {
            return Err(Error::Undecodable("Unsupported Vorbis version"));
        }
        proof {
            lemma_skip_skip(m, 0, 32);
            assert(skip_bits(m, 0) == m);
        }
        let channel_count = reader.read_u8()? as usize;
        if channel_count == 0 {
            return Err(Error::Undecodable("Invalid channel count"));
        }
        proof {
            lemma_skip_skip(m, 32, 8);
        }
        let sample_rate = reader.read_u32()?;
        if sample_rate == 0 {
            return Err(Error::Undecodable("Invalid sample rate"));
        }
        proof {
            lemma_skip_skip(m, 40, 32);
        }
        let bitrate_max = reader.read_i32()?;
        proof {
            lemma_skip_skip(m, 72, 32);
        }
        let bitrate_nom = reader.read_i32()?;
        proof {
            lemma_skip_skip(m, 104, 32);
        }
        let bitrate_min = reader.read_i32()?;
        proof {
            lemma_skip_skip(m, 136, 32);
        }
        let short_exp = reader.read_u8_bits(4)?;
        proof {
            lemma_skip_skip(m, 168, 4);
        }
        if short_exp < 6 || short_exp > 13 {
            return Err(Error::Undecodable("Invalid short frame length"));
        }
        let long_exp = reader.read_u8_bits(4)?;
        proof {
            lemma_skip_skip(m, 172, 4);
        }
        if long_exp < 6 || long_exp > 13 {
            return Err(Error::Undecodable("Invalid long frame length"));
        }
        if long_exp < short_exp {
            return Err(Error::Undecodable("Long frame is shorter than short frame"));
        }
        let framing = reader.read_bool()?;
        if !framing {
            return Err(Error::Undecodable("Invalid framing bit"));
        }
        let frame_len_short = FrameLens::len_of_exp(short_exp);
        let frame_len_long = FrameLens::len_of_exp(long_exp);
        Ok(
            Header {
                channel_count,
                sample_rate,
                bitrates: Bitrates { min: bitrate_min, nom: bitrate_nom, max: bitrate_max },
                frame_lens: FrameLens { short: frame_len_short, long: frame_len_long },
            },
        )
    }

    pub fn channel_count(&self) -> (r: usize)
        ensures
            r == self.channel_count,
    {
        self.channel_count
    }

    pub fn sample_rate(&self) -> (r: u32)
        ensures
            r == self.sample_rate,
    {
        self.sample_rate
    }

    pub fn bitrates(&self) -> (r: Bitrates)
        ensures
            r == self.bitrates,
    {
        self.bitrates
    }

    pub fn frame_lens(&self) -> (r: FrameLens)
        ensures
            r == self.frame_lens,
    {
        self.frame_lens
    }
}

impl Bitrates {
    pub fn min(&self) -> (r: i32)
        ensures
            r == self.min,
    {
        self.min
    }

    pub fn nom(&self) -> (r: i32)
        ensures
            r == self.nom,
    {
        self.nom
    }

    pub fn max(&self) -> (r: i32)
        ensures
            r == self.max,
    {
        self.max
    }
}

/// Frame length of a kind, as a specification.
pub open spec fn frame_len_of(lens: FrameLens, kind: FrameKind) -> usize {
    match kind {
        FrameKind::Short => lens.short,
        FrameKind::Long => lens.long,
    }
}

impl FrameLens {
    /// Both lengths are powers of two from 64 to 8192, and the long one is not shorter.
    pub open spec fn wf(&self) -> bool {
        &&& exists|e: nat| valid_frame_exp(e) && self.short == pow2(e)
        &&& exists|e: nat| valid_frame_exp(e) && self.long == pow2(e)
        &&& self.short <= self.long
    }

    fn len_of_exp(e: u8) -> (r: usize)
        requires
            valid_frame_exp(e as nat),
        ensures
            r == pow2(e as nat),
            64 <= r <= 8192,
    {
        proof {
            lemma2_to64();
            vstd::bits::lemma_usize_pow2_no_overflow(e as nat);
            vstd::bits::lemma_usize_shl_is_mul(1, e as usize);
            crate::bitstream::lemma_pow2_le(6, e as nat);
            crate::bitstream::lemma_pow2_le(e as nat, 13);
        }
        1usize << (e as usize)
    }

    /// Frame lengths given directly; the long one must not be shorter.
    pub fn new(short: usize, long: usize) -> (r: Self)
        requires
            long >= short,
        ensures
            r.short == short,
            r.long == long,
    {
        FrameLens { short, long }
    }

    pub fn short(&self) -> (r: usize)
        ensures
            r == self.short,
    {
        self.short
    }

    pub fn long(&self) -> (r: usize)
        ensures
            r == self.long,
    {
        self.long
    }

    pub fn get(&self, kind: FrameKind) -> (r: usize)
        ensures
            r == frame_len_of(*self, kind),
    {
        match kind {
            FrameKind::Short => self.short,
            FrameKind::Long => self.long,
        }
    }
}

/// The first `n` bytes of `m`.
pub open spec fn bytes_field(m: BitsModel, n: nat) -> Seq<u8> {
    Seq::new(n, |i: int| field(m, (8 * i) as nat, 8) as u8)
}

/// A string at the start of `m`: a 32-bit length and that many bytes; and
/// the bits after it.
pub open spec fn string_at(m: BitsModel) -> Option<(Seq<u8>, BitsModel)> {
    match read_field(m, 32) {
        Some((l, m1)) => if 8 * l <= m1.len {
            Some((bytes_field(m1, l), skip_bits(m1, 8 * l)))
        } else {
            None
        },
        None => None,
    }
}

/// `n` strings one after the other at the start of `m`.
pub open spec fn strings_at(m: BitsModel, n: nat) -> Option<(Seq<Seq<u8>>, BitsModel)>
    decreases n,
{
    if n == 0 {
        Some((Seq::empty(), m))
    } else {
        match strings_at(m, (n - 1) as nat) {
            Some((ss, m1)) => match string_at(m1) {
                Some((b, m2)) => Some((ss.push(b), m2)),
                None => None,
            },
            None => None,
        }
    }
}

proof fn lemma_strings_none(m: BitsModel, a: nat, b: nat)
    requires
        a <= b,
        strings_at(m, a) is None,
    ensures
        strings_at(m, b) is None,
    decreases b,
{
    if a < b {
        lemma_strings_none(m, a, (b - 1) as nat);
    }
}

/// The strings of `bs` that are valid UTF-8, decoded, in order.
pub open spec fn kept_strings(bs: Seq<Seq<u8>>) -> Seq<Seq<char>>
    decreases bs.len(),
{
    if bs.len() == 0 {
        Seq::empty()
    } else {
        let rest = kept_strings(bs.drop_last());
        if vstd::utf8::valid_utf8(bs.last()) {
            rest.push(vstd::utf8::decode_utf8(bs.last()))
        } else {
            rest
        }
    }
}

/// The vendor bytes, the comments' bytes and the framing bit of the comment
/// header that the bits of `m` hold; `None` where they end too early.
pub open spec fn comment_parts(m: BitsModel) -> Option<(Seq<u8>, Seq<Seq<u8>>, nat)> {
    match string_at(m) {
        Some((v, m1)) => match read_field(m1, 32) {
            Some((n, m2)) => match strings_at(m2, n) {
                Some((cs, m3)) => match read_field(m3, 1) {
                    Some((f, _m4)) => Some((v, cs, f)),
                    None => None,
                },
                None => None,
            },
            None => None,
        },
        None => None,
    }
}

/// The comment header: a vendor string and a list of `TAG=value` comments.
#[derive(Clone, Debug)]
pub struct Comments {
    pub vendor: Option<String>,
    pub comments: Vec<String>,
}

/// Relies on `String::from_utf8`: it succeeds exactly where the bytes are
/// valid UTF-8, and the string then holds the characters they encode.
#[verifier::external_body]
fn string_from_utf8(bytes: Vec<u8>) -> (r: Option<String>)
    ensures
        r is Some <==> vstd::utf8::valid_utf8(bytes@),
        r matches Some(s) ==> s@ == vstd::utf8::decode_utf8(bytes@),
{
    String::from_utf8(bytes).ok()
}

impl Comments {
    /// Reads the comment header, after its packet tag and magic. Strings
    /// that are not valid UTF-8 are left out.
    pub fn read(reader: &mut BitReader) -> (r: Result<Self>)
        requires
            old(reader).wf(),
        ensures
            final(reader).wf(),
            r.is_ok() <==> (comment_parts(old(reader)@) matches Some((_v, _cs, f)) && f == 1),
            r.is_ok() ==> ({
                let (v, cs, _f) = comment_parts(old(reader)@).unwrap();
                let c = r.unwrap();
                &&& (c.vendor is Some <==> vstd::utf8::valid_utf8(v))
                &&& (c.vendor matches Some(s) ==> s@ == vstd::utf8::decode_utf8(v))
                &&& c.comments@.map_values(|s: String| s@) == kept_strings(cs)
            }),
            r.is_err() ==> r->Err_0 is Undecodable || r->Err_0 is Io,
    {
        let ghost m = reader@;
        let vendor = Self::read_string(reader)?;
        let ghost m1 = reader@;
        let ghost vb = string_at(m).unwrap().0;
        proof {
            lemma2_to64();
        }
        let comment_count = reader.read_u32()? as usize;
        let ghost m2 = reader@;
        let mut comments: Vec<String> = Vec::new();
        let mut i: usize = 0;
        let ghost mut all: Seq<Seq<u8>> = Seq::empty();
        proof {
            assert(comments@.map_values(|s: String| s@) =~= Seq::<Seq<char>>::empty());
        }
        while i < comment_count
            invariant
                reader.wf(),
                i <= comment_count,
                m == old(reader)@,
                string_at(m) == Some((vb, m1)),
                read_field(m1, 32) == Some((comment_count as nat, m2)),
                strings_at(m2, i as nat) == Some((all, reader@)),
                comments@.map_values(|s: String| s@) == kept_strings(all),
            decreases comment_count - i,
        {
            let ghost before = comments@;
            let s = match Self::read_string(reader) {
                Ok(s) => s,
                Err(e) => {
                    proof {
                        lemma_strings_none(m2, (i + 1) as nat, comment_count as nat);
                    }
                    return Err(e);
                },
            };
            let ghost old_all = all;
            let ghost bnew = string_at(strings_at(m2, i as nat).unwrap().1).unwrap().0;
            proof {
                all = all.push(bnew);
                assert(all.drop_last() =~= old_all);
                assert(all.last() == bnew);
            }
            if let Some(s) = s {
                comments.push(s);
                proof {
                    assert(comments@.map_values(|s: String| s@) =~= before.map_values(|s: String| s@).push(s@));
                }
            }
            proof {
                assert(kept_strings(all) == (if vstd::utf8::valid_utf8(bnew) {
                    kept_strings(old_all).push(vstd::utf8::decode_utf8(bnew))
                } else {
                    kept_strings(old_all)
                }));
            }
            i = i + 1;
        }
        let framing_bit = reader.read_bool()?;
        if !framing_bit {
            return Err(Error::Undecodable("Invalid framing bit"));
        }
        Ok(Comments { vendor, comments })
    }

    /// Reads a string of a 32-bit length and that many bytes; `None` where
    /// the bytes are not valid UTF-8.
    fn read_string(reader: &mut BitReader) -> (r: Result<Option<String>>)
        requires
            old(reader).wf(),
        ensures
            final(reader).wf(),
            r.is_ok() <==> string_at(old(reader)@) is Some,
            r.is_ok() ==> final(reader)@ == string_at(old(reader)@).unwrap().1,
            r.is_ok() ==> (r.unwrap() is Some <==> vstd::utf8::valid_utf8(string_at(old(reader)@).unwrap().0)),
            r.is_ok() ==> (r.unwrap() matches Some(s) ==> s@ == vstd::utf8::decode_utf8(string_at(old(reader)@).unwrap().0)),
            r.is_err() ==> r->Err_0 is Io,
    {
        let ghost m = reader@;
        proof {
            lemma2_to64();
        }
        let len = reader.read_u32()? as usize;
        let ghost m1 = reader@;
        let mut bytes: Vec<u8> = Vec::new();
        let mut i: usize = 0;
        proof {
            assert(bytes@ =~= bytes_field(m1, 0));
            crate::bitstream::lemma_skip_zero(m1);
        }
        while i < len
            invariant
                reader.wf(),
                i <= len,
                m == old(reader)@,
                read_field(m, 32) == Some((len as nat, m1)),
                8 * i <= m1.len,
                reader@ == skip_bits(m1, 8 * i as nat),
                bytes@ == bytes_field(m1, i as nat),
            decreases len - i,
        {
            let b = match reader.read_u8() {
                Ok(b) => b,
                Err(e) => {
                    proof {
                        assert(8 * len > m1.len);
                    }
                    return Err(e);
                },
            };
            proof {
                crate::bitstream::lemma_skip_skip(m1, 8 * i as nat, 8);
                assert(bytes_field(m1, (i + 1) as nat) =~= bytes_field(m1, i as nat).push(b));
            }
            bytes.push(b);
            i = i + 1;
        }
        Ok(string_from_utf8(bytes))
    }

    /// The vendor string, where it was valid UTF-8.
    pub fn vendor(&self) -> (r: Option<&String>)
        ensures
            r == match self.vendor {
                Some(ref v) => Some(v),
                None => None::<&String>,
            },
    {
        match &self.vendor {
            Some(v) => Some(v),
            None => None,
        }
    }

    /// Number of comments kept.
    pub fn len(&self) -> (r: usize)
        ensures
            r == self.comments@.len(),
    {
        self.comments.len()
    }

    /// The comments as read, `TAG=value` each.
    pub fn raw(&self) -> (r: &Vec<String>)
        ensures
            r == &self.comments,
    {
        &self.comments
    }
}

/// Upper-case names of the standard comment tags.
const NAME_TITLE: [u8; 5] = [84, 73, 84, 76, 69];
const NAME_VERSION: [u8; 7] = [86, 69, 82, 83, 73, 79, 78];
const NAME_ALBUM: [u8; 5] = [65, 76, 66, 85, 77];
const NAME_TRACKNUMBER: [u8; 11] = [84, 82, 65, 67, 75, 78, 85, 77, 66, 69, 82];
const NAME_ARTIST: [u8; 6] = [65, 82, 84, 73, 83, 84];
const NAME_PERFORMER: [u8; 9] = [80, 69, 82, 70, 79, 82, 77, 69, 82];
const NAME_COPYRIGHT: [u8; 9] = [67, 79, 80, 89, 82, 73, 71, 72, 84];
const NAME_LICENSE: [u8; 7] = [76, 73, 67, 69, 78, 83, 69];
const NAME_ORGANIZATION: [u8; 12] = [79, 82, 71, 65, 78, 73, 90, 65, 84, 73, 79, 78];
const NAME_DESCRIPTION: [u8; 11] = [68, 69, 83, 67, 82, 73, 80, 84, 73, 79, 78];
const NAME_GENRE: [u8; 5] = [71, 69, 78, 82, 69];
const NAME_DATE: [u8; 4] = [68, 65, 84, 69];
const NAME_LOCATION: [u8; 8] = [76, 79, 67, 65, 84, 73, 79, 78];
const NAME_CONTACT: [u8; 7] = [67, 79, 78, 84, 65, 67, 84];
const NAME_ISRC: [u8; 4] = [73, 83, 82, 67];

/// The tag of a comment: one of the standard names, or any other.
#[derive(Clone, Debug)]
pub enum CommentTag {
    Title,
    Version,
    Album,
    TrackNumber,
    Artist,
    Performer,
    Copyright,
    License,
    Organization,
    Description,
    Genre,
    Date,
    Location,
    Contact,
    Isrc,
    Custom(String),
}

/// An ASCII letter in upper case; other bytes unchanged.
pub open spec fn upper(c: u8) -> u8 {
    if 97 <= c <= 122 {
        (c - 32) as u8
    } else {
        c
    }
}

/// Equal bytes, ignoring the case of ASCII letters.
pub open spec fn same_ignoring_case(a: Seq<u8>, b: Seq<u8>) -> bool {
    a.len() == b.len() && forall|i: int| 0 <= i < a.len() ==> #[trigger] upper(a[i]) == upper(b[i])
}

/// The upper-case name of a standard tag; empty for a custom one.
pub open spec fn standard_name(t: CommentTag) -> Seq<u8> {
    match t {
        CommentTag::Title => seq![84u8, 73, 84, 76, 69],
        CommentTag::Version => seq![86u8, 69, 82, 83, 73, 79, 78],
        CommentTag::Album => seq![65u8, 76, 66, 85, 77],
        CommentTag::TrackNumber => seq![84u8, 82, 65, 67, 75, 78, 85, 77, 66, 69, 82],
        CommentTag::Artist => seq![65u8, 82, 84, 73, 83, 84],
        CommentTag::Performer => seq![80u8, 69, 82, 70, 79, 82, 77, 69, 82],
        CommentTag::Copyright => seq![67u8, 79, 80, 89, 82, 73, 71, 72, 84],
        CommentTag::License => seq![76u8, 73, 67, 69, 78, 83, 69],
        CommentTag::Organization => seq![79u8, 82, 71, 65, 78, 73, 90, 65, 84, 73, 79, 78],
        CommentTag::Description => seq![68u8, 69, 83, 67, 82, 73, 80, 84, 73, 79, 78],
        CommentTag::Genre => seq![71u8, 69, 78, 82, 69],
        CommentTag::Date => seq![68u8, 65, 84, 69],
        CommentTag::Location => seq![76u8, 79, 67, 65, 84, 73, 79, 78],
        CommentTag::Contact => seq![67u8, 79, 78, 84, 65, 67, 84],
        CommentTag::Isrc => seq![73u8, 83, 82, 67],
        CommentTag::Custom(_) => Seq::empty(),
    }
}

/// The name of a tag: the standard name, or a custom tag's text as UTF-8.
pub open spec fn tag_name(t: CommentTag) -> Seq<u8> {
    match t {
        CommentTag::Custom(s) => vstd::utf8::encode_utf8(s@),
        _ => standard_name(t),
    }
}

/// The bytes name one of the standard tags, ignoring case.
pub open spec fn names_standard_tag(b: Seq<u8>) -> bool {
    same_ignoring_case(standard_name(CommentTag::Title), b) || same_ignoring_case(standard_name(CommentTag::Version), b) || same_ignoring_case(standard_name(CommentTag::Album), b) || same_ignoring_case(standard_name(CommentTag::TrackNumber), b) || same_ignoring_case(standard_name(CommentTag::Artist), b) || same_ignoring_case(standard_name(CommentTag::Performer), b) || same_ignoring_case(standard_name(CommentTag::Copyright), b) || same_ignoring_case(standard_name(CommentTag::License), b) || same_ignoring_case(standard_name(CommentTag::Organization), b) || same_ignoring_case(standard_name(CommentTag::Description), b) || same_ignoring_case(standard_name(CommentTag::Genre), b) || same_ignoring_case(standard_name(CommentTag::Date), b) || same_ignoring_case(standard_name(CommentTag::Location), b) || same_ignoring_case(standard_name(CommentTag::Contact), b) || same_ignoring_case(standard_name(CommentTag::Isrc), b)
}

/// The tag that the name `b` (with characters `chars`) stands for.
pub open spec fn tag_named(r: CommentTag, b: Seq<u8>, chars: Seq<char>) -> bool {
    match r {
        CommentTag::Custom(s) => s@ == chars && !names_standard_tag(b),
        _ => same_ignoring_case(standard_name(r), b),
    }
}

fn upper_byte(c: u8) -> (r: u8)
    ensures
        r == upper(c),
{
    if 97 <= c && c <= 122 {
        c - 32
    } else {
        c
    }
}

fn eq_ignore_case<const N: usize>(b: &[u8], name: &[u8; N]) -> (r: bool)
    ensures
        r == same_ignoring_case(name@, b@),
{
    if b.len() != N {
        return false;
    }
    let mut i: usize = 0;
    while i < N
        invariant
            b@.len() == N,
            name@.len() == N,
            i <= N,
            forall|j: int| 0 <= j < i ==> #[trigger] upper(name@[j]) == upper(b@[j]),
        decreases N - i,
    {
        if upper_byte(name[i]) != upper_byte(b[i]) {
            return false;
        }
        i = i + 1;
    }
    true
}

impl CommentTag {
    /// The tag a name stands for: a standard tag where the name is one of
    /// theirs, ignoring case; else a custom tag.
    pub fn from_name(s: &str) -> (r: CommentTag)
        ensures
            tag_named(r, s.spec_bytes(), s@),
    {
        let b = s.as_bytes();
        proof {
            assert(NAME_TITLE@ == standard_name(CommentTag::Title));
            assert(NAME_VERSION@ == standard_name(CommentTag::Version));
            assert(NAME_ALBUM@ == standard_name(CommentTag::Album));
            assert(NAME_TRACKNUMBER@ == standard_name(CommentTag::TrackNumber));
            assert(NAME_ARTIST@ == standard_name(CommentTag::Artist));
            assert(NAME_PERFORMER@ == standard_name(CommentTag::Performer));
            assert(NAME_COPYRIGHT@ == standard_name(CommentTag::Copyright));
            assert(NAME_LICENSE@ == standard_name(CommentTag::License));
            assert(NAME_ORGANIZATION@ == standard_name(CommentTag::Organization));
            assert(NAME_DESCRIPTION@ == standard_name(CommentTag::Description));
            assert(NAME_GENRE@ == standard_name(CommentTag::Genre));
            assert(NAME_DATE@ == standard_name(CommentTag::Date));
            assert(NAME_LOCATION@ == standard_name(CommentTag::Location));
            assert(NAME_CONTACT@ == standard_name(CommentTag::Contact));
            assert(NAME_ISRC@ == standard_name(CommentTag::Isrc));
        }
        if eq_ignore_case(b, &NAME_TITLE) {
            return CommentTag::Title;
        }
        if eq_ignore_case(b, &NAME_VERSION) {
            return CommentTag::Version;
        }
        if eq_ignore_case(b, &NAME_ALBUM) {
            return CommentTag::Album;
        }
        if eq_ignore_case(b, &NAME_TRACKNUMBER) {
            return CommentTag::TrackNumber;
        }
        if eq_ignore_case(b, &NAME_ARTIST) {
            return CommentTag::Artist;
        }
        if eq_ignore_case(b, &NAME_PERFORMER) {
            return CommentTag::Performer;
        }
        if eq_ignore_case(b, &NAME_COPYRIGHT) {
            return CommentTag::Copyright;
        }
        if eq_ignore_case(b, &NAME_LICENSE) {
            return CommentTag::License;
        }
        if eq_ignore_case(b, &NAME_ORGANIZATION) {
            return CommentTag::Organization;
        }
        if eq_ignore_case(b, &NAME_DESCRIPTION) {
            return CommentTag::Description;
        }
        if eq_ignore_case(b, &NAME_GENRE) {
            return CommentTag::Genre;
        }
        if eq_ignore_case(b, &NAME_DATE) {
            return CommentTag::Date;
        }
        if eq_ignore_case(b, &NAME_LOCATION) {
            return CommentTag::Location;
        }
        if eq_ignore_case(b, &NAME_CONTACT) {
            return CommentTag::Contact;
        }
        if eq_ignore_case(b, &NAME_ISRC) {
            return CommentTag::Isrc;
        }
        CommentTag::Custom(s.to_owned())
    }

    /// Whether `b` is this tag's name, ignoring case.
    fn has_name(&self, b: &[u8]) -> (r: bool)
        ensures
            r == same_ignoring_case(tag_name(*self), b@),
    {
        proof {
            assert(NAME_TITLE@ == standard_name(CommentTag::Title));
            assert(NAME_VERSION@ == standard_name(CommentTag::Version));
            assert(NAME_ALBUM@ == standard_name(CommentTag::Album));
            assert(NAME_TRACKNUMBER@ == standard_name(CommentTag::TrackNumber));
            assert(NAME_ARTIST@ == standard_name(CommentTag::Artist));
            assert(NAME_PERFORMER@ == standard_name(CommentTag::Performer));
            assert(NAME_COPYRIGHT@ == standard_name(CommentTag::Copyright));
            assert(NAME_LICENSE@ == standard_name(CommentTag::License));
            assert(NAME_ORGANIZATION@ == standard_name(CommentTag::Organization));
            assert(NAME_DESCRIPTION@ == standard_name(CommentTag::Description));
            assert(NAME_GENRE@ == standard_name(CommentTag::Genre));
            assert(NAME_DATE@ == standard_name(CommentTag::Date));
            assert(NAME_LOCATION@ == standard_name(CommentTag::Location));
            assert(NAME_CONTACT@ == standard_name(CommentTag::Contact));
            assert(NAME_ISRC@ == standard_name(CommentTag::Isrc));
        }
        match self {
            CommentTag::Title => eq_ignore_case(b, &NAME_TITLE),
            CommentTag::Version => eq_ignore_case(b, &NAME_VERSION),
            CommentTag::Album => eq_ignore_case(b, &NAME_ALBUM),
            CommentTag::TrackNumber => eq_ignore_case(b, &NAME_TRACKNUMBER),
            CommentTag::Artist => eq_ignore_case(b, &NAME_ARTIST),
            CommentTag::Performer => eq_ignore_case(b, &NAME_PERFORMER),
            CommentTag::Copyright => eq_ignore_case(b, &NAME_COPYRIGHT),
            CommentTag::License => eq_ignore_case(b, &NAME_LICENSE),
            CommentTag::Organization => eq_ignore_case(b, &NAME_ORGANIZATION),
            CommentTag::Description => eq_ignore_case(b, &NAME_DESCRIPTION),
            CommentTag::Genre => eq_ignore_case(b, &NAME_GENRE),
            CommentTag::Date => eq_ignore_case(b, &NAME_DATE),
            CommentTag::Location => eq_ignore_case(b, &NAME_LOCATION),
            CommentTag::Contact => eq_ignore_case(b, &NAME_CONTACT),
            CommentTag::Isrc => eq_ignore_case(b, &NAME_ISRC),
            CommentTag::Custom(s) => {
                assert(*self is Custom);
                let own = s.as_str().as_bytes();
                proof {
                    assert(own@ == tag_name(*self));
                }
                if own.len() != b.len() {
                    return false;
                }
                let mut i: usize = 0;
                while i < own.len()
                    invariant
                        *self is Custom,
                        own@ == tag_name(*self),
                        own@.len() == b@.len(),
                        i <= own@.len(),
                        forall|j: int| 0 <= j < i ==> #[trigger] upper(own@[j]) == upper(b@[j]),
                    decreases own@.len() - i,
                {
                    if upper_byte(own[i]) != upper_byte(b[i]) {
                        return false;
                    }
                    i = i + 1;
                }
                true
            },
        }
    }

    /// A custom tag whose name is a standard one becomes that standard tag.
    pub fn normalize(self) -> (r: Self)
        ensures
            !(self is Custom) ==> r == self,
            self matches CommentTag::Custom(s) ==> tag_named(r, vstd::utf8::encode_utf8(s@), s@),
    {
        match self {
            CommentTag::Custom(s) => Self::from_name(s.as_str()),
            t => t,
        }
    }

    /// Position of a standard tag in the list of standard tags; 15 for a custom tag.
    fn standard_index(&self) -> (r: usize)
        ensures
            r == tag_index(*self),
    {
        match self {
            CommentTag::Title => 0,
            CommentTag::Version => 1,
            CommentTag::Album => 2,
            CommentTag::TrackNumber => 3,
            CommentTag::Artist => 4,
            CommentTag::Performer => 5,
            CommentTag::Copyright => 6,
            CommentTag::License => 7,
            CommentTag::Organization => 8,
            CommentTag::Description => 9,
            CommentTag::Genre => 10,
            CommentTag::Date => 11,
            CommentTag::Location => 12,
            CommentTag::Contact => 13,
            CommentTag::Isrc => 14,
            CommentTag::Custom(_) => 15,
        }
    }

    /// Whether two tags have the same name, ignoring case.
    pub fn same_tag(&self, other: &CommentTag) -> (r: bool)
        ensures
            !(*self is Custom) && !(*other is Custom) ==> (r <==> standard_name(*self) == standard_name(*other)),
            *other is Custom ==> r == same_ignoring_case(tag_name(*self), tag_name(*other)),
            *self is Custom && !(*other is Custom) ==> r == same_ignoring_case(tag_name(*other), tag_name(*self)),
            r == tags_match(*self, *other),
    {
        match other {
            CommentTag::Custom(s) => {
                assert(*other is Custom);
                self.has_name(s.as_str().as_bytes())
            },
            _ => match self {
                CommentTag::Custom(s) => {
                    assert(*self is Custom);
                    other.has_name(s.as_str().as_bytes())
                },
                _ => {
                    let r = self.standard_index() == other.standard_index();
                    proof {
                        lemma_standard_names_distinct(*self, *other);
                    }
                    r
                },
            },
        }
    }
}

/// Position of a tag in the list of standard tags; 15 for a custom tag.
pub open spec fn tag_index(t: CommentTag) -> nat {
    match t {
        CommentTag::Title => 0,
        CommentTag::Version => 1,
        CommentTag::Album => 2,
        CommentTag::TrackNumber => 3,
        CommentTag::Artist => 4,
        CommentTag::Performer => 5,
        CommentTag::Copyright => 6,
        CommentTag::License => 7,
        CommentTag::Organization => 8,
        CommentTag::Description => 9,
        CommentTag::Genre => 10,
        CommentTag::Date => 11,
        CommentTag::Location => 12,
        CommentTag::Contact => 13,
        CommentTag::Isrc => 14,
        CommentTag::Custom(_) => 15,
    }
}

/// Different standard tags have different names.
proof fn lemma_standard_names_distinct(a: CommentTag, b: CommentTag)
    requires
        !(a is Custom),
        !(b is Custom),
    ensures
        standard_name(a) == standard_name(b) <==> a == b,
        tag_index(a) == tag_index(b) <==> a == b,
{
    if a != b && standard_name(a) == standard_name(b) {
        let na = standard_name(a);
        let nb = standard_name(b);
        assert(na.len() == nb.len());
        assert(na[0] == nb[0]);
        assert(na[1] == nb[1]);
        assert(na[2] == nb[2]);
    }
}

/// Position of the first `=` in `b`; the length of `b` where there is none.
pub open spec fn eq_index(b: Seq<u8>) -> nat
    decreases b.len(),
{
    if b.len() == 0 {
        0
    } else if b[0] == 61 {
        0
    } else {
        1 + eq_index(b.drop_first())
    }
}

proof fn lemma_eq_index(b: Seq<u8>, k: nat)
    requires
        k <= b.len(),
        forall|j: int| 0 <= j < k ==> b[j] != 61,
        k == b.len() || b[k as int] == 61,
    ensures
        eq_index(b) == k,
    decreases k,
{
    if k > 0 {
        lemma_eq_index(b.drop_first(), (k - 1) as nat);
    }
}

/// The tag and value bytes of the comments (as UTF-8) that hold an `=`,
/// split at the first one, where both parts are valid UTF-8; in order.
pub open spec fn comment_pairs(cs: Seq<String>) -> Seq<(Seq<u8>, Seq<u8>)>
    decreases cs.len(),
{
    if cs.len() == 0 {
        Seq::empty()
    } else {
        let rest = comment_pairs(cs.drop_last());
        let b = vstd::utf8::encode_utf8(cs.last()@);
        let k = eq_index(b);
        if k < b.len() && vstd::utf8::valid_utf8(b.take(k as int)) && vstd::utf8::valid_utf8(b.skip(k as int + 1)) {
            rest.push((b.take(k as int), b.skip(k as int + 1)))
        } else {
            rest
        }
    }
}

/// `all` is the list of tags and values of the comment pairs `ps`.
pub open spec fn tagged_pairs(all: Seq<(CommentTag, String)>, ps: Seq<(Seq<u8>, Seq<u8>)>) -> bool {
    &&& all.len() == ps.len()
    &&& forall|j: int| 0 <= j < all.len() ==> {
        &&& tag_named(#[trigger] all[j].0, ps[j].0, vstd::utf8::decode_utf8(ps[j].0))
        &&& all[j].1@ == vstd::utf8::decode_utf8(ps[j].1)
    }
}

/// Whether two tags have the same name, ignoring case.
pub open spec fn tags_match(a: CommentTag, b: CommentTag) -> bool {
    if !(a is Custom) && !(b is Custom) {
        standard_name(a) == standard_name(b)
    } else if b is Custom {
        same_ignoring_case(tag_name(a), tag_name(b))
    } else {
        same_ignoring_case(tag_name(b), tag_name(a))
    }
}

/// The values, in order, of the entries of `all` whose tag matches `tag`.
pub open spec fn values_with_tag(all: Seq<(CommentTag, String)>, tag: CommentTag) -> Seq<Seq<char>>
    decreases all.len(),
{
    if all.len() == 0 {
        Seq::empty()
    } else {
        let rest = values_with_tag(all.drop_last(), tag);
        if tags_match(all.last().0, tag) {
            rest.push(all.last().1@)
        } else {
            rest
        }
    }
}

impl Comments {
    /// The comments split at their first `=` into a tag and a value.
    /// Comments without `=` are left out.
    pub fn iter(&self) -> (r: Vec<(CommentTag, String)>)
        ensures
            tagged_pairs(r@, comment_pairs(self.comments@)),
    {
        let mut r: Vec<(CommentTag, String)> = Vec::new();
        let mut i: usize = 0;
        proof {
            assert(self.comments@.take(0) =~= Seq::<String>::empty());
        }
        while i < self.comments.len()
            invariant
                i <= self.comments@.len(),
                tagged_pairs(r@, comment_pairs(self.comments@.take(i as int))),
            decreases self.comments@.len() - i,
        {
            let ghost cs = self.comments@.take(i + 1);
            proof {
                assert(cs.drop_last() =~= self.comments@.take(i as int));
                assert(cs.last() == self.comments@[i as int]);
            }
            let b = self.comments[i].as_str().as_bytes();
            let mut k: usize = 0;
            while k < b.len() && b[k] != 61
                invariant
                    k <= b@.len(),
                    forall|j: int| 0 <= j < k ==> b@[j] != 61,
                decreases b@.len() - k,
            {
                k = k + 1;
            }
            proof {
                lemma_eq_index(b@, k as nat);
            }
            let ghost before = r@;
            if k < b.len() {
                let mut tag_bytes: Vec<u8> = Vec::new();
                let mut j: usize = 0;
                while j < k
                    invariant
                        j <= k <= b@.len(),
                        tag_bytes@ == b@.take(j as int),
                    decreases k - j,
                {
                    tag_bytes.push(b[j]);
                    proof {
                        assert(b@.take(j + 1) =~= b@.take(j as int).push(b@[j as int]));
                    }
                    j = j + 1;
                }
                let mut value_bytes: Vec<u8> = Vec::new();
                let mut j: usize = k + 1;
                while j < b.len()
                    invariant
                        k + 1 <= j <= b@.len(),
                        value_bytes@ == b@.subrange(k + 1, j as int),
                    decreases b@.len() - j,
                {
                    value_bytes.push(b[j]);
                    proof {
                        assert(b@.subrange(k + 1, j + 1) =~= b@.subrange(k + 1, j as int).push(b@[j as int]));
                    }
                    j = j + 1;
                }
                proof {
                    assert(value_bytes@ =~= b@.skip(k + 1));
                }
                let ghost tb = tag_bytes@;
                let ghost vb = value_bytes@;
                match (string_from_utf8(tag_bytes), string_from_utf8(value_bytes)) {
                    (Some(tag), Some(value)) => {
                        let t = CommentTag::from_name(tag.as_str());
                        proof {
                            vstd::utf8::decode_utf8_encode_utf8(tb);
                        }
                        r.push((t, value));
                        proof {
                            assert(b@ == vstd::utf8::encode_utf8(cs.last()@));
                            assert(tb == b@.take(k as int));
                            let prev = comment_pairs(cs.drop_last());
                            assert(comment_pairs(cs) == prev.push((tb, vb)));
                            assert(comment_pairs(cs)[before.len() as int] == (tb, vb));
                            assert forall|jj: int| 0 <= jj < r@.len() implies {
                                &&& tag_named(#[trigger] r@[jj].0, comment_pairs(cs)[jj].0, vstd::utf8::decode_utf8(comment_pairs(cs)[jj].0))
                                &&& r@[jj].1@ == vstd::utf8::decode_utf8(comment_pairs(cs)[jj].1)
                            } by {
                                if jj < before.len() {
                                    assert(r@[jj] == before[jj]);
                                    assert(comment_pairs(cs)[jj] == prev[jj]);
                                }
                            }
                        }
                    },
                    _ => {},
                }
            }
            i = i + 1;
        }
        proof {
            assert(self.comments@.take(i as int) =~= self.comments@);
        }
        r
    }

    /// The values of the comments whose tag is `tag`, ignoring case.
    pub fn by_tag(&self, tag: &CommentTag) -> (r: Vec<String>)
        ensures
            exists|all: Seq<(CommentTag, String)>|
                tagged_pairs(all, comment_pairs(self.comments@)) && r@.map_values(|v: String| v@)
                    == values_with_tag(all, *tag),
    {
        let all = self.iter();
        let mut r: Vec<String> = Vec::new();
        let mut i: usize = 0;
        proof {
            assert(all@.take(0) =~= Seq::<(CommentTag, String)>::empty());
            assert(r@.map_values(|v: String| v@) =~= Seq::<Seq<char>>::empty());
        }
        while i < all.len()
            invariant
                i <= all@.len(),
                r@.map_values(|v: String| v@) == values_with_tag(all@.take(i as int), *tag),
            decreases all@.len() - i,
        {
            let ghost prefix = all@.take(i + 1);
            proof {
                assert(prefix.drop_last() =~= all@.take(i as int));
                assert(prefix.last() == all@[i as int]);
            }
            let ghost before = r@;
            if all[i].0.same_tag(tag) {
                r.push(all[i].1.clone());
                proof {
                    assert(r@.map_values(|v: String| v@) =~= before.map_values(|v: String| v@).push(all@[i as int].1@));
                }
            }
            i = i + 1;
        }
        proof {
            assert(all@.take(i as int) =~= all@);
        }
        r
    }
}

} // verus!

use vstd::prelude::*;
use vstd::arithmetic::power2::lemma2_to64;
use crate::bitstream::{BitReader, BitsModel, field, skip_bits, lemma_skip_skip};
use crate::codebook::Codebook;
use crate::error::{Error, Result};
use crate::floor::{Floor, envelope};
use crate::header::{Comments, FrameKind, FrameLens, Header, frame_len_of};
use crate::mapping::Mapping;
use crate::mode::Mode;
use crate::residue::{Residue, ResidueWrite, write_ok};
use crate::util::{Bits, ilog_spec, lemma_ilog_bound};
use crate::window::{OverlapTarget, Window, WindowRange, Windows, window_spec, window_len_spec};

verus! {

/// The packet kinds, as their tag values tell them apart.
#[derive(Clone, Copy, Debug, PartialEq, Eq, Structural)]
pub enum PacketKind {
    Audio,
    Ident,
    Comment,
    Setup,
}

/// The magic bytes `"vorbis"` of header packets.
pub const MAGIC: [u8; 6] = [0x76, 0x6F, 0x72, 0x62, 0x69, 0x73];

/// The tag byte of a packet kind.
pub open spec fn tag_of(k: PacketKind) -> nat {
    match k {
        PacketKind::Audio => 0,
        PacketKind::Ident => 1,
        PacketKind::Comment => 3,
        PacketKind::Setup => 5,
    }
}

/// Whether `t` is the tag of some packet kind.
pub open spec fn is_tag(t: nat) -> bool {
    t == 0 || t == 1 || t == 3 || t == 5
}

/// The six bytes from bit `off` of `m` spell `"vorbis"`.
pub open spec fn magic_at(m: BitsModel, off: nat) -> bool {
    forall|i: int| 0 <= i < 6 ==> field(m, off + 8 * i as nat, 8) == #[trigger] MAGIC@[i]
}

/// A header packet of kind `k` starts the bits of `m`.
pub open spec fn packet_start_ok(m: BitsModel, k: PacketKind) -> bool {
    56 <= m.len && field(m, 0, 8) == tag_of(k) && magic_at(m, 8)
}

impl PacketKind {
    /// Reads a header packet's tag byte and the magic `"vorbis"`, and checks
    /// that the tag is this kind.
    pub fn read(self, reader: &mut BitReader) -> (r: Result<()>)
        requires
            old(reader).wf(),
        ensures
            final(reader).wf(),
            r.is_ok() <==> packet_start_ok(old(reader)@, self),
            r.is_ok() ==> final(reader)@ == skip_bits(old(reader)@, 56),
            8 <= old(reader)@.len && !is_tag(field(old(reader)@, 0, 8)) ==> r.is_err() && r->Err_0 is Undecodable,
            8 <= old(reader)@.len && is_tag(field(old(reader)@, 0, 8)) && field(old(reader)@, 0, 8) != tag_of(self)
                ==> r.is_err() && r->Err_0 is WrongPacketKind,
            56 <= old(reader)@.len && field(old(reader)@, 0, 8) == tag_of(self) && !magic_at(old(reader)@, 8)
                ==> r.is_err() && r->Err_0 is Undecodable,
    {
        let ghost m = reader@;
        proof {
            lemma2_to64();
            assert(skip_bits(m, 0) == m);
        }
        let tag = reader.read_u8()?;
        proof {
            lemma_skip_skip(m, 0, 8);
        }
        let packet_kind = if tag == 0 {
            PacketKind::Audio
        } else if tag == 1 {
            PacketKind::Ident
        } else if tag == 3 {
            PacketKind::Comment
        } else if tag == 5 {
            PacketKind::Setup
        } else {
            return Err(Error::Undecodable("Invalid packet kind"));
        };
        if packet_kind != self {
            return Err(Error::WrongPacketKind("Unexpected packet kind"));
        }
        let mut magic: Vec<u8> = Vec::new();
        let mut i: usize = 0;
        while i < 6
            invariant
                reader.wf(),
                m == old(reader)@,
                field(m, 0, 8) == tag_of(self),
                i <= 6,
                magic@.len() == i,
                8 + 8 * i <= m.len,
                reader@ == skip_bits(m, (8 + 8 * i) as nat),
                forall|j: int| 0 <= j < i ==> #[trigger] magic@[j] == field(m, (8 + 8 * j) as nat, 8),
            decreases 6 - i,
        {
            proof {
                lemma2_to64();
            }
            let b = reader.read_u8()?;
            proof {
                lemma_skip_skip(m, (8 + 8 * i) as nat, 8);
            }
            magic.push(b);
            i = i + 1;
        }
        let mut i: usize = 0;
        while i < 6
            invariant
                reader.wf(),
                m == old(reader)@,
                56 <= m.len,
                reader@ == skip_bits(m, 56),
                field(m, 0, 8) == tag_of(self),
                magic@.len() == 6,
                i <= 6,
                forall|j: int| 0 <= j < 6 ==> #[trigger] magic@[j] == field(m, (8 + 8 * j) as nat, 8),
                forall|j: int| 0 <= j < i ==> field(m, (8 + 8 * j) as nat, 8) == #[trigger] MAGIC@[j],
            decreases 6 - i,
        {
            if magic[i] != MAGIC[i] {
                proof {
                    assert(field(m, (8 + 8 * i) as nat, 8) != MAGIC@[i as int]);
                }
                return Err(Error::Undecodable("Invalid packet magic value"));
            }
            i = i + 1;
        }
        proof {
            assert(magic_at(m, 8));
        }
        Ok(())
    }
}

/// The tables of the setup header.
pub struct Setup {
    pub codebooks: Vec<Codebook>,
    pub floors: Vec<Floor>,
    pub residues: Vec<Residue>,
    pub mappings: Vec<Mapping>,
    pub modes: Vec<Mode>,
}

impl Setup {
    /// Every index between the tables is in range, for `channel_count` channels.
    pub open spec fn wf(&self, channel_count: nat) -> bool {
        &&& 1 <= self.codebooks@.len() <= 256
        &&& forall|i: int| 0 <= i < self.codebooks@.len() ==> (#[trigger] self.codebooks@[i]).wf()
        &&& forall|i: int| 0 <= i < self.floors@.len() ==> (#[trigger] self.floors@[i]).wf(self.codebooks@.len())
        &&& forall|i: int| 0 <= i < self.residues@.len() ==> (#[trigger] self.residues@[i]).wf(self.codebooks@.len())
        &&& forall|i: int| 0 <= i < self.mappings@.len() ==> (#[trigger] self.mappings@[i]).wf(
            channel_count,
            self.floors@.len(),
            self.residues@.len(),
        )
        &&& 1 <= self.modes@.len() <= 64
        &&& forall|i: int| 0 <= i < self.modes@.len() ==> (#[trigger] self.modes@[i]).mapping < self.mappings@.len()
    }

    /// Reads the setup header, after its packet tag and magic.
    pub fn read(reader: &mut BitReader, header: &Header) -> (r: Result<Self>)
        requires
            old(reader).wf(),
            header.wf(),
        ensures
            final(reader).wf(),
            r.is_ok() ==> r.unwrap().wf(header.channel_count as nat),
    {
        proof {
            lemma2_to64();
        }
        let count = reader.read_u8()? as usize + 1;
        let mut codebooks: Vec<Codebook> = Vec::new();
        let mut i: usize = 0;
        while i < count
            invariant
                reader.wf(),
                i <= count <= 256,
                codebooks@.len() == i,
                forall|k: int| 0 <= k < codebooks@.len() ==> (#[trigger] codebooks@[k]).wf(),
            decreases count - i,
        {
            let mut codebook = Codebook::read(reader)?;
            codebook.idx = i;
            codebooks.push(codebook);
            i = i + 1;
        }
        Self::skip_time_domain_trans(reader)?;
        let cb_count = codebooks.len();
        let count = reader.read_u8_bits(6)? as usize + 1;
        let mut floors: Vec<Floor> = Vec::new();
        let mut i: usize = 0;
        while i < count
            invariant
                reader.wf(),
                i <= count,
                floors@.len() == i,
                forall|k: int| 0 <= k < floors@.len() ==> (#[trigger] floors@[k]).wf(cb_count as nat),
            decreases count - i,
        {
            floors.push(Floor::read(reader, cb_count)?);
            i = i + 1;
        }
        let count = reader.read_u8_bits(6)? as usize + 1;
        let mut residues: Vec<Residue> = Vec::new();
        let mut i: usize = 0;
        while i < count
            invariant
                reader.wf(),
                i <= count,
                residues@.len() == i,
                forall|k: int| 0 <= k < residues@.len() ==> (#[trigger] residues@[k]).wf(cb_count as nat),
            decreases count - i,
        {
            residues.push(Residue::read(reader, cb_count)?);
            i = i + 1;
        }
        let count = reader.read_u8_bits(6)? as usize + 1;
        let mut mappings: Vec<Mapping> = Vec::new();
        let mut i: usize = 0;
        while i < count
            invariant
                reader.wf(),
                header.wf(),
                i <= count,
                mappings@.len() == i,
                forall|k: int| 0 <= k < mappings@.len() ==> (#[trigger] mappings@[k]).wf(
                    header.channel_count as nat,
                    floors@.len(),
                    residues@.len(),
                ),
            decreases count - i,
        {
            mappings.push(Mapping::read(reader, header.channel_count, floors.len(), residues.len())?);
            i = i + 1;
        }
        let count = reader.read_u8_bits(6)? as usize + 1;
        let mut modes: Vec<Mode> = Vec::new();
        let mut i: usize = 0;
        while i < count
            invariant
                reader.wf(),
                i <= count <= 64,
                modes@.len() == i,
                forall|k: int| 0 <= k < modes@.len() ==> (#[trigger] modes@[k]).mapping < mappings@.len(),
            decreases count - i,
        {
            modes.push(Mode::read(reader, mappings.len())?);
            i = i + 1;
        }
        if !reader.read_bool()? {
            return Err(Error::Undecodable("Invalid framing bit"));
        }
        Ok(Setup { codebooks, floors, residues, mappings, modes })
    }

    /// Reads the time-domain transform list, whose entries must all be zero.
    fn skip_time_domain_trans(reader: &mut BitReader) -> (r: Result<()>)
        requires
            old(reader).wf(),
        ensures
            final(reader).wf(),
    {
        proof {
            lemma2_to64();
        }
        let len = reader.read_u8_bits(6)? as usize + 1;
        let mut i: usize = 0;
        while i < len
            invariant
                reader.wf(),
                i <= len,
            decreases len - i,
        {
            let value = reader.read_u32_bits(16)?;
            if value != 0 {
                return Err(Error::Undecodable("Non-zero value in time domain transforms"));
            }
            i = i + 1;
        }
        Ok(())
    }
}

/// What an audio packet holds, decoded down to integers: the frame kind, the
/// floor envelope of each channel as inverse-dB table indices (`None` for a
/// channel that is zero), and the residue writes. Turning them into samples
/// is floating-point work: clear the first half-frame of every channel, add
/// the residue writes, decouple, multiply by the envelope, transform, overlap.
#[derive(Debug)]
pub struct PacketPlan {
    pub mode: usize,
    pub mapping: usize,
    pub frame_kind: FrameKind,
    pub frame_len: usize,
    pub floors: Vec<Option<Vec<u8>>>,
    pub residue_writes: Vec<ResidueWrite>,
}

/// Number of bits of the mode number, for `mode_count` modes.
pub open spec fn mode_bits(mode_count: nat) -> nat {
    (ilog_spec(mode_count) - 1) as nat
}

/// Whether the bits of `m` start with a valid audio packet header for `modes`.
pub open spec fn audio_header_ok(m: BitsModel, modes: Seq<Mode>) -> bool {
    let mb = mode_bits(modes.len());
    let idx = field(m, 1, mb);
    &&& 1 + mb <= m.len
    &&& field(m, 0, 1) == 0
    &&& idx < modes.len()
    &&& (modes[idx as int].frame_kind == FrameKind::Long ==> 3 + mb <= m.len)
}

/// Reads the start of an audio packet: the packet type bit, the mode number,
/// and for long frames the two window flags. Returns the mode number.
pub fn read_audio_packet_header(reader: &mut BitReader, modes: &Vec<Mode>) -> (r: Result<usize>)
    requires
        old(reader).wf(),
        1 <= modes@.len() <= 64,
    ensures
        final(reader).wf(),
        r.is_ok() ==> r.unwrap() < modes@.len(),
        r.is_ok() <==> audio_header_ok(old(reader)@, modes@),
        r.is_ok() ==> r.unwrap() == field(old(reader)@, 1, mode_bits(modes@.len())),
        1 <= old(reader)@.len && field(old(reader)@, 0, 1) == 1 ==> r.is_err() && r->Err_0 is WrongPacketKind,
        r.is_err() ==> r->Err_0 is Undecodable || r->Err_0 is Io || r->Err_0 is WrongPacketKind,
{
    let ghost m = reader@;
    proof {
        lemma2_to64();
        assert(skip_bits(m, 0) == m);
    }
    let packet_kind = reader.read_u8_bits(1)?;
    proof {
        lemma_skip_skip(m, 0, 1);
    }
    if packet_kind != 0 {
        return Err(Error::WrongPacketKind("Expected audio packet"));
    }
    let mode_count = modes.len();
    proof {
        lemma_ilog_bound(mode_count as nat, 7);
        assert(ilog_spec(mode_count as nat) >= 1);
    }
    let mode_bits = Bits::ilog(mode_count as u8) - 1;
    let mode_idx = reader.read_u8_bits(mode_bits)? as usize;
    proof {
        lemma_skip_skip(m, 1, mode_bits as nat);
    }
    if mode_idx >= mode_count {
        return Err(Error::Undecodable("Invalid packet mode number"));
    }
    if modes[mode_idx].frame_kind == FrameKind::Long {
        // The flags for the previous and next window shapes are not used.
        reader.read_bool()?;
        reader.read_bool()?;
    }
    Ok(mode_idx)
}

/// Decodes the integer content of an audio packet. `floor_y_lists` holds one
/// scratch list per channel.
pub fn decode_packet(
    setup: &Setup,
    header: &Header,
    reader: &mut BitReader,
    floor_y_lists: &mut Vec<Vec<(u16, bool)>>,
) -> (r: Result<PacketPlan>)
    requires
        header.wf(),
        setup.wf(header.channel_count as nat),
        old(reader).wf(),
        old(floor_y_lists)@.len() == header.channel_count,
    ensures
        final(reader).wf(),
        final(floor_y_lists)@.len() == header.channel_count,
        !audio_header_ok(old(reader)@, setup.modes@) ==> r.is_err(),
        r.is_err() ==> r->Err_0 is Undecodable || r->Err_0 is Io || r->Err_0 is WrongPacketKind,
        r.is_ok() ==> {
            let p = r.unwrap();
            &&& p.mode < setup.modes@.len()
            &&& p.mode == field(old(reader)@, 1, mode_bits(setup.modes@.len()))
            &&& p.frame_kind == setup.modes@[p.mode as int].frame_kind
            &&& p.mapping == setup.modes@[p.mode as int].mapping
            &&& p.frame_len == frame_len_of(header.frame_lens, p.frame_kind)
            &&& p.floors@.len() == header.channel_count
            &&& forall|c: int| 0 <= c < p.floors@.len() ==> (#[trigger] p.floors@[c] matches Some(v) ==> v@.len() == p.frame_len / 2)
            &&& forall|c: int, z: int| 0 <= c < p.floors@.len() && 0 <= z < p.frame_len / 2 && p.floors@[c] is Some ==> {
                let mapping = setup.mappings@[p.mapping as int];
                let floor = setup.floors@[mapping.submaps@[mapping.channel_to_submap@[c] as int].floor as int];
                #[trigger] p.floors@[c]->Some_0@[z] as int == envelope(floor.sorted_x_list@, final(floor_y_lists)@[c]@, floor.mult as int, (p.frame_len / 2) as int, z)
            }
            &&& forall|c: int| 0 <= c < p.floors@.len() ==> (p.floors@[c] is None <==> #[trigger] final(floor_y_lists)@[c]@.len() == 0)
            &&& forall|k: int| 0 <= k < p.residue_writes@.len() ==> write_ok(
                #[trigger] p.residue_writes@[k],
                setup.codebooks@,
                header.channel_count as nat,
                header.frame_lens.long as nat,
            )
        },
{
    let mode_idx = read_audio_packet_header(reader, &setup.modes)?;
    let mode = &setup.modes[mode_idx];
    let frame_len = header.frame_lens.get(mode.frame_kind);
    let half = frame_len / 2;
    let mapping = &setup.mappings[mode.mapping];
    let channel_count = header.channel_count;
    proof {
        assert(mapping.wf(channel_count as nat, setup.floors@.len(), setup.residues@.len()));
        assert(header.frame_lens.wf());
        lemma_frame_len_bounds(header.frame_lens);
    }
    // Begin decoding the floors.
    let mut c: usize = 0;
    while c < channel_count
        invariant
            header.wf(),
            setup.wf(header.channel_count as nat),
            channel_count == header.channel_count,
            mapping.wf(channel_count as nat, setup.floors@.len(), setup.residues@.len()),
            reader.wf(),
            floor_y_lists@.len() == channel_count,
            c <= channel_count,
            forall|k: int| 0 <= k < c ==> (#[trigger] floor_y_lists@[k])@.len() == 0
                || floor_y_lists@[k]@.len() == setup.floors@[mapping.submaps@[mapping.channel_to_submap@[k] as int].floor as int].x_list@.len(),
        decreases channel_count - c,
    {
        let submap_idx = mapping.channel_to_submap[c];
        let floor_idx = mapping.submaps[submap_idx].floor;
        let floor = &setup.floors[floor_idx];
        let mut y_list: Vec<(u16, bool)> = Vec::new();
        floor.begin_decode(&mut y_list, reader, &setup.codebooks)?;
        floor_y_lists.set(c, y_list);
        c = c + 1;
    }
    // Decode the residues.
    let mut zero_channels: Vec<bool> = Vec::new();
    let mut c: usize = 0;
    while c < channel_count
        invariant
            reader.wf(),
            header.wf(),
            setup.wf(header.channel_count as nat),
            channel_count == header.channel_count,
            mapping.wf(channel_count as nat, setup.floors@.len(), setup.residues@.len()),
            forall|k: int| 0 <= k < channel_count ==> (#[trigger] floor_y_lists@[k])@.len() == 0
                || floor_y_lists@[k]@.len() == setup.floors@[mapping.submaps@[mapping.channel_to_submap@[k] as int].floor as int].x_list@.len(),
            c <= channel_count,
            zero_channels@.len() == c,
            floor_y_lists@.len() == channel_count,
        decreases channel_count - c,
    {
        zero_channels.push(floor_y_lists[c].len() == 0);
        c = c + 1;
    }
    mapping.unzero_coupled_channels(&mut zero_channels);
    let mut residue_writes: Vec<ResidueWrite> = Vec::new();
    let mut s: usize = 0;
    while s < mapping.submaps.len()
        invariant
            header.wf(),
            setup.wf(header.channel_count as nat),
            channel_count == header.channel_count,
            mapping.wf(channel_count as nat, setup.floors@.len(), setup.residues@.len()),
            reader.wf(),
            zero_channels@.len() == channel_count,
            floor_y_lists@.len() == channel_count,
            forall|k: int| 0 <= k < channel_count ==> (#[trigger] floor_y_lists@[k])@.len() == 0
                || floor_y_lists@[k]@.len() == setup.floors@[mapping.submaps@[mapping.channel_to_submap@[k] as int].floor as int].x_list@.len(),
            frame_len == frame_len_of(header.frame_lens, mode.frame_kind),
            half == frame_len / 2,
            s <= mapping.submaps@.len(),
            forall|k: int| 0 <= k < residue_writes@.len() ==> write_ok(
                #[trigger] residue_writes@[k],
                setup.codebooks@,
                header.channel_count as nat,
                header.frame_lens.long as nat,
            ),
        decreases mapping.submaps@.len() - s,
    {
        let submap = &mapping.submaps[s];
        let residue = &setup.residues[submap.residue];
        proof {
            assert forall|i: int| 0 <= i < submap.channels@.len() implies #[trigger] submap.channels@[i] < channel_count by {
                lemma_channels_of_bound(mapping.channel_to_submap@, s as nat, i);
            }
            lemma_frame_len_bounds(header.frame_lens);
        }
        let writes = residue.decode(
            reader,
            channel_count,
            header.frame_lens.long,
            &submap.channels,
            &zero_channels,
            &setup.codebooks,
        )?;
        let mut k: usize = 0;
        while k < writes.len()
            invariant
                k <= writes@.len(),
                forall|j: int| 0 <= j < writes@.len() ==> write_ok(
                    #[trigger] writes@[j],
                    setup.codebooks@,
                    header.channel_count as nat,
                    header.frame_lens.long as nat,
                ),
                forall|j: int| 0 <= j < residue_writes@.len() ==> write_ok(
                    #[trigger] residue_writes@[j],
                    setup.codebooks@,
                    header.channel_count as nat,
                    header.frame_lens.long as nat,
                ),
            decreases writes@.len() - k,
        {
            residue_writes.push(writes[k]);
            k = k + 1;
        }
        s = s + 1;
    }
    // Render the floors.
    let mut floors: Vec<Option<Vec<u8>>> = Vec::new();
    let mut c: usize = 0;
    while c < channel_count
        invariant
            reader.wf(),
            header.wf(),
            setup.wf(header.channel_count as nat),
            channel_count == header.channel_count,
            mapping.wf(channel_count as nat, setup.floors@.len(), setup.residues@.len()),
            floor_y_lists@.len() == channel_count,
            forall|k: int| 0 <= k < channel_count ==> (#[trigger] floor_y_lists@[k])@.len() == 0
                || floor_y_lists@[k]@.len() == setup.floors@[mapping.submaps@[mapping.channel_to_submap@[k] as int].floor as int].x_list@.len(),
            c <= channel_count,
            floors@.len() == c,
            half == frame_len / 2,
            half <= 0x8000,
            forall|k: int| 0 <= k < c ==> (#[trigger] floors@[k] matches Some(v) ==> v@.len() == half),
            forall|k: int, z: int| 0 <= k < c && 0 <= z < half && floors@[k] is Some ==> {
                let floor = setup.floors@[mapping.submaps@[mapping.channel_to_submap@[k] as int].floor as int];
                #[trigger] floors@[k]->Some_0@[z] as int == envelope(floor.sorted_x_list@, floor_y_lists@[k]@, floor.mult as int, half as int, z)
            },
            forall|k: int| 0 <= k < c ==> (floors@[k] is None <==> #[trigger] floor_y_lists@[k]@.len() == 0),
            mapping == setup.mappings@[mode.mapping as int],
        decreases channel_count - c,
    {
        if floor_y_lists[c].len() == 0 {
            floors.push(None);
        } else {
            let submap_idx = mapping.channel_to_submap[c];
            let floor_idx = mapping.submaps[submap_idx].floor;
            let floor = &setup.floors[floor_idx];
            let db = floor.render_db(&floor_y_lists[c], half)?;
            floors.push(Some(db));
        }
        c = c + 1;
    }
    Ok(PacketPlan {
        mode: mode_idx,
        mapping: mode.mapping,
        frame_kind: mode.frame_kind,
        frame_len,
        floors,
        residue_writes,
    })
}

proof fn lemma_frame_len_bounds(lens: FrameLens)
    requires
        lens.wf(),
    ensures
        64 <= lens.short <= lens.long <= 8192,
{
    lemma2_to64();
    let e1 = choose|e: nat| crate::header::valid_frame_exp(e) && lens.short == vstd::arithmetic::power2::pow2(e);
    let e2 = choose|e: nat| crate::header::valid_frame_exp(e) && lens.long == vstd::arithmetic::power2::pow2(e);
    crate::bitstream::lemma_pow2_le(6, e1);
    crate::bitstream::lemma_pow2_le(e2, 13);
}

proof fn lemma_channels_of_bound(map: Seq<usize>, s: nat, i: int)
    requires
        0 <= i < crate::mapping::channels_of(map, s).len(),
    ensures
        crate::mapping::channels_of(map, s)[i] < map.len(),
    decreases map.len(),
{
    if map.len() > 0 {
        let rest = crate::mapping::channels_of(map.drop_last(), s);
        if i < rest.len() {
            lemma_channels_of_bound(map.drop_last(), s, i);
        }
    }
}

/// Where the decoder stands between packets: the kinds of the previous and
/// current frames, and the number of samples made ready so far.
#[derive(Clone, Copy, Debug)]
pub struct FrameState {
    pub prev_kind: Option<FrameKind>,
    pub kind: Option<FrameKind>,
    pub pos: u64,
}

/// The state of a new decoder, or of one just reset.
pub open spec fn initial_state() -> FrameState {
    FrameState { prev_kind: None, kind: None, pos: 0 }
}

/// Number of samples that overlapping a `left` frame with a `right` frame makes ready.
pub open spec fn overlap_len(lens: FrameLens, left: FrameKind, right: FrameKind) -> nat {
    window_len_spec(window_spec(frame_len_of(lens, left) as nat, frame_len_of(lens, right) as nat))
}

/// `a + b`, held at the largest 64-bit value.
pub open spec fn add_held(a: nat, b: nat) -> u64 {
    if a + b > u64::MAX {
        u64::MAX
    } else {
        (a + b) as u64
    }
}

/// The state after one audio packet of frame kind `kind`: the current frame
/// becomes the previous one, and where there is a previous frame, its
/// overlap with the new one makes samples ready.
pub open spec fn after_packet(s: FrameState, kind: FrameKind, lens: FrameLens) -> FrameState {
    let prev = if s.kind is Some { s.kind } else { s.prev_kind };
    FrameState {
        prev_kind: prev,
        kind: Some(kind),
        pos: match prev {
            Some(p) => add_held(s.pos as nat, overlap_len(lens, p, kind)),
            None => s.pos,
        },
    }
}

/// The state after the packets of `kinds`, from a new decoder.
pub open spec fn after_packets(kinds: Seq<FrameKind>, lens: FrameLens) -> FrameState
    decreases kinds.len(),
{
    if kinds.len() == 0 {
        initial_state()
    } else {
        after_packet(after_packets(kinds.drop_last(), lens), kinds.last(), lens)
    }
}

/// The samples made ready by the packets of `kinds`: one overlap between
/// each two consecutive frames.
pub open spec fn overlap_total(kinds: Seq<FrameKind>, lens: FrameLens) -> nat
    decreases kinds.len(),
{
    if kinds.len() < 2 {
        0
    } else {
        overlap_total(kinds.drop_last(), lens) + overlap_len(lens, kinds[kinds.len() - 2], kinds.last())
    }
}

/// The range of ready samples, and the frame that holds them, where there is one.
pub open spec fn ready_spec(s: FrameState, lens: FrameLens) -> Option<(OverlapTarget, WindowRange)> {
    match (s.prev_kind, s.kind) {
        (Some(p), Some(k)) => {
            let w = window_spec(frame_len_of(lens, p) as nat, frame_len_of(lens, k) as nat);
            Some(
                match w.overlap_target {
                    OverlapTarget::Left => (OverlapTarget::Left, w.left),
                    OverlapTarget::Right => (OverlapTarget::Right, w.right),
                },
            )
        },
        _ => None,
    }
}

impl FrameState {
    pub fn new() -> (r: Self)
        ensures
            r == initial_state(),
    {
        FrameState { prev_kind: None, kind: None, pos: 0 }
    }

    /// Back to the state of a new decoder; the frame buffers are left as they are.
    pub fn reset(&mut self)
        ensures
            *final(self) == initial_state(),
    {
        self.prev_kind = None;
        self.kind = None;
        self.pos = 0;
    }

    /// Starts a packet: the current frame becomes the previous one. Returns
    /// whether the two frame buffers must be swapped.
    pub fn begin_packet(&mut self) -> (r: bool)
        ensures
            r == old(self).kind is Some,
            final(self).prev_kind == (if old(self).kind is Some { old(self).kind } else { old(self).prev_kind }),
            final(self).kind is None,
            final(self).pos == old(self).pos,
    {
        if self.kind.is_some() {
            self.prev_kind = self.kind;
            self.kind = None;
            true
        } else {
            false
        }
    }

    /// Ends a packet whose frame is of kind `kind`: returns the window to
    /// overlap the previous frame with, if there is a previous frame, and
    /// counts the samples it makes ready.
    pub fn finish_packet(&mut self, kind: FrameKind, windows: &Windows) -> (r: Option<Window>)
        requires
            windows.wf(),
            windows.lens.short <= windows.lens.long <= 0x1_0000,
            old(self).kind is None,
        ensures
            final(self).prev_kind == old(self).prev_kind,
            final(self).kind == Some(kind),
            r == (match old(self).prev_kind {
                Some(p) => Some(window_spec(frame_len_of(windows.lens, p) as nat, frame_len_of(windows.lens, kind) as nat)),
                None => None,
            }),
            final(self).pos == (match old(self).prev_kind {
                Some(p) => add_held(old(self).pos as nat, overlap_len(windows.lens, p, kind)),
                None => old(self).pos,
            }),
    {
        let r = match self.prev_kind {
            Some(p) => {
                let w = windows.get(p, kind);
                proof {
                    lemma_window_wf(windows.lens, p, kind);
                }
                let len = w.len() as u64;
                self.pos = if self.pos > u64::MAX - len { u64::MAX } else { self.pos + len };
                Some(w)
            },
            None => None,
        };
        self.kind = Some(kind);
        r
    }

    /// The range of ready samples and the frame that holds them; `None` where
    /// no overlap has been made since the start or the last reset.
    pub fn ready(&self, windows: &Windows) -> (r: Option<(OverlapTarget, WindowRange)>)
        requires
            windows.wf(),
        ensures
            r == ready_spec(*self, windows.lens),
    {
        match (self.prev_kind, self.kind) {
            (Some(p), Some(k)) => {
                let w = windows.get(p, k);
                match w.overlap_target {
                    OverlapTarget::Left => Some((OverlapTarget::Left, w.left)),
                    OverlapTarget::Right => Some((OverlapTarget::Right, w.right)),
                }
            },
            _ => None,
        }
    }
}

proof fn lemma_window_wf(lens: FrameLens, a: FrameKind, b: FrameKind)
    requires
        lens.short <= lens.long <= 0x1_0000,
    ensures
        window_spec(frame_len_of(lens, a) as nat, frame_len_of(lens, b) as nat).wf(),
{
}

/// The first audio packet after a new decoder or a reset makes no samples
/// ready, and leaves the sample counter at zero.
pub proof fn lemma_first_packet_empty(kind: FrameKind, lens: FrameLens)
    ensures
        ready_spec(after_packet(initial_state(), kind, lens), lens) is None,
        after_packet(initial_state(), kind, lens).pos == 0,
{
}

/// After a run of audio packets, the sample counter is the sum of the
/// lengths of the windows between consecutive frames (while that sum fits
/// in 64 bits).
pub proof fn lemma_pos_is_overlap_total(kinds: Seq<FrameKind>, lens: FrameLens)
    requires
        overlap_total(kinds, lens) <= u64::MAX,
    ensures
        after_packets(kinds, lens).pos == overlap_total(kinds, lens),
        kinds.len() > 0 ==> after_packets(kinds, lens).kind == Some(kinds.last()),
    decreases kinds.len(),
{
    if kinds.len() > 0 {
        let init = kinds.drop_last();
        lemma_pos_is_overlap_total(init, lens);
        if kinds.len() >= 2 {
            assert(init.last() == kinds[kinds.len() - 2]);
        }
    }
}

/// Collects the three header packets of a stream.
pub struct DecoderBuilder {
    pub header: Option<Header>,
    pub comments: Option<Comments>,
    pub setup: Option<Setup>,
}

impl DecoderBuilder {
    pub fn new() -> (r: Self)
        ensures
            r.header is None,
            r.comments is None,
            r.setup is None,
    {
        DecoderBuilder { header: None, comments: None, setup: None }
    }

    /// Reads the identification packet.
    pub fn read_ident_packet(&mut self, reader: &mut BitReader) -> (r: Result<()>)
        requires
            old(reader).wf(),
        ensures
            final(reader).wf(),
            r.is_ok() ==> (final(self).header matches Some(h) && h.wf()),
            r.is_ok() <==> packet_start_ok(old(reader)@, PacketKind::Ident) && crate::header::ident_ok(skip_bits(old(reader)@, 56)),
            r.is_ok() ==> final(self).header.unwrap().matches(skip_bits(old(reader)@, 56)),
            r.is_err() ==> final(self).header == old(self).header,
            final(self).setup == old(self).setup,
    {
        PacketKind::Ident.read(reader)?;
        let header = Header::read(reader)?;
        self.header = Some(header);
        Ok(())
    }

    /// Reads the comment packet.
    pub fn read_comment_packet(&mut self, reader: &mut BitReader) -> (r: Result<()>)
        requires
            old(reader).wf(),
        ensures
            final(reader).wf(),
            final(self).header == old(self).header,
            final(self).setup == old(self).setup,
            r.is_ok() <==> packet_start_ok(old(reader)@, PacketKind::Comment)
                && (crate::header::comment_parts(skip_bits(old(reader)@, 56)) matches Some((_v, _cs, f)) && f == 1),
            r.is_ok() ==> ({
                let (v, cs, _f) = crate::header::comment_parts(skip_bits(old(reader)@, 56)).unwrap();
                let c = final(self).comments.unwrap();
                &&& final(self).comments is Some
                &&& (c.vendor is Some <==> vstd::utf8::valid_utf8(v))
                &&& (c.vendor matches Some(s) ==> s@ == vstd::utf8::decode_utf8(v))
                &&& c.comments@.map_values(|s: String| s@) == crate::header::kept_strings(cs)
            }),
            r.is_err() ==> final(self).comments == old(self).comments,
    {
        PacketKind::Comment.read(reader)?;
        let comments = Comments::read(reader)?;
        self.comments = Some(comments);
        Ok(())
    }

    /// Reads the setup packet; the identification packet must have been read.
    pub fn read_setup_packet(&mut self, reader: &mut BitReader) -> (r: Result<()>)
        requires
            old(reader).wf(),
            old(self).header matches Some(h) && h.wf(),
        ensures
            final(reader).wf(),
            final(self).header == old(self).header,
            r.is_ok() ==> (final(self).setup matches Some(s) && s.wf(final(self).header.unwrap().channel_count as nat)),
    {
        PacketKind::Setup.read(reader)?;
        let setup = match &self.header {
            Some(h) => Setup::read(reader, h)?,
            None => {
                return Err(Error::Undecodable("Setup packet read before the identification packet"));
            },
        };
        self.setup = Some(setup);
        Ok(())
    }

    pub fn header(&self) -> (r: Option<&Header>)
        ensures
            r == match self.header {
                Some(ref h) => Some(h),
                None => None::<&Header>,
            },
    {
        match &self.header {
            Some(h) => Some(h),
            None => None,
        }
    }

    pub fn comments(&self) -> (r: Option<&Comments>)
        ensures
            r == match self.comments {
                Some(ref c) => Some(c),
                None => None::<&Comments>,
            },
    {
        match &self.comments {
            Some(c) => Some(c),
            None => None,
        }
    }
}

} // verus!

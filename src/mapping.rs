use vstd::prelude::*;
use vstd::arithmetic::power2::lemma2_to64;
use crate::bitstream::{BitReader, BitsModel, field, read_field, skip_bits, lemma_skip_skip};
use crate::error::{Error, Result};
use crate::util::{Bits, ilog_spec, lemma_ilog_bound};

verus! {

/// How the channels of a packet are routed to floors and residues, and which
/// pairs of channels are coupled.
#[derive(Debug)]
pub struct Mapping {
    pub channel_couplings: Vec<ChannelCoupling>,
    /// Channel index -> submap index in `submaps`.
    pub channel_to_submap: Vec<usize>,
    pub submaps: Vec<Submap>,
}

/// A coupled pair of channels, stored as magnitude and angle.
#[derive(Debug, Clone, Copy)]
pub struct ChannelCoupling {
    pub mag_channel: usize,
    pub ang_channel: usize,
}

/// One floor and one residue, and the channels routed to them.
#[derive(Debug)]
pub struct Submap {
    pub channels: Vec<usize>,
    pub floor: usize,
    pub residue: usize,
}

/// The channels, in increasing order, that `map` routes to submap `s`.
pub open spec fn channels_of(map: Seq<usize>, s: nat) -> Seq<usize>
    decreases map.len(),
{
    if map.len() == 0 {
        Seq::empty()
    } else {
        let rest = channels_of(map.drop_last(), s);
        if map.last() == s {
            rest.push((map.len() - 1) as usize)
        } else {
            rest
        }
    }
}

/// One coupling step: if either channel of the pair is non-zero, both become non-zero.
pub open spec fn unzero_step(c: ChannelCoupling, z: Seq<bool>) -> Seq<bool> {
    if !z[c.mag_channel as int] || !z[c.ang_channel as int] {
        z.update(c.mag_channel as int, false).update(c.ang_channel as int, false)
    } else {
        z
    }
}

/// The zero flags after applying the coupling steps of `cs` in order.
pub open spec fn unzero_all(cs: Seq<ChannelCoupling>, z: Seq<bool>) -> Seq<bool>
    decreases cs.len(),
{
    if cs.len() == 0 {
        z
    } else {
        unzero_step(cs.last(), unzero_all(cs.drop_last(), z))
    }
}

/// The first `n` channel couplings from `m`, each two `bits`-bit channel
/// numbers that differ and are below `ch`.
pub open spec fn couplings_at(m: BitsModel, n: nat, bits: nat, ch: nat) -> Option<(Seq<ChannelCoupling>, BitsModel)>
    decreases n,
{
    if n == 0 {
        Some((Seq::empty(), m))
    } else {
        match couplings_at(m, (n - 1) as nat, bits, ch) {
            Some((cs, m1)) => match read_field(m1, bits) {
                Some((mag, m2)) => match read_field(m2, bits) {
                    Some((ang, m3)) => if mag == ang || mag >= ch || ang >= ch {
                        None
                    } else {
                        Some((cs.push(ChannelCoupling { mag_channel: mag as usize, ang_channel: ang as usize }), m3))
                    },
                    None => None,
                },
                None => None,
            },
            None => None,
        }
    }
}

/// The submap of each of the first `n` channels: a 4-bit number below `sc`
/// where there are several submaps, else submap 0 without reading.
pub open spec fn muxes_at(m: BitsModel, n: nat, sc: nat) -> Option<(Seq<usize>, BitsModel)>
    decreases n,
{
    if n == 0 {
        Some((Seq::empty(), m))
    } else {
        match muxes_at(m, (n - 1) as nat, sc) {
            Some((xs, m1)) => if sc > 1 {
                match read_field(m1, 4) {
                    Some((v, m2)) => if v < sc {
                        Some((xs.push(v as usize), m2))
                    } else {
                        None
                    },
                    None => None,
                }
            } else {
                Some((xs.push(0usize), m1))
            },
            None => None,
        }
    }
}

/// The floor and residue of each of the first `n` submaps: an unused byte,
/// then a floor below `fl` and a residue below `rs`, a byte each.
pub open spec fn submaps_at(m: BitsModel, n: nat, fl: nat, rs: nat) -> Option<(Seq<(usize, usize)>, BitsModel)>
    decreases n,
{
    if n == 0 {
        Some((Seq::empty(), m))
    } else {
        match submaps_at(m, (n - 1) as nat, fl, rs) {
            Some((ps, m1)) => match read_field(m1, 8) {
                Some((_u, m2)) => match read_field(m2, 8) {
                    Some((f, m3)) => if f >= fl {
                        None
                    } else {
                        match read_field(m3, 8) {
                            Some((r, m4)) => if r >= rs {
                                None
                            } else {
                                Some((ps.push((f as usize, r as usize)), m4))
                            },
                            None => None,
                        }
                    },
                    None => None,
                },
                None => None,
            },
            None => None,
        }
    }
}

/// The mapping type (which must be 0) and the submap count.
pub open spec fn mapping_head(m: BitsModel) -> Option<(nat, BitsModel)> {
    match read_field(m, 16) {
        Some((t, m1)) => if t != 0 {
            None
        } else {
            match read_field(m1, 1) {
                Some((h, m2)) => if h == 1 {
                    match read_field(m2, 4) {
                        Some((v, m3)) => Some((v + 1, m3)),
                        None => None,
                    }
                } else {
                    Some((1, m2))
                },
                None => None,
            }
        },
        None => None,
    }
}

/// The coupling flag and, where it is set, the couplings for `ch` channels.
pub open spec fn mapping_couplings(m: BitsModel, ch: nat) -> Option<(Seq<ChannelCoupling>, BitsModel)> {
    match read_field(m, 1) {
        Some((h, m1)) => if h == 1 {
            match read_field(m1, 8) {
                Some((n, m2)) => couplings_at(m2, n + 1, ilog_spec((ch - 1) as nat), ch),
                None => None,
            }
        } else {
            Some((Seq::empty(), m1))
        },
        None => None,
    }
}

/// The channel submaps and the submaps' floors and residues that follow
/// the couplings `cs` and the reserved bits.
pub open spec fn mapping_tail(m: BitsModel, ch: nat, sc: nat, fl: nat, rs: nat, cs: Seq<ChannelCoupling>) -> Option<(Seq<ChannelCoupling>, Seq<usize>, Seq<(usize, usize)>)> {
    match muxes_at(m, ch, sc) {
        Some((mx, m4)) => submaps_tail(m4, sc, fl, rs, cs, mx),
        None => None,
    }
}

/// The submaps' floors and residues that follow the channel submaps `mx`.
pub open spec fn submaps_tail(m: BitsModel, sc: nat, fl: nat, rs: nat, cs: Seq<ChannelCoupling>, mx: Seq<usize>) -> Option<(Seq<ChannelCoupling>, Seq<usize>, Seq<(usize, usize)>)> {
    match submaps_at(m, sc, fl, rs) {
        Some((sm, _m5)) => Some((cs, mx, sm)),
        None => None,
    }
}

/// The couplings, channel submaps and submap floors and residues of the
/// mapping descriptor that the bits of `m` hold, for `ch` channels, `fl`
/// floors and `rs` residues; `None` where they hold no valid one.
pub open spec fn mapping_parts(m: BitsModel, ch: nat, fl: nat, rs: nat) -> Option<(Seq<ChannelCoupling>, Seq<usize>, Seq<(usize, usize)>)> {
    match mapping_head(m) {
        Some((sc, m1)) => match mapping_couplings(m1, ch) {
            Some((cs, m2)) => match read_field(m2, 2) {
                Some((res, m3)) => if res != 0 {
                    None
                } else {
                    mapping_tail(m3, ch, sc, fl, rs, cs)
                },
                None => None,
            },
            None => None,
        },
        None => None,
    }
}

proof fn lemma_couplings_none(m: BitsModel, a: nat, b: nat, bits: nat, ch: nat)
    requires
        a <= b,
        couplings_at(m, a, bits, ch) is None,
    ensures
        couplings_at(m, b, bits, ch) is None,
    decreases b,
{
    if a < b {
        lemma_couplings_none(m, a, (b - 1) as nat, bits, ch);
    }
}

proof fn lemma_muxes_none(m: BitsModel, a: nat, b: nat, sc: nat)
    requires
        a <= b,
        muxes_at(m, a, sc) is None,
    ensures
        muxes_at(m, b, sc) is None,
    decreases b,
{
    if a < b {
        lemma_muxes_none(m, a, (b - 1) as nat, sc);
    }
}

proof fn lemma_submaps_none(m: BitsModel, a: nat, b: nat, fl: nat, rs: nat)
    requires
        a <= b,
        submaps_at(m, a, fl, rs) is None,
    ensures
        submaps_at(m, b, fl, rs) is None,
    decreases b,
{
    if a < b {
        lemma_submaps_none(m, a, (b - 1) as nat, fl, rs);
    }
}

impl Mapping {
    /// Indices are in range for `channel_count` channels, `floor_count` floors
    /// and `residue_count` residues, and each submap lists its channels.
    pub open spec fn wf(&self, channel_count: nat, floor_count: nat, residue_count: nat) -> bool {
        &&& forall|i: int|
            0 <= i < self.channel_couplings@.len() ==> {
                let c = #[trigger] self.channel_couplings@[i];
                &&& c.mag_channel < channel_count
                &&& c.ang_channel < channel_count
                &&& c.mag_channel != c.ang_channel
            }
        &&& self.channel_to_submap@.len() == channel_count
        &&& 1 <= self.submaps@.len() <= 16
        &&& forall|i: int|
            0 <= i < channel_count ==> #[trigger] self.channel_to_submap@[i] < self.submaps@.len()
        &&& forall|s: int|
            0 <= s < self.submaps@.len() ==> {
                let sm = #[trigger] self.submaps@[s];
                &&& sm.floor < floor_count
                &&& sm.residue < residue_count
                &&& sm.channels@ == channels_of(self.channel_to_submap@, s as nat)
            }
    }

    /// Reads a mapping descriptor.
    pub fn read(
        reader: &mut BitReader,
        channel_count: usize,
        floor_count: usize,
        residue_count: usize,
    ) -> (r: Result<Self>)
        requires
            old(reader).wf(),
            0 < channel_count <= 255,
        ensures
            final(reader).wf(),
            16 <= old(reader)@.len && field(old(reader)@, 0, 16) != 0 ==> r.is_err() && r->Err_0 is Undecodable,
            r.is_err() && final(reader)@.len > 0 ==> r->Err_0 is Undecodable,
            r.is_err() && r->Err_0 is Io ==> final(reader)@.len == 0,
            r.is_ok() ==> r.unwrap().wf(channel_count as nat, floor_count as nat, residue_count as nat),
            r.is_ok() <==> mapping_parts(old(reader)@, channel_count as nat, floor_count as nat, residue_count as nat) is Some,
            r.is_ok() ==> ({
                let p = mapping_parts(old(reader)@, channel_count as nat, floor_count as nat, residue_count as nat).unwrap();
                &&& r.unwrap().channel_couplings@ == p.0
                &&& r.unwrap().channel_to_submap@ == p.1
                &&& r.unwrap().submaps@.len() == p.2.len()
                &&& forall|s: int| 0 <= s < p.2.len() ==> (#[trigger] r.unwrap().submaps@[s]).floor == p.2[s].0
                    && r.unwrap().submaps@[s].residue == p.2[s].1
            }),
            r.is_err() ==> r->Err_0 is Undecodable || r->Err_0 is Io,
            field(old(reader)@, 0, 16) != 0 ==> r.is_err(),
    {
        let ghost m = reader@;
        let ghost ch = channel_count as nat;
        proof {
            lemma2_to64();
        }
        let ghost c0 = reader@;
        let t = reader.read_u16()?;
        if t != 0 {
            return Err(Error::Undecodable("Unsupported mapping type"));
        }
        let ghost c1 = reader@;
        let has_submaps = reader.read_bool()?;
        let ghost c2 = reader@;
        let submap_count = if has_submaps {
            let n = reader.read_u8_bits(4)? as usize + 1;
            n
        } else {
            1
        };
        let ghost c3 = reader@;
        proof {
            assert(mapping_head(m) == Some((submap_count as nat, c3)));
        }
        let has_channel_couplings = match reader.read_bool() {
            Ok(v) => v,
            Err(e) => {
                return Err(e);
            },
        };
        let ghost c4 = reader@;
        let mut channel_couplings: Vec<ChannelCoupling> = Vec::new();
        proof {
            lemma_ilog_bound((channel_count - 1) as nat, 8);
        }
        let channel_index_bits = Bits::ilog((channel_count - 1) as u32);
        if has_channel_couplings {
            let len = reader.read_u8()? as usize + 1;
            let ghost c5 = reader@;
            proof {
                assert(mapping_couplings(c3, ch) == couplings_at(c5, len as nat, channel_index_bits as nat, ch));
            }
            let mut k: usize = 0;
            proof {
                assert(channel_couplings@ =~= Seq::<ChannelCoupling>::empty());
            }
            while k < len
                invariant
                    reader.wf(),
                    channel_index_bits <= 8,
                    channel_index_bits == ilog_spec((channel_count - 1) as nat),
                    k <= len,
                    couplings_at(c5, k as nat, channel_index_bits as nat, ch) == Some((channel_couplings@, reader@)),
                    ch == channel_count,
                    m == old(reader)@,
                    field(m, 0, 16) == 0,
                    mapping_head(m) == Some((submap_count as nat, c3)),
                    mapping_couplings(c3, ch) == couplings_at(c5, len as nat, channel_index_bits as nat, ch),
                    forall|i: int|
                        0 <= i < channel_couplings@.len() ==> {
                            let c = #[trigger] channel_couplings@[i];
                            &&& c.mag_channel < channel_count
                            &&& c.ang_channel < channel_count
                            &&& c.mag_channel != c.ang_channel
                        },
                decreases len - k,
            {
                let mag_channel = match reader.read_u8_bits(channel_index_bits) {
                    Ok(v) => v as usize,
                    Err(e) => {
                        proof {
                            lemma_couplings_none(c5, (k + 1) as nat, len as nat, channel_index_bits as nat, ch);
                        }
                        return Err(e);
                    },
                };
                let ang_channel = match reader.read_u8_bits(channel_index_bits) {
                    Ok(v) => v as usize,
                    Err(e) => {
                        proof {
                            lemma_couplings_none(c5, (k + 1) as nat, len as nat, channel_index_bits as nat, ch);
                        }
                        return Err(e);
                    },
                };
                if mag_channel == ang_channel || mag_channel >= channel_count || ang_channel
                    >= channel_count {
                    proof {
                        lemma_couplings_none(c5, (k + 1) as nat, len as nat, channel_index_bits as nat, ch);
                    }
                    return Err(Error::Undecodable("Invalid values of (magnitude, angle) channel pair"));
                }
                channel_couplings.push(ChannelCoupling { mag_channel, ang_channel });
                k = k + 1;
            }
        }
        let ghost c6 = reader@;
        proof {
            assert(mapping_couplings(c3, ch) == Some((channel_couplings@, c6)));
        }
        let reserved = reader.read_u8_bits(2)?;
        if reserved != 0 {
            return Err(Error::Undecodable("Unexpected data in reserved field"));
        }
        let ghost c7 = reader@;
        proof {
            assert(mapping_parts(m, ch, floor_count as nat, residue_count as nat) == mapping_tail(c7, ch, submap_count as nat, floor_count as nat, residue_count as nat, channel_couplings@));
        }
        let mut channel_to_submap: Vec<usize> = Vec::new();
        let mut c: usize = 0;
        proof {
            assert(channel_to_submap@ =~= Seq::<usize>::empty());
        }
        while c < channel_count
            invariant
                reader.wf(),
                c <= channel_count,
                channel_to_submap@.len() == c,
                1 <= submap_count <= 16,
                forall|i: int| 0 <= i < c ==> #[trigger] channel_to_submap@[i] < submap_count,
                muxes_at(c7, c as nat, submap_count as nat) == Some((channel_to_submap@, reader@)),
                m == old(reader)@,
                    field(m, 0, 16) == 0,
                ch == channel_count,
                mapping_parts(m, ch, floor_count as nat, residue_count as nat) == mapping_tail(c7, ch, submap_count as nat, floor_count as nat, residue_count as nat, channel_couplings@),
            decreases channel_count - c,
        {
            let submap_idx = if submap_count > 1 {
                match reader.read_u8_bits(4) {
                    Ok(v) => v as usize,
                    Err(e) => {
                        proof {
                            lemma_muxes_none(c7, (c + 1) as nat, channel_count as nat, submap_count as nat);
                        }
                        return Err(e);
                    },
                }
            } else {
                0
            };
            if submap_idx >= submap_count {
                proof {
                    lemma_muxes_none(c7, (c + 1) as nat, channel_count as nat, submap_count as nat);
                }
                return Err(Error::Undecodable("Invalid mapping mux value"));
            }
            channel_to_submap.push(submap_idx);
            c = c + 1;
        }
        let ghost c8 = reader@;
        proof {
            assert(mapping_parts(m, ch, floor_count as nat, residue_count as nat) == submaps_tail(c8, submap_count as nat, floor_count as nat, residue_count as nat, channel_couplings@, channel_to_submap@));
        }
        let mut submaps: Vec<Submap> = Vec::new();
        let mut submap_idx: usize = 0;
        let ghost mut pairs: Seq<(usize, usize)> = Seq::empty();
        while submap_idx < submap_count
            invariant
                reader.wf(),
                submap_idx <= submap_count,
                1 <= submap_count <= 16,
                submaps@.len() == submap_idx,
                channel_to_submap@.len() == channel_count,
                submaps_at(c8, submap_idx as nat, floor_count as nat, residue_count as nat) == Some((pairs, reader@)),
                m == old(reader)@,
                    field(m, 0, 16) == 0,
                ch == channel_count,
                mapping_parts(m, ch, floor_count as nat, residue_count as nat) == submaps_tail(c8, submap_count as nat, floor_count as nat, residue_count as nat, channel_couplings@, channel_to_submap@),
                pairs.len() == submap_idx,
                forall|s: int|
                    0 <= s < submap_idx ==> {
                        let sm = #[trigger] submaps@[s];
                        &&& sm.floor < floor_count
                        &&& sm.residue < residue_count
                        &&& sm.channels@ == channels_of(channel_to_submap@, s as nat)
                        &&& sm.floor == pairs[s].0 && sm.residue == pairs[s].1
                    },
            decreases submap_count - submap_idx,
        {
            // Unused.
            let ghost s0 = reader@;
            match reader.read_u8() {
                Ok(_) => {},
                Err(e) => {
                    proof {
                        lemma_submaps_none(c8, (submap_idx + 1) as nat, submap_count as nat, floor_count as nat, residue_count as nat);
                    }
                    return Err(e);
                },
            }
            let floor = match reader.read_u8() {
                Ok(v) => v as usize,
                Err(e) => {
                    proof {
                        lemma_submaps_none(c8, (submap_idx + 1) as nat, submap_count as nat, floor_count as nat, residue_count as nat);
                    }
                    return Err(e);
                },
            };
            if floor >= floor_count {
                proof {
                    lemma_submaps_none(c8, (submap_idx + 1) as nat, submap_count as nat, floor_count as nat, residue_count as nat);
                }
                return Err(Error::Undecodable("Invalid mapping floor value"));
            }
            let residue = match reader.read_u8() {
                Ok(v) => v as usize,
                Err(e) => {
                    proof {
                        lemma_submaps_none(c8, (submap_idx + 1) as nat, submap_count as nat, floor_count as nat, residue_count as nat);
                    }
                    return Err(e);
                },
            };
            if residue >= residue_count {
                proof {
                    lemma_submaps_none(c8, (submap_idx + 1) as nat, submap_count as nat, floor_count as nat, residue_count as nat);
                }
                return Err(Error::Undecodable("Invalid mapping residue value"));
            }
            let channels = channels_routed_to(&channel_to_submap, submap_idx);
            submaps.push(Submap { channels, floor, residue });
            proof {
                pairs = pairs.push((floor, residue));
            }
            submap_idx = submap_idx + 1;
        }
        Ok(Mapping { channel_couplings, channel_to_submap, submaps })
    }

    /// Marks both channels of a coupled pair as non-zero where either one is.
    pub fn unzero_coupled_channels(&self, zero_channels: &mut Vec<bool>)
        requires
            forall|i: int|
                0 <= i < self.channel_couplings@.len() ==> {
                    let c = #[trigger] self.channel_couplings@[i];
                    &&& c.mag_channel < old(zero_channels)@.len()
                    &&& c.ang_channel < old(zero_channels)@.len()
                },
        ensures
            final(zero_channels)@ == unzero_all(self.channel_couplings@, old(zero_channels)@),
            final(zero_channels)@.len() == old(zero_channels)@.len(),
    {
        let n = self.channel_couplings.len();
        let mut i: usize = 0;
        while i < n
            invariant
                n == self.channel_couplings@.len(),
                i <= n,
                zero_channels@.len() == old(zero_channels)@.len(),
                zero_channels@ == unzero_all(self.channel_couplings@.take(i as int), old(zero_channels)@),
                forall|j: int|
                    0 <= j < self.channel_couplings@.len() ==> {
                        let c = #[trigger] self.channel_couplings@[j];
                        &&& c.mag_channel < old(zero_channels)@.len()
                        &&& c.ang_channel < old(zero_channels)@.len()
                    },
            decreases n - i,
        {
            let c = self.channel_couplings[i];
            let m = c.mag_channel;
            let a = c.ang_channel;
            proof {
                let cs = self.channel_couplings@.take(i + 1);
                assert(cs.drop_last() =~= self.channel_couplings@.take(i as int));
                assert(cs.last() == c);
            }
            if !zero_channels[m] || !zero_channels[a] {
                zero_channels.set(m, false);
                zero_channels.set(a, false);
            }
            i = i + 1;
        }
        proof {
            assert(self.channel_couplings@.take(n as int) =~= self.channel_couplings@);
        }
    }
}

/// The channels, in increasing order, that `channel_to_submap` routes to `submap`.
fn channels_routed_to(channel_to_submap: &Vec<usize>, submap: usize) -> (r: Vec<usize>)
    ensures
        r@ == channels_of(channel_to_submap@, submap as nat),
{
    let mut r: Vec<usize> = Vec::new();
    let mut i: usize = 0;
    proof {
        assert(channel_to_submap@.take(0) =~= Seq::<usize>::empty());
    }
    while i < channel_to_submap.len()
        invariant
            i <= channel_to_submap@.len(),
            r@ == channels_of(channel_to_submap@.take(i as int), submap as nat),
        decreases channel_to_submap@.len() - i,
    {
        proof {
            let t = channel_to_submap@.take(i + 1);
            assert(t.drop_last() =~= channel_to_submap@.take(i as int));
        }
        if channel_to_submap[i] == submap {
            r.push(i);
        }
        i = i + 1;
    }
    proof {
        assert(channel_to_submap@.take(i as int) =~= channel_to_submap@);
    }
    r
}

} // verus!

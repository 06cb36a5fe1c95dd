use vstd::prelude::*;
use vstd::arithmetic::power2::lemma2_to64;
use crate::bitstream::{BitReader, BitsModel, field, skip_bits, lemma_skip_skip};
use crate::error::{Error, Result};
use crate::header::FrameKind;

verus! {

/// A mode: the frame size and the mapping that an audio packet uses.
#[derive(Debug)]
pub struct Mode {
    pub frame_kind: FrameKind,
    pub mapping: usize,
}

/// Whether the bits of `m` hold a valid mode descriptor for `mapping_count` mappings.
pub open spec fn mode_ok(m: BitsModel, mapping_count: nat) -> bool {
    &&& 41 <= m.len
    &&& field(m, 1, 16) == 0
    &&& field(m, 17, 16) == 0
    &&& field(m, 33, 8) < mapping_count
}

impl Mode {
    /// Reads a mode descriptor; its mapping must be below `mapping_count`.
    pub fn read(reader: &mut BitReader, mapping_count: usize) -> (r: Result<Mode>)
        requires
            old(reader).wf(),
        ensures
            final(reader).wf(),
            r.is_ok() <==> mode_ok(old(reader)@, mapping_count as nat),
            r.is_ok() ==> final(reader)@ == skip_bits(old(reader)@, 41),
            r.is_ok() ==> r.unwrap().mapping == field(old(reader)@, 33, 8),
            r.is_ok() ==> (r.unwrap().frame_kind == FrameKind::Long <==> field(old(reader)@, 0, 1)
                == 1),
            r.is_ok() ==> r.unwrap().mapping < mapping_count,
    {
        let ghost m = reader@;
        proof {
            lemma2_to64();
            assert(skip_bits(m, 0) == m);
        }
        let frame_kind = if reader.read_bool()? {
            FrameKind::Long
        } else {
            FrameKind::Short
        };
        proof {
            lemma_skip_skip(m, 0, 1);
        }
        if reader.read_u16()? != 0 {
            return Err(Error::Undecodable("Invalid mode window type"));
        }
        proof {
            lemma_skip_skip(m, 1, 16);
        }
        if reader.read_u16()? != 0 {
            return Err(Error::Undecodable("Invalid mode transform type"));
        }
        proof {
            lemma_skip_skip(m, 17, 16);
        }
        let mapping = reader.read_u8()? as usize;
        proof {
            lemma_skip_skip(m, 33, 8);
        }
        if mapping >= mapping_count {
            return Err(Error::Undecodable("Invalid mode mapping"));
        }
        Ok(Mode { frame_kind, mapping })
    }
}

} // verus!

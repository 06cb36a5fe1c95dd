use vorbis::bitstream::BitReader;
use vorbis::codebook::{lookup1_value_count, Codebook, LookupKind};
use vorbis::decoder::{decode_packet, FrameState, PacketKind};
use vorbis::DecoderBuilder;
use vorbis::floor::{Class, Floor};
use vorbis::header::{CommentTag, Comments, FrameKind, FrameLens, Header};
use vorbis::mapping::{ChannelCoupling, Mapping, Submap};
use vorbis::mode::Mode;
use vorbis::residue::{Residue, ResidueKind};
use vorbis::window::{OverlapTarget, WindowRange, Windows};
use vorbis::ErrorKind;

/// Writes values least significant bit first, as the reader reads them.
struct BitWriter {
    bytes: Vec<u8>,
    nbits: usize,
}

impl BitWriter {
    fn new() -> Self {
        BitWriter { bytes: Vec::new(), nbits: 0 }
    }

    fn put(&mut self, value: u64, len: usize) -> &mut Self {
        for k in 0..len {
            if self.nbits % 8 == 0 {
                self.bytes.push(0);
            }
            if (value >> k) & 1 == 1 {
                let last = self.bytes.len() - 1;
                self.bytes[last] |= 1 << (self.nbits % 8);
            }
            self.nbits += 1;
        }
        self
    }

    fn reader(&self) -> BitReader {
        BitReader::new(self.bytes.clone())
    }
}

fn ident_body(channels: u64, rate: u64, short_exp: u64, long_exp: u64, framing: u64) -> BitWriter {
    let mut w = BitWriter::new();
    w.put(0, 32).put(channels, 8).put(rate, 32);
    // Sign and magnitude: the top bit is the sign.
    w.put(320000, 32).put(128000, 32).put(5 | (1 << 31), 32);
    w.put(short_exp, 4).put(long_exp, 4).put(framing, 1);
    w
}

#[test]
fn header_read() {
    let h = Header::read(&mut ident_body(2, 44100, 8, 11, 1).reader()).unwrap();
    assert_eq!(h.channel_count(), 2);
    assert_eq!(h.sample_rate(), 44100);
    assert_eq!(h.bitrates().max(), 320000);
    assert_eq!(h.bitrates().nom(), 128000);
    assert_eq!(h.bitrates().min(), -5);
    assert_eq!(h.frame_lens().short(), 256);
    assert_eq!(h.frame_lens().long(), 2048);
    assert_eq!(h.frame_lens().get(FrameKind::Long), 2048);
}

#[test]
fn header_rejections() {
    assert_eq!(Header::read(&mut ident_body(0, 44100, 8, 11, 1).reader()).unwrap_err().kind(), ErrorKind::Undecodable);
    assert_eq!(Header::read(&mut ident_body(1, 0, 8, 11, 1).reader()).unwrap_err().kind(), ErrorKind::Undecodable);
    assert_eq!(Header::read(&mut ident_body(1, 8000, 5, 11, 1).reader()).unwrap_err().kind(), ErrorKind::Undecodable);
    assert_eq!(Header::read(&mut ident_body(1, 8000, 8, 14, 1).reader()).unwrap_err().kind(), ErrorKind::Undecodable);
    assert_eq!(Header::read(&mut ident_body(1, 8000, 11, 8, 1).reader()).unwrap_err().kind(), ErrorKind::Undecodable);
    assert_eq!(Header::read(&mut ident_body(1, 8000, 8, 11, 0).reader()).unwrap_err().kind(), ErrorKind::Undecodable);
    let mut w = BitWriter::new();
    w.put(0, 32).put(1, 8);
    assert_eq!(Header::read(&mut w.reader()).unwrap_err().kind(), ErrorKind::Io);
}

#[test]
fn packet_kind_and_magic() {
    let mut w = BitWriter::new();
    w.put(1, 8);
    for &b in b"vorbis".iter() {
        w.put(b as u64, 8);
    }
    assert!(PacketKind::Ident.read(&mut w.reader()).is_ok());
    assert_eq!(PacketKind::Setup.read(&mut w.reader()).unwrap_err().kind(), ErrorKind::WrongPacketKind);
    let mut w = BitWriter::new();
    w.put(2, 8);
    assert_eq!(PacketKind::Ident.read(&mut w.reader()).unwrap_err().kind(), ErrorKind::Undecodable);
    let mut w = BitWriter::new();
    w.put(3, 8);
    for &b in b"vorbix".iter() {
        w.put(b as u64, 8);
    }
    assert_eq!(PacketKind::Comment.read(&mut w.reader()).unwrap_err().kind(), ErrorKind::Undecodable);
}

#[test]
fn comments_read() {
    let mut w = BitWriter::new();
    w.put(3, 32);
    for &b in b"abc".iter() {
        w.put(b as u64, 8);
    }
    w.put(2, 32);
    w.put(7, 32);
    for &b in b"TITLE=x".iter() {
        w.put(b as u64, 8);
    }
    w.put(2, 32).put(0xFF, 8).put(0xFE, 8);
    w.put(1, 1);
    let c = Comments::read(&mut w.reader()).unwrap();
    assert_eq!(c.vendor().unwrap(), "abc");
    assert_eq!(c.len(), 1);
    assert_eq!(c.raw()[0], "TITLE=x");
}

#[test]
fn mode_read() {
    let mut w = BitWriter::new();
    w.put(1, 1).put(0, 16).put(0, 16).put(1, 8);
    let m = Mode::read(&mut w.reader(), 2).unwrap();
    assert_eq!(m.frame_kind, FrameKind::Long);
    assert_eq!(m.mapping, 1);
    assert_eq!(Mode::read(&mut w.reader(), 1).unwrap_err().kind(), ErrorKind::Undecodable);
    let mut w = BitWriter::new();
    w.put(0, 1).put(1, 16).put(0, 16).put(0, 8);
    assert_eq!(Mode::read(&mut w.reader(), 1).unwrap_err().kind(), ErrorKind::Undecodable);
}

#[test]
fn mapping_read_and_unzero() {
    let mut w = BitWriter::new();
    // Type 0, one submap, one coupling (0, 1), reserved, submap: unused, floor 0, residue 0.
    w.put(0, 16).put(0, 1).put(1, 1).put(0, 8).put(0, 1).put(1, 1).put(0, 2);
    w.put(0, 8).put(0, 8).put(0, 8);
    let m = Mapping::read(&mut w.reader(), 2, 1, 1).unwrap();
    assert_eq!(m.channel_to_submap, vec![0, 0]);
    assert_eq!(m.submaps[0].channels, vec![0, 1]);
    let mut z = vec![true, false];
    m.unzero_coupled_channels(&mut z);
    assert_eq!(z, vec![false, false]);
    let mut z = vec![true, true];
    m.unzero_coupled_channels(&mut z);
    assert_eq!(z, vec![true, true]);

    let mut w = BitWriter::new();
    w.put(0, 16).put(0, 1).put(1, 1).put(0, 8).put(1, 1).put(1, 1).put(0, 2);
    assert_eq!(Mapping::read(&mut w.reader(), 2, 1, 1).unwrap_err().kind(), ErrorKind::Undecodable);
}

#[test]
fn unzero_is_ordered() {
    let m = Mapping {
        channel_couplings: vec![
            ChannelCoupling { mag_channel: 0, ang_channel: 1 },
            ChannelCoupling { mag_channel: 1, ang_channel: 2 },
        ],
        channel_to_submap: vec![0, 0, 0],
        submaps: vec![Submap { channels: vec![0, 1, 2], floor: 0, residue: 0 }],
    };
    let mut z = vec![false, true, true];
    m.unzero_coupled_channels(&mut z);
    assert_eq!(z, vec![false, false, false]);
}

#[test]
fn codebook_read_and_lookup() {
    let mut w = BitWriter::new();
    w.put(0x42, 8).put(0x43, 8).put(0x56, 8);
    w.put(2, 16).put(4, 24).put(0, 1).put(0, 1);
    for _ in 0..4 {
        w.put(1, 5);
    }
    w.put(1, 4).put(0, 32).put(0, 32).put(3, 4).put(0, 1);
    w.put(5, 4).put(9, 4);
    // The code of entry 2 is 10, read most significant bit first.
    w.put(1, 1).put(0, 1);
    let mut r = w.reader();
    let cb = Codebook::read(&mut r).unwrap();
    assert_eq!(cb.dim_count, 2);
    assert_eq!(cb.entry_count, 4);
    let t = cb.lookup_table.as_ref().unwrap();
    assert_eq!(t.kind, LookupKind::Lookup1);
    assert_eq!(t.mults, vec![5, 9]);
    assert_eq!(cb.decode_vq(&mut r).unwrap(), 2);
    assert_eq!(t.lookup(2, 4), vec![0, 1]);
    assert_eq!(t.lookup(1, 4), vec![1, 0]);

    let mut w = BitWriter::new();
    w.put(0x42, 8).put(0x43, 8).put(0x57, 8);
    assert_eq!(Codebook::read(&mut w.reader()).err().unwrap().kind(), ErrorKind::Undecodable);
}

#[test]
fn lookup1_counts() {
    assert_eq!(lookup1_value_count(16, 2), 4);
    assert_eq!(lookup1_value_count(17, 2), 4);
    assert_eq!(lookup1_value_count(15, 2), 3);
    assert_eq!(lookup1_value_count(8, 3), 2);
    assert_eq!(lookup1_value_count(1, 5), 1);
    assert_eq!(lookup1_value_count(100, 1), 100);
    assert_eq!(lookup1_value_count(0, 3), 0);
}

fn sample_floor() -> Floor {
    Floor {
        mult: 1,
        range: 256,
        part_classes: vec![0],
        classes: vec![Class { dim_count: 1, subclass_bit_count: 0, master_book: None, subclass_books: vec![None] }],
        x_list: vec![0, 128, 64],
        sorted_x_list: vec![(0, 0), (2, 64), (1, 128)],
        neighbors: vec![(0, 1)],
    }
}

#[test]
fn floor_amplitudes() {
    let f = sample_floor();
    assert_eq!(Floor::render_point(0, 10, 128, 20, 64), 15);
    assert_eq!(Floor::render_point(0, 20, 128, 10, 64), 15);
    let mut y = vec![(10, true), (20, true), (3, true)];
    f.decode_amplitude(&mut y);
    assert_eq!(y[2], (13, true));
    let mut y = vec![(10, true), (20, true), (0, true)];
    f.decode_amplitude(&mut y);
    assert_eq!(y[2], (15, false));
    assert_eq!(Floor::find_neighbors(&vec![0, 128, 64, 32, 96], 4), (2, 1));
}

#[test]
fn floor_render_length_and_values() {
    let f = sample_floor();
    let y = vec![(10, true), (20, true), (15, true)];
    let db = f.render_db(&y, 256).unwrap();
    assert_eq!(db.len(), 256);
    assert_eq!(db[0], 10);
    assert_eq!(db[32], 12);
    assert_eq!(db[64], 15);
    assert_eq!(db[200], 20);
    let db = f.render_db(&y, 100).unwrap();
    assert_eq!(db.len(), 100);
    let y = vec![(10, true), (300, true), (15, true)];
    assert_eq!(f.render_db(&y, 256).unwrap_err().kind(), ErrorKind::Undecodable);
}

#[test]
fn floor_read() {
    let mut w = BitWriter::new();
    // Floor 1, one partition of class 0; class: dim 2, no subclasses, book 0 none.
    w.put(1, 16).put(1, 5).put(0, 4).put(1, 3).put(0, 2).put(0, 8);
    // mult 2, rangebits 7, xs 64 and 32.
    w.put(1, 2).put(7, 4).put(64, 7).put(32, 7);
    let f = Floor::read(&mut w.reader(), 1).unwrap();
    assert_eq!(f.range, 128);
    assert_eq!(f.x_list, vec![0, 128, 64, 32]);
    assert_eq!(f.neighbors, vec![(0, 1), (0, 2)]);
    assert_eq!(f.sorted_x_list, vec![(0, 0), (3, 32), (2, 64), (1, 128)]);

    let mut w = BitWriter::new();
    w.put(1, 16).put(1, 5).put(0, 4).put(1, 3).put(0, 2).put(0, 8);
    w.put(1, 2).put(7, 4).put(64, 7).put(64, 7);
    assert_eq!(Floor::read(&mut w.reader(), 1).unwrap_err().kind(), ErrorKind::Undecodable);
    let mut w = BitWriter::new();
    w.put(0, 16);
    assert_eq!(Floor::read(&mut w.reader(), 1).unwrap_err().kind(), ErrorKind::Undecodable);
}

#[test]
fn windows() {
    let wins = Windows::new(FrameLens::new(512, 2048));

    let w = wins.get(FrameKind::Short, FrameKind::Short);
    assert_eq!(w.left, WindowRange { start: 256, end: 512 });
    assert_eq!(w.left_slope_start, 256);
    assert_eq!(w.right, WindowRange { start: 0, end: 256 });
    assert_eq!(w.right_slope_end, 256);
    assert_eq!(w.slope_len, 256);
    assert_eq!(w.overlap_target, OverlapTarget::Left);

    let w = wins.get(FrameKind::Long, FrameKind::Long);
    assert_eq!(w.left, WindowRange { start: 1024, end: 2048 });
    assert_eq!(w.left_slope_start, 1024);
    assert_eq!(w.right, WindowRange { start: 0, end: 1024 });
    assert_eq!(w.right_slope_end, 1024);
    assert_eq!(w.slope_len, 1024);
    assert_eq!(w.overlap_target, OverlapTarget::Left);

    let w = wins.get(FrameKind::Long, FrameKind::Short);
    assert_eq!(w.left, WindowRange { start: 1024, end: 1664 });
    assert_eq!(w.left_slope_start, 1408);
    assert_eq!(w.right, WindowRange { start: 0, end: 256 });
    assert_eq!(w.right_slope_end, 256);
    assert_eq!(w.slope_len, 256);
    assert_eq!(w.overlap_target, OverlapTarget::Left);

    let w = wins.get(FrameKind::Short, FrameKind::Long);
    assert_eq!(w.left, WindowRange { start: 256, end: 512 });
    assert_eq!(w.left_slope_start, 256);
    assert_eq!(w.right, WindowRange { start: 384, end: 1024 });
    assert_eq!(w.right_slope_end, 640);
    assert_eq!(w.slope_len, 256);
    assert_eq!(w.overlap_target, OverlapTarget::Right);
    assert_eq!(w.len(), 640);
    assert_eq!(w.right.len(), 640);
}

#[test]
fn first_packet_gives_no_samples() {
    let wins = Windows::new(FrameLens::new(256, 2048));
    let mut s = FrameState::new();
    assert!(!s.begin_packet());
    assert!(s.finish_packet(FrameKind::Long, &wins).is_none());
    assert!(s.ready(&wins).is_none());
    assert_eq!(s.pos, 0);
}

#[test]
fn sample_counter_sums_window_lengths() {
    let wins = Windows::new(FrameLens::new(256, 2048));
    let mut s = FrameState::new();
    let kinds = [FrameKind::Long, FrameKind::Long, FrameKind::Short, FrameKind::Short, FrameKind::Long];
    for &k in kinds.iter() {
        s.begin_packet();
        s.finish_packet(k, &wins);
    }
    // L->L 1024, L->S 1024 + 64 - 512 ... as ranges: 1024..1600, then 128, then 1024 - 64 .. 1024.
    assert_eq!(s.pos, 1024 + 576 + 128 + 576);
    let (target, range) = s.ready(&wins).unwrap();
    assert_eq!(target, OverlapTarget::Right);
    assert_eq!(range, WindowRange { start: 448, end: 1024 });
    s.reset();
    assert_eq!(s.pos, 0);
    assert!(s.ready(&wins).is_none());
}

/// A codebook of one entry (code `0`), one dimension, with a lookup table.
fn one_entry_codebook() -> Codebook {
    let mut w = BitWriter::new();
    w.put(0x42, 8).put(0x43, 8).put(0x56, 8);
    w.put(1, 16).put(1, 24).put(0, 1).put(0, 1).put(0, 5);
    w.put(2, 4).put(0, 32).put(0, 32).put(0, 4).put(0, 1).put(1, 1);
    Codebook::read(&mut w.reader()).unwrap()
}

#[test]
fn truncated_residue_keeps_what_was_read() {
    let codebooks = vec![one_entry_codebook()];
    let residue = Residue {
        kind: ResidueKind::Residue1,
        start: 0,
        end: 8,
        part_len: 4,
        classbook: 0,
        class_codebooks: vec![[Some(0), None, None, None, None, None, None, None]],
    };
    // Eight bits: a class word and four vectors, a class word and two
    // vectors, then the packet ends inside the second partition.
    let mut r = BitReader::new(vec![0]);
    let writes = residue.decode(&mut r, 1, 16, &vec![0], &vec![false], &codebooks).unwrap();
    assert_eq!(writes.len(), 6);
    assert_eq!(writes[5].0, 0);
    assert_eq!(writes[5].1, 5);
    let mut r = BitReader::new(vec![0]);
    let writes = residue.decode(&mut r, 1, 16, &vec![0], &vec![true], &codebooks).unwrap();
    assert!(writes.is_empty());
}

#[test]
fn truncated_floor_is_empty() {
    let f = sample_floor();
    let mut y = vec![(1, true)];
    f.begin_decode(&mut y, &mut BitReader::new(vec![]), &vec![]).unwrap();
    assert!(y.is_empty());
    let mut w = BitWriter::new();
    w.put(1, 1).put(100, 8).put(120, 8).put(7, 8);
    f.begin_decode(&mut y, &mut w.reader(), &vec![]).unwrap();
    assert_eq!(y.len(), 3);
}

#[test]
fn line_render_values() {
    let mut out = vec![0u8; 6];
    vorbis::floor::render_line(&mut out, 1, 2, 5, 9).unwrap();
    // 2 + 7 * k / 4 for k = 0..4.
    assert_eq!(out, vec![0, 2, 3, 5, 7, 0]);
    let mut out = vec![0u8; 4];
    vorbis::floor::render_line(&mut out, 0, 9, 4, 2).unwrap();
    assert_eq!(out, vec![9, 8, 6, 4]);
    let mut out = vec![0u8; 3];
    assert_eq!(vorbis::floor::render_line(&mut out, 0, 250, 3, 400).unwrap_err().kind(), ErrorKind::Undecodable);
}

#[test]
fn comment_tags() {
    assert!(matches!(CommentTag::from_name("title"), CommentTag::Title));
    assert!(matches!(CommentTag::from_name("TrackNumber"), CommentTag::TrackNumber));
    assert!(matches!(CommentTag::from_name("ISRC"), CommentTag::Isrc));
    match CommentTag::from_name("Mood") {
        CommentTag::Custom(s) => assert_eq!(s, "Mood"),
        t => panic!("unexpected tag {:?}", t),
    }
    assert!(matches!(CommentTag::Custom("artist".to_string()).normalize(), CommentTag::Artist));
    assert!(matches!(CommentTag::Genre.normalize(), CommentTag::Genre));
    assert!(CommentTag::Custom("dAtE".to_string()).same_tag(&CommentTag::Date));
    assert!(!CommentTag::Date.same_tag(&CommentTag::Genre));
    assert!(CommentTag::Custom("x".to_string()).same_tag(&CommentTag::Custom("X".to_string())));
}

#[test]
fn comments_by_tag() {
    let c = Comments {
        vendor: None,
        comments: vec!["TITLE=One".to_string(), "artist=A=B".to_string(), "noequals".to_string(), "Title=Two".to_string()],
    };
    let all = c.iter();
    assert_eq!(all.len(), 3);
    assert!(matches!(all[1].0, CommentTag::Artist));
    assert_eq!(all[1].1, "A=B");
    assert_eq!(c.by_tag(&CommentTag::Title), vec!["One".to_string(), "Two".to_string()]);
    assert!(c.by_tag(&CommentTag::Album).is_empty());
    assert_eq!(c.vendor(), None);
}

#[test]
fn residue_type_2_interleaves_channels() {
    let codebooks = vec![one_entry_codebook()];
    let residue = Residue {
        kind: ResidueKind::Residue2,
        start: 0,
        end: 8,
        part_len: 4,
        classbook: 0,
        class_codebooks: vec![[Some(0), None, None, None, None, None, None, None]],
    };
    let mut r = BitReader::new(vec![0, 0]);
    let writes = residue.decode(&mut r, 2, 16, &vec![0, 1], &vec![false, false], &codebooks).unwrap();
    let places: Vec<(usize, usize)> = writes.iter().map(|w| (w.0, w.1)).collect();
    assert_eq!(places, vec![(0, 0), (1, 0), (0, 1), (1, 1), (0, 2), (1, 2), (0, 3), (1, 3)]);
    assert!(writes.iter().all(|w| w.2.book == 0 && w.2.entry == 0 && w.2.component == 0));
}

#[test]
fn residue_descriptor_read() {
    let mut w = BitWriter::new();
    // Type 2, 0..64, partitions of 16, two classes, classbook 0.
    w.put(2, 16).put(0, 24).put(64, 24).put(15, 24).put(1, 6).put(0, 8);
    // Class 0: low bits 0b001, no high bits; class 1: low 0b010, high 0b00001.
    w.put(1, 3).put(0, 1).put(2, 3).put(1, 1).put(1, 5);
    // Books: class 0 pass 0 -> 0; class 1 pass 1 -> 0, pass 3 -> 0.
    w.put(0, 8).put(0, 8).put(0, 8);
    let res = Residue::read(&mut w.reader(), 1).unwrap();
    assert_eq!(res.kind, ResidueKind::Residue2);
    assert_eq!((res.start, res.end, res.part_len, res.classbook), (0, 64, 16, 0));
    assert_eq!(res.class_codebooks[0], [Some(0), None, None, None, None, None, None, None]);
    assert_eq!(res.class_codebooks[1], [None, Some(0), None, Some(0), None, None, None, None]);
    let mut w = BitWriter::new();
    w.put(3, 16);
    assert_eq!(Residue::read(&mut w.reader(), 1).unwrap_err().kind(), ErrorKind::Undecodable);
    let mut w = BitWriter::new();
    w.put(1, 16).put(10, 24).put(5, 24);
    assert_eq!(Residue::read(&mut w.reader(), 1).unwrap_err().kind(), ErrorKind::Undecodable);
}

fn packet_start(w: &mut BitWriter, tag: u64) {
    w.put(tag, 8);
    for &b in b"vorbis".iter() {
        w.put(b as u64, 8);
    }
}

#[test]
fn whole_packet_pipeline() {
    let mut builder = DecoderBuilder::new();

    let mut ident = BitWriter::new();
    packet_start(&mut ident, 1);
    ident.put(0, 32).put(1, 8).put(8000, 32).put(0, 32).put(0, 32).put(0, 32).put(6, 4).put(8, 4).put(1, 1);
    builder.read_ident_packet(&mut ident.reader()).unwrap();

    let mut comment = BitWriter::new();
    packet_start(&mut comment, 3);
    comment.put(0, 32).put(0, 32).put(1, 1);
    builder.read_comment_packet(&mut comment.reader()).unwrap();

    let mut setup = BitWriter::new();
    packet_start(&mut setup, 5);
    // One codebook: one entry of length 1, a lookup table of one 1-bit value.
    setup.put(0, 8);
    setup.put(0x42, 8).put(0x43, 8).put(0x56, 8);
    setup.put(1, 16).put(1, 24).put(0, 1).put(0, 1).put(0, 5);
    setup.put(2, 4).put(0, 32).put(0, 32).put(0, 4).put(0, 1).put(1, 1);
    // One time-domain transform.
    setup.put(0, 6).put(0, 16);
    // One floor: a partition of one class of one dimension, X list 0, 128, 64.
    setup.put(0, 6).put(1, 16).put(1, 5).put(0, 4).put(0, 3).put(0, 2).put(0, 8).put(0, 2).put(7, 4).put(64, 7);
    // One residue: type 1 over 0..8 in partitions of 4, codebook 0 on the first pass.
    setup.put(0, 6).put(1, 16).put(0, 24).put(8, 24).put(3, 24).put(0, 6).put(0, 8).put(1, 3).put(0, 1).put(0, 8);
    // One mapping, one submap, no coupling.
    setup.put(0, 6).put(0, 16).put(0, 1).put(0, 1).put(0, 2).put(0, 8).put(0, 8).put(0, 8);
    // One short mode.
    setup.put(0, 6).put(0, 1).put(0, 16).put(0, 16).put(0, 8);
    setup.put(1, 1);
    builder.read_setup_packet(&mut setup.reader()).unwrap();

    let header = builder.header.take().unwrap();
    let setup = builder.setup.take().unwrap();
    assert_eq!(header.frame_lens().short(), 64);

    let mut audio = BitWriter::new();
    // Audio packet; floor in use with amplitudes 100 and 100; residue all zero bits.
    audio.put(0, 1).put(1, 1).put(100, 8).put(100, 8);
    audio.put(0, 16);
    let mut y_lists = vec![Vec::new()];
    let plan = decode_packet(&setup, &header, &mut audio.reader(), &mut y_lists).unwrap();
    assert_eq!(plan.frame_kind, FrameKind::Short);
    assert_eq!(plan.frame_len, 64);
    let env = plan.floors[0].as_ref().unwrap();
    assert_eq!(env.len(), 32);
    assert!(env.iter().all(|&v| v == 100));
    let places: Vec<(usize, usize)> = plan.residue_writes.iter().map(|w| (w.0, w.1)).collect();
    assert_eq!(places, (0..8).map(|s| (0, s)).collect::<Vec<_>>());

    // A packet whose floor is unused gives no envelope and no residue.
    let mut silent = BitWriter::new();
    silent.put(0, 1).put(0, 1);
    let plan = decode_packet(&setup, &header, &mut silent.reader(), &mut y_lists).unwrap();
    assert!(plan.floors[0].is_none());
    assert!(plan.residue_writes.is_empty());

    // Not an audio packet.
    let mut wrong = BitWriter::new();
    wrong.put(1, 1);
    assert_eq!(decode_packet(&setup, &header, &mut wrong.reader(), &mut y_lists).unwrap_err().kind(), ErrorKind::WrongPacketKind);
}

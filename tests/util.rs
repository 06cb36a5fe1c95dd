use vorbis::util::{ls_bits, lsb_mask, Bits, Pusher2d, Pusher2dStep};
use vorbis::error::{expect_eof, Error, ErrorKind, ExpectEof};

#[test]
fn bits_ilog() {
    const TEST_SET_LEN: usize = 6;
    let inp: [u64; TEST_SET_LEN] = [0, 1, 2, 3, 4, 7];
    let exp: [usize; TEST_SET_LEN] = [0, 1, 2, 2, 3, 3];
    for i in 0..TEST_SET_LEN {
        if std::mem::size_of::<u8>() >= inp[i] as usize {
            assert_eq!(Bits::ilog(inp[i] as u8), exp[i]);
        }
        if std::mem::size_of::<u16>() >= inp[i] as usize {
            assert_eq!(Bits::ilog(inp[i] as u16), exp[i]);
        }
        if std::mem::size_of::<u32>() >= inp[i] as usize {
            assert_eq!(Bits::ilog(inp[i] as u32), exp[i]);
        }
    }
}

#[test]
fn bits_reverse() {
    assert_eq!(Bits::reverse_bits(0b10111001_u8), 0b10011101);
    assert_eq!(Bits::reverse_bits(0b11001011_00011001_u16), 0b10011000_11010011);
    assert_eq!(
        Bits::reverse_bits(0b00110111_11010110_10101100_00000001_u32),
        0b10000000_00110101_01101011_11101100
    );
}

#[test]
fn ilog_values() {
    assert_eq!(Bits::ilog(0u32), 0);
    assert_eq!(Bits::ilog(1u32), 1);
    assert_eq!(Bits::ilog(2u32), 2);
    assert_eq!(Bits::ilog(3u32), 2);
    assert_eq!(Bits::ilog(4u32), 3);
    assert_eq!(Bits::ilog(7u32), 3);
    assert_eq!(Bits::ilog(255u8), 8);
    assert_eq!(Bits::ilog(0xFFFF_FFFFu32), 32);
}

#[test]
fn reverse_twice_is_identity() {
    for x in [0u8, 1, 0x80, 0x5A, 0xFF, 0x13].iter() {
        assert_eq!(Bits::reverse_bits(Bits::reverse_bits(*x)), *x);
    }
    for x in [0u16, 1, 0x8000, 0x1234, 0xFFFF].iter() {
        assert_eq!(Bits::reverse_bits(Bits::reverse_bits(*x)), *x);
    }
    for x in [0u32, 1, 0x8000_0000, 0xDEAD_BEEF, 0x0F0F_1234].iter() {
        assert_eq!(Bits::reverse_bits(Bits::reverse_bits(*x)), *x);
    }
    assert_eq!(Bits::reverse_bits(1u32), 0x8000_0000);
}

#[test]
fn bit_set() {
    assert!(Bits::is_bit_set(0b100u8, 2));
    assert!(!Bits::is_bit_set(0b100u8, 1));
    assert!(Bits::is_bit_set(0x8000_0000u32, 31));
}

#[test]
fn masks() {
    assert_eq!(lsb_mask(1), 1);
    assert_eq!(lsb_mask(5), 0b11111);
    assert_eq!(lsb_mask(32), 0xFFFF_FFFF);
    assert_eq!(ls_bits(0xABCD, 8), 0xCD);
    assert_eq!(ls_bits(0xABCD, 0), 0);
    assert_eq!(ls_bits(0xFFFF_FFFF, 32), 0xFFFF_FFFF);
}

#[test]
fn pusher_right_down() {
    let mut p = Pusher2d::new(3, 4, vec![2, 0], (0, 2), Pusher2dStep::RightDown(1, 1));
    assert!(p.push('a'));
    assert!(p.push('b'));
    assert!(p.push('c'));
    assert_eq!(p.out, vec![(2, 2, 'a'), (2, 3, 'b'), (0, 0, 'c')]);
    p.set_pos((1, 3));
    assert!(p.push('d'));
    assert!(!p.push('e'));
}

#[test]
fn pusher_down_right() {
    let mut p = Pusher2d::new(2, 8, vec![0, 1], (1, 0), Pusher2dStep::DownRight(1, 1));
    assert!(p.push(1u8));
    assert!(p.push(2u8));
    assert_eq!(p.out, vec![(1, 0, 1), (0, 1, 2)]);
    p.advance_flat_pos(3);
    assert_eq!(p.pos, (0, 3));
}

#[test]
fn error_kinds() {
    assert_eq!(Error::Undecodable("x").kind(), ErrorKind::Undecodable);
    assert_eq!(Error::WrongPacketKind("x").kind(), ErrorKind::WrongPacketKind);
    assert_eq!(Error::ExpectedEof("x").kind(), ErrorKind::ExpectedEof);
    assert_eq!(Error::Io("x").kind(), ErrorKind::Io);
    assert_eq!(expect_eof(Error::Io("x")).kind(), ErrorKind::ExpectedEof);
    assert_eq!(expect_eof(Error::Undecodable("x")).kind(), ErrorKind::Undecodable);
    let r: vorbis::Result<u8> = Err(Error::Io("x"));
    assert_eq!(r.expect_eof().unwrap_err().kind(), ErrorKind::ExpectedEof);
    let r: vorbis::Result<u8> = Ok(3);
    assert_eq!(r.expect_eof().unwrap(), 3);
}

#[test]
fn pusher_skips_by_flat_position() {
    let mut p: Pusher2d<u8> = Pusher2d::new(2, 4, vec![0, 1], (1, 2), Pusher2dStep::RightDown(0, 1));
    p.advance_flat_pos(1);
    assert_eq!(p.pos, (1, 3));
    p.set_pos((0, 2));
    p.advance_flat_pos(3);
    assert_eq!(p.pos, (1, 1));
}

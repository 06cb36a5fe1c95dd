use vorbis::bitstream::BitReader;
use vorbis::ErrorKind;

#[test]
fn try_read_u32_bits() {
    let mut r = BitReader::new(vec![0b001_00110]);
    assert_eq!(r.try_read_u32_bits(5).unwrap(), (0b00110, 5));
    assert_eq!(r.try_read_u32_bits(32).unwrap(), (0b001, 3));
}

#[test]
fn read_u32_bits_var() {
    let mut r = BitReader::new(vec![0b0_0100110, 0b0111_0011, 0b0110_1001]);
    assert_eq!(r.read_u32_bits(7).unwrap(), 0b0100110);
    assert_eq!(r.read_u32_bits(5).unwrap(), 0b00110);
    assert_eq!(r.read_u32_bits(4).unwrap(), 0b0111);
    assert_eq!(r.read_u32_bits(4).unwrap(), 0b1001);
    assert_eq!(r.read_u32_bits(5).unwrap_err().kind(), ErrorKind::Io);
}

#[test]
fn read_u32_bits_10_1() {
    let mut r = BitReader::new(vec![0b00100110, 0b011100_11, 0b0000_1001, 0, 0]);
    assert_eq!(r.read_u32_bits(10).unwrap(), 0b1100100110);
    assert_eq!(r.read_u32_bits(10).unwrap(), 0b1001011100);
}

#[test]
fn read_u32_bits_10_2() {
    let mut r = BitReader::new(vec![0b01011101, 0b010111_00, 0b0100_0000, 0b10010111]);
    assert_eq!(r.read_u32_bits(10).unwrap(), 0b0001011101);
    assert_eq!(r.read_u32_bits(10).unwrap(), 0b0000010111);
    assert_eq!(r.read_u32_bits(10).unwrap(), 0b0101110100);
}

#[test]
fn read_u32_bits_second_read() {
    let mut r = BitReader::new(vec![0b01011101, 0b01011100, 0b01000000, 0b10010111, 0b00100110]);
    assert_eq!(r.read_u32_bits(25).unwrap(), 0b1_01000000_01011100_01011101);
    assert_eq!(r.read_u32_bits(9).unwrap(), 0b10_1001011);
    assert_eq!(r.read_u32_bits(6).unwrap(), 0b001001);
    assert_eq!(r.read_u32_bits(1).unwrap_err().kind(), ErrorKind::Io);
}

#[test]
fn read_i32_bits() {
    let mut r = BitReader::new(vec![0b01_011_101, 0b11011100]);
    assert_eq!(r.read_i32_bits(3).unwrap(), -0b001);
    assert_eq!(r.read_i32_bits(3).unwrap(), 0b011);
    assert_eq!(r.read_i32_bits(9).unwrap(), -0b001110001);
}

#[test]
fn read_u8() {
    let inp = [0b11111100u8, 0b01001000, 0b11001110, 0b00000110];
    let mut r = BitReader::new(inp.to_vec());
    for e in &inp {
        assert_eq!(r.read_u8().unwrap(), *e)
    }
}

#[test]
fn unread_u32_bits() {
    let inp = [0b01011101u8, 0b01011100, 0b01000000, 0b10010111, 0b00100110];
    let mut r = BitReader::new(inp.to_vec());
    assert_eq!(r.read_u8().unwrap(), 0b01011101);
    r.unread_u32_bits(0b01011101, 8);
    assert_eq!(r.read_u32_bits(25).unwrap(), 0b1_01000000_01011100_01011101);
    r.unread_u32_bits(0b1_01000000_01011100_01011101, 25);

    let mut act = vec![0_u8; 5];
    r.read(&mut act).unwrap();
    assert_eq!(act, inp.to_vec());
}

#[test]
fn read() {
    let mut r = BitReader::new(vec![0b00100110, 0b01110011, 0b011_01001, 0b100_10011, 0b101_10010]);
    let mut buf = vec![0u8; 2];

    assert_eq!(r.read(&mut buf).unwrap(), 2);
    assert_eq!(buf, vec![0b00100110, 0b01110011]);

    assert_eq!(r.read_u32_bits(5).unwrap(), 0b01001);

    assert_eq!(r.read(&mut buf).unwrap(), 2);
    assert_eq!(buf, vec![0b10011011, 0b10010100]);

    assert_eq!(r.read_u32_bits(3).unwrap(), 0b101);

    assert_eq!(r.read_u32_bits(1).unwrap_err().kind(), ErrorKind::Io);
}

/// Packs bits (given in reading order) into bytes, least significant bit first.
fn pack(bits: &[bool]) -> Vec<u8> {
    let mut out = vec![0u8; (bits.len() + 7) / 8];
    for (i, &b) in bits.iter().enumerate() {
        if b {
            out[i / 8] |= 1 << (i % 8);
        }
    }
    out
}

fn value_of(bits: &[bool]) -> u32 {
    bits.iter().rev().fold(0u32, |acc, &b| (acc << 1) | b as u32)
}

#[test]
fn round_trip_over_partitions() {
    let bits: Vec<bool> = (0..64).map(|i| (i * 7 + i / 3) % 5 < 2).collect();
    let partitions: [&[usize]; 4] = [&[32, 32], &[1, 7, 8, 16, 32], &[13, 13, 13, 13, 12], &[5, 31, 28]];
    for parts in partitions.iter() {
        let mut r = BitReader::new(pack(&bits));
        let mut at = 0;
        for &n in parts.iter() {
            assert_eq!(r.read_u32_bits(n).unwrap(), value_of(&bits[at..at + n]));
            at += n;
        }
        assert_eq!(r.read_u32_bits(1).unwrap_err().kind(), ErrorKind::Io);
    }
}

#[test]
fn push_back_then_read_again() {
    let mut r = BitReader::new(vec![0xA5, 0x3C, 0xF0, 0x0F, 0x99]);
    for &n in [3usize, 9, 17, 1, 6].iter() {
        let v = r.read_u32_bits(n).unwrap();
        r.unread_u32_bits(v, n);
        assert_eq!(r.read_u32_bits(n).unwrap(), v);
    }
}

#[test]
fn short_read_at_end() {
    let mut r = BitReader::new(vec![]);
    assert_eq!(r.try_read_u32_bits(8).unwrap(), (0, 0));
    assert_eq!(r.read_bool().unwrap_err().kind(), ErrorKind::Io);
}

#[test]
fn wide_reads() {
    let mut r = BitReader::new(vec![0x01, 0x02, 0x03, 0x04, 0xFF, 0xFF, 0xFF, 0xFF, 0x34, 0x12]);
    assert_eq!(r.read_u32().unwrap(), 0x04030201);
    assert_eq!(r.read_i32().unwrap(), -0x7FFF_FFFF);
    assert_eq!(r.read_u16().unwrap(), 0x1234);
    assert!(r.read_u16_bits(1).is_err());
}

#[test]
fn one_bit_sign_magnitude() {
    let mut r = BitReader::new(vec![0b10]);
    assert_eq!(r.read_i32_bits(1).unwrap(), 0);
    assert_eq!(r.read_i32_bits(1).unwrap(), 0);
    let v = r.read_u8().unwrap_err();
    assert_eq!(v.kind(), ErrorKind::Io);
}

#[test]
fn push_back_after_byte_read() {
    let mut r = BitReader::new(vec![0xAB, 0xCD]);
    let b = r.read_u8().unwrap();
    r.unread_u32_bits(b as u32, 8);
    assert_eq!(r.read_u16().unwrap(), 0xCDAB);
}

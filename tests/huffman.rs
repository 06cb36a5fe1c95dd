use vorbis::bitstream::BitReader;
use vorbis::huffman::{Code, HuffmanDecoder, LongCode};
use vorbis::ErrorKind;

fn new_bit_reader(bits: &str) -> BitReader {
    let mut buf = Vec::new();
    let mut byte = 0;
    let mut bit_pos = 0;
    for c in bits.chars() {
        match c {
            '0' => {}
            '1' => byte |= 1 << bit_pos,
            _ => continue,
        }
        if bit_pos == 7 {
            buf.push(byte);
            byte = 0;
            bit_pos = 0;
        } else {
            bit_pos += 1;
        }
    }
    if bit_pos != 0 {
        buf.push(byte);
    }
    BitReader::new(buf)
}

fn test_next_code(check_underspec: bool, input: &[usize], expected: &[u32]) {
    assert!(!input.is_empty());
    assert_eq!(input.len(), expected.len());
    let mut b = HuffmanDecoder::builder(1);
    for (&inp, &exp) in input.iter().zip(expected.iter()) {
        let act = b.next_code(inp).unwrap();
        assert_eq!(act, exp);
    }
    assert_eq!(b.max_code_len(), *input.iter().max().unwrap());
    if check_underspec {
        for i in 1..32 {
            let c = b.next_code(i);
            if c.is_ok() {
                println!("Underspecified: {} -> {:b}", i, c.as_ref().unwrap());
            }
            assert_eq!(c.err().unwrap().kind(), ErrorKind::Undecodable);
        }
    }
}

#[test]
fn next_code_1() {
    test_next_code(true, &[2, 4, 4, 4, 4, 2, 3, 3], &[0b00, 0b0100, 0b0101, 0b0110, 0b0111, 0b10, 0b110, 0b111]);
}

#[test]
fn next_code_2() {
    test_next_code(true, &[3, 1, 2, 3], &[0b000, 0b1, 0b01, 0b001]);
}

#[test]
fn next_code_3() {
    test_next_code(false,
        &[10, 7, 8, 13, 9, 6, 7, 11, 10, 8, 8, 12, 17, 17, 17, 17, 7, 5, 5, 9, 6, 4, 4, 8, 8, 5, 5, 8, 16, 14, 13, 16, 7, 5, 5, 7, 6, 3, 3, 5, 8, 5],
        &[0b0000000000, 0b0000001, 0b00000001, 0b0000000001000, 0b000000001, 0b000001, 0b0000100, 0b00000000011, 0b0000101000, 0b00001011, 0b00001100, 0b000000000101, 0b00000000010010000, 0b00000000010010001, 0b00000000010010010, 0b00000000010010011, 0b0000111, 0b00010, 0b00011, 0b000010101, 0b001000, 0b0011, 0b0100, 0b00001101, 0b00100100, 0b00101, 0b01010, 0b00100101, 0b0000000001001010, 0b00000000010011, 0b0000101001000, 0b0000000001001011, 0b0010011, 0b01011, 0b01100, 0b0110100, 0b011011, 0b100, 0b101, 0b01110, 0b01101010, 0b01111]);
}

#[test]
fn overspecified() {
    let mut b = HuffmanDecoder::builder(1);
    b.next_code(1).unwrap();
    b.next_code(1).unwrap();
    assert_eq!(b.next_code(1).err().unwrap().kind(), ErrorKind::Undecodable);
}

fn test_decode(code_lens: &[usize], input: &str, expected: &[u32]) {
    let max_code_len = *code_lens.iter().max().unwrap();
    // Without long codes.
    test_decode_(max_code_len, code_lens, input, expected);

    // With long codes.
    if max_code_len > 1 {
        test_decode_(std::cmp::max(max_code_len as isize - 4, 1) as usize, code_lens, input, expected);
    }
}

fn test_decode_(lookup_table_bits: usize, code_lens: &[usize], input: &str, expected: &[u32]) {
    let mut b = HuffmanDecoder::builder(lookup_table_bits);
    for (i, &code_len) in code_lens.iter().enumerate() {
        b.create_code(i as u32, code_len).unwrap();
    }
    let d = b.build();

    let mut reader = new_bit_reader(input);

    for exp in expected {
        assert_eq!(d.decode(&mut reader).unwrap(), *exp);
    }
}

#[test]
fn decode_1() {
    test_decode(&[2, 4, 4, 4, 4, 2, 3, 3], "00 111 0111 0110 110 110 111", &[0, 7, 4, 3, 6, 6, 7]);
}

#[test]
fn decode_2() {
    test_decode(&[10, 7, 8, 13, 9, 6, 7, 11, 10, 8, 8, 12, 17, 17, 17, 17, 7, 5, 5, 9, 6, 4, 4, 8, 8, 5, 5, 8, 16, 14, 13, 16, 7, 5, 5, 7, 6, 3, 3, 5, 8, 5],
                "001000 0000000001001011 100 000001 0000000000 01111 00010 unused: 011011",
                &[20, 31, 37, 5, 0, 41, 17]);
}

#[test]
fn overspecified_lengths_fail_to_build() {
    let mut b = HuffmanDecoder::builder(9);
    b.create_code(0, 1).unwrap();
    b.create_code(1, 1).unwrap();
    assert_eq!(b.create_code(2, 1).unwrap_err().kind(), ErrorKind::Undecodable);
}

#[test]
fn canonical_codes_are_prefix_free() {
    let lens = [3usize, 1, 2, 3];
    let mut b = HuffmanDecoder::builder(1);
    let codes: Vec<(u32, usize)> = lens.iter().map(|&l| (b.next_code(l).unwrap(), l)).collect();
    for (i, &(a, la)) in codes.iter().enumerate() {
        for (j, &(c, lc)) in codes.iter().enumerate() {
            if i != j && la <= lc {
                assert_ne!(c >> (lc - la), a);
            }
        }
    }
}

#[test]
fn round_trip_encode_then_decode() {
    let lens = [2usize, 4, 4, 4, 4, 2, 3, 3];
    let mut b = HuffmanDecoder::builder(1);
    let codes: Vec<(u32, usize)> = lens.iter().map(|&l| (b.next_code(l).unwrap(), l)).collect();
    let values = [5u32, 0, 7, 1, 1, 3, 6, 2, 4];
    let mut bits = String::new();
    for &v in values.iter() {
        let (code, len) = codes[v as usize];
        for k in (0..len).rev() {
            bits.push(if (code >> k) & 1 == 1 { '1' } else { '0' });
        }
    }
    for &table_bits in [1usize, 2, 9].iter() {
        let mut b = HuffmanDecoder::builder(table_bits);
        for (i, &l) in lens.iter().enumerate() {
            b.create_code(i as u32, l).unwrap();
        }
        let d = b.build();
        let mut r = new_bit_reader(&bits);
        for &v in values.iter() {
            assert_eq!(d.decode(&mut r).unwrap(), v);
        }
    }
}

#[test]
fn decode_unknown_prefix() {
    let mut b = HuffmanDecoder::builder(4);
    b.create_code(0, 1).unwrap();
    let d = b.build();
    let mut r = new_bit_reader("1");
    assert_eq!(d.decode(&mut r).unwrap_err().kind(), ErrorKind::Undecodable);
    let mut r = new_bit_reader("");
    assert_eq!(d.decode(&mut r).unwrap_err().kind(), ErrorKind::Io);
}

#[test]
fn code_truncate() {
    let c = Code { code: 0b10110, len: 5 };
    let t = c.truncate(3);
    assert_eq!((t.code, t.len), (0b110, 3));
    let t = c.truncate(7);
    assert_eq!((t.code, t.len), (0b10110, 5));
}

#[test]
fn long_code_padding() {
    let mut lc = LongCode { sort_key: 0b101, code: 0b101, value: 9, len: 3 };
    lc.pad_sort_key(7);
    assert_eq!(lc.sort_key, 0b1010000);
    assert_eq!((lc.code, lc.value, lc.len), (0b101, 9, 3));
}

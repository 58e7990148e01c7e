use xpatch::delta::{read_header, select_algorithm, similar_in_place};
use xpatch::envelope::{postcompress, select_body, unwrap_body};
use xpatch::instr::{decode_stream, write_stream, Instruction};
use xpatch::suffix::{
    check_suffix_array, longest_match, suffix_array, suffix_array_by_insertion, suffix_le,
};
use xpatch::varint::{encode_varint, read_varint, VarintError};
use xpatch::{decode, decode_header, encode, get_tag, Algorithm, DecodeError};

fn noise(len: usize, seed: u64) -> Vec<u8> {
    let mut x = seed;
    let mut v = Vec::with_capacity(len);
    for _ in 0..len {
        x = x.wrapping_mul(6364136223846793005).wrapping_add(1442695040888963407);
        v.push((x >> 33) as u8);
    }
    v
}

fn round_trip(tag: usize, base: &[u8], new: &[u8], zstd: bool) -> Vec<u8> {
    let d = encode(tag, base, new, zstd);
    assert_eq!(decode(base, &d).unwrap(), new);
    assert_eq!(get_tag(&d).unwrap(), tag);
    d
}

#[test]
fn varint_exact_bytes() {
    assert_eq!(encode_varint(0), vec![0]);
    assert_eq!(encode_varint(127), vec![0x7F]);
    assert_eq!(encode_varint(128), vec![0x80, 0x01]);
    assert_eq!(encode_varint(300), vec![0xAC, 0x02]);
    let max = encode_varint(u64::MAX);
    assert_eq!(max.len(), 10);
    assert_eq!(max[9], 0x01);
    assert_eq!(read_varint(&max, 0), Ok((u64::MAX, 10)));
    assert_eq!(read_varint(&[0x05, 0xAC, 0x02], 1), Ok((300, 3)));
}

#[test]
fn varint_errors() {
    assert_eq!(read_varint(&[0x80, 0x80], 0), Err(VarintError::Truncated));
    assert_eq!(read_varint(&[], 0), Err(VarintError::Truncated));
    let mut too_big = vec![0xFF; 9];
    too_big.push(0x02);
    assert_eq!(read_varint(&too_big, 0), Err(VarintError::Overflow));
    assert_eq!(read_varint(&[0x80; 11], 0), Err(VarintError::Overflow));
}

#[test]
fn stream_wire_form() {
    let ins = vec![
        Instruction::Copy { base_offset: 0, length: 7 },
        Instruction::Add { literal: b"Rust!".to_vec() },
        Instruction::Copy { base_offset: 3, length: 4 },
        Instruction::Copy { base_offset: 0, length: 200 },
    ];
    let mut out = Vec::new();
    write_stream(&mut out, &ins);
    assert_eq!(
        out,
        vec![0x44, 5, b'R', b'u', b's', b't', b'!', 0x80, 3, 0xFF, 0xC8, 0x01, 0]
    );
}

#[test]
fn stream_decoding() {
    let base = b"0123456789";
    // in-place copy of 4, literal "ab", copy of 5 from offset 2
    let s = [0x41, 2, b'a', b'b', 0x81, 2];
    assert_eq!(decode_stream(base, &s, 11).unwrap(), b"0123ab23456".to_vec());
    assert_eq!(decode_stream(base, &s, 10), Err(DecodeError::LengthMismatch));
    assert_eq!(decode_stream(base, &s, 12), Err(DecodeError::LengthMismatch));
    assert_eq!(decode_stream(base, &[0x81, 7], 5), Err(DecodeError::CopyOutOfRange));
    assert_eq!(decode_stream(base, &[3, b'a'], 3), Err(DecodeError::TruncatedBody));
    assert_eq!(decode_stream(base, &[0xFF, 0x85], 5), Err(DecodeError::TruncatedBody));
}

#[test]
fn hello_scenario() {
    let base = b"Hello, World!";
    let new = b"Hello, Rust!";
    let d = round_trip(0, base, new, false);
    assert!(d.len() < new.len());
    assert_eq!(
        d,
        vec![0x58, 0x00, 0x04, 12, 0x44, 5, b'R', b'u', b's', b't', b'!']
    );
    let dz = round_trip(0, base, new, true);
    assert!(dz.len() < new.len());
}

#[test]
fn empty_scenario() {
    let d = round_trip(7, b"", b"", false);
    assert_eq!(d, vec![0x58, 0x27, 0x04, 0]);
    assert_eq!(get_tag(&d), Ok(7));
    assert_eq!(decode(b"", &d), Ok(Vec::new()));
}

#[test]
fn same_scenario() {
    for tag in [0usize, 3, 14, 15, 1000, usize::MAX] {
        let d = round_trip(tag, b"same", b"same", true);
        assert!(d.len() <= 16);
        assert_eq!(decode_header(&d).unwrap().0, Algorithm::Identity);
    }
}

#[test]
fn one_byte_flip_megabyte_scenario() {
    let base = vec![b'A'; 1_048_576];
    let mut new = base.clone();
    new[524_288] = b'B';
    let d = round_trip(0, &base, &new, true);
    assert!(d.len() < 1024);
}

#[test]
fn extended_tag_scenario() {
    let d = round_trip(1000, b"Hello", b"World", false);
    assert_eq!(get_tag(&d), Ok(1000));
    assert_eq!(d[1] & 0x0F, 0x0F);
    let small = encode(0, b"Hello", b"World", false);
    assert_eq!(d.len(), small.len() + 2);
}

#[test]
fn binary_flip_scenario() {
    let base: Vec<u8> = (0..=255u8).cycle().take(1000).collect();
    let mut new = base.clone();
    new[500] = 0xFF;
    let d = round_trip(0, &base, &new, false);
    assert!(d.len() < 50);
}

#[test]
fn round_trip_many_shapes() {
    let b = noise(3000, 1);
    let mut cases: Vec<(Vec<u8>, Vec<u8>)> = vec![
        (vec![1], vec![2]),
        (vec![1], vec![1]),
        (b"abc".to_vec(), b"xyz".to_vec()),
        (b.clone(), b[2000..].to_vec()),
        (b.clone(), [b.clone(), b.clone()].concat()),
        (Vec::new(), b.clone()),
        (b.clone(), Vec::new()),
        (noise(5000, 2), noise(5000, 3)),
        (noise(4096, 4), noise(4096, 4)[..4095].to_vec()),
        (noise(4097, 5), noise(4097, 5)[1..].to_vec()),
    ];
    let big = noise(20000, 6);
    cases.push((big.clone(), [b"head".to_vec(), big[100..9000].to_vec(), big[12000..].to_vec()].concat()));
    for (base, new) in &cases {
        for zstd in [false, true] {
            for tag in [0usize, 9, 15, 123456, usize::MAX] {
                round_trip(tag, base, new, zstd);
            }
        }
    }
}

#[test]
fn strong_path_on_shifted_input() {
    let base = noise(6000, 7);
    let new = [b"PREFIX".to_vec(), base[..3000].to_vec(), b"MIDDLE".to_vec(), base[3000..].to_vec()].concat();
    assert!(!similar_in_place(&base, &new));
    let d = round_trip(2, &base, &new, false);
    assert_eq!(decode_header(&d).unwrap().0, Algorithm::Strong);
    assert!(d.len() < 100);
}

#[test]
fn fast_path_on_small_and_similar_input() {
    let base = noise(100, 8);
    let d = round_trip(0, &base, &base[10..], false);
    assert_eq!(decode_header(&d).unwrap().0, Algorithm::Fast);
    let big = noise(100_000, 9);
    let mut new = big.clone();
    new[50_000] ^= 1;
    assert!(similar_in_place(&big, &new));
    let d = round_trip(0, &big, &new, false);
    assert_eq!(decode_header(&d).unwrap().0, Algorithm::Fast);
    assert!(d.len() < 200);
}

#[test]
fn selector_thresholds() {
    assert_eq!(select_algorithm(4096, 4096, false), Algorithm::Fast);
    assert_eq!(select_algorithm(4097, 10, false), Algorithm::Strong);
    assert_eq!(select_algorithm(10, 4097, false), Algorithm::Strong);
    assert_eq!(select_algorithm(10, 4097, true), Algorithm::Fast);
    assert_eq!(select_algorithm(8_388_607, 10, false), Algorithm::Strong);
    assert_eq!(select_algorithm(8_388_608, 10, false), Algorithm::Fast);
}

#[test]
fn empty_base_is_one_add() {
    let new = b"some new bytes".to_vec();
    let d = encode(0, b"", &new, false);
    let h = read_header(&d).unwrap();
    let body = &d[h.body_start..];
    let mut expected = vec![new.len() as u8];
    expected.extend_from_slice(&new);
    assert_eq!(body, &expected[..]);
}

#[test]
fn empty_new_has_no_instructions() {
    let d = encode(0, b"some base", b"", true);
    let h = read_header(&d).unwrap();
    assert_eq!(h.body_start, d.len());
    assert_eq!(decode(b"some base", &d), Ok(Vec::new()));
}

#[test]
fn small_tags_cost_nothing() {
    let base = noise(700, 10);
    let new = noise(700, 11);
    let zero = encode(0, &base, &new, false).len();
    for tag in 0..=14usize {
        assert_eq!(encode(tag, &base, &new, false).len(), zero);
    }
    assert!(encode(15, &base, &new, false).len() > zero);
}

#[test]
fn encoding_is_deterministic() {
    let base = noise(9000, 12);
    let new = [base[..4000].to_vec(), noise(100, 13), base[4500..].to_vec()].concat();
    for zstd in [false, true] {
        assert_eq!(encode(5, &base, &new, zstd), encode(5, &base, &new, zstd));
    }
}

#[test]
fn corruption_never_gives_a_wrong_length() {
    let base = b"The quick brown fox jumps over the lazy dog".to_vec();
    let new = b"The quick red fox walks over the lazy cat".to_vec();
    let d = encode(0, &base, &new, false);
    for i in 0..d.len() {
        for bit in 0..8 {
            let mut c = d.clone();
            c[i] ^= 1 << bit;
            if let Ok(out) = decode(&base, &c) {
                let h = read_header(&c).unwrap();
                assert_eq!(out.len() as u64, h.new_len);
            }
        }
        assert!(decode(&base, &d[..i]).is_err() || i == d.len());
    }
}

#[test]
fn postcompression_never_grows() {
    let base = vec![b'X'; 10000];
    let new = vec![b'Y'; 10000];
    let plain = encode(0, &base, &new, false);
    let packed = encode(0, &base, &new, true);
    assert!(packed.len() < plain.len());
    assert!(read_header(&packed).unwrap().postcompressed);
    assert!(!read_header(&plain).unwrap().postcompressed);
    let small_plain = encode(0, b"abc", b"abd", false);
    let small_packed = encode(0, b"abc", b"abd", true);
    assert_eq!(small_plain, small_packed);
}

#[test]
fn postcompress_wrapper_changes_bytes() {
    let raw = vec![7u8; 5000];
    let (body, flag) = postcompress(raw.clone(), true);
    assert!(flag);
    assert!(body.len() < raw.len());
    assert_ne!(body, raw);
    assert_eq!(unwrap_body(&body, true), Ok(raw.clone()));
    let (same, off) = postcompress(raw.clone(), false);
    assert!(!off);
    assert_eq!(same, raw);
}

#[test]
fn select_body_rules() {
    assert_eq!(select_body(vec![1, 2, 3], Some(vec![9])), (vec![9], true));
    assert_eq!(select_body(vec![1, 2, 3], Some(vec![9, 9, 9])), (vec![1, 2, 3], false));
    assert_eq!(select_body(vec![1, 2, 3], None), (vec![1, 2, 3], false));
}

#[test]
fn each_error_kind() {
    let base = b"abc";
    assert_eq!(decode(base, b"abc"), Err(DecodeError::MalformedHeader));
    assert_eq!(decode(base, &[0x58, 0x30, 0x04, 0]), Err(DecodeError::MalformedHeader));
    assert_eq!(decode(base, &[0x58, 0x00, 0x06, 0]), Err(DecodeError::MalformedHeader));
    assert_eq!(decode(base, &[0x58, 0x00, 0x04]), Err(DecodeError::MalformedHeader));
    assert_eq!(decode(base, &[0x58, 0x00, 0x04, 3, 3, b'a']), Err(DecodeError::TruncatedBody));
    assert_eq!(decode(base, &[0x58, 0x00, 0x04, 4, 0x80, 10]), Err(DecodeError::CopyOutOfRange));
    assert_eq!(decode(base, &[0x58, 0x00, 0x04, 5, 1, b'a']), Err(DecodeError::LengthMismatch));
    let mut over = vec![0x58, 0x0F, 0x04];
    over.extend_from_slice(&[0xFF; 10]);
    over.push(0);
    assert_eq!(decode(base, &over), Err(DecodeError::VarintOverflow));
    assert_eq!(get_tag(&over), Err(DecodeError::VarintOverflow));
    assert_eq!(
        decode(base, &[0x58, 0x00, 0x05, 3, 1, 2, 3, 4]),
        Err(DecodeError::PostcompressFailure)
    );
    assert_eq!(decode(b"abcd", &[0x58, 0x20, 0x04, 3]), Err(DecodeError::LengthMismatch));
    assert_eq!(decode(base, &[0x58, 0x20, 0x04, 3, 0]), Err(DecodeError::MalformedHeader));
    assert_eq!(DecodeError::CopyOutOfRange.message(), "copy out of range");
}

#[test]
fn header_fields() {
    let d = encode(1000, b"Hello", b"World", false);
    let h = read_header(&d).unwrap();
    assert_eq!(h.tag, 1000);
    assert_eq!(h.new_len, 5);
    assert_eq!(h.algorithm, Algorithm::Fast);
    assert_eq!(decode_header(&d), Ok((Algorithm::Fast, 1000, 6)));
}

#[test]
fn suffix_array_passes_its_check() {
    let inputs: Vec<Vec<u8>> = vec![
        b"banana".to_vec(),
        Vec::new(),
        b"a".to_vec(),
        vec![b'X'; 5000],
        noise(3000, 14),
        (0..=255u8).cycle().take(2000).collect(),
    ];
    for s in &inputs {
        let sa = suffix_array(s);
        assert!(check_suffix_array(s, &sa).is_some());
    }
    assert_eq!(suffix_array(b"banana"), vec![5, 3, 1, 0, 4, 2]);
    assert!(check_suffix_array(b"banana", &vec![0, 1, 2, 3, 4, 5]).is_none());
    assert!(check_suffix_array(b"banana", &vec![5, 3, 1, 0, 4, 4]).is_none());
}

#[test]
fn longest_match_finds_the_longest() {
    let base = b"abcabxabcd";
    let sa = suffix_array(base);
    let inv = check_suffix_array(base, &sa).unwrap();
    assert_eq!(longest_match(base, &sa, &inv, b"zabcdq", 1), (6, 4));
    assert_eq!(longest_match(base, &sa, &inv, b"xab", 0), (5, 3));
    assert_eq!(longest_match(base, &sa, &inv, b"qqq", 0).1, 0);
}

#[test]
fn tag_read_from_tag_fields_alone() {
    assert_eq!(get_tag(&[0x58, 0x07, 0x04]), Ok(7));
    assert_eq!(get_tag(&[0x58, 0x2E, 0x04, 0xFF, 0xFF]), Ok(14));
    assert_eq!(get_tag(&[0x58, 0x0F, 0x04, 0xE8, 0x07]), Ok(1000));
    assert_eq!(get_tag(&[0x58, 0x0F, 0x04, 0xE8]), Err(DecodeError::MalformedHeader));
    assert_eq!(get_tag(&[0x58, 0x07, 0x06]), Err(DecodeError::MalformedHeader));
    assert_eq!(get_tag(&[0x58, 0x37, 0x04]), Err(DecodeError::MalformedHeader));
    let d = encode(1000, b"Hello", b"World", false);
    assert_eq!(&d[3..5], &[0xE8, 0x07]);
    assert_eq!(get_tag(&d[..5]), Ok(1000));
    let mut cut = d[..5].to_vec();
    cut.extend_from_slice(b"anything");
    assert_eq!(get_tag(&cut), Ok(1000));
}

#[test]
fn tags_change_only_tag_bytes() {
    let base = noise(900, 20);
    let new = [base[..400].to_vec(), noise(30, 21), base[450..].to_vec()].concat();
    let d0 = encode(0, &base, &new, true);
    for tag in [1usize, 14] {
        let d = encode(tag, &base, &new, true);
        assert_eq!(d[0], d0[0]);
        assert_eq!(d[1] & 0xF0, d0[1] & 0xF0);
        assert_eq!(d[1] & 0x0F, tag as u8);
        assert_eq!(&d[2..], &d0[2..]);
    }
}

#[test]
fn insertion_suffix_array_agrees() {
    let inputs: Vec<Vec<u8>> = vec![b"banana".to_vec(), Vec::new(), b"aaaa".to_vec(), noise(300, 22)];
    for s in &inputs {
        let sa = suffix_array_by_insertion(s);
        assert_eq!(sa, suffix_array(s));
        assert!(check_suffix_array(s, &sa).is_some());
    }
    assert!(suffix_le(b"banana", 5, 3));
    assert!(!suffix_le(b"banana", 0, 5));
    assert!(suffix_le(b"banana", 2, 2));
}

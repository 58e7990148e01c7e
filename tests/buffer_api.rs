use xpatch::{get_tag, xpatch_decode, xpatch_encode};

#[test]
fn test_encode_decode_roundtrip() {
    let base = b"Hello, World!";
    let new = b"Hello, Rust!";

    let delta = xpatch_encode(0, base, new, true);
    assert!(!delta.data.is_empty());
    assert!(delta.len > 0);

    let result = xpatch_decode(base, &delta.data);
    assert!(result.error.is_none());
    assert!(!result.buffer.data.is_empty());
    assert_eq!(result.buffer.len, new.len());
    assert_eq!(&result.buffer.data[..], &new[..]);
}

#[test]
fn test_get_tag() {
    let base = b"Hello, World!";
    let new = b"Hello, Rust!";
    let tag_value = 42;

    let delta = xpatch_encode(tag_value, base, new, true);
    let tag = get_tag(&delta.data);
    assert!(tag.is_ok());
    assert_eq!(tag.unwrap(), tag_value);
}

#[test]
fn test_empty_data() {
    let base = b"";
    let new = b"";

    let delta = xpatch_encode(0, base, new, false);
    assert!(!delta.data.is_empty());
    assert!(delta.len > 0);

    let result = xpatch_decode(base, &delta.data);
    assert!(result.error.is_none());
    assert_eq!(result.buffer.len, 0);
}

#[test]
fn test_identical_data() {
    let data = b"Hello, World!";

    let delta = xpatch_encode(0, data, data, false);
    assert!(!delta.data.is_empty());
    assert!(delta.len < 10);

    let result = xpatch_decode(data, &delta.data);
    assert!(result.error.is_none());
    assert_eq!(result.buffer.len, data.len());
    assert_eq!(&result.buffer.data[..], &data[..]);
}

#[test]
fn test_large_data() {
    let base = vec![b'A'; 1024 * 1024];
    let mut new = base.clone();
    new[512 * 1024] = b'B';

    let delta = xpatch_encode(0, &base, &new, true);
    assert!(!delta.data.is_empty());
    assert!(delta.len < 1024);

    let result = xpatch_decode(&base, &delta.data);
    assert!(result.error.is_none());
    assert_eq!(result.buffer.len, new.len());
    assert_eq!(&result.buffer.data[..], &new[..]);
}

#[test]
fn test_invalid_delta() {
    let base = b"Hello, World!";
    let invalid_delta = b"this is not a valid delta";

    let result = xpatch_decode(base, invalid_delta);
    assert!(result.error.is_some());
    assert!(result.buffer.data.is_empty());
    assert_eq!(result.buffer.len, 0);

    let error_msg = result.error.unwrap().message();
    assert!(!error_msg.is_empty());
}

#[test]
fn test_truncated_delta() {
    let base = b"Hello, World!";
    let new = b"Hello, Rust!";

    let delta = xpatch_encode(0, base, new, false);
    if delta.len > 2 {
        let result = xpatch_decode(base, &delta.data[..delta.len / 2]);
        assert!(result.error.is_some());
    }
}

#[test]
fn test_tag_zero_overhead() {
    let base = b"Hello";
    let new = b"World";

    for tag in 0..=15 {
        let delta = xpatch_encode(tag, base, new, false);
        let extracted_tag = get_tag(&delta.data);
        assert!(extracted_tag.is_ok());
        assert_eq!(extracted_tag.unwrap(), tag);
    }
}

#[test]
fn test_large_tag() {
    let base = b"Hello";
    let new = b"World";
    let large_tag = 1000;

    let delta = xpatch_encode(large_tag, base, new, false);
    let extracted_tag = get_tag(&delta.data);
    assert!(extracted_tag.is_ok());
    assert_eq!(extracted_tag.unwrap(), large_tag);
}

#[test]
fn test_with_without_zstd() {
    let base = vec![b'X'; 10000];
    let new = vec![b'Y'; 10000];

    let delta_no_zstd = xpatch_encode(0, &base, &new, false);
    let delta_with_zstd = xpatch_encode(0, &base, &new, true);

    let result1 = xpatch_decode(&base, &delta_no_zstd.data);
    let result2 = xpatch_decode(&base, &delta_with_zstd.data);

    assert!(result1.error.is_none());
    assert!(result2.error.is_none());
}

#[test]
fn test_multiple_encode_decode() {
    let base = b"Version 1";
    let v2 = b"Version 2";
    let v3 = b"Version 3";

    let delta1 = xpatch_encode(0, base, v2, false);
    let delta2 = xpatch_encode(1, v2, v3, false);

    let result1 = xpatch_decode(base, &delta1.data);
    assert!(result1.error.is_none());
    assert_eq!(&result1.buffer.data[..], &v2[..]);

    let result2 = xpatch_decode(&result1.buffer.data, &delta2.data);
    assert!(result2.error.is_none());
    assert_eq!(&result2.buffer.data[..], &v3[..]);
}

#[test]
fn test_binary_data() {
    let base: Vec<u8> = (0..=255).cycle().take(1000).collect();
    let mut new = base.clone();
    new[500] = 0xFF;

    let delta = xpatch_encode(0, &base, &new, false);

    let result = xpatch_decode(&base, &delta.data);
    assert!(result.error.is_none());
    assert_eq!(&result.buffer.data[..], &new[..]);
}

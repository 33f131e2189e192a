use file_duplicate_finder::digest::{content_digest, format_digest, pack_digest};

#[test]
fn digest_of_empty_input() {
    assert_eq!(content_digest(b""), 0xd41d8cd98f00b204e9800998ecf8427e_u128);
}

#[test]
fn digest_of_hello_world() {
    assert_eq!(content_digest(b"hello world"), 0x5eb63bbbe01eeed093cb22bb8f5acdc3_u128);
}

#[test]
fn digest_of_alphabet() {
    let digest = content_digest(b"abcdefghijklmnopqrstuvwxyz");
    assert_eq!(format_digest(digest), "c3fcd3d76192e4007dfb496cca67e13b");
}

#[test]
fn digest_differs_from_its_input() {
    let input: [u8; 16] = [0; 16];
    assert_ne!(content_digest(&input), pack_digest(&input));
}

#[test]
fn equal_content_gives_equal_digest() {
    assert_eq!(content_digest(b"same bytes"), content_digest(b"same bytes"));
    assert_ne!(content_digest(b"same bytes"), content_digest(b"other bytes"));
}

#[test]
fn pack_reads_big_endian() {
    let mut bytes: [u8; 16] = [0; 16];
    bytes[15] = 1;
    assert_eq!(pack_digest(&bytes), 1);
    bytes[15] = 0;
    bytes[0] = 1;
    assert_eq!(pack_digest(&bytes), 1u128 << 120);
    let all: [u8; 16] = [0xff; 16];
    assert_eq!(pack_digest(&all), u128::MAX);
}

#[test]
fn format_pads_with_zeros() {
    assert_eq!(format_digest(0), "00000000000000000000000000000000");
    assert_eq!(format_digest(0xabc), "00000000000000000000000000000abc");
    assert_eq!(format_digest(u128::MAX), "ffffffffffffffffffffffffffffffff");
}

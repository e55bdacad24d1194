use bitr::digest::{digest_equals, has_digest, sha1_digest};

const HELLO: [u8; 20] = [
    0xaa, 0xf4, 0xc6, 0x1d, 0xdc, 0xc5, 0xe8, 0xa2, 0xda, 0xbe, 0xde, 0x0f, 0x3b, 0x48, 0x2c,
    0xd9, 0xae, 0xa9, 0x43, 0x4d,
];

const EMPTY: [u8; 20] = [
    0xda, 0x39, 0xa3, 0xee, 0x5e, 0x6b, 0x4b, 0x0d, 0x32, 0x55, 0xbf, 0xef, 0x95, 0x60, 0x18,
    0x90, 0xaf, 0xd8, 0x07, 0x09,
];

#[test]
fn sha1_of_hello() {
    assert_eq!(sha1_digest(b"hello").unwrap(), HELLO.to_vec());
}

#[test]
fn sha1_of_nothing() {
    assert_eq!(sha1_digest(b"").unwrap(), EMPTY.to_vec());
}

#[test]
fn digest_has_twenty_bytes() {
    assert_eq!(sha1_digest(&[0u8; 100_000]).unwrap().len(), 20);
}

#[test]
fn has_digest_tells_bytes_apart() {
    assert!(has_digest(b"hello", &HELLO));
    assert!(!has_digest(b"hellp", &HELLO));
    assert!(!has_digest(b"", &HELLO));
    assert!(has_digest(b"", &EMPTY));
}

#[test]
fn digest_equals_compares_every_byte() {
    assert!(digest_equals(&HELLO, &HELLO));
    let mut other = HELLO;
    other[19] ^= 1;
    assert!(!digest_equals(&other, &HELLO));
    assert!(!digest_equals(&HELLO[..19], &HELLO));
    assert!(!digest_equals(&[], &HELLO));
}

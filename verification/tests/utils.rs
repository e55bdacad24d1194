use bitr::error::Error;
use bitr::utils::{bytes_to_string_with_encoding, generate_peer_id};

#[test]
fn test_num() -> Result<(), Error> {
    let s = bytes_to_string_with_encoding(&[19])?;
    assert_eq!(s, "%13");
    Ok(())
}

#[test]
fn encoding_writes_two_upper_case_digits_per_byte() {
    let s = bytes_to_string_with_encoding(&[0, 10, 171, 255]).unwrap();
    assert_eq!(s, "%00%0A%AB%FF");
}

#[test]
fn encoding_of_nothing_is_empty() {
    assert_eq!(bytes_to_string_with_encoding(&[]).unwrap(), "");
}

#[test]
fn peer_id_has_twenty_bytes() {
    let id = generate_peer_id().unwrap();
    assert_eq!(id.len(), 20);
}

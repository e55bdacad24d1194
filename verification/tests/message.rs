use bitr::bits::Bitfield;
use bitr::error::Error;
use bitr::message::Msg;

fn bitfield_of(bits: &[bool]) -> Bitfield {
    let mut field = Bitfield::from_bytes(vec![0; (bits.len() + 7) / 8]).unwrap();
    field.fit_to(bits.len());
    for (i, bit) in bits.iter().enumerate() {
        assert!(field.set(i, *bit));
    }
    field
}

#[test]
fn test_choke_msg() -> Result<(), Error> {
    let msg = Msg::Choke.get_message();
    assert_eq!(msg, &[0, 0, 0, 1, 0]);
    Ok(())
}

#[test]
fn test_unchoke_msg() -> Result<(), Error> {
    let msg = Msg::Unchoke.get_message();
    assert_eq!(msg, &[0, 0, 0, 1, 1]);
    Ok(())
}

#[test]
fn test_interested_msg() -> Result<(), Error> {
    let msg = Msg::Interested.get_message();
    assert_eq!(msg, &[0, 0, 0, 1, 2]);
    Ok(())
}

#[test]
fn test_not_interested_msg() -> Result<(), Error> {
    let msg = Msg::NotInterested.get_message();
    assert_eq!(msg, &[0, 0, 0, 1, 3]);
    Ok(())
}

#[test]
fn test_have_msg() -> Result<(), Error> {
    let msg = Msg::Have(10).get_message();
    assert_eq!(msg, &[0, 0, 0, 5, 4, 0, 0, 0, 10]);
    Ok(())
}

#[test]
fn test_bitfield_msg() -> Result<(), Error> {
    let bitfield = bitfield_of(&[
        true, true, false, true, false, true, false, true, false, true, false, true, false, false,
        false, true,
    ]);
    let msg = Msg::Bitfield(bitfield).get_message();
    assert_eq!(msg, &[0, 0, 0, 3, 5, 213, 81]);
    Ok(())
}

#[test]
fn test_request_msg() -> Result<(), Error> {
    let msg = Msg::Request {
        index: 309,
        begin: 0,
        length: 16384,
    }
    .get_message();
    assert_eq!(msg, &[0, 0, 0, 13, 6, 0, 0, 1, 53, 0, 0, 0, 0, 0, 0, 64, 0]);
    Ok(())
}

#[test]
fn test_piece_msg() -> Result<(), Error> {
    let msg = Msg::Piece {
        index: 442,
        begin: 23,
        block: vec![0, 125, 39, 84, 64],
    }
    .get_message();
    assert_eq!(
        msg,
        &[0, 0, 0, 14, 7, 0, 0, 1, 186, 0, 0, 0, 23, 0, 125, 39, 84, 64]
    );
    Ok(())
}

#[test]
fn test_cancel_msg() -> Result<(), Error> {
    let msg = Msg::Cancel {
        index: 10000,
        begin: 1600,
        length: 16384,
    }
    .get_message();
    assert_eq!(
        msg,
        &[0, 0, 0, 13, 8, 0, 0, 39, 16, 0, 0, 6, 64, 0, 0, 64, 0]
    );
    Ok(())
}

#[test]
fn big_endian_fields_use_all_four_bytes() {
    let msg = Msg::Have(0x0102_0304).get_message();
    assert_eq!(msg, &[0, 0, 0, 5, 4, 1, 2, 3, 4]);
    let msg = Msg::Have(u32::MAX).get_message();
    assert_eq!(msg, &[0, 0, 0, 5, 4, 255, 255, 255, 255]);
}

#[test]
fn piece_with_empty_block_has_length_nine() {
    let msg = Msg::Piece { index: 1, begin: 2, block: vec![] }.get_message();
    assert_eq!(msg, &[0, 0, 0, 9, 7, 0, 0, 0, 1, 0, 0, 0, 2]);
}

#[test]
fn parse_reads_the_messages_without_fields() {
    assert!(matches!(Msg::parse(vec![0]), Ok(Msg::Choke)));
    assert!(matches!(Msg::parse(vec![1]), Ok(Msg::Unchoke)));
    assert!(matches!(Msg::parse(vec![2]), Ok(Msg::Interested)));
    assert!(matches!(Msg::parse(vec![3]), Ok(Msg::NotInterested)));
}

#[test]
fn parse_reads_have() {
    assert!(matches!(Msg::parse(vec![4, 0, 0, 0, 10]), Ok(Msg::Have(10))));
    assert!(matches!(Msg::parse(vec![4, 1, 2, 3, 4]), Ok(Msg::Have(0x0102_0304))));
}

#[test]
fn parse_reads_request_and_cancel() {
    let request = Msg::parse(vec![6, 0, 0, 1, 53, 0, 0, 0, 0, 0, 0, 64, 0]);
    assert!(matches!(request, Ok(Msg::Request { index: 309, begin: 0, length: 16384 })));
    let cancel = Msg::parse(vec![8, 0, 0, 39, 16, 0, 0, 6, 64, 0, 0, 64, 0]);
    assert!(matches!(cancel, Ok(Msg::Cancel { index: 10000, begin: 1600, length: 16384 })));
}

#[test]
fn parse_reads_piece() {
    match Msg::parse(vec![7, 0, 0, 1, 186, 0, 0, 0, 23, 0, 125, 39, 84, 64]) {
        Ok(Msg::Piece { index, begin, block }) => {
            assert_eq!(index, 442);
            assert_eq!(begin, 23);
            assert_eq!(block, vec![0, 125, 39, 84, 64]);
        }
        other => panic!("not a piece: {:?}", other),
    }
}

#[test]
fn parse_reads_bitfield_most_significant_bit_first() {
    match Msg::parse(vec![5, 213, 81]) {
        Ok(Msg::Bitfield(field)) => {
            assert_eq!(field.len(), 16);
            let expected = [
                true, true, false, true, false, true, false, true, false, true, false, true,
                false, false, false, true,
            ];
            for (i, bit) in expected.iter().enumerate() {
                assert_eq!(field.has(i), *bit, "bit {}", i);
            }
        }
        other => panic!("not a bitfield: {:?}", other),
    }
}

#[test]
fn parse_rejects_unknown_identifier() {
    assert!(matches!(Msg::parse(vec![9]), Err(Error::InvalidMessageId)));
    assert!(matches!(Msg::parse(vec![255, 0, 0, 0, 0]), Err(Error::InvalidMessageId)));
}

#[test]
fn parse_rejects_truncated_fields() {
    assert!(matches!(Msg::parse(vec![]), Err(Error::TruncatedMessage)));
    assert!(matches!(Msg::parse(vec![4, 0, 0, 0]), Err(Error::TruncatedMessage)));
    assert!(matches!(Msg::parse(vec![6, 0, 0, 0, 0, 0, 0, 0, 0, 0, 0, 0]), Err(Error::TruncatedMessage)));
    assert!(matches!(Msg::parse(vec![7, 0, 0, 0, 0, 0, 0, 0]), Err(Error::TruncatedMessage)));
    assert!(matches!(Msg::parse(vec![8, 0]), Err(Error::TruncatedMessage)));
}

#[test]
fn parse_ignores_bytes_after_fixed_fields() {
    assert!(matches!(Msg::parse(vec![0, 7, 7]), Ok(Msg::Choke)));
    assert!(matches!(Msg::parse(vec![4, 0, 0, 0, 10, 99]), Ok(Msg::Have(10))));
}

#[test]
fn encode_then_parse_gives_the_message_back() {
    let frame = Msg::Request { index: 7, begin: 32768, length: 1000 }.get_message();
    assert!(matches!(
        Msg::parse(frame[4..].to_vec()),
        Ok(Msg::Request { index: 7, begin: 32768, length: 1000 })
    ));
    let frame = Msg::Piece { index: 3, begin: 16384, block: vec![1, 2, 3] }.get_message();
    match Msg::parse(frame[4..].to_vec()) {
        Ok(Msg::Piece { index: 3, begin: 16384, block }) => assert_eq!(block, vec![1, 2, 3]),
        other => panic!("not the piece: {:?}", other),
    }
    let frame = Msg::Have(77).get_message();
    assert!(matches!(Msg::parse(frame[4..].to_vec()), Ok(Msg::Have(77))));
}

#[test]
fn parse_then_encode_gives_the_frame_back() {
    let frames: Vec<Vec<u8>> = vec![
        vec![0, 0, 0, 1, 0],
        vec![0, 0, 0, 1, 1],
        vec![0, 0, 0, 1, 2],
        vec![0, 0, 0, 1, 3],
        vec![0, 0, 0, 5, 4, 0, 0, 0, 10],
        vec![0, 0, 0, 3, 5, 213, 81],
        vec![0, 0, 0, 13, 6, 0, 0, 1, 53, 0, 0, 0, 0, 0, 0, 64, 0],
        vec![0, 0, 0, 14, 7, 0, 0, 1, 186, 0, 0, 0, 23, 0, 125, 39, 84, 64],
        vec![0, 0, 0, 13, 8, 0, 0, 39, 16, 0, 0, 6, 64, 0, 0, 64, 0],
    ];
    for frame in frames {
        let msg = Msg::parse(frame[4..].to_vec()).unwrap();
        assert_eq!(msg.get_message(), frame);
    }
}

#[test]
fn encode_gives_the_frame_of_every_message_that_fits() {
    assert_eq!(Msg::Choke.encode(), Some(vec![0, 0, 0, 1, 0]));
    assert_eq!(Msg::Have(10).encode(), Some(vec![0, 0, 0, 5, 4, 0, 0, 0, 10]));
    assert_eq!(
        Msg::Bitfield(bitfield_of(&[true; 8])).encode(),
        Some(vec![0, 0, 0, 2, 5, 255])
    );
    assert_eq!(
        Msg::Piece { index: 1, begin: 2, block: vec![3] }.encode(),
        Some(vec![0, 0, 0, 10, 7, 0, 0, 0, 1, 0, 0, 0, 2, 3])
    );
}

#[test]
fn frame_prefix_is_the_payload_length() {
    let frame = Msg::Piece { index: 0, begin: 0, block: vec![9; 300] }.get_message();
    assert_eq!(frame.len(), 4 + 9 + 300);
    assert_eq!(&frame[..4], &[0, 0, 1, 53]);
}

use bitr::bits::Bitfield;

#[test]
fn bits_come_most_significant_first() {
    let field = Bitfield::from_bytes(vec![0b1000_0000, 0b0000_0001]).unwrap();
    assert_eq!(field.len(), 16);
    assert!(field.has(0));
    for i in 1..15 {
        assert!(!field.has(i), "bit {}", i);
    }
    assert!(field.has(15));
}

#[test]
fn each_bit_of_a_byte_has_its_place() {
    for k in 0..8usize {
        let field = Bitfield::from_bytes(vec![0x80 >> k]).unwrap();
        for i in 0..8usize {
            assert_eq!(field.has(i), i == k, "byte with bit {} at {}", k, i);
        }
    }
}

#[test]
fn empty_bitfield_has_no_bits() {
    let field = Bitfield::from_bytes(vec![]).unwrap();
    assert_eq!(field.len(), 0);
    assert!(!field.has(0));
}

#[test]
fn a_place_past_the_end_is_not_set() {
    let field = Bitfield::from_bytes(vec![255]).unwrap();
    assert!(field.has(7));
    assert!(!field.has(8));
    assert!(!field.has(usize::MAX));
}

#[test]
fn set_writes_one_bit_and_reports_a_place_past_the_end() {
    let mut field = Bitfield::from_bytes(vec![0, 0]).unwrap();
    assert!(field.set(3, true));
    for i in 0..16 {
        assert_eq!(field.has(i), i == 3);
    }
    assert!(field.set(3, false));
    assert!(!field.has(3));
    assert!(!field.set(16, true));
    assert_eq!(field.len(), 16);
}

#[test]
fn fit_to_cuts_the_tail() {
    let mut field = Bitfield::from_bytes(vec![0b1111_1111]).unwrap();
    field.fit_to(3);
    assert_eq!(field.len(), 3);
    assert!(field.has(0) && field.has(1) && field.has(2));
    assert!(!field.has(3));
}

#[test]
fn fit_to_fills_with_zeros() {
    let mut field = Bitfield::from_bytes(vec![0b1010_0000]).unwrap();
    field.fit_to(20);
    assert_eq!(field.len(), 20);
    assert!(field.has(0));
    assert!(!field.has(1));
    assert!(field.has(2));
    for i in 3..20 {
        assert!(!field.has(i), "bit {}", i);
    }
}

#[test]
fn cut_bits_do_not_come_back() {
    let mut field = Bitfield::from_bytes(vec![0b1111_1111]).unwrap();
    field.fit_to(3);
    field.fit_to(8);
    assert!(field.has(2));
    for i in 3..8 {
        assert!(!field.has(i), "bit {}", i);
    }
}

#[test]
fn into_bytes_gives_the_bytes_back() {
    let field = Bitfield::from_bytes(vec![213, 81, 7]).unwrap();
    assert_eq!(field.into_bytes(), vec![213, 81, 7]);
}

#[test]
fn into_bytes_sees_the_bits_that_were_set() {
    let mut field = Bitfield::from_bytes(vec![0, 0]).unwrap();
    field.set(0, true);
    field.set(9, true);
    assert_eq!(field.into_bytes(), vec![0b1000_0000, 0b0100_0000]);
}

//! Small helpers on byte strings, and the client's peer id.
use crate::error::Error;
use ring::error::Unspecified;
use ring::rand::{SecureRandom, SystemRandom};
use vstd::prelude::*;

verus! {

/// Length of a peer id.
pub const PEER_ID_LENGTH: usize = 20;

/// `String::push` of std: the character is appended.
pub assume_specification[ String::push ](s: &mut String, ch: char)
    ensures
        final(s)@ == old(s)@.push(ch),
;

/// `String::push_str` of std: the string is appended.
pub assume_specification[ String::push_str ](s: &mut String, string: &str)
    ensures
        final(s)@ == old(s)@ + string@,
;

/// The error of `ring`, which says nothing of its cause.
#[verifier::external_type_specification]
#[verifier::external_body]
pub struct ExUnspecified(Unspecified);

/// The upper-case hexadecimal digit for `n`.
pub open spec fn hex_char(n: int) -> char {
    if n == 0 {
        '0'
    } else if n == 1 {
        '1'
    } else if n == 2 {
        '2'
    } else if n == 3 {
        '3'
    } else if n == 4 {
        '4'
    } else if n == 5 {
        '5'
    } else if n == 6 {
        '6'
    } else if n == 7 {
        '7'
    } else if n == 8 {
        '8'
    } else if n == 9 {
        '9'
    } else if n == 10 {
        'A'
    } else if n == 11 {
        'B'
    } else if n == 12 {
        'C'
    } else if n == 13 {
        'D'
    } else if n == 14 {
        'E'
    } else {
        'F'
    }
}

/// Every byte as `%` and its two upper-case hexadecimal digits.
pub open spec fn percent_encoded(bytes: Seq<u8>) -> Seq<char>
    decreases bytes.len(),
{
    if bytes.len() == 0 {
        Seq::empty()
    } else {
        percent_encoded(bytes.drop_last()) + seq![
            '%',
            hex_char(bytes.last() as int / 16),
            hex_char(bytes.last() as int % 16),
        ]
    }
}

/// The upper-case hexadecimal digit for `n`.
fn hex_digit(n: u8) -> (c: char)
    requires
        n < 16,
    ensures
        c == hex_char(n as int),
{
    match n {
        0 => '0',
        1 => '1',
        2 => '2',
        3 => '3',
        4 => '4',
        5 => '5',
        6 => '6',
        7 => '7',
        8 => '8',
        9 => '9',
        10 => 'A',
        11 => 'B',
        12 => 'C',
        13 => 'D',
        14 => 'E',
        _ => 'F',
    }
}

/// Appends the percent-encoding of `bytes` to `s`.
pub fn push_percent_encoded(s: &mut String, bytes: &[u8])
    ensures
        final(s)@ == old(s)@ + percent_encoded(bytes@),
{
    let mut i: usize = 0;
    assert(bytes@.take(0) =~= Seq::<u8>::empty());
    assert(s@ =~= old(s)@ + percent_encoded(bytes@.take(0)));
    while i < bytes.len()
        invariant
            i <= bytes@.len(),
            s@ == old(s)@ + percent_encoded(bytes@.take(i as int)),
        decreases bytes@.len() - i,
    {
        let byte: u8 = bytes[i];
        s.push('%');
        s.push(hex_digit(byte / 16));
        s.push(hex_digit(byte % 16));
        proof {
            let upto = bytes@.take(i + 1);
            assert(upto.drop_last() =~= bytes@.take(i as int));
            assert(upto.last() == byte);
            assert(s@ =~= old(s)@ + percent_encoded(upto));
        }
        i += 1;
    }
    assert(bytes@.take(i as int) =~= bytes@);
}

/// Writes every byte as `%` and two upper-case hexadecimal digits, as a
/// tracker wants the info-hash and the peer id in its URL.
pub fn bytes_to_string_with_encoding(bytes: &[u8]) -> (r: Result<String, Error>)
    ensures
        r is Ok,
        r->Ok_0@ == percent_encoded(bytes@),
{
    let mut s = String::new();
    push_percent_encoded(&mut s, bytes);
    assert(s@ =~= percent_encoded(bytes@));
    Ok(s)
}

/// `SystemRandom::new` and `SecureRandom::fill` of `ring`, on a fresh buffer
/// of `n` bytes. Claims only that a buffer that comes back has `n` bytes:
/// what they are is up to the system.
#[verifier::external_body]
fn fill_random(n: usize) -> (r: Result<Vec<u8>, Unspecified>)
    ensures
        r is Ok ==> r->Ok_0@.len() == n,
{
    let mut bytes: Vec<u8> = vec![0; n];
    SystemRandom::new().fill(&mut bytes)?;
    Ok(bytes)
}

/// Twenty random bytes to go by among the peers.
pub fn generate_peer_id() -> (r: Result<Vec<u8>, Error>)
    ensures
        r is Ok ==> r->Ok_0@.len() == PEER_ID_LENGTH,
        r is Err ==> r->Err_0 == Error::Random,
{
    match fill_random(PEER_ID_LENGTH) {
        Ok(bytes) => Ok(bytes),
        Err(_) => Err(Error::Random),
    }
}

/// Whether two byte strings are equal.
pub fn same_bytes(a: &[u8], b: &[u8]) -> (r: bool)
    ensures
        r == (a@ == b@),
{
    if a.len() != b.len() {
        return false;
    }
    let mut i: usize = 0;
    while i < a.len()
        invariant
            i <= a@.len(),
            a@.len() == b@.len(),
            forall|k: int| 0 <= k < i ==> a@[k] == b@[k],
        decreases a@.len() - i,
    {
        if a[i] != b[i] {
            return false;
        }
        i += 1;
    }
    assert(a@ =~= b@);
    true
}

/// A copy of a byte string.
pub fn copy_bytes(bytes: &[u8]) -> (copy: Vec<u8>)
    ensures
        copy@ == bytes@,
{
    let mut copy: Vec<u8> = Vec::new();
    let mut i: usize = 0;
    while i < bytes.len()
        invariant
            i <= bytes@.len(),
            copy@ == bytes@.take(i as int),
        decreases bytes@.len() - i,
    {
        copy.push(bytes[i]);
        i += 1;
        assert(copy@ =~= bytes@.take(i as int));
    }
    assert(bytes@.take(i as int) =~= bytes@);
    copy
}

} // verus!

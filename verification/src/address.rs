//! Content addresses: the digest of a byte string, and its textual form.

use crate::error::Error;
use vstd::prelude::*;
use vstd::string::StrSliceExecFns;

verus! {

/// Width of a content address in bytes.
pub const ADDRESS_LEN: usize = 32;

/// The SHA3-256 digest that `xor_name` computes of `content`.
pub uninterp spec fn content_hash(content: Seq<u8>) -> Seq<u8>;

/// Digest of `content`, as a sequence of exactly [`ADDRESS_LEN`] bytes.
///
/// Equal to [`content_hash`] wherever that has the width of an address, which
/// is the case for every digest computed at run time.
pub open spec fn digest(content: Seq<u8>) -> Seq<u8> {
    let h = content_hash(content);
    if h.len() == 32 {
        h
    } else {
        Seq::new(32, |i: int| 0u8)
    }
}

/// Calls `xor_name::XorName::from_content` and hands out the 32 bytes of the
/// name. Trusted: the bytes are the SHA3-256 digest of `content`, a function
/// of `content` alone.
#[verifier::external_body]
fn hash_content(content: &[u8]) -> (out: [u8; 32])
    ensures
        out@ == content_hash(content@),
{
    xor_name::XorName::from_content(content).0
}

/// Appends one character to a string, as `String::push` documents.
pub assume_specification[ String::push ](s: &mut String, c: char)
    ensures
        final(s)@ == old(s)@.push(c),
;

/// Identifier of a byte string: its digest.
#[derive(Clone, Copy, Debug, PartialEq, Eq, Hash)]
pub struct ContentAddress {
    pub bytes: [u8; 32],
}

impl View for ContentAddress {
    type V = Seq<u8>;

    open spec fn view(&self) -> Seq<u8> {
        self.bytes@
    }
}

/// The addresses of a sequence, as byte strings.
pub open spec fn address_views(addresses: Seq<ContentAddress>) -> Seq<Seq<u8>> {
    Seq::new(addresses.len(), |i: int| addresses[i]@)
}

/// The lower-case hexadecimal digit of a value below sixteen.
pub open spec fn hex_digit(n: int) -> char {
    if n == 0 {
        '0'
    } else if n == 1 {
        '1'
    } else if n == 2 {
        '2'
    } else if n == 3 {
        '3'
    } else if n == 4 {
        '4'
    } else if n == 5 {
        '5'
    } else if n == 6 {
        '6'
    } else if n == 7 {
        '7'
    } else if n == 8 {
        '8'
    } else if n == 9 {
        '9'
    } else if n == 10 {
        'a'
    } else if n == 11 {
        'b'
    } else if n == 12 {
        'c'
    } else if n == 13 {
        'd'
    } else if n == 14 {
        'e'
    } else {
        'f'
    }
}

/// The value of a hexadecimal digit of either case, if `c` is one.
pub open spec fn hex_value(c: char) -> Option<int> {
    if '0' <= c <= '9' {
        Some(c as int - '0' as int)
    } else if 'a' <= c <= 'f' {
        Some(c as int - 'a' as int + 10)
    } else if 'A' <= c <= 'F' {
        Some(c as int - 'A' as int + 10)
    } else {
        None
    }
}

/// Two lower-case hexadecimal digits per byte, high nibble first.
pub open spec fn hex_of(bytes: Seq<u8>) -> Seq<char> {
    Seq::new(
        2 * bytes.len(),
        |i: int|
            if i % 2 == 0 {
                hex_digit(bytes[i / 2] as int / 16)
            } else {
                hex_digit(bytes[i / 2] as int % 16)
            },
    )
}

/// Whether `text` is an even number of hexadecimal digits.
pub open spec fn is_hex(text: Seq<char>) -> bool {
    &&& text.len() % 2 == 0
    &&& forall|i: int| 0 <= i < text.len() ==> (#[trigger] hex_value(text[i])) is Some
}

/// The bytes that a hexadecimal text spells.
pub open spec fn hex_bytes(text: Seq<char>) -> Seq<u8> {
    Seq::new(
        text.len() / 2,
        |i: int| (16 * hex_value(text[2 * i]).unwrap() + hex_value(text[2 * i + 1]).unwrap()) as u8,
    )
}

/// Decoding undoes encoding: the text of any byte string is hexadecimal and
/// spells that byte string.
pub proof fn lemma_hex_round_trip(bytes: Seq<u8>)
    ensures
        is_hex(hex_of(bytes)),
        hex_bytes(hex_of(bytes)) == bytes,
{
    let text = hex_of(bytes);
    assert forall|i: int| 0 <= i < text.len() implies (#[trigger] hex_value(text[i])) is Some by {
        let b = bytes[i / 2] as int;
        assert(0 <= b / 16 < 16 && 0 <= b % 16 < 16);
    }
    assert forall|i: int| 0 <= i < bytes.len() implies hex_bytes(text)[i] == bytes[i] by {
        let b = bytes[i] as int;
        assert(text[2 * i] == hex_digit(b / 16));
        assert(text[2 * i + 1] == hex_digit(b % 16));
        assert(hex_value(hex_digit(b / 16)) == Some(b / 16));
        assert(hex_value(hex_digit(b % 16)) == Some(b % 16));
    }
    assert(hex_bytes(text) =~= bytes);
}

fn digit_char(n: u8) -> (c: char)
    requires
        n < 16,
    ensures
        c == hex_digit(n as int),
{
    if n == 0 {
        '0'
    } else if n == 1 {
        '1'
    } else if n == 2 {
        '2'
    } else if n == 3 {
        '3'
    } else if n == 4 {
        '4'
    } else if n == 5 {
        '5'
    } else if n == 6 {
        '6'
    } else if n == 7 {
        '7'
    } else if n == 8 {
        '8'
    } else if n == 9 {
        '9'
    } else if n == 10 {
        'a'
    } else if n == 11 {
        'b'
    } else if n == 12 {
        'c'
    } else if n == 13 {
        'd'
    } else if n == 14 {
        'e'
    } else {
        'f'
    }
}

fn digit_value(c: char) -> (v: Option<u8>)
    ensures
        match v {
            Some(n) => hex_value(c) == Some(n as int) && n < 16,
            None => hex_value(c) is None,
        },
{
    if '0' <= c && c <= '9' {
        Some((c as u32 - '0' as u32) as u8)
    } else if 'a' <= c && c <= 'f' {
        Some((c as u32 - 'a' as u32 + 10) as u8)
    } else if 'A' <= c && c <= 'F' {
        Some((c as u32 - 'A' as u32 + 10) as u8)
    } else {
        None
    }
}

/// Writes `bytes` as lower-case hexadecimal text.
pub fn hex_encode(bytes: &[u8]) -> (text: String)
    ensures
        text@ == hex_of(bytes@),
{
    let mut text = String::new();
    let mut i: usize = 0;
    while i < bytes.len()
        invariant
            i <= bytes.len(),
            text@ == hex_of(bytes@.take(i as int)),
        decreases bytes.len() - i,
    {
        let b: u8 = bytes[i];
        text.push(digit_char(b / 16));
        text.push(digit_char(b % 16));
        proof {
            assert(hex_of(bytes@.take(i + 1)) =~= hex_of(bytes@.take(i as int)).push(
                hex_digit(b as int / 16),
            ).push(hex_digit(b as int % 16)));
        }
        i += 1;
    }
    proof {
        assert(bytes@.take(i as int) =~= bytes@);
    }
    text
}

/// Reads hexadecimal text of either case; `None` unless `text` is an even
/// number of hexadecimal digits.
pub fn hex_decode(text: &str) -> (bytes: Option<Vec<u8>>)
    ensures
        bytes is Some <==> is_hex(text@),
        bytes is Some ==> bytes.unwrap()@ == hex_bytes(text@),
{
    let n: usize = text.unicode_len();
    if n % 2 != 0 {
        return None;
    }
    let mut out: Vec<u8> = Vec::new();
    let mut i: usize = 0;
    while i < n / 2
        invariant
            n == text@.len(),
            n % 2 == 0,
            i <= n / 2,
            out@.len() == i,
            forall|k: int| 0 <= k < 2 * i ==> (#[trigger] hex_value(text@[k])) is Some,
            forall|k: int| 0 <= k < i ==> out@[k] == #[trigger] hex_bytes(text@)[k],
        decreases n / 2 - i,
    {
        let hi = digit_value(text.get_char(2 * i));
        let lo = digit_value(text.get_char(2 * i + 1));
        match (hi, lo) {
            (Some(h), Some(l)) => {
                out.push(16 * h + l);
            },
            _ => {
                proof {
                    assert(hex_value(text@[2 * i as int]) is None || hex_value(
                        text@[2 * i + 1],
                    ) is None);
                }
                return None;
            },
        }
        i += 1;
    }
    proof {
        assert(out@ =~= hex_bytes(text@));
    }
    Some(out)
}

impl ContentAddress {
    /// The address of `content`.
    pub fn of(content: &[u8]) -> (a: ContentAddress)
        ensures
            a@ == digest(content@),
    {
        ContentAddress { bytes: hash_content(content) }
    }

    /// The address whose bytes are `bytes`, which must be [`ADDRESS_LEN`] long.
    pub fn from_slice(bytes: &[u8]) -> (r: Result<ContentAddress, Error>)
        ensures
            bytes@.len() == 32 ==> r is Ok && r.unwrap()@ == bytes@,
            bytes@.len() != 32 ==> r == Err::<ContentAddress, Error>(Error::InvalidInput),
    {
        if bytes.len() != 32 {
            return Err(Error::InvalidInput);
        }
        let mut out = [0u8;32];
        let mut i: usize = 0;
        while i < 32
            invariant
                i <= 32,
                bytes@.len() == 32,
                forall|k: int| 0 <= k < i ==> out@[k] == bytes@[k],
            decreases 32 - i,
        {
            out[i] = bytes[i];
            i += 1;
        }
        proof {
            assert(out@ =~= bytes@);
        }
        Ok(ContentAddress { bytes: out })
    }

    /// The bytes of the address.
    pub fn to_vec(&self) -> (v: Vec<u8>)
        ensures
            v@ == self@,
    {
        let mut v: Vec<u8> = Vec::new();
        let mut i: usize = 0;
        while i < 32
            invariant
                i <= 32,
                v@ == self@.take(i as int),
            decreases 32 - i,
        {
            v.push(self.bytes[i]);
            proof {
                assert(self@.take(i + 1) =~= self@.take(i as int).push(self@[i as int]));
            }
            i += 1;
        }
        proof {
            assert(self@.take(32) =~= self@);
        }
        v
    }

    /// Whether two addresses are the same.
    pub fn same(&self, other: &ContentAddress) -> (b: bool)
        ensures
            b == (self@ == other@),
            b == (*self == *other),
    {
        let mut i: usize = 0;
        while i < 32
            invariant
                i <= 32,
                forall|k: int| 0 <= k < i ==> self@[k] == other@[k],
            decreases 32 - i,
        {
            if self.bytes[i] != other.bytes[i] {
                return false;
            }
            i += 1;
        }
        proof {
            assert(self@ =~= other@);
            assert(self.bytes == other.bytes);
        }
        true
    }

    /// Whether `content` is what this address identifies.
    pub fn verifies(&self, content: &[u8]) -> (b: bool)
        ensures
            b == (self@ == digest(content@)),
    {
        let actual = ContentAddress::of(content);
        self.same(&actual)
    }

    /// The address as 64 lower-case hexadecimal digits.
    pub fn to_hex(&self) -> (text: String)
        ensures
            text@ == hex_of(self@),
    {
        hex_encode(self.bytes.as_slice())
    }

    /// Reads an address from its hexadecimal text.
    ///
    /// Fails with [`Error::InvalidInput`] unless `text` is exactly 64
    /// hexadecimal digits.
    pub fn from_hex(text: &str) -> (r: Result<ContentAddress, Error>)
        ensures
            is_address_text(text@) ==> r is Ok && r.unwrap()@ == hex_bytes(text@),
            !is_address_text(text@) ==> r == Err::<ContentAddress, Error>(Error::InvalidInput),
    {
        match hex_decode(text) {
            Some(bytes) => ContentAddress::from_slice(bytes.as_slice()),
            None => Err(Error::InvalidInput),
        }
    }
}

/// Whether `text` spells an address: 64 hexadecimal digits.
pub open spec fn is_address_text(text: Seq<char>) -> bool {
    is_hex(text) && text.len() == 64
}

/// The content address of `bytes`.
pub fn address(bytes: &[u8]) -> (a: ContentAddress)
    ensures
        a@ == digest(bytes@),
{
    ContentAddress::of(bytes)
}

/// The textual form of an address.
pub fn addr_to_str(addr: ContentAddress) -> (text: String)
    ensures
        text@ == hex_of(addr@),
{
    addr.to_hex()
}

/// The address that `text` spells, or [`Error::InvalidInput`].
pub fn str_to_addr(text: &str) -> (r: Result<ContentAddress, Error>)
    ensures
        is_address_text(text@) ==> r is Ok && r.unwrap()@ == hex_bytes(text@),
        !is_address_text(text@) ==> r == Err::<ContentAddress, Error>(Error::InvalidInput),
{
    ContentAddress::from_hex(text)
}

/// The textual form of an address reads back as that address.
pub proof fn lemma_address_text_round_trip(addr: ContentAddress)
    ensures
        is_address_text(hex_of(addr@)),
        hex_bytes(hex_of(addr@)) == addr@,
{
    lemma_hex_round_trip(addr@);
}

} // verus!

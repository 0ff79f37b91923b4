//! Content digests. The SHA-1 computation itself comes from an outside crate
//! and is only named here; the hexadecimal rendering of the 20 digest bytes is
//! this crate's own, verified, code.

use vstd::prelude::*;

verus! {

/// The 20-byte SHA-1 digest of a byte sequence. The outside crate computes
/// it; this crate only names the result, which depends on the bytes alone.
pub uninterp spec fn sha1_of(bytes: Seq<u8>) -> Seq<u8>;

/// The digest in the form every caller uses: the 40 lowercase hexadecimal
/// characters of the 20 digest bytes.
pub open spec fn sha1_hex(bytes: Seq<u8>) -> Seq<char> {
    hex_of(sha1_of(bytes))
}

/// Relies on sha1::Sha1 (via the digest traits): `new` + `update` + `finalize`
/// computes the SHA-1 of the input, a function of the bytes alone, and the
/// output size of SHA-1 is 20 bytes.
#[verifier::external_body]
fn sha1_digest(bytes: &[u8]) -> (r: Vec<u8>)
    ensures
        r@ == sha1_of(bytes@),
        r@.len() == 20,
{
    let mut hasher = <sha1::Sha1 as sha1::Digest>::new();
    <sha1::Sha1 as sha1::Digest>::update(&mut hasher, bytes);
    <sha1::Sha1 as sha1::Digest>::finalize(hasher).to_vec()
}

/// The lowercase hexadecimal character for a value below 16.
pub open spec fn hex_digit_char(d: u8) -> char {
    match d {
        0 => '0',
        1 => '1',
        2 => '2',
        3 => '3',
        4 => '4',
        5 => '5',
        6 => '6',
        7 => '7',
        8 => '8',
        9 => '9',
        10 => 'a',
        11 => 'b',
        12 => 'c',
        13 => 'd',
        14 => 'e',
        _ => 'f',
    }
}

/// True of the characters that `hex_of` produces.
pub open spec fn is_hex_char(c: char) -> bool {
    ('0' <= c && c <= '9') || ('a' <= c && c <= 'f')
}

/// The lowercase hexadecimal rendering of a byte sequence: two characters per
/// byte, high nibble first.
pub open spec fn hex_of(b: Seq<u8>) -> Seq<char> {
    Seq::new(b.len() * 2, |i: int|
        if i % 2 == 0 {
            hex_digit_char((b[i / 2] / 16) as u8)
        } else {
            hex_digit_char((b[i / 2] % 16) as u8)
        })
}

/// Every character of a hexadecimal rendering is a lowercase hex digit, and
/// in particular an ASCII character.
pub proof fn lemma_hex_of_chars(b: Seq<u8>)
    ensures
        hex_of(b).len() == b.len() * 2,
        forall|i: int| 0 <= i < hex_of(b).len() ==> is_hex_char(#[trigger] hex_of(b)[i]),
        vstd::utf8::is_ascii_chars(hex_of(b)),
{
    assert forall|i: int| 0 <= i < hex_of(b).len() implies is_hex_char(#[trigger] hex_of(b)[i]) by {
        let d = if i % 2 == 0 { (b[i / 2] / 16) as u8 } else { (b[i / 2] % 16) as u8 };
        assert(d < 16);
    }
    assert forall|i: int| 0 <= i < hex_of(b).len() implies '\0' <= #[trigger] hex_of(b)[i]
        <= '\u{7f}' by {
        assert(is_hex_char(hex_of(b)[i]));
    }
}

/// A hex digit character is never a space or a line feed; so no character of
/// a digest collides with the separators of this crate's record formats.
pub proof fn lemma_hex_char_not_separator(c: char)
    requires
        is_hex_char(c),
    ensures
        c != ' ',
        c != '\n',
{
}

pub(crate) fn hex_digit_str(d: u8) -> (r: &'static str)
    requires
        d < 16,
    ensures
        r@ =~= seq![hex_digit_char(d)],
{
    proof {
        reveal_strlit("0");
        reveal_strlit("1");
        reveal_strlit("2");
        reveal_strlit("3");
        reveal_strlit("4");
        reveal_strlit("5");
        reveal_strlit("6");
        reveal_strlit("7");
        reveal_strlit("8");
        reveal_strlit("9");
        reveal_strlit("a");
        reveal_strlit("b");
        reveal_strlit("c");
        reveal_strlit("d");
        reveal_strlit("e");
        reveal_strlit("f");
    }
    match d {
        0 => "0",
        1 => "1",
        2 => "2",
        3 => "3",
        4 => "4",
        5 => "5",
        6 => "6",
        7 => "7",
        8 => "8",
        9 => "9",
        10 => "a",
        11 => "b",
        12 => "c",
        13 => "d",
        14 => "e",
        _ => "f",
    }
}

/// The lowercase hexadecimal rendering of a byte slice.
pub fn to_hex(bytes: &[u8]) -> (r: String)
    ensures
        r@ == hex_of(bytes@),
{
    let mut out = String::new();
    let mut i: usize = 0;
    while i < bytes.len()
        invariant
            i <= bytes@.len(),
            out@ == hex_of(bytes@).subrange(0, 2 * i as int),
        decreases bytes@.len() - i,
    {
        let b = bytes[i];
        out.append(hex_digit_str(b / 16));
        out.append(hex_digit_str(b % 16));
        proof {
            assert(out@ =~= hex_of(bytes@).subrange(0, 2 * (i + 1) as int));
        }
        i = i + 1;
    }
    proof {
        assert(out@ =~= hex_of(bytes@));
    }
    out
}

/// The content digest used for blobs, snapshots and commit records: the
/// 40-character hexadecimal form of the SHA-1 of the bytes. Deterministic,
/// and the same algorithm for every object kind.
pub fn digest_of(bytes: &[u8]) -> (r: String)
    ensures
        r@ == sha1_hex(bytes@),
        r@.len() == 40,
        forall|i: int| 0 <= i < r@.len() ==> is_hex_char(#[trigger] r@[i]),
{
    let raw = sha1_digest(bytes);
    proof {
        lemma_hex_of_chars(raw@);
    }
    to_hex(raw.as_slice())
}

} // verus!

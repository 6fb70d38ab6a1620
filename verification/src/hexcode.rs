use vstd::prelude::*;

verus! {

/// The lower-case hexadecimal digit of a value below 16.
pub open spec fn hex_digit(n: int) -> char {
    if n < 10 {
        (48 + n) as char
    } else {
        (87 + n) as char
    }
}

/// The lower-case hexadecimal text of some bytes: two digits per byte, high half first.
pub open spec fn hex_lower(bytes: Seq<u8>) -> Seq<char> {
    Seq::new(
        2 * bytes.len(),
        |i: int|
            if i % 2 == 0 {
                hex_digit(bytes[i / 2] as int / 16)
            } else {
                hex_digit(bytes[i / 2] as int % 16)
            },
    )
}

/// The value of one hexadecimal digit, in either case.
pub open spec fn hex_val(c: u8) -> Option<int> {
    if 65 <= c <= 70 {
        Some(c - 55)
    } else if 97 <= c <= 102 {
        Some(c - 87)
    } else if 48 <= c <= 57 {
        Some(c - 48)
    } else {
        None
    }
}

/// Text that `hex::decode` accepts: an even number of hexadecimal digits.
pub open spec fn hex_decodable(s: Seq<u8>) -> bool {
    s.len() % 2 == 0 && forall|i: int| 0 <= i < s.len() ==> (#[trigger] hex_val(s[i])) is Some
}

/// The bytes that a decodable hexadecimal text stands for.
pub open spec fn hex_bytes(s: Seq<u8>) -> Seq<u8> {
    Seq::new(
        s.len() / 2,
        |i: int| (hex_val(s[2 * i]).unwrap() * 16 + hex_val(s[2 * i + 1]).unwrap()) as u8,
    )
}

#[verifier::external_type_specification]
#[verifier::external_body]
pub struct ExFromHexError(hex::FromHexError);

/// `hex::encode`: the claim is that the text is the lower-case hexadecimal digits of the
/// bytes, two per byte, high half first.
#[verifier::external_body]
pub(crate) fn hex_encode(data: &[u8]) -> (s: String)
    ensures
        s@ == hex_lower(data@),
{
    hex::encode(data)
}

/// `hex::decode`: the claim is that it succeeds exactly on an even number of hexadecimal
/// digits of either case, and then gives one byte per pair of digits.
#[verifier::external_body]
pub(crate) fn hex_decode(data: &[u8]) -> (r: Result<Vec<u8>, hex::FromHexError>)
    ensures
        r is Ok <==> hex_decodable(data@),
        r matches Ok(v) ==> v@ == hex_bytes(data@),
{
    hex::decode(data)
}


/// Law: decoding the hexadecimal text of some bytes gives those bytes back.
pub proof fn law_hex_round_trip(b: Seq<u8>)
    ensures
        hex_decodable(vstd::utf8::encode_utf8(hex_lower(b))),
        hex_bytes(vstd::utf8::encode_utf8(hex_lower(b))) == b,
{
    let h = hex_lower(b);
    assert forall|i: int| 0 <= i < h.len() implies '\0' <= #[trigger] h[i] <= '\u{7f}' && (h[i] as u8) == (
    if i % 2 == 0 {
        hex_code(b[i / 2] as int / 16)
    } else {
        hex_code(b[i / 2] as int % 16)
    }) by {
        lemma_hex_digit(b[i / 2] as int / 16);
        lemma_hex_digit(b[i / 2] as int % 16);
    }
    vstd::utf8::is_ascii_chars_encode_utf8(h);
    let t = vstd::utf8::encode_utf8(h);
    assert(t.len() == 2 * b.len());
    assert forall|i: int| 0 <= i < t.len() implies (#[trigger] hex_val(t[i])) is Some by {
        assert(t[i] == h[i] as u8);
        lemma_hex_digit(b[i / 2] as int / 16);
        lemma_hex_digit(b[i / 2] as int % 16);
    }
    assert(t.len() % 2 == 0);
    assert forall|i: int| 0 <= i < b.len() implies #[trigger] hex_bytes(t)[i] == b[i] by {
        assert(t[2 * i] == h[2 * i] as u8);
        assert(t[2 * i + 1] == h[2 * i + 1] as u8);
        assert((2 * i) / 2 == i && (2 * i) % 2 == 0);
        assert((2 * i + 1) / 2 == i && (2 * i + 1) % 2 == 1);
        lemma_hex_digit(b[i] as int / 16);
        lemma_hex_digit(b[i] as int % 16);
    }
    assert(hex_bytes(t) =~= b);
}

/// The ASCII lower-case form of some text: `A`..`Z` become `a`..`z`.
pub open spec fn ascii_lower(s: Seq<u8>) -> Seq<u8> {
    Seq::new(s.len(), |i: int| if 65 <= s[i] <= 90 { (s[i] + 32) as u8 } else { s[i] })
}

proof fn lemma_hex_code_of_digit(c: u8)
    requires
        hex_val(c) is Some,
    ensures
        0 <= hex_val(c).unwrap() < 16,
        hex_code(hex_val(c).unwrap()) == (if 65 <= c <= 90 { (c + 32) as u8 } else { c }),
{
}

/// Law: decodable hexadecimal text, decoded and encoded again, gives its lower-case form.
pub proof fn law_hex_reencode(t: Seq<u8>)
    requires
        hex_decodable(t),
    ensures
        vstd::utf8::encode_utf8(hex_lower(hex_bytes(t))) == ascii_lower(t),
{
    let b = hex_bytes(t);
    let h = hex_lower(b);
    assert forall|k: int| 0 <= k < b.len() implies (#[trigger] b[k]) as int / 16 == hex_val(t[2 * k]).unwrap()
        && b[k] as int % 16 == hex_val(t[2 * k + 1]).unwrap() by {
        assert(hex_val(t[2 * k]) is Some);
        assert(hex_val(t[2 * k + 1]) is Some);
        let hi = hex_val(t[2 * k]).unwrap();
        let lo = hex_val(t[2 * k + 1]).unwrap();
        lemma_hex_code_of_digit(t[2 * k]);
        lemma_hex_code_of_digit(t[2 * k + 1]);
        assert(b[k] == (hi * 16 + lo) as u8);
        assert((hi * 16 + lo) / 16 == hi && (hi * 16 + lo) % 16 == lo) by (nonlinear_arith)
            requires
                0 <= hi < 16,
                0 <= lo < 16,
        ;
    }
    assert forall|i: int| 0 <= i < h.len() implies '\0' <= #[trigger] h[i] <= '\u{7f}' && (h[i] as u8)
        == ascii_lower(t)[i] by {
        let k = i / 2;
        assert(0 <= k < b.len());
        assert(b[k] == b[i / 2]);
        lemma_hex_digit(b[k] as int / 16);
        lemma_hex_digit(b[k] as int % 16);
        if i % 2 == 0 {
            assert(i == 2 * k);
            assert(hex_val(t[i]) is Some);
            lemma_hex_code_of_digit(t[i]);
        } else {
            assert(i == 2 * k + 1);
            assert(hex_val(t[i]) is Some);
            lemma_hex_code_of_digit(t[i]);
        }
    }
    vstd::utf8::is_ascii_chars_encode_utf8(h);
    let e = vstd::utf8::encode_utf8(h);
    assert forall|i: int| 0 <= i < e.len() implies e[i] == ascii_lower(t)[i] by {
        assert(e[i] == h[i] as u8);
    }
    assert(e =~= ascii_lower(t));
}

/// The byte of the digit for a value below 16.
pub open spec fn hex_code(n: int) -> u8 {
    if n < 10 {
        (48 + n) as u8
    } else {
        (87 + n) as u8
    }
}

proof fn lemma_hex_digit(n: int)
    requires
        0 <= n < 16,
    ensures
        '\0' <= hex_digit(n) <= '\u{7f}',
        hex_digit(n) as u8 == hex_code(n),
        hex_val(hex_code(n)) == Some(n),
{
}

} // verus!

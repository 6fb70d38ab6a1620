use vstd::prelude::*;
use vstd::utf8::{decode_utf8, encode_utf8, valid_utf8};

verus! {

/// The number of bytes of the UTF-8 text of `cs`.
pub open spec fn byte_len(cs: Seq<char>) -> nat {
    encode_utf8(cs).len()
}

/// Builds a `String` from characters, through `String`'s `FromIterator<char>`; the
/// contract claims that the string holds exactly these characters in this order.
#[verifier::external_body]
pub(crate) fn string_from_chars(chars: &Vec<char>) -> (s: String)
    ensures
        s@ == chars@,
{
    chars.iter().collect()
}

/// The characters of a string slice.
pub fn str_chars(s: &str) -> (r: Vec<char>)
    ensures
        r@ == s@,
{
    let mut r: Vec<char> = Vec::new();
    for ch in iter: s.chars()
        invariant
            iter.seq() == s@,
            r@ == s@.take(iter.index()),
    {
        r.push(ch);
        assert(r@ =~= s@.take(iter.index() + 1));
    }
    assert(s@.take(s@.len() as int) =~= s@);
    r
}

/// UTF-8 length of the concatenation is the sum of the lengths.
pub proof fn lemma_encode_utf8_concat(a: Seq<char>, b: Seq<char>)
    ensures
        encode_utf8(a + b) == encode_utf8(a) + encode_utf8(b),
    decreases a.len(),
{
    if a.len() > 0 {
        lemma_encode_utf8_concat(a.drop_first(), b);
        assert((a + b).drop_first() =~= a.drop_first() + b);
        assert(encode_utf8(a) + encode_utf8(b) =~= vstd::utf8::encode_scalar(a[0] as u32)
            + (encode_utf8(a.drop_first()) + encode_utf8(b)));
    } else {
        assert(a + b =~= b);
        assert(encode_utf8(a) + encode_utf8(b) =~= encode_utf8(b));
    }
}

/// The number of bytes of the UTF-8 encoding of one character.
pub fn char_utf8_len(c: char) -> (n: u128)
    ensures
        n == encode_utf8(seq![c]).len(),
        1 <= n <= 4,
{
    proof {
        vstd::utf8::char_is_scalar(c);
        assert(seq![c].drop_first() =~= Seq::<char>::empty());
        assert(encode_utf8(Seq::<char>::empty()) =~= Seq::<u8>::empty());
        assert(encode_utf8(seq![c]) =~= vstd::utf8::encode_scalar(c as u32));
    }
    let u = c as u32;
    if u <= 0x7F {
        1
    } else if u <= 0x7FF {
        2
    } else if u <= 0xFFFF {
        3
    } else {
        4
    }
}

/// The number of bytes of the UTF-8 text of some characters.
pub fn utf8_len(cs: &Vec<char>) -> (n: u128)
    ensures
        n == byte_len(cs@),
        n <= 4 * cs@.len(),
{
    let mut n: u128 = 0;
    let mut i: usize = 0;
    assert(cs@.take(0) =~= Seq::<char>::empty());
    while i < cs.len()
        invariant
            i <= cs@.len(),
            n == byte_len(cs@.take(i as int)),
            n <= 4 * i,
            cs@.len() == cs.len(),
        decreases cs.len() - i,
    {
        let w = char_utf8_len(cs[i]);
        proof {
            lemma_encode_utf8_concat(cs@.take(i as int), seq![cs@[i as int]]);
            assert(cs@.take(i + 1) =~= cs@.take(i as int) + seq![cs@[i as int]]);
        }
        n = n + w;
        i = i + 1;
    }
    assert(cs@.take(cs@.len() as int) =~= cs@);
    n
}



/// What `String::from_utf8_lossy` gives for some bytes.
pub uninterp spec fn utf8_lossy(bytes: Seq<u8>) -> Seq<char>;

/// `String::from_utf8_lossy`, made owned: the text of the bytes with U+FFFD in place of
/// each invalid sequence. The contract names the result and claims that bytes that are
/// valid UTF-8 are decoded as they stand.
#[verifier::external_body]
pub(crate) fn from_utf8_lossy(bytes: &[u8]) -> (s: String)
    ensures
        s@ == utf8_lossy(bytes@),
        valid_utf8(bytes@) ==> s@ == decode_utf8(bytes@),
{
    String::from_utf8_lossy(bytes).into_owned()
}

/// `std::str::from_utf8`, made owned: the text of the bytes exactly when they are valid
/// UTF-8.
#[verifier::external_body]
pub(crate) fn utf8_to_string(bytes: &[u8]) -> (r: Option<String>)
    ensures
        r is Some <==> valid_utf8(bytes@),
        r matches Some(s) ==> s@ == decode_utf8(bytes@),
{
    match std::str::from_utf8(bytes) {
        Ok(s) => Some(s.to_owned()),
        Err(_) => None,
    }
}

/// Characters with the Unicode `White_Space` property, which `char::is_whitespace` tests.
pub open spec fn is_white_space(c: char) -> bool {
    let u = c as u32;
    (9 <= u <= 13) || u == 32 || u == 0x85 || u == 0xA0 || u == 0x1680 || (0x2000 <= u
        <= 0x200A) || u == 0x2028 || u == 0x2029 || u == 0x202F || u == 0x205F || u == 0x3000
}

/// The characters removed by a trim: NUL when `ws` is false, white space when it is true.
pub open spec fn trimmed_char(c: char, ws: bool) -> bool {
    if ws {
        is_white_space(c)
    } else {
        c as u32 == 0
    }
}

pub open spec fn drop_front(cs: Seq<char>, ws: bool) -> Seq<char>
    decreases cs.len(),
{
    if cs.len() > 0 && trimmed_char(cs[0], ws) {
        drop_front(cs.drop_first(), ws)
    } else {
        cs
    }
}

pub open spec fn drop_back(cs: Seq<char>, ws: bool) -> Seq<char>
    decreases cs.len(),
{
    if cs.len() > 0 && trimmed_char(cs.last(), ws) {
        drop_back(cs.drop_last(), ws)
    } else {
        cs
    }
}

/// What `trim_matches('\0')` and then `trim()` leave of a text.
pub open spec fn trim_nul_then_space(cs: Seq<char>) -> Seq<char> {
    drop_back(drop_front(drop_back(drop_front(cs, false), false), true), true)
}

fn char_is_trimmed(c: char, ws: bool) -> (r: bool)
    ensures
        r == trimmed_char(c, ws),
{
    let u = c as u32;
    if ws {
        (9 <= u && u <= 13) || u == 32 || u == 0x85 || u == 0xA0 || u == 0x1680 || (0x2000 <= u
            && u <= 0x200A) || u == 0x2028 || u == 0x2029 || u == 0x202F || u == 0x205F || u
            == 0x3000
    } else {
        u == 0
    }
}

/// Removes the characters of one kind from both ends.
fn trim_kind(cs: Vec<char>, ws: bool) -> (r: Vec<char>)
    ensures
        r@ == drop_back(drop_front(cs@, ws), ws),
{
    let n = cs.len();
    let mut s: usize = 0;
    assert(cs@.subrange(0, n as int) =~= cs@);
    while s < n && char_is_trimmed(cs[s], ws)
        invariant
            n == cs@.len(),
            s <= n,
            drop_front(cs@, ws) == drop_front(cs@.subrange(s as int, n as int), ws),
        decreases n - s,
    {
        assert(cs@.subrange(s as int, n as int).drop_first() =~= cs@.subrange(s + 1, n as int));
        s = s + 1;
    }
    let mut e: usize = n;
    while e > s && char_is_trimmed(cs[e - 1], ws)
        invariant
            n == cs@.len(),
            s <= e <= n,
            drop_front(cs@, ws) == cs@.subrange(s as int, n as int),
            drop_back(cs@.subrange(s as int, n as int), ws) == drop_back(
                cs@.subrange(s as int, e as int),
                ws,
            ),
        decreases e - s,
    {
        assert(cs@.subrange(s as int, e as int).drop_last() =~= cs@.subrange(s as int, e - 1));
        e = e - 1;
    }
    let mut r: Vec<char> = Vec::new();
    let mut i = s;
    while i < e
        invariant
            n == cs@.len(),
            s <= i <= e <= n,
            r@ == cs@.subrange(s as int, i as int),
        decreases e - i,
    {
        r.push(cs[i]);
        assert(r@ =~= cs@.subrange(s as int, i + 1));
        i = i + 1;
    }
    r
}

/// Removes NULs from both ends, then white space from both ends.
pub fn trim_nul_and_space(cs: Vec<char>) -> (r: Vec<char>)
    ensures
        r@ == trim_nul_then_space(cs@),
{
    let a = trim_kind(cs, false);
    trim_kind(a, true)
}

/// The number of leading characters, from `k` on, whose UTF-8 text fits in `max` bytes.
pub open spec fn fit_len(cs: Seq<char>, max: int, k: int) -> int
    decreases cs.len() - k,
{
    if 0 <= k < cs.len() && byte_len(cs.take(k + 1)) <= max {
        fit_len(cs, max, k + 1)
    } else {
        k
    }
}

/// The longest prefix of a text whose UTF-8 encoding fits in `max` bytes.
pub open spec fn truncate_text(cs: Seq<char>, max: int) -> Seq<char> {
    cs.take(fit_len(cs, max, 0))
}

/// Cuts a text to at most `max_len` bytes of UTF-8, at a character boundary.
pub fn truncate_chars(cs: &Vec<char>, max_len: usize) -> (r: Vec<char>)
    ensures
        r@ == truncate_text(cs@, max_len as int),
{
    let mut k: usize = 0;
    let mut used: u128 = 0;
    let mut r: Vec<char> = Vec::new();
    assert(cs@.take(0) =~= Seq::<char>::empty());
    loop
        invariant
            k <= cs@.len(),
            used == byte_len(cs@.take(k as int)),
            used <= max_len,
            r@ == cs@.take(k as int),
            fit_len(cs@, max_len as int, 0) == fit_len(cs@, max_len as int, k as int),
        decreases cs@.len() - k,
    {
        if k >= cs.len() {
            return r;
        }
        let w = char_utf8_len(cs[k]);
        proof {
            lemma_encode_utf8_concat(cs@.take(k as int), seq![cs@[k as int]]);
            assert(cs@.take(k + 1) =~= cs@.take(k as int) + seq![cs@[k as int]]);
        }
        if used + w > max_len as u128 {
            return r;
        }
        r.push(cs[k]);
        used = used + w;
        k = k + 1;
        assert(r@ =~= cs@.take(k as int));
    }
}


/// Law: cutting a text to `max` bytes leaves a prefix of it whose UTF-8 text has at most
/// `max` bytes.
pub proof fn law_truncate_fits(cs: Seq<char>, max: int)
    requires
        max >= 0,
    ensures
        truncate_text(cs, max).len() <= cs.len(),
        cs.take(truncate_text(cs, max).len() as int) == truncate_text(cs, max),
        byte_len(truncate_text(cs, max)) <= max,
{
    lemma_fit_len(cs, max, 0);
    assert(cs.take(0) =~= Seq::<char>::empty());
}

proof fn lemma_fit_len(cs: Seq<char>, max: int, k: int)
    requires
        0 <= k <= cs.len(),
        byte_len(cs.take(k)) <= max,
    ensures
        k <= fit_len(cs, max, k) <= cs.len(),
        byte_len(cs.take(fit_len(cs, max, k))) <= max,
    decreases cs.len() - k,
{
    if 0 <= k < cs.len() && byte_len(cs.take(k + 1)) <= max {
        lemma_fit_len(cs, max, k + 1);
    }
}

} // verus!

use vstd::prelude::*;

use super::Value;

verus! {

/// The mathematical model of a bencode value: byte strings are sequences, lists are
/// sequences of models, and dictionaries are sequences of (key, value) entries.
pub enum Val {
    Int(i64),
    Bytes(Seq<u8>),
    List(Seq<Val>),
    Dict(Seq<(Seq<u8>, Val)>),
}

/// Errors reported by the bencode parser.
#[derive(Debug, Clone, Copy, PartialEq, Eq, Structural)]
pub enum BencodeError {
    /// A value was expected but the input ended.
    UnexpectedEnd,
    /// A value starts with a byte that opens no bencode value.
    InvalidByte(u8),
    /// An integer has no closing `e`.
    UnterminatedInt,
    /// The text between `i` and `e` is not a decimal `i64`.
    InvalidInt,
    /// A byte string length has no closing `:`.
    UnterminatedLength,
    /// The text before `:` is not a decimal `usize`.
    InvalidLength,
    /// The end of a byte string does not fit in a `usize`.
    LengthOverflow,
    /// A byte string runs past the end of the input.
    StringExceedsInput,
    /// A list has no closing `e`.
    UnterminatedList,
    /// A dictionary has no closing `e`.
    UnterminatedDict,
    /// Bytes follow the first complete value.
    TrailingBytes,
}

pub open spec fn value_view(v: Value) -> Val
    decreases v,
{
    match v {
        Value::Int(i) => Val::Int(i),
        Value::Bytes(b) => Val::Bytes(b@),
        Value::List(items) => {
            proof {
                assert(decreases_to!(items => items@));
            }
            Val::List(list_view(items@))
        },
        Value::Dict(d) => Val::Dict(d.model()),
    }
}

pub open spec fn list_view(s: Seq<Value>) -> Seq<Val>
    decreases s,
{
    if s.len() == 0 {
        Seq::empty()
    } else {
        proof {
            assert(decreases_to!(s => s.subrange(0, s.len() - 1)));
        }
        list_view(s.subrange(0, s.len() - 1)).push(value_view(s[s.len() - 1]))
    }
}

pub open spec fn dict_view(s: Seq<(Vec<u8>, Value)>) -> Seq<(Seq<u8>, Val)>
    decreases s,
{
    if s.len() == 0 {
        Seq::empty()
    } else {
        proof {
            assert(decreases_to!(s => s.subrange(0, s.len() - 1)));
            assert(decreases_to!(s => s[s.len() - 1]));
        }
        dict_view(s.subrange(0, s.len() - 1)).push(
            (s[s.len() - 1].0@, value_view(s[s.len() - 1].1)),
        )
    }
}

impl View for Value {
    type V = Val;

    open spec fn view(&self) -> Val {
        value_view(*self)
    }
}

// ---------------------------------------------------------------- byte order

/// Lexicographic order on byte strings (the order of `Vec<u8>` in std): a proper
/// prefix comes first, otherwise the first differing byte decides.
pub open spec fn lex_lt(a: Seq<u8>, b: Seq<u8>) -> bool
    decreases a.len(),
{
    if a.len() == 0 {
        b.len() > 0
    } else if b.len() == 0 {
        false
    } else if a[0] != b[0] {
        a[0] < b[0]
    } else {
        lex_lt(a.drop_first(), b.drop_first())
    }
}

/// The keys of a dictionary are strictly increasing, so no key occurs twice.
pub open spec fn keys_sorted(d: Seq<(Seq<u8>, Val)>) -> bool {
    forall|i: int, j: int| 0 <= i < j < d.len() ==> lex_lt(#[trigger] d[i].0, #[trigger] d[j].0)
}

/// Well-formed values: every dictionary, at every depth, has strictly increasing keys.
pub open spec fn wf(v: Val) -> bool
    decreases v,
{
    match v {
        Val::Int(_) => true,
        Val::Bytes(_) => true,
        Val::List(items) => wf_list(items),
        Val::Dict(entries) => keys_sorted(entries) && wf_dict(entries),
    }
}

pub open spec fn wf_list(s: Seq<Val>) -> bool
    decreases s,
{
    if s.len() == 0 {
        true
    } else {
        proof {
            assert(decreases_to!(s => s.subrange(0, s.len() - 1)));
        }
        wf_list(s.subrange(0, s.len() - 1)) && wf(s[s.len() - 1])
    }
}

pub open spec fn wf_dict(s: Seq<(Seq<u8>, Val)>) -> bool
    decreases s,
{
    if s.len() == 0 {
        true
    } else {
        proof {
            assert(decreases_to!(s => s.subrange(0, s.len() - 1)));
            assert(decreases_to!(s => s[s.len() - 1]));
        }
        wf_dict(s.subrange(0, s.len() - 1)) && wf(s[s.len() - 1].1)
    }
}

/// Every byte string in the value, at every depth, has at most `n` bytes.
pub open spec fn bytes_within(v: Val, n: nat) -> bool
    decreases v,
{
    match v {
        Val::Int(_) => true,
        Val::Bytes(b) => b.len() <= n,
        Val::List(items) => list_within(items, n),
        Val::Dict(entries) => dict_within(entries, n),
    }
}

pub open spec fn list_within(s: Seq<Val>, n: nat) -> bool
    decreases s,
{
    if s.len() == 0 {
        true
    } else {
        proof {
            assert(decreases_to!(s => s.subrange(0, s.len() - 1)));
        }
        list_within(s.subrange(0, s.len() - 1), n) && bytes_within(s[s.len() - 1], n)
    }
}

pub open spec fn dict_within(s: Seq<(Seq<u8>, Val)>, n: nat) -> bool
    decreases s,
{
    if s.len() == 0 {
        true
    } else {
        proof {
            assert(decreases_to!(s => s.subrange(0, s.len() - 1)));
            assert(decreases_to!(s => s[s.len() - 1]));
        }
        dict_within(s.subrange(0, s.len() - 1), n) && bytes_within(s[s.len() - 1].1, n)
    }
}

// ---------------------------------------------------------------- dictionaries

/// Index of the first entry whose key is not below `k`, searching from `i`.
pub open spec fn lower_bound(d: Seq<(Seq<u8>, Val)>, k: Seq<u8>, i: int) -> int
    decreases d.len() - i,
{
    if i < 0 || i >= d.len() || !lex_lt(d[i].0, k) {
        i
    } else {
        lower_bound(d, k, i + 1)
    }
}

/// Inserting into a dictionary: the entry for `k` is replaced if present, otherwise
/// a new entry goes before the first larger key.
pub open spec fn dict_insert(d: Seq<(Seq<u8>, Val)>, k: Seq<u8>, v: Val) -> Seq<(Seq<u8>, Val)> {
    let i = lower_bound(d, k, 0);
    if i < d.len() && d[i].0 == k {
        d.update(i, (k, v))
    } else {
        d.insert(i, (k, v))
    }
}

/// Looking a key up: the value of the first entry with that key.
pub open spec fn dict_lookup(d: Seq<(Seq<u8>, Val)>, k: Seq<u8>) -> Option<Val>
    decreases d.len(),
{
    if d.len() == 0 {
        None
    } else if d[0].0 == k {
        Some(d[0].1)
    } else {
        dict_lookup(d.drop_first(), k)
    }
}

// ---------------------------------------------------------------- decimal text

pub open spec fn is_digit(b: u8) -> bool {
    48 <= b <= 57
}

pub open spec fn all_digits(s: Seq<u8>) -> bool {
    forall|i: int| 0 <= i < s.len() ==> is_digit(#[trigger] s[i])
}

/// The number that a string of decimal digits denotes.
pub open spec fn digits_value(s: Seq<u8>) -> nat
    decreases s.len(),
{
    if s.len() == 0 {
        0
    } else {
        digits_value(s.drop_last()) * 10 + (s.last() - 48) as nat
    }
}

/// The shortest decimal text of a natural number.
pub open spec fn decimal(n: nat) -> Seq<u8>
    decreases n,
{
    if n < 10 {
        seq![(48 + n) as u8]
    } else {
        decimal(n / 10) + seq![(48 + n % 10) as u8]
    }
}

/// The decimal text of an integer, with `-` before negative numbers.
pub open spec fn decimal_int(i: int) -> Seq<u8> {
    if i < 0 {
        seq![45u8] + decimal((-i) as nat)
    } else {
        decimal(i as nat)
    }
}

/// What `str::parse::<i64>` gives for the text `raw`: an optional `+` or `-`, then
/// one or more decimal digits, whose value fits in an `i64`.
pub open spec fn parse_i64_text(raw: Seq<u8>) -> Option<i64> {
    if raw.len() == 0 {
        None
    } else {
        let neg = raw[0] == 45u8;
        let digits = if raw[0] == 43u8 || raw[0] == 45u8 { raw.drop_first() } else { raw };
        if digits.len() == 0 || !all_digits(digits) {
            None
        } else if neg {
            if digits_value(digits) <= 0x8000_0000_0000_0000 {
                Some((-digits_value(digits)) as i64)
            } else {
                None
            }
        } else if digits_value(digits) <= i64::MAX {
            Some(digits_value(digits) as i64)
        } else {
            None
        }
    }
}

/// What `str::parse` gives for an unsigned type whose largest value is `max`: an
/// optional `+`, then one or more decimal digits, whose value is at most `max`.
pub open spec fn parse_unsigned_text(raw: Seq<u8>, max: nat) -> Option<nat> {
    if raw.len() == 0 {
        None
    } else {
        let digits = if raw[0] == 43u8 { raw.drop_first() } else { raw };
        if digits.len() == 0 || !all_digits(digits) {
            None
        } else if digits_value(digits) <= max {
            Some(digits_value(digits))
        } else {
            None
        }
    }
}

/// What `str::parse::<usize>` gives for the text `raw`.
pub open spec fn parse_usize_text(raw: Seq<u8>) -> Option<usize> {
    match parse_unsigned_text(raw, usize::MAX as nat) {
        Some(n) => Some(n as usize),
        None => None,
    }
}

// ---------------------------------------------------------------- encoding

/// The bencode text of a value.
pub open spec fn enc(v: Val) -> Seq<u8>
    decreases v,
{
    match v {
        Val::Int(i) => seq![105u8] + decimal_int(i as int) + seq![101u8],
        Val::Bytes(b) => enc_bytes(b),
        Val::List(items) => seq![108u8] + enc_list(items) + seq![101u8],
        Val::Dict(entries) => seq![100u8] + enc_dict(entries) + seq![101u8],
    }
}

pub open spec fn enc_bytes(b: Seq<u8>) -> Seq<u8> {
    decimal(b.len()) + seq![58u8] + b
}

pub open spec fn enc_list(s: Seq<Val>) -> Seq<u8>
    decreases s,
{
    if s.len() == 0 {
        Seq::empty()
    } else {
        proof {
            assert(decreases_to!(s => s.subrange(0, s.len() - 1)));
        }
        enc_list(s.subrange(0, s.len() - 1)) + enc(s[s.len() - 1])
    }
}

pub open spec fn enc_dict(s: Seq<(Seq<u8>, Val)>) -> Seq<u8>
    decreases s,
{
    if s.len() == 0 {
        Seq::empty()
    } else {
        proof {
            assert(decreases_to!(s => s.subrange(0, s.len() - 1)));
            assert(decreases_to!(s => s[s.len() - 1]));
        }
        enc_dict(s.subrange(0, s.len() - 1)) + enc_bytes(s[s.len() - 1].0) + enc(
            s[s.len() - 1].1,
        )
    }
}

// ---------------------------------------------------------------- parsing

/// The first index at or after `p` that holds `b`, or `s.len()` if there is none.
pub open spec fn find_byte(s: Seq<u8>, p: int, b: u8) -> int
    decreases s.len() - p,
{
    if p < 0 {
        s.len() as int
    } else if p >= s.len() {
        s.len() as int
    } else if s[p] == b {
        p
    } else {
        find_byte(s, p + 1, b)
    }
}

/// The outcome of reading one value at a position: the value and the position after it.
pub type Step = Result<(Val, int), BencodeError>;

/// An integer whose `i` stands at `p`.
pub open spec fn int_at(s: Seq<u8>, p: int) -> Step {
    let e = find_byte(s, p + 1, 101u8);
    if e >= s.len() {
        Err(BencodeError::UnterminatedInt)
    } else {
        match parse_i64_text(s.subrange(p + 1, e)) {
            Some(i) => Ok((Val::Int(i), e + 1)),
            None => Err(BencodeError::InvalidInt),
        }
    }
}

/// A byte string whose length text starts at `p`.
pub open spec fn bytes_at(s: Seq<u8>, p: int) -> Result<(Seq<u8>, int), BencodeError> {
    let c = find_byte(s, p, 58u8);
    if c >= s.len() {
        Err(BencodeError::UnterminatedLength)
    } else {
        match parse_usize_text(s.subrange(p, c)) {
            None => Err(BencodeError::InvalidLength),
            Some(n) => {
                let end = c + 1 + n;
                if end > usize::MAX {
                    Err(BencodeError::LengthOverflow)
                } else if end > s.len() {
                    Err(BencodeError::StringExceedsInput)
                } else {
                    Ok((s.subrange(c + 1, end), end))
                }
            },
        }
    }
}

/// The value that starts at `p`.
pub open spec fn value_at(s: Seq<u8>, p: int) -> Step
    decreases s.len() - p, 0int,
{
    if p < 0 || p >= s.len() {
        Err(BencodeError::UnexpectedEnd)
    } else if s[p] == 105u8 {
        int_at(s, p)
    } else if s[p] == 108u8 {
        list_from(s, p + 1, Seq::empty())
    } else if s[p] == 100u8 {
        dict_from(s, p + 1, Seq::empty())
    } else if is_digit(s[p]) {
        match bytes_at(s, p) {
            Ok((b, q)) => Ok((Val::Bytes(b), q)),
            Err(e) => Err(e),
        }
    } else {
        Err(BencodeError::InvalidByte(s[p]))
    }
}

/// The rest of a list from `p`, after the items `acc` were read.
pub open spec fn list_from(s: Seq<u8>, p: int, acc: Seq<Val>) -> Step
    decreases s.len() - p, 1int,
{
    if p < 0 || p > s.len() {
        Err(BencodeError::UnexpectedEnd)
    } else if p < s.len() && s[p] == 101u8 {
        Ok((Val::List(acc), p + 1))
    } else {
        match value_at(s, p) {
            Err(e) => Err(e),
            Ok((v, q)) => if q >= s.len() || q <= p {
                Err(BencodeError::UnterminatedList)
            } else {
                list_from(s, q, acc.push(v))
            },
        }
    }
}

/// The rest of a dictionary from `p`, after the entries `acc` were read.
pub open spec fn dict_from(s: Seq<u8>, p: int, acc: Seq<(Seq<u8>, Val)>) -> Step
    decreases s.len() - p, 1int,
{
    if p < 0 || p > s.len() {
        Err(BencodeError::UnexpectedEnd)
    } else if p < s.len() && s[p] == 101u8 {
        Ok((Val::Dict(acc), p + 1))
    } else {
        match bytes_at(s, p) {
            Err(e) => Err(e),
            Ok((k, q)) => if q <= p || q > s.len() {
                Err(BencodeError::UnexpectedEnd)
            } else {
                match value_at(s, q) {
                    Err(e) => Err(e),
                    Ok((v, r)) => if r >= s.len() || r <= q {
                        Err(BencodeError::UnterminatedDict)
                    } else {
                        dict_from(s, r, dict_insert(acc, k, v))
                    },
                }
            },
        }
    }
}

/// What `parse_prefix` gives: the first value and the number of bytes it took.
pub open spec fn spec_parse_prefix(s: Seq<u8>) -> Step {
    value_at(s, 0)
}

/// What `parse` gives: the value, if it takes the whole input.
pub open spec fn spec_parse(s: Seq<u8>) -> Result<Val, BencodeError> {
    match value_at(s, 0) {
        Err(e) => Err(e),
        Ok((v, q)) => if q == s.len() {
            Ok(v)
        } else {
            Err(BencodeError::TrailingBytes)
        },
    }
}

} // verus!

use vstd::prelude::*;

pub mod laws;
pub mod lemmas;
pub mod model;

pub use model::{BencodeError, Val};

use lemmas::{
    lemma_dict_insert_sorted, lemma_bytes_at_progress, lemma_dict_view, lemma_dict_view_step, lemma_enc_dict_push,
    lemma_enc_list_push, lemma_list_view_step, lemma_digits_value_prefix, lemma_find_byte,
    lemma_lex_lt_skip, lemma_list_view, lemma_value_at_progress,
};
use model::{
    keys_sorted, wf, wf_dict, wf_list, decimal, decimal_int, enc, enc_bytes, enc_dict, enc_list, all_digits, bytes_at, dict_from, dict_insert, dict_view, digits_value, find_byte, int_at,
    lex_lt, list_from, list_view, lower_bound, parse_i64_text, parse_unsigned_text, parse_usize_text, value_at,
};

verus! {

/// A decoded bencode value.
#[derive(Debug, PartialEq, Eq)]
pub enum Value {
    Int(i64),
    Bytes(Vec<u8>),
    List(Vec<Value>),
    Dict(Dict),
}

/// A bencode dictionary. Its entries stand in strictly increasing key order, so no key
/// occurs twice, as in a map ordered by key.
#[derive(Debug, PartialEq, Eq)]
pub struct Dict {
    entries: Vec<(Vec<u8>, Value)>,
}

impl Dict {
    /// The model of the dictionary: its entries, in key order.
    pub closed spec fn model(self) -> Seq<(Seq<u8>, Val)>
        decreases self,
    {
        proof {
            assert(decreases_to!(self => self.entries));
            assert(decreases_to!(self.entries => self.entries@));
        }
        dict_view(self.entries@)
    }

    #[verifier::type_invariant]
    spec fn keys_in_order(self) -> bool {
        keys_sorted(dict_view(self.entries@))
    }

    /// An empty dictionary.
    pub fn new() -> (r: Dict)
        ensures
            r@ == Seq::<(Seq<u8>, Val)>::empty(),
    {
        let r = Dict { entries: Vec::new() };
        assert(dict_view(r.entries@) =~= Seq::<(Seq<u8>, Val)>::empty());
        r
    }

    /// A dictionary of entries whose keys already stand in increasing order.
    pub(crate) fn from_sorted(entries: Vec<(Vec<u8>, Value)>) -> (r: Dict)
        requires
            keys_sorted(dict_view(entries@)),
        ensures
            r@ == dict_view(entries@),
    {
        Dict { entries }
    }

    /// Inserts an entry: the value of an equal key is replaced, otherwise the entry goes
    /// to its place in key order.
    pub fn insert(&mut self, key: Vec<u8>, value: Value)
        ensures
            final(self)@ == dict_insert(old(self)@, key@, value@),
    {
        proof {
            use_type_invariant(&*self);
        }
        let ghost kv = key@;
        let ghost vv = value@;
        let mut entries: Vec<(Vec<u8>, Value)> = Vec::new();
        std::mem::swap(&mut entries, &mut self.entries);
        let ghost before = dict_view(entries@);
        dict_insert_entry(&mut entries, key, value);
        proof {
            lemma_dict_insert_sorted(before, kv, vv);
        }
        self.entries = entries;
    }

    /// The entries, in increasing key order.
    pub fn entries(&self) -> (r: &Vec<(Vec<u8>, Value)>)
        ensures
            dict_view(r@) == self@,
            keys_sorted(self@),
    {
        proof {
            use_type_invariant(self);
        }
        &self.entries
    }
}

impl View for Dict {
    type V = Seq<(Seq<u8>, Val)>;

    open spec fn view(&self) -> Seq<(Seq<u8>, Val)> {
        self.model()
    }
}

/// `r` is the executable outcome that the step `st` describes, ending at `pos`.
pub open spec fn step_matches(st: model::Step, r: Result<Value, BencodeError>, pos: int) -> bool {
    match st {
        Ok((v, q)) => r matches Ok(x) && x@ == v && pos == q,
        Err(e) => r == Err::<Value, BencodeError>(e),
    }
}

/// Lexicographic comparison of byte strings.
pub(crate) fn bytes_lt(a: &[u8], b: &[u8]) -> (r: bool)
    ensures
        r == lex_lt(a@, b@),
{
    let mut i: usize = 0;
    assert(a@.skip(0) =~= a@);
    assert(b@.skip(0) =~= b@);
    loop
        invariant
            i <= a.len(),
            i <= b.len(),
            lex_lt(a@, b@) == lex_lt(a@.skip(i as int), b@.skip(i as int)),
        decreases a.len() - i,
    {
        if i == a.len() {
            return i < b.len();
        }
        if i == b.len() {
            return false;
        }
        if a[i] != b[i] {
            return a[i] < b[i];
        }
        proof {
            lemma_lex_lt_skip(a@, b@, i as int);
        }
        i = i + 1;
    }
}

/// Equality of byte strings.
pub(crate) fn bytes_eq(a: &[u8], b: &[u8]) -> (r: bool)
    ensures
        r == (a@ == b@),
{
    if a.len() != b.len() {
        return false;
    }
    let mut i: usize = 0;
    while i < a.len()
        invariant
            a.len() == b.len(),
            i <= a.len(),
            forall|j: int| 0 <= j < i ==> a@[j] == b@[j],
        decreases a.len() - i,
    {
        if a[i] != b[i] {
            return false;
        }
        i = i + 1;
    }
    assert(a@ =~= b@);
    true
}

/// Inserts an entry, replacing the value of an equal key, keeping the order of keys.
pub(crate) fn dict_insert_entry(dict: &mut Vec<(Vec<u8>, Value)>, key: Vec<u8>, value: Value)
    ensures
        dict_view(final(dict)@) == dict_insert(dict_view(old(dict)@), key@, value@),
{
    let ghost d = dict_view(dict@);
    proof {
        lemma_dict_view(dict@);
    }
    let mut i: usize = 0;
    while i < dict.len() && bytes_lt(dict[i].0.as_slice(), key.as_slice())
        invariant
            i <= dict.len(),
            d == dict_view(dict@),
            d.len() == dict@.len(),
            forall|j: int| 0 <= j < d.len() ==> #[trigger] d[j] == (dict@[j].0@, dict@[j].1@),
            lower_bound(d, key@, 0) == lower_bound(d, key@, i as int),
        decreases dict.len() - i,
    {
        i = i + 1;
    }
    if i < dict.len() && bytes_eq(dict[i].0.as_slice(), key.as_slice()) {
        let ghost kv = key@;
        let ghost vv = value@;
        dict.set(i, (key, value));
        proof {
            lemma_dict_view(dict@);
            assert(dict_view(dict@) =~= d.update(i as int, (kv, vv)));
        }
    } else {
        let ghost kv = key@;
        let ghost vv = value@;
        dict.insert(i, (key, value));
        proof {
            lemma_dict_view(dict@);
            assert(dict_view(dict@) =~= d.insert(i as int, (kv, vv)));
        }
    }
}

/// Reads the decimal text `s[start..end]` as `str::parse::<i64>` does.
#[verifier::loop_isolation(false)]
fn parse_i64_slice(s: &[u8], start: usize, end: usize) -> (r: Option<i64>)
    requires
        start <= end <= s.len(),
    ensures
        r == parse_i64_text(s@.subrange(start as int, end as int)),
{
    let ghost raw = s@.subrange(start as int, end as int);
    if start == end {
        return None;
    }
    let first = s[start];
    assert(raw[0] == first);
    let neg = first == 45u8;
    let ds: usize = if first == 43u8 || first == 45u8 {
        start + 1
    } else {
        start
    };
    let ghost digits = s@.subrange(ds as int, end as int);
    assert(digits =~= (if first == 43u8 || first == 45u8 { raw.drop_first() } else { raw }));
    if ds == end {
        return None;
    }
    let limit: u128 = if neg {
        0x8000_0000_0000_0000u128
    } else {
        0x7fff_ffff_ffff_ffffu128
    };
    let mut mag: u128 = 0;
    let mut i: usize = ds;
    assert(s@.subrange(ds as int, ds as int) =~= Seq::<u8>::empty());
    while i < end
        invariant
            ds <= i <= end <= s.len(),
            digits == s@.subrange(ds as int, end as int),
            mag == digits_value(s@.subrange(ds as int, i as int)),
            mag <= limit,
            limit <= 0x8000_0000_0000_0000u128,
            all_digits(s@.subrange(ds as int, i as int)),
        decreases end - i,
    {
        let b = s[i];
        if b < 48u8 || b > 57u8 {
            assert(digits[i - ds] == b);
            assert(!all_digits(digits));
            return None;
        }
        assert(s@.subrange(ds as int, i + 1).drop_last() =~= s@.subrange(ds as int, i as int));
        mag = mag * 10 + (b - 48u8) as u128;
        assert(all_digits(s@.subrange(ds as int, i + 1)));
        if mag > limit {
            proof {
                if all_digits(digits) {
                    assert(digits.subrange(0, i + 1 - ds) =~= s@.subrange(ds as int, i + 1));
                    lemma_digits_value_prefix(digits, i + 1 - ds);
                    assert(digits_value(digits) > limit);
                }
            }
            return None;
        }
        i = i + 1;
    }
    assert(s@.subrange(ds as int, i as int) =~= digits);
    if neg {
        if mag == limit {
            Some(i64::MIN)
        } else {
            Some(-(mag as i64))
        }
    } else {
        Some(mag as i64)
    }
}

/// Reads the decimal text `s[start..end]` as `str::parse` does for an unsigned type
/// whose largest value is `max`.
#[verifier::loop_isolation(false)]
pub(crate) fn parse_unsigned_slice(s: &[u8], start: usize, end: usize, max: u128) -> (r: Option<
    u128,
>)
    requires
        start <= end <= s.len(),
        max <= u64::MAX,
    ensures
        match parse_unsigned_text(s@.subrange(start as int, end as int), max as nat) {
            Some(n) => r == Some(n as u128),
            None => r is None,
        },
{
    let ghost raw = s@.subrange(start as int, end as int);
    if start == end {
        return None;
    }
    let first = s[start];
    assert(raw[0] == first);
    let ds: usize = if first == 43u8 {
        start + 1
    } else {
        start
    };
    let ghost digits = s@.subrange(ds as int, end as int);
    assert(digits =~= (if first == 43u8 { raw.drop_first() } else { raw }));
    if ds == end {
        return None;
    }
    let mut mag: u128 = 0;
    let mut i: usize = ds;
    assert(s@.subrange(ds as int, ds as int) =~= Seq::<u8>::empty());
    while i < end
        invariant
            ds <= i <= end <= s.len(),
            digits == s@.subrange(ds as int, end as int),
            mag == digits_value(s@.subrange(ds as int, i as int)),
            mag <= max,
            max <= u64::MAX,
            all_digits(s@.subrange(ds as int, i as int)),
        decreases end - i,
    {
        let b = s[i];
        if b < 48u8 || b > 57u8 {
            assert(digits[i - ds] == b);
            assert(!all_digits(digits));
            return None;
        }
        assert(s@.subrange(ds as int, i + 1).drop_last() =~= s@.subrange(ds as int, i as int));
        mag = mag * 10 + (b - 48u8) as u128;
        assert(all_digits(s@.subrange(ds as int, i + 1)));
        if mag > max {
            proof {
                if all_digits(digits) {
                    assert(digits.subrange(0, i + 1 - ds) =~= s@.subrange(ds as int, i + 1));
                    lemma_digits_value_prefix(digits, i + 1 - ds);
                    assert(digits_value(digits) > max);
                }
            }
            return None;
        }
        i = i + 1;
    }
    assert(s@.subrange(ds as int, i as int) =~= digits);
    Some(mag)
}

/// Reads the decimal text `s[start..end]` as `str::parse::<usize>` does.
fn parse_usize_slice(s: &[u8], start: usize, end: usize) -> (r: Option<usize>)
    requires
        start <= end <= s.len(),
    ensures
        r == parse_usize_text(s@.subrange(start as int, end as int)),
{
    match parse_unsigned_slice(s, start, end, usize::MAX as u128) {
        Some(n) => Some(n as usize),
        None => None,
    }
}

/// A cursor over the input of one parse.
struct Parser<'a> {
    input: &'a [u8],
    pos: usize,
}

impl<'a> Parser<'a> {
    /// Reads the value that starts at the cursor.
    fn value(&mut self) -> (r: Result<Value, BencodeError>)
        requires
            old(self).pos <= old(self).input@.len(),
        ensures
            final(self).input@ == old(self).input@,
            step_matches(value_at(old(self).input@, old(self).pos as int), r, final(self).pos as int),
        decreases old(self).input@.len() - old(self).pos, 1int,
    {
        if self.pos >= self.input.len() {
            return Err(BencodeError::UnexpectedEnd);
        }
        let byte = self.input[self.pos];
        if byte == 105u8 {
            self.integer()
        } else if byte == 108u8 {
            self.list()
        } else if byte == 100u8 {
            self.dict()
        } else if 48u8 <= byte && byte <= 57u8 {
            match self.bytes() {
                Ok(b) => Ok(Value::Bytes(b)),
                Err(e) => Err(e),
            }
        } else {
            Err(BencodeError::InvalidByte(byte))
        }
    }

    /// Reads an integer whose `i` stands at the cursor.
    #[verifier::loop_isolation(false)]
    fn integer(&mut self) -> (r: Result<Value, BencodeError>)
        requires
            old(self).pos < old(self).input@.len(),
        ensures
            final(self).input@ == old(self).input@,
            step_matches(int_at(old(self).input@, old(self).pos as int), r, final(self).pos as int),
    {
        let ghost s = self.input@;
        let ghost p = self.pos as int;
        let len = self.input.len();
        self.pos = self.pos + 1;
        let start = self.pos;
        proof {
            lemma_find_byte(s, start as int, 101u8);
        }
        if start >= self.input.len() {
            return Err(BencodeError::UnterminatedInt);
        }
        while self.input[self.pos] != 101u8
            invariant
                s == self.input@,
                start <= self.pos < s.len(),
                find_byte(s, start as int, 101u8) == find_byte(s, self.pos as int, 101u8),
            decreases s.len() - self.pos,
        {
            self.pos = self.pos + 1;
            if self.pos >= self.input.len() {
                proof {
                    lemma_find_byte(s, self.pos as int, 101u8);
                }
                return Err(BencodeError::UnterminatedInt);
            }
        }
        match parse_i64_slice(self.input, start, self.pos) {
            Some(i) => {
                self.pos = self.pos + 1;
                Ok(Value::Int(i))
            },
            None => Err(BencodeError::InvalidInt),
        }
    }

    /// Reads a byte string whose length text starts at the cursor.
    #[verifier::loop_isolation(false)]
    fn bytes(&mut self) -> (r: Result<Vec<u8>, BencodeError>)
        requires
            old(self).pos <= old(self).input@.len(),
        ensures
            final(self).input@ == old(self).input@,
            match bytes_at(old(self).input@, old(self).pos as int) {
                Ok((b, q)) => r matches Ok(x) && x@ == b && final(self).pos == q,
                Err(e) => r == Err::<Vec<u8>, BencodeError>(e),
            },
    {
        let ghost s = self.input@;
        let start = self.pos;
        proof {
            lemma_find_byte(s, start as int, 58u8);
        }
        if start >= self.input.len() {
            return Err(BencodeError::UnterminatedLength);
        }
        while self.input[self.pos] != 58u8
            invariant
                s == self.input@,
                start <= self.pos < s.len(),
                find_byte(s, start as int, 58u8) == find_byte(s, self.pos as int, 58u8),
            decreases s.len() - self.pos,
        {
            self.pos = self.pos + 1;
            if self.pos >= self.input.len() {
                proof {
                    lemma_find_byte(s, self.pos as int, 58u8);
                }
                return Err(BencodeError::UnterminatedLength);
            }
        }
        let n = match parse_usize_slice(self.input, start, self.pos) {
            Some(n) => n,
            None => {
                return Err(BencodeError::InvalidLength);
            },
        };
        self.pos = self.pos + 1;
        let end = match self.pos.checked_add(n) {
            Some(end) => end,
            None => {
                return Err(BencodeError::LengthOverflow);
            },
        };
        if end > self.input.len() {
            return Err(BencodeError::StringExceedsInput);
        }
        let mut out: Vec<u8> = Vec::with_capacity(n);
        let mut i = self.pos;
        while i < end
            invariant
                s == self.input@,
                self.pos <= i <= end <= s.len(),
                out@ == s.subrange(self.pos as int, i as int),
            decreases end - i,
        {
            out.push(self.input[i]);
            assert(out@ =~= s.subrange(self.pos as int, i + 1));
            i = i + 1;
        }
        self.pos = end;
        Ok(out)
    }

    /// Reads a list whose `l` stands at the cursor.
    #[verifier::loop_isolation(false)]
    fn list(&mut self) -> (r: Result<Value, BencodeError>)
        requires
            old(self).pos < old(self).input@.len(),
        ensures
            final(self).input@ == old(self).input@,
            step_matches(
                list_from(old(self).input@, old(self).pos + 1, Seq::empty()),
                r,
                final(self).pos as int,
            ),
        decreases old(self).input@.len() - old(self).pos, 0int,
    {
        let ghost s = self.input@;
        let ghost p0 = self.pos as int;
        let len = self.input.len();
        self.pos = self.pos + 1;
        let mut values: Vec<Value> = Vec::new();
        loop
            invariant
                s == self.input@,
                p0 < self.pos <= s.len(),
                list_from(s, p0 + 1, Seq::empty()) == list_from(s, self.pos as int, list_view(values@)),
            decreases s.len() - self.pos,
        {
            if self.pos < self.input.len() && self.input[self.pos] == 101u8 {
                self.pos = self.pos + 1;
                return Ok(Value::List(values));
            }
            let ghost q0 = self.pos as int;
            proof {
                lemma_value_at_progress(s, q0);
            }
            let v = match self.value() {
                Ok(v) => v,
                Err(e) => {
                    return Err(e);
                },
            };
            let ghost vv = v@;
            let ghost before = values@;
            values.push(v);
            assert(values@.subrange(0, values@.len() - 1) =~= before);
            assert(list_view(values@) == list_view(before).push(vv));
            if self.pos >= self.input.len() {
                return Err(BencodeError::UnterminatedList);
            }
        }
    }

    /// Reads a dictionary whose `d` stands at the cursor.
    #[verifier::loop_isolation(false)]
    fn dict(&mut self) -> (r: Result<Value, BencodeError>)
        requires
            old(self).pos < old(self).input@.len(),
        ensures
            final(self).input@ == old(self).input@,
            step_matches(
                dict_from(old(self).input@, old(self).pos + 1, Seq::empty()),
                r,
                final(self).pos as int,
            ),
        decreases old(self).input@.len() - old(self).pos, 0int,
    {
        let ghost s = self.input@;
        let ghost p0 = self.pos as int;
        let len = self.input.len();
        self.pos = self.pos + 1;
        let mut dict = Dict::new();
        loop
            invariant
                s == self.input@,
                p0 < self.pos <= s.len(),
                dict_from(s, p0 + 1, Seq::empty()) == dict_from(s, self.pos as int, dict@),
            decreases s.len() - self.pos,
        {
            if self.pos < self.input.len() && self.input[self.pos] == 101u8 {
                self.pos = self.pos + 1;
                return Ok(Value::Dict(dict));
            }
            let ghost q0 = self.pos as int;
            proof {
                lemma_bytes_at_progress(s, q0);
            }
            let key = match self.bytes() {
                Ok(k) => k,
                Err(e) => {
                    return Err(e);
                },
            };
            let ghost q1 = self.pos as int;
            proof {
                lemma_value_at_progress(s, q1);
            }
            let v = match self.value() {
                Ok(v) => v,
                Err(e) => {
                    return Err(e);
                },
            };
            dict.insert(key, v);
            if self.pos >= self.input.len() {
                return Err(BencodeError::UnterminatedDict);
            }
        }
    }
}

/// Parses one bencode value that takes the whole input.
pub fn parse(input: &[u8]) -> (r: Result<Value, BencodeError>)
    ensures
        match model::spec_parse(input@) {
            Ok(v) => r matches Ok(x) && x@ == v,
            Err(e) => r == Err::<Value, BencodeError>(e),
        },
{
    let mut parser = Parser { input, pos: 0 };
    let value = match parser.value() {
        Ok(v) => v,
        Err(e) => {
            return Err(e);
        },
    };
    if parser.pos != input.len() {
        return Err(BencodeError::TrailingBytes);
    }
    Ok(value)
}

/// Parses the bencode value at the start of the input; returns it with the number of
/// bytes it took.
pub fn parse_prefix(input: &[u8]) -> (r: Result<(Value, usize), BencodeError>)
    ensures
        match model::spec_parse_prefix(input@) {
            Ok((v, q)) => r matches Ok((x, n)) && x@ == v && n == q,
            Err(e) => r == Err::<(Value, usize), BencodeError>(e),
        },
{
    let mut parser = Parser { input, pos: 0 };
    let value = match parser.value() {
        Ok(v) => v,
        Err(e) => {
            return Err(e);
        },
    };
    Ok((value, parser.pos))
}


/// Appends the decimal text of `n`.
fn push_decimal(n: u64, out: &mut Vec<u8>)
    ensures
        final(out)@ == old(out)@ + decimal(n as nat),
    decreases n,
{
    if n >= 10 {
        push_decimal(n / 10, out);
    }
    out.push((48 + n % 10) as u8);
    assert(n < 10 ==> n % 10 == n);
}

/// Appends a byte string: its length, `:`, then its bytes.
fn push_bytes(bytes: &[u8], out: &mut Vec<u8>)
    ensures
        final(out)@ == old(out)@ + enc_bytes(bytes@),
{
    let ghost start = out@;
    push_decimal(bytes.len() as u64, out);
    out.push(58u8);
    let ghost mid = out@;
    let mut i: usize = 0;
    while i < bytes.len()
        invariant
            i <= bytes.len(),
            mid == start + decimal(bytes@.len()) + seq![58u8],
            out@ == mid + bytes@.subrange(0, i as int),
        decreases bytes.len() - i,
    {
        out.push(bytes[i]);
        assert(out@ =~= mid + bytes@.subrange(0, i + 1));
        i = i + 1;
    }
    assert(bytes@.subrange(0, bytes@.len() as int) =~= bytes@);
    assert(out@ =~= start + enc_bytes(bytes@));
}

/// Appends the bencode text of `value`; dictionary entries go in increasing key order.
/// Every value is well-formed (each dictionary's keys increase), so the parser reads the
/// text back as the same value.
#[verifier::loop_isolation(false)]
pub fn encode(value: &Value, out: &mut Vec<u8>)
    ensures
        final(out)@ == old(out)@ + enc(value@),
        wf(value@),
        model::spec_parse(enc(value@)) == Ok::<Val, BencodeError>(value@),
        model::spec_parse_prefix(enc(value@)) == Ok::<(Val, int), BencodeError>((value@, enc(value@).len() as int)),
    decreases value,
{
    let ghost start = out@;
    match value {
        Value::Int(v) => {
            out.push(105u8);
            if *v < 0 {
                out.push(45u8);
                let mag: u64 = if *v == i64::MIN {
                    0x8000_0000_0000_0000u64
                } else {
                    (-*v) as u64
                };
                push_decimal(mag, out);
            } else {
                push_decimal(*v as u64, out);
            }
            out.push(101u8);
            assert(out@ =~= start + enc(value@));
        },
        Value::Bytes(bytes) => {
            push_bytes(bytes.as_slice(), out);
        },
        Value::List(values) => {
            out.push(108u8);
            let mut i: usize = 0;
            assert(values@.subrange(0, 0) =~= Seq::<Value>::empty());
            while i < values.len()
                invariant
                    i <= values@.len(),
                    out@ == start + seq![108u8] + enc_list(list_view(values@.subrange(0, i as int))),
                    wf_list(list_view(values@.subrange(0, i as int))),
                decreases values.len() - i,
            {
                proof {
                    assert(decreases_to!(*value => *values));
                    assert(decreases_to!(*values => values[i as int]));
                }
                encode(&values[i], out);
                proof {
                    lemma_list_view_step(values@, i as int);
                    lemma_enc_list_push(list_view(values@.subrange(0, i as int)), values@[i as int]@);
                }
                assert(out@ =~= start + seq![108u8] + enc_list(list_view(values@.subrange(0, i + 1))));
                proof {
                    let pre = list_view(values@.subrange(0, i as int));
                    assert(pre.push(values@[i as int]@).subrange(0, pre.len() as int) =~= pre);
                }
                i = i + 1;
            }
            out.push(101u8);
            assert(values@.subrange(0, values@.len() as int) =~= values@);
            assert(out@ =~= start + enc(value@));
        },
        Value::Dict(d) => {
            proof {
                use_type_invariant(d);
            }
            let entries = &d.entries;
            out.push(100u8);
            let mut i: usize = 0;
            assert(entries@.subrange(0, 0) =~= Seq::<(Vec<u8>, Value)>::empty());
            while i < entries.len()
                invariant
                    i <= entries@.len(),
                    dict_view(entries@) == d@,
                    out@ == start + seq![100u8] + enc_dict(dict_view(entries@.subrange(0, i as int))),
                    wf_dict(dict_view(entries@.subrange(0, i as int))),
                decreases entries.len() - i,
            {
                proof {
                    assert(decreases_to!(*value => *d));
                    assert(decreases_to!(*d => *entries));
                    assert(decreases_to!(*entries => entries[i as int]));
                    assert(decreases_to!(entries[i as int] => entries[i as int].1));
                }
                push_bytes(entries[i].0.as_slice(), out);
                encode(&entries[i].1, out);
                proof {
                    lemma_dict_view_step(entries@, i as int);
                    lemma_enc_dict_push(
                        dict_view(entries@.subrange(0, i as int)),
                        entries@[i as int].0@,
                        entries@[i as int].1@,
                    );
                }
                assert(out@ =~= start + seq![100u8] + enc_dict(dict_view(entries@.subrange(0, i + 1))));
                proof {
                    let pre = dict_view(entries@.subrange(0, i as int));
                    assert(pre.push((entries@[i as int].0@, entries@[i as int].1@)).subrange(0, pre.len() as int) =~= pre);
                }
                i = i + 1;
            }
            out.push(101u8);
            assert(entries@.subrange(0, entries@.len() as int) =~= entries@);
            assert(out@ =~= start + enc(value@));
        },
    }
    let n = out.len();
    proof {
        assert(enc(value@).len() <= n);
        laws::law_parse_encode(value@);
        laws::law_parse_prefix_encode(value@, Seq::empty());
        assert(enc(value@) + Seq::<u8>::empty() =~= enc(value@));
    }
}

/// Looks a key up in a dictionary.
pub fn dict_get<'a>(dict_map: &'a Dict, key: &[u8]) -> (r: Option<&'a Value>)
    ensures
        match model::dict_lookup(dict_map@, key@) {
            Some(v) => r matches Some(x) && x@ == v,
            None => r is None,
        },
{
    let dict = dict_map.entries();
    let ghost d = dict_view(dict@);
    proof {
        lemma_dict_view(dict@);
    }
    let mut i: usize = 0;
    assert(d.skip(0) =~= d);
    while i < dict.len()
        invariant
            i <= dict@.len(),
            d == dict_view(dict@),
            d == dict_map@,
            d.len() == dict@.len(),
            forall|j: int| 0 <= j < d.len() ==> #[trigger] d[j] == (dict@[j].0@, dict@[j].1@),
            model::dict_lookup(d, key@) == model::dict_lookup(d.skip(i as int), key@),
        decreases dict.len() - i,
    {
        assert(d.skip(i as int).drop_first() =~= d.skip(i + 1));
        assert(d.skip(i as int)[0] == d[i as int]);
        if bytes_eq(dict[i].0.as_slice(), key) {
            return Some(&dict[i].1);
        }
        i = i + 1;
    }
    None
}

/// The bytes of a byte string value.
pub fn as_bytes(value: &Value) -> (r: Option<&[u8]>)
    ensures
        match value@ {
            Val::Bytes(b) => r matches Some(x) && x@ == b,
            _ => r is None,
        },
{
    match value {
        Value::Bytes(bytes) => Some(bytes.as_slice()),
        _ => None,
    }
}

/// The number of an integer value.
pub fn as_int(value: &Value) -> (r: Option<i64>)
    ensures
        match value@ {
            Val::Int(i) => r == Some(i),
            _ => r is None,
        },
{
    match value {
        Value::Int(v) => Some(*v),
        _ => None,
    }
}

} // verus!

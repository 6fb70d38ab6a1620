use vstd::prelude::*;

use super::lemmas::{
    lemma_bytes_at_progress, lemma_dict_from_progress, lemma_find_byte, lemma_list_from_progress,
    lemma_value_at_progress, lemma_dict_insert_wf, lemma_lex_lt_irrefl, lemma_lower_bound, lemma_value_at_wf, lemma_wf_dict,
    lemma_wf_list,
};
use super::model::{
    all_digits, bytes_at, decimal, decimal_int, dict_from, dict_insert, dict_lookup, digits_value, enc,
    enc_bytes, enc_dict, enc_list, find_byte, is_digit, keys_sorted, lex_lt, list_from,
    int_at, lower_bound, parse_i64_text, parse_usize_text, spec_parse, spec_parse_prefix, value_at, wf,
    wf_dict, wf_list, Val,
};

verus! {

proof fn lemma_decimal(n: nat)
    ensures
        decimal(n).len() >= 1,
        all_digits(decimal(n)),
        digits_value(decimal(n)) == n,
    decreases n,
{
    if n >= 10 {
        lemma_decimal(n / 10);
        let d = decimal(n);
        assert(d.drop_last() =~= decimal(n / 10));
        assert(d.last() == (48 + n % 10) as u8);
        assert(((48 + n % 10) as u8) as int == 48 + n % 10);
        assert(digits_value(d) == digits_value(d.drop_last()) * 10 + (d.last() - 48) as nat);
        assert((n / 10) * 10 + n % 10 == n) by (nonlinear_arith);
        assert forall|i: int| 0 <= i < d.len() implies is_digit(#[trigger] d[i]) by {
            if i < d.len() - 1 {
                assert(d[i] == decimal(n / 10)[i]);
            }
        }
    } else {
        let d = decimal(n);
        assert(d.drop_last() =~= Seq::<u8>::empty());
        assert(d.last() == (48 + n) as u8);
        assert(((48 + n) as u8) as int == 48 + n);
        assert(digits_value(d) == digits_value(d.drop_last()) * 10 + (d.last() - 48) as nat);
    }
}

proof fn lemma_parse_i64_decimal(i: i64)
    ensures
        parse_i64_text(decimal_int(i as int)) == Some(i),
        decimal_int(i as int).len() >= 1,
        forall|j: int|
            0 <= j < decimal_int(i as int).len() ==> #[trigger] decimal_int(i as int)[j] != 101u8
                && decimal_int(i as int)[j] != 58u8,
{
    if i < 0 {
        let m = (-i) as nat;
        lemma_decimal(m);
        let raw = decimal_int(i as int);
        assert(raw.drop_first() =~= decimal(m));
        assert forall|j: int| 0 <= j < raw.len() implies #[trigger] raw[j] != 101u8 && raw[j]
            != 58u8 by {
            if j > 0 {
                assert(raw[j] == decimal(m)[j - 1]);
            }
        }
    } else {
        lemma_decimal(i as nat);
        let raw = decimal_int(i as int);
        assert(is_digit(raw[0]));
        assert forall|j: int| 0 <= j < raw.len() implies #[trigger] raw[j] != 101u8 && raw[j]
            != 58u8 by {
            assert(is_digit(raw[j]));
        }
    }
}

proof fn lemma_parse_usize_decimal(n: nat)
    requires
        n <= usize::MAX,
    ensures
        parse_usize_text(decimal(n)) == Some(n as usize),
{
    lemma_decimal(n);
    assert(is_digit(decimal(n)[0]));
}

proof fn lemma_find_byte_at(s: Seq<u8>, p: int, b: u8, k: int)
    requires
        0 <= p <= k < s.len(),
        s[k] == b,
        forall|j: int| p <= j < k ==> s[j] != b,
    ensures
        find_byte(s, p, b) == k,
    decreases k - p,
{
    if p < k {
        lemma_find_byte_at(s, p + 1, b, k);
    }
}

/// The first byte of an encoding opens a value, so it is neither `e` nor `:`.
proof fn lemma_enc_first(v: Val)
    ensures
        enc(v).len() >= 2,
        enc(v)[0] != 101u8,
        match v {
            Val::Int(_) => enc(v)[0] == 105u8,
            Val::Bytes(_) => is_digit(enc(v)[0]),
            Val::List(_) => enc(v)[0] == 108u8,
            Val::Dict(_) => enc(v)[0] == 100u8,
        },
{
    match v {
        Val::Int(i) => {
            lemma_parse_i64_decimal(i);
        },
        Val::Bytes(b) => {
            lemma_decimal(b.len());
        },
        _ => {},
    }
}

proof fn lemma_enc_list_front(items: Seq<Val>)
    requires
        items.len() > 0,
    ensures
        enc_list(items) == enc(items[0]) + enc_list(items.subrange(1, items.len() as int)),
    decreases items.len(),
{
    let n = items.len() as int;
    if n == 1 {
        let e = Seq::<Val>::empty();
        assert(enc_list(e) == Seq::<u8>::empty());
        assert(items.subrange(0, 0) =~= e);
        assert(items.subrange(1, 1) =~= e);
        assert(enc_list(items) == enc_list(items.subrange(0, 0)) + enc(items[0]));
        assert(enc_list(items) =~= enc(items[0]));
        assert(enc(items[0]) + enc_list(items.subrange(1, 1)) =~= enc(items[0]));
    } else {
        let t = items.subrange(0, n - 1);
        lemma_enc_list_front(t);
        let rest = items.subrange(1, n);
        assert(rest.subrange(0, n - 2) =~= t.subrange(1, n - 1));
        assert(rest[n - 2] == items[n - 1]);
        assert(enc_list(rest) == enc_list(t.subrange(1, n - 1)) + enc(items[n - 1]));
        assert(enc_list(items) =~= enc(items[0]) + enc_list(rest));
    }
}

proof fn lemma_enc_dict_front(entries: Seq<(Seq<u8>, Val)>)
    requires
        entries.len() > 0,
    ensures
        enc_dict(entries) == enc_bytes(entries[0].0) + enc(entries[0].1) + enc_dict(
            entries.subrange(1, entries.len() as int),
        ),
    decreases entries.len(),
{
    let n = entries.len() as int;
    if n == 1 {
        let e = Seq::<(Seq<u8>, Val)>::empty();
        assert(enc_dict(e) == Seq::<u8>::empty());
        assert(entries.subrange(0, 0) =~= e);
        assert(entries.subrange(1, 1) =~= e);
        assert(enc_dict(entries) == enc_dict(entries.subrange(0, 0)) + enc_bytes(entries[0].0)
            + enc(entries[0].1));
        assert(enc_dict(entries) =~= enc_bytes(entries[0].0) + enc(entries[0].1));
        assert(enc_bytes(entries[0].0) + enc(entries[0].1) + enc_dict(entries.subrange(1, 1))
            =~= enc_bytes(entries[0].0) + enc(entries[0].1));
    } else {
        let t = entries.subrange(0, n - 1);
        lemma_enc_dict_front(t);
        let rest = entries.subrange(1, n);
        assert(rest.subrange(0, n - 2) =~= t.subrange(1, n - 1));
        assert(rest[n - 2] == entries[n - 1]);
        assert(enc_dict(rest) == enc_dict(t.subrange(1, n - 1)) + enc_bytes(entries[n - 1].0)
            + enc(entries[n - 1].1));
        assert(enc_dict(entries) =~= enc_bytes(entries[0].0) + enc(entries[0].1) + enc_dict(
            rest,
        ));
    }
}

/// A window of `s` that holds `x` holds each part of `x` at the matching place.
proof fn lemma_window(s: Seq<u8>, p: int, x: Seq<u8>, a: int, b: int)
    requires
        0 <= p,
        p + x.len() <= s.len(),
        s.subrange(p, p + x.len()) == x,
        0 <= a <= b <= x.len(),
    ensures
        s.subrange(p + a, p + b) == x.subrange(a, b),
        forall|j: int| 0 <= j < x.len() ==> s[p + j] == #[trigger] x[j],
{
    assert forall|j: int| 0 <= j < x.len() implies s[p + j] == #[trigger] x[j] by {
        assert(s.subrange(p, p + x.len())[j] == x[j]);
    }
    assert(s.subrange(p + a, p + b) =~= x.subrange(a, b));
}

/// Reading the encoding of a byte string gives the byte string back.
proof fn lemma_bytes_at_enc(b: Seq<u8>, s: Seq<u8>, p: int)
    requires
        0 <= p,
        p + enc_bytes(b).len() <= s.len(),
        s.len() <= usize::MAX,
        s.subrange(p, p + enc_bytes(b).len()) == enc_bytes(b),
    ensures
        bytes_at(s, p) == Ok::<(Seq<u8>, int), super::model::BencodeError>(
            (b, p + enc_bytes(b).len()),
        ),
        is_digit(s[p]),
{
    let e = enc_bytes(b);
    let d = decimal(b.len());
    lemma_decimal(b.len());
    lemma_parse_usize_decimal(b.len());
    let c = p + d.len();
    assert(s[p] == e[0]);
    assert(s[c] == e[d.len() as int]);
    assert forall|j: int| p <= j < c implies s[j] != 58u8 by {
        assert(s[j] == e[j - p]);
        assert(e[j - p] == d[j - p]);
        assert(is_digit(d[j - p]));
    }
    lemma_find_byte_at(s, p, 58u8, c);
    assert(s.subrange(p, c) =~= d) by {
        assert forall|j: int| 0 <= j < d.len() implies s.subrange(p, c)[j] == d[j] by {
            assert(s[p + j] == e[j]);
        }
    }
    assert(s.subrange(c + 1, p + e.len()) =~= b) by {
        assert forall|j: int| 0 <= j < b.len() implies s.subrange(c + 1, p + e.len())[j] == b[j] by {
            assert(s[c + 1 + j] == e[d.len() + 1 + j]);
        }
    }
}

/// Reading the encoding of a well-formed value gives the value back, and the position
/// just after the encoding.
pub proof fn lemma_value_at_enc(v: Val, s: Seq<u8>, p: int)
    requires
        wf(v),
        0 <= p,
        p + enc(v).len() <= s.len(),
        s.len() <= usize::MAX,
        s.subrange(p, p + enc(v).len()) == enc(v),
    ensures
        value_at(s, p) == Ok::<(Val, int), super::model::BencodeError>((v, p + enc(v).len())),
    decreases v,
{
    let e = enc(v);
    lemma_enc_first(v);
    assert(s[p] == e[0]);
    match v {
        Val::Int(i) => {
            let d = decimal_int(i as int);
            lemma_parse_i64_decimal(i);
            let k = p + 1 + d.len();
            assert(s[k] == e[d.len() as int + 1]);
            assert forall|j: int| p + 1 <= j < k implies s[j] != 101u8 by {
                assert(s[j] == e[j - p]);
                assert(e[j - p] == d[j - p - 1]);
            }
            lemma_find_byte_at(s, p + 1, 101u8, k);
            lemma_window(s, p, e, 1, d.len() as int + 1);
            assert(e.subrange(1, d.len() as int + 1) =~= d);
        },
        Val::Bytes(b) => {
            lemma_bytes_at_enc(b, s, p);
        },
        Val::List(items) => {
            let body = enc_list(items);
            lemma_window(s, p, e, 1, e.len() as int);
            assert(e.subrange(1, e.len() as int) =~= body + seq![101u8]);
            lemma_list_from_enc(items, s, p + 1, Seq::empty());
            assert(Seq::<Val>::empty() + items =~= items);
        },
        Val::Dict(entries) => {
            let body = enc_dict(entries);
            lemma_window(s, p, e, 1, e.len() as int);
            assert(e.subrange(1, e.len() as int) =~= body + seq![101u8]);
            assert(Seq::<(Seq<u8>, Val)>::empty() + entries =~= entries);
            lemma_dict_from_enc(entries, s, p + 1, Seq::empty());
        },
    }
}

proof fn lemma_list_from_enc(items: Seq<Val>, s: Seq<u8>, q: int, acc: Seq<Val>)
    requires
        wf_list(items),
        0 <= q,
        q + enc_list(items).len() + 1 <= s.len(),
        s.len() <= usize::MAX,
        s.subrange(q, q + enc_list(items).len() + 1) == enc_list(items) + seq![101u8],
    ensures
        list_from(s, q, acc) == Ok::<(Val, int), super::model::BencodeError>(
            (Val::List(acc + items), q + enc_list(items).len() + 1),
        ),
    decreases items,
{
    let body = enc_list(items);
    let x = body + seq![101u8];
    lemma_window(s, q, x, 0, 0);
    if items.len() == 0 {
        assert(s[q] == x[0]);
        assert(acc + items =~= acc);
    } else {
        lemma_wf_list(items);
        let first = items[0];
        let rest = items.subrange(1, items.len() as int);
        lemma_enc_list_front(items);
        lemma_wf_list(rest);
        let e0 = enc(first);
        lemma_enc_first(first);
        assert(x[0] == e0[0]);
        lemma_window(s, q, x, 0, e0.len() as int);
        assert(x.subrange(0, e0.len() as int) =~= e0);
        lemma_value_at_enc(first, s, q);
        let q1 = q + e0.len();
        lemma_window(s, q, x, e0.len() as int, x.len() as int);
        assert(x.subrange(e0.len() as int, x.len() as int) =~= enc_list(rest) + seq![101u8]);
        assert(decreases_to!(items => rest));
        lemma_list_from_enc(rest, s, q1, acc.push(first));
        assert(acc.push(first) + rest =~= acc + items);
    }
}

proof fn lemma_dict_from_enc(
    entries: Seq<(Seq<u8>, Val)>,
    s: Seq<u8>,
    q: int,
    acc: Seq<(Seq<u8>, Val)>,
)
    requires
        wf_dict(entries),
        keys_sorted(acc + entries),
        0 <= q,
        q + enc_dict(entries).len() + 1 <= s.len(),
        s.len() <= usize::MAX,
        s.subrange(q, q + enc_dict(entries).len() + 1) == enc_dict(entries) + seq![101u8],
    ensures
        dict_from(s, q, acc) == Ok::<(Val, int), super::model::BencodeError>(
            (Val::Dict(acc + entries), q + enc_dict(entries).len() + 1),
        ),
    decreases entries,
{
    let body = enc_dict(entries);
    let x = body + seq![101u8];
    lemma_window(s, q, x, 0, 0);
    if entries.len() == 0 {
        assert(s[q] == x[0]);
        assert(acc + entries =~= acc);
    } else {
        lemma_wf_dict(entries);
        let (k0, v0) = entries[0];
        let rest = entries.subrange(1, entries.len() as int);
        lemma_enc_dict_front(entries);
        lemma_wf_dict(rest);
        let eb = enc_bytes(k0);
        let ev = enc(v0);
        lemma_window(s, q, x, 0, eb.len() as int);
        assert(x.subrange(0, eb.len() as int) =~= eb);
        lemma_bytes_at_enc(k0, s, q);
        let q1 = q + eb.len();
        lemma_enc_first(v0);
        lemma_window(s, q, x, eb.len() as int, (eb.len() + ev.len()) as int);
        assert(x.subrange(eb.len() as int, (eb.len() + ev.len()) as int) =~= ev);
        assert(decreases_to!(entries => entries[0]));
        lemma_value_at_enc(v0, s, q1);
        let r = q1 + ev.len();
        // every key read so far is below the new one, so the entry goes at the end
        let all = acc + entries;
        assert forall|j: int| 0 <= j < acc.len() implies lex_lt(#[trigger] acc[j].0, k0) by {
            assert(all[j] == acc[j]);
            assert(all[acc.len() as int] == entries[0]);
        }
        lemma_lower_bound(acc, k0, 0);
        assert(lower_bound(acc, k0, 0) == acc.len());
        assert(dict_insert(acc, k0, v0) =~= acc.push((k0, v0)));
        lemma_window(s, q, x, (eb.len() + ev.len()) as int, x.len() as int);
        assert(x.subrange((eb.len() + ev.len()) as int, x.len() as int) =~= enc_dict(rest) + seq![101u8]);
        assert(acc.push((k0, v0)) + rest =~= all);
        assert(decreases_to!(entries => rest));
        lemma_dict_from_enc(rest, s, r, acc.push((k0, v0)));
    }
}

/// Law: parsing the encoding of a well-formed value gives the value back.
pub proof fn law_parse_encode(v: Val)
    requires
        wf(v),
        enc(v).len() <= usize::MAX,
    ensures
        spec_parse(enc(v)) == Ok::<Val, super::model::BencodeError>(v),
{
    assert(enc(v).subrange(0, enc(v).len() as int) =~= enc(v));
    lemma_value_at_enc(v, enc(v), 0);
}

/// Law: `parse_prefix` reads exactly the encoding of a well-formed value and leaves
/// whatever follows it unread.
pub proof fn law_parse_prefix_encode(v: Val, rest: Seq<u8>)
    requires
        wf(v),
        enc(v).len() + rest.len() <= usize::MAX,
    ensures
        spec_parse_prefix(enc(v) + rest) == Ok::<(Val, int), super::model::BencodeError>(
            (v, enc(v).len() as int),
        ),
{
    let s = enc(v) + rest;
    assert(s.subrange(0, enc(v).len() as int) =~= enc(v));
    lemma_value_at_enc(v, s, 0);
}

/// Law: every value that `parse_prefix` (and so `parse`) returns is well-formed: the keys
/// of each dictionary are strictly increasing.
pub proof fn law_parse_wf(s: Seq<u8>)
    ensures
        spec_parse_prefix(s) matches Ok((v, n)) ==> wf(v),
        spec_parse(s) matches Ok(v) ==> wf(v),
{
    lemma_value_at_wf(s, 0);
}

/// Law: `parse` succeeds exactly when `parse_prefix` succeeds and reads the whole input,
/// and then both give the same value.
pub proof fn law_parse_whole_prefix(s: Seq<u8>)
    ensures
        (spec_parse(s) is Ok) <==> (spec_parse_prefix(s) matches Ok((v, n)) && n == s.len()),
        spec_parse(s) matches Ok(v) ==> spec_parse_prefix(s) == Ok::<(Val, int), super::model::BencodeError>((v, s.len() as int)),
{
}


proof fn lemma_lookup_sorted(d: Seq<(Seq<u8>, Val)>, k: Seq<u8>)
    requires
        keys_sorted(d),
    ensures
        forall|i: int| 0 <= i < d.len() && (#[trigger] d[i]).0 == k ==> dict_lookup(d, k) == Some(d[i].1),
        (forall|i: int| 0 <= i < d.len() ==> (#[trigger] d[i]).0 != k) ==> dict_lookup(d, k) is None,
    decreases d.len(),
{
    if d.len() > 0 {
        let t = d.drop_first();
        assert forall|a: int, b: int| 0 <= a < b < t.len() implies lex_lt(#[trigger] t[a].0, #[trigger] t[b].0) by {
            assert(t[a] == d[a + 1] && t[b] == d[b + 1]);
        }
        lemma_lookup_sorted(t, k);
        assert forall|i: int| 0 <= i < d.len() && (#[trigger] d[i]).0 == k implies dict_lookup(d, k) == Some(d[i].1) by {
            if i > 0 {
                assert(lex_lt(d[0].0, d[i].0));
                if d[0].0 == k {
                    lemma_lex_lt_irrefl(k);
                }
                assert(t[i - 1] == d[i]);
            }
        }
        if forall|i: int| 0 <= i < d.len() ==> (#[trigger] d[i]).0 != k {
            assert forall|i: int| 0 <= i < t.len() implies (#[trigger] t[i]).0 != k by {
                assert(t[i] == d[i + 1]);
            }
        }
    }
}

/// Law: after a key is inserted into a dictionary with increasing keys, looking it up
/// gives the inserted value, and every other key keeps what it had.
pub proof fn law_dict_insert_lookup(d: Seq<(Seq<u8>, Val)>, k: Seq<u8>, v: Val, other: Seq<u8>)
    requires
        keys_sorted(d),
        wf_dict(d),
        wf(v),
    ensures
        dict_lookup(dict_insert(d, k, v), k) == Some(v),
        other != k ==> dict_lookup(dict_insert(d, k, v), other) == dict_lookup(d, other),
{
    lemma_dict_insert_wf(d, k, v);
    lemma_lower_bound(d, k, 0);
    let i = lower_bound(d, k, 0);
    let r = dict_insert(d, k, v);
    lemma_lookup_sorted(d, other);
    lemma_lookup_sorted(r, k);
    lemma_lookup_sorted(r, other);
    if i < d.len() && d[i].0 == k {
        assert(r[i] == (k, v));
        if other != k {
            if exists|j: int| 0 <= j < d.len() && (#[trigger] d[j]).0 == other {
                let j = choose|j: int| 0 <= j < d.len() && (#[trigger] d[j]).0 == other;
                assert(r[j] == d[j]);
            } else {
                assert forall|j: int| 0 <= j < r.len() implies (#[trigger] r[j]).0 != other by {
                    if j != i {
                        assert(r[j] == d[j]);
                    }
                }
            }
        }
    } else {
        assert(r[i] == (k, v));
        if other != k {
            if exists|j: int| 0 <= j < d.len() && (#[trigger] d[j]).0 == other {
                let j = choose|j: int| 0 <= j < d.len() && (#[trigger] d[j]).0 == other;
                if j < i {
                    assert(r[j] == d[j]);
                } else {
                    assert(r[j + 1] == d[j]);
                }
            } else {
                assert forall|j: int| 0 <= j < r.len() implies (#[trigger] r[j]).0 != other by {
                    if j < i {
                        assert(r[j] == d[j]);
                    } else if j > i {
                        assert(r[j] == d[j - 1]);
                    }
                }
            }
        }
    }
}


// ---------------------------------------------------------------- reading stops where a value ends

proof fn lemma_find_byte_take(s: Seq<u8>, p: int, b: u8, m: int)
    requires
        0 <= p,
        find_byte(s, p, b) < m <= s.len(),
    ensures
        find_byte(s.take(m), p, b) == find_byte(s, p, b),
    decreases s.len() - p,
{
    lemma_find_byte(s, p, b);
    if p < s.len() && s[p] != b {
        lemma_find_byte_take(s, p + 1, b, m);
    }
}

proof fn lemma_bytes_at_take(s: Seq<u8>, p: int, m: int)
    requires
        0 <= p,
        bytes_at(s, p) matches Ok((b, q)) && q <= m,
        m <= s.len(),
    ensures
        bytes_at(s.take(m), p) == bytes_at(s, p),
{
    let t = s.take(m);
    let c = find_byte(s, p, 58u8);
    lemma_find_byte(s, p, 58u8);
    lemma_find_byte_take(s, p, 58u8, m);
    assert(t.subrange(p, c) =~= s.subrange(p, c));
    let q = bytes_at(s, p)->Ok_0.1;
    assert(t.subrange(c + 1, q) =~= s.subrange(c + 1, q));
}

proof fn lemma_int_at_take(s: Seq<u8>, p: int, m: int)
    requires
        0 <= p,
        int_at(s, p) matches Ok((v, q)) && q <= m,
        m <= s.len(),
    ensures
        int_at(s.take(m), p) == int_at(s, p),
{
    let t = s.take(m);
    let e = find_byte(s, p + 1, 101u8);
    lemma_find_byte(s, p + 1, 101u8);
    lemma_find_byte_take(s, p + 1, 101u8, m);
    assert(t.subrange(p + 1, e) =~= s.subrange(p + 1, e));
}

proof fn lemma_value_at_take(s: Seq<u8>, p: int, m: int)
    requires
        value_at(s, p) matches Ok((v, q)) && q <= m,
        m <= s.len(),
    ensures
        value_at(s.take(m), p) == value_at(s, p),
    decreases s.len() - p, 0int,
{
    lemma_value_at_progress(s, p);
    let t = s.take(m);
    assert(t[p] == s[p]);
    if s[p] == 105u8 {
        lemma_int_at_take(s, p, m);
    } else if s[p] == 108u8 {
        lemma_list_from_take(s, p + 1, Seq::empty(), m);
    } else if s[p] == 100u8 {
        lemma_dict_from_take(s, p + 1, Seq::empty(), m);
    } else {
        lemma_bytes_at_take(s, p, m);
    }
}

proof fn lemma_list_from_take(s: Seq<u8>, p: int, acc: Seq<Val>, m: int)
    requires
        list_from(s, p, acc) matches Ok((v, q)) && q <= m,
        m <= s.len(),
    ensures
        list_from(s.take(m), p, acc) == list_from(s, p, acc),
    decreases s.len() - p, 1int,
{
    lemma_list_from_progress(s, p, acc);
    let t = s.take(m);
    if p < s.len() && s[p] == 101u8 {
        assert(t[p] == s[p]);
    } else {
        lemma_value_at_progress(s, p);
        let (v1, q1) = value_at(s, p)->Ok_0;
        lemma_list_from_progress(s, q1, acc.push(v1));
        assert(p < m);
        assert(t[p] == s[p]);
        lemma_value_at_take(s, p, m);
        lemma_list_from_take(s, q1, acc.push(v1), m);
    }
}

proof fn lemma_dict_from_take(s: Seq<u8>, p: int, acc: Seq<(Seq<u8>, Val)>, m: int)
    requires
        dict_from(s, p, acc) matches Ok((v, q)) && q <= m,
        m <= s.len(),
    ensures
        dict_from(s.take(m), p, acc) == dict_from(s, p, acc),
    decreases s.len() - p, 1int,
{
    lemma_dict_from_progress(s, p, acc);
    let t = s.take(m);
    if p < s.len() && s[p] == 101u8 {
        assert(t[p] == s[p]);
    } else {
        let (k, q1) = bytes_at(s, p)->Ok_0;
        lemma_value_at_progress(s, q1);
        let (v1, r) = value_at(s, q1)->Ok_0;
        let next = dict_insert(acc, k, v1);
        lemma_dict_from_progress(s, r, next);
        assert(p < m);
        assert(t[p] == s[p]);
        lemma_bytes_at_take(s, p, m);
        lemma_value_at_take(s, q1, m);
        lemma_dict_from_take(s, r, next, m);
    }
}

/// Law: the bytes that `parse_prefix` reads hold the value on their own: they are not
/// empty, and parsing just them gives the same value.
pub proof fn law_parse_prefix_alone(s: Seq<u8>)
    ensures
        spec_parse_prefix(s) matches Ok((v, n)) ==> 0 < n <= s.len() && spec_parse(s.take(n))
            == Ok::<Val, super::model::BencodeError>(v),
{
    if let Ok((v, n)) = spec_parse_prefix(s) {
        lemma_value_at_progress(s, 0);
        lemma_value_at_take(s, 0, n);
    }
}

} // verus!

use vstd::prelude::*;

use super::model::{
    bytes_within, dict_within, list_within, dict_insert, enc, enc_bytes, enc_dict, enc_list, keys_sorted, lower_bound, wf, wf_dict, wf_list, all_digits, bytes_at, dict_from, dict_view, digits_value, find_byte, int_at, lex_lt,
    list_from, list_view, value_at, value_view, Val,
};
use super::Value;

verus! {

pub proof fn lemma_list_view(s: Seq<Value>)
    ensures
        list_view(s) =~= Seq::new(s.len(), |j: int| value_view(s[j])),
    decreases s.len(),
{
    if s.len() > 0 {
        lemma_list_view(s.subrange(0, s.len() - 1));
    }
}

pub proof fn lemma_dict_view(s: Seq<(Vec<u8>, Value)>)
    ensures
        dict_view(s) =~= Seq::new(s.len(), |j: int| (s[j].0@, value_view(s[j].1))),
    decreases s.len(),
{
    if s.len() > 0 {
        lemma_dict_view(s.subrange(0, s.len() - 1));
    }
}

pub proof fn lemma_find_byte(s: Seq<u8>, p: int, b: u8)
    requires
        0 <= p,
    ensures
        p <= find_byte(s, p, b) <= s.len() || (p > s.len() && find_byte(s, p, b) == s.len()),
        find_byte(s, p, b) < s.len() ==> s[find_byte(s, p, b)] == b,
        forall|i: int| p <= i < find_byte(s, p, b) ==> s[i] != b,
    decreases s.len() - p,
{
    if p < s.len() && s[p] != b {
        lemma_find_byte(s, p + 1, b);
    }
}

pub proof fn lemma_bytes_at_progress(s: Seq<u8>, p: int)
    requires
        0 <= p,
    ensures
        bytes_at(s, p) matches Ok((b, q)) ==> p < q <= s.len(),
{
    lemma_find_byte(s, p, 58u8);
}

pub proof fn lemma_value_at_progress(s: Seq<u8>, p: int)
    ensures
        value_at(s, p) matches Ok((v, q)) ==> p < q <= s.len(),
    decreases s.len() - p, 0int,
{
    if 0 <= p < s.len() {
        if s[p] == 105u8 {
            lemma_find_byte(s, p + 1, 101u8);
        } else if s[p] == 108u8 {
            lemma_list_from_progress(s, p + 1, Seq::empty());
        } else if s[p] == 100u8 {
            lemma_dict_from_progress(s, p + 1, Seq::empty());
        } else {
            lemma_bytes_at_progress(s, p);
        }
    }
}

pub proof fn lemma_list_from_progress(s: Seq<u8>, p: int, acc: Seq<Val>)
    ensures
        list_from(s, p, acc) matches Ok((v, q)) ==> p < q <= s.len(),
    decreases s.len() - p, 1int,
{
    if 0 <= p <= s.len() && !(p < s.len() && s[p] == 101u8) {
        lemma_value_at_progress(s, p);
        if let Ok((v, q)) = value_at(s, p) {
            if q < s.len() && q > p {
                lemma_list_from_progress(s, q, acc.push(v));
            }
        }
    }
}

pub proof fn lemma_dict_from_progress(s: Seq<u8>, p: int, acc: Seq<(Seq<u8>, Val)>)
    ensures
        dict_from(s, p, acc) matches Ok((v, q)) ==> p < q <= s.len(),
    decreases s.len() - p, 1int,
{
    if 0 <= p <= s.len() && !(p < s.len() && s[p] == 101u8) {
        if let Ok((k, q)) = bytes_at(s, p) {
            if q > p && q <= s.len() {
                lemma_value_at_progress(s, q);
                if let Ok((v, r)) = value_at(s, q) {
                    if r < s.len() && r > q {
                        lemma_dict_from_progress(s, r, super::model::dict_insert(acc, k, v));
                    }
                }
            }
        }
    }
}

/// Stepping over one equal byte leaves the lexicographic comparison unchanged.
pub proof fn lemma_lex_lt_skip(a: Seq<u8>, b: Seq<u8>, i: int)
    requires
        0 <= i < a.len(),
        i < b.len(),
        a[i] == b[i],
    ensures
        lex_lt(a.skip(i), b.skip(i)) == lex_lt(a.skip(i + 1), b.skip(i + 1)),
{
    assert(a.skip(i).drop_first() =~= a.skip(i + 1));
    assert(b.skip(i).drop_first() =~= b.skip(i + 1));
}

/// A prefix of a digit string denotes no more than the whole string.
pub proof fn lemma_digits_value_prefix(s: Seq<u8>, k: int)
    requires
        0 <= k <= s.len(),
    ensures
        digits_value(s.subrange(0, k)) <= digits_value(s),
    decreases s.len() - k,
{
    if k < s.len() {
        lemma_digits_value_prefix(s, k + 1);
        assert(s.subrange(0, k + 1).drop_last() =~= s.subrange(0, k));
    } else {
        assert(s.subrange(0, k) =~= s);
    }
}


pub proof fn lemma_list_view_step(s: Seq<Value>, i: int)
    requires
        0 <= i < s.len(),
    ensures
        list_view(s.subrange(0, i + 1)) == list_view(s.subrange(0, i)).push(value_view(s[i])),
{
    assert(s.subrange(0, i + 1).subrange(0, i) =~= s.subrange(0, i));
}

pub proof fn lemma_dict_view_step(s: Seq<(Vec<u8>, Value)>, i: int)
    requires
        0 <= i < s.len(),
    ensures
        dict_view(s.subrange(0, i + 1)) == dict_view(s.subrange(0, i)).push(
            (s[i].0@, value_view(s[i].1)),
        ),
{
    assert(s.subrange(0, i + 1).subrange(0, i) =~= s.subrange(0, i));
}

pub proof fn lemma_enc_list_push(x: Seq<Val>, y: Val)
    ensures
        enc_list(x.push(y)) == enc_list(x) + enc(y),
{
    assert(x.push(y).subrange(0, x.len() as int) =~= x);
}

pub proof fn lemma_enc_dict_push(x: Seq<(Seq<u8>, Val)>, k: Seq<u8>, v: Val)
    ensures
        enc_dict(x.push((k, v))) == enc_dict(x) + enc_bytes(k) + enc(v),
{
    assert(x.push((k, v)).subrange(0, x.len() as int) =~= x);
}

} // verus!

verus! {

pub proof fn lemma_lex_lt_irrefl(a: Seq<u8>)
    ensures
        !lex_lt(a, a),
    decreases a.len(),
{
    if a.len() > 0 {
        lemma_lex_lt_irrefl(a.drop_first());
    }
}

pub proof fn lemma_lex_lt_asym(a: Seq<u8>, b: Seq<u8>)
    ensures
        lex_lt(a, b) ==> !lex_lt(b, a),
    decreases a.len(),
{
    if a.len() > 0 && b.len() > 0 && a[0] == b[0] {
        lemma_lex_lt_asym(a.drop_first(), b.drop_first());
    }
}

pub proof fn lemma_lex_lt_trans(a: Seq<u8>, b: Seq<u8>, c: Seq<u8>)
    requires
        lex_lt(a, b),
        lex_lt(b, c),
    ensures
        lex_lt(a, c),
    decreases a.len(),
{
    if a.len() > 0 && b.len() > 0 && c.len() > 0 && a[0] == b[0] && b[0] == c[0] {
        lemma_lex_lt_trans(a.drop_first(), b.drop_first(), c.drop_first());
    }
}

pub proof fn lemma_lex_lt_total(a: Seq<u8>, b: Seq<u8>)
    ensures
        a != b ==> lex_lt(a, b) || lex_lt(b, a),
    decreases a.len(),
{
    if a.len() > 0 && b.len() > 0 && a[0] == b[0] {
        lemma_lex_lt_total(a.drop_first(), b.drop_first());
        if a.drop_first() == b.drop_first() {
            assert(a =~= seq![a[0]] + a.drop_first());
            assert(b =~= seq![b[0]] + b.drop_first());
        }
    } else if a.len() == 0 && b.len() == 0 {
        assert(a =~= b);
    }
}

pub proof fn lemma_lower_bound(d: Seq<(Seq<u8>, Val)>, k: Seq<u8>, i: int)
    requires
        0 <= i <= d.len(),
    ensures
        i <= lower_bound(d, k, i) <= d.len(),
        forall|j: int| i <= j < lower_bound(d, k, i) ==> lex_lt(#[trigger] d[j].0, k),
        lower_bound(d, k, i) < d.len() ==> !lex_lt(d[lower_bound(d, k, i)].0, k),
    decreases d.len() - i,
{
    if i < d.len() && lex_lt(d[i].0, k) {
        lemma_lower_bound(d, k, i + 1);
    }
}

pub proof fn lemma_wf_list(s: Seq<Val>)
    ensures
        wf_list(s) <==> forall|j: int| 0 <= j < s.len() ==> wf(#[trigger] s[j]),
    decreases s.len(),
{
    if s.len() > 0 {
        let t = s.subrange(0, s.len() - 1);
        lemma_wf_list(t);
        assert(wf_list(s) == (wf_list(t) && wf(s[s.len() - 1])));
        if forall|j: int| 0 <= j < s.len() ==> wf(#[trigger] s[j]) {
            assert forall|j: int| 0 <= j < t.len() implies wf(#[trigger] t[j]) by {
                assert(t[j] == s[j]);
            }
        }
        if wf_list(s) {
            assert forall|j: int| 0 <= j < s.len() implies wf(#[trigger] s[j]) by {
                if j < t.len() {
                    assert(t[j] == s[j]);
                }
            }
        }
    }
}

pub proof fn lemma_wf_dict(s: Seq<(Seq<u8>, Val)>)
    ensures
        wf_dict(s) <==> forall|j: int| 0 <= j < s.len() ==> wf(#[trigger] s[j].1),
    decreases s.len(),
{
    if s.len() > 0 {
        let t = s.subrange(0, s.len() - 1);
        lemma_wf_dict(t);
        assert(wf_dict(s) == (wf_dict(t) && wf(s[s.len() - 1].1)));
        if forall|j: int| 0 <= j < s.len() ==> wf(#[trigger] s[j].1) {
            assert forall|j: int| 0 <= j < t.len() implies wf(#[trigger] t[j].1) by {
                assert(t[j] == s[j]);
            }
        }
        if wf_dict(s) {
            assert forall|j: int| 0 <= j < s.len() implies wf(#[trigger] s[j].1) by {
                if j < t.len() {
                    assert(t[j] == s[j]);
                }
            }
        }
    }
}

/// Inserting keeps the keys increasing.
pub proof fn lemma_dict_insert_sorted(d: Seq<(Seq<u8>, Val)>, k: Seq<u8>, v: Val)
    requires
        keys_sorted(d),
    ensures
        keys_sorted(dict_insert(d, k, v)),
{
    lemma_lower_bound(d, k, 0);
    let i = lower_bound(d, k, 0);
    let r = dict_insert(d, k, v);
    // every key from i on is above k, except an equal key at i
    assert forall|j: int| i <= j < d.len() && (j > i || d[i].0 != k) implies #[trigger] lex_lt(
        k,
        d[j].0,
    ) by {
        lemma_lex_lt_total(d[i].0, k);
        if j > i {
            if d[i].0 == k {
            } else {
                lemma_lex_lt_trans(k, d[i].0, d[j].0);
            }
        }
    }
    if i < d.len() && d[i].0 == k {
        assert forall|a: int, b: int| 0 <= a < b < r.len() implies lex_lt(
            #[trigger] r[a].0,
            #[trigger] r[b].0,
        ) by {
            assert(r[a].0 == d[a].0);
            assert(r[b].0 == d[b].0);
        }
    } else {
        assert forall|a: int, b: int| 0 <= a < b < r.len() implies lex_lt(
            #[trigger] r[a].0,
            #[trigger] r[b].0,
        ) by {
            if b < i {
                assert(r[a] == d[a] && r[b] == d[b]);
            } else if b == i {
                assert(r[a] == d[a]);
            } else if a < i {
                assert(r[a] == d[a] && r[b] == d[b - 1]);
                lemma_lex_lt_trans(d[a].0, k, d[b - 1].0);
            } else if a == i {
                assert(r[b] == d[b - 1]);
            } else {
                assert(r[a] == d[a - 1] && r[b] == d[b - 1]);
            }
        }
    }
}

/// Inserting keeps the keys increasing and every value well-formed.
pub proof fn lemma_dict_insert_wf(d: Seq<(Seq<u8>, Val)>, k: Seq<u8>, v: Val)
    requires
        keys_sorted(d),
        wf_dict(d),
        wf(v),
    ensures
        keys_sorted(dict_insert(d, k, v)),
        wf_dict(dict_insert(d, k, v)),
{
    lemma_dict_insert_sorted(d, k, v);
    lemma_lower_bound(d, k, 0);
    lemma_wf_dict(d);
    let i = lower_bound(d, k, 0);
    let r = dict_insert(d, k, v);
    assert forall|j: int| 0 <= j < r.len() implies wf(#[trigger] r[j].1) by {
        if i < d.len() && d[i].0 == k {
            if j != i {
                assert(r[j] == d[j]);
            }
        } else if j < i {
            assert(r[j] == d[j]);
        } else if j > i {
            assert(r[j] == d[j - 1]);
        }
    }
    lemma_wf_dict(r);
}

/// Every value that the parser reads is well-formed.
pub proof fn lemma_value_at_wf(s: Seq<u8>, p: int)
    ensures
        value_at(s, p) matches Ok((v, q)) ==> wf(v),
    decreases s.len() - p, 0int,
{
    if 0 <= p < s.len() {
        if s[p] == 108u8 {
            lemma_list_from_wf(s, p + 1, Seq::empty());
        } else if s[p] == 100u8 {
            lemma_dict_from_wf(s, p + 1, Seq::empty());
        }
    }
}

pub proof fn lemma_list_from_wf(s: Seq<u8>, p: int, acc: Seq<Val>)
    requires
        wf_list(acc),
    ensures
        list_from(s, p, acc) matches Ok((v, q)) ==> wf(v),
    decreases s.len() - p, 1int,
{
    if 0 <= p <= s.len() && !(p < s.len() && s[p] == 101u8) {
        lemma_value_at_wf(s, p);
        if let Ok((v, q)) = value_at(s, p) {
            if q < s.len() && q > p {
                assert(acc.push(v).subrange(0, acc.len() as int) =~= acc);
                lemma_list_from_wf(s, q, acc.push(v));
            }
        }
    }
}

pub proof fn lemma_dict_from_wf(s: Seq<u8>, p: int, acc: Seq<(Seq<u8>, Val)>)
    requires
        keys_sorted(acc),
        wf_dict(acc),
    ensures
        dict_from(s, p, acc) matches Ok((v, q)) ==> wf(v),
    decreases s.len() - p, 1int,
{
    if 0 <= p <= s.len() && !(p < s.len() && s[p] == 101u8) {
        if let Ok((k, q)) = bytes_at(s, p) {
            if q > p && q <= s.len() {
                lemma_value_at_wf(s, q);
                if let Ok((v, r)) = value_at(s, q) {
                    if r < s.len() && r > q {
                        lemma_dict_insert_wf(acc, k, v);
                        lemma_dict_from_wf(s, r, dict_insert(acc, k, v));
                    }
                }
            }
        }
    }
}

} // verus!

verus! {

pub proof fn lemma_list_within(s: Seq<Val>, n: nat)
    ensures
        list_within(s, n) <==> forall|j: int| 0 <= j < s.len() ==> bytes_within(#[trigger] s[j], n),
    decreases s.len(),
{
    if s.len() > 0 {
        let t = s.subrange(0, s.len() - 1);
        lemma_list_within(t, n);
        if forall|j: int| 0 <= j < s.len() ==> bytes_within(#[trigger] s[j], n) {
            assert forall|j: int| 0 <= j < t.len() implies bytes_within(#[trigger] t[j], n) by {
                assert(t[j] == s[j]);
            }
        }
        if list_within(s, n) {
            assert forall|j: int| 0 <= j < s.len() implies bytes_within(#[trigger] s[j], n) by {
                if j < t.len() {
                    assert(t[j] == s[j]);
                }
            }
        }
    }
}

pub proof fn lemma_dict_within(s: Seq<(Seq<u8>, Val)>, n: nat)
    ensures
        dict_within(s, n) <==> forall|j: int|
            0 <= j < s.len() ==> bytes_within(#[trigger] s[j].1, n),
    decreases s.len(),
{
    if s.len() > 0 {
        let t = s.subrange(0, s.len() - 1);
        lemma_dict_within(t, n);
        if forall|j: int| 0 <= j < s.len() ==> bytes_within(#[trigger] s[j].1, n) {
            assert forall|j: int| 0 <= j < t.len() implies bytes_within(#[trigger] t[j].1, n) by {
                assert(t[j] == s[j]);
            }
        }
        if dict_within(s, n) {
            assert forall|j: int| 0 <= j < s.len() implies bytes_within(#[trigger] s[j].1, n) by {
                if j < t.len() {
                    assert(t[j] == s[j]);
                }
            }
        }
    }
}

/// Every byte string that the parser reads is no longer than the input.
pub proof fn lemma_value_at_within(s: Seq<u8>, p: int)
    ensures
        value_at(s, p) matches Ok((v, q)) ==> bytes_within(v, s.len()),
    decreases s.len() - p, 0int,
{
    if 0 <= p < s.len() {
        if s[p] == 108u8 {
            lemma_list_from_within(s, p + 1, Seq::empty());
        } else if s[p] == 100u8 {
            lemma_dict_from_within(s, p + 1, Seq::empty());
        } else {
            lemma_find_byte(s, p, 58u8);
        }
    }
}

pub proof fn lemma_list_from_within(s: Seq<u8>, p: int, acc: Seq<Val>)
    requires
        list_within(acc, s.len()),
    ensures
        list_from(s, p, acc) matches Ok((v, q)) ==> bytes_within(v, s.len()),
    decreases s.len() - p, 1int,
{
    if 0 <= p <= s.len() && !(p < s.len() && s[p] == 101u8) {
        lemma_value_at_within(s, p);
        if let Ok((v, q)) = value_at(s, p) {
            if q < s.len() && q > p {
                assert(acc.push(v).subrange(0, acc.len() as int) =~= acc);
                lemma_list_from_within(s, q, acc.push(v));
            }
        }
    }
}

pub proof fn lemma_dict_from_within(s: Seq<u8>, p: int, acc: Seq<(Seq<u8>, Val)>)
    requires
        dict_within(acc, s.len()),
    ensures
        dict_from(s, p, acc) matches Ok((v, q)) ==> bytes_within(v, s.len()),
    decreases s.len() - p, 1int,
{
    if 0 <= p <= s.len() && !(p < s.len() && s[p] == 101u8) {
        if let Ok((k, q)) = bytes_at(s, p) {
            if q > p && q <= s.len() {
                lemma_value_at_within(s, q);
                if let Ok((v, r)) = value_at(s, q) {
                    if r < s.len() && r > q {
                        let d2 = dict_insert(acc, k, v);
                        lemma_dict_within(acc, s.len());
                        lemma_lower_bound(acc, k, 0);
                        assert forall|j: int| 0 <= j < d2.len() implies bytes_within(
                            #[trigger] d2[j].1,
                            s.len(),
                        ) by {
                            let i = lower_bound(acc, k, 0);
                            if i < acc.len() && acc[i].0 == k {
                                if j != i {
                                    assert(d2[j] == acc[j]);
                                }
                            } else {
                                if j < i {
                                    assert(d2[j] == acc[j]);
                                } else if j > i {
                                    assert(d2[j] == acc[j - 1]);
                                }
                            }
                        }
                        lemma_dict_within(d2, s.len());
                        lemma_dict_from_within(s, r, d2);
                    }
                }
            }
        }
    }
}

} // verus!

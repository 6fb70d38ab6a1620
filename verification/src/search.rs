use vstd::hash_set::StringHashSet;
use vstd::prelude::*;
use vstd::utf8::encode_utf8;

use crate::text::{byte_len, lemma_encode_utf8_concat, string_from_chars, utf8_len};

verus! {

// ---------------------------------------------------------------- model

/// ASCII letters and digits.
pub open spec fn is_ascii_alnum(c: char) -> bool {
    let u = c as u32;
    (48 <= u <= 57) || (65 <= u <= 90) || (97 <= u <= 122)
}

/// Characters of the CJK Unified Ideographs, Hiragana/Katakana and Hangul Syllables blocks.
pub open spec fn spec_is_cjk(c: char) -> bool {
    let u = c as u32;
    (0x4E00 <= u <= 0x9FFF) || (0x3040 <= u <= 0x30FF) || (0xAC00 <= u <= 0xD7AF)
}

/// ASCII lower case of a character; other characters are kept.
pub open spec fn lower(c: char) -> char {
    if 65 <= c as u32 <= 90 {
        ((c as u32 + 32) as u8) as char
    } else {
        c
    }
}

/// All runs of `n` consecutive characters, in order.
pub open spec fn windows(cs: Seq<char>, n: nat) -> Seq<Seq<char>> {
    if cs.len() < n {
        Seq::empty()
    } else {
        Seq::new((cs.len() - n + 1) as nat, |i: int| cs.subrange(i, i + n))
    }
}

/// The tokens of a run of CJK characters: its 2-grams, then its 3-grams.
pub open spec fn cjk_tokens(cs: Seq<char>) -> Seq<Seq<char>> {
    windows(cs, 2) + windows(cs, 3)
}

/// The tokenizer's state: tokens so far, the pending ASCII word, the pending CJK run.
pub type ScanState = (Seq<Seq<char>>, Seq<char>, Seq<char>);

pub open spec fn flush_ascii(t: Seq<Seq<char>>, a: Seq<char>) -> Seq<Seq<char>> {
    if a.len() > 0 {
        t.push(a)
    } else {
        t
    }
}

pub open spec fn flush_cjk(t: Seq<Seq<char>>, k: Seq<char>) -> Seq<Seq<char>> {
    if k.len() > 0 {
        t + cjk_tokens(k)
    } else {
        t
    }
}

/// One character of input: ASCII letters and digits extend the pending word (in lower
/// case), CJK characters extend the pending run, anything else ends both.
pub open spec fn scan_step(st: ScanState, ch: char) -> ScanState {
    let (t, a, k) = st;
    if is_ascii_alnum(ch) {
        (flush_cjk(t, k), a.push(lower(ch)), Seq::empty())
    } else if spec_is_cjk(ch) {
        (flush_ascii(t, a), Seq::empty(), k.push(ch))
    } else {
        (flush_cjk(flush_ascii(t, a), k), Seq::empty(), Seq::empty())
    }
}

pub open spec fn scan(cs: Seq<char>) -> ScanState
    decreases cs.len(),
{
    if cs.len() == 0 {
        (Seq::empty(), Seq::empty(), Seq::empty())
    } else {
        scan_step(scan(cs.drop_last()), cs.last())
    }
}

/// The tokens of a name, in the order in which they are found.
pub open spec fn name_tokens(cs: Seq<char>) -> Seq<Seq<char>> {
    let (t, a, k) = scan(cs);
    flush_cjk(flush_ascii(t, a), k)
}

/// Joining tokens: each new token is appended after a space until one would make the
/// text longer than `max_len` bytes; a token seen before is skipped. The state is the
/// text, the set of tokens seen, and whether the limit was reached.
pub open spec fn render(tokens: Seq<Seq<char>>, max_len: int) -> (Seq<char>, Set<Seq<char>>, bool)
    decreases tokens.len(),
{
    if tokens.len() == 0 {
        (Seq::empty(), Set::empty(), false)
    } else {
        let (out, seen, done) = render(tokens.drop_last(), max_len);
        let t = tokens.last();
        if done || t.len() == 0 || seen.contains(t) {
            (out, seen, done)
        } else {
            let seen2 = seen.insert(t);
            let sep: int = if out.len() > 0 { 1 } else { 0 };
            if byte_len(out) + byte_len(t) + sep > max_len {
                (out, seen2, true)
            } else if out.len() > 0 {
                (out + seq![' '] + t, seen2, false)
            } else {
                (t, seen2, false)
            }
        }
    }
}

/// The search text of a name.
pub open spec fn spec_name_ngram(input: Seq<char>, max_len: int) -> Seq<char> {
    render(name_tokens(input), max_len).0
}

pub open spec fn chars_view(v: Seq<Vec<char>>) -> Seq<Seq<char>> {
    v.map_values(|s: Vec<char>| s@)
}

// ---------------------------------------------------------------- executable code

/// Whether `ch` is a CJK character.
pub fn is_cjk(ch: char) -> (r: bool)
    ensures
        r == spec_is_cjk(ch),
{
    let u = ch as u32;
    (0x4E00 <= u && u <= 0x9FFF) || (0x3040 <= u && u <= 0x30FF) || (0xAC00 <= u && u <= 0xD7AF)
}

fn is_ascii_alphanumeric(ch: char) -> (r: bool)
    ensures
        r == is_ascii_alnum(ch),
{
    let u = ch as u32;
    (48 <= u && u <= 57) || (65 <= u && u <= 90) || (97 <= u && u <= 122)
}

fn to_ascii_lowercase(ch: char) -> (r: char)
    ensures
        r == lower(ch),
{
    let u = ch as u32;
    if 65 <= u && u <= 90 {
        ((u + 32) as u8) as char
    } else {
        ch
    }
}

/// Appends every run of `n` consecutive characters of `chars`.
fn push_windows(tokens: &mut Vec<Vec<char>>, chars: &Vec<char>, n: usize)
    requires
        n >= 1,
    ensures
        chars_view(final(tokens)@) == chars_view(old(tokens)@) + windows(chars@, n as nat),
{
    let ghost start = chars_view(tokens@);
    if chars.len() < n {
        assert(chars_view(tokens@) =~= start + windows(chars@, n as nat));
        return;
    }
    let count = chars.len() - n + 1;
    let mut i: usize = 0;
    while i < count
        invariant
            n >= 1,
            chars@.len() >= n,
            count == chars@.len() - n + 1,
            i <= count,
            chars_view(tokens@) =~= start + windows(chars@, n as nat).subrange(0, i as int),
        decreases count - i,
    {
        let mut window: Vec<char> = Vec::new();
        let mut j: usize = 0;
        while j < n
            invariant
                n >= 1,
                chars@.len() >= n,
                i < count,
                count == chars.len() - n + 1,
                j <= n,
                window@ =~= chars@.subrange(i as int, i + j),
            decreases n - j,
        {
            window.push(chars[i + j]);
            j = j + 1;
        }
        let ghost before = tokens@;
        tokens.push(window);
        assert(chars_view(tokens@) =~= chars_view(before).push(chars@.subrange(i as int, i + n)));
        i = i + 1;
    }
}

/// Appends the 2-grams and then the 3-grams of a run of CJK characters.
pub fn push_cjk_tokens(tokens: &mut Vec<Vec<char>>, chars: &Vec<char>)
    ensures
        chars_view(final(tokens)@) == chars_view(old(tokens)@) + cjk_tokens(chars@),
{
    let ghost start = chars_view(tokens@);
    push_windows(tokens, chars, 2);
    push_windows(tokens, chars, 3);
    assert(chars_view(tokens@) =~= start + cjk_tokens(chars@));
}

/// The tokens of a name: ASCII words in lower case, and the 2-grams and 3-grams of
/// each run of CJK characters.
fn tokenize(input: &str) -> (tokens: Vec<Vec<char>>)
    ensures
        chars_view(tokens@) == name_tokens(input@),
{
    let mut tokens: Vec<Vec<char>> = Vec::new();
    let mut ascii: Vec<char> = Vec::new();
    let mut cjk: Vec<char> = Vec::new();
    for ch in iter: input.chars()
        invariant
            iter.seq() == input@,
            scan(input@.take(iter.index())) == (chars_view(tokens@), ascii@, cjk@),
    {
        let ghost prefix = input@.take(iter.index());
        let ghost next = input@.take(iter.index() + 1);
        assert(next.drop_last() =~= prefix);
        if is_ascii_alphanumeric(ch) {
            if cjk.len() > 0 {
                push_cjk_tokens(&mut tokens, &cjk);
                cjk.clear();
            }
            ascii.push(to_ascii_lowercase(ch));
        } else if is_cjk(ch) {
            if ascii.len() > 0 {
                let ghost before = tokens@;
                let word = ascii;
                ascii = Vec::new();
                tokens.push(word);
                assert(chars_view(tokens@) =~= chars_view(before).push(word@));
            }
            cjk.push(ch);
        } else {
            if ascii.len() > 0 {
                let ghost before = tokens@;
                let word = ascii;
                ascii = Vec::new();
                tokens.push(word);
                assert(chars_view(tokens@) =~= chars_view(before).push(word@));
            }
            if cjk.len() > 0 {
                push_cjk_tokens(&mut tokens, &cjk);
                cjk.clear();
            }
        }
        assert(scan(next) == (chars_view(tokens@), ascii@, cjk@));
    }
    assert(input@.take(input@.len() as int) =~= input@);
    if ascii.len() > 0 {
        let ghost before = tokens@;
        let ghost word = ascii@;
        tokens.push(ascii);
        assert(chars_view(tokens@) =~= chars_view(before).push(word));
    }
    if cjk.len() > 0 {
        push_cjk_tokens(&mut tokens, &cjk);
    }
    tokens
}


/// Once the limit is reached, later tokens change nothing.
proof fn lemma_render_done(tokens: Seq<Seq<char>>, max_len: int, k: int, j: int)
    requires
        0 <= k <= j <= tokens.len(),
        render(tokens.take(k), max_len).2,
    ensures
        render(tokens.take(j), max_len) == render(tokens.take(k), max_len),
    decreases j - k,
{
    if j > k {
        lemma_render_done(tokens, max_len, k, j - 1);
        assert(tokens.take(j).drop_last() =~= tokens.take(j - 1));
    }
}

/// Builds the search text of a name: its ASCII words in lower case and the 2-grams and
/// 3-grams of its CJK runs, each once, separated by spaces, as many as fit in
/// `max_len` bytes.
pub fn build_name_ngram(input: &str, max_len: usize) -> (r: String)
    ensures
        r@ == spec_name_ngram(input@, max_len as int),
{
    let tokens = tokenize(input);
    let ghost toks = chars_view(tokens@);
    let mut seen = StringHashSet::new();
    let mut output: Vec<char> = Vec::new();
    let mut out_len: u128 = 0;
    let mut i: usize = 0;
    assert(toks.take(0) =~= Seq::<Seq<char>>::empty());
    while i < tokens.len()
        invariant
            toks == chars_view(tokens@),
            toks == name_tokens(input@),
            toks.len() == tokens@.len(),
            i <= tokens.len(),
            render(toks.take(i as int), max_len as int) == (output@, seen@, false),
            out_len == byte_len(output@),
            out_len <= max_len,
        decreases tokens.len() - i,
    {
        let token = &tokens[i];
        let ghost tv = token@;
        assert(toks.take(i + 1).drop_last() =~= toks.take(i as int));
        assert(toks.take(i + 1).last() == tv);
        let ghost seen0 = seen@;
        let ghost out0 = output@;
        if token.len() > 0 && seen.insert(string_from_chars(token)) {
            let tok_len = utf8_len(token);
            let sep: u128 = if output.len() == 0 {
                0
            } else {
                1
            };
            if out_len + tok_len + sep > max_len as u128 {
                proof {
                    lemma_render_done(toks, max_len as int, i + 1, toks.len() as int);
                    assert(toks.take(toks.len() as int) =~= toks);
                }
                return string_from_chars(&output);
            }
            if sep == 1 {
                output.push(' ');
            }
            let mut j: usize = 0;
            let ghost mid = output@;
            while j < token.len()
                invariant
                    j <= tv.len(),
                    tv == token@,
                    output@ == mid + tv.take(j as int),
                decreases token.len() - j,
            {
                output.push(token[j]);
                assert(output@ =~= mid + tv.take(j + 1));
                j = j + 1;
            }
            assert(tv.take(tv.len() as int) =~= tv);
            proof {
                lemma_encode_utf8_concat(mid, tv);
                if sep == 1 {
                    assert(mid =~= out0 + seq![' ']);
                    lemma_encode_utf8_concat(out0, seq![' ']);
                    assert(encode_utf8(seq![' ']).len() == 1) by {
                        assert(seq![' '].drop_first() =~= Seq::<char>::empty());
                        assert(encode_utf8(Seq::<char>::empty()) =~= Seq::<u8>::empty());
                        assert(encode_utf8(seq![' ']) =~= vstd::utf8::encode_scalar(' ' as u32));
                    }
                } else {
                    assert(mid =~= Seq::<char>::empty());
                    assert(encode_utf8(mid) =~= Seq::<u8>::empty());
                }
            }
            out_len = out_len + tok_len + sep;
            assert(sep == 1 ==> output@ =~= out0 + seq![' '] + tv);
            assert(sep == 0 ==> output@ =~= tv);
        } else {
            assert(seen@ =~= seen0);
        }
        i = i + 1;
    }
    assert(toks.take(toks.len() as int) =~= toks);
    string_from_chars(&output)
}


proof fn lemma_render_fits(tokens: Seq<Seq<char>>, max_len: int)
    requires
        max_len >= 0,
    ensures
        byte_len(render(tokens, max_len).0) <= max_len,
    decreases tokens.len(),
{
    if tokens.len() > 0 {
        lemma_render_fits(tokens.drop_last(), max_len);
        let (out, seen, done) = render(tokens.drop_last(), max_len);
        let t = tokens.last();
        if !(done || t.len() == 0 || seen.contains(t)) && out.len() > 0 {
            lemma_encode_utf8_concat(out, seq![' ']);
            lemma_encode_utf8_concat(out + seq![' '], t);
            vstd::utf8::is_ascii_chars_encode_utf8(seq![' ']);
        }
    }
}

/// Law: the search text of a name never takes more than `max_len` bytes of UTF-8.
pub proof fn law_ngram_fits(input: Seq<char>, max_len: int)
    requires
        max_len >= 0,
    ensures
        byte_len(spec_name_ngram(input, max_len)) <= max_len,
{
    lemma_render_fits(name_tokens(input), max_len);
}


/// Words joined by single spaces.
pub open spec fn join_words(ws: Seq<Seq<char>>) -> Seq<char>
    decreases ws.len(),
{
    if ws.len() == 0 {
        Seq::empty()
    } else if ws.len() == 1 {
        ws[0]
    } else {
        join_words(ws.drop_last()) + seq![' '] + ws.last()
    }
}

/// Each word of `ws` fits: the words before it, a space, and it take at most `max_len`
/// bytes.
pub open spec fn words_fit(ws: Seq<Seq<char>>, max_len: int) -> bool {
    forall|i: int|
        0 <= i < ws.len() ==> byte_len(join_words(ws.take(i))) + byte_len(#[trigger] ws[i]) + (if i > 0 {
            1int
        } else {
            0int
        }) <= max_len
}

/// Every three-character CJK token comes after both of its two-character parts.
pub open spec fn grams_before(t: Seq<Seq<char>>) -> bool {
    forall|j: int|
        0 <= j < t.len() && (#[trigger] t[j]).len() == 3 && cjk_run(t[j]) ==> t.take(j).contains(
            t[j].subrange(0, 2),
        ) && t.take(j).contains(t[j].subrange(1, 3))
}

/// Characters of the CJK blocks only.
pub open spec fn cjk_run(w: Seq<char>) -> bool {
    forall|i: int| 0 <= i < w.len() ==> spec_is_cjk(#[trigger] w[i])
}

proof fn lemma_grams_before_prefix(t: Seq<Seq<char>>, n: int)
    requires
        grams_before(t),
        0 <= n <= t.len(),
    ensures
        grams_before(t.take(n)),
{
    let u = t.take(n);
    assert forall|j: int| 0 <= j < u.len() && (#[trigger] u[j]).len() == 3 && cjk_run(u[j]) implies u.take(j).contains(
        u[j].subrange(0, 2),
    ) && u.take(j).contains(u[j].subrange(1, 3)) by {
        assert(u[j] == t[j]);
        assert(u.take(j) =~= t.take(j));
    }
}

proof fn lemma_render_words(tokens: Seq<Seq<char>>, max_len: int) -> (ws: Seq<Seq<char>>)
    ensures
        render(tokens, max_len).0 == join_words(ws),
        ws.no_duplicates(),
        forall|i: int|
            0 <= i < ws.len() ==> (#[trigger] ws[i]).len() > 0 && tokens.contains(ws[i]) && render(tokens, max_len).1.contains(
                ws[i],
            ),
        (render(tokens, max_len).0.len() > 0) == (ws.len() > 0),
        !render(tokens, max_len).2 ==> forall|x: Seq<char>| render(tokens, max_len).1.contains(x) <==> ws.contains(x),
        !render(tokens, max_len).2 ==> forall|i: int|
            0 <= i < tokens.len() && (#[trigger] tokens[i]).len() > 0 ==> render(tokens, max_len).1.contains(tokens[i]),
        words_fit(ws, max_len),
        grams_before(tokens) ==> grams_before(ws),
    decreases tokens.len(),
{
    if tokens.len() == 0 {
        Seq::empty()
    } else {
        let prev = tokens.drop_last();
        let ws0 = lemma_render_words(prev, max_len);
        let (out, seen, done) = render(prev, max_len);
        let t = tokens.last();
        assert forall|i: int| 0 <= i < ws0.len() implies tokens.contains(#[trigger] ws0[i]) by {
            let k = choose|k: int| 0 <= k < prev.len() && prev[k] == ws0[i];
            assert(tokens[k] == ws0[i]);
        }
        if grams_before(tokens) {
            lemma_grams_before_prefix(tokens, tokens.len() - 1);
            assert(tokens.take(tokens.len() - 1) =~= prev);
        }
        if done || t.len() == 0 || seen.contains(t) {
            if !done {
                assert forall|i: int| 0 <= i < tokens.len() && (#[trigger] tokens[i]).len() > 0 implies seen.contains(
                    tokens[i],
                ) by {
                    if i < prev.len() {
                        assert(prev[i] == tokens[i]);
                    }
                }
            }
            ws0
        } else {
            let sep: int = if out.len() > 0 {
                1
            } else {
                0
            };
            if byte_len(out) + byte_len(t) + sep > max_len {
                ws0
            } else {
                let ws = ws0.push(t);
                assert(tokens[tokens.len() - 1] == t);
                assert forall|i: int, j: int| 0 <= i < j < ws.len() implies ws[i] != ws[j] by {
                    if j == ws.len() - 1 {
                        assert(ws[i] == ws0[i]);
                        assert(seen.contains(ws0[i]));
                    } else {
                        assert(ws[i] == ws0[i] && ws[j] == ws0[j]);
                    }
                }
                assert forall|i: int| 0 <= i < ws.len() implies (#[trigger] ws[i]).len() > 0 && tokens.contains(ws[i])
                    && render(tokens, max_len).1.contains(ws[i]) by {
                    if i < ws0.len() {
                        assert(ws[i] == ws0[i]);
                    }
                }
                if out.len() > 0 {
                    assert(ws.drop_last() =~= ws0);
                } else {
                    assert(ws0.len() == 0);
                    assert(ws =~= seq![t]);
                }
                let seen2 = seen.insert(t);
                assert forall|x: Seq<char>| seen2.contains(x) <==> ws.contains(x) by {
                    if ws.contains(x) {
                        let k = choose|k: int| 0 <= k < ws.len() && ws[k] == x;
                        if k < ws0.len() {
                            assert(ws0[k] == x);
                        }
                    }
                    if ws0.contains(x) {
                        let k = choose|k: int| 0 <= k < ws0.len() && ws0[k] == x;
                        assert(ws[k] == x);
                    }
                    if x == t {
                        assert(ws[ws.len() - 1] == t);
                    }
                }
                assert forall|i: int| 0 <= i < tokens.len() && (#[trigger] tokens[i]).len() > 0 implies seen2.contains(
                    tokens[i],
                ) by {
                    if i < prev.len() {
                        assert(prev[i] == tokens[i]);
                    }
                }
                assert(ws.take(ws0.len() as int) =~= ws0);
                assert forall|i: int| 0 <= i < ws.len() implies byte_len(join_words(ws.take(i))) + byte_len(
                    #[trigger] ws[i],
                ) + (if i > 0 {
                    1int
                } else {
                    0int
                }) <= max_len by {
                    if i < ws0.len() {
                        assert(ws.take(i) =~= ws0.take(i));
                        assert(ws[i] == ws0[i]);
                        assert(byte_len(join_words(ws0.take(i))) + byte_len(ws0[i]) + (if i > 0 {
                            1int
                        } else {
                            0int
                        }) <= max_len);
                    }
                }
                if grams_before(tokens) {
                    assert forall|j: int| 0 <= j < ws.len() && (#[trigger] ws[j]).len() == 3 && cjk_run(ws[j]) implies ws.take(
                        j,
                    ).contains(ws[j].subrange(0, 2)) && ws.take(j).contains(ws[j].subrange(1, 3)) by {
                        if j < ws0.len() {
                            assert(ws[j] == ws0[j]);
                            assert(ws.take(j) =~= ws0.take(j));
                        } else {
                            let last = tokens.len() - 1;
                            assert(tokens[last] == t);
                            let g1 = t.subrange(0, 2);
                            let g2 = t.subrange(1, 3);
                            assert(tokens.take(last).contains(g1));
                            assert(tokens.take(last).contains(g2));
                            let k1 = choose|k: int| 0 <= k < last && tokens.take(last)[k] == g1;
                            let k2 = choose|k: int| 0 <= k < last && tokens.take(last)[k] == g2;
                            assert(prev[k1] == g1 && prev[k2] == g2);
                            assert(prev[k1].len() > 0 && prev[k2].len() > 0);
                            assert(seen.contains(g1) && seen.contains(g2));
                            assert(ws0.contains(g1) && ws0.contains(g2));
                        }
                    }
                }
                ws
            }
        }
    }
}

/// Law: the search text of a name lists each word once: it is some distinct, non-empty
/// tokens of the name joined by single spaces.
pub proof fn law_ngram_words_distinct(input: Seq<char>, max_len: int)
    ensures
        exists|ws: Seq<Seq<char>>|
            spec_name_ngram(input, max_len) == #[trigger] join_words(ws) && ws.no_duplicates() && forall|i: int|
                0 <= i < ws.len() ==> (#[trigger] ws[i]).len() > 0 && name_tokens(input).contains(ws[i]),
{
    let ws = lemma_render_words(name_tokens(input), max_len);
    assert(spec_name_ngram(input, max_len) == join_words(ws));
}


/// `a` is `b` cut after one of its words: empty, all of `b`, or the start of `b` up to
/// just before a space.
pub open spec fn word_prefix(a: Seq<char>, b: Seq<char>) -> bool {
    ||| a.len() == 0
    ||| a == b
    ||| (b.len() > a.len() && b.subrange(0, a.len() as int + 1) == a + seq![' '])
}

proof fn lemma_word_prefix_append(a: Seq<char>, b: Seq<char>, t: Seq<char>)
    requires
        word_prefix(a, b),
    ensures
        word_prefix(a, if b.len() > 0 { b + seq![' '] + t } else { t }),
{
    let b2 = if b.len() > 0 { b + seq![' '] + t } else { t };
    if a.len() > 0 {
        if a == b {
            assert(b2.subrange(0, a.len() as int + 1) =~= a + seq![' ']);
        } else {
            assert(b2.subrange(0, a.len() as int + 1) =~= b.subrange(0, a.len() as int + 1));
        }
    }
}

proof fn lemma_render_budget(tokens: Seq<Seq<char>>, m: int, n: int)
    requires
        m <= n,
    ensures
        !render(tokens, m).2 ==> render(tokens, m) == render(tokens, n),
        word_prefix(render(tokens, m).0, render(tokens, n).0),
    decreases tokens.len(),
{
    if tokens.len() > 0 {
        let prev = tokens.drop_last();
        lemma_render_budget(prev, m, n);
        let (om, sm, dm) = render(prev, m);
        let (on, sn, dn) = render(prev, n);
        let t = tokens.last();
        if !dm {
            assert(om == on && sm == sn && dm == dn);
            if !(t.len() == 0 || sn.contains(t)) {
                lemma_word_prefix_append(om, on, t);
            }
        } else {
            if !(dn || t.len() == 0 || sn.contains(t)) {
                let sep: int = if on.len() > 0 { 1 } else { 0 };
                if byte_len(on) + byte_len(t) + sep <= n {
                    lemma_word_prefix_append(om, on, t);
                }
            }
        }
    }
}

/// Law: raising the byte budget of a name's search text only appends whole words: the
/// text for the smaller budget is empty, the same, or the start of the other up to a
/// space.
pub proof fn law_ngram_budget_extends(input: Seq<char>, m: int, n: int)
    requires
        m <= n,
    ensures
        word_prefix(spec_name_ngram(input, m), spec_name_ngram(input, n)),
{
    lemma_render_budget(name_tokens(input), m, n);
}


// ---------------------------------------------------------------- indexing an index

/// A lower-case ASCII word.
pub open spec fn ascii_word(w: Seq<char>) -> bool {
    &&& w.len() > 0
    &&& forall|i: int| 0 <= i < w.len() ==> is_ascii_alnum(#[trigger] w[i]) && lower(w[i]) == w[i]
}

/// A two- or three-character CJK token.
pub open spec fn cjk_word(w: Seq<char>) -> bool {
    (w.len() == 2 || w.len() == 3) && cjk_run(w)
}

pub open spec fn good_tokens(t: Seq<Seq<char>>) -> bool {
    forall|j: int| 0 <= j < t.len() ==> ascii_word(#[trigger] t[j]) || cjk_word(t[j])
}

pub open spec fn lowered(a: Seq<char>) -> bool {
    forall|i: int| 0 <= i < a.len() ==> is_ascii_alnum(#[trigger] a[i]) && lower(a[i]) == a[i]
}

proof fn lemma_lower_alnum(c: char)
    requires
        is_ascii_alnum(c),
    ensures
        is_ascii_alnum(lower(c)),
        lower(lower(c)) == lower(c),
        !spec_is_cjk(c),
{
}

proof fn lemma_flush_cjk_shape(t: Seq<Seq<char>>, k: Seq<char>)
    requires
        good_tokens(t),
        grams_before(t),
        cjk_run(k),
    ensures
        good_tokens(flush_cjk(t, k)),
        grams_before(flush_cjk(t, k)),
{
    if k.len() > 0 {
        let w2 = windows(k, 2);
        let w3 = windows(k, 3);
        let r = t + w2 + w3;
        assert(flush_cjk(t, k) == r);
        assert forall|j: int| 0 <= j < r.len() implies ascii_word(#[trigger] r[j]) || cjk_word(r[j]) by {
            if j >= t.len() {
                let n: int = if j < t.len() + w2.len() { 2 } else { 3 };
                let p = if j < t.len() + w2.len() { j - t.len() } else { j - t.len() - w2.len() };
                assert(r[j] == k.subrange(p, p + n));
                assert forall|i: int| 0 <= i < r[j].len() implies spec_is_cjk(#[trigger] r[j][i]) by {
                    assert(r[j][i] == k[p + i]);
                }
            }
        }
        assert forall|j: int| 0 <= j < r.len() && (#[trigger] r[j]).len() == 3 && cjk_run(r[j]) implies r.take(j).contains(
            r[j].subrange(0, 2),
        ) && r.take(j).contains(r[j].subrange(1, 3)) by {
            if j < t.len() {
                assert(r[j] == t[j]);
                assert(t.take(j).contains(t[j].subrange(0, 2)));
                assert(t.take(j).contains(t[j].subrange(1, 3)));
                let a = choose|a: int| 0 <= a < t.take(j).len() && t.take(j)[a] == t[j].subrange(0, 2);
                let b = choose|b: int| 0 <= b < t.take(j).len() && t.take(j)[b] == t[j].subrange(1, 3);
                assert(r.take(j)[a] == t.take(j)[a]);
                assert(r.take(j)[b] == t.take(j)[b]);
            } else if j >= t.len() + w2.len() {
                let p = j - t.len() - w2.len();
                assert(r[j] == k.subrange(p, p + 3));
                assert(r[t.len() + p] == k.subrange(p, p + 2));
                assert(r[t.len() + p + 1] == k.subrange(p + 1, p + 3));
                assert(r.take(j)[t.len() + p] == r[t.len() + p]);
                assert(r.take(j)[t.len() + p + 1] == r[t.len() + p + 1]);
                assert(r[j].subrange(0, 2) =~= k.subrange(p, p + 2));
                assert(r[j].subrange(1, 3) =~= k.subrange(p + 1, p + 3));
            } else {
                let p = j - t.len();
                assert(r[j] == k.subrange(p, p + 2));
            }
        }
    }
}

proof fn lemma_scan_shape(cs: Seq<char>)
    ensures
        good_tokens(scan(cs).0),
        grams_before(scan(cs).0),
        lowered(scan(cs).1),
        cjk_run(scan(cs).2),
    decreases cs.len(),
{
    if cs.len() > 0 {
        lemma_scan_shape(cs.drop_last());
        let (t, a, k) = scan(cs.drop_last());
        let ch = cs.last();
        if is_ascii_alnum(ch) {
            lemma_flush_cjk_shape(t, k);
            lemma_lower_alnum(ch);
            let a2 = a.push(lower(ch));
            assert forall|i: int| 0 <= i < a2.len() implies is_ascii_alnum(#[trigger] a2[i]) && lower(a2[i]) == a2[i] by {
                if i < a.len() {
                    assert(a2[i] == a[i]);
                }
            }
        } else if spec_is_cjk(ch) {
            let t2 = flush_ascii(t, a);
            assert(good_tokens(t2)) by {
                if a.len() > 0 {
                    assert forall|j: int| 0 <= j < t2.len() implies ascii_word(#[trigger] t2[j]) || cjk_word(t2[j]) by {
                        if j < t.len() {
                            assert(t2[j] == t[j]);
                        }
                    }
                }
            }
            assert(grams_before(t2)) by {
                if a.len() > 0 {
                    assert forall|j: int| 0 <= j < t2.len() && (#[trigger] t2[j]).len() == 3 && cjk_run(t2[j]) implies t2.take(
                        j,
                    ).contains(t2[j].subrange(0, 2)) && t2.take(j).contains(t2[j].subrange(1, 3)) by {
                        if j < t.len() {
                            assert(t2[j] == t[j]);
                            assert(t2.take(j) =~= t.take(j));
                        } else {
                            assert(t2[j] == a);
                            assert(is_ascii_alnum(a[0]));
                            lemma_lower_alnum(a[0]);
                        }
                    }
                }
            }
            let k2 = k.push(ch);
            assert forall|i: int| 0 <= i < k2.len() implies spec_is_cjk(#[trigger] k2[i]) by {
                if i < k.len() {
                    assert(k2[i] == k[i]);
                }
            }
        } else {
            let t2 = flush_ascii(t, a);
            assert(good_tokens(t2)) by {
                if a.len() > 0 {
                    assert forall|j: int| 0 <= j < t2.len() implies ascii_word(#[trigger] t2[j]) || cjk_word(t2[j]) by {
                        if j < t.len() {
                            assert(t2[j] == t[j]);
                        }
                    }
                }
            }
            assert(grams_before(t2)) by {
                if a.len() > 0 {
                    assert forall|j: int| 0 <= j < t2.len() && (#[trigger] t2[j]).len() == 3 && cjk_run(t2[j]) implies t2.take(
                        j,
                    ).contains(t2[j].subrange(0, 2)) && t2.take(j).contains(t2[j].subrange(1, 3)) by {
                        if j < t.len() {
                            assert(t2[j] == t[j]);
                            assert(t2.take(j) =~= t.take(j));
                        } else {
                            assert(t2[j] == a);
                            assert(is_ascii_alnum(a[0]));
                            lemma_lower_alnum(a[0]);
                        }
                    }
                }
            }
            lemma_flush_cjk_shape(t2, k);
        }
    }
}

proof fn lemma_flush_ascii_shape(t: Seq<Seq<char>>, a: Seq<char>)
    requires
        good_tokens(t),
        grams_before(t),
        lowered(a),
    ensures
        good_tokens(flush_ascii(t, a)),
        grams_before(flush_ascii(t, a)),
{
    let t2 = flush_ascii(t, a);
    if a.len() > 0 {
        assert forall|j: int| 0 <= j < t2.len() implies ascii_word(#[trigger] t2[j]) || cjk_word(t2[j]) by {
            if j < t.len() {
                assert(t2[j] == t[j]);
            }
        }
        assert forall|j: int| 0 <= j < t2.len() && (#[trigger] t2[j]).len() == 3 && cjk_run(t2[j]) implies t2.take(
            j,
        ).contains(t2[j].subrange(0, 2)) && t2.take(j).contains(t2[j].subrange(1, 3)) by {
            if j < t.len() {
                assert(t2[j] == t[j]);
                assert(t2.take(j) =~= t.take(j));
            } else {
                assert(t2[j] == a);
                lemma_lower_alnum(a[0]);
            }
        }
    }
}

proof fn lemma_name_tokens_shape(cs: Seq<char>)
    ensures
        good_tokens(name_tokens(cs)),
        grams_before(name_tokens(cs)),
{
    lemma_scan_shape(cs);
    let (t, a, k) = scan(cs);
    lemma_flush_ascii_shape(t, a);
    lemma_flush_cjk_shape(flush_ascii(t, a), k);
}

/// Scanning `y` on from the state `st`.
pub open spec fn scan_from(st: ScanState, y: Seq<char>) -> ScanState
    decreases y.len(),
{
    if y.len() == 0 {
        st
    } else {
        scan_step(scan_from(st, y.drop_last()), y.last())
    }
}

proof fn lemma_scan_append(x: Seq<char>, y: Seq<char>)
    ensures
        scan(x + y) == scan_from(scan(x), y),
    decreases y.len(),
{
    if y.len() == 0 {
        assert(x + y =~= x);
    } else {
        lemma_scan_append(x, y.drop_last());
        assert((x + y).drop_last() =~= x + y.drop_last());
        assert((x + y).last() == y.last());
    }
}

proof fn lemma_scan_ascii_word(t: Seq<Seq<char>>, w: Seq<char>)
    requires
        lowered(w),
    ensures
        scan_from((t, Seq::empty(), Seq::empty()), w) == (t, w, Seq::<char>::empty()),
    decreases w.len(),
{
    if w.len() > 0 {
        let w0 = w.drop_last();
        assert forall|i: int| 0 <= i < w0.len() implies is_ascii_alnum(#[trigger] w0[i]) && lower(w0[i]) == w0[i] by {
            assert(w0[i] == w[i]);
        }
        lemma_scan_ascii_word(t, w0);
        assert(is_ascii_alnum(w.last()) && lower(w.last()) == w.last());
        assert(w0.push(w.last()) =~= w);
    }
}

proof fn lemma_scan_cjk_word(t: Seq<Seq<char>>, w: Seq<char>)
    requires
        cjk_run(w),
    ensures
        scan_from((t, Seq::empty(), Seq::empty()), w) == (t, Seq::<char>::empty(), w),
    decreases w.len(),
{
    if w.len() > 0 {
        let w0 = w.drop_last();
        assert forall|i: int| 0 <= i < w0.len() implies spec_is_cjk(#[trigger] w0[i]) by {
            assert(w0[i] == w[i]);
        }
        lemma_scan_cjk_word(t, w0);
        assert(spec_is_cjk(w.last()));
        assert(!is_ascii_alnum(w.last()));
        assert(w0.push(w.last()) =~= w);
    }
}

/// The tokens that scanning a word of the search text gives back.
pub open spec fn word_tokens(w: Seq<char>) -> Seq<Seq<char>> {
    if ascii_word(w) {
        seq![w]
    } else {
        cjk_tokens(w)
    }
}

/// The tokens of words, each word's in turn.
pub open spec fn expand(ws: Seq<Seq<char>>) -> Seq<Seq<char>>
    decreases ws.len(),
{
    if ws.len() == 0 {
        Seq::empty()
    } else {
        expand(ws.drop_last()) + word_tokens(ws.last())
    }
}

/// The pending ASCII word and CJK run that a word leaves.
pub open spec fn pending_of(w: Seq<char>) -> (Seq<char>, Seq<char>) {
    if ascii_word(w) {
        (w, Seq::empty())
    } else {
        (Seq::empty(), w)
    }
}

proof fn lemma_flush_word(t: Seq<Seq<char>>, w: Seq<char>)
    requires
        ascii_word(w) || cjk_word(w),
    ensures
        flush_cjk(flush_ascii(t, pending_of(w).0), pending_of(w).1) == t + word_tokens(w),
{
    if ascii_word(w) {
        assert(t.push(w) =~= t + seq![w]);
    } else {
        assert(flush_ascii(t, Seq::empty()) == t);
    }
}

proof fn lemma_scan_word(t: Seq<Seq<char>>, w: Seq<char>)
    requires
        ascii_word(w) || cjk_word(w),
    ensures
        scan_from((t, Seq::empty(), Seq::empty()), w) == (t, pending_of(w).0, pending_of(w).1),
{
    if ascii_word(w) {
        lemma_scan_ascii_word(t, w);
    } else {
        lemma_scan_cjk_word(t, w);
    }
}

proof fn lemma_scan_joined(ws: Seq<Seq<char>>)
    requires
        ws.len() > 0,
        good_tokens(ws),
    ensures
        scan(join_words(ws)) == (expand(ws.drop_last()), pending_of(ws.last()).0, pending_of(ws.last()).1),
    decreases ws.len(),
{
    let w = ws.last();
    assert(ascii_word(ws[ws.len() - 1]) || cjk_word(ws[ws.len() - 1]));
    if ws.len() == 1 {
        assert(Seq::<char>::empty() + w =~= w);
        lemma_scan_append(Seq::empty(), w);
        lemma_scan_word(Seq::empty(), w);
        assert(ws.drop_last() =~= Seq::<Seq<char>>::empty());
    } else {
        let ws0 = ws.drop_last();
        assert forall|j: int| 0 <= j < ws0.len() implies ascii_word(#[trigger] ws0[j]) || cjk_word(ws0[j]) by {
            assert(ws0[j] == ws[j]);
        }
        lemma_scan_joined(ws0);
        let j0 = join_words(ws0);
        let w0 = ws0.last();
        assert(ascii_word(ws0[ws0.len() - 1]) || cjk_word(ws0[ws0.len() - 1]));
        lemma_scan_append(j0, seq![' ']);
        assert(seq![' '].drop_last() =~= Seq::<char>::empty());
        assert(!is_ascii_alnum(' ') && !spec_is_cjk(' '));
        lemma_flush_word(expand(ws0.drop_last()), w0);
        let st = scan(j0);
        assert(scan_from(st, seq![' ']) == scan_step(scan_from(st, Seq::<char>::empty()), ' '));
        assert(scan_from(st, Seq::<char>::empty()) == st);
        assert(seq![' '].last() == ' ');
        assert(scan_step(st, ' ') == (flush_cjk(flush_ascii(st.0, st.1), st.2), Seq::<char>::empty(), Seq::<char>::empty()));
        assert(expand(ws0) == expand(ws0.drop_last()) + word_tokens(w0));
        assert(scan(j0 + seq![' ']) == (expand(ws0), Seq::<char>::empty(), Seq::<char>::empty()));
        lemma_scan_append(j0 + seq![' '], w);
        lemma_scan_word(expand(ws0), w);
        assert(join_words(ws) == j0 + seq![' '] + w);
    }
}

proof fn lemma_name_tokens_joined(ws: Seq<Seq<char>>)
    requires
        good_tokens(ws),
    ensures
        name_tokens(join_words(ws)) == expand(ws),
{
    if ws.len() > 0 {
        lemma_scan_joined(ws);
        assert(ascii_word(ws[ws.len() - 1]) || cjk_word(ws[ws.len() - 1]));
        lemma_flush_word(expand(ws.drop_last()), ws.last());
    }
}

/// One token more for `render`.
pub open spec fn render_step(st: (Seq<char>, Set<Seq<char>>, bool), t: Seq<char>, max_len: int) -> (
    Seq<char>,
    Set<Seq<char>>,
    bool,
) {
    let (out, seen, done) = st;
    if done || t.len() == 0 || seen.contains(t) {
        (out, seen, done)
    } else {
        let seen2 = seen.insert(t);
        let sep: int = if out.len() > 0 { 1 } else { 0 };
        if byte_len(out) + byte_len(t) + sep > max_len {
            (out, seen2, true)
        } else if out.len() > 0 {
            (out + seq![' '] + t, seen2, false)
        } else {
            (t, seen2, false)
        }
    }
}

/// Rendering `y` on from the state `st`.
pub open spec fn render_from(st: (Seq<char>, Set<Seq<char>>, bool), y: Seq<Seq<char>>, max_len: int) -> (
    Seq<char>,
    Set<Seq<char>>,
    bool,
)
    decreases y.len(),
{
    if y.len() == 0 {
        st
    } else {
        render_step(render_from(st, y.drop_last(), max_len), y.last(), max_len)
    }
}

proof fn lemma_render_append(x: Seq<Seq<char>>, y: Seq<Seq<char>>, max_len: int)
    ensures
        render(x + y, max_len) == render_from(render(x, max_len), y, max_len),
    decreases y.len(),
{
    if y.len() == 0 {
        assert(x + y =~= x);
    } else {
        lemma_render_append(x, y.drop_last(), max_len);
        assert((x + y).drop_last() =~= x + y.drop_last());
        assert((x + y).last() == y.last());
    }
}

pub open spec fn word_set(ws: Seq<Seq<char>>) -> Set<Seq<char>> {
    Set::new(|x: Seq<char>| ws.contains(x))
}

proof fn lemma_join_words_empty(ws: Seq<Seq<char>>)
    requires
        forall|i: int| 0 <= i < ws.len() ==> (#[trigger] ws[i]).len() > 0,
    ensures
        (join_words(ws).len() > 0) == (ws.len() > 0),
    decreases ws.len(),
{
    if ws.len() > 1 {
        let w0 = ws.drop_last();
        assert forall|i: int| 0 <= i < w0.len() implies (#[trigger] w0[i]).len() > 0 by {
            assert(w0[i] == ws[i]);
        }
        lemma_join_words_empty(w0);
    } else if ws.len() == 1 {
        assert(ws[0].len() > 0);
    }
}

proof fn lemma_word_tokens_render(st: (Seq<char>, Set<Seq<char>>, bool), w: Seq<char>, max_len: int)
    requires
        ascii_word(w) || cjk_word(w),
        !st.2,
        (w.len() == 3 && cjk_run(w)) ==> st.1.contains(w.subrange(0, 2)) && st.1.contains(w.subrange(1, 3)),
    ensures
        render_from(st, word_tokens(w), max_len) == render_step(st, w, max_len),
{
    let single = seq![w];
    assert(single.drop_last() =~= Seq::<Seq<char>>::empty());
    assert(single.last() == w);
    assert(render_from(st, Seq::<Seq<char>>::empty(), max_len) == st);
    assert(render_from(st, single, max_len) == render_step(st, w, max_len));
    if ascii_word(w) {
        assert(word_tokens(w) == single);
    } else if w.len() == 2 {
        assert(windows(w, 3) =~= Seq::<Seq<char>>::empty());
        assert(windows(w, 2) =~= seq![w.subrange(0, 2)]);
        assert(w.subrange(0, 2) =~= w);
        assert(word_tokens(w) =~= single);
    } else {
        let g1 = w.subrange(0, 2);
        let g2 = w.subrange(1, 3);
        assert(windows(w, 2) =~= seq![g1, g2]);
        assert(windows(w, 3) =~= seq![w.subrange(0, 3)]);
        assert(w.subrange(0, 3) =~= w);
        let toks = seq![g1, g2, w];
        assert(word_tokens(w) =~= toks);
        let one = seq![g1];
        let two = seq![g1, g2];
        assert(one.drop_last() =~= Seq::<Seq<char>>::empty());
        assert(one.last() == g1);
        assert(two.drop_last() =~= one);
        assert(two.last() == g2);
        assert(toks.drop_last() =~= two);
        assert(toks.last() == w);
        assert(st.1.contains(g1) && st.1.contains(g2));
        assert(g1.len() == 2 && g2.len() == 2);
        assert(render_from(st, Seq::<Seq<char>>::empty(), max_len) == st);
        assert(render_from(st, one, max_len) == render_step(st, g1, max_len));
        assert(render_step(st, g1, max_len) == st);
        assert(render_from(st, two, max_len) == render_step(st, g2, max_len));
        assert(render_step(st, g2, max_len) == st);
        assert(render_from(st, toks, max_len) == render_step(st, w, max_len));
    }
}

proof fn lemma_rerender_prefix(ws: Seq<Seq<char>>, max_len: int)
    requires
        ws.len() > 0,
        ws.no_duplicates(),
        good_tokens(ws),
        words_fit(ws, max_len),
        grams_before(ws),
    ensures
        ws.drop_last().no_duplicates(),
        good_tokens(ws.drop_last()),
        words_fit(ws.drop_last(), max_len),
        grams_before(ws.drop_last()),
{
    let ws0 = ws.drop_last();
    let n = ws0.len() as int;
    assert(ws.take(n) =~= ws0);
    assert forall|i: int, j: int| 0 <= i < j < ws0.len() implies ws0[i] != ws0[j] by {
        assert(ws0[i] == ws[i] && ws0[j] == ws[j]);
    }
    assert forall|j: int| 0 <= j < ws0.len() implies ascii_word(#[trigger] ws0[j]) || cjk_word(ws0[j]) by {
        assert(ws0[j] == ws[j]);
    }
    assert forall|i: int| 0 <= i < ws0.len() implies byte_len(join_words(ws0.take(i))) + byte_len(
        #[trigger] ws0[i],
    ) + (if i > 0 {
        1int
    } else {
        0int
    }) <= max_len by {
        assert(ws0[i] == ws[i]);
        assert(ws0.take(i) =~= ws.take(i));
        assert(byte_len(join_words(ws.take(i))) + byte_len(ws[i]) + (if i > 0 {
            1int
        } else {
            0int
        }) <= max_len);
    }
    lemma_grams_before_prefix(ws, n);
}

proof fn lemma_word_set_push(ws: Seq<Seq<char>>)
    requires
        ws.len() > 0,
    ensures
        word_set(ws.drop_last()).insert(ws.last()) == word_set(ws),
{
    let ws0 = ws.drop_last();
    let n = ws0.len() as int;
    assert forall|x: Seq<char>| word_set(ws).contains(x) implies word_set(ws0).insert(ws.last()).contains(x) by {
        let k = choose|k: int| 0 <= k < ws.len() && ws[k] == x;
        if k < n {
            assert(ws0[k] == x);
        }
    }
    assert forall|x: Seq<char>| word_set(ws0).insert(ws.last()).contains(x) implies word_set(ws).contains(x) by {
        if x == ws.last() {
            assert(ws[n] == x);
        } else {
            let k = choose|k: int| 0 <= k < ws0.len() && ws0[k] == x;
            assert(ws[k] == x);
        }
    }
    assert(word_set(ws0).insert(ws.last()) =~= word_set(ws));
}

/// Rendering the tokens of words that were rendered once gives the same text.
proof fn lemma_rerender(ws: Seq<Seq<char>>, max_len: int)
    requires
        ws.no_duplicates(),
        good_tokens(ws),
        words_fit(ws, max_len),
        grams_before(ws),
    ensures
        render(expand(ws), max_len) == (join_words(ws), word_set(ws), false),
    decreases ws.len(),
{
    if ws.len() == 0 {
        assert(word_set(ws) =~= Set::<Seq<char>>::empty());
    } else {
        let ws0 = ws.drop_last();
        let w = ws.last();
        let n = ws0.len() as int;
        lemma_rerender_prefix(ws, max_len);
        lemma_rerender(ws0, max_len);
        assert(ascii_word(ws[n]) || cjk_word(ws[n]));
        assert forall|i: int| 0 <= i < ws0.len() implies (#[trigger] ws0[i]).len() > 0 by {
            assert(ws0[i] == ws[i]);
            assert(ascii_word(ws[i]) || cjk_word(ws[i]));
        }
        lemma_join_words_empty(ws0);
        lemma_render_append(expand(ws0), word_tokens(w), max_len);
        let st0 = (join_words(ws0), word_set(ws0), false);
        assert(!word_set(ws0).contains(w)) by {
            if ws0.contains(w) {
                let k = choose|k: int| 0 <= k < ws0.len() && ws0[k] == w;
                assert(ws[k] == ws[n]);
            }
        }
        assert(ws.take(n) =~= ws0);
        assert(byte_len(join_words(ws.take(n))) + byte_len(ws[n]) + (if n > 0 {
            1int
        } else {
            0int
        }) <= max_len);
        lemma_word_set_push(ws);
        if w.len() == 3 && cjk_run(w) {
            assert(ws.take(n).contains(w.subrange(0, 2)) && ws.take(n).contains(w.subrange(1, 3)));
        }
        lemma_word_tokens_render(st0, w, max_len);
        if n > 0 {
            assert(join_words(ws) == join_words(ws0) + seq![' '] + w);
        } else {
            assert(join_words(ws) == w);
        }
    }
}

/// Law: indexing a name's search text again, with the same byte budget, gives the text
/// back.
pub proof fn law_ngram_idempotent(input: Seq<char>, max_len: int)
    ensures
        spec_name_ngram(spec_name_ngram(input, max_len), max_len) == spec_name_ngram(input, max_len),
{
    let tokens = name_tokens(input);
    lemma_name_tokens_shape(input);
    let ws = lemma_render_words(tokens, max_len);
    assert forall|j: int| 0 <= j < ws.len() implies ascii_word(#[trigger] ws[j]) || cjk_word(ws[j]) by {
        let k = choose|k: int| 0 <= k < tokens.len() && tokens[k] == ws[j];
        assert(ascii_word(tokens[k]) || cjk_word(tokens[k]));
    }
    lemma_name_tokens_joined(ws);
    lemma_rerender(ws, max_len);
}

/// Law: a name made only of CJK characters (ideographs U+4E00..U+9FFF, hiragana and
/// katakana U+3040..U+30FF, Hangul syllables U+AC00..U+D7AF) gives as its tokens its
/// 2-grams, then its 3-grams.
pub proof fn law_cjk_name_tokens(cs: Seq<char>)
    requires
        cs.len() > 0,
        forall|i: int|
            0 <= i < cs.len() ==> {
                let u = (#[trigger] cs[i]) as u32;
                (0x4E00 <= u <= 0x9FFF) || (0x3040 <= u <= 0x30FF) || (0xAC00 <= u <= 0xD7AF)
            },
    ensures
        name_tokens(cs) == windows(cs, 2) + windows(cs, 3),
{
    assert forall|i: int| 0 <= i < cs.len() implies spec_is_cjk(#[trigger] cs[i]) by {
        let u = cs[i] as u32;
        assert((0x4E00 <= u <= 0x9FFF) || (0x3040 <= u <= 0x30FF) || (0xAC00 <= u <= 0xD7AF));
    }
    assert(Seq::<char>::empty() + cs =~= cs);
    lemma_scan_append(Seq::empty(), cs);
    lemma_scan_cjk_word(Seq::empty(), cs);
    assert(Seq::<Seq<char>>::empty() + cjk_tokens(cs) =~= windows(cs, 2) + windows(cs, 3));
}

} // verus!

//! Phrase normalization and n-gram stem generation.
//!
//! A phrase is canonicalized by stripping every character that is
//! neither alphanumeric nor whitespace, folding letters to lower case,
//! and splitting on runs of whitespace; stems are the space-joined
//! contiguous n-grams of the resulting words.

use vstd::prelude::*;

verus! {

use crate::chars::{push_char, str_to_chars, chars_range_to_string};
use vstd::string::StringExecFns;

/// Lower-case letters and digits: the characters canonical words are
/// made of.
pub open spec fn is_lower_alnum(c: char) -> bool {
    ('a' <= c && c <= 'z') || ('0' <= c && c <= '9')
}

/// Upper-case letters, folded to lower case by canonicalization.
pub open spec fn is_upper_alpha(c: char) -> bool {
    'A' <= c && c <= 'Z'
}

/// Whitespace: word separators.
pub open spec fn is_space_char(c: char) -> bool {
    c == ' ' || c == '\t' || c == '\n' || c == '\r' || c == '\x0b' || c == '\x0c'
}

/// Characters that survive the strip step.
pub open spec fn is_kept_char(c: char) -> bool {
    is_lower_alnum(c) || is_upper_alpha(c) || is_space_char(c)
}

/// Case folding; everything but `A`..`Z` is left alone.
pub open spec fn lower_char(c: char) -> char {
    if is_upper_alpha(c) {
        ((c as u32) + 32) as char
    } else {
        c
    }
}

/// Executable case folding.
pub fn to_lower_char(c: char) -> (r: char)
    ensures
        r == lower_char(c),
{
    let u = c as u32;
    if 65 <= u && u <= 90 {
        let l = (u + 32) as u8;
        l as char
    } else {
        c
    }
}

/// The canonical characters of a phrase: everything that is neither
/// alphanumeric nor whitespace is stripped, and letters are folded to
/// lower case.
pub open spec fn canonical_chars(s: Seq<char>) -> Seq<char>
    decreases s.len(),
{
    if s.len() == 0 {
        Seq::empty()
    } else {
        let rest = canonical_chars(s.drop_last());
        if is_kept_char(s.last()) {
            rest.push(lower_char(s.last()))
        } else {
            rest
        }
    }
}

/// The length of the leading run of non-whitespace characters.
pub open spec fn leading_run(s: Seq<char>) -> nat
    decreases s.len(),
{
    if s.len() == 0 || is_space_char(s[0]) {
        0
    } else {
        1 + leading_run(s.skip(1))
    }
}

pub proof fn lemma_leading_run_le(s: Seq<char>)
    ensures
        leading_run(s) <= s.len(),
    decreases s.len(),
{
    if s.len() > 0 && !is_space_char(s[0]) {
        lemma_leading_run_le(s.skip(1));
    }
}

/// The words of a character sequence: the maximal runs of
/// non-whitespace characters, in order.
pub open spec fn split_ws(s: Seq<char>) -> Seq<Seq<char>>
    decreases s.len(),
    via split_ws_dec
{
    if s.len() == 0 {
        Seq::empty()
    } else if is_space_char(s[0]) {
        split_ws(s.skip(1))
    } else {
        seq![s.take(leading_run(s) as int)] + split_ws(s.skip(leading_run(s) as int))
    }
}

#[via_fn]
proof fn split_ws_dec(s: Seq<char>) {
    lemma_leading_run_le(s);
}

/// The canonical words of a phrase.
pub open spec fn words_of(s: Seq<char>) -> Seq<Seq<char>> {
    split_ws(canonical_chars(s))
}

/// A run of non-whitespace characters followed by the end or by
/// whitespace is the leading run.
proof fn lemma_leading_run_exact(s: Seq<char>, n: int)
    requires
        0 <= n <= s.len(),
        forall|j: int| 0 <= j < n ==> !is_space_char(#[trigger] s[j]),
        n == s.len() || is_space_char(s[n]),
    ensures
        leading_run(s) == n,
    decreases n,
{
    if n == 0 {
    } else {
        assert(!is_space_char(s[0]));
        assert(forall|j: int| 0 <= j < n - 1 ==> !is_space_char(#[trigger] s.skip(1)[j]));
        if n - 1 < s.skip(1).len() {
            assert(s.skip(1)[n - 1] == s[n]);
        }
        lemma_leading_run_exact(s.skip(1), n - 1);
    }
}

/// The views of a vector of strings.
pub open spec fn str_views(ws: Seq<String>) -> Seq<Seq<char>> {
    ws.map_values(|w: String| w@)
}

/// The canonical words of a phrase: strip, fold, split.
pub fn canonical_words(term: &str) -> (r: Vec<String>)
    ensures
        str_views(r@) == words_of(term@),
{
    let cs = str_to_chars(term);
    // strip and fold
    let mut cc: Vec<char> = Vec::new();
    let mut i: usize = 0;
    while i < cs.len()
        invariant
            0 <= i <= cs@.len(),
            cc@ == canonical_chars(cs@.take(i as int)),
        decreases cs@.len() - i,
    {
        let c = cs[i];
        proof {
            assert(cs@.take(i + 1 as int).drop_last() =~= cs@.take(i as int));
            assert(cs@.take(i + 1 as int).last() == cs@[i as int]);
        }
        if is_kept(c) {
            let l = to_lower_char(c);
            cc.push(l);
        }
        i = i + 1;
    }
    proof {
        assert(cs@.take(cs@.len() as int) =~= cs@);
    }
    // split on whitespace runs
    let mut words: Vec<String> = Vec::new();
    let mut pos: usize = 0;
    proof {
        assert(cc@.skip(0) =~= cc@);
        assert(str_views(words@) =~= Seq::<Seq<char>>::empty());
        assert(str_views(words@) + split_ws(cc@) =~= split_ws(cc@));
    }
    while pos < cc.len()
        invariant
            0 <= pos <= cc@.len(),
            cc@ == canonical_chars(term@),
            str_views(words@) + split_ws(cc@.skip(pos as int)) == split_ws(cc@),
        decreases cc@.len() - pos,
    {
        if is_space(cc[pos]) {
            proof {
                assert(cc@.skip(pos as int)[0] == cc@[pos as int]);
                assert(cc@.skip(pos as int).skip(1) =~= cc@.skip(pos + 1 as int));
            }
            pos = pos + 1;
        } else {
            let mut end: usize = pos + 1;
            while end < cc.len() && !is_space(cc[end])
                invariant
                    pos < end <= cc@.len(),
                    forall|j: int| pos <= j < end ==> !is_space_char(#[trigger] cc@[j]),
                decreases cc@.len() - end,
            {
                end = end + 1;
            }
            let w = chars_range_to_string(&cc, pos, end);
            proof {
                let tail = cc@.skip(pos as int);
                assert(forall|j: int|
                    0 <= j < end - pos ==> !is_space_char(#[trigger] tail[j]));
                if end - pos < tail.len() {
                    assert(tail[end - pos] == cc@[end as int]);
                }
                lemma_leading_run_exact(tail, end - pos);
                assert(tail.take(end - pos) =~= cc@.subrange(pos as int, end as int));
                assert(tail.skip(end - pos) =~= cc@.skip(end as int));
                assert(split_ws(tail) == seq![w@] + split_ws(cc@.skip(end as int)));
                assert(str_views(words@.push(w)) =~= str_views(words@).push(w@));
                assert(str_views(words@.push(w)) + split_ws(cc@.skip(end as int)) =~= str_views(
                    words@,
                ) + split_ws(tail));
            }
            words.push(w);
            pos = end;
        }
    }
    proof {
        assert(cc@.skip(cc@.len() as int) =~= Seq::<char>::empty());
        assert(str_views(words@) + split_ws(cc@.skip(cc@.len() as int)) =~= str_views(words@));
    }
    words
}

/// The space-joined concatenation of a sequence of words.
pub open spec fn join_words(ws: Seq<Seq<char>>) -> Seq<char>
    decreases ws.len(),
{
    if ws.len() == 0 {
        Seq::empty()
    } else if ws.len() == 1 {
        ws[0]
    } else {
        join_words(ws.drop_last()) + seq![' '] + ws.last()
    }
}

/// All space-joined contiguous runs of exactly `i` words, in order of
/// their starting position.
pub open spec fn ngrams_width(ws: Seq<Seq<char>>, i: int) -> Seq<Seq<char>> {
    Seq::new((ws.len() - i + 1) as nat, |u: int| join_words(ws.subrange(u, u + i)))
}

/// All space-joined contiguous runs of `1..=i` words, narrower widths
/// first.
pub open spec fn ngrams_up_to(ws: Seq<Seq<char>>, i: int) -> Seq<Seq<char>>
    decreases i,
{
    if i <= 0 {
        Seq::empty()
    } else {
        ngrams_up_to(ws, i - 1) + ngrams_width(ws, i)
    }
}

/// The stems of a word sequence before deduplication: n-grams of widths
/// `1..=min(k, m)`, then, when asked for and not already covered, the
/// join of the whole sequence.
pub open spec fn raw_stems(ws: Seq<Seq<char>>, k: int, whole: bool) -> Seq<Seq<char>> {
    let m = ws.len() as int;
    let w = if k <= m {
        k
    } else {
        m
    };
    ngrams_up_to(ws, w) + if whole && m > k {
        seq![join_words(ws)]
    } else {
        Seq::empty()
    }
}

/// Keep the first occurrence of each element.
pub open spec fn dedup_first(s: Seq<Seq<char>>) -> Seq<Seq<char>>
    decreases s.len(),
{
    if s.len() == 0 {
        Seq::empty()
    } else {
        let r = dedup_first(s.drop_last());
        if s.drop_last().contains(s.last()) {
            r
        } else {
            r.push(s.last())
        }
    }
}

/// The stems of a phrase: deduplicated n-gram joins of its canonical
/// words, in generation order.
pub open spec fn stems_seq(s: Seq<char>, k: int, whole: bool) -> Seq<Seq<char>> {
    dedup_first(raw_stems(words_of(s), k, whole))
}

/// The space-joined run of words from `u` (inclusive) to `t`
/// (exclusive).
fn join_range(words: &Vec<String>, u: usize, t: usize) -> (r: String)
    requires
        u <= t <= words@.len(),
    ensures
        r@ == join_words(str_views(words@).subrange(u as int, t as int)),
{
    let ghost ws = str_views(words@);
    let mut r = String::new();
    let mut j: usize = u;
    proof {
        assert(ws.subrange(u as int, u as int) =~= Seq::<Seq<char>>::empty());
    }
    while j < t
        invariant
            u <= j <= t <= words@.len(),
            ws == str_views(words@),
            r@ == join_words(ws.subrange(u as int, j as int)),
        decreases t - j,
    {
        if j > u {
            push_char(&mut r, ' ');
        }
        r.append(words[j].as_str());
        proof {
            let sub = ws.subrange(u as int, j + 1 as int);
            assert(sub.drop_last() =~= ws.subrange(u as int, j as int));
            assert(sub.last() == ws[j as int]);
            if j == u {
                assert(join_words(sub) == ws[j as int]);
            } else {
                assert(join_words(sub) == join_words(ws.subrange(u as int, j as int)) + seq![' ']
                    + ws[j as int]);
            }
        }
        j = j + 1;
    }
    r
}

/// Push `stem` unless an equal stem was pushed before; `seen` holds the
/// stems pushed so far, and `raw` is the generation sequence they came
/// from.
fn push_if_new(
    r: &mut Vec<String>,
    seen: &mut crate::dict::Dict<bool>,
    stem: String,
    Ghost(raw): Ghost<Seq<Seq<char>>>,
)
    requires
        old(seen).wf(),
        str_views(old(r)@) == dedup_first(raw),
        old(seen)@.dom() == raw.to_set(),
    ensures
        final(seen).wf(),
        str_views(final(r)@) == dedup_first(raw.push(stem@)),
        final(seen)@.dom() == raw.push(stem@).to_set(),
{
    proof {
        assert(raw.push(stem@).drop_last() =~= raw);
        assert(raw.push(stem@).last() == stem@);
    }
    if !seen.contains_key(stem.as_str()) {
        assert(!raw.contains(stem@));
        let stem2 = stem.clone();
        r.push(stem2);
        seen.insert(stem, true);
        proof {
            assert(str_views(r@) =~= str_views(old(r)@).push(stem@));
            assert(seen@.dom() =~= raw.push(stem@).to_set());
        }
    } else {
        proof {
            assert(raw.contains(stem@));
            assert(seen@.dom() =~= raw.push(stem@).to_set());
        }
    }
}

/// The stems of a phrase with n-gram width `k`: canonical words are
/// joined over every contiguous run of `1..=min(k, m)` words, the whole
/// phrase is appended when `include_whole` is set and it is not already
/// covered, and duplicates keep their first position.
pub fn generate_stems(term: &str, k: usize, include_whole: bool) -> (r: Vec<String>)
    ensures
        str_views(r@) == stems_seq(term@, k as int, include_whole),
{
    let words = canonical_words(term);
    let ghost ws = str_views(words@);
    let m = words.len();
    let w = if k <= m {
        k
    } else {
        m
    };
    let mut r: Vec<String> = Vec::new();
    let mut seen: crate::dict::Dict<bool> = crate::dict::Dict::new();
    proof {
        assert(str_views(r@) =~= Seq::<Seq<char>>::empty());
        assert(ngrams_up_to(ws, 0) =~= Seq::<Seq<char>>::empty());
        assert(seen@.dom() =~= ngrams_up_to(ws, 0).to_set());
    }
    let mut i0: usize = 0;
    while i0 < w
        invariant
            0 <= i0 <= w,
            w <= m,
            m == ws.len(),
            w == if k <= m { k as int } else { m as int },
            ws == str_views(words@),
            seen.wf(),
            str_views(r@) == dedup_first(ngrams_up_to(ws, i0 as int)),
            seen@.dom() == ngrams_up_to(ws, i0 as int).to_set(),
        decreases w - i0,
    {
        let i = i0 + 1;
        let ghost base = ngrams_up_to(ws, i0 as int);
        let mut u: usize = 0;
        proof {
            assert(ngrams_width(ws, i as int).take(0) =~= Seq::<Seq<char>>::empty());
            assert(base + ngrams_width(ws, i as int).take(0) =~= base);
        }
        while u <= m - i
            invariant
                1 <= i <= w <= m,
                m == ws.len(),
                ws == str_views(words@),
                0 <= u <= m - i + 1,
                base == ngrams_up_to(ws, i - 1),
                seen.wf(),
                str_views(r@) == dedup_first(base + ngrams_width(ws, i as int).take(u as int)),
                seen@.dom() == (base + ngrams_width(ws, i as int).take(u as int)).to_set(),
            decreases m + 1 - i - u,
        {
            let stem = join_range(&words, u, u + i);
            let ghost raw = base + ngrams_width(ws, i as int).take(u as int);
            proof {
                assert(ngrams_width(ws, i as int)[u as int] == join_words(
                    ws.subrange(u as int, u + i),
                ));
                assert(raw.push(stem@) =~= base + ngrams_width(ws, i as int).take(u + 1 as int));
            }
            push_if_new(&mut r, &mut seen, stem, Ghost(raw));
            u = u + 1;
        }
        proof {
            assert(ngrams_width(ws, i as int).take((m - i + 1) as int) =~= ngrams_width(
                ws,
                i as int,
            ));
            assert(base + ngrams_width(ws, i as int) =~= ngrams_up_to(ws, i as int));
        }
        i0 = i0 + 1;
    }
    if include_whole && m > k {
        let whole_join = join_range(&words, 0, m);
        let ghost raw = ngrams_up_to(ws, w as int);
        proof {
            assert(ws.subrange(0, m as int) =~= ws);
            assert(raw.push(whole_join@) =~= raw_stems(ws, k as int, true));
        }
        push_if_new(&mut r, &mut seen, whole_join, Ghost(raw));
    } else {
        proof {
            assert(ngrams_up_to(ws, w as int) =~= raw_stems(ws, k as int, include_whole));
        }
    }
    r
}

/// The canonical form of a phrase: its canonical words joined by single
/// spaces. Stemming a phrase and stemming its canonical form agree.
pub fn canonicalize(term: &str) -> (r: String)
    ensures
        r@ == join_words(words_of(term@)),
{
    let words = canonical_words(term);
    let n = words.len();
    proof {
        assert(str_views(words@).subrange(0, str_views(words@).len() as int) =~= str_views(
            words@,
        ));
    }
    join_range(&words, 0, n)
}

/// Canonical characters are lower-case alphanumerics or whitespace.
proof fn lemma_canonical_chars_kind(s: Seq<char>)
    ensures
        forall|i: int|
            0 <= i < canonical_chars(s).len() ==> is_lower_alnum(#[trigger] canonical_chars(s)[i])
                || is_space_char(canonical_chars(s)[i]),
    decreases s.len(),
{
    if s.len() > 0 {
        lemma_canonical_chars_kind(s.drop_last());
        let rest = canonical_chars(s.drop_last());
        let c = s.last();
        if is_kept_char(c) {
            if is_upper_alpha(c) {
                let u = (c as u32) + 32;
                assert(97 <= u <= 122);
                assert((u as char) as u32 == u);
                assert(is_lower_alnum(lower_char(c)));
            }
            assert(is_lower_alnum(lower_char(c)) || is_space_char(lower_char(c)));
            assert forall|i: int|
                0 <= i < canonical_chars(s).len() implies is_lower_alnum(
                #[trigger] canonical_chars(s)[i],
            ) || is_space_char(canonical_chars(s)[i]) by {
                if i < rest.len() {
                    assert(canonical_chars(s)[i] == rest[i]);
                } else {
                    assert(canonical_chars(s)[i] == lower_char(c));
                }
            }
        }
    }
}

/// The leading run holds no whitespace.
proof fn lemma_leading_run_chars(s: Seq<char>)
    ensures
        forall|j: int| 0 <= j < leading_run(s) ==> !is_space_char(#[trigger] s[j]),
    decreases s.len(),
{
    lemma_leading_run_le(s);
    if s.len() > 0 && !is_space_char(s[0]) {
        lemma_leading_run_chars(s.skip(1));
        assert forall|j: int| 0 <= j < leading_run(s) implies !is_space_char(
            #[trigger] s[j],
        ) by {
            if j >= 1 {
                assert(s.skip(1)[j - 1] == s[j]);
                assert(!is_space_char(s.skip(1)[j - 1]));
            }
        }
    }
}

/// Split words are non-empty, hold no whitespace, and draw their
/// characters from the input.
proof fn lemma_split_words_shape(x: Seq<char>)
    requires
        forall|i: int| 0 <= i < x.len() ==> is_lower_alnum(#[trigger] x[i]) || is_space_char(x[i]),
    ensures
        forall|a: int|
            0 <= a < split_ws(x).len() ==> {
                let w = #[trigger] split_ws(x)[a];
                w.len() >= 1 && forall|j: int| 0 <= j < w.len() ==> is_lower_alnum(#[trigger] w[j])
            },
    decreases x.len(),
{
    lemma_leading_run_le(x);
    if x.len() > 0 {
        let r = leading_run(x) as int;
        if is_space_char(x[0]) {
            assert(forall|i: int|
                0 <= i < x.skip(1).len() ==> is_lower_alnum(#[trigger] x.skip(1)[i])
                    || is_space_char(x.skip(1)[i]));
            lemma_split_words_shape(x.skip(1));
            assert(split_ws(x) == split_ws(x.skip(1)));
        } else {
            assert(r >= 1);
            lemma_leading_run_chars(x);
            let rest = x.skip(r);
            assert(forall|i: int|
                0 <= i < rest.len() ==> is_lower_alnum(#[trigger] rest[i]) || is_space_char(
                    rest[i],
                ));
            lemma_split_words_shape(rest);
            let w0 = x.take(r);
            assert(w0.len() >= 1);
            assert forall|j: int| 0 <= j < w0.len() implies is_lower_alnum(
                #[trigger] w0[j],
            ) by {
                assert(w0[j] == x[j]);
                assert(!is_space_char(x[j]));
            }
            assert forall|a: int| 0 <= a < split_ws(x).len() implies {
                let w = #[trigger] split_ws(x)[a];
                w.len() >= 1 && forall|j: int| 0 <= j < w.len() ==> is_lower_alnum(
                    #[trigger] w[j],
                )
            } by {
                if a == 0 {
                    assert(split_ws(x)[0] == w0);
                } else {
                    assert(split_ws(x)[a] == split_ws(rest)[a - 1]);
                }
            }
        }
    }
}

/// Canonicalization leaves already-canonical text alone.
proof fn lemma_canonical_identity(x: Seq<char>)
    requires
        forall|i: int| 0 <= i < x.len() ==> is_lower_alnum(#[trigger] x[i]) || x[i] == ' ',
    ensures
        canonical_chars(x) == x,
    decreases x.len(),
{
    if x.len() > 0 {
        assert(forall|i: int|
            0 <= i < x.drop_last().len() ==> is_lower_alnum(#[trigger] x.drop_last()[i])
                || x.drop_last()[i] == ' ');
        lemma_canonical_identity(x.drop_last());
        assert(is_kept_char(x.last()));
        assert(lower_char(x.last()) == x.last());
        assert(canonical_chars(x) =~= x);
    }
}

/// The characters of a space-join are the words' characters and
/// spaces.
proof fn lemma_join_chars(ws: Seq<Seq<char>>)
    requires
        forall|a: int, j: int|
            0 <= a < ws.len() && 0 <= j < ws[a].len() ==> is_lower_alnum(#[trigger] ws[a][j]),
    ensures
        forall|i: int|
            0 <= i < join_words(ws).len() ==> is_lower_alnum(#[trigger] join_words(ws)[i])
                || join_words(ws)[i] == ' ',
    decreases ws.len(),
{
    if ws.len() > 1 {
        assert(forall|a: int|
            0 <= a < ws.drop_last().len() ==> #[trigger] ws.drop_last()[a] == ws[a]);
        lemma_join_chars(ws.drop_last());
        assert(ws[ws.len() - 1] == ws.last());
        let pre = join_words(ws.drop_last());
        let lastw = ws.last();
        assert(join_words(ws) == pre + seq![' '] + lastw);
        assert forall|i: int|
            0 <= i < join_words(ws).len() implies is_lower_alnum(
            #[trigger] join_words(ws)[i],
        ) || join_words(ws)[i] == ' ' by {
            if i < pre.len() {
                assert(join_words(ws)[i] == pre[i]);
            } else if i == pre.len() {
                assert(join_words(ws)[i] == ' ');
            } else {
                assert(join_words(ws)[i] == lastw[i - pre.len() - 1]);
            }
        }
    } else if ws.len() == 1 {
        assert(ws[0] == join_words(ws));
    }
}

/// Joining from the left: the first word, a space, then the rest.
proof fn lemma_join_left(ws: Seq<Seq<char>>)
    requires
        ws.len() >= 2,
    ensures
        join_words(ws) == ws[0] + seq![' '] + join_words(ws.drop_first()),
    decreases ws.len(),
{
    if ws.len() == 2 {
        assert(ws.drop_last()[0] == ws[0]);
        assert(join_words(ws.drop_last()) == ws[0]);
        assert(join_words(ws.drop_first()) == ws.drop_first()[0]);
        assert(ws.drop_first()[0] == ws[1]);
        assert(join_words(ws) =~= ws[0] + seq![' '] + join_words(ws.drop_first()));
    } else {
        lemma_join_left(ws.drop_last());
        assert(ws.drop_last()[0] == ws[0]);
        assert(ws.drop_last().drop_first() =~= ws.drop_first().drop_last());
        assert(join_words(ws) == join_words(ws.drop_last()) + seq![' '] + ws.last());
        assert(ws.drop_first().len() >= 2);
        assert(join_words(ws.drop_first()) == join_words(ws.drop_first().drop_last()) + seq![' ']
            + ws.drop_first().last());
        assert(ws.drop_first().last() == ws.last());
        assert(join_words(ws) =~= ws[0] + seq![' '] + join_words(ws.drop_first()));
    }
}

/// Splitting a space-join of clean words gives the words back.
proof fn lemma_split_join(ws: Seq<Seq<char>>)
    requires
        forall|a: int|
            0 <= a < ws.len() ==> (#[trigger] ws[a]).len() >= 1 && (forall|j: int|
                0 <= j < ws[a].len() ==> !is_space_char(#[trigger] ws[a][j])),
    ensures
        split_ws(join_words(ws)) == ws,
    decreases ws.len(),
{
    if ws.len() == 0 {
        assert(split_ws(join_words(ws)) =~= ws);
    } else if ws.len() == 1 {
        let j = join_words(ws);
        assert(j == ws[0]);
        assert(ws[0].len() >= 1);
        assert(forall|i: int| 0 <= i < j.len() ==> !is_space_char(#[trigger] j[i]));
        assert(!is_space_char(j[0]));
        lemma_leading_run_exact(j, j.len() as int);
        assert(j.take(j.len() as int) =~= j);
        assert(j.skip(j.len() as int) =~= Seq::<char>::empty());
        assert(split_ws(Seq::<char>::empty()) =~= Seq::<Seq<char>>::empty());
        assert(split_ws(j) == seq![j.take(leading_run(j) as int)] + split_ws(
            j.skip(leading_run(j) as int),
        ));
        assert(split_ws(j) =~= ws);
    } else {
        lemma_join_left(ws);
        let j = join_words(ws);
        let w0 = ws[0];
        let rest = join_words(ws.drop_first());
        assert(j =~= w0 + seq![' '] + rest);
        assert(ws[0].len() >= 1);
        assert(forall|i: int| 0 <= i < w0.len() ==> j[i] == w0[i]);
        assert forall|i: int| 0 <= i < w0.len() implies !is_space_char(#[trigger] j[i]) by {
            assert(j[i] == w0[i]);
            assert(!is_space_char(w0[i]));
        }
        assert(j[w0.len() as int] == ' ');
        assert(!is_space_char(j[0]));
        lemma_leading_run_exact(j, w0.len() as int);
        assert(j.take(w0.len() as int) =~= w0);
        let tail1 = j.skip(w0.len() as int);
        assert(tail1[0] == ' ');
        assert(tail1.skip(1) =~= rest);
        assert(split_ws(tail1) == split_ws(rest));
        assert(split_ws(j) == seq![j.take(leading_run(j) as int)] + split_ws(tail1));
        assert(forall|a: int|
            0 <= a < ws.drop_first().len() ==> (#[trigger] ws.drop_first()[a]) == ws[a + 1]);
        lemma_split_join(ws.drop_first());
        assert(split_ws(j) == seq![w0] + split_ws(rest));
        assert(split_ws(j) =~= ws);
    }
}

/// Canonicalization leaves already-canonical text alone.
pub proof fn lemma_canonical_identity_pub(x: Seq<char>)
    requires
        forall|i: int| 0 <= i < x.len() ==> is_lower_alnum(#[trigger] x[i]) || x[i] == ' ',
    ensures
        canonical_chars(x) == x,
{
    lemma_canonical_identity(x);
}

/// A non-empty whitespace-free sequence splits into itself alone.
pub proof fn lemma_single_word_split(w: Seq<char>)
    requires
        w.len() >= 1,
        forall|j: int| 0 <= j < w.len() ==> !is_space_char(#[trigger] w[j]),
    ensures
        split_ws(w) == seq![w],
{
    assert(!is_space_char(w[0]));
    lemma_leading_run_exact(w, w.len() as int);
    assert(w.take(w.len() as int) =~= w);
    assert(w.skip(w.len() as int) =~= Seq::<char>::empty());
    assert(split_ws(Seq::<char>::empty()) =~= Seq::<Seq<char>>::empty());
    assert(split_ws(w) == seq![w.take(leading_run(w) as int)] + split_ws(
        w.skip(leading_run(w) as int),
    ));
    assert(split_ws(w) =~= seq![w]);
}

/// Idempotence: stemming a phrase and stemming its canonical form —
/// stripped, folded, and space-joined — produce the same stems.
pub proof fn lemma_stems_idempotent(s: Seq<char>, k: int, include_whole: bool)
    ensures
        stems_seq(s, k, include_whole) == stems_seq(
            join_words(words_of(s)),
            k,
            include_whole,
        ),
{
    let ws = words_of(s);
    lemma_canonical_chars_kind(s);
    lemma_split_words_shape(canonical_chars(s));
    assert(forall|a: int, j: int|
        0 <= a < ws.len() && 0 <= j < ws[a].len() ==> is_lower_alnum(#[trigger] ws[a][j]));
    lemma_join_chars(ws);
    lemma_canonical_identity(join_words(ws));
    assert forall|a: int| 0 <= a < ws.len() implies (#[trigger] ws[a]).len() >= 1 && (forall|
        j: int,
    |
        0 <= j < ws[a].len() ==> !is_space_char(#[trigger] ws[a][j])) by {
        assert(forall|j: int| 0 <= j < ws[a].len() ==> is_lower_alnum(#[trigger] ws[a][j]));
    }
    lemma_split_join(ws);
    assert(words_of(join_words(ws)) == ws);
}

/// Executable test for `is_kept_char`.
fn is_kept(c: char) -> (r: bool)
    ensures
        r == is_kept_char(c),
{
    ('a' <= c && c <= 'z') || ('0' <= c && c <= '9') || ('A' <= c && c <= 'Z') || is_space(c)
}

/// Executable test for `is_space_char`.
fn is_space(c: char) -> (r: bool)
    ensures
        r == is_space_char(c),
{
    c == ' ' || c == '\t' || c == '\n' || c == '\r' || c == '\x0b' || c == '\x0c'
}

} // verus!

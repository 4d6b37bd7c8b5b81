//! Encoding and parsing of the crate's line formats.
//!
//! Record files hold one JSON array `["title",["child",...]]` per line;
//! the sidecar holds one JSON array of non-negative integers per line;
//! responses are JSON. This module defines those forms as spec
//! functions — an encoder and a parser for each layer — and proves the
//! executable code against them. The parser accepts the encoder's
//! canonical output plus the usual escape spellings.

use vstd::prelude::*;

verus! {

use crate::chars::{push_char, str_to_chars};

/// The value of a hexadecimal digit, or `-1`.
pub open spec fn hex_val(c: char) -> int {
    if '0' <= c && c <= '9' {
        c as int - '0' as int
    } else if 'a' <= c && c <= 'f' {
        10 + c as int - 'a' as int
    } else if 'A' <= c && c <= 'F' {
        10 + c as int - 'A' as int
    } else {
        -1
    }
}

/// The lower-case hexadecimal digit for a value below 16.
pub open spec fn hex_digit(v: int) -> char {
    if v < 10 {
        (('0' as u32) + v as u32) as char
    } else {
        (('a' as u32) + (v - 10) as u32) as char
    }
}

/// What a single-character escape stands for.
pub open spec fn esc_code(c: char) -> Option<char> {
    if c == '"' {
        Some('"')
    } else if c == '\\' {
        Some('\\')
    } else if c == '/' {
        Some('/')
    } else if c == 'b' {
        Some('\x08')
    } else if c == 'f' {
        Some('\x0c')
    } else if c == 'n' {
        Some('\n')
    } else if c == 'r' {
        Some('\r')
    } else if c == 't' {
        Some('\t')
    } else {
        None
    }
}

/// The escaped spelling of one character inside a JSON string.
pub open spec fn esc_char(c: char) -> Seq<char> {
    if c == '"' {
        seq!['\\', '"']
    } else if c == '\\' {
        seq!['\\', '\\']
    } else if c == '\x08' {
        seq!['\\', 'b']
    } else if c == '\x0c' {
        seq!['\\', 'f']
    } else if c == '\n' {
        seq!['\\', 'n']
    } else if c == '\r' {
        seq!['\\', 'r']
    } else if c == '\t' {
        seq!['\\', 't']
    } else if (c as u32) < 32 {
        seq!['\\', 'u', '0', '0', hex_digit((c as u32 / 16) as int), hex_digit(
            (c as u32 % 16) as int,
        )]
    } else {
        seq![c]
    }
}

/// The escaped body of a JSON string.
pub open spec fn json_escaped(s: Seq<char>) -> Seq<char>
    decreases s.len(),
{
    if s.len() == 0 {
        Seq::empty()
    } else {
        json_escaped(s.drop_last()) + esc_char(s.last())
    }
}

/// A JSON string: quote, escaped body, quote.
pub open spec fn json_string(s: Seq<char>) -> Seq<char> {
    seq!['"'] + json_escaped(s) + seq!['"']
}

/// Parse the body of a JSON string starting after the opening quote;
/// the result is the decoded characters and the position after the
/// closing quote.
pub open spec fn sp_body(s: Seq<char>, pos: int) -> Option<(Seq<char>, int)>
    decreases s.len() - pos,
{
    if pos < 0 || pos >= s.len() {
        None
    } else if s[pos] == '"' {
        Some((Seq::empty(), pos + 1))
    } else if s[pos] == '\\' {
        if pos + 2 > s.len() {
            None
        } else if s[pos + 1] == 'u' {
            if pos + 6 > s.len() {
                None
            } else {
                let h1 = hex_val(s[pos + 2]);
                let h2 = hex_val(s[pos + 3]);
                let h3 = hex_val(s[pos + 4]);
                let h4 = hex_val(s[pos + 5]);
                if h1 < 0 || h2 < 0 || h3 < 0 || h4 < 0 {
                    None
                } else {
                    let v = h1 * 4096 + h2 * 256 + h3 * 16 + h4;
                    if 0xD800 <= v && v < 0xE000 {
                        None
                    } else {
                        match sp_body(s, pos + 6) {
                            Some(t) => Some((seq![v as char] + t.0, t.1)),
                            None => None,
                        }
                    }
                }
            }
        } else {
            match esc_code(s[pos + 1]) {
                Some(c) => match sp_body(s, pos + 2) {
                    Some(t) => Some((seq![c] + t.0, t.1)),
                    None => None,
                },
                None => None,
            }
        }
    } else if (s[pos] as u32) < 32 {
        None
    } else {
        match sp_body(s, pos + 1) {
            Some(t) => Some((seq![s[pos]] + t.0, t.1)),
            None => None,
        }
    }
}

/// Parse a JSON string starting at its opening quote.
pub open spec fn sp_string(s: Seq<char>, pos: int) -> Option<(Seq<char>, int)> {
    if 0 <= pos && pos < s.len() && s[pos] == '"' {
        sp_body(s, pos + 1)
    } else {
        None
    }
}

/// A successful string-body parse lands strictly beyond `pos` and
/// within the input.
pub proof fn lemma_sp_body_bounds(s: Seq<char>, pos: int)
    ensures
        sp_body(s, pos) matches Some(t) ==> pos < t.1 <= s.len(),
    decreases s.len() - pos,
{
    if 0 <= pos && pos < s.len() {
        lemma_sp_body_bounds(s, pos + 1);
        if pos + 2 <= s.len() {
            lemma_sp_body_bounds(s, pos + 2);
        }
        if pos + 6 <= s.len() {
            lemma_sp_body_bounds(s, pos + 6);
        }
    }
}

/// A successful string parse lands strictly beyond `pos` and within
/// the input.
pub proof fn lemma_sp_string_bounds(s: Seq<char>, pos: int)
    ensures
        sp_string(s, pos) matches Some(t) ==> pos < t.1 <= s.len(),
{
    lemma_sp_body_bounds(s, pos + 1);
}

/// Executable test for a hexadecimal digit's value.
fn hex_val_exec(c: char) -> (r: i8)
    ensures
        r as int == hex_val(c),
{
    if '0' <= c && c <= '9' {
        ((c as u32) - ('0' as u32)) as i8
    } else if 'a' <= c && c <= 'f' {
        (10 + (c as u32) - ('a' as u32)) as i8
    } else if 'A' <= c && c <= 'F' {
        (10 + (c as u32) - ('A' as u32)) as i8
    } else {
        -1
    }
}

/// Relies on `char::from_u32`: `Some` exactly for Unicode scalar
/// values (below the surrogate range or between it and 0x110000),
/// returning the character with that value.
#[verifier::external_body]
fn char_from_u32(v: u32) -> (r: Option<char>)
    ensures
        r is Some <==> (v < 0xD800 || (0xE000 <= v && v < 0x110000)),
        r matches Some(c) ==> c as u32 == v,
{
    char::from_u32(v)
}

/// Parse a JSON string starting at its opening quote at `pos`; on
/// success, the decoded string and the position after the closing
/// quote.
pub fn parse_string_at(cs: &Vec<char>, pos: usize) -> (r: Option<(String, usize)>)
    requires
        pos <= cs@.len(),
    ensures
        r is Some <==> sp_string(cs@, pos as int) is Some,
        r matches Some(p) ==> sp_string(cs@, pos as int) == Some((p.0@, p.1 as int)),
{
    let s = Ghost(cs@);
    if pos >= cs.len() || cs[pos] != '"' {
        return None;
    }
    let mut acc = String::new();
    let mut i: usize = pos + 1;
    loop
        invariant
            pos + 1 <= i <= s@.len(),
            s@ == cs@,
            s@[pos as int] == '"',
            pos < s@.len(),
            sp_body(s@, pos + 1) == match sp_body(s@, i as int) {
                Some(t) => Some((acc@ + t.0, t.1)),
                None => None::<(Seq<char>, int)>,
            },
        ensures
            ({
                let r0 = sp_body(s@, pos + 1);
                match r0 {
                    Some(t) => t.0 == acc@ && pos < t.1 <= s@.len() && t.1 == i + 1,
                    None => false,
                }
            }),
        decreases s@.len() - i,
    {
        if i >= cs.len() {
            proof {
                assert(sp_body(s@, i as int) is None);
            }
            return None;
        }
        let c = cs[i];
        let ghost acc0 = acc@;
        if c == '"' {
            proof {
                assert(sp_body(s@, i as int) == Some((Seq::<char>::empty(), i + 1)));
                assert(acc@ + Seq::<char>::empty() =~= acc@);
            }
            break ;
        } else if c == '\\' {
            if cs.len() - i < 2 {
                proof {
                    assert(sp_body(s@, i as int) is None);
                }
                return None;
            }
            let c2 = cs[i + 1];
            if c2 == 'u' {
                if cs.len() - i < 6 {
                    proof {
                        assert(sp_body(s@, i as int) is None);
                    }
                    return None;
                }
                let h1 = hex_val_exec(cs[i + 2]);
                let h2 = hex_val_exec(cs[i + 3]);
                let h3 = hex_val_exec(cs[i + 4]);
                let h4 = hex_val_exec(cs[i + 5]);
                if h1 < 0 || h2 < 0 || h3 < 0 || h4 < 0 {
                    proof {
                        assert(sp_body(s@, i as int) is None);
                    }
                    return None;
                }
                let v: u32 = (h1 as u32) * 4096 + (h2 as u32) * 256 + (h3 as u32) * 16 + (
                h4 as u32);
                match char_from_u32(v) {
                    Some(dc) => {
                        push_char(&mut acc, dc);
                        proof {
                            assert(v < 0x10000);
                            vstd::utf8::char_u32_cast(dc, v);
                            assert((v as char) == dc);
                            assert((v as int) as char == dc);
                            match sp_body(s@, i + 6) {
                                Some(t6) => {
                                    assert(sp_body(s@, i as int) == Some((seq![dc] + t6.0, t6.1)));
                                    assert(acc0 + (seq![dc] + t6.0) =~= acc@ + t6.0);
                                },
                                None => {
                                    assert(sp_body(s@, i as int) is None);
                                },
                            }
                        }
                        i = i + 6;
                    },
                    None => {
                        proof {
                            assert(0xD800 <= (v as int) && (v as int) < 0xE000);
                            assert(sp_body(s@, i as int) is None);
                        }
                        return None;
                    },
                }
            } else {
                let e = esc_char_exec(c2);
                match e {
                    Some(dc) => {
                        push_char(&mut acc, dc);
                        proof {
                            match sp_body(s@, i + 2) {
                                Some(t2) => {
                                    assert(sp_body(s@, i as int) == Some((seq![dc] + t2.0, t2.1)));
                                    assert(acc0 + (seq![dc] + t2.0) =~= acc@ + t2.0);
                                },
                                None => {
                                    assert(sp_body(s@, i as int) is None);
                                },
                            }
                        }
                        i = i + 2;
                    },
                    None => {
                        proof {
                            assert(sp_body(s@, i as int) is None);
                        }
                        return None;
                    },
                }
            }
        } else if (c as u32) < 32 {
            proof {
                assert(sp_body(s@, i as int) is None);
            }
            return None;
        } else {
            push_char(&mut acc, c);
            proof {
                match sp_body(s@, i + 1) {
                    Some(t1) => {
                        assert(sp_body(s@, i as int) == Some((seq![c] + t1.0, t1.1)));
                        assert(acc0 + (seq![c] + t1.0) =~= acc@ + t1.0);
                    },
                    None => {
                        assert(sp_body(s@, i as int) is None);
                    },
                }
            }
            i = i + 1;
        }
    }
    Some((acc, i + 1))
}

/// Decimal digits.
pub open spec fn is_digit(c: char) -> bool {
    '0' <= c && c <= '9'
}

/// The digit character for a value below 10.
pub open spec fn digit_char(d: int) -> char {
    (('0' as u32) + d as u32) as char
}

/// The length of the run of digits starting at `pos`.
pub open spec fn digit_run(s: Seq<char>, pos: int) -> nat
    decreases s.len() - pos,
{
    if pos < 0 || pos >= s.len() || !is_digit(s[pos]) {
        0
    } else {
        1 + digit_run(s, pos + 1)
    }
}

/// The value of a digit string.
pub open spec fn dec_value(ds: Seq<char>) -> int
    decreases ds.len(),
{
    if ds.len() == 0 {
        0
    } else {
        dec_value(ds.drop_last()) * 10 + (ds.last() as int - '0' as int)
    }
}

/// The decimal spelling of a non-negative integer.
pub open spec fn dec_rec(n: int) -> Seq<char>
    decreases n,
{
    if n < 10 {
        seq![digit_char(n)]
    } else {
        dec_rec(n / 10).push(digit_char(n % 10))
    }
}

/// Parse a decimal `u64` starting at `pos`: a non-empty digit run,
/// no leading zero, value below 2^64.
pub open spec fn sp_u64(s: Seq<char>, pos: int) -> Option<(u64, int)> {
    let run = digit_run(s, pos) as int;
    if run == 0 {
        None
    } else if s[pos] == '0' && run > 1 {
        None
    } else if dec_value(s.subrange(pos, pos + run)) >= 0x1_0000_0000_0000_0000 {
        None
    } else {
        Some((dec_value(s.subrange(pos, pos + run)) as u64, pos + run))
    }
}

pub proof fn lemma_digit_run_bounds(s: Seq<char>, pos: int)
    ensures
        0 <= pos <= s.len() ==> pos + digit_run(s, pos) <= s.len(),
        forall|j: int| pos <= j < pos + digit_run(s, pos) ==> is_digit(#[trigger] s[j]),
        0 <= pos + digit_run(s, pos) <= s.len() ==> (pos + digit_run(s, pos) == s.len()
            || !is_digit(s[pos + digit_run(s, pos)])),
    decreases s.len() - pos,
{
    if 0 <= pos && pos < s.len() && is_digit(s[pos]) {
        lemma_digit_run_bounds(s, pos + 1);
    }
}

/// A run of digits followed by the end or by a non-digit is the digit
/// run.
pub proof fn lemma_digit_run_exact(s: Seq<char>, pos: int, n: int)
    requires
        0 <= pos,
        0 <= n,
        pos + n <= s.len(),
        forall|j: int| pos <= j < pos + n ==> is_digit(#[trigger] s[j]),
        pos + n == s.len() || !is_digit(s[pos + n]),
    ensures
        digit_run(s, pos) == n,
    decreases n,
{
    if n > 0 {
        lemma_digit_run_exact(s, pos + 1, n - 1);
    }
}

/// Digit-string values are non-negative.
pub proof fn lemma_dec_nonneg(ds: Seq<char>)
    requires
        forall|j: int| 0 <= j < ds.len() ==> is_digit(#[trigger] ds[j]),
    ensures
        dec_value(ds) >= 0,
    decreases ds.len(),
{
    if ds.len() > 0 {
        assert(forall|j: int|
            0 <= j < ds.drop_last().len() ==> is_digit(#[trigger] ds.drop_last()[j]));
        lemma_dec_nonneg(ds.drop_last());
    }
}

/// Extending a digit string never shrinks its value.
pub proof fn lemma_dec_prefix(ds: Seq<char>, n: int)
    requires
        0 <= n <= ds.len(),
        forall|j: int| 0 <= j < ds.len() ==> is_digit(#[trigger] ds[j]),
    ensures
        dec_value(ds.take(n)) <= dec_value(ds),
    decreases ds.len() - n,
{
    if n < ds.len() {
        lemma_dec_prefix(ds, n + 1);
        let p = ds.take(n + 1);
        assert(p.drop_last() =~= ds.take(n));
        assert(forall|j: int| 0 <= j < p.len() ==> is_digit(#[trigger] p[j]));
        lemma_dec_nonneg(ds.take(n));
        assert(dec_value(ds.take(n)) <= dec_value(p));
    } else {
        assert(ds.take(n) =~= ds);
    }
}

/// Parse a decimal `u64` starting at `pos`; on success, the value and
/// the position after its digits.
pub fn parse_u64_at(cs: &Vec<char>, pos: usize) -> (r: Option<(u64, usize)>)
    requires
        pos <= cs@.len(),
    ensures
        r is Some <==> sp_u64(cs@, pos as int) is Some,
        r matches Some(p) ==> sp_u64(cs@, pos as int) == Some((p.0, p.1 as int)),
{
    let ghost s = cs@;
    proof {
        lemma_digit_run_bounds(s, pos as int);
    }
    let ghost run = digit_run(s, pos as int) as int;
    if pos >= cs.len() || !is_digit_exec(cs[pos]) {
        proof {
            assert(digit_run(s, pos as int) == 0);
        }
        return None;
    }
    let mut j: usize = pos;
    let mut acc: u64 = 0;
    while j < cs.len() && is_digit_exec(cs[j])
        invariant
            pos <= j <= cs@.len(),
            s == cs@,
            pos < s.len() && is_digit(s[pos as int]),
            run == digit_run(s, pos as int) as int,
            pos + run <= s.len(),
            forall|q: int| pos <= q < pos + run ==> is_digit(#[trigger] s[q]),
            pos + run == s.len() || !is_digit(s[pos + run]),
            j <= pos + run,
            forall|q: int| pos <= q < j ==> is_digit(#[trigger] s[q]),
            acc as int == dec_value(s.subrange(pos as int, j as int)),
        decreases cs@.len() - j,
    {
        let d: u64 = (cs[j] as u32 as u64) - ('0' as u32 as u64);
        let t: u128 = (acc as u128) * 10 + (d as u128);
        proof {
            let p = s.subrange(pos as int, j + 1 as int);
            assert(p.drop_last() =~= s.subrange(pos as int, j as int));
            assert(p.last() == s[j as int]);
            assert(t as int == dec_value(p));
        }
        if t > 0xFFFF_FFFF_FFFF_FFFF {
            proof {
                let whole = s.subrange(pos as int, pos + run);
                assert(forall|q: int| 0 <= q < whole.len() ==> is_digit(#[trigger] whole[q]));
                assert(whole.take(j + 1 - pos) =~= s.subrange(pos as int, j + 1 as int));
                assert(j + 1 <= pos + run) by {
                    if j + 1 > pos + run {
                        assert(j == pos + run);
                        assert(!is_digit(s[j as int]));
                    }
                }
                lemma_dec_prefix(whole, j + 1 - pos);
                assert(dec_value(whole) >= 0x1_0000_0000_0000_0000);
            }
            return None;
        }
        acc = t as u64;
        j = j + 1;
        proof {
            assert(j <= pos + run) by {
                if j > pos + run {
                    assert(j - 1 == pos + run);
                    assert(!is_digit(s[j - 1]));
                }
            }
        }
    }
    proof {
        lemma_digit_run_exact(s, pos as int, j - pos);
        assert(run == j - pos);
    }
    if cs[pos] == '0' && j > pos + 1 {
        return None;
    }
    proof {
        assert(s.subrange(pos as int, pos + run) =~= s.subrange(pos as int, j as int));
    }
    Some((acc, j))
}

/// The position after the whitespace run at `pos`.
pub open spec fn skip_ws(s: Seq<char>, pos: int) -> int
    decreases s.len() - pos,
{
    if 0 <= pos && pos < s.len() && crate::stemmer::is_space_char(s[pos]) {
        skip_ws(s, pos + 1)
    } else {
        pos
    }
}

/// Skipping whitespace stays within the input.
pub proof fn lemma_skip_ws_bounds(s: Seq<char>, pos: int)
    requires
        0 <= pos <= s.len(),
    ensures
        pos <= skip_ws(s, pos) <= s.len(),
    decreases s.len() - pos,
{
    if pos < s.len() && crate::stemmer::is_space_char(s[pos]) {
        lemma_skip_ws_bounds(s, pos + 1);
    }
}

/// Move past the whitespace run at `pos`.
pub fn skip_ws_exec(cs: &Vec<char>, pos: usize) -> (r: usize)
    requires
        pos <= cs@.len(),
    ensures
        r == skip_ws(cs@, pos as int),
        pos <= r <= cs@.len(),
{
    let mut cur = pos;
    while cur < cs.len() && is_space_exec(cs[cur])
        invariant
            pos <= cur <= cs@.len(),
            skip_ws(cs@, pos as int) == skip_ws(cs@, cur as int),
        decreases cs@.len() - cur,
    {
        cur = cur + 1;
    }
    cur
}

/// Executable test for a word separator.
fn is_space_exec(c: char) -> (r: bool)
    ensures
        r == crate::stemmer::is_space_char(c),
{
    c == ' ' || c == '\t' || c == '\n' || c == '\r' || c == '\x0b' || c == '\x0c'
}

/// Parse the comma-separated items of a string array, starting at an
/// item and ending after the closing bracket.
pub open spec fn sp_string_items(s: Seq<char>, pos: int) -> Option<(Seq<Seq<char>>, int)>
    decreases s.len() - pos,
    via sp_string_items_dec
{
    match sp_string(s, pos) {
        None => None,
        Some(t) => {
            let v = t.0;
            let p2 = skip_ws(s, t.1);
            if p2 < s.len() && s[p2] == ']' {
                Some((seq![v], p2 + 1))
            } else if p2 < s.len() && s[p2] == ',' {
                match sp_string_items(s, skip_ws(s, p2 + 1)) {
                    Some(u) => Some((seq![v] + u.0, u.1)),
                    None => None,
                }
            } else {
                None
            }
        },
    }
}

#[via_fn]
proof fn sp_string_items_dec(s: Seq<char>, pos: int) {
    lemma_sp_string_bounds(s, pos);
    match sp_string(s, pos) {
        None => {},
        Some(t) => {
            lemma_skip_ws_bounds(s, t.1);
            let p2 = skip_ws(s, t.1);
            if p2 < s.len() && s[p2] == ',' {
                lemma_skip_ws_bounds(s, p2 + 1);
            }
        },
    }
}

/// Parse a string array starting at its opening bracket.
pub open spec fn sp_string_list(s: Seq<char>, pos: int) -> Option<(Seq<Seq<char>>, int)> {
    if 0 <= pos && pos < s.len() && s[pos] == '[' {
        let q = skip_ws(s, pos + 1);
        if q < s.len() && s[q] == ']' {
            Some((Seq::empty(), q + 1))
        } else {
            sp_string_items(s, q)
        }
    } else {
        None
    }
}

pub proof fn lemma_sp_string_items_bounds(s: Seq<char>, pos: int)
    ensures
        sp_string_items(s, pos) matches Some(t) ==> pos < t.1 <= s.len(),
    decreases s.len() - pos,
{
    lemma_sp_string_bounds(s, pos);
    match sp_string(s, pos) {
        None => {},
        Some(t) => {
            lemma_skip_ws_bounds(s, t.1);
            let p2 = skip_ws(s, t.1);
            if p2 < s.len() && s[p2] == ',' {
                lemma_skip_ws_bounds(s, p2 + 1);
                lemma_sp_string_items_bounds(s, skip_ws(s, p2 + 1));
            }
        },
    }
}

pub proof fn lemma_sp_string_list_bounds(s: Seq<char>, pos: int)
    ensures
        sp_string_list(s, pos) matches Some(t) ==> pos < t.1 <= s.len(),
{
    if 0 <= pos && pos < s.len() && s[pos] == '[' {
        lemma_skip_ws_bounds(s, pos + 1);
        lemma_sp_string_items_bounds(s, skip_ws(s, pos + 1));
    }
}

/// Parse a whole record line: `["title",["child",...]]`, with nothing
/// after it.
pub open spec fn sp_record(s: Seq<char>) -> Option<(Seq<char>, Seq<Seq<char>>)> {
    if s.len() < 1 || s[0] != '[' {
        None
    } else {
        match sp_string(s, 1) {
            None => None,
            Some(t) => {
                if t.1 < s.len() && s[t.1] == ',' {
                    match sp_string_list(s, t.1 + 1) {
                        None => None,
                        Some(u) => {
                            if u.1 + 1 == s.len() && s[u.1] == ']' {
                                Some((t.0, u.0))
                            } else {
                                None
                            }
                        },
                    }
                } else {
                    None
                }
            },
        }
    }
}

/// Parse the comma-separated items of an integer array, starting at an
/// item and ending after the closing bracket.
pub open spec fn sp_u64_items(s: Seq<char>, pos: int) -> Option<(Seq<u64>, int)>
    decreases s.len() - pos,
    via sp_u64_items_dec
{
    match sp_u64(s, pos) {
        None => None,
        Some(t) => {
            let v = t.0;
            let p2 = t.1;
            if p2 < s.len() && s[p2] == ']' {
                Some((seq![v], p2 + 1))
            } else if p2 < s.len() && s[p2] == ',' {
                match sp_u64_items(s, p2 + 1) {
                    Some(u) => Some((seq![v] + u.0, u.1)),
                    None => None,
                }
            } else {
                None
            }
        },
    }
}

#[via_fn]
proof fn sp_u64_items_dec(s: Seq<char>, pos: int) {
    lemma_digit_run_bounds(s, pos);
}

/// Parse a whole sidecar line: `[i,j,...]` of decimal integers, with
/// nothing after it; the empty array is allowed.
pub open spec fn sp_sidecar(s: Seq<char>) -> Option<Seq<u64>> {
    if s.len() < 1 || s[0] != '[' {
        None
    } else if s.len() == 2 && s[1] == ']' {
        Some(Seq::empty())
    } else {
        match sp_u64_items(s, 1) {
            None => None,
            Some(t) => {
                if t.1 == s.len() {
                    Some(t.0)
                } else {
                    None
                }
            },
        }
    }
}

/// Parse a string array starting at `pos`; on success, the items and
/// the position after the closing bracket.
pub fn parse_string_list_at(cs: &Vec<char>, pos: usize) -> (r: Option<(Vec<String>, usize)>)
    requires
        pos <= cs@.len(),
    ensures
        r is Some <==> sp_string_list(cs@, pos as int) is Some,
        r matches Some(p) ==> sp_string_list(cs@, pos as int) == Some((
            crate::stemmer::str_views(p.0@),
            p.1 as int,
        )),
{
    let ghost s = cs@;
    if pos >= cs.len() || cs[pos] != '[' {
        return None;
    }
    let q = skip_ws_exec(cs, pos + 1);
    if q < cs.len() && cs[q] == ']' {
        proof {
            assert(crate::stemmer::str_views(Seq::<String>::empty()) =~= Seq::<Seq<char>>::empty());
        }
        return Some((Vec::new(), q + 1));
    }
    let mut acc: Vec<String> = Vec::new();
    let mut i: usize = q;
    loop
        invariant_except_break
            sp_string_items(s, q as int) == match sp_string_items(s, i as int) {
                Some(t) => Some((crate::stemmer::str_views(acc@) + t.0, t.1)),
                None => None::<(Seq<Seq<char>>, int)>,
            },
        invariant
            q <= i <= s.len(),
            s == cs@,
            pos < s.len() && s[pos as int] == '[',
            q == skip_ws(s, pos + 1),
            !(q < s.len() && s[q as int] == ']'),
        ensures
            ({
                let r0 = sp_string_items(s, q as int);
                match r0 {
                    Some(t) => t.0 == crate::stemmer::str_views(acc@) && t.1 == i as int,
                    None => false,
                }
            }),
        decreases s.len() - i,
    {
        let ghost acc0 = acc@;
        let item = parse_string_at(cs, i);
        match item {
            None => {
                proof {
                    assert(sp_string_items(s, i as int) is None);
                }
                return None;
            },
            Some(p) => {
                let (v, p2) = p;
                proof {
                    lemma_sp_string_bounds(s, i as int);
                }
                let p2s = skip_ws_exec(cs, p2);
                if p2s < cs.len() && cs[p2s] == ']' {
                    proof {
                        assert(sp_string_items(s, i as int) == Some((seq![v@], p2s + 1)));
                        assert(crate::stemmer::str_views(acc0.push(v)) =~= crate::stemmer::str_views(
                            acc0,
                        ).push(v@));
                        assert(crate::stemmer::str_views(acc0) + seq![v@]
                            =~= crate::stemmer::str_views(acc0.push(v)));
                    }
                    acc.push(v);
                    i = p2s + 1;
                    break ;
                } else if p2s < cs.len() && cs[p2s] == ',' {
                    let nx = skip_ws_exec(cs, p2s + 1);
                    proof {
                        match sp_string_items(s, nx as int) {
                            Some(u) => {
                                assert(sp_string_items(s, i as int) == Some((
                                    seq![v@] + u.0,
                                    u.1,
                                )));
                                assert(crate::stemmer::str_views(acc0.push(v))
                                    =~= crate::stemmer::str_views(acc0).push(v@));
                                assert(crate::stemmer::str_views(acc0) + (seq![v@] + u.0)
                                    =~= crate::stemmer::str_views(acc0.push(v)) + u.0);
                            },
                            None => {
                                assert(sp_string_items(s, i as int) is None);
                            },
                        }
                    }
                    acc.push(v);
                    i = nx;
                } else {
                    proof {
                        assert(sp_string_items(s, i as int) is None);
                    }
                    return None;
                }
            },
        }
    }
    Some((acc, i))
}

/// Parse one record line; on success, the title and the children.
pub fn parse_record(cs: &Vec<char>) -> (r: Option<(String, Vec<String>)>)
    ensures
        r is Some <==> sp_record(cs@) is Some,
        r matches Some(p) ==> sp_record(cs@) == Some((p.0@, crate::stemmer::str_views(p.1@))),
{
    let ghost s = cs@;
    if cs.len() < 1 || cs[0] != '[' {
        return None;
    }
    let title_r = parse_string_at(cs, 1);
    match title_r {
        None => None,
        Some(tp) => {
            let (title, p1) = tp;
            proof {
                lemma_sp_string_bounds(s, 1);
            }
            if p1 < cs.len() && cs[p1] == ',' {
                let list_r = parse_string_list_at(cs, p1 + 1);
                match list_r {
                    None => None,
                    Some(lp) => {
                        let (children, p2) = lp;
                        proof {
                            lemma_sp_string_list_bounds(s, p1 + 1);
                        }
                        if p2 < cs.len() && cs[p2] == ']' && p2 + 1 == cs.len() {
                            Some((title, children))
                        } else {
                            None
                        }
                    },
                }
            } else {
                None
            }
        },
    }
}

/// Parse one sidecar line; on success, the record indices it lists.
pub fn parse_sidecar_line(cs: &Vec<char>) -> (r: Option<Vec<u64>>)
    ensures
        r is Some <==> sp_sidecar(cs@) is Some,
        r matches Some(v) ==> sp_sidecar(cs@) == Some(v@),
{
    let ghost s = cs@;
    if cs.len() < 1 || cs[0] != '[' {
        return None;
    }
    if cs.len() == 2 && cs[1] == ']' {
        let empty_list: Vec<u64> = Vec::new();
        proof {
            assert(empty_list@ =~= Seq::<u64>::empty());
        }
        return Some(empty_list);
    }
    let mut acc: Vec<u64> = Vec::new();
    let mut i: usize = 1;
    loop
        invariant_except_break
            sp_u64_items(s, 1) == match sp_u64_items(s, i as int) {
                Some(t) => Some((acc@ + t.0, t.1)),
                None => None::<(Seq<u64>, int)>,
            },
        invariant
            1 <= i <= s.len(),
            s == cs@,
            s.len() >= 1 && s[0] == '[',
            !(s.len() == 2 && s[1] == ']'),
        ensures
            ({
                let r0 = sp_u64_items(s, 1);
                match r0 {
                    Some(t) => t.0 == acc@ && t.1 == i as int,
                    None => false,
                }
            }),
        decreases s.len() - i,
    {
        let ghost acc0 = acc@;
        let item = parse_u64_at(cs, i);
        match item {
            None => {
                proof {
                    assert(sp_u64_items(s, i as int) is None);
                }
                return None;
            },
            Some(p) => {
                let (v, p2) = p;
                proof {
                    lemma_digit_run_bounds(s, i as int);
                }
                if p2 < cs.len() && cs[p2] == ']' {
                    proof {
                        assert(sp_u64_items(s, i as int) == Some((seq![v], p2 + 1)));
                        assert(acc0 + seq![v] =~= acc0.push(v));
                    }
                    acc.push(v);
                    i = p2 + 1;
                    break ;
                } else if p2 < cs.len() && cs[p2] == ',' {
                    proof {
                        match sp_u64_items(s, p2 + 1) {
                            Some(u) => {
                                assert(sp_u64_items(s, i as int) == Some((seq![v] + u.0, u.1)));
                                assert(acc0 + (seq![v] + u.0) =~= acc0.push(v) + u.0);
                            },
                            None => {
                                assert(sp_u64_items(s, i as int) is None);
                            },
                        }
                    }
                    acc.push(v);
                    i = p2 + 1;
                } else {
                    proof {
                        assert(sp_u64_items(s, i as int) is None);
                    }
                    return None;
                }
            },
        }
    }
    if i == cs.len() {
        Some(acc)
    } else {
        None
    }
}

/// The body of a JSON string array: the items, comma-separated.
pub open spec fn json_string_list_body(ss: Seq<Seq<char>>) -> Seq<char>
    decreases ss.len(),
{
    if ss.len() == 0 {
        Seq::empty()
    } else if ss.len() == 1 {
        json_string(ss[0])
    } else {
        json_string_list_body(ss.drop_last()) + seq![','] + json_string(ss.last())
    }
}

/// A JSON array of strings.
pub open spec fn json_string_list(ss: Seq<Seq<char>>) -> Seq<char> {
    seq!['['] + json_string_list_body(ss) + seq![']']
}

/// One record line: `["title",["child",...]]`.
pub open spec fn record_line(title: Seq<char>, children: Seq<Seq<char>>) -> Seq<char> {
    seq!['['] + json_string(title) + seq![','] + json_string_list(children) + seq![']']
}

/// The body of a JSON array of integers: decimal values,
/// comma-separated.
pub open spec fn int_list_body(vs: Seq<u64>) -> Seq<char>
    decreases vs.len(),
{
    if vs.len() == 0 {
        Seq::empty()
    } else if vs.len() == 1 {
        dec_rec(vs[0] as int)
    } else {
        int_list_body(vs.drop_last()) + seq![','] + dec_rec(vs.last() as int)
    }
}

/// One sidecar line: `[i,j,...]`.
pub open spec fn sidecar_line(vs: Seq<u64>) -> Seq<char> {
    seq!['['] + int_list_body(vs) + seq![']']
}

/// A decimal spelling is non-empty, all digits, and free of leading
/// zeros.
pub proof fn lemma_dec_rec_digits(n: int)
    requires
        n >= 0,
    ensures
        dec_rec(n).len() >= 1,
        forall|j: int| 0 <= j < dec_rec(n).len() ==> is_digit(#[trigger] dec_rec(n)[j]),
        dec_rec(n)[0] != '0' || dec_rec(n).len() == 1,
    decreases n,
{
    if n < 10 {
        let u = ('0' as u32) + n as u32;
        assert(48 <= u <= 57);
        assert((u as char) as u32 == u);
        assert(is_digit(digit_char(n)));
        if n > 0 {
            assert(digit_char(n) as u32 != 48);
            assert(digit_char(n) != '0');
        }
    } else {
        lemma_dec_rec_digits(n / 10);
        let p = dec_rec(n / 10);
        let d = n % 10;
        let u = ('0' as u32) + d as u32;
        assert(48 <= u <= 57);
        assert((u as char) as u32 == u);
        assert(is_digit(digit_char(d)));
        assert forall|j: int| 0 <= j < dec_rec(n).len() implies is_digit(
            #[trigger] dec_rec(n)[j],
        ) by {
            if j < p.len() {
                assert(dec_rec(n)[j] == p[j]);
            } else {
                assert(dec_rec(n)[j] == digit_char(d));
            }
        }
        if n / 10 < 10 {
            assert(p == seq![digit_char(n / 10)]);
            assert(n / 10 >= 1);
            let u0 = ('0' as u32) + (n / 10) as u32;
            assert(48 < u0 <= 57);
            assert((u0 as char) as u32 == u0);
            assert(digit_char(n / 10) != '0');
            assert(p[0] != '0');
        } else {
            lemma_dec_rec_digits(n / 100);
            assert(p == dec_rec(n / 100).push(digit_char((n / 10) % 10)));
            assert(p.len() >= 2);
            assert(p[0] != '0');
        }
        assert(dec_rec(n)[0] == p[0]);
    }
}

/// Parsing a decimal spelling gives the value back.
pub proof fn lemma_dec_value_of_rec(n: int)
    requires
        n >= 0,
    ensures
        dec_value(dec_rec(n)) == n,
    decreases n,
{
    if n < 10 {
        let u = ('0' as u32) + n as u32;
        assert(48 <= u <= 57);
        assert((u as char) as u32 == u);
        assert(seq![digit_char(n)].drop_last() =~= Seq::<char>::empty());
        assert(dec_value(Seq::<char>::empty()) == 0);
        assert(dec_value(dec_rec(n)) == digit_char(n) as int - '0' as int);
    } else {
        lemma_dec_value_of_rec(n / 10);
        let p = dec_rec(n / 10);
        let d = n % 10;
        let u = ('0' as u32) + d as u32;
        assert((u as char) as u32 == u);
        assert(p.push(digit_char(d)).drop_last() =~= p);
        assert(dec_value(dec_rec(n)) == dec_value(p) * 10 + (digit_char(d) as int - '0' as int));
    }
}

/// A decimal spelling embedded at `pos`, followed by the end or a
/// non-digit, parses to its value.
pub proof fn lemma_sp_u64_at(s: Seq<char>, pos: int, n: int)
    requires
        0 <= n <= u64::MAX,
        0 <= pos,
        pos + dec_rec(n).len() <= s.len(),
        s.subrange(pos, pos + dec_rec(n).len()) == dec_rec(n),
        pos + dec_rec(n).len() == s.len() || !is_digit(s[pos + dec_rec(n).len()]),
    ensures
        sp_u64(s, pos) == Some((n as u64, pos + dec_rec(n).len() as int)),
{
    lemma_dec_rec_digits(n);
    lemma_dec_value_of_rec(n);
    let l = dec_rec(n).len() as int;
    assert forall|j: int| pos <= j < pos + l implies is_digit(#[trigger] s[j]) by {
        assert(s[j] == s.subrange(pos, pos + l)[j - pos]);
    }
    lemma_digit_run_exact(s, pos, l);
    assert(digit_run(s, pos) == l);
    assert(s[pos] == dec_rec(n)[0]);
    assert(s.subrange(pos, pos + l) =~= s.subrange(pos, pos + digit_run(s, pos)));
    assert(dec_value(s.subrange(pos, pos + digit_run(s, pos))) == n);
}

/// The characters of an integer-array body are digits and commas.
proof fn lemma_int_list_body_chars(vs: Seq<u64>)
    ensures
        forall|j: int|
            0 <= j < int_list_body(vs).len() ==> is_digit(#[trigger] int_list_body(vs)[j])
                || int_list_body(vs)[j] == ',',
    decreases vs.len(),
{
    if vs.len() == 1 {
        lemma_dec_rec_digits(vs[0] as int);
        assert(int_list_body(vs) == dec_rec(vs[0] as int));
    } else if vs.len() > 1 {
        lemma_int_list_body_chars(vs.drop_last());
        lemma_dec_rec_digits(vs.last() as int);
        let p = int_list_body(vs.drop_last());
        let d = dec_rec(vs.last() as int);
        assert forall|j: int| 0 <= j < int_list_body(vs).len() implies is_digit(
            #[trigger] int_list_body(vs)[j],
        ) || int_list_body(vs)[j] == ',' by {
            if j < p.len() {
                assert(int_list_body(vs)[j] == p[j]);
            } else if j == p.len() {
                assert(int_list_body(vs)[j] == ',');
            } else {
                assert(int_list_body(vs)[j] == d[j - p.len() - 1]);
            }
        }
    }
}

/// The characters of a sidecar line are digits, commas, and brackets.
pub proof fn lemma_sidecar_line_chars(vs: Seq<u64>)
    ensures
        forall|j: int|
            0 <= j < sidecar_line(vs).len() ==> is_digit(#[trigger] sidecar_line(vs)[j])
                || sidecar_line(vs)[j] == ',' || sidecar_line(vs)[j] == '['
                || sidecar_line(vs)[j] == ']',
{
    lemma_int_list_body_chars(vs);
    let b = int_list_body(vs);
    assert forall|j: int| 0 <= j < sidecar_line(vs).len() implies is_digit(
        #[trigger] sidecar_line(vs)[j],
    ) || sidecar_line(vs)[j] == ',' || sidecar_line(vs)[j] == '[' || sidecar_line(vs)[j]
        == ']' by {
        if j == 0 {
            assert(sidecar_line(vs)[j] == '[');
        } else if j < b.len() + 1 {
            assert(sidecar_line(vs)[j] == b[j - 1]);
        } else {
            assert(sidecar_line(vs)[j] == ']');
        }
    }
}

/// The integer-array body from the left: the first value, then a
/// comma and the rest.
proof fn lemma_int_list_body_left(vs: Seq<u64>)
    requires
        vs.len() >= 2,
    ensures
        int_list_body(vs) == dec_rec(vs[0] as int) + seq![','] + int_list_body(vs.drop_first()),
    decreases vs.len(),
{
    if vs.len() == 2 {
        assert(vs.drop_last()[0] == vs[0]);
        assert(int_list_body(vs.drop_last()) == dec_rec(vs[0] as int));
        assert(int_list_body(vs.drop_first()) == dec_rec(vs.drop_first()[0] as int));
        assert(vs.drop_first()[0] == vs[1]);
        assert(int_list_body(vs) =~= dec_rec(vs[0] as int) + seq![','] + int_list_body(
            vs.drop_first(),
        ));
    } else {
        lemma_int_list_body_left(vs.drop_last());
        assert(vs.drop_last()[0] == vs[0]);
        assert(vs.drop_last().drop_first() =~= vs.drop_first().drop_last());
        assert(vs.drop_first().len() >= 2);
        assert(vs.drop_first().last() == vs.last());
        assert(int_list_body(vs) =~= dec_rec(vs[0] as int) + seq![','] + int_list_body(
            vs.drop_first(),
        ));
    }
}

/// An embedded integer-array body followed by the closing bracket at
/// the very end parses to its values.
proof fn lemma_sp_u64_items_at(s: Seq<char>, pos: int, vs: Seq<u64>)
    requires
        vs.len() >= 1,
        0 <= pos,
        pos + int_list_body(vs).len() + 1 == s.len(),
        s.subrange(pos, pos + int_list_body(vs).len()) == int_list_body(vs),
        s[s.len() - 1] == ']',
    ensures
        sp_u64_items(s, pos) == Some((vs, s.len() as int)),
    decreases vs.len(),
{
    let body = int_list_body(vs);
    if vs.len() == 1 {
        let d = dec_rec(vs[0] as int);
        assert(body == d);
        lemma_dec_rec_digits(vs[0] as int);
        assert(s.subrange(pos, pos + d.len()) =~= d);
        assert(s[pos + d.len()] == ']');
        assert(!is_digit(']'));
        lemma_sp_u64_at(s, pos, vs[0] as int);
        assert(sp_u64_items(s, pos) == Some((seq![vs[0]], pos + d.len() + 1)));
        assert(seq![vs[0]] =~= vs);
    } else {
        lemma_int_list_body_left(vs);
        let d = dec_rec(vs[0] as int);
        let rest = int_list_body(vs.drop_first());
        assert(body =~= d + seq![','] + rest);
        assert forall|j: int| 0 <= j < d.len() implies #[trigger] s[pos + j] == d[j] by {
            assert(s[pos + j] == s.subrange(pos, pos + body.len())[j]);
            assert(body[j] == d[j]);
        }
        assert(s.subrange(pos, pos + d.len()) =~= d);
        assert(s[pos + d.len()] == body[d.len() as int]);
        assert(body[d.len() as int] == ',');
        assert(!is_digit(','));
        lemma_sp_u64_at(s, pos, vs[0] as int);
        let p2 = pos + d.len() as int;
        assert forall|j: int|
            0 <= j < rest.len() implies #[trigger] s.subrange(
            p2 + 1,
            p2 + 1 + rest.len() as int,
        )[j] == rest[j] by {
            assert(s.subrange(p2 + 1, p2 + 1 + rest.len() as int)[j] == s[p2 + 1 + j]);
            assert(s[p2 + 1 + j] == s.subrange(pos, pos + body.len() as int)[d.len() + 1 + j]);
            assert(s.subrange(pos, pos + body.len() as int)[d.len() + 1 + j] == body[d.len() + 1
                + j]);
            assert(body[d.len() + 1 + j] == rest[j]);
        }
        assert(s.subrange(p2 + 1, p2 + 1 + rest.len() as int) =~= rest);
        assert(forall|i: int|
            0 <= i < vs.drop_first().len() ==> (#[trigger] vs.drop_first()[i]) == vs[i + 1]);
        lemma_sp_u64_items_at(s, p2 + 1, vs.drop_first());
        assert(seq![vs[0]] + vs.drop_first() =~= vs);
        assert(sp_u64_items(s, pos) == Some((seq![vs[0]] + vs.drop_first(), s.len() as int)));
        assert(seq![vs[0]] + vs.drop_first() =~= vs);
    }
}

/// Round trip: a sidecar line parses back to the values it encodes.
pub proof fn lemma_sidecar_round_trip(vs: Seq<u64>)
    ensures
        sp_sidecar(sidecar_line(vs)) == Some(vs),
{
    let s = sidecar_line(vs);
    assert(s[0] == '[');
    if vs.len() == 0 {
        assert(int_list_body(vs) =~= Seq::<char>::empty());
        assert(s.len() == 2);
        assert(s[1] == ']');
        assert(sp_sidecar(s) == Some(Seq::<u64>::empty()));
        assert(Seq::<u64>::empty() =~= vs);
    } else {
        let body = int_list_body(vs);
        lemma_int_list_body_nonempty(vs);
        assert(s.len() == body.len() + 2);
        assert(s.len() > 2 || body.len() == 1);
        assert(s[s.len() - 1] == ']');
        assert(s.subrange(1, 1 + body.len() as int) =~= body);
        lemma_sp_u64_items_at(s, 1, vs);
        if s.len() == 2 {
            assert(body.len() == 0);
            assert(false);
        }
        assert(!(s.len() == 2 && s[1] == ']'));
        assert(sp_sidecar(s) == Some(vs));
    }
}

/// A non-empty value list has a non-empty body.
proof fn lemma_int_list_body_nonempty(vs: Seq<u64>)
    requires
        vs.len() >= 1,
    ensures
        int_list_body(vs).len() >= 1,
{
    lemma_dec_rec_digits(vs.last() as int);
    if vs.len() == 1 {
        assert(int_list_body(vs) == dec_rec(vs[0] as int));
        assert(vs[0] == vs.last());
    }
}

/// The hexadecimal digit character of a value below 16.
fn hex_digit_exec(v: u32) -> (r: char)
    requires
        v < 16,
    ensures
        r == hex_digit(v as int),
{
    if v < 10 {
        (48 + v as u8) as char
    } else {
        (87 + v as u8) as char
    }
}

/// Append the JSON string form of `s` (quotes and escapes included).
pub fn write_json_string(out: &mut String, s: &str)
    ensures
        final(out)@ == old(out)@ + json_string(s@),
{
    let ghost base = out@;
    push_char(out, '"');
    let cv = str_to_chars(s);
    let mut i: usize = 0;
    proof {
        assert(json_escaped(cv@.take(0)) =~= Seq::<char>::empty());
        assert(out@ =~= base + seq!['"'] + json_escaped(cv@.take(0)));
    }
    while i < cv.len()
        invariant
            0 <= i <= cv@.len(),
            cv@ == s@,
            out@ == base + seq!['"'] + json_escaped(cv@.take(i as int)),
        decreases cv@.len() - i,
    {
        let c = cv[i];
        let ghost pre = out@;
        if c == '"' {
            push_char(out, '\\');
            push_char(out, '"');
        } else if c == '\\' {
            push_char(out, '\\');
            push_char(out, '\\');
        } else if c == '\x08' {
            push_char(out, '\\');
            push_char(out, 'b');
        } else if c == '\x0c' {
            push_char(out, '\\');
            push_char(out, 'f');
        } else if c == '\n' {
            push_char(out, '\\');
            push_char(out, 'n');
        } else if c == '\r' {
            push_char(out, '\\');
            push_char(out, 'r');
        } else if c == '\t' {
            push_char(out, '\\');
            push_char(out, 't');
        } else if (c as u32) < 32 {
            push_char(out, '\\');
            push_char(out, 'u');
            push_char(out, '0');
            push_char(out, '0');
            let h1 = hex_digit_exec((c as u32) / 16);
            push_char(out, h1);
            let h2 = hex_digit_exec((c as u32) % 16);
            push_char(out, h2);
        } else {
            push_char(out, c);
        }
        proof {
            assert(out@ =~= pre + esc_char(c));
            assert(cv@.take(i + 1 as int).drop_last() =~= cv@.take(i as int));
            assert(cv@.take(i + 1 as int).last() == c);
            assert(out@ =~= base + seq!['"'] + json_escaped(cv@.take(i + 1 as int)));
        }
        i = i + 1;
    }
    push_char(out, '"');
    proof {
        assert(cv@.take(cv@.len() as int) =~= cv@);
        assert(out@ =~= base + json_string(s@));
    }
}

/// Append the decimal form of `n`.
pub fn write_u64(out: &mut String, n: u64)
    ensures
        final(out)@ == old(out)@ + dec_rec(n as int),
{
    let ghost base = out@;
    let mut tmp: Vec<char> = Vec::new();
    let mut cur: u64 = n;
    loop
        invariant_except_break
            dec_rec(n as int) == dec_rec(cur as int) + tmp@.reverse(),
        ensures
            dec_rec(n as int) == tmp@.reverse(),
        decreases cur,
    {
        let d: u32 = (cur % 10) as u32;
        let dc = hex_digit_exec(d);
        let ghost tmp0 = tmp@;
        tmp.push(dc);
        proof {
            assert(dc == digit_char((cur % 10) as int));
            assert(tmp0.push(dc).reverse() =~= seq![dc] + tmp0.reverse());
        }
        cur = cur / 10;
        if cur == 0 {
            proof {
                assert(dec_rec((cur * 10 + d) as int) =~= seq![dc]);
            }
            break ;
        }
        proof {
            assert(dec_rec((cur as int) * 10 + d) == dec_rec(cur as int).push(dc));
            assert(dec_rec(cur as int).push(dc) =~= dec_rec(cur as int) + seq![dc]);
            assert(dec_rec(cur as int) + seq![dc] + tmp0.reverse() =~= dec_rec(cur as int) + (
            seq![dc] + tmp0.reverse()));
        }
    }
    let m = tmp.len();
    let mut j: usize = 0;
    while j < m
        invariant
            0 <= j <= m,
            m == tmp@.len(),
            dec_rec(n as int) == tmp@.reverse(),
            out@ == base + tmp@.reverse().take(j as int),
        decreases m - j,
    {
        let c = tmp[m - 1 - j];
        push_char(out, c);
        proof {
            assert(tmp@.reverse()[j as int] == tmp@[m - 1 - j]);
            assert(tmp@.reverse().take(j + 1 as int) =~= tmp@.reverse().take(j as int).push(c));
        }
        j = j + 1;
    }
    proof {
        assert(tmp@.reverse().take(tmp@.len() as int) =~= tmp@.reverse());
    }
}

/// Append the JSON array form of a list of strings.
pub fn write_string_list(out: &mut String, items: &Vec<String>)
    ensures
        final(out)@ == old(out)@ + json_string_list(crate::stemmer::str_views(items@)),
{
    let ghost base = out@;
    let ghost views = crate::stemmer::str_views(items@);
    push_char(out, '[');
    let mut i: usize = 0;
    proof {
        assert(json_string_list_body(views.take(0)) =~= Seq::<char>::empty());
        assert(out@ =~= base + seq!['['] + json_string_list_body(views.take(0)));
    }
    while i < items.len()
        invariant
            0 <= i <= items@.len(),
            views == crate::stemmer::str_views(items@),
            out@ == base + seq!['['] + json_string_list_body(views.take(i as int)),
        decreases items@.len() - i,
    {
        let ghost pre = out@;
        if i > 0 {
            push_char(out, ',');
        }
        write_json_string(out, items[i].as_str());
        proof {
            let t = views.take(i + 1 as int);
            assert(t.drop_last() =~= views.take(i as int));
            assert(t.last() == views[i as int]);
            if i == 0 {
                assert(json_string_list_body(t) == json_string(views[0]));
                assert(out@ =~= base + seq!['['] + json_string_list_body(t));
            } else {
                assert(json_string_list_body(t) == json_string_list_body(views.take(i as int))
                    + seq![','] + json_string(views[i as int]));
                assert(out@ =~= base + seq!['['] + json_string_list_body(t));
            }
        }
        i = i + 1;
    }
    push_char(out, ']');
    proof {
        assert(views.take(views.len() as int) =~= views);
        assert(out@ =~= base + json_string_list(views));
    }
}

/// The canonical text of one record line.
pub fn encode_record(title: &str, children: &Vec<String>) -> (r: String)
    ensures
        r@ == record_line(title@, crate::stemmer::str_views(children@)),
{
    let mut out = String::new();
    push_char(&mut out, '[');
    write_json_string(&mut out, title);
    push_char(&mut out, ',');
    write_string_list(&mut out, children);
    push_char(&mut out, ']');
    proof {
        assert(out@ =~= record_line(title@, crate::stemmer::str_views(children@)));
    }
    out
}

/// The canonical text of one sidecar line.
pub fn encode_sidecar_line(vals: &Vec<u64>) -> (r: String)
    ensures
        r@ == sidecar_line(vals@),
{
    let mut out = String::new();
    push_char(&mut out, '[');
    let mut i: usize = 0;
    proof {
        assert(int_list_body(vals@.take(0)) =~= Seq::<char>::empty());
        assert(out@ =~= seq!['['] + int_list_body(vals@.take(0)));
    }
    while i < vals.len()
        invariant
            0 <= i <= vals@.len(),
            out@ == seq!['['] + int_list_body(vals@.take(i as int)),
        decreases vals@.len() - i,
    {
        if i > 0 {
            push_char(&mut out, ',');
        }
        write_u64(&mut out, vals[i]);
        proof {
            let t = vals@.take(i + 1 as int);
            assert(t.drop_last() =~= vals@.take(i as int));
            assert(t.last() == vals@[i as int]);
            assert(out@ =~= seq!['['] + int_list_body(t));
        }
        i = i + 1;
    }
    push_char(&mut out, ']');
    proof {
        assert(vals@.take(vals@.len() as int) =~= vals@);
        assert(out@ =~= sidecar_line(vals@));
    }
    out
}

/// Executable digit test.
fn is_digit_exec(c: char) -> (r: bool)
    ensures
        r == is_digit(c),
{
    '0' <= c && c <= '9'
}

/// Executable single-character escape decoding.
fn esc_char_exec(c: char) -> (r: Option<char>)
    ensures
        r == esc_code(c),
{
    if c == '"' {
        Some('"')
    } else if c == '\\' {
        Some('\\')
    } else if c == '/' {
        Some('/')
    } else if c == 'b' {
        Some('\x08')
    } else if c == 'f' {
        Some('\x0c')
    } else if c == 'n' {
        Some('\n')
    } else if c == 'r' {
        Some('\r')
    } else if c == 't' {
        Some('\t')
    } else {
        None
    }
}

} // verus!

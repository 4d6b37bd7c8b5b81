//! Record files as lines with byte offsets.
//!
//! A record file is UTF-8 text, one record per line. This module
//! splits text into lines, computes each line's starting byte offset
//! in the UTF-8 encoding — the offsets the on-disk index stores — and
//! proves that the offset table addresses the lines exactly.

use vstd::prelude::*;

verus! {

use vstd::utf8::{encode_utf8, encode_scalar};

/// UTF-8 encoding distributes over concatenation.
pub proof fn lemma_encode_concat(a: Seq<char>, b: Seq<char>)
    ensures
        encode_utf8(a + b) == encode_utf8(a) + encode_utf8(b),
    decreases a.len(),
{
    if a.len() == 0 {
        assert(a + b =~= b);
        assert(encode_utf8(a) + encode_utf8(b) =~= encode_utf8(b));
    } else {
        assert((a + b).drop_first() =~= a.drop_first() + b);
        lemma_encode_concat(a.drop_first(), b);
        assert((a + b)[0] == a[0]);
        assert(encode_utf8(a + b) =~= encode_utf8(a) + encode_utf8(b));
    }
}

/// Every scalar encodes to one through four bytes.
pub proof fn lemma_encode_scalar_len(u: u32)
    ensures
        1 <= encode_scalar(u).len() <= 4,
{
}

/// A single character encodes to its scalar's encoding.
pub proof fn lemma_encode_singleton(c: char)
    ensures
        encode_utf8(seq![c]) == encode_scalar(c as u32),
{
    assert(seq![c].drop_first() =~= Seq::<char>::empty());
    assert(encode_utf8(Seq::<char>::empty()) =~= Seq::<u8>::empty());
    assert(encode_scalar(c as u32) + Seq::<u8>::empty() =~= encode_scalar(c as u32));
}

/// A newline encodes to the single byte 10.
pub proof fn lemma_encode_newline()
    ensures
        encode_utf8(seq!['\n']) == seq![10u8],
{
    lemma_encode_singleton('\n');
    assert('\n' as u32 == 10);
    assert((10u32 & 0x7F) == 10u32) by (bit_vector);
    assert(encode_scalar(10u32) =~= seq![10u8]);
}

/// A character sequence's encoding is at least as long as the sequence
/// and at most four times as long.
pub proof fn lemma_encode_len_bounds(s: Seq<char>)
    ensures
        s.len() <= encode_utf8(s).len() <= 4 * s.len(),
    decreases s.len(),
{
    if s.len() > 0 {
        lemma_encode_scalar_len(s[0] as u32);
        lemma_encode_len_bounds(s.drop_first());
    }
}

/// The length of the leading run of characters that are not newlines.
pub open spec fn nl_run(s: Seq<char>) -> nat
    decreases s.len(),
{
    if s.len() == 0 || s[0] == '\n' {
        0
    } else {
        1 + nl_run(s.skip(1))
    }
}

pub proof fn lemma_nl_run_le(s: Seq<char>)
    ensures
        nl_run(s) <= s.len(),
    decreases s.len(),
{
    if s.len() > 0 && s[0] != '\n' {
        lemma_nl_run_le(s.skip(1));
    }
}

/// A run of non-newline characters followed by the end or by a newline
/// is the leading run.
pub proof fn lemma_nl_run_exact(s: Seq<char>, n: int)
    requires
        0 <= n <= s.len(),
        forall|j: int| 0 <= j < n ==> s[j] != '\n',
        n == s.len() || s[n] == '\n',
    ensures
        nl_run(s) == n,
    decreases n,
{
    if n > 0 {
        assert(forall|j: int| 0 <= j < n - 1 ==> s.skip(1)[j] == s[j + 1]);
        if n - 1 < s.skip(1).len() {
            assert(s.skip(1)[n - 1] == s[n]);
        }
        lemma_nl_run_exact(s.skip(1), n - 1);
    }
}

/// The lines of a text: pieces separated by newlines, with no entry
/// for a final empty piece after a trailing newline.
pub open spec fn split_lines(s: Seq<char>) -> Seq<Seq<char>>
    decreases s.len(),
    via split_lines_dec
{
    if s.len() == 0 {
        Seq::empty()
    } else {
        let r = nl_run(s) as int;
        let rest = if r < s.len() {
            s.skip(r + 1)
        } else {
            s.skip(r)
        };
        seq![s.take(r)] + split_lines(rest)
    }
}

#[via_fn]
proof fn split_lines_dec(s: Seq<char>) {
    lemma_nl_run_le(s);
}

/// The byte offset at which line `i` starts: every earlier line's
/// encoding plus its newline byte.
pub open spec fn line_start_spec(lines: Seq<Seq<char>>, i: int) -> int
    decreases i,
{
    if i <= 0 {
        0
    } else {
        line_start_spec(lines, i - 1) + encode_utf8(lines[i - 1]).len() + 1
    }
}

/// Text that is empty or ends with a newline.
pub open spec fn terminated(s: Seq<char>) -> bool {
    s.len() == 0 || s.last() == '\n'
}

/// Each line followed by a newline, concatenated.
pub open spec fn rejoin(lines: Seq<Seq<char>>) -> Seq<char>
    decreases lines.len(),
{
    if lines.len() == 0 {
        Seq::empty()
    } else {
        lines[0] + seq!['\n'] + rejoin(lines.drop_first())
    }
}

/// Terminated text is exactly its lines, each with its newline.
pub proof fn lemma_rejoin(s: Seq<char>)
    requires
        terminated(s),
    ensures
        rejoin(split_lines(s)) == s,
    decreases s.len(),
{
    if s.len() != 0 {
        lemma_nl_run_le(s);
        let r = nl_run(s) as int;
        if r == s.len() {
            assert(s.last() == '\n');
            assert(forall|j: int| 0 <= j < r ==> s[j] != '\n') by {
                lemma_nl_run_all(s, r);
            }
            assert(false);
        } else {
            assert(s[r] == '\n') by {
                lemma_nl_run_all(s, r);
            }
            let rest = s.skip(r + 1);
            assert(terminated(rest)) by {
                if rest.len() > 0 {
                    assert(rest.last() == s.last());
                }
            }
            lemma_rejoin(rest);
            assert(split_lines(s).drop_first() =~= split_lines(rest));
            assert(split_lines(s)[0] == s.take(r));
            assert(s.take(r) + seq!['\n'] + rest =~= s);
        }
    }
}

/// The leading run's characters are not newlines and, when the run
/// stops short of the end, a newline follows.
proof fn lemma_nl_run_all(s: Seq<char>, r: int)
    requires
        r == nl_run(s) as int,
    ensures
        forall|j: int| 0 <= j < r ==> s[j] != '\n',
        r < s.len() ==> s[r] == '\n',
    decreases s.len(),
{
    lemma_nl_run_le(s);
    if s.len() > 0 && s[0] != '\n' {
        lemma_nl_run_all(s.skip(1), r - 1);
        assert(forall|j: int| 1 <= j < r ==> s[j] == s.skip(1)[j - 1]);
        if r < s.len() {
            assert(s[r] == s.skip(1)[r - 1]);
        }
    }
}

/// Rejoining from the right: everything but the last line, then the
/// last line and its newline.
pub proof fn lemma_rejoin_right(ls: Seq<Seq<char>>)
    requires
        ls.len() >= 1,
    ensures
        rejoin(ls) == rejoin(ls.drop_last()) + ls.last() + seq!['\n'],
    decreases ls.len(),
{
    if ls.len() == 1 {
        assert(rejoin(ls.drop_first()) =~= Seq::<char>::empty());
        assert(rejoin(ls.drop_last()) =~= Seq::<char>::empty());
        assert(rejoin(ls) =~= rejoin(ls.drop_last()) + ls.last() + seq!['\n']);
    } else {
        lemma_rejoin_right(ls.drop_first());
        assert(ls.drop_first().drop_last() =~= ls.drop_last().drop_first());
        assert(ls.drop_first().last() == ls.last());
        assert(ls.drop_last()[0] == ls[0]);
        assert(rejoin(ls.drop_last()) == ls[0] + seq!['\n'] + rejoin(
            ls.drop_last().drop_first(),
        ));
        assert(rejoin(ls) =~= rejoin(ls.drop_last()) + ls.last() + seq!['\n']);
    }
}

/// Splitting a rejoin of newline-free lines gives the lines back.
pub proof fn lemma_split_rejoin(ls: Seq<Seq<char>>)
    requires
        forall|a: int, j: int|
            0 <= a < ls.len() && 0 <= j < ls[a].len() ==> (#[trigger] ls[a][j]) != '\n',
    ensures
        split_lines(rejoin(ls)) == ls,
    decreases ls.len(),
{
    if ls.len() == 0 {
        assert(split_lines(rejoin(ls)) =~= ls);
    } else {
        let j = rejoin(ls);
        let w0 = ls[0];
        let rest = rejoin(ls.drop_first());
        assert(j == w0 + seq!['\n'] + rest) by {
            assert(j =~= w0 + seq!['\n'] + rest);
        }
        assert forall|i: int| 0 <= i < w0.len() implies #[trigger] j[i] != '\n' by {
            assert(j[i] == w0[i]);
        }
        assert(j[w0.len() as int] == '\n');
        lemma_nl_run_exact(j, w0.len() as int);
        assert(j.take(w0.len() as int) =~= w0);
        assert(j.skip(w0.len() as int + 1) =~= rest);
        assert(forall|a: int|
            0 <= a < ls.drop_first().len() ==> (#[trigger] ls.drop_first()[a]) == ls[a + 1]);
        lemma_split_rejoin(ls.drop_first());
        assert(split_lines(j) == seq![w0] + split_lines(rest));
        assert(split_lines(j) =~= ls);
    }
}

/// Line starts are within the whole encoding, and the slice of the
/// encoding between consecutive starts is the line's encoding plus
/// its newline byte.
pub proof fn lemma_line_byte_ranges(s: Seq<char>, i: int)
    requires
        terminated(s),
        0 <= i < split_lines(s).len(),
    ensures
        0 <= line_start_spec(split_lines(s), i),
        line_start_spec(split_lines(s), i + 1) <= encode_utf8(s).len(),
        encode_utf8(s).subrange(
            line_start_spec(split_lines(s), i),
            line_start_spec(split_lines(s), i + 1),
        ) == encode_utf8(split_lines(s)[i]) + seq![10u8],
{
    lemma_rejoin(s);
    lemma_rejoin_ranges(split_lines(s), i);
    lemma_encode_newline();
    assert(encode_utf8(split_lines(s)[i]) + encode_utf8(seq!['\n']) =~= encode_utf8(
        split_lines(s)[i],
    ) + seq![10u8]);
}

/// The same statement over `rejoin` of any line sequence.
proof fn lemma_rejoin_ranges(lines: Seq<Seq<char>>, i: int)
    requires
        0 <= i < lines.len(),
    ensures
        0 <= line_start_spec(lines, i),
        line_start_spec(lines, i + 1) <= encode_utf8(rejoin(lines)).len(),
        encode_utf8(rejoin(lines)).subrange(
            line_start_spec(lines, i),
            line_start_spec(lines, i + 1),
        ) == encode_utf8(lines[i]) + encode_utf8(seq!['\n']),
    decreases i,
{
    let whole = encode_utf8(rejoin(lines));
    let head = lines[0] + seq!['\n'];
    let rest = lines.drop_first();
    lemma_encode_concat(lines[0] + seq!['\n'], rejoin(rest));
    lemma_encode_concat(lines[0], seq!['\n']);
    lemma_encode_newline();
    assert(rejoin(lines) =~= head + rejoin(rest));
    assert(encode_utf8(head) == encode_utf8(lines[0]) + encode_utf8(seq!['\n']));
    let hlen = encode_utf8(head).len() as int;
    assert(hlen == encode_utf8(lines[0]).len() + 1);
    if i == 0 {
        assert(line_start_spec(lines, 0) == 0);
        assert(line_start_spec(lines, 1) == hlen);
        assert(whole.subrange(0, hlen) =~= encode_utf8(head));
        assert(encode_utf8(head) == encode_utf8(lines[0]) + encode_utf8(seq!['\n']));
    } else {
        lemma_rejoin_ranges(rest, i - 1);
        lemma_line_start_shift(lines, i);
        lemma_line_start_shift(lines, i + 1);
        let sub = encode_utf8(rejoin(rest));
        assert(whole =~= encode_utf8(head) + sub);
        assert(whole.subrange(
            line_start_spec(lines, i),
            line_start_spec(lines, i + 1),
        ) =~= sub.subrange(line_start_spec(rest, i - 1), line_start_spec(rest, i)));
        assert(rest[i - 1] == lines[i]);
    }
}

/// Dropping the first line shifts every start by the first line's
/// encoded length plus one.
proof fn lemma_line_start_shift(lines: Seq<Seq<char>>, i: int)
    requires
        1 <= i <= lines.len(),
    ensures
        line_start_spec(lines, i) == encode_utf8(lines[0]).len() + 1 + line_start_spec(
            lines.drop_first(),
            i - 1,
        ),
    decreases i,
{
    if i == 1 {
        assert(line_start_spec(lines, 0) == 0);
        assert(line_start_spec(lines.drop_first(), 0) == 0);
    } else {
        lemma_line_start_shift(lines, i - 1);
        assert(lines.drop_first()[i - 2] == lines[i - 1]);
    }
}

/// Line starts never decrease.
pub proof fn lemma_line_start_monotone(lines: Seq<Seq<char>>, i: int, j: int)
    requires
        0 <= i <= j,
    ensures
        line_start_spec(lines, i) <= line_start_spec(lines, j),
    decreases j - i,
{
    if i < j {
        lemma_line_start_monotone(lines, i, j - 1);
    }
}

/// The number of bytes `c` occupies in UTF-8.
pub fn char_utf8_len(c: char) -> (r: usize)
    ensures
        r == encode_scalar(c as u32).len(),
        1 <= r <= 4,
{
    let u = c as u32;
    if u < 0x80 {
        1
    } else if u < 0x800 {
        2
    } else if u < 0x10000 {
        3
    } else {
        4
    }
}

/// The characters of `cs` from `from` (inclusive) to `to` (exclusive),
/// as their own vector.
pub fn subrange_vec(cs: &Vec<char>, from: usize, to: usize) -> (r: Vec<char>)
    requires
        from <= to <= cs@.len(),
    ensures
        r@ == cs@.subrange(from as int, to as int),
{
    let mut r: Vec<char> = Vec::new();
    let mut i: usize = from;
    proof {
        assert(r@ =~= cs@.subrange(from as int, from as int));
    }
    while i < to
        invariant
            from <= i <= to <= cs@.len(),
            r@ == cs@.subrange(from as int, i as int),
        decreases to - i,
    {
        r.push(cs[i]);
        proof {
            assert(cs@.subrange(from as int, i + 1 as int) =~= cs@.subrange(
                from as int,
                i as int,
            ).push(cs@[i as int]));
        }
        i = i + 1;
    }
    r
}

/// The views of a sequence of character vectors.
pub open spec fn line_views(ls: Seq<Vec<char>>) -> Seq<Seq<char>> {
    ls.map_values(|l: Vec<char>| l@)
}

/// Split text into its lines.
pub fn split_lines_exec(text: &Vec<char>) -> (r: Vec<Vec<char>>)
    ensures
        line_views(r@) == split_lines(text@),
{
    let mut r: Vec<Vec<char>> = Vec::new();
    let mut pos: usize = 0;
    proof {
        assert(text@.skip(0) =~= text@);
        assert(line_views(r@) =~= Seq::<Seq<char>>::empty());
        assert(line_views(r@) + split_lines(text@) =~= split_lines(text@));
    }
    while pos < text.len()
        invariant
            0 <= pos <= text@.len(),
            line_views(r@) + split_lines(text@.skip(pos as int)) == split_lines(text@),
        decreases text@.len() - pos,
    {
        let mut end: usize = pos;
        while end < text.len() && text[end] != '\n'
            invariant
                pos <= end <= text@.len(),
                forall|j: int| pos <= j < end ==> text@[j] != '\n',
            decreases text@.len() - end,
        {
            end = end + 1;
        }
        let line = subrange_vec(text, pos, end);
        let ghost tail = text@.skip(pos as int);
        proof {
            assert(forall|j: int| 0 <= j < end - pos ==> tail[j] != '\n');
            if end - pos < tail.len() {
                assert(tail[end - pos] == text@[end as int]);
            }
            lemma_nl_run_exact(tail, end - pos);
            assert(tail.take(end - pos) =~= text@.subrange(pos as int, end as int));
        }
        let next = if end < text.len() {
            proof {
                assert(tail.skip(end - pos + 1) =~= text@.skip(end + 1 as int));
            }
            end + 1
        } else {
            proof {
                assert(tail.skip(end - pos) =~= text@.skip(end as int));
            }
            end
        };
        proof {
            assert(split_lines(tail) == seq![line@] + split_lines(text@.skip(next as int)));
            assert(line_views(r@.push(line)) =~= line_views(r@).push(line@));
            assert(line_views(r@.push(line)) + split_lines(text@.skip(next as int)) =~= line_views(
                r@,
            ) + split_lines(tail));
        }
        r.push(line);
        proof {
            assert(next > pos || end == pos && next == end);
        }
        if next == pos {
            // a line of length zero with no newline cannot occur: the
            // run either advances or ends at a newline
            proof {
                assert(end == pos && end == text@.len());
                assert(false);
            }
        }
        pos = next;
    }
    proof {
        assert(text@.skip(text@.len() as int) =~= Seq::<char>::empty());
        assert(line_views(r@) + split_lines(Seq::<char>::empty()) =~= line_views(r@));
    }
    r
}

/// The starting byte offset of each line, with the sentinel after the
/// last; `None` when the offsets would not fit in 64 bits.
pub fn compute_line_starts(lines: &Vec<Vec<char>>) -> (r: Option<Vec<u64>>)
    ensures
        r is Some <==> line_start_spec(line_views(lines@), lines@.len() as int)
            <= u64::MAX,
        r matches Some(v) ==> {
            &&& v@.len() == lines@.len() + 1
            &&& forall|i: int|
                0 <= i <= lines@.len() ==> v@[i] == line_start_spec(line_views(lines@), i)
        },
{
    let ghost views = line_views(lines@);
    let mut r: Vec<u64> = Vec::new();
    let mut acc: u128 = 0;
    r.push(0);
    let mut i: usize = 0;
    while i < lines.len()
        invariant
            0 <= i <= lines@.len(),
            views == line_views(lines@),
            acc == line_start_spec(views, i as int),
            acc <= u64::MAX,
            r@.len() == i + 1,
            forall|j: int| 0 <= j <= i ==> r@[j] == line_start_spec(views, j),
        decreases lines@.len() - i,
    {
        let ll = lines[i].len();
        let b = line_byte_len(&lines[i]);
        let next: u128 = acc + b + 1;
        if next > u64::MAX as u128 {
            proof {
                assert(line_start_spec(views, i + 1) == next);
                lemma_line_start_monotone(views, i + 1, lines@.len() as int);
            }
            return None;
        }
        acc = next;
        r.push(acc as u64);
        i = i + 1;
    }
    Some(r)
}

/// The number of bytes a line occupies in UTF-8.
fn line_byte_len(line: &Vec<char>) -> (r: u128)
    ensures
        r == encode_utf8(line@).len(),
        r <= 4 * line@.len(),
{
    let n = line.len();
    let mut acc: u128 = 0;
    let mut i: usize = 0;
    proof {
        assert(encode_utf8(line@.take(0)) =~= Seq::<u8>::empty());
    }
    while i < n
        invariant
            0 <= i <= n,
            n == line@.len(),
            acc == encode_utf8(line@.take(i as int)).len(),
            acc <= 4 * i,
        decreases n - i,
    {
        let w = char_utf8_len(line[i]);
        proof {
            lemma_take_step(line@, i as int);
        }
        proof {
            assert(acc + w <= 4 * (i + 1));
        }
        acc = acc + w as u128;
        i = i + 1;
    }
    proof {
        assert(line@.take(line@.len() as int) =~= line@);
    }
    acc
}

/// Encoding one more character appends that character's encoding.
proof fn lemma_take_step(s: Seq<char>, i: int)
    requires
        0 <= i < s.len(),
    ensures
        encode_utf8(s.take(i + 1)) == encode_utf8(s.take(i)) + encode_scalar(s[i] as u32),
{
    assert(s.take(i + 1) =~= s.take(i) + seq![s[i]]);
    lemma_encode_concat(s.take(i), seq![s[i]]);
    lemma_encode_singleton(s[i]);
}

} // verus!

//! The stem indexes over title-to-children records.
//!
//! `FstIndex` keeps the record file's lines with their byte offsets
//! and resolves stems through a finite-state transducer whose values
//! index a table of record-index lists. `InMemoryIndex` keeps parsed
//! payloads and a direct stem table. Both answer `search`: stem the
//! term, look every stem up, and map each found record's children to
//! its title, later writes winning.

use vstd::prelude::*;

verus! {

use crate::dict::Dict;
use crate::stemmer::{generate_stems, stems_seq, str_views};
use crate::codec::sp_record;
use crate::chars::str_to_chars;
use vstd::string::StringExecFns;

/// Why a build was abandoned.
#[derive(Debug, PartialEq, Eq, Structural)]
pub enum IndexBuildError {
    /// A line did not parse as a record.
    MalformedRecord,
    /// The byte offsets would not fit in 64 bits.
    Oversized,
    /// Two titles produced the same stem where unique stems were
    /// required.
    DuplicateStem,
    /// A sidecar line did not parse as a list of record indices.
    BadSidecar,
}

/// `m` with `title` written under every child, in order; later
/// children win.
pub open spec fn add_children(
    m: Map<Seq<char>, Seq<char>>,
    title: Seq<char>,
    children: Seq<Seq<char>>,
) -> Map<Seq<char>, Seq<char>>
    decreases children.len(),
{
    if children.len() == 0 {
        m
    } else {
        add_children(m, title, children.drop_last()).insert(children.last(), title)
    }
}

/// `m` with `idx` appended to every listed stem's record list, in
/// order.
pub open spec fn add_stems_usize(
    m: Map<Seq<char>, Seq<usize>>,
    stems: Seq<Seq<char>>,
    idx: usize,
) -> Map<Seq<char>, Seq<usize>>
    decreases stems.len(),
{
    if stems.len() == 0 {
        m
    } else {
        let m2 = add_stems_usize(m, stems.drop_last(), idx);
        let s = stems.last();
        let prior = if m2.contains_key(s) {
            m2[s]
        } else {
            Seq::empty()
        };
        m2.insert(s, prior.push(idx))
    }
}

/// A line that contributes to the in-memory index: it parses and its
/// title has at least one stem.
pub open spec fn inmem_keeps(line: Seq<char>, k: int, whole: bool) -> bool {
    &&& sp_record(line) is Some
    &&& stems_seq(sp_record(line).unwrap().0, k, whole).len() > 0
}

/// The payloads of the kept lines, in order: the title followed by
/// the children.
pub open spec fn inmem_payloads(lines: Seq<Seq<char>>, k: int, whole: bool) -> Seq<
    Seq<Seq<char>>,
>
    decreases lines.len(),
{
    if lines.len() == 0 {
        Seq::empty()
    } else {
        let p = inmem_payloads(lines.drop_last(), k, whole);
        if inmem_keeps(lines.last(), k, whole) {
            let r = sp_record(lines.last()).unwrap();
            p.push(seq![r.0] + r.1)
        } else {
            p
        }
    }
}

/// The stem table of the kept lines: each stem of a kept title lists
/// the payload indices of the records it came from, in order.
pub open spec fn inmem_table(lines: Seq<Seq<char>>, k: int, whole: bool) -> Map<
    Seq<char>,
    Seq<usize>,
>
    decreases lines.len(),
{
    if lines.len() == 0 {
        Map::empty()
    } else {
        let m = inmem_table(lines.drop_last(), k, whole);
        if inmem_keeps(lines.last(), k, whole) {
            let r = sp_record(lines.last()).unwrap();
            add_stems_usize(
                m,
                stems_seq(r.0, k, whole),
                inmem_payloads(lines.drop_last(), k, whole).len() as usize,
            )
        } else {
            m
        }
    }
}

/// One payload's contribution to a search result: its children mapped
/// to its title.
pub open spec fn add_payload(
    m: Map<Seq<char>, Seq<char>>,
    payload: Seq<Seq<char>>,
) -> Map<Seq<char>, Seq<char>> {
    if payload.len() >= 1 {
        add_children(m, payload[0], payload.skip(1))
    } else {
        m
    }
}

/// The contributions of a list of payload indices, in order.
pub open spec fn add_bucket(
    m: Map<Seq<char>, Seq<char>>,
    payloads: Seq<Seq<Seq<char>>>,
    idxs: Seq<usize>,
) -> Map<Seq<char>, Seq<char>>
    decreases idxs.len(),
{
    if idxs.len() == 0 {
        m
    } else {
        let m2 = add_bucket(m, payloads, idxs.drop_last());
        let li = idxs.last() as int;
        if 0 <= li < payloads.len() {
            add_payload(m2, payloads[li])
        } else {
            m2
        }
    }
}

/// A search over a stem table: each stem of the term, in order, looks
/// its record list up and contributes it.
pub open spec fn table_search_fold(
    payloads: Seq<Seq<Seq<char>>>,
    table: Map<Seq<char>, Seq<usize>>,
    stems: Seq<Seq<char>>,
) -> Map<Seq<char>, Seq<char>>
    decreases stems.len(),
{
    if stems.len() == 0 {
        Map::empty()
    } else {
        let m = table_search_fold(payloads, table, stems.drop_last());
        let s = stems.last();
        if table.contains_key(s) {
            add_bucket(m, payloads, table[s])
        } else {
            m
        }
    }
}

/// An index that resolves a term to a map from each found child to
/// the title it appeared under.
pub trait Searchable {
    /// What a search returns, as a mathematical map.
    spec fn search_model(&self, term: Seq<char>, max_group: int, include_whole: bool) -> Map<
        Seq<char>,
        Seq<char>,
    >;

    /// The index's internal invariant.
    spec fn search_wf(&self) -> bool;

    /// Stem the term and look every stem up.
    fn search(&self, term: &str, max_group: usize, include_whole: bool) -> (r: Dict<String>)
        requires
            self.search_wf(),
        ensures
            r.wf(),
            r@ == self.search_model(term@, max_group as int, include_whole),
    ;
}

pub struct InMemoryIndex {
    index: Dict<Vec<usize>>,
    lines: Vec<Vec<String>>,
}

impl InMemoryIndex {
    /// The stored payloads: each a title followed by its children.
    pub closed spec fn payloads(&self) -> Seq<Seq<Seq<char>>> {
        self.lines@.map_values(|v: Vec<String>| str_views(v@))
    }

    /// The stem table.
    pub closed spec fn table(&self) -> Map<Seq<char>, Seq<usize>> {
        self.index@
    }

    /// Every listed index addresses a stored, non-empty payload.
    pub closed spec fn wf(&self) -> bool {
        &&& self.index.wf()
        &&& forall|s: Seq<char>|
            #[trigger] self.index@.contains_key(s) ==> forall|x: int|
                0 <= x < self.index@[s].len() ==> (#[trigger] self.index@[s][x] as int)
                    < self.lines@.len()
        &&& forall|i: int| 0 <= i < self.lines@.len() ==> #[trigger] self.lines@[i]@.len() >= 1
    }
}

/// Append the children of one payload to the result, each mapped to
/// the payload's title.
fn insert_payload(r: &mut Dict<String>, payload: &Vec<String>)
    requires
        old(r).wf(),
        payload@.len() >= 1,
    ensures
        final(r).wf(),
        final(r)@ == add_payload(old(r)@, str_views(payload@)),
{
    let ghost pv = str_views(payload@);
    let title = &payload[0];
    let mut c: usize = 1;
    proof {
        assert(pv.skip(1).take(0) =~= Seq::<Seq<char>>::empty());
        assert(add_children(old(r)@, pv[0], pv.skip(1).take(0)) == old(r)@);
    }
    while c < payload.len()
        invariant
            1 <= c <= payload@.len(),
            pv == str_views(payload@),
            pv.len() >= 1,
            title@ == pv[0],
            title == payload@[0],
            r.wf(),
            r@ == add_children(old(r)@, pv[0], pv.skip(1).take(c - 1)),
        decreases payload@.len() - c,
    {
        let child = payload[c].clone();
        let t = title.clone();
        r.insert(child, t);
        proof {
            let part = pv.skip(1).take(c as int);
            assert(part.drop_last() =~= pv.skip(1).take(c - 1));
            assert(part.last() == pv[c as int]);
        }
        c = c + 1;
    }
    proof {
        assert(pv.skip(1).take(payload@.len() - 1) =~= pv.skip(1));
    }
}

impl Searchable for InMemoryIndex {
    open spec fn search_model(&self, term: Seq<char>, max_group: int, include_whole: bool) -> Map<
        Seq<char>,
        Seq<char>,
    > {
        table_search_fold(
            self.payloads(),
            self.table(),
            stems_seq(term, max_group, include_whole),
        )
    }

    open spec fn search_wf(&self) -> bool {
        self.wf()
    }

    fn search(&self, term: &str, max_group: usize, include_whole: bool) -> (r: Dict<String>) {
        let ghost stems_g = stems_seq(term@, max_group as int, include_whole);
        let stems = generate_stems(term, max_group, include_whole);
        let mut r: Dict<String> = Dict::new();
        let mut i: usize = 0;
        proof {
            assert(table_search_fold(self.payloads(), self.table(), stems_g.take(0))
                =~= Map::<Seq<char>, Seq<char>>::empty());
        }
        while i < stems.len()
            invariant
                0 <= i <= stems@.len(),
                str_views(stems@) == stems_g,
                self.wf(),
                r.wf(),
                r@ == table_search_fold(self.payloads(), self.table(), stems_g.take(i as int)),
            decreases stems@.len() - i,
        {
            let ghost pre = r@;
            let stem = &stems[i];
            proof {
                assert(stems_g.take(i + 1 as int).drop_last() =~= stems_g.take(i as int));
                assert(stems_g.take(i + 1 as int).last() == stem@);
            }
            match self.index.get(stem.as_str()) {
                Some(idx_list) => {
                    let ghost lls = idx_list@;
                    let n = idx_list.len();
                    let mut a: usize = 0;
                    proof {
                        assert(lls.take(0) =~= Seq::<usize>::empty());
                        assert(add_bucket(pre, self.payloads(), lls.take(0)) == pre);
                    }
                    while a < n
                        invariant
                            0 <= a <= n,
                            n == lls.len(),
                            self.wf(),
                            self.index@.contains_key(stem@),
                            lls == self.index@[stem@],
                            idx_list == self.index.val_seq()[self.index.spec_index_of(stem@)],
                            idx_list@ == lls,
                            r.wf(),
                            r@ == add_bucket(pre, self.payloads(), lls.take(a as int)),
                        decreases n - a,
                    {
                        let li = idx_list[a];
                        proof {
                            assert(lls[a as int] == li);
                            assert((li as int) < self.lines@.len());
                            assert(self.lines@[li as int]@.len() >= 1);
                            assert(self.payloads()[li as int] == str_views(
                                self.lines@[li as int]@,
                            ));
                        }
                        let ghost mid = r@;
                        insert_payload(&mut r, &self.lines[li]);
                        proof {
                            assert(lls.take(a + 1 as int).drop_last() =~= lls.take(a as int));
                            assert(lls.take(a + 1 as int).last() == li);
                        }
                        a = a + 1;
                    }
                    proof {
                        assert(lls.take(lls.len() as int) =~= lls);
                    }
                },
                None => {},
            }
            i = i + 1;
        }
        proof {
            assert(stems_g.take(stems_g.len() as int) =~= stems_g);
        }
        r
    }
}

/// Build the in-memory index from record text: parse every line,
/// abandon the build on a malformed one, keep each record whose title
/// has at least one stem, and list each payload under every stem of
/// its title.
#[verifier::rlimit(60)]
pub fn generate_inmemory_index(text: &str, max_group: usize, include_whole: bool) -> (r: Result<
    InMemoryIndex,
    IndexBuildError,
>)
    ensures
        r is Ok <==> (forall|i: int|
            0 <= i < crate::records::split_lines(text@).len() ==> sp_record(
                #[trigger] crate::records::split_lines(text@)[i],
            ) is Some),
        r matches Ok(idx) ==> {
            &&& idx.wf()
            &&& idx.payloads() == inmem_payloads(
                crate::records::split_lines(text@),
                max_group as int,
                include_whole,
            )
            &&& idx.table() == inmem_table(
                crate::records::split_lines(text@),
                max_group as int,
                include_whole,
            )
        },
        r matches Err(e) ==> e is MalformedRecord,
{
    let cs = str_to_chars(text);
    let lines = crate::records::split_lines_exec(&cs);
    let ghost lv = crate::records::split_lines(text@);
    let mut idx = InMemoryIndex { index: Dict::new(), lines: Vec::new() };
    let mut i: usize = 0;
    proof {
        assert(idx.payloads() =~= inmem_payloads(lv.take(0), max_group as int, include_whole));
        assert(idx.table() =~= inmem_table(lv.take(0), max_group as int, include_whole));
    }
    while i < lines.len()
        invariant
            0 <= i <= lines@.len(),
            lv == crate::records::split_lines(text@),
            crate::records::line_views(lines@) == lv,
            lv.len() == lines@.len(),
            forall|j: int| 0 <= j < i ==> sp_record(#[trigger] lv[j]) is Some,
            idx.index.wf(),
            idx.payloads() == inmem_payloads(lv.take(i as int), max_group as int, include_whole),
            idx.table() == inmem_table(lv.take(i as int), max_group as int, include_whole),
            forall|s: Seq<char>|
                #[trigger] idx.table().contains_key(s) ==> forall|x: int|
                    0 <= x < idx.table()[s].len() ==> (#[trigger] idx.table()[s][x] as int)
                        < idx.lines@.len(),
            forall|j: int| 0 <= j < idx.lines@.len() ==> #[trigger] idx.lines@[j]@.len() >= 1,
        decreases lines@.len() - i,
    {
        let parsed = crate::codec::parse_record(&lines[i]);
        proof {
            assert(lv[i as int] == lines@[i as int]@);
        }
        match parsed {
            None => {
                proof {
                    assert(sp_record(crate::records::split_lines(text@)[i as int]) is None);
                    assert(0 <= i < crate::records::split_lines(text@).len());
                }
                return Err(IndexBuildError::MalformedRecord);
            },
            Some(tc) => {
                let (title, children) = tc;
                let ghost prefix = lv.take(i as int);
                let ghost prefix2 = lv.take(i + 1 as int);
                proof {
                    assert(prefix2.drop_last() =~= prefix);
                    assert(prefix2.last() == lv[i as int]);
                }
                let stems = generate_stems(title.as_str(), max_group, include_whole);
                proof {
                    assert(str_views(stems@) == stems_seq(
                        sp_record(lv[i as int]).unwrap().0,
                        max_group as int,
                        include_whole,
                    ));
                }
                if stems.len() == 0 {
                    proof {
                        assert(!inmem_keeps(lv[i as int], max_group as int, include_whole));
                        assert(idx.payloads() =~= inmem_payloads(
                            prefix2,
                            max_group as int,
                            include_whole,
                        ));
                        assert(idx.table() =~= inmem_table(
                            prefix2,
                            max_group as int,
                            include_whole,
                        ));
                    }
                    i = i + 1;
                    continue ;
                }
                let payload_idx = idx.lines.len();
                // list the payload under each stem
                let ghost table0 = idx.table();
                let ghost lines0 = idx.lines@;
                let ghost stems_g = str_views(stems@);
                let mut j: usize = 0;
                proof {
                    assert(add_stems_usize(table0, stems_g.take(0), payload_idx) == table0);
                }
                while j < stems.len()
                    invariant
                        0 <= j <= stems@.len(),
                        stems_g == str_views(stems@),
                        idx.index.wf(),
                        idx.lines@ == lines0,
                        idx.table() == add_stems_usize(
                            table0,
                            stems_g.take(j as int),
                            payload_idx,
                        ),
                        payload_idx == idx.lines@.len(),
                        forall|s: Seq<char>|
                            #[trigger] idx.table().contains_key(s) ==> forall|x: int|
                                0 <= x < idx.table()[s].len() ==> (#[trigger] idx.table()[s][x]
                                    as int) <= idx.lines@.len(),
                    decreases stems@.len() - j,
                {
                    let stem = stems[j].clone();
                    let entry = match idx.index.get(stem.as_str()) {
                        Some(v) => {
                            let mut copy = clone_usize_list(v);
                            copy.push(payload_idx);
                            copy
                        },
                        None => {
                            let mut copy: Vec<usize> = Vec::new();
                            copy.push(payload_idx);
                            copy
                        },
                    };
                    let ghost tpre = idx.table();
                    idx.index.insert(stem, entry);
                    proof {
                        let part = stems_g.take(j + 1 as int);
                        assert(part.drop_last() =~= stems_g.take(j as int));
                        assert(part.last() == stems_g[j as int]);
                        if tpre.contains_key(stems_g[j as int]) {
                            assert(idx.table() =~= add_stems_usize(table0, part, payload_idx));
                        } else {
                            assert(idx.table() =~= add_stems_usize(table0, part, payload_idx));
                        }
                    }
                    j = j + 1;
                }
                // store the payload: title first, then the children
                let mut payload: Vec<String> = Vec::new();
                payload.push(title);
                let mut c: usize = 0;
                while c < children.len()
                    invariant
                        0 <= c <= children@.len(),
                        payload@.len() == c + 1,
                        str_views(payload@) == seq![sp_record(lv[i as int]).unwrap().0]
                            + sp_record(lv[i as int]).unwrap().1.take(c as int),
                        sp_record(lv[i as int]) == Some(
                            (payload@[0]@, str_views(children@)),
                        ),
                    decreases children@.len() - c,
                {
                    let ghost pc = str_views(payload@);
                    payload.push(children[c].clone());
                    proof {
                        let r1 = sp_record(lv[i as int]).unwrap().1;
                        assert(children@[c as int]@ == r1[c as int]);
                        assert(str_views(payload@) =~= pc.push(r1[c as int]));
                        assert(r1.take(c + 1 as int) =~= r1.take(c as int).push(r1[c as int]));
                        assert(pc.push(r1[c as int]) =~= (seq![sp_record(lv[i as int]).unwrap().0]
                            + r1.take(c as int)).push(r1[c as int]));
                        assert((seq![sp_record(lv[i as int]).unwrap().0] + r1.take(c as int)).push(
                            r1[c as int],
                        ) =~= seq![sp_record(lv[i as int]).unwrap().0] + r1.take(c + 1 as int));
                    }
                    c = c + 1;
                }
                proof {
                    assert(sp_record(lv[i as int]).unwrap().1.take(children@.len() as int)
                        =~= sp_record(lv[i as int]).unwrap().1);
                }
                let ghost pre_payloads = idx.payloads();
                idx.lines.push(payload);
                proof {
                    assert(stems_g.take(stems_g.len() as int) =~= stems_g);
                    assert(idx.payloads() =~= pre_payloads.push(str_views(payload@)));
                    assert(inmem_keeps(lv[i as int], max_group as int, include_whole));
                    assert(idx.payloads() =~= inmem_payloads(
                        prefix2,
                        max_group as int,
                        include_whole,
                    ));
                    assert(idx.table() =~= inmem_table(prefix2, max_group as int, include_whole));
                }
                i = i + 1;
            },
        }
    }
    proof {
        assert(lv.take(lv.len() as int) =~= lv);
    }
    Ok(idx)
}

/// `m` with `idx` appended to every listed stem's record list, in
/// order.
pub open spec fn add_stems_u64(
    m: Map<Seq<char>, Seq<u64>>,
    stems: Seq<Seq<char>>,
    idx: u64,
) -> Map<Seq<char>, Seq<u64>>
    decreases stems.len(),
{
    if stems.len() == 0 {
        m
    } else {
        let m2 = add_stems_u64(m, stems.drop_last(), idx);
        let s = stems.last();
        let prior = if m2.contains_key(s) {
            m2[s]
        } else {
            Seq::empty()
        };
        m2.insert(s, prior.push(idx))
    }
}

/// The stem table of a record file: each stem of each parsed title
/// lists the line numbers of the records it came from, in order.
pub open spec fn fst_table(lines: Seq<Seq<char>>, k: int, whole: bool) -> Map<
    Seq<char>,
    Seq<u64>,
>
    decreases lines.len(),
{
    if lines.len() == 0 {
        Map::empty()
    } else {
        let m = fst_table(lines.drop_last(), k, whole);
        match sp_record(lines.last()) {
            Some(r) => add_stems_u64(m, stems_seq(r.0, k, whole), (lines.len() - 1) as u64),
            None => m,
        }
    }
}

/// One raw line's contribution to a search result: when it parses,
/// its children mapped to its title.
pub open spec fn add_line(m: Map<Seq<char>, Seq<char>>, line: Seq<char>) -> Map<
    Seq<char>,
    Seq<char>,
> {
    match sp_record(line) {
        Some(r) => add_children(m, r.0, r.1),
        None => m,
    }
}

/// The contributions of a list of line numbers, in order; numbers out
/// of range contribute nothing.
pub open spec fn add_line_bucket(
    m: Map<Seq<char>, Seq<char>>,
    lines: Seq<Seq<char>>,
    idxs: Seq<u64>,
) -> Map<Seq<char>, Seq<char>>
    decreases idxs.len(),
{
    if idxs.len() == 0 {
        m
    } else {
        let m2 = add_line_bucket(m, lines, idxs.drop_last());
        let li = idxs.last() as int;
        if 0 <= li < lines.len() {
            add_line(m2, lines[li])
        } else {
            m2
        }
    }
}

/// A search over raw lines: each stem of the term, in order, looks
/// its line list up and contributes those lines' records.
pub open spec fn lines_search_fold(
    lines: Seq<Seq<char>>,
    table: Map<Seq<char>, Seq<u64>>,
    stems: Seq<Seq<char>>,
) -> Map<Seq<char>, Seq<char>>
    decreases stems.len(),
{
    if stems.len() == 0 {
        Map::empty()
    } else {
        let m = lines_search_fold(lines, table, stems.drop_last());
        let s = stems.last();
        if table.contains_key(s) {
            add_line_bucket(m, lines, table[s])
        } else {
            m
        }
    }
}

/// The map holding a sequence of stem-to-lines pairs, later pairs
/// overriding earlier ones.
pub open spec fn pairs_char_map(ps: Seq<(Seq<char>, Seq<u64>)>) -> Map<Seq<char>, Seq<u64>>
    decreases ps.len(),
{
    if ps.len() == 0 {
        Map::empty()
    } else {
        pairs_char_map(ps.drop_last()).insert(ps.last().0, ps.last().1)
    }
}

/// The transducer's key-value pairs for a sorted stem table: each
/// stem's UTF-8 bytes mapped to its rank.
pub open spec fn fst_key_pairs(ps: Seq<(Seq<char>, Seq<u64>)>) -> Seq<(Seq<u8>, u64)> {
    Seq::new(ps.len(), |b: int| (vstd::utf8::encode_utf8(ps[b].0), b as u64))
}

/// Stem pairs strictly sorted by key.
pub open spec fn pairs_sorted(ps: Seq<(Seq<char>, Seq<u64>)>) -> bool {
    forall|i: int, j: int|
        0 <= i < j < ps.len() ==> crate::lexord::str_lex_lt(
            (#[trigger] ps[i]).0,
            (#[trigger] ps[j]).0,
        )
}

/// In an association list with distinct keys, lookup finds exactly
/// the listed pairs.
pub proof fn lemma_pairs_char_map_lookup(ps: Seq<(Seq<char>, Seq<u64>)>, s: Seq<char>)
    requires
        forall|i: int, j: int| 0 <= i < j < ps.len() ==> (#[trigger] ps[i]).0 != (
        #[trigger] ps[j]).0,
    ensures
        pairs_char_map(ps).contains_key(s) <==> exists|b: int|
            0 <= b < ps.len() && (#[trigger] ps[b]).0 == s,
        forall|b: int|
            0 <= b < ps.len() && (#[trigger] ps[b]).0 == s ==> pairs_char_map(ps).contains_key(s)
                && pairs_char_map(ps)[s] == ps[b].1,
    decreases ps.len(),
{
    if ps.len() > 0 {
        let pl = ps.drop_last();
        assert(forall|i: int| 0 <= i < pl.len() ==> (#[trigger] pl[i]) == ps[i]);
        lemma_pairs_char_map_lookup(pl, s);
        if s == ps.last().0 {
            assert((ps[ps.len() - 1]).0 == s);
        } else {
            if pairs_char_map(ps).contains_key(s) {
                let b = choose|b: int| 0 <= b < pl.len() && (#[trigger] pl[b]).0 == s;
                assert((ps[b]).0 == s);
            }
            if exists|b: int| 0 <= b < ps.len() && (#[trigger] ps[b]).0 == s {
                let b = choose|b: int| 0 <= b < ps.len() && (#[trigger] ps[b]).0 == s;
                assert(b < ps.len() - 1);
                assert((pl[b]).0 == s);
                assert(pairs_char_map(pl).contains_key(s));
            }
        }
        assert forall|b: int|
            0 <= b < ps.len() && (#[trigger] ps[b]).0 == s implies pairs_char_map(
            ps,
        ).contains_key(s) && pairs_char_map(ps)[s] == ps[b].1 by {
            if b < ps.len() - 1 {
                assert((pl[b]).0 == s);
                if s == ps.last().0 {
                    assert((ps[b]).0 == (ps[ps.len() - 1]).0);
                    assert(false);
                }
            }
        }
    }
}

/// The same for the byte-keyed pairs handed to the transducer.
pub proof fn lemma_pairs_map_lookup(ps: Seq<(Seq<u8>, u64)>, s: Seq<u8>)
    requires
        forall|i: int, j: int| 0 <= i < j < ps.len() ==> (#[trigger] ps[i]).0 != (
        #[trigger] ps[j]).0,
    ensures
        crate::fstmap::pairs_map(ps).contains_key(s) <==> exists|b: int|
            0 <= b < ps.len() && (#[trigger] ps[b]).0 == s,
        forall|b: int|
            0 <= b < ps.len() && (#[trigger] ps[b]).0 == s ==> crate::fstmap::pairs_map(
                ps,
            ).contains_key(s) && crate::fstmap::pairs_map(ps)[s] == ps[b].1,
    decreases ps.len(),
{
    if ps.len() > 0 {
        let pl = ps.drop_last();
        assert(forall|i: int| 0 <= i < pl.len() ==> (#[trigger] pl[i]) == ps[i]);
        lemma_pairs_map_lookup(pl, s);
        if s == ps.last().0 {
            assert((ps[ps.len() - 1]).0 == s);
        } else {
            if crate::fstmap::pairs_map(ps).contains_key(s) {
                let b = choose|b: int| 0 <= b < pl.len() && (#[trigger] pl[b]).0 == s;
                assert((ps[b]).0 == s);
            }
            if exists|b: int| 0 <= b < ps.len() && (#[trigger] ps[b]).0 == s {
                let b = choose|b: int| 0 <= b < ps.len() && (#[trigger] ps[b]).0 == s;
                assert(b < ps.len() - 1);
                assert((pl[b]).0 == s);
                assert(crate::fstmap::pairs_map(pl).contains_key(s));
            }
        }
        assert forall|b: int|
            0 <= b < ps.len() && (#[trigger] ps[b]).0 == s implies crate::fstmap::pairs_map(
            ps,
        ).contains_key(s) && crate::fstmap::pairs_map(ps)[s] == ps[b].1 by {
            if b < ps.len() - 1 {
                assert((pl[b]).0 == s);
                if s == ps.last().0 {
                    assert((ps[b]).0 == (ps[ps.len() - 1]).0);
                    assert(false);
                }
            }
        }
    }
}

/// Sorted stem pairs have distinct keys, and distinct encodings.
pub proof fn lemma_sorted_pairs_distinct(ps: Seq<(Seq<char>, Seq<u64>)>)
    requires
        pairs_sorted(ps),
    ensures
        forall|i: int, j: int| 0 <= i < j < ps.len() ==> (#[trigger] ps[i]).0 != (
        #[trigger] ps[j]).0,
        forall|i: int, j: int|
            0 <= i < j < fst_key_pairs(ps).len() ==> (#[trigger] fst_key_pairs(ps)[i]).0 != (
            #[trigger] fst_key_pairs(ps)[j]).0,
{
    assert forall|i: int, j: int| 0 <= i < j < ps.len() implies (#[trigger] ps[i]).0 != (
    #[trigger] ps[j]).0 by {
        crate::lexord::lemma_lex_trichotomy(
            vstd::utf8::encode_utf8(ps[i].0),
            vstd::utf8::encode_utf8(ps[j].0),
        );
    }
    assert forall|i: int, j: int|
        0 <= i < j < fst_key_pairs(ps).len() implies (#[trigger] fst_key_pairs(ps)[i]).0 != (
    #[trigger] fst_key_pairs(ps)[j]).0 by {
        crate::lexord::lemma_lex_trichotomy(
            vstd::utf8::encode_utf8(ps[i].0),
            vstd::utf8::encode_utf8(ps[j].0),
        );
        if fst_key_pairs(ps)[i].0 == fst_key_pairs(ps)[j].0 {
            crate::lexord::lemma_encode_injective(ps[i].0, ps[j].0);
        }
    }
}

/// The on-disk stem index: the record file's lines with their byte
/// offsets, a transducer from stem bytes to bucket ids, and the
/// bucket table of record line numbers.
pub struct FstIndex {
    fst: fst::Map<Vec<u8>>,
    fst_values: Vec<Vec<u64>>,
    line_starts: Vec<u64>,
    lines: Vec<Vec<char>>,
    max_group: usize,
    stem_pairs: Ghost<Seq<(Seq<char>, Seq<u64>)>>,
}

impl FstIndex {
    /// The record file's lines.
    pub closed spec fn lines_model(&self) -> Seq<Seq<char>> {
        crate::records::line_views(self.lines@)
    }

    /// The stem table the transducer and bucket table realize.
    pub closed spec fn table(&self) -> Map<Seq<char>, Seq<u64>> {
        pairs_char_map(self.stem_pairs@)
    }

    /// The byte offset of each line, with the sentinel after the
    /// last.
    pub closed spec fn starts(&self) -> Seq<u64> {
        self.line_starts@
    }

    /// The transducer maps each stored stem's bytes to its rank, the
    /// bucket table holds each rank's record list, and the offsets
    /// address the lines.
    pub closed spec fn wf(&self) -> bool {
        &&& crate::fstmap::fst_map_trusted(self.fst)
        &&& pairs_sorted(self.stem_pairs@)
        &&& self.fst_values@.len() == self.stem_pairs@.len()
        &&& forall|b: int|
            0 <= b < self.stem_pairs@.len() ==> (#[trigger] self.fst_values@[b])@
                == self.stem_pairs@[b].1
        &&& crate::fstmap::fst_map_entries(self.fst) == crate::fstmap::pairs_map(
            fst_key_pairs(self.stem_pairs@),
        )
        &&& self.line_starts@.len() == self.lines@.len() + 1
        &&& forall|i: int|
            0 <= i <= self.lines@.len() ==> #[trigger] self.line_starts@[i]
                == crate::records::line_start_spec(self.lines_model(), i)
    }

    /// The number of records.
    pub fn num_records(&self) -> (n: usize)
        ensures
            n == self.lines_model().len(),
    {
        self.lines.len()
    }

    /// The byte offset at which record `i` starts (the entry after
    /// the last record is the sentinel).
    pub fn line_start_at(&self, i: usize) -> (r: u64)
        requires
            self.wf(),
            i < self.starts().len(),
        ensures
            r == self.starts()[i as int],
            r == crate::records::line_start_spec(self.lines_model(), i as int),
    {
        self.line_starts[i]
    }

    /// The serialized transducer, for persisting; reopening it is the
    /// caller's trust in the file system.
    pub fn fst_bytes(&self) -> Vec<u8> {
        crate::fstmap::fst_map_bytes(&self.fst)
    }

    /// The sidecar text: one line per bucket, in bucket order.
    pub fn sidecar(&self) -> (r: String)
        requires
            self.wf(),
        ensures
            r@ == sidecar_text(self.bucket_values()),
    {
        let mut out = String::new();
        let mut b: usize = 0;
        proof {
            assert(sidecar_text(self.bucket_values().take(0)) =~= Seq::<char>::empty());
        }
        while b < self.fst_values.len()
            invariant
                0 <= b <= self.fst_values@.len(),
                out@ == sidecar_text(self.bucket_values().take(b as int)),
                self.bucket_values().len() == self.fst_values@.len(),
                forall|x: int|
                    0 <= x < self.fst_values@.len() ==> #[trigger] self.bucket_values()[x] == (
                    self.fst_values@[x])@,
            decreases self.fst_values@.len() - b,
        {
            let line = crate::codec::encode_sidecar_line(&self.fst_values[b]);
            out.append(line.as_str());
            crate::chars::push_char(&mut out, '\n');
            proof {
                let t = self.bucket_values().take(b + 1 as int);
                assert(t.drop_last() =~= self.bucket_values().take(b as int));
                assert(t.last() == self.bucket_values()[b as int]);
                lemma_sidecar_text_step(self.bucket_values(), b as int);
            }
            b = b + 1;
        }
        proof {
            assert(self.bucket_values().take(self.bucket_values().len() as int)
                =~= self.bucket_values());
        }
        out
    }

    /// The record lists of the buckets, in bucket order.
    pub closed spec fn bucket_values(&self) -> Seq<Seq<u64>> {
        self.fst_values@.map_values(|v: Vec<u64>| v@)
    }

    /// The entries of the transducer.
    pub closed spec fn entries_model(&self) -> Map<Seq<u8>, u64> {
        crate::fstmap::fst_map_entries(self.fst)
    }
}

/// The sidecar text is the rejoin of the buckets' lines.
proof fn lemma_sidecar_text_rejoin(vals: Seq<Seq<u64>>)
    ensures
        sidecar_text(vals) == crate::records::rejoin(
            vals.map_values(|v: Seq<u64>| crate::codec::sidecar_line(v)),
        ),
    decreases vals.len(),
{
    let mapped = vals.map_values(|v: Seq<u64>| crate::codec::sidecar_line(v));
    if vals.len() == 0 {
        assert(sidecar_text(vals) =~= crate::records::rejoin(mapped));
    } else {
        lemma_sidecar_text_rejoin(vals.drop_last());
        assert(vals.drop_last().map_values(|v: Seq<u64>| crate::codec::sidecar_line(v))
            =~= mapped.drop_last());
        crate::records::lemma_rejoin_right(mapped);
        assert(mapped.last() == crate::codec::sidecar_line(vals.last()));
        assert(sidecar_text(vals) =~= crate::records::rejoin(mapped));
    }
}

/// The artifacts a fresh build yields satisfy the cached build's
/// precondition: its transducer entries together with its sidecar
/// text realize the same stem table, so reloading what was persisted
/// reproduces the index.
pub proof fn lemma_fresh_artifacts_reusable(idx: &FstIndex, text: Seq<char>, k: int, whole: bool)
    requires
        idx.wf(),
        idx.lines_model() == crate::records::split_lines(text),
        idx.table() == fst_table(crate::records::split_lines(text), k, whole),
    ensures
        cached_artifacts(text, k, whole, idx.entries_model(), sidecar_text(idx.bucket_values())),
{
    let ps = idx.stem_pairs@;
    let vals = idx.bucket_values();
    let sidecar = sidecar_text(vals);
    let mapped = vals.map_values(|v: Seq<u64>| crate::codec::sidecar_line(v));
    lemma_sidecar_text_rejoin(vals);
    assert forall|a: int, j: int|
        0 <= a < mapped.len() && 0 <= j < mapped[a].len() implies (#[trigger] mapped[a][j])
        != '\n' by {
        crate::codec::lemma_sidecar_line_chars(vals[a]);
        assert(mapped[a] == crate::codec::sidecar_line(vals[a]));
        let c = mapped[a][j];
        assert(crate::codec::is_digit(c) || c == ',' || c == '[' || c == ']');
    }
    crate::records::lemma_split_rejoin(mapped);
    assert(crate::records::split_lines(sidecar) == mapped);
    assert forall|b: int|
        0 <= b < ps.len() implies crate::codec::sp_sidecar(
        #[trigger] crate::records::split_lines(sidecar)[b],
    ) == Some(ps[b].1) by {
        assert(vals[b] == (idx.fst_values@[b])@);
        assert(vals[b] == ps[b].1);
        assert(crate::records::split_lines(sidecar)[b] == crate::codec::sidecar_line(vals[b]));
        crate::codec::lemma_sidecar_round_trip(vals[b]);
    }
    assert(cached_artifacts_witness(text, k, whole, idx.entries_model(), sidecar, ps));
}

/// The sidecar text for a bucket table: each bucket's line, each
/// followed by a newline.
pub open spec fn sidecar_text(vals: Seq<Seq<u64>>) -> Seq<char>
    decreases vals.len(),
{
    if vals.len() == 0 {
        Seq::empty()
    } else {
        sidecar_text(vals.drop_last()) + crate::codec::sidecar_line(vals.last()) + seq!['\n']
    }
}

/// Appending one bucket's line extends the text by that line and its
/// newline.
proof fn lemma_sidecar_text_step(vals: Seq<Seq<u64>>, b: int)
    requires
        0 <= b < vals.len(),
    ensures
        sidecar_text(vals.take(b + 1)) == sidecar_text(vals.take(b)) + crate::codec::sidecar_line(
            vals[b],
        ) + seq!['\n'],
{
    let t = vals.take(b + 1);
    assert(t.drop_last() =~= vals.take(b));
    assert(t.last() == vals[b]);
}

impl Searchable for FstIndex {
    open spec fn search_model(&self, term: Seq<char>, max_group: int, include_whole: bool) -> Map<
        Seq<char>,
        Seq<char>,
    > {
        lines_search_fold(
            self.lines_model(),
            self.table(),
            stems_seq(term, max_group, include_whole),
        )
    }

    open spec fn search_wf(&self) -> bool {
        self.wf()
    }

    fn search(&self, term: &str, max_group: usize, include_whole: bool) -> (r: Dict<String>) {
        let ghost stems_g = stems_seq(term@, max_group as int, include_whole);
        let stems = generate_stems(term, max_group, include_whole);
        let mut r: Dict<String> = Dict::new();
        let mut i: usize = 0;
        proof {
            assert(lines_search_fold(self.lines_model(), self.table(), stems_g.take(0))
                =~= Map::<Seq<char>, Seq<char>>::empty());
        }
        while i < stems.len()
            invariant
                0 <= i <= stems@.len(),
                str_views(stems@) == stems_g,
                self.wf(),
                r.wf(),
                r@ == lines_search_fold(self.lines_model(), self.table(), stems_g.take(i as int)),
            decreases stems@.len() - i,
        {
            let ghost pre = r@;
            let stem = &stems[i];
            proof {
                assert(stems_g.take(i + 1 as int).drop_last() =~= stems_g.take(i as int));
                assert(stems_g.take(i + 1 as int).last() == stem@);
                lemma_sorted_pairs_distinct(self.stem_pairs@);
                lemma_pairs_map_lookup(
                    fst_key_pairs(self.stem_pairs@),
                    vstd::utf8::encode_utf8(stem@),
                );
                lemma_pairs_char_map_lookup(self.stem_pairs@, stem@);
            }
            let stem_str = stem.as_str();
            proof {
                assert(stem_str@ == stem@);
                assert(vstd::string::StringSliceAdditionalSpecFns::spec_bytes(stem_str)
                    == vstd::utf8::encode_utf8(stem@));
            }
            match crate::fstmap::fst_map_get(&self.fst, stem_str) {
                Some(bucket) => {
                    let nv = self.fst_values.len();
                    proof {
                        let kp = fst_key_pairs(self.stem_pairs@);
                        assert(kp.len() == nv);
                        assert(crate::fstmap::fst_map_entries(self.fst).contains_key(
                            vstd::utf8::encode_utf8(stem@),
                        ));
                        assert(exists|b: int|
                            0 <= b < kp.len() && (#[trigger] kp[b]).0 == vstd::utf8::encode_utf8(
                                stem@,
                            ));
                        let b = choose|b: int|
                            0 <= b < kp.len() && (#[trigger] kp[b]).0 == vstd::utf8::encode_utf8(stem@);
                        assert(bucket == crate::fstmap::fst_map_entries(self.fst)[
                            vstd::utf8::encode_utf8(stem@)]);
                        assert(crate::fstmap::pairs_map(kp)[vstd::utf8::encode_utf8(stem@)]
                            == kp[b].1);
                        assert(kp[b].1 == bucket);
                        assert(bucket as int == b);
                        crate::lexord::lemma_encode_injective(self.stem_pairs@[b].0, stem@);
                        assert(self.stem_pairs@[b].0 == stem@);
                        assert(self.table().contains_key(stem@));
                        assert(self.table()[stem@] == self.stem_pairs@[b].1);
                        assert((self.fst_values@[bucket as int])@ == self.table()[stem@]);
                    }
                    let idx_list = &self.fst_values[bucket as usize];
                    let ghost lls = idx_list@;
                    let n = idx_list.len();
                    let mut a: usize = 0;
                    proof {
                        assert(lls.take(0) =~= Seq::<u64>::empty());
                        assert(add_line_bucket(pre, self.lines_model(), lls.take(0)) == pre);
                    }
                    while a < n
                        invariant
                            0 <= a <= n,
                            n == lls.len(),
                            self.wf(),
                            self.fst_values@.len() <= usize::MAX,
                            (bucket as int) < self.fst_values@.len(),
                            lls == (self.fst_values@[bucket as int])@,
                            r.wf(),
                            r@ == add_line_bucket(pre, self.lines_model(), lls.take(a as int)),
                        decreases n - a,
                    {
                        let li = self.fst_values[bucket as usize][a];
                        proof {
                            assert(lls[a as int] == li);
                            assert(lls.take(a + 1 as int).drop_last() =~= lls.take(a as int));
                            assert(lls.take(a + 1 as int).last() == li);
                        }
                        if li < (self.lines.len() as u64) {
                            proof {
                                assert((li as int) < self.lines@.len());
                                assert(self.lines_model()[li as int] == self.lines@[li as int]@);
                            }
                            let parsed = crate::codec::parse_record(&self.lines[li as usize]);
                            match parsed {
                                Some(tc) => {
                                    let (title, children) = tc;
                                    let ghost mid = r@;
                                    insert_parsed_record(&mut r, title, &children);
                                    proof {
                                        assert(r@ == add_line(
                                            mid,
                                            self.lines_model()[li as int],
                                        ));
                                    }
                                },
                                None => {
                                    proof {
                                        assert(add_line(
                                            r@,
                                            self.lines_model()[li as int],
                                        ) == r@);
                                    }
                                },
                            }
                        }
                        a = a + 1;
                    }
                    proof {
                        assert(lls.take(lls.len() as int) =~= lls);
                    }
                },
                None => {
                    proof {
                        if self.table().contains_key(stem@) {
                            let b = choose|b: int|
                                0 <= b < self.stem_pairs@.len() && (#[trigger] self.stem_pairs@[
                                b]).0 == stem@;
                            assert(fst_key_pairs(self.stem_pairs@)[b].0 == vstd::utf8::encode_utf8(stem@));
                        }
                        assert(!self.table().contains_key(stem@));
                    }
                },
            }
            i = i + 1;
        }
        proof {
            assert(stems_g.take(stems_g.len() as int) =~= stems_g);
        }
        r
    }
}

/// Append a parsed record's children to the result, each mapped to
/// its title.
fn insert_parsed_record(r: &mut Dict<String>, title: String, children: &Vec<String>)
    requires
        old(r).wf(),
    ensures
        final(r).wf(),
        final(r)@ == add_children(old(r)@, title@, str_views(children@)),
{
    let mut c: usize = 0;
    proof {
        assert(str_views(children@).take(0) =~= Seq::<Seq<char>>::empty());
        assert(add_children(old(r)@, title@, str_views(children@).take(0)) == old(r)@);
    }
    while c < children.len()
        invariant
            0 <= c <= children@.len(),
            r.wf(),
            r@ == add_children(old(r)@, title@, str_views(children@).take(c as int)),
        decreases children@.len() - c,
    {
        let child = children[c].clone();
        let t = title.clone();
        r.insert(child, t);
        proof {
            let part = str_views(children@).take(c + 1 as int);
            assert(part.drop_last() =~= str_views(children@).take(c as int));
            assert(part.last() == str_views(children@)[c as int]);
        }
        c = c + 1;
    }
    proof {
        assert(str_views(children@).take(children@.len() as int) =~= str_views(children@));
    }
}

/// Every line of a record file parses.
pub open spec fn records_parse(lines: Seq<Seq<char>>) -> bool {
    forall|i: int| 0 <= i < lines.len() ==> sp_record(#[trigger] lines[i]) is Some
}

/// The byte offsets of a record file fit in 64 bits.
pub open spec fn offsets_fit(lines: Seq<Seq<char>>) -> bool {
    crate::records::line_start_spec(lines, lines.len() as int) <= u64::MAX
}

/// A wf dictionary's entries fold back to its map view.
proof fn lemma_dict_entries_map(d: &Dict<Vec<u64>>)
    requires
        d.wf(),
    ensures
        pairs_char_map(d.entries()) == d@,
{
    let ps = d.entries();
    assert(pairs_sorted(ps));
    lemma_sorted_pairs_distinct(ps);
    assert forall|s: Seq<char>|
        #[trigger] pairs_char_map(ps).dom().contains(s) <==> d@.dom().contains(s) by {
        lemma_pairs_char_map_lookup(ps, s);
        d.lemma_view_contains(s);
        if pairs_char_map(ps).contains_key(s) {
            let b = choose|b: int| 0 <= b < ps.len() && (#[trigger] ps[b]).0 == s;
            assert(d.key_seq()[b] == s);
            assert(d.key_seq().contains(s));
        }
        if d.key_seq().contains(s) {
            let b = choose|b: int| 0 <= b < d.key_seq().len() && d.key_seq()[b] == s;
            assert((ps[b]).0 == s);
        }
    }
    assert forall|s: Seq<char>|
        pairs_char_map(ps).dom().contains(s) implies #[trigger] pairs_char_map(ps)[s]
        == d@[s] by {
        lemma_pairs_char_map_lookup(ps, s);
        d.lemma_view_contains(s);
        let b = choose|b: int| 0 <= b < ps.len() && (#[trigger] ps[b]).0 == s;
        d.lemma_index_of(s);
        assert(d.key_seq()[b] == s);
        assert(d.spec_index_of(s) == b) by {
            let b2 = d.spec_index_of(s);
            if b2 != b {
                crate::lexord::lemma_lex_trichotomy(
                    vstd::utf8::encode_utf8(d.key_seq()[b]),
                    vstd::utf8::encode_utf8(d.key_seq()[b2]),
                );
            }
        }
        assert(d@[s] == d.val_seq()[b]@);
        assert((ps[b]).1 == d.val_seq()[b]@);
    }
    assert(pairs_char_map(ps) =~= d@);
}

/// Build the on-disk index afresh from record text: compute the byte
/// offsets, abandon the build on a malformed line, accumulate each
/// line number under every stem of its title, and load the sorted
/// stem table into the transducer.
#[verifier::rlimit(80)]
pub fn generate_fst_index(text: &str, max_group: usize, include_whole: bool) -> (r: Result<
    FstIndex,
    IndexBuildError,
>)
    ensures
        r is Ok <==> offsets_fit(crate::records::split_lines(text@)) && records_parse(
            crate::records::split_lines(text@),
        ),
        r matches Ok(idx) ==> {
            &&& idx.wf()
            &&& idx.lines_model() == crate::records::split_lines(text@)
            &&& idx.table() == fst_table(
                crate::records::split_lines(text@),
                max_group as int,
                include_whole,
            )
        },
        r matches Err(e) ==> (e is Oversized || e is MalformedRecord),
        r matches Err(e) && e is Oversized ==> !offsets_fit(crate::records::split_lines(text@)),
        r matches Err(e) && e is MalformedRecord ==> offsets_fit(
            crate::records::split_lines(text@),
        ),
{
    let cs = str_to_chars(text);
    let lines = crate::records::split_lines_exec(&cs);
    let ghost lv = crate::records::split_lines(text@);
    let line_starts = match crate::records::compute_line_starts(&lines) {
        Some(v) => v,
        None => {
            return Err(IndexBuildError::Oversized);
        },
    };
    // accumulate the stem table
    let mut dict: Dict<Vec<u64>> = Dict::new();
    let mut i: usize = 0;
    proof {
        assert(dict@ =~= fst_table(lv.take(0), max_group as int, include_whole));
    }
    while i < lines.len()
        invariant
            0 <= i <= lines@.len(),
            lv == crate::records::split_lines(text@),
            crate::records::line_views(lines@) == lv,
            lv.len() == lines@.len(),
            offsets_fit(lv),
            forall|j: int| 0 <= j < i ==> sp_record(#[trigger] lv[j]) is Some,
            dict.wf(),
            dict@ == fst_table(lv.take(i as int), max_group as int, include_whole),
        decreases lines@.len() - i,
    {
        let parsed = crate::codec::parse_record(&lines[i]);
        proof {
            assert(lv[i as int] == lines@[i as int]@);
        }
        match parsed {
            None => {
                proof {
                    assert(sp_record(crate::records::split_lines(text@)[i as int]) is None);
                    assert(0 <= i < crate::records::split_lines(text@).len());
                }
                return Err(IndexBuildError::MalformedRecord);
            },
            Some(tc) => {
                let (title, _children) = tc;
                let ghost prefix2 = lv.take(i + 1 as int);
                proof {
                    assert(prefix2.drop_last() =~= lv.take(i as int));
                    assert(prefix2.last() == lv[i as int]);
                }
                let stems = generate_stems(title.as_str(), max_group, include_whole);
                proof {
                    assert(str_views(stems@) == stems_seq(
                        sp_record(lv[i as int]).unwrap().0,
                        max_group as int,
                        include_whole,
                    ));
                }
                let ghost table0 = dict@;
                let ghost stems_g = str_views(stems@);
                let idx64: u64 = i as u64;
                let mut j: usize = 0;
                proof {
                    assert(add_stems_u64(table0, stems_g.take(0), idx64) == table0);
                }
                while j < stems.len()
                    invariant
                        0 <= j <= stems@.len(),
                        stems_g == str_views(stems@),
                        dict.wf(),
                        dict@ == add_stems_u64(table0, stems_g.take(j as int), idx64),
                    decreases stems@.len() - j,
                {
                    let stem = stems[j].clone();
                    let entry = match dict.get(stem.as_str()) {
                        Some(v) => {
                            let mut copy = clone_u64_list(v);
                            copy.push(idx64);
                            copy
                        },
                        None => {
                            let mut copy: Vec<u64> = Vec::new();
                            copy.push(idx64);
                            copy
                        },
                    };
                    let ghost tpre = dict@;
                    dict.insert(stem, entry);
                    proof {
                        let part = stems_g.take(j + 1 as int);
                        assert(part.drop_last() =~= stems_g.take(j as int));
                        assert(part.last() == stems_g[j as int]);
                        assert(dict@ =~= add_stems_u64(table0, part, idx64));
                    }
                    j = j + 1;
                }
                proof {
                    assert(stems_g.take(stems_g.len() as int) =~= stems_g);
                    assert(dict@ =~= fst_table(prefix2, max_group as int, include_whole));
                }
                i = i + 1;
            },
        }
    }
    proof {
        assert(lv.take(lv.len() as int) =~= lv);
    }
    // load the sorted stem table into the transducer
    let ghost ps = dict.entries();
    let mut builder = crate::fstmap::fst_builder_new();
    let mut fst_values: Vec<Vec<u64>> = Vec::new();
    let n = dict.len();
    let mut j: usize = 0;
    proof {
        assert(fst_key_pairs(ps).take(0) =~= Seq::<(Seq<u8>, u64)>::empty());
        assert(crate::fstmap::fst_builder_keys(builder) =~= fst_key_pairs(ps).take(0));
    }
    while j < n
        invariant
            0 <= j <= n,
            n == dict.key_seq().len(),
            dict.wf(),
            ps == dict.entries(),
            crate::fstmap::fst_builder_keys(builder) == fst_key_pairs(ps).take(j as int),
            fst_values@.len() == j,
            forall|x: int| 0 <= x < j ==> (#[trigger] fst_values@[x])@ == ps[x].1,
        decreases n - j,
    {
        let key = dict.key_at(j);
        let key_str = key.as_str();
        let vals = clone_u64_list(dict.val_at(j));
        proof {
            assert(key_str@ == dict.key_seq()[j as int]);
            let bk = crate::fstmap::fst_builder_keys(builder);
            assert forall|x: int|
                0 <= x < bk.len() implies crate::lexord::lex_lt(
                (#[trigger] bk[x]).0,
                vstd::string::StringSliceAdditionalSpecFns::spec_bytes(key_str),
            ) by {
                assert(bk[x] == fst_key_pairs(ps)[x]);
                assert((ps[x]).0 == dict.key_seq()[x]);
                assert(crate::lexord::str_lex_lt(dict.key_seq()[x], dict.key_seq()[j as int]));
            }
        }
        crate::fstmap::fst_builder_insert(&mut builder, key_str, j as u64);
        fst_values.push(vals);
        proof {
            let part = fst_key_pairs(ps).take(j + 1 as int);
            assert(part.drop_last() =~= fst_key_pairs(ps).take(j as int));
            assert(part.last() == fst_key_pairs(ps)[j as int]);
            assert(fst_key_pairs(ps)[j as int].0 == vstd::utf8::encode_utf8(
                dict.key_seq()[j as int],
            ));
            assert(fst_key_pairs(ps)[j as int].1 == j as u64);
            assert(crate::fstmap::fst_builder_keys(builder) =~= part);
        }
        j = j + 1;
    }
    proof {
        assert(fst_key_pairs(ps).take(fst_key_pairs(ps).len() as int) =~= fst_key_pairs(ps));
    }
    let m = crate::fstmap::fst_builder_into_map(builder);
    let idx = FstIndex {
        fst: m,
        fst_values,
        line_starts,
        lines,
        max_group,
        stem_pairs: Ghost(ps),
    };
    proof {
        lemma_dict_entries_map(&dict);
        assert(idx.table() == dict@);
        assert(idx.wf());
    }
    Ok(idx)
}

/// Byte-range correctness for a built index: between consecutive
/// stored offsets the encoded record text holds exactly record `i`'s
/// line plus its newline, and when every line parses the slice is a
/// valid record.
pub proof fn lemma_index_byte_ranges(idx: &FstIndex, text: Seq<char>, i: int)
    requires
        idx.wf(),
        idx.lines_model() == crate::records::split_lines(text),
        crate::records::terminated(text),
        0 <= i < idx.lines_model().len(),
    ensures
        0 <= idx.starts()[i] <= idx.starts()[i + 1],
        idx.starts()[i + 1] <= vstd::utf8::encode_utf8(text).len(),
        vstd::utf8::encode_utf8(text).subrange(
            idx.starts()[i] as int,
            idx.starts()[i + 1] as int,
        ) == vstd::utf8::encode_utf8(idx.lines_model()[i]) + seq![10u8],
        records_parse(idx.lines_model()) ==> sp_record(idx.lines_model()[i]) is Some,
{
    crate::records::lemma_line_byte_ranges(text, i);
    crate::records::lemma_line_start_monotone(idx.lines_model(), i, i + 1);
}

/// Every listed child ends up mapped to the title.
proof fn lemma_add_children_covers(
    m: Map<Seq<char>, Seq<char>>,
    title: Seq<char>,
    children: Seq<Seq<char>>,
)
    ensures
        forall|c: Seq<char>|
            #[trigger] children.contains(c) ==> add_children(m, title, children).contains_key(c)
                && add_children(m, title, children)[c] == title,
    decreases children.len(),
{
    if children.len() > 0 {
        let cs = children.drop_last();
        assert(forall|i: int| 0 <= i < cs.len() ==> #[trigger] cs[i] == children[i]);
        lemma_add_children_covers(m, title, cs);
        assert forall|c: Seq<char>|
            #[trigger] children.contains(c) implies add_children(
            m,
            title,
            children,
        ).contains_key(c) && add_children(m, title, children)[c] == title by {
            if c != children.last() {
                let i = choose|i: int| 0 <= i < children.len() && #[trigger] children[i] == c;
                assert(i < children.len() - 1);
                assert(cs[i] == c);
                assert(cs.contains(c));
            }
        }
    }
}

/// A single canonical word stems to itself alone.
pub proof fn lemma_single_word_stem(w: Seq<char>)
    requires
        w.len() >= 1,
        forall|j: int| 0 <= j < w.len() ==> crate::stemmer::is_lower_alnum(#[trigger] w[j]),
    ensures
        stems_seq(w, 1, false) == seq![w],
{
    assert(forall|j: int|
        0 <= j < w.len() ==> crate::stemmer::is_lower_alnum(#[trigger] w[j]) || w[j] == ' ');
    crate::stemmer::lemma_canonical_identity_pub(w);
    assert(forall|j: int| 0 <= j < w.len() ==> !crate::stemmer::is_space_char(#[trigger] w[j]));
    crate::stemmer::lemma_single_word_split(w);
    let ws = seq![w];
    assert(crate::stemmer::words_of(w) == ws);
    let width1 = crate::stemmer::ngrams_width(ws, 1);
    assert(width1.len() == 1);
    assert(ws.subrange(0, 1) =~= ws);
    assert(crate::stemmer::join_words(ws) == w);
    assert(width1[0] == w);
    assert(crate::stemmer::ngrams_up_to(ws, 0) =~= Seq::<Seq<char>>::empty());
    assert(crate::stemmer::ngrams_up_to(ws, 1) =~= width1);
    assert(crate::stemmer::raw_stems(ws, 1, false) =~= seq![w]);
    assert(seq![w].drop_last() =~= Seq::<Seq<char>>::empty());
    assert(crate::stemmer::dedup_first(Seq::<Seq<char>>::empty()) =~= Seq::<Seq<char>>::empty());
    assert(crate::stemmer::dedup_first(seq![w]) =~= seq![w]);
}

/// Round trip for a record that still owns one of its title's stems:
/// when record `i` is the last record listed under a stem whose own
/// stemming is itself, searching that stem maps every child of the
/// record to its title. A record each of whose stems a later record
/// also holds, with overlapping children, is not covered: the later
/// writer wins its entries.
pub proof fn lemma_search_round_trip(idx: &FstIndex, s: Seq<char>, li: u64)
    requires
        idx.wf(),
        stems_seq(s, 1, false) == seq![s],
        idx.table().contains_key(s),
        idx.table()[s].len() > 0,
        (li as int) < idx.lines_model().len(),
        idx.table()[s].last() == li,
        sp_record(idx.lines_model()[li as int]) is Some,
    ensures
        forall|c: Seq<char>|
            #[trigger] sp_record(idx.lines_model()[li as int]).unwrap().1.contains(c)
                ==> idx.search_model(s, 1, false).contains_key(c) && idx.search_model(
                s,
                1,
                false,
            )[c] == sp_record(idx.lines_model()[li as int]).unwrap().0,
{
    let i = li as int;
    let lines = idx.lines_model();
    let table = idx.table();
    let stems = seq![s];
    assert(stems.drop_last() =~= Seq::<Seq<char>>::empty());
    assert(lines_search_fold(lines, table, Seq::<Seq<char>>::empty())
        == Map::<Seq<char>, Seq<char>>::empty());
    assert(stems.last() == s);
    assert(idx.search_model(s, 1, false) == add_line_bucket(
        Map::<Seq<char>, Seq<char>>::empty(),
        lines,
        table[s],
    ));
    let idxs = table[s];
    assert(idxs.last() == li);
    let m2 = add_line_bucket(Map::<Seq<char>, Seq<char>>::empty(), lines, idxs.drop_last());
    assert(add_line_bucket(Map::<Seq<char>, Seq<char>>::empty(), lines, idxs) == add_line(
        m2,
        lines[i],
    ));
    let r = sp_record(lines[i]).unwrap();
    lemma_add_children_covers(m2, r.0, r.1);
}

/// Rebuilding from the persisted artifacts is observationally equal
/// to the fresh build: two well-formed indexes over the same lines
/// and the same stem table answer every search alike.
pub proof fn lemma_cached_build_equivalent(
    idx1: &FstIndex,
    idx2: &FstIndex,
    term: Seq<char>,
    max_group: int,
    include_whole: bool,
)
    requires
        idx1.wf(),
        idx2.wf(),
        idx1.lines_model() == idx2.lines_model(),
        idx1.table() == idx2.table(),
    ensures
        idx1.search_model(term, max_group, include_whole) == idx2.search_model(
            term,
            max_group,
            include_whole,
        ),
{
}

/// The persisted artifacts of a build of `text` with the given stem
/// parameters: a transducer with these entries and a sidecar whose
/// lines parse to the bucket table, realizing the text's stem table.
pub open spec fn cached_artifacts_witness(
    text: Seq<char>,
    k: int,
    whole: bool,
    entries: Map<Seq<u8>, u64>,
    sidecar: Seq<char>,
    ps: Seq<(Seq<char>, Seq<u64>)>,
) -> bool {
    &&& pairs_sorted(ps)
    &&& pairs_char_map(ps) == fst_table(crate::records::split_lines(text), k, whole)
    &&& entries == crate::fstmap::pairs_map(fst_key_pairs(ps))
    &&& crate::records::split_lines(sidecar).len() == ps.len()
    &&& forall|b: int|
        0 <= b < ps.len() ==> crate::codec::sp_sidecar(
            #[trigger] crate::records::split_lines(sidecar)[b],
        ) == Some(ps[b].1)
}

/// The handed-back artifacts are genuine: the transducer came out of
/// a builder and, with the sidecar, realizes this text's stem table.
/// No executable test can decide this; a caller meets it only by
/// provenance, handing back exactly what a fresh build of the same
/// text persisted. A forged transducer is outside this precondition,
/// matching the design that a corrupt index is fatal at startup.
pub closed spec fn cached_input_ok(
    text: Seq<char>,
    k: int,
    whole: bool,
    m: fst::Map<Vec<u8>>,
    sidecar: Seq<char>,
) -> bool {
    &&& crate::fstmap::fst_map_trusted(m)
    &&& cached_artifacts(text, k, whole, crate::fstmap::fst_map_entries(m), sidecar)
}

/// See `cached_artifacts_witness`.
pub open spec fn cached_artifacts(
    text: Seq<char>,
    k: int,
    whole: bool,
    entries: Map<Seq<u8>, u64>,
    sidecar: Seq<char>,
) -> bool {
    exists|ps: Seq<(Seq<char>, Seq<u64>)>|
        cached_artifacts_witness(text, k, whole, entries, sidecar, ps)
}

/// Rebuild the on-disk index from its persisted artifacts: recompute
/// the byte offsets from the record text, reload the bucket table
/// from the sidecar, and reuse the transducer, skipping the stem
/// computation. The caller vouches that the transducer and sidecar
/// are the artifacts a build of this text wrote.
pub fn generate_fst_index_cached(
    text: &str,
    fst: fst::Map<Vec<u8>>,
    sidecar: &str,
    max_group: usize,
    include_whole: bool,
) -> (r: Result<FstIndex, IndexBuildError>)
    requires
        cached_input_ok(text@, max_group as int, include_whole, fst, sidecar@),
    ensures
        r is Ok <==> offsets_fit(crate::records::split_lines(text@)),
        r matches Ok(idx) ==> {
            &&& idx.wf()
            &&& idx.lines_model() == crate::records::split_lines(text@)
            &&& idx.table() == fst_table(
                crate::records::split_lines(text@),
                max_group as int,
                include_whole,
            )
        },
        r matches Err(e) ==> e is Oversized,
{
    let ghost ps = choose|ps: Seq<(Seq<char>, Seq<u64>)>|
        cached_artifacts_witness(
            text@,
            max_group as int,
            include_whole,
            crate::fstmap::fst_map_entries(fst),
            sidecar@,
            ps,
        );
    let cs = str_to_chars(text);
    let lines = crate::records::split_lines_exec(&cs);
    let line_starts = match crate::records::compute_line_starts(&lines) {
        Some(v) => v,
        None => {
            return Err(IndexBuildError::Oversized);
        },
    };
    let scs = str_to_chars(sidecar);
    let slines = crate::records::split_lines_exec(&scs);
    let ghost slv = crate::records::split_lines(sidecar@);
    let mut fst_values: Vec<Vec<u64>> = Vec::new();
    let mut b: usize = 0;
    while b < slines.len()
        invariant
            0 <= b <= slines@.len(),
            crate::records::line_views(slines@) == slv,
            slv.len() == slines@.len(),
            slv.len() == ps.len(),
            forall|x: int|
                0 <= x < ps.len() ==> crate::codec::sp_sidecar(#[trigger] slv[x]) == Some(
                    ps[x].1,
                ),
            fst_values@.len() == b,
            forall|x: int| 0 <= x < b ==> (#[trigger] fst_values@[x])@ == ps[x].1,
        decreases slines@.len() - b,
    {
        proof {
            assert(slv[b as int] == slines@[b as int]@);
        }
        match crate::codec::parse_sidecar_line(&slines[b]) {
            Some(v) => {
                fst_values.push(v);
            },
            None => {
                // unreachable under the caller's vouching, kept so a
                // damaged sidecar surfaces as an error, not a panic
                return Err(IndexBuildError::BadSidecar);
            },
        }
        b = b + 1;
    }
    let idx = FstIndex {
        fst,
        fst_values,
        line_starts,
        lines,
        max_group,
        stem_pairs: Ghost(ps),
    };
    proof {
        assert(idx.wf());
    }
    Ok(idx)
}

/// One stem paired with the record it came from, gathered before the
/// transducer is loaded.
pub struct StemChunk {
    stem: String,
    index: u64,
}

/// A stemmed index whose transducer maps each stem directly to its
/// record: the transducer file's name, the stem width, and the
/// stored payloads.
pub struct StemmedIndex {
    fst_file: String,
    max_group: usize,
    orig_vec: Vec<Vec<String>>,
}

impl StemmedIndex {
    /// The stored payloads: each a title followed by its children.
    pub closed spec fn payloads(&self) -> Seq<Seq<Seq<char>>> {
        self.orig_vec@.map_values(|v: Vec<String>| str_views(v@))
    }

    /// The name the transducer is persisted under.
    pub closed spec fn fst_file_spec(&self) -> Seq<char> {
        self.fst_file@
    }

    /// The stem width the index was built with.
    pub closed spec fn max_group_spec(&self) -> int {
        self.max_group as int
    }

    /// The number of stored payloads.
    pub fn num_payloads(&self) -> (n: usize)
        ensures
            n == self.payloads().len(),
    {
        self.orig_vec.len()
    }
}

/// Fold one title's stems into the stem-to-record map; a stem seen
/// before stops the build.
pub open spec fn scan_stems(
    m: Map<Seq<char>, u64>,
    stems: Seq<Seq<char>>,
    idx: u64,
) -> Option<Map<Seq<char>, u64>>
    decreases stems.len(),
{
    if stems.len() == 0 {
        Some(m)
    } else {
        match scan_stems(m, stems.drop_last(), idx) {
            None => None,
            Some(m2) => {
                let s = stems.last();
                if m2.contains_key(s) {
                    None
                } else {
                    Some(m2.insert(s, idx))
                }
            },
        }
    }
}

/// The stemmed build over the lines: payloads of the kept records and
/// the stem-to-record map; `None` when a line is malformed or a stem
/// recurs.
pub open spec fn stemmed_scan(lines: Seq<Seq<char>>, k: int) -> Option<
    (Seq<Seq<Seq<char>>>, Map<Seq<char>, u64>),
>
    decreases lines.len(),
{
    if lines.len() == 0 {
        Some((Seq::empty(), Map::empty()))
    } else {
        match stemmed_scan(lines.drop_last(), k) {
            None => None,
            Some(acc) => match sp_record(lines.last()) {
                None => None,
                Some(r) => {
                    let st = stems_seq(r.0, k, false);
                    if st.len() == 0 {
                        Some(acc)
                    } else {
                        match scan_stems(acc.1, st, acc.0.len() as u64) {
                            None => None,
                            Some(m2) => Some((acc.0.push(seq![r.0] + r.1), m2)),
                        }
                    }
                },
            },
        }
    }
}

/// Once the scan fails on a prefix, it fails on the whole.
proof fn lemma_stemmed_scan_none(lines: Seq<Seq<char>>, k: int, j: int)
    requires
        0 <= j <= lines.len(),
        stemmed_scan(lines.take(j), k) is None,
    ensures
        stemmed_scan(lines, k) is None,
    decreases lines.len() - j,
{
    if j == lines.len() {
        assert(lines.take(j) =~= lines);
    } else {
        assert(lines.take(j + 1).drop_last() =~= lines.take(j));
        lemma_stemmed_scan_none(lines, k, j + 1);
    }
}

/// Once a title's stem fold fails on a prefix, it fails on the whole.
proof fn lemma_scan_stems_none(m: Map<Seq<char>, u64>, stems: Seq<Seq<char>>, idx: u64, j: int)
    requires
        0 <= j <= stems.len(),
        scan_stems(m, stems.take(j), idx) is None,
    ensures
        scan_stems(m, stems, idx) is None,
    decreases stems.len() - j,
{
    if j == stems.len() {
        assert(stems.take(j) =~= stems);
    } else {
        assert(stems.take(j + 1).drop_last() =~= stems.take(j));
        lemma_scan_stems_none(m, stems, idx, j + 1);
    }
}

/// Build a stemmed index: parse every line, abandon the build on a
/// malformed one or on a stem two titles share, keep each record with
/// at least one stem, and load the stem-to-record map into the
/// transducer, returning its serialized bytes for persisting.
#[verifier::rlimit(60)]
pub fn generate_stemmed_index(text: &str, fst_file: String, max_group: usize) -> (r: Result<
    (StemmedIndex, Vec<u8>),
    IndexBuildError,
>)
    ensures
        r is Ok <==> stemmed_scan(
            crate::records::split_lines(text@),
            max_group as int,
        ) is Some,
        r matches Ok(p) ==> {
            &&& p.0.payloads() == stemmed_scan(
                crate::records::split_lines(text@),
                max_group as int,
            ).unwrap().0
            &&& p.0.fst_file_spec() == fst_file@
            &&& p.0.max_group_spec() == max_group as int
        },
        r matches Err(e) ==> (e is MalformedRecord || e is DuplicateStem),
{
    let cs = str_to_chars(text);
    let lines = crate::records::split_lines_exec(&cs);
    let ghost lv = crate::records::split_lines(text@);
    let mut dict: Dict<u64> = Dict::new();
    let mut orig_vec: Vec<Vec<String>> = Vec::new();
    let mut i: usize = 0;
    proof {
        assert(stemmed_scan(lv.take(0), max_group as int) == Some(
            (Seq::<Seq<Seq<char>>>::empty(), Map::<Seq<char>, u64>::empty()),
        ));
        assert(crate::records::line_views(Seq::<Vec<char>>::empty()) =~= Seq::<Seq<char>>::empty());
        assert(orig_vec@.map_values(|v: Vec<String>| str_views(v@)) =~= Seq::<
            Seq<Seq<char>>,
        >::empty());
    }
    while i < lines.len()
        invariant
            0 <= i <= lines@.len(),
            lv == crate::records::split_lines(text@),
            crate::records::line_views(lines@) == lv,
            lv.len() == lines@.len(),
            dict.wf(),
            stemmed_scan(lv.take(i as int), max_group as int) == Some(
                (orig_vec@.map_values(|v: Vec<String>| str_views(v@)), dict@),
            ),
        decreases lines@.len() - i,
    {
        let parsed = crate::codec::parse_record(&lines[i]);
        let ghost prefix2 = lv.take(i + 1 as int);
        proof {
            assert(lv[i as int] == lines@[i as int]@);
            assert(prefix2.drop_last() =~= lv.take(i as int));
            assert(prefix2.last() == lv[i as int]);
        }
        match parsed {
            None => {
                proof {
                    lemma_stemmed_scan_none(lv, max_group as int, i + 1);
                }
                return Err(IndexBuildError::MalformedRecord);
            },
            Some(tc) => {
                let (title, children) = tc;
                let stems = generate_stems(title.as_str(), max_group, false);
                proof {
                    assert(str_views(stems@) == stems_seq(
                        sp_record(lv[i as int]).unwrap().0,
                        max_group as int,
                        false,
                    ));
                }
                if stems.len() == 0 {
                    proof {
                        assert(stemmed_scan(prefix2, max_group as int) == Some(
                            (orig_vec@.map_values(|v: Vec<String>| str_views(v@)), dict@),
                        ));
                    }
                    i = i + 1;
                    continue ;
                }
                let counter: u64 = orig_vec.len() as u64;
                let ghost table0 = dict@;
                let ghost lines0 = orig_vec@;
                let ghost stems_g = str_views(stems@);
                let mut j: usize = 0;
                proof {
                    assert(scan_stems(table0, stems_g.take(0), counter) == Some(table0));
                }
                while j < stems.len()
                    invariant
                        0 <= j <= stems@.len(),
                        stems_g == str_views(stems@),
                        dict.wf(),
                        orig_vec@ == lines0,
                        counter == orig_vec@.len(),
                        scan_stems(table0, stems_g.take(j as int), counter) == Some(dict@),
                        0 <= i < lv.len(),
                        lv == crate::records::split_lines(text@),
                        lv.len() == lines@.len(),
                        prefix2 == lv.take(i + 1 as int),
                        sp_record(lv[i as int]) is Some,
                        stems_g == stems_seq(
                            sp_record(lv[i as int]).unwrap().0,
                            max_group as int,
                            false,
                        ),
                        stems_g.len() > 0,
                        stemmed_scan(lv.take(i as int), max_group as int) == Some(
                            (lines0.map_values(|v: Vec<String>| str_views(v@)), table0),
                        ),
                    decreases stems@.len() - j,
                {
                    proof {
                        assert(stems_g.take(j + 1 as int).drop_last() =~= stems_g.take(j as int));
                        assert(stems_g.take(j + 1 as int).last() == stems_g[j as int]);
                    }
                    let stem = stems[j].clone();
                    let chunk = StemChunk { stem, index: counter };
                    if dict.contains_key(chunk.stem.as_str()) {
                        proof {
                            assert(scan_stems(
                                table0,
                                stems_g.take(j + 1 as int),
                                counter,
                            ) is None);
                            lemma_scan_stems_none(table0, stems_g, counter, j + 1);
                            assert(prefix2.drop_last() =~= lv.take(i as int));
                            assert(prefix2.last() == lv[i as int]);
                            assert(counter == lines0.map_values(
                                |v: Vec<String>| str_views(v@),
                            ).len());
                            assert(stemmed_scan(prefix2, max_group as int) is None);
                            lemma_stemmed_scan_none(lv, max_group as int, i + 1);
                        }
                        return Err(IndexBuildError::DuplicateStem);
                    }
                    dict.insert(chunk.stem, chunk.index);
                    j = j + 1;
                }
                proof {
                    assert(stems_g.take(stems_g.len() as int) =~= stems_g);
                }
                // store the payload: title first, then the children
                let mut payload: Vec<String> = Vec::new();
                payload.push(title);
                let mut c: usize = 0;
                while c < children.len()
                    invariant
                        0 <= c <= children@.len(),
                        payload@.len() == c + 1,
                        str_views(payload@) == seq![sp_record(lv[i as int]).unwrap().0]
                            + sp_record(lv[i as int]).unwrap().1.take(c as int),
                        sp_record(lv[i as int]) == Some((payload@[0]@, str_views(children@))),
                    decreases children@.len() - c,
                {
                    let ghost pc = str_views(payload@);
                    payload.push(children[c].clone());
                    proof {
                        let r1 = sp_record(lv[i as int]).unwrap().1;
                        assert(children@[c as int]@ == r1[c as int]);
                        assert(str_views(payload@) =~= pc.push(r1[c as int]));
                        assert(r1.take(c + 1 as int) =~= r1.take(c as int).push(r1[c as int]));
                        assert(pc.push(r1[c as int]) =~= (seq![sp_record(lv[i as int]).unwrap().0]
                            + r1.take(c as int)).push(r1[c as int]));
                        assert((seq![sp_record(lv[i as int]).unwrap().0] + r1.take(c as int)).push(
                            r1[c as int],
                        ) =~= seq![sp_record(lv[i as int]).unwrap().0] + r1.take(c + 1 as int));
                    }
                    c = c + 1;
                }
                proof {
                    assert(sp_record(lv[i as int]).unwrap().1.take(children@.len() as int)
                        =~= sp_record(lv[i as int]).unwrap().1);
                }
                let ghost pre_payloads = orig_vec@.map_values(|v: Vec<String>| str_views(v@));
                orig_vec.push(payload);
                proof {
                    assert(orig_vec@.map_values(|v: Vec<String>| str_views(v@))
                        =~= pre_payloads.push(str_views(payload@)));
                    assert(stemmed_scan(prefix2, max_group as int) == Some(
                        (orig_vec@.map_values(|v: Vec<String>| str_views(v@)), dict@),
                    ));
                }
                i = i + 1;
            },
        }
    }
    proof {
        assert(lv.take(lv.len() as int) =~= lv);
    }
    // load the sorted stem map into the transducer
    let mut builder = crate::fstmap::fst_builder_new();
    let n = dict.len();
    let mut j: usize = 0;
    while j < n
        invariant
            0 <= j <= n,
            n == dict.key_seq().len(),
            dict.wf(),
            crate::fstmap::fst_builder_keys(builder).len() == j,
            forall|x: int|
                0 <= x < j ==> (#[trigger] crate::fstmap::fst_builder_keys(builder)[x]).0
                    == vstd::utf8::encode_utf8(dict.key_seq()[x]),
        decreases n - j,
    {
        let key = dict.key_at(j);
        let key_str = key.as_str();
        let val = *dict.val_at(j);
        proof {
            assert(key_str@ == dict.key_seq()[j as int]);
            let bk = crate::fstmap::fst_builder_keys(builder);
            assert forall|x: int|
                0 <= x < bk.len() implies crate::lexord::lex_lt(
                (#[trigger] bk[x]).0,
                vstd::string::StringSliceAdditionalSpecFns::spec_bytes(key_str),
            ) by {
                assert(bk[x].0 == vstd::utf8::encode_utf8(dict.key_seq()[x]));
                assert(crate::lexord::str_lex_lt(dict.key_seq()[x], dict.key_seq()[j as int]));
            }
        }
        crate::fstmap::fst_builder_insert(&mut builder, key_str, val);
        proof {
            let bk = crate::fstmap::fst_builder_keys(builder);
            assert(forall|x: int|
                0 <= x < j ==> (#[trigger] bk[x]).0 == vstd::utf8::encode_utf8(
                    dict.key_seq()[x],
                ));
            assert(bk[j as int].0 == vstd::utf8::encode_utf8(dict.key_seq()[j as int]));
        }
        j = j + 1;
    }
    let m = crate::fstmap::fst_builder_into_map(builder);
    let bytes = crate::fstmap::fst_map_bytes(&m);
    let idx = StemmedIndex { fst_file, max_group, orig_vec };
    Ok((idx, bytes))
}

/// A copy of a list of record line numbers.
fn clone_u64_list(v: &Vec<u64>) -> (r: Vec<u64>)
    ensures
        r@ == v@,
{
    let mut r: Vec<u64> = Vec::new();
    let mut i: usize = 0;
    while i < v.len()
        invariant
            0 <= i <= v@.len(),
            r@ == v@.take(i as int),
        decreases v@.len() - i,
    {
        r.push(v[i]);
        proof {
            assert(v@.take(i + 1 as int) =~= v@.take(i as int).push(v@[i as int]));
        }
        i = i + 1;
    }
    proof {
        assert(v@.take(v@.len() as int) =~= v@);
    }
    r
}

/// A copy of a list of payload indices.
fn clone_usize_list(v: &Vec<usize>) -> (r: Vec<usize>)
    ensures
        r@ == v@,
{
    let mut r: Vec<usize> = Vec::new();
    let mut i: usize = 0;
    while i < v.len()
        invariant
            0 <= i <= v@.len(),
            r@ == v@.take(i as int),
        decreases v@.len() - i,
    {
        r.push(v[i]);
        proof {
            assert(v@.take(i + 1 as int) =~= v@.take(i as int).push(v@[i as int]));
        }
        i = i + 1;
    }
    proof {
        assert(v@.take(v@.len() as int) =~= v@);
    }
    r
}

} // verus!

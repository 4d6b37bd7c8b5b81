//! The synonym index: equivalence classes of words keyed by their
//! root.
//!
//! One input line is one class: comma-separated words, folded to lower
//! case, whose first word is the root. Looking a root up returns every
//! word of every class it heads, plus the term itself; looking
//! anything else up returns only the term itself.

use vstd::prelude::*;

verus! {

use crate::dict::Dict;
use crate::stemmer::{lower_char, str_views};
use crate::chars::{str_to_chars, chars_range_to_string};
use vstd::string::StringExecFns;

/// A sequence folded to lower case.
pub open spec fn lower_seq(s: Seq<char>) -> Seq<char> {
    s.map_values(|c: char| lower_char(c))
}

/// The length of the leading run of characters that are not commas.
pub open spec fn comma_run(s: Seq<char>) -> nat
    decreases s.len(),
{
    if s.len() == 0 || s[0] == ',' {
        0
    } else {
        1 + comma_run(s.skip(1))
    }
}

pub proof fn lemma_comma_run_le(s: Seq<char>)
    ensures
        comma_run(s) <= s.len(),
    decreases s.len(),
{
    if s.len() > 0 && s[0] != ',' {
        lemma_comma_run_le(s.skip(1));
    }
}

/// A run of non-comma characters followed by the end or by a comma is
/// the leading run.
pub proof fn lemma_comma_run_exact(s: Seq<char>, n: int)
    requires
        0 <= n <= s.len(),
        forall|j: int| 0 <= j < n ==> s[j] != ',',
        n == s.len() || s[n] == ',',
    ensures
        comma_run(s) == n,
    decreases n,
{
    if n > 0 {
        assert(forall|j: int| 0 <= j < n - 1 ==> s.skip(1)[j] == s[j + 1]);
        if n - 1 < s.skip(1).len() {
            assert(s.skip(1)[n - 1] == s[n]);
        }
        lemma_comma_run_exact(s.skip(1), n - 1);
    }
}

/// The comma-separated pieces of a sequence; always at least one
/// piece, and empty pieces are kept.
pub open spec fn split_commas(s: Seq<char>) -> Seq<Seq<char>>
    decreases s.len(),
    via split_commas_dec
{
    let r = comma_run(s) as int;
    if r == s.len() {
        seq![s]
    } else {
        seq![s.take(r)] + split_commas(s.skip(r + 1))
    }
}

#[via_fn]
proof fn split_commas_dec(s: Seq<char>) {
    lemma_comma_run_le(s);
}

/// The words of one class line: comma-separated pieces, folded to
/// lower case.
pub open spec fn class_words(line: Seq<char>) -> Seq<Seq<char>> {
    split_commas(lower_seq(line))
}

/// A class headed by `root` with at least one other word.
pub open spec fn class_qualifies(class: Seq<Seq<char>>, root: Seq<char>) -> bool {
    class.len() >= 2 && class[0] == root
}

/// The indices of the classes headed by `root`, in order.
pub open spec fn root_lines(classes: Seq<Seq<Seq<char>>>, root: Seq<char>) -> Seq<usize>
    decreases classes.len(),
{
    if classes.len() == 0 {
        Seq::empty()
    } else {
        let p = root_lines(classes.drop_last(), root);
        if class_qualifies(classes.last(), root) {
            p.push((classes.len() - 1) as usize)
        } else {
            p
        }
    }
}

/// Every listed index is a qualifying class.
pub proof fn lemma_root_lines_elems(classes: Seq<Seq<Seq<char>>>, root: Seq<char>)
    requires
        classes.len() <= usize::MAX,
    ensures
        forall|a: int|
            0 <= a < root_lines(classes, root).len() ==> {
                let i = #[trigger] root_lines(classes, root)[a] as int;
                0 <= i < classes.len() && class_qualifies(classes[i], root)
            },
    decreases classes.len(),
{
    if classes.len() > 0 {
        lemma_root_lines_elems(classes.drop_last(), root);
        let p = root_lines(classes.drop_last(), root);
        let r = root_lines(classes, root);
        assert forall|a: int| 0 <= a < r.len() implies {
            let i = #[trigger] r[a] as int;
            0 <= i < classes.len() && class_qualifies(classes[i], root)
        } by {
            if a < p.len() {
                assert(r[a] == p[a]);
                let i = p[a] as int;
                assert(0 <= i < classes.drop_last().len() && class_qualifies(
                    classes.drop_last()[i],
                    root,
                ));
                assert(classes.drop_last()[i] == classes[i]);
            } else {
                assert(class_qualifies(classes.last(), root));
                assert(r[a] == (classes.len() - 1) as usize);
                assert(classes[classes.len() - 1] == classes.last());
            }
        }
    }
}

/// Every qualifying class is listed.
pub proof fn lemma_root_lines_complete(classes: Seq<Seq<Seq<char>>>, root: Seq<char>, i: int)
    requires
        classes.len() <= usize::MAX,
        0 <= i < classes.len(),
        class_qualifies(classes[i], root),
    ensures
        root_lines(classes, root).contains(i as usize),
    decreases classes.len(),
{
    if i == classes.len() - 1 {
        assert(root_lines(classes, root).last() == i as usize);
    } else {
        assert(classes.drop_last()[i] == classes[i]);
        lemma_root_lines_complete(classes.drop_last(), root, i);
        let p = root_lines(classes.drop_last(), root);
        let a = choose|a: int| 0 <= a < p.len() && p[a] == i as usize;
        assert(root_lines(classes, root)[a] == i as usize);
    }
}

pub struct SynonymIndex {
    line_vecs: Vec<Vec<String>>,
    index: Dict<Vec<usize>>,
}

impl SynonymIndex {
    /// The equivalence classes, in input order.
    pub closed spec fn classes(&self) -> Seq<Seq<Seq<char>>> {
        self.line_vecs@.map_values(|v: Vec<String>| str_views(v@))
    }

    /// The root map lists, for each root, exactly the classes it
    /// heads.
    pub closed spec fn wf(&self) -> bool {
        &&& self.index.wf()
        &&& self.index@ == Map::<Seq<char>, Seq<usize>>::new(
            |r: Seq<char>| root_lines(self.classes(), r).len() > 0,
            |r: Seq<char>| root_lines(self.classes(), r),
        )
    }
}

/// What a synonym lookup returns: the term itself, plus every word of
/// every class the term heads, each mapped to the term.
pub open spec fn syn_search_model(classes: Seq<Seq<Seq<char>>>, term: Seq<char>) -> Map<
    Seq<char>,
    Seq<char>,
> {
    Map::new(
        |w: Seq<char>|
            w == term || exists|i: int|
                0 <= i < classes.len() && class_qualifies(#[trigger] classes[i], term)
                    && classes[i].contains(w),
        |w: Seq<char>| term,
    )
}

/// For any root of a class, looking the root up covers the whole
/// class: every word of every class the root heads is in the result,
/// mapped to the root.
pub proof fn lemma_synonym_class_covered(classes: Seq<Seq<Seq<char>>>, i: int, root: Seq<char>)
    requires
        0 <= i < classes.len(),
        class_qualifies(classes[i], root),
    ensures
        forall|w: Seq<char>|
            #[trigger] classes[i].contains(w) ==> syn_search_model(classes, root).contains_key(w)
                && syn_search_model(classes, root)[w] == root,
{
}

/// Split one lower-cased line on commas.
fn split_line_commas(line: &str) -> (r: Vec<String>)
    ensures
        str_views(r@) == class_words(line@),
{
    let cs0 = str_to_chars(line);
    let mut cc: Vec<char> = Vec::new();
    let mut i: usize = 0;
    while i < cs0.len()
        invariant
            0 <= i <= cs0@.len(),
            cs0@ == line@,
            cc@ == lower_seq(cs0@.take(i as int)),
        decreases cs0@.len() - i,
    {
        let l = crate::stemmer::to_lower_char(cs0[i]);
        cc.push(l);
        proof {
            assert(lower_seq(cs0@.take(i + 1 as int)) =~= lower_seq(cs0@.take(i as int)).push(
                lower_char(cs0@[i as int]),
            ));
        }
        i = i + 1;
    }
    proof {
        assert(cs0@.take(cs0@.len() as int) =~= cs0@);
    }
    // split the lowered characters on commas
    let mut words: Vec<String> = Vec::new();
    let mut pos: usize = 0;
    proof {
        assert(cc@.skip(0) =~= cc@);
        assert(str_views(words@) =~= Seq::<Seq<char>>::empty());
        assert(str_views(words@) + split_commas(cc@) =~= split_commas(cc@));
    }
    loop
        invariant_except_break
            str_views(words@) + split_commas(cc@.skip(pos as int)) == split_commas(cc@),
        invariant
            0 <= pos <= cc@.len(),
            cc@ == lower_seq(line@),
        ensures
            str_views(words@) == split_commas(cc@),
            cc@ == lower_seq(line@),
        decreases cc@.len() - pos,
    {
        let mut end: usize = pos;
        while end < cc.len() && cc[end] != ','
            invariant
                pos <= end <= cc@.len(),
                forall|j: int| pos <= j < end ==> cc@[j] != ',',
            decreases cc@.len() - end,
        {
            end = end + 1;
        }
        let w = chars_range_to_string(&cc, pos, end);
        let ghost tail = cc@.skip(pos as int);
        proof {
            assert(forall|j: int| 0 <= j < end - pos ==> tail[j] != ',');
            if end - pos < tail.len() {
                assert(tail[end - pos] == cc@[end as int]);
            }
            lemma_comma_run_exact(tail, end - pos);
            assert(tail.take(end - pos) =~= cc@.subrange(pos as int, end as int));
        }
        if end == cc.len() {
            proof {
                assert(tail.take(end - pos) =~= tail);
                assert(split_commas(tail) == seq![w@]);
                assert(str_views(words@.push(w)) =~= str_views(words@).push(w@));
                assert(str_views(words@) + seq![w@] =~= str_views(words@.push(w)));
            }
            words.push(w);
            break ;
        }
        proof {
            assert(tail.skip(end - pos + 1) =~= cc@.skip(end + 1 as int));
            assert(split_commas(tail) == seq![w@] + split_commas(cc@.skip(end + 1 as int)));
            assert(str_views(words@.push(w)) =~= str_views(words@).push(w@));
            assert(str_views(words@.push(w)) + split_commas(cc@.skip(end + 1 as int))
                =~= str_views(words@) + split_commas(tail));
        }
        words.push(w);
        pos = end + 1;
    }
    words
}

/// Build the synonym index from the class lines.
pub fn generate_synonym_index(lines: &Vec<String>) -> (r: SynonymIndex)
    ensures
        r.wf(),
        r.classes() == lines@.map_values(|l: String| class_words(l@)),
{
    let mut idx = SynonymIndex { line_vecs: Vec::new(), index: Dict::new() };
    let ghost goal = lines@.map_values(|l: String| class_words(l@));
    let mut i: usize = 0;
    proof {
        assert(idx.classes() =~= goal.take(0));
        assert(idx.index@ =~= Map::<Seq<char>, Seq<usize>>::new(
            |r: Seq<char>| root_lines(goal.take(0), r).len() > 0,
            |r: Seq<char>| root_lines(goal.take(0), r),
        ));
    }
    while i < lines.len()
        invariant
            0 <= i <= lines@.len(),
            goal == lines@.map_values(|l: String| class_words(l@)),
            idx.line_vecs@.len() == i,
            idx.classes() == goal.take(i as int),
            idx.index.wf(),
            idx.index@ == Map::<Seq<char>, Seq<usize>>::new(
                |r: Seq<char>| root_lines(goal.take(i as int), r).len() > 0,
                |r: Seq<char>| root_lines(goal.take(i as int), r),
            ),
        decreases lines@.len() - i,
    {
        let all_words = split_line_commas(lines[i].as_str());
        let ghost prev_classes = idx.classes();
        let ghost class = str_views(all_words@);
        if all_words.len() >= 2 {
            let root = all_words[0].clone();
            let prior = match idx.index.get(root.as_str()) {
                Some(v) => {
                    let mut copy = clone_usize_vec(v);
                    copy.push(i);
                    copy
                },
                None => {
                    let mut copy: Vec<usize> = Vec::new();
                    copy.push(i);
                    copy
                },
            };
            proof {
                lemma_root_lines_last(prev_classes, class, root@);
                if idx.index@.contains_key(root@) {
                    assert(prior@ =~= root_lines(prev_classes.push(class), root@));
                } else {
                    assert(root_lines(prev_classes, root@) =~= Seq::<usize>::empty());
                    assert(prior@ =~= root_lines(prev_classes.push(class), root@));
                }
            }
            idx.index.insert(root, prior);
        }
        idx.line_vecs.push(all_words);
        proof {
            assert(goal[i as int] == class_words(lines@[i as int]@));
            assert(class =~= goal[i as int]);
            assert(idx.classes() =~= prev_classes.push(class));
            assert(idx.classes() =~= goal.take(i + 1 as int));
            lemma_root_map_step(prev_classes, class, idx.index@);
        }
        i = i + 1;
    }
    proof {
        assert(goal.take(goal.len() as int) =~= goal);
    }
    idx
}

/// Appending a class adds its index to its root's list and leaves
/// every other root's list unchanged.
proof fn lemma_root_lines_last(classes: Seq<Seq<Seq<char>>>, class: Seq<Seq<char>>, r: Seq<char>)
    ensures
        class_qualifies(class, r) ==> root_lines(classes.push(class), r) == root_lines(
            classes,
            r,
        ).push(classes.len() as usize),
        !class_qualifies(class, r) ==> root_lines(classes.push(class), r) == root_lines(
            classes,
            r,
        ),
{
    assert(classes.push(class).drop_last() =~= classes);
    assert(classes.push(class).last() == class);
}

/// After the insert for one new class, the root map matches the grown
/// class sequence.
proof fn lemma_root_map_step(
    classes: Seq<Seq<Seq<char>>>,
    class: Seq<Seq<char>>,
    m: Map<Seq<char>, Seq<usize>>,
)
    requires
        ({
            let prev = Map::<Seq<char>, Seq<usize>>::new(
                |r: Seq<char>| root_lines(classes, r).len() > 0,
                |r: Seq<char>| root_lines(classes, r),
            );
            if class_qualifies(class, class[0]) {
                m == prev.insert(class[0], root_lines(classes.push(class), class[0]))
            } else {
                m == prev
            }
        }),
    ensures
        m == Map::<Seq<char>, Seq<usize>>::new(
            |r: Seq<char>| root_lines(classes.push(class), r).len() > 0,
            |r: Seq<char>| root_lines(classes.push(class), r),
        ),
{
    assert forall|r: Seq<char>| true implies {
        (root_lines(classes.push(class), r).len() > 0 <==> (root_lines(classes, r).len() > 0 || (
        class_qualifies(class, class[0]) && r == class[0]))) && (class_qualifies(class, r) ==> r
            == class[0])
    } by {
        lemma_root_lines_last(classes, class, r);
    }
    let m2 = Map::<Seq<char>, Seq<usize>>::new(
        |r: Seq<char>| root_lines(classes.push(class), r).len() > 0,
        |r: Seq<char>| root_lines(classes.push(class), r),
    );
    assert forall|r: Seq<char>| #[trigger] m.dom().contains(r) <==> m2.dom().contains(r) by {
        lemma_root_lines_last(classes, class, r);
    }
    assert forall|r: Seq<char>| m.dom().contains(r) implies #[trigger] m[r] == m2[r] by {
        lemma_root_lines_last(classes, class, r);
    }
    assert(m =~= m2);
}

/// A copy of a vector of indices.
fn clone_usize_vec(v: &Vec<usize>) -> (r: Vec<usize>)
    ensures
        r@ == v@,
{
    let mut r: Vec<usize> = Vec::new();
    let mut i: usize = 0;
    while i < v.len()
        invariant
            0 <= i <= v@.len(),
            r@ == v@.take(i as int),
        decreases v@.len() - i,
    {
        r.push(v[i]);
        proof {
            assert(v@.take(i + 1 as int) =~= v@.take(i as int).push(v@[i as int]));
        }
        i = i + 1;
    }
    proof {
        assert(v@.take(v@.len() as int) =~= v@);
    }
    r
}

/// Look `term` up: the term maps to itself, and when it is a root,
/// every word of every class it heads maps to it too.
pub fn search_synonym_index(term: &str, index: &SynonymIndex) -> (r: Dict<String>)
    requires
        index.wf(),
    ensures
        r.wf(),
        r@ == syn_search_model(index.classes(), term@),
        r@.contains_key(term@) && r@[term@] == term@,
{
    let ghost classes = index.classes();
    let n_classes = index.line_vecs.len();
    proof {
        assert(classes.len() == n_classes);
    }
    let mut result: Dict<String> = Dict::new();
    let t0 = String::from_str(term);
    let t1 = String::from_str(term);
    result.insert(t0, t1);
    proof {
        lemma_root_lines_elems(classes, term@);
    }
    match index.index.get(term) {
        Some(line_list) => {
            let ghost lls = line_list@;
            let n = line_list.len();
            let mut a: usize = 0;
            proof {
                assert(result@ =~= partial_model(classes, lls, 0, term@));
            }
            while a < n
                invariant
                    0 <= a <= n,
                    n == lls.len(),
                    classes.len() <= usize::MAX,
                    classes == index.classes(),
                    index.wf(),
                    lls == line_list@,
                    line_list@ == index.index@[term@],
                    index.index@.contains_key(term@),
                    result.wf(),
                    result@ == partial_model(classes, lls, a as int, term@),
                decreases n - a,
            {
                let li = line_list[a];
                proof {
                    assert(lls == root_lines(classes, term@));
                    lemma_root_lines_elems(classes, term@);
                    assert(0 <= li as int && (li as int) < classes.len());
                    assert(class_qualifies(classes[li as int], term@));
                    assert(classes[li as int] == str_views(index.line_vecs@[li as int]@));
                }
                let class_vec = &index.line_vecs[li];
                let m = class_vec.len();
                let mut b: usize = 0;
                while b < m
                    invariant
                        0 <= b <= m,
                        a < lls.len(),
                        m == class_vec@.len(),
                        class_vec@ == index.line_vecs@[lls[a as int] as int]@,
                        classes == index.classes(),
                        (lls[a as int] as int) < classes.len(),
                        classes[lls[a as int] as int] == str_views(class_vec@),
                        result.wf(),
                        result@ == partial_model_inner(classes, lls, a as int, b as int, term@),
                    decreases m - b,
                {
                    let w = class_vec[b].clone();
                    let tv = String::from_str(term);
                    let ghost pre = result@;
                    result.insert(w, tv);
                    proof {
                        let cls = classes[lls[a as int] as int];
                        assert(cls[b as int] == class_vec@[b as int]@);
                        assert(cls.take(b + 1 as int) =~= cls.take(b as int).push(cls[b as int]));
                        lemma_partial_inner_step(classes, lls, a as int, b as int, term@, pre);
                    }
                    b = b + 1;
                }
                proof {
                    let cls = classes[lls[a as int] as int];
                    assert(cls.take(cls.len() as int) =~= cls);
                    assert(partial_model_inner(classes, lls, a as int, m as int, term@)
                        =~= partial_model(classes, lls, a + 1 as int, term@));
                }
                a = a + 1;
            }
            proof {
                lemma_partial_full(classes, lls, term@);
            }
            result
        },
        None => {
            proof {
                assert(root_lines(classes, term@).len() == 0);
                assert(result@ =~= syn_search_model(classes, term@)) by {
                    assert forall|w: Seq<char>|
                        #[trigger] syn_search_model(classes, term@).dom().contains(w) implies w
                        == term@ by {
                        if w != term@ {
                            let i = choose|i: int|
                                0 <= i < classes.len() && class_qualifies(
                                    #[trigger] classes[i],
                                    term@,
                                ) && classes[i].contains(w);
                            lemma_root_lines_complete(classes, term@, i);
                        }
                    }
                }
            }
            result
        },
    }
}

/// The search result after expanding the first `a` listed classes.
pub open spec fn partial_model(
    classes: Seq<Seq<Seq<char>>>,
    lls: Seq<usize>,
    a: int,
    term: Seq<char>,
) -> Map<Seq<char>, Seq<char>> {
    Map::new(
        |w: Seq<char>|
            w == term || exists|x: int|
                0 <= x < a && x < lls.len() && #[trigger] classes[lls[x] as int].contains(w),
        |w: Seq<char>| term,
    )
}

/// The search result mid-way through class `a`: its first `b` words
/// are in.
pub open spec fn partial_model_inner(
    classes: Seq<Seq<Seq<char>>>,
    lls: Seq<usize>,
    a: int,
    b: int,
    term: Seq<char>,
) -> Map<Seq<char>, Seq<char>> {
    Map::new(
        |w: Seq<char>|
            w == term || (exists|x: int|
                0 <= x < a && x < lls.len() && #[trigger] classes[lls[x] as int].contains(w)) || (0
                <= a < lls.len() && classes[lls[a] as int].take(b).contains(w)),
        |w: Seq<char>| term,
    )
}

/// Inserting word `b` of class `a` advances the partial model by one
/// word.
proof fn lemma_partial_inner_step(
    classes: Seq<Seq<Seq<char>>>,
    lls: Seq<usize>,
    a: int,
    b: int,
    term: Seq<char>,
    pre: Map<Seq<char>, Seq<char>>,
)
    requires
        0 <= a < lls.len(),
        0 <= lls[a] as int,
        (lls[a] as int) < classes.len(),
        0 <= b < classes[lls[a] as int].len(),
        pre == partial_model_inner(classes, lls, a, b, term),
    ensures
        pre.insert(classes[lls[a] as int][b], term) == partial_model_inner(
            classes,
            lls,
            a,
            b + 1,
            term,
        ),
{
    let cls = classes[lls[a] as int];
    assert(cls.take(b + 1) =~= cls.take(b).push(cls[b]));
    let lhs = pre.insert(cls[b], term);
    let rhs = partial_model_inner(classes, lls, a, b + 1, term);
    assert forall|w: Seq<char>| #[trigger] lhs.dom().contains(w) <==> rhs.dom().contains(w) by {
        if w == cls[b] {
            assert(cls.take(b + 1)[b] == cls[b]);
            assert(cls.take(b + 1).contains(cls[b]));
        }
        if rhs.dom().contains(w) && w != term && w != cls[b] {
            if cls.take(b + 1).contains(w) {
                let x = choose|x: int| 0 <= x < b + 1 && #[trigger] cls.take(b + 1)[x] == w;
                if x < b {
                    assert(cls.take(b)[x] == w);
                    assert(cls.take(b).contains(w));
                }
            }
        }
    }
    assert forall|w: Seq<char>| lhs.dom().contains(w) implies #[trigger] lhs[w] == rhs[w] by {}
    assert(lhs =~= rhs);
}

/// After every listed class is expanded, the partial model is the
/// search model.
proof fn lemma_partial_full(classes: Seq<Seq<Seq<char>>>, lls: Seq<usize>, term: Seq<char>)
    requires
        classes.len() <= usize::MAX,
        lls == root_lines(classes, term),
    ensures
        partial_model(classes, lls, lls.len() as int, term) == syn_search_model(classes, term),
{
    let lhs = partial_model(classes, lls, lls.len() as int, term);
    let rhs = syn_search_model(classes, term);
    lemma_root_lines_elems(classes, term);
    assert forall|w: Seq<char>| #[trigger] lhs.dom().contains(w) <==> rhs.dom().contains(w) by {
        if w != term {
            if lhs.dom().contains(w) {
                let x = choose|x: int|
                    0 <= x < lls.len() && #[trigger] classes[lls[x] as int].contains(w);
                assert(class_qualifies(classes[lls[x] as int], term));
            }
            if rhs.dom().contains(w) {
                let i = choose|i: int|
                    0 <= i < classes.len() && class_qualifies(#[trigger] classes[i], term)
                        && classes[i].contains(w);
                lemma_root_lines_complete(classes, term, i);
                let x = choose|x: int| 0 <= x < lls.len() && lls[x] == i as usize;
                assert(classes[lls[x] as int].contains(w));
            }
        }
    }
    assert(lhs =~= rhs);
}

} // verus!

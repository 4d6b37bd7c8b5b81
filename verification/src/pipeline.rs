//! The multi-stage query pipeline.
//!
//! A query carries terms, an ordered list of stages, and a working-set
//! bound. Each stage turns the previous association layer into the
//! next, keyed throughout by the original query terms; after the last
//! stage, candidates reached by more than one term are scored, sorted,
//! and expanded into provenance chains.

use vstd::prelude::*;

verus! {

use crate::dict::Dict;
use crate::indexer::Searchable;
use crate::synonym_index::{SynonymIndex, search_synonym_index, syn_search_model};
use vstd::string::StringExecFns;

/// The closed set of pipeline stages.
#[derive(Clone, Copy, Debug, PartialEq, Eq, Structural)]
pub enum QueryStage {
    WikiAllStem,
    WikiArticleStem,
    WikiArticleExact,
    Synonym,
    Homophone,
}

/// A back-pointer recording what a candidate was found through:
/// the key searched and the title (or term) it matched.
pub struct SearchMatch {
    pub search_term: String,
    pub search_match: String,
}

/// The mathematical value of a `SearchMatch`.
pub ghost struct SearchMatchView {
    pub search_term: Seq<char>,
    pub search_match: Seq<char>,
}

impl View for SearchMatch {
    type V = SearchMatchView;

    open spec fn view(&self) -> SearchMatchView {
        SearchMatchView { search_term: self.search_term@, search_match: self.search_match@ }
    }
}

/// One association layer: each query term's map from candidate to the
/// match that produced it.
pub type AssociationDict = Dict<Dict<SearchMatch>>;

/// A query: the terms, the stages to run in order, the working-set
/// bound, the layers built so far, and the optional scoring hint.
pub struct Query {
    pub query_terms: Vec<String>,
    pub stages: Vec<QueryStage>,
    pub max_size: usize,
    pub association_dicts: Vec<AssociationDict>,
    pub flavortext: Option<String>,
}

/// An association layer whose inner dictionaries are all well formed.
pub open spec fn assoc_wf(d: &AssociationDict) -> bool {
    &&& d.wf()
    &&& forall|i: int| 0 <= i < d.val_seq().len() ==> (#[trigger] d.val_seq()[i]).wf()
}

/// `m` overlaid with search results: every result candidate maps to a
/// match with the searched key and the result's title; other entries
/// keep their value.
pub open spec fn overlay(
    m: Map<Seq<char>, SearchMatchView>,
    res: Map<Seq<char>, Seq<char>>,
    st: Seq<char>,
) -> Map<Seq<char>, SearchMatchView> {
    Map::new(
        |c: Seq<char>| m.contains_key(c) || res.contains_key(c),
        |c: Seq<char>|
            if res.contains_key(c) {
                SearchMatchView { search_term: st, search_match: res[c] }
            } else {
                m[c]
            },
    )
}

/// Like `overlay`, but only the result keys listed in `ks` are in.
pub open spec fn overlay_partial(
    m: Map<Seq<char>, SearchMatchView>,
    res: Map<Seq<char>, Seq<char>>,
    ks: Seq<Seq<char>>,
    st: Seq<char>,
) -> Map<Seq<char>, SearchMatchView> {
    Map::new(
        |c: Seq<char>| m.contains_key(c) || ks.contains(c),
        |c: Seq<char>|
            if ks.contains(c) {
                SearchMatchView { search_term: st, search_match: res[c] }
            } else {
                m[c]
            },
    )
}

/// Write every search result into `entry`: candidate to a match with
/// the searched key and the result's title, overwriting earlier
/// entries for the same candidate.
fn merge_search_results(entry: &mut Dict<SearchMatch>, st: &String, results: &Dict<String>)
    requires
        old(entry).wf(),
        results.wf(),
    ensures
        final(entry).wf(),
        final(entry)@ == overlay(old(entry)@, results@, st@),
{
    let ghost m0 = old(entry)@;
    let ghost ks = results.key_seq();
    let n = results.len();
    let mut j: usize = 0;
    proof {
        assert(entry@ =~= overlay_partial(m0, results@, ks.take(0), st@));
    }
    while j < n
        invariant
            0 <= j <= n,
            n == ks.len(),
            ks == results.key_seq(),
            results.wf(),
            entry.wf(),
            entry@ == overlay_partial(m0, results@, ks.take(j as int), st@),
        decreases n - j,
    {
        let key = results.key_at(j);
        let val = results.val_at(j);
        let k2 = key.clone();
        let sm = SearchMatch { search_term: st.clone(), search_match: val.clone() };
        let ghost pre = entry@;
        entry.insert(k2, sm);
        proof {
            let t1 = ks.take(j + 1 as int);
            assert(t1.drop_last() =~= ks.take(j as int));
            assert(t1.last() == ks[j as int]);
            assert(results@[ks[j as int]] == val@);
            assert forall|c: Seq<char>|
                #[trigger] entry@.dom().contains(c) <==> overlay_partial(
                    m0,
                    results@,
                    t1,
                    st@,
                ).dom().contains(c) by {
                if c != ks[j as int] {
                    if t1.contains(c) {
                        let x = choose|x: int| 0 <= x < t1.len() && t1[x] == c;
                        if x < j {
                            assert(ks.take(j as int)[x] == c);
                            assert(ks.take(j as int).contains(c));
                        }
                    }
                    if ks.take(j as int).contains(c) {
                        let x = choose|x: int|
                            0 <= x < j && #[trigger] ks.take(j as int)[x] == c;
                        assert(t1[x] == c);
                        assert(t1.contains(c));
                    }
                }
            }
            assert forall|c: Seq<char>|
                entry@.dom().contains(c) implies #[trigger] entry@[c] == overlay_partial(
                m0,
                results@,
                t1,
                st@,
            )[c] by {
                if c == ks[j as int] {
                    assert(t1[j as int] == c);
                    assert(t1.contains(c));
                    assert(results@.contains_key(c));
                } else {
                    if t1.contains(c) {
                        let x = choose|x: int| 0 <= x < t1.len() && t1[x] == c;
                        if x < j {
                            assert(ks.take(j as int)[x] == c);
                            assert(ks.take(j as int).contains(c));
                        }
                    }
                    if ks.take(j as int).contains(c) {
                        let x = choose|x: int|
                            0 <= x < j && #[trigger] ks.take(j as int)[x] == c;
                        assert(t1[x] == c);
                        assert(t1.contains(c));
                    }
                }
            }
            assert(entry@ =~= overlay_partial(m0, results@, t1, st@));
        }
        j = j + 1;
    }
    proof {
        assert(ks.take(n as int) =~= ks);
        assert forall|c: Seq<char>| #[trigger] ks.contains(c) <==> results@.dom().contains(c) by {
            results.lemma_view_contains(c);
        }
        assert(entry@ =~= overlay(m0, results@, st@));
    }
}

/// What one term's first-layer entry holds: the merged results of the
/// two index searches, the table index winning ties, or the term
/// itself when both miss.
pub open spec fn assoc_entry(
    nm: Map<Seq<char>, Seq<char>>,
    tm: Map<Seq<char>, Seq<char>>,
    t: Seq<char>,
) -> Map<Seq<char>, SearchMatchView> {
    if nm.dom() =~= Set::<Seq<char>>::empty() && tm.dom() =~= Set::<Seq<char>>::empty() {
        Map::empty().insert(t, SearchMatchView { search_term: t, search_match: t })
    } else {
        overlay(overlay(Map::empty(), nm, t), tm, t)
    }
}

/// The first association layer: each term mapped to its merged search
/// results against both indexes, seeded with the term itself when
/// both searches miss.
pub open spec fn find_assoc_model<N: Searchable, M: Searchable>(
    norm: &N,
    table: &M,
    terms: Seq<Seq<char>>,
    k: int,
    whole: bool,
) -> Map<Seq<char>, Map<Seq<char>, SearchMatchView>> {
    Map::new(
        |t: Seq<char>| terms.contains(t),
        |t: Seq<char>|
            assoc_entry(norm.search_model(t, k, whole), table.search_model(t, k, whole), t),
    )
}

/// The map view of an association layer, with inner dictionaries
/// abstracted to their maps.
pub open spec fn layer_view(d: &AssociationDict) -> Map<Seq<char>, Map<Seq<char>, SearchMatchView>> {
    d@
}

/// Build the first association layer from the raw query terms: search
/// each term in both indexes with single-word stems and merge, the
/// table index winning ties; a term both searches miss maps to
/// itself.
pub fn find_associations<N: Searchable, M: Searchable>(
    search_set: &Vec<String>,
    norm_index: &N,
    table_index: &M,
) -> (r: AssociationDict)
    requires
        norm_index.search_wf(),
        table_index.search_wf(),
    ensures
        assoc_wf(&r),
        r@ == find_assoc_model(norm_index, table_index, crate::stemmer::str_views(search_set@), 1, false),
{
    let ghost terms = crate::stemmer::str_views(search_set@);
    let mut r: AssociationDict = Dict::new();
    let mut i: usize = 0;
    proof {
        assert(r@ =~= Map::new(
            |t: Seq<char>| terms.take(0).contains(t),
            |t: Seq<char>|
                assoc_entry(
                    norm_index.search_model(t, 1, false),
                    table_index.search_model(t, 1, false),
                    t,
                ),
        ));
    }
    while i < search_set.len()
        invariant
            0 <= i <= search_set@.len(),
            terms == crate::stemmer::str_views(search_set@),
            norm_index.search_wf(),
            table_index.search_wf(),
            assoc_wf(&r),
            r@ == Map::new(
                |t: Seq<char>| terms.take(i as int).contains(t),
                |t: Seq<char>|
                    assoc_entry(
                        norm_index.search_model(t, 1, false),
                        table_index.search_model(t, 1, false),
                        t,
                    ),
            ),
        decreases search_set@.len() - i,
    {
        let term = &search_set[i];
        let norm_results = norm_index.search(term.as_str(), 1, false);
        let table_results = table_index.search(term.as_str(), 1, false);
        let mut entry: Dict<SearchMatch> = Dict::new();
        merge_search_results(&mut entry, term, &norm_results);
        merge_search_results(&mut entry, term, &table_results);
        if entry.len() == 0 {
            proof {
                entry.lemma_view_contains(term@);
                assert(entry.key_seq().len() == 0);
                assert forall|c: Seq<char>| !(#[trigger] entry@.dom().contains(c)) by {
                    entry.lemma_view_contains(c);
                }
                assert(norm_index.search_model(term@, 1, false).dom() =~= Set::<
                    Seq<char>,
                >::empty()) by {
                    assert forall|c: Seq<char>|
                        !(#[trigger] norm_index.search_model(term@, 1, false).dom().contains(
                            c,
                        )) by {
                        if norm_index.search_model(term@, 1, false).dom().contains(c) {
                            assert(entry@.dom().contains(c));
                        }
                    }
                }
                assert(table_index.search_model(term@, 1, false).dom() =~= Set::<
                    Seq<char>,
                >::empty()) by {
                    assert forall|c: Seq<char>|
                        !(#[trigger] table_index.search_model(term@, 1, false).dom().contains(
                            c,
                        )) by {
                        if table_index.search_model(term@, 1, false).dom().contains(c) {
                            assert(entry@.dom().contains(c));
                        }
                    }
                }
            }
            let t1 = term.clone();
            let t2 = term.clone();
            let t3 = term.clone();
            let sm = SearchMatch { search_term: t2, search_match: t3 };
            entry.insert(t1, sm);
            proof {
                assert(entry@ =~= assoc_entry(
                    norm_index.search_model(term@, 1, false),
                    table_index.search_model(term@, 1, false),
                    term@,
                ));
            }
        } else {
            proof {
                assert(entry.key_seq().len() > 0);
                let k0 = entry.key_seq()[0];
                assert(entry.key_seq().contains(k0));
                entry.lemma_view_contains(k0);
                assert(entry@.dom().contains(k0));
                assert(!(norm_index.search_model(term@, 1, false).dom() =~= Set::<
                    Seq<char>,
                >::empty() && table_index.search_model(term@, 1, false).dom() =~= Set::<
                    Seq<char>,
                >::empty()));
                assert(entry@ =~= assoc_entry(
                    norm_index.search_model(term@, 1, false),
                    table_index.search_model(term@, 1, false),
                    term@,
                ));
            }
        }
        let ghost pre = r@;
        let tkey = term.clone();
        let ghost entry_snap = entry;
        r.insert(tkey, entry);
        proof {
            let t1 = terms.take(i + 1 as int);
            assert(t1.drop_last() =~= terms.take(i as int));
            assert(t1.last() == terms[i as int]);
            lemma_terms_take_step(terms, i as int);
            assert forall|t: Seq<char>| #[trigger] t1.contains(t) <==> (terms.take(
                i as int,
            ).contains(t) || t == terms[i as int]) by {
                lemma_take_contains(terms, i as int, t);
            }
            assert(r@ =~= Map::new(
                |t: Seq<char>| t1.contains(t),
                |t: Seq<char>|
                    assoc_entry(
                        norm_index.search_model(t, 1, false),
                        table_index.search_model(t, 1, false),
                        t,
                    ),
            ));
        }
        i = i + 1;
    }
    proof {
        assert(terms.take(terms.len() as int) =~= terms);
        assert(r@ =~= find_assoc_model(norm_index, table_index, terms, 1, false));
    }
    r
}

/// Membership in one more prefix element.
proof fn lemma_take_contains(s: Seq<Seq<char>>, i: int, t: Seq<char>)
    requires
        0 <= i < s.len(),
    ensures
        s.take(i + 1).contains(t) <==> (s.take(i).contains(t) || t == s[i]),
{
    let t1 = s.take(i + 1);
    if t1.contains(t) {
        let x = choose|x: int| 0 <= x < t1.len() && t1[x] == t;
        if x < i {
            assert(s.take(i)[x] == t);
            assert(s.take(i).contains(t));
        }
    }
    if s.take(i).contains(t) {
        let x = choose|x: int| 0 <= x < i && #[trigger] s.take(i)[x] == t;
        assert(t1[x] == t);
    }
    if t == s[i] {
        assert(t1[i] == t);
    }
}

proof fn lemma_terms_take_step(s: Seq<Seq<char>>, i: int)
    requires
        0 <= i < s.len(),
    ensures
        s.take(i + 1).drop_last() =~= s.take(i),
        s.take(i + 1).last() == s[i],
{
}

/// The first association layer over the synonym index: each term
/// mapped to its expansion, every expansion word recording the term
/// as both key and match.
pub open spec fn find_syn_model(
    classes: Seq<Seq<Seq<char>>>,
    terms: Seq<Seq<char>>,
) -> Map<Seq<char>, Map<Seq<char>, SearchMatchView>> {
    Map::new(
        |t: Seq<char>| terms.contains(t),
        |t: Seq<char>|
            Map::new(
                |w: Seq<char>| syn_search_model(classes, t).contains_key(w),
                |w: Seq<char>| SearchMatchView { search_term: t, search_match: t },
            ),
    )
}

/// Build the first association layer from the synonym (or homophone)
/// index: each term expands to its synonym class, every expansion
/// word pointing back at the term.
pub fn find_synonym_associations(search_set: &Vec<String>, index: &SynonymIndex) -> (r:
    AssociationDict)
    requires
        index.wf(),
    ensures
        assoc_wf(&r),
        r@ == find_syn_model(index.classes(), crate::stemmer::str_views(search_set@)),
{
    let ghost terms = crate::stemmer::str_views(search_set@);
    let ghost classes = index.classes();
    let mut r: AssociationDict = Dict::new();
    let mut i: usize = 0;
    proof {
        assert(r@ =~= Map::new(
            |t: Seq<char>| terms.take(0).contains(t),
            |t: Seq<char>|
                Map::new(
                    |w: Seq<char>| syn_search_model(classes, t).contains_key(w),
                    |w: Seq<char>| SearchMatchView { search_term: t, search_match: t },
                ),
        ));
    }
    while i < search_set.len()
        invariant
            0 <= i <= search_set@.len(),
            terms == crate::stemmer::str_views(search_set@),
            classes == index.classes(),
            index.wf(),
            assoc_wf(&r),
            r@ == Map::new(
                |t: Seq<char>| terms.take(i as int).contains(t),
                |t: Seq<char>|
                    Map::new(
                        |w: Seq<char>| syn_search_model(classes, t).contains_key(w),
                        |w: Seq<char>| SearchMatchView { search_term: t, search_match: t },
                    ),
            ),
        decreases search_set@.len() - i,
    {
        let term = &search_set[i];
        let synonym_results = search_synonym_index(term.as_str(), index);
        let mut entry: Dict<SearchMatch> = Dict::new();
        let ghost sks = synonym_results.key_seq();
        let n = synonym_results.len();
        let mut j: usize = 0;
        proof {
            assert(entry@ =~= syn_entry_partial(classes, term@, sks.take(0)));
        }
        while j < n
            invariant
                0 <= j <= n,
                n == sks.len(),
                sks == synonym_results.key_seq(),
                synonym_results.wf(),
                synonym_results@ == syn_search_model(classes, term@),
                entry.wf(),
                entry@ == syn_entry_partial(classes, term@, sks.take(j as int)),
            decreases n - j,
        {
            let syn = synonym_results.key_at(j);
            let s2 = syn.clone();
            let t2 = term.clone();
            let t3 = term.clone();
            let ghost pre = entry@;
            entry.insert(s2, SearchMatch { search_term: t2, search_match: t3 });
            proof {
                let t1 = sks.take(j + 1 as int);
                assert(t1.drop_last() =~= sks.take(j as int));
                assert(t1.last() == sks[j as int]);
                assert forall|c: Seq<char>| #[trigger] t1.contains(c) <==> (sks.take(
                    j as int,
                ).contains(c) || c == sks[j as int]) by {
                    lemma_take_contains(sks, j as int, c);
                }
                assert(entry@ =~= syn_entry_partial(classes, term@, t1));
            }
            j = j + 1;
        }
        proof {
            assert(sks.take(n as int) =~= sks);
            assert forall|w: Seq<char>| #[trigger] sks.contains(w) <==> syn_search_model(
                classes,
                term@,
            ).dom().contains(w) by {
                synonym_results.lemma_view_contains(w);
            }
            assert(entry@ =~= Map::new(
                |w: Seq<char>| syn_search_model(classes, term@).contains_key(w),
                |w: Seq<char>| SearchMatchView { search_term: term@, search_match: term@ },
            ));
        }
        let tkey = term.clone();
        r.insert(tkey, entry);
        proof {
            let t1 = terms.take(i + 1 as int);
            assert(t1.drop_last() =~= terms.take(i as int));
            assert(t1.last() == terms[i as int]);
            assert forall|t: Seq<char>| #[trigger] t1.contains(t) <==> (terms.take(
                i as int,
            ).contains(t) || t == terms[i as int]) by {
                lemma_take_contains(terms, i as int, t);
            }
            assert(r@ =~= Map::new(
                |t: Seq<char>| t1.contains(t),
                |t: Seq<char>|
                    Map::new(
                        |w: Seq<char>| syn_search_model(classes, t).contains_key(w),
                        |w: Seq<char>| SearchMatchView { search_term: t, search_match: t },
                    ),
            ));
        }
        i = i + 1;
    }
    proof {
        assert(terms.take(terms.len() as int) =~= terms);
        assert(r@ =~= find_syn_model(classes, terms));
    }
    r
}

/// The synonym entry restricted to the listed expansion words.
pub open spec fn syn_entry_partial(
    classes: Seq<Seq<Seq<char>>>,
    t: Seq<char>,
    ws: Seq<Seq<char>>,
) -> Map<Seq<char>, SearchMatchView> {
    Map::new(
        |w: Seq<char>| ws.contains(w),
        |w: Seq<char>| SearchMatchView { search_term: t, search_match: t },
    )
}

/// One step of a later-stage expansion: re-search one candidate of
/// the previous layer; a miss keeps the candidate as its own match.
pub open spec fn subfind_step<N: Searchable>(
    norm: &N,
    m: Map<Seq<char>, SearchMatchView>,
    c: Seq<char>,
) -> Map<Seq<char>, SearchMatchView> {
    let res = norm.search_model(c, 0, true);
    if res.dom() == Set::<Seq<char>>::empty() {
        m.insert(c, SearchMatchView { search_term: c, search_match: c })
    } else {
        overlay(m, res, c)
    }
}

/// One term's next-layer entry: every previous candidate re-searched
/// whole, in candidate order, later results overwriting earlier ones.
pub open spec fn subfind_entry<N: Searchable>(norm: &N, children: Seq<Seq<char>>) -> Map<
    Seq<char>,
    SearchMatchView,
>
    decreases children.len(),
{
    if children.len() == 0 {
        Map::empty()
    } else {
        subfind_step(norm, subfind_entry(norm, children.drop_last()), children.last())
    }
}

/// The next association layer: each term's previous candidates
/// re-searched against the index with the whole candidate as the key.
pub open spec fn subfind_model<N: Searchable>(
    norm: &N,
    prev: &AssociationDict,
) -> Map<Seq<char>, Map<Seq<char>, SearchMatchView>> {
    Map::new(
        |t: Seq<char>| prev@.contains_key(t),
        |t: Seq<char>|
            subfind_entry(norm, prev.val_seq()[prev.spec_index_of(t)].key_seq()),
    )
}

/// Build the next association layer: for each term, re-search each of
/// its previous candidates with the whole candidate as the key; a
/// candidate both the search misses maps to itself.
pub fn subfind_associations<N: Searchable>(associations: &AssociationDict, norm_index: &N) -> (r:
    AssociationDict)
    requires
        assoc_wf(associations),
        norm_index.search_wf(),
    ensures
        assoc_wf(&r),
        r@ == subfind_model(norm_index, associations),
{
    let ghost tks = associations.key_seq();
    let mut r: AssociationDict = Dict::new();
    let n = associations.len();
    let mut i: usize = 0;
    proof {
        assert(r@ =~= Map::new(
            |t: Seq<char>| tks.take(0).contains(t),
            |t: Seq<char>|
                subfind_entry(
                    norm_index,
                    associations.val_seq()[associations.spec_index_of(t)].key_seq(),
                ),
        ));
    }
    while i < n
        invariant
            0 <= i <= n,
            n == tks.len(),
            tks == associations.key_seq(),
            assoc_wf(associations),
            norm_index.search_wf(),
            assoc_wf(&r),
            r@ == Map::new(
                |t: Seq<char>| tks.take(i as int).contains(t),
                |t: Seq<char>|
                    subfind_entry(
                        norm_index,
                        associations.val_seq()[associations.spec_index_of(t)].key_seq(),
                    ),
            ),
        decreases n - i,
    {
        let term = associations.key_at(i);
        let sub = associations.val_at(i);
        proof {
            associations.lemma_key_unique(i as int);
            assert(associations.val_seq().contains(associations.val_seq()[i as int]));
        }
        let ghost cks = sub.key_seq();
        let mut entry: Dict<SearchMatch> = Dict::new();
        let m = sub.len();
        let mut j: usize = 0;
        proof {
            assert(entry@ =~= subfind_entry(norm_index, cks.take(0)));
        }
        while j < m
            invariant
                0 <= j <= m,
                m == cks.len(),
                cks == sub.key_seq(),
                sub.wf(),
                norm_index.search_wf(),
                entry.wf(),
                entry@ == subfind_entry(norm_index, cks.take(j as int)),
            decreases m - j,
        {
            let child = sub.key_at(j);
            let results = norm_index.search(child.as_str(), 0, true);
            proof {
                let t1 = cks.take(j + 1 as int);
                assert(t1.drop_last() =~= cks.take(j as int));
                assert(t1.last() == cks[j as int]);
            }
            if results.len() == 0 {
                proof {
                    assert(results.key_seq().len() == 0);
                    assert forall|c: Seq<char>| !(#[trigger] results@.dom().contains(c)) by {
                        results.lemma_view_contains(c);
                    }
                    assert(norm_index.search_model(child@, 0, true).dom() =~= Set::<
                        Seq<char>,
                    >::empty());
                }
                let c1 = child.clone();
                let c2 = child.clone();
                let c3 = child.clone();
                entry.insert(c1, SearchMatch { search_term: c2, search_match: c3 });
                proof {
                    assert(entry@ =~= subfind_entry(norm_index, cks.take(j + 1 as int)));
                }
            } else {
                proof {
                    let k0 = results.key_seq()[0];
                    assert(results.key_seq().contains(k0));
                    results.lemma_view_contains(k0);
                    assert(results@.dom().contains(k0));
                    assert(norm_index.search_model(child@, 0, true).dom() != Set::<
                        Seq<char>,
                    >::empty());
                }
                merge_search_results(&mut entry, child, &results);
                proof {
                    assert(entry@ =~= subfind_entry(norm_index, cks.take(j + 1 as int)));
                }
            }
            j = j + 1;
        }
        proof {
            assert(cks.take(m as int) =~= cks);
        }
        let tkey = term.clone();
        r.insert(tkey, entry);
        proof {
            let t1 = tks.take(i + 1 as int);
            assert(t1.drop_last() =~= tks.take(i as int));
            assert(t1.last() == tks[i as int]);
            assert forall|t: Seq<char>| #[trigger] t1.contains(t) <==> (tks.take(
                i as int,
            ).contains(t) || t == tks[i as int]) by {
                lemma_take_contains(tks, i as int, t);
            }
            assert forall|t: Seq<char>| #[trigger] tks.contains(t) implies associations.val_seq()[
                associations.spec_index_of(t)].key_seq() == associations.val_seq()[
                associations.spec_index_of(t)].key_seq() by {}
            assert(r@ =~= Map::new(
                |t: Seq<char>| t1.contains(t),
                |t: Seq<char>|
                    subfind_entry(
                        norm_index,
                        associations.val_seq()[associations.spec_index_of(t)].key_seq(),
                    ),
            ));
        }
        i = i + 1;
    }
    proof {
        assert(tks.take(n as int) =~= tks);
        assert forall|t: Seq<char>| #[trigger] tks.contains(t) <==> associations@.dom().contains(
            t,
        ) by {
            associations.lemma_view_contains(t);
        }
        assert(r@ =~= subfind_model(norm_index, associations));
    }
    r
}

/// Build the next association layer against the in-memory or on-disk
/// index, with the whole candidate as the key; the expansion itself
/// is the same re-search as `subfind_associations`.
pub fn subfind_associations_map<N: Searchable>(
    associations: &AssociationDict,
    norm_index: &N,
) -> (r: AssociationDict)
    requires
        assoc_wf(associations),
        norm_index.search_wf(),
    ensures
        assoc_wf(&r),
        r@ == subfind_model(norm_index, associations),
{
    subfind_associations(associations, norm_index)
}

/// One term's next-layer entry over the synonym index: every previous
/// candidate expanded, each expansion word recording the candidate.
pub open spec fn subfind_syn_entry(
    classes: Seq<Seq<Seq<char>>>,
    children: Seq<Seq<char>>,
) -> Map<Seq<char>, SearchMatchView>
    decreases children.len(),
{
    if children.len() == 0 {
        Map::empty()
    } else {
        let m = subfind_syn_entry(classes, children.drop_last());
        let c = children.last();
        overlay(
            m,
            Map::new(
                |w: Seq<char>| syn_search_model(classes, c).contains_key(w),
                |w: Seq<char>| c,
            ),
            c,
        )
    }
}

/// The next association layer over the synonym index.
pub open spec fn subfind_syn_model(
    classes: Seq<Seq<Seq<char>>>,
    prev: &AssociationDict,
) -> Map<Seq<char>, Map<Seq<char>, SearchMatchView>> {
    Map::new(
        |t: Seq<char>| prev@.contains_key(t),
        |t: Seq<char>|
            subfind_syn_entry(classes, prev.val_seq()[prev.spec_index_of(t)].key_seq()),
    )
}

/// Build the next association layer by expanding each previous
/// candidate through the synonym (or homophone) index.
pub fn subfind_synonyms(associations: &AssociationDict, index: &SynonymIndex) -> (r:
    AssociationDict)
    requires
        assoc_wf(associations),
        index.wf(),
    ensures
        assoc_wf(&r),
        r@ == subfind_syn_model(index.classes(), associations),
{
    let ghost classes = index.classes();
    let ghost tks = associations.key_seq();
    let mut r: AssociationDict = Dict::new();
    let n = associations.len();
    let mut i: usize = 0;
    proof {
        assert(r@ =~= Map::new(
            |t: Seq<char>| tks.take(0).contains(t),
            |t: Seq<char>|
                subfind_syn_entry(
                    classes,
                    associations.val_seq()[associations.spec_index_of(t)].key_seq(),
                ),
        ));
    }
    while i < n
        invariant
            0 <= i <= n,
            n == tks.len(),
            tks == associations.key_seq(),
            classes == index.classes(),
            assoc_wf(associations),
            index.wf(),
            assoc_wf(&r),
            r@ == Map::new(
                |t: Seq<char>| tks.take(i as int).contains(t),
                |t: Seq<char>|
                    subfind_syn_entry(
                        classes,
                        associations.val_seq()[associations.spec_index_of(t)].key_seq(),
                    ),
            ),
        decreases n - i,
    {
        let term = associations.key_at(i);
        let sub = associations.val_at(i);
        proof {
            associations.lemma_key_unique(i as int);
        }
        let ghost cks = sub.key_seq();
        let mut entry: Dict<SearchMatch> = Dict::new();
        let m = sub.len();
        let mut j: usize = 0;
        proof {
            assert(entry@ =~= subfind_syn_entry(classes, cks.take(0)));
        }
        while j < m
            invariant
                0 <= j <= m,
                m == cks.len(),
                cks == sub.key_seq(),
                sub.wf(),
                classes == index.classes(),
                index.wf(),
                entry.wf(),
                entry@ == subfind_syn_entry(classes, cks.take(j as int)),
            decreases m - j,
        {
            let child = sub.key_at(j);
            let results = search_synonym_index(child.as_str(), index);
            proof {
                let t1 = cks.take(j + 1 as int);
                assert(t1.drop_last() =~= cks.take(j as int));
                assert(t1.last() == cks[j as int]);
                assert(results@ =~= Map::new(
                    |w: Seq<char>| syn_search_model(classes, child@).contains_key(w),
                    |w: Seq<char>| child@,
                ));
            }
            merge_search_results(&mut entry, child, &results);
            proof {
                assert(entry@ =~= subfind_syn_entry(classes, cks.take(j + 1 as int)));
            }
            j = j + 1;
        }
        proof {
            assert(cks.take(m as int) =~= cks);
        }
        let tkey = term.clone();
        r.insert(tkey, entry);
        proof {
            let t1 = tks.take(i + 1 as int);
            assert(t1.drop_last() =~= tks.take(i as int));
            assert(t1.last() == tks[i as int]);
            assert forall|t: Seq<char>| #[trigger] t1.contains(t) <==> (tks.take(
                i as int,
            ).contains(t) || t == tks[i as int]) by {
                lemma_take_contains(tks, i as int, t);
            }
            assert(r@ =~= Map::new(
                |t: Seq<char>| t1.contains(t),
                |t: Seq<char>|
                    subfind_syn_entry(
                        classes,
                        associations.val_seq()[associations.spec_index_of(t)].key_seq(),
                    ),
            ));
        }
        i = i + 1;
    }
    proof {
        assert(tks.take(n as int) =~= tks);
        assert forall|t: Seq<char>| #[trigger] tks.contains(t) <==> associations@.dom().contains(
            t,
        ) by {
            associations.lemma_view_contains(t);
        }
        assert(r@ =~= subfind_syn_model(classes, associations));
    }
    r
}

/// The total number of inner entries of a layer's dictionaries, from
/// its first `n` terms.
pub open spec fn sum_entries_prefix(d: &AssociationDict, n: int) -> int
    decreases n,
{
    if n <= 0 {
        0
    } else {
        sum_entries_prefix(d, n - 1) + d.val_seq()[n - 1].key_seq().len()
    }
}

/// The total number of inner entries of a layer.
pub open spec fn sum_entries(d: &AssociationDict) -> int {
    sum_entries_prefix(d, d.val_seq().len() as int)
}

/// The total inner-entry count of a layer, saturating at the machine
/// limit.
pub fn sum_subentries(map_of_maps: &AssociationDict) -> (r: usize)
    requires
        map_of_maps.wf(),
    ensures
        sum_entries(map_of_maps) <= usize::MAX ==> r == sum_entries(map_of_maps),
        sum_entries(map_of_maps) > usize::MAX ==> r == usize::MAX,
{
    let n = map_of_maps.len();
    let mut counter: usize = 0;
    let mut i: usize = 0;
    let mut saturated = false;
    while i < n
        invariant
            0 <= i <= n,
            n == map_of_maps.key_seq().len(),
            map_of_maps.wf(),
            !saturated ==> counter == sum_entries_prefix(map_of_maps, i as int),
            saturated ==> counter == usize::MAX && sum_entries_prefix(map_of_maps, i as int)
                > usize::MAX,
            sum_entries_prefix(map_of_maps, i as int) >= counter,
        decreases n - i,
    {
        let sub = map_of_maps.val_at(i);
        let l = sub.len();
        proof {
            lemma_sum_entries_monotone(map_of_maps, i as int, i + 1);
        }
        if l > usize::MAX - counter {
            counter = usize::MAX;
            saturated = true;
        } else {
            counter = counter + l;
        }
        i = i + 1;
    }
    proof {
        lemma_sum_entries_monotone(map_of_maps, i as int, map_of_maps.val_seq().len() as int);
        assert(n == map_of_maps.val_seq().len());
    }
    counter
}

/// Prefix sums never decrease.
proof fn lemma_sum_entries_monotone(d: &AssociationDict, i: int, j: int)
    requires
        0 <= i <= j,
    ensures
        sum_entries_prefix(d, i) <= sum_entries_prefix(d, j),
    decreases j - i,
{
    if i < j {
        lemma_sum_entries_monotone(d, i, j - 1);
    }
}

/// Each listed candidate's count raised by one.
pub open spec fn add_counts(m: Map<Seq<char>, int>, cands: Seq<Seq<char>>) -> Map<Seq<char>, int>
    decreases cands.len(),
{
    if cands.len() == 0 {
        m
    } else {
        let m2 = add_counts(m, cands.drop_last());
        let c = cands.last();
        let prior = if m2.contains_key(c) {
            m2[c]
        } else {
            0
        };
        m2.insert(c, prior + 1)
    }
}

/// How many query terms reached each candidate in the last layer;
/// a term listed twice counts twice.
pub open spec fn count_model(layer: &AssociationDict, terms: Seq<Seq<char>>) -> Map<
    Seq<char>,
    int,
>
    decreases terms.len(),
{
    if terms.len() == 0 {
        Map::empty()
    } else {
        let m = count_model(layer, terms.drop_last());
        let t = terms.last();
        if layer@.contains_key(t) {
            add_counts(m, layer.val_seq()[layer.spec_index_of(t)].key_seq())
        } else {
            m
        }
    }
}

/// Candidates not listed keep their count.
proof fn lemma_add_counts_frame(m: Map<Seq<char>, int>, cands: Seq<Seq<char>>, x: Seq<char>)
    requires
        !cands.contains(x),
    ensures
        add_counts(m, cands).contains_key(x) <==> m.contains_key(x),
        m.contains_key(x) ==> add_counts(m, cands)[x] == m[x],
    decreases cands.len(),
{
    if cands.len() > 0 {
        assert(!cands.drop_last().contains(x)) by {
            if cands.drop_last().contains(x) {
                let i = choose|i: int|
                    0 <= i < cands.len() - 1 && #[trigger] cands.drop_last()[i] == x;
                assert(cands[i] == x);
            }
        }
        assert(cands.last() != x) by {
            assert(cands[cands.len() - 1] == cands.last());
        }
        lemma_add_counts_frame(m, cands.drop_last(), x);
    }
}

/// Adding a distinct candidate list raises each count by at most one.
proof fn lemma_add_counts_bound(m: Map<Seq<char>, int>, cands: Seq<Seq<char>>, bound: int)
    requires
        bound >= 0,
        forall|i: int, j: int| 0 <= i < j < cands.len() ==> cands[i] != cands[j],
        forall|x: Seq<char>| #[trigger] m.contains_key(x) ==> 0 <= m[x] <= bound,
    ensures
        forall|x: Seq<char>|
            #[trigger] add_counts(m, cands).contains_key(x) ==> 0 <= add_counts(m, cands)[x]
                <= bound + 1,
    decreases cands.len(),
{
    if cands.len() > 0 {
        let cs = cands.drop_last();
        assert(forall|i: int| 0 <= i < cs.len() ==> #[trigger] cs[i] == cands[i]);
        lemma_add_counts_bound(m, cs, bound);
        let c = cands.last();
        assert(!cs.contains(c)) by {
            if cs.contains(c) {
                let i = choose|i: int| 0 <= i < cs.len() && #[trigger] cs[i] == c;
                assert(cands[i] == cands[cands.len() - 1]);
            }
        }
        lemma_add_counts_frame(m, cs, c);
        assert forall|x: Seq<char>|
            #[trigger] add_counts(m, cands).contains_key(x) implies 0 <= add_counts(
            m,
            cands,
        )[x] <= bound + 1 by {
            if x == c {
                assert(add_counts(m, cs).contains_key(c) <==> m.contains_key(c));
                assert(m.contains_key(c) ==> add_counts(m, cs)[c] == m[c]);
                if m.contains_key(c) {
                    assert(0 <= m[c] <= bound);
                }
                assert(add_counts(m, cands)[x] == (if add_counts(m, cs).contains_key(c) {
                    add_counts(m, cs)[c]
                } else {
                    0int
                }) + 1);
            } else {
                assert(add_counts(m, cands)[x] == add_counts(m, cs)[x]);
            }
        }
    }
}

/// All counts over `n` terms lie between zero and `n`.
pub proof fn lemma_count_model_bound(layer: &AssociationDict, terms: Seq<Seq<char>>)
    requires
        assoc_wf(layer),
    ensures
        forall|x: Seq<char>|
            #[trigger] count_model(layer, terms).contains_key(x) ==> 0 <= count_model(
                layer,
                terms,
            )[x] <= terms.len(),
    decreases terms.len(),
{
    if terms.len() > 0 {
        lemma_count_model_bound(layer, terms.drop_last());
        let t = terms.last();
        if layer@.contains_key(t) {
            layer.lemma_view_contains(t);
            layer.lemma_index_of(t);
            let inner = layer.val_seq()[layer.spec_index_of(t)];
            assert(inner.wf());
            assert forall|i: int, j: int|
                0 <= i < j < inner.key_seq().len() implies inner.key_seq()[i]
                != inner.key_seq()[j] by {
                assert(crate::lexord::str_lex_lt(inner.key_seq()[i], inner.key_seq()[j]));
                crate::lexord::lemma_lex_trichotomy(
                    vstd::utf8::encode_utf8(inner.key_seq()[i]),
                    vstd::utf8::encode_utf8(inner.key_seq()[j]),
                );
            }
            lemma_add_counts_bound(
                count_model(layer, terms.drop_last()),
                inner.key_seq(),
                terms.len() - 1,
            );
        }
    }
}

/// Count, for each candidate of the last layer, how many query terms
/// reached it.
pub fn count_candidates(layer: &AssociationDict, query_terms: &Vec<String>) -> (r: Dict<u64>)
    requires
        assoc_wf(layer),
        query_terms@.len() <= u64::MAX,
    ensures
        r.wf(),
        counts_match(r@, count_model(layer, crate::stemmer::str_views(query_terms@))),
{
    let ghost terms = crate::stemmer::str_views(query_terms@);
    let mut r: Dict<u64> = Dict::new();
    let mut i: usize = 0;
    proof {
        assert(counts_match(r@, count_model(layer, terms.take(0)))) by {
            assert(r@.dom() =~= count_model(layer, terms.take(0)).dom());
        }
    }
    while i < query_terms.len()
        invariant
            0 <= i <= query_terms@.len(),
            query_terms@.len() <= u64::MAX,
            terms == crate::stemmer::str_views(query_terms@),
            assoc_wf(layer),
            r.wf(),
            counts_match(r@, count_model(layer, terms.take(i as int))),
            forall|x: Seq<char>| #[trigger] r@.contains_key(x) ==> r@[x] <= i,
        decreases query_terms@.len() - i,
    {
        let term = &query_terms[i];
        let ghost mprev = count_model(layer, terms.take(i as int));
        proof {
            assert(terms.take(i + 1 as int).drop_last() =~= terms.take(i as int));
            assert(terms.take(i + 1 as int).last() == terms[i as int]);
        }
        match layer.get(term.as_str()) {
            Some(entry) => {
                proof {
                    layer.lemma_view_contains(term@);
                    layer.lemma_index_of(term@);
                    assert(*entry == layer.val_seq()[layer.spec_index_of(term@)]);
                }
                let ghost cks = entry.key_seq();
                let m = entry.len();
                let mut j: usize = 0;
                proof {
                    assert(counts_match(r@, add_counts(mprev, cks.take(0))));
                }
                while j < m
                    invariant
                        0 <= j <= m,
                        i < query_terms@.len() <= u64::MAX,
                        m == cks.len(),
                        cks == entry.key_seq(),
                        entry.wf(),
                        r.wf(),
                        counts_match(r@, add_counts(mprev, cks.take(j as int))),
                        forall|x: Seq<char>|
                            #[trigger] r@.contains_key(x) ==> r@[x] <= i + 1 && (!cks.take(
                                j as int,
                            ).contains(x) ==> r@[x] <= i),
                    decreases m - j,
                {
                    let cand = entry.key_at(j);
                    proof {
                        assert(!cks.take(j as int).contains(cand@)) by {
                            if cks.take(j as int).contains(cand@) {
                                let x = choose|x: int|
                                    0 <= x < j && #[trigger] cks.take(j as int)[x] == cand@;
                                assert(crate::lexord::str_lex_lt(cks[x], cks[j as int]));
                                crate::lexord::lemma_lex_trichotomy(
                                    vstd::utf8::encode_utf8(cks[x]),
                                    vstd::utf8::encode_utf8(cks[j as int]),
                                );
                            }
                        }
                    }
                    let prior: u64 = match r.get(cand.as_str()) {
                        Some(v) => *v,
                        None => 0,
                    };
                    let c2 = cand.clone();
                    r.insert(c2, prior + 1);
                    proof {
                        let t1 = cks.take(j + 1 as int);
                        assert(t1.drop_last() =~= cks.take(j as int));
                        assert(t1.last() == cks[j as int]);
                        assert(counts_match(r@, add_counts(mprev, t1))) by {
                            assert(r@.dom() =~= add_counts(mprev, t1).dom());
                        }
                        assert forall|x: Seq<char>|
                            #[trigger] r@.contains_key(x) implies r@[x] <= i + 1 && (!t1.contains(
                            x,
                        ) ==> r@[x] <= i) by {
                            lemma_take_contains(cks, j as int, x);
                        }
                    }
                    j = j + 1;
                }
                proof {
                    assert(cks.take(m as int) =~= cks);
                }
            },
            None => {
                proof {
                    layer.lemma_view_contains(term@);
                }
            },
        }
        i = i + 1;
    }
    proof {
        assert(terms.take(terms.len() as int) =~= terms);
    }
    r
}

/// A counts dictionary realizes a count map when their domains and
/// values agree.
pub open spec fn counts_match(d: Map<Seq<char>, u64>, m: Map<Seq<char>, int>) -> bool {
    &&& d.dom() == m.dom()
    &&& forall|x: Seq<char>| #[trigger] d.contains_key(x) ==> d[x] as int == m[x]
}

/// How many of the candidate's single-word stems appear among the
/// flavortext's single-word stems.
pub open spec fn bonus_count(stems: Seq<Seq<char>>, fstems: Seq<Seq<char>>) -> int
    decreases stems.len(),
{
    if stems.len() == 0 {
        0
    } else {
        bonus_count(stems.drop_last(), fstems) + if fstems.contains(stems.last()) {
            1int
        } else {
            0int
        }
    }
}

/// A candidate's score: its count times one hundred, plus one for
/// each of its stems that the flavortext shares.
pub open spec fn score_of(count: int, cand: Seq<char>, flavor: Option<Seq<char>>) -> int {
    count * 100 + match flavor {
        Some(f) => bonus_count(
            crate::stemmer::stems_seq(cand, 1, false),
            crate::stemmer::stems_seq(f, 1, false),
        ),
        None => 0,
    }
}

/// A scored candidate.
pub struct ScorePair {
    pub score: u128,
    pub association: String,
}

/// The mathematical value of a `ScorePair`.
pub ghost struct ScorePairView {
    pub score: int,
    pub association: Seq<char>,
}

impl View for ScorePair {
    type V = ScorePairView;

    open spec fn view(&self) -> ScorePairView {
        ScorePairView { score: self.score as int, association: self.association@ }
    }
}

pub open spec fn pair_views(ps: Seq<ScorePair>) -> Seq<ScorePairView> {
    ps.map_values(|p: ScorePair| p@)
}

/// The scored candidates drawn from the first `j` counted candidates
/// in order: those reached by more than one term, each with its
/// score.
pub open spec fn scored_prefix(
    counts: &Dict<u64>,
    flavor: Option<Seq<char>>,
    j: int,
) -> Seq<ScorePairView>
    decreases j,
{
    if j <= 0 {
        Seq::empty()
    } else {
        let p = scored_prefix(counts, flavor, j - 1);
        let c = counts.key_seq()[j - 1];
        let n = counts.val_seq()[j - 1] as int;
        if n <= 1 {
            p
        } else {
            p.push(ScorePairView { score: score_of(n, c, flavor), association: c })
        }
    }
}

/// Count the candidate's stems that the flavortext set holds.
fn bonus_exec(cand: &str, fset: &Dict<bool>, Ghost(fstems): Ghost<Seq<Seq<char>>>) -> (r: u64)
    requires
        fset.wf(),
        forall|x: Seq<char>| #[trigger] fset@.contains_key(x) <==> fstems.contains(x),
    ensures
        r == bonus_count(crate::stemmer::stems_seq(cand@, 1, false), fstems),
        r <= crate::stemmer::stems_seq(cand@, 1, false).len(),
{
    let stems = crate::stemmer::generate_stems(cand, 1, false);
    let ghost sv = crate::stemmer::str_views(stems@);
    let mut r: u64 = 0;
    let mut i: usize = 0;
    proof {
        lemma_bonus_count_bound(sv.take(0), fstems);
    }
    while i < stems.len()
        invariant
            0 <= i <= stems@.len(),
            sv == crate::stemmer::str_views(stems@),
            fset.wf(),
            forall|x: Seq<char>| #[trigger] fset@.contains_key(x) <==> fstems.contains(x),
            r == bonus_count(sv.take(i as int), fstems),
            r <= i,
        decreases stems@.len() - i,
    {
        let stem = &stems[i];
        proof {
            assert(sv.take(i + 1 as int).drop_last() =~= sv.take(i as int));
            assert(sv.take(i + 1 as int).last() == sv[i as int]);
        }
        if fset.contains_key(stem.as_str()) {
            r = r + 1;
        }
        i = i + 1;
    }
    proof {
        assert(sv.take(sv.len() as int) =~= sv);
        lemma_bonus_count_bound(sv, fstems);
    }
    r
}

/// The bonus is at most the number of stems.
proof fn lemma_bonus_count_bound(stems: Seq<Seq<char>>, fstems: Seq<Seq<char>>)
    ensures
        0 <= bonus_count(stems, fstems) <= stems.len(),
    decreases stems.len(),
{
    if stems.len() > 0 {
        lemma_bonus_count_bound(stems.drop_last(), fstems);
    }
}

/// Keep the candidates reached by more than one term and score them,
/// in candidate order.
fn score_candidates(counts: &Dict<u64>, flavortext: &Option<String>) -> (r: Vec<ScorePair>)
    requires
        counts.wf(),
    ensures
        pair_views(r@) == scored_prefix(
            counts,
            match flavortext {
                Some(f) => Some(f@),
                None => None,
            },
            counts.key_seq().len() as int,
        ),
{
    let ghost flavor: Option<Seq<char>> = match flavortext {
        Some(f) => Some(f@),
        None => None,
    };
    let mut fset: Dict<bool> = Dict::new();
    let ghost fstems: Seq<Seq<char>> = match flavor {
        Some(f) => crate::stemmer::stems_seq(f, 1, false),
        None => Seq::empty(),
    };
    let use_flavor = match flavortext {
        Some(f) => {
            let fl_stems = crate::stemmer::generate_stems(f.as_str(), 1, false);
            let ghost fv = crate::stemmer::str_views(fl_stems@);
            let mut x: usize = 0;
            proof {
                assert(forall|w: Seq<char>|
                    #[trigger] fset@.contains_key(w) <==> fv.take(0).contains(w));
            }
            while x < fl_stems.len()
                invariant
                    0 <= x <= fl_stems@.len(),
                    fv == crate::stemmer::str_views(fl_stems@),
                    fset.wf(),
                    forall|w: Seq<char>|
                        #[trigger] fset@.contains_key(w) <==> fv.take(x as int).contains(w),
                decreases fl_stems@.len() - x,
            {
                let s2 = fl_stems[x].clone();
                fset.insert(s2, true);
                proof {
                    assert forall|w: Seq<char>|
                        #[trigger] fset@.contains_key(w) <==> fv.take(x + 1 as int).contains(
                            w,
                        ) by {
                        lemma_take_contains(fv, x as int, w);
                    }
                }
                x = x + 1;
            }
            proof {
                assert(fv.take(fv.len() as int) =~= fv);
                assert(fstems == fv);
            }
            true
        },
        None => false,
    };
    let n = counts.len();
    let mut r: Vec<ScorePair> = Vec::new();
    let mut j: usize = 0;
    proof {
        assert(pair_views(r@) =~= scored_prefix(counts, flavor, 0));
    }
    while j < n
        invariant
            0 <= j <= n,
            n == counts.key_seq().len(),
            counts.wf(),
            fset.wf(),
            use_flavor <==> flavor is Some,
            forall|w: Seq<char>| #[trigger] fset@.contains_key(w) <==> fstems.contains(w),
            flavor is Some ==> fstems == crate::stemmer::stems_seq(flavor.unwrap(), 1, false),
            flavor == match flavortext {
                Some(f) => Some::<Seq<char>>(f@),
                None => None::<Seq<char>>,
            },
            pair_views(r@) == scored_prefix(counts, flavor, j as int),
        decreases n - j,
    {
        let cand = counts.key_at(j);
        let cnt = *counts.val_at(j);
        if cnt > 1 {
            let bonus: u64 = if use_flavor {
                bonus_exec(cand.as_str(), &fset, Ghost(fstems))
            } else {
                0
            };
            let score: u128 = (cnt as u128) * 100 + (bonus as u128);
            let c2 = cand.clone();
            let ghost pre = r@;
            r.push(ScorePair { score, association: c2 });
            proof {
                assert(score as int == score_of(
                    cnt as int,
                    counts.key_seq()[j as int],
                    flavor,
                ));
                assert(pair_views(r@) =~= pair_views(pre).push(
                    ScorePairView {
                        score: score as int,
                        association: counts.key_seq()[j as int],
                    },
                ));
            }
        }
        j = j + 1;
    }
    r
}

/// Descending stable order: each element lands after every element
/// whose score is at least its own.
pub open spec fn place_pair(sorted: Seq<ScorePairView>, x: ScorePairView) -> Seq<ScorePairView>
    decreases sorted.len(),
{
    if sorted.len() == 0 {
        seq![x]
    } else if sorted[0].score >= x.score {
        seq![sorted[0]] + place_pair(sorted.drop_first(), x)
    } else {
        seq![x] + sorted
    }
}

/// Stable insertion sort by descending score.
pub open spec fn sort_pairs_spec(xs: Seq<ScorePairView>) -> Seq<ScorePairView>
    decreases xs.len(),
{
    if xs.len() == 0 {
        Seq::empty()
    } else {
        place_pair(sort_pairs_spec(xs.drop_last()), xs.last())
    }
}

/// Placing at the first position whose score is below the new score.
proof fn lemma_place_at(sorted: Seq<ScorePairView>, x: ScorePairView, pos: int)
    requires
        0 <= pos <= sorted.len(),
        forall|i: int| 0 <= i < pos ==> sorted[i].score >= x.score,
        pos == sorted.len() || sorted[pos].score < x.score,
    ensures
        place_pair(sorted, x) == sorted.take(pos) + seq![x] + sorted.skip(pos),
    decreases pos,
{
    if pos == 0 {
        if sorted.len() == 0 {
            assert(place_pair(sorted, x) =~= sorted.take(0) + seq![x] + sorted.skip(0));
        } else {
            assert(sorted.take(0) + seq![x] + sorted.skip(0) =~= seq![x] + sorted);
        }
    } else {
        assert(forall|i: int|
            0 <= i < pos - 1 ==> #[trigger] sorted.drop_first()[i].score == sorted[i + 1].score);
        if pos - 1 < sorted.drop_first().len() {
            assert(sorted.drop_first()[pos - 1] == sorted[pos]);
        }
        lemma_place_at(sorted.drop_first(), x, pos - 1);
        assert(sorted.drop_first().take(pos - 1) =~= sorted.take(pos).drop_first());
        assert(sorted.drop_first().skip(pos - 1) =~= sorted.skip(pos));
        assert(seq![sorted[0]] + (sorted.take(pos).drop_first() + seq![x] + sorted.skip(pos))
            =~= sorted.take(pos) + seq![x] + sorted.skip(pos));
    }
}

/// Sort the scored candidates by descending score, keeping the order
/// of equal scores.
fn sort_score_pairs(mut xs: Vec<ScorePair>) -> (r: Vec<ScorePair>)
    ensures
        pair_views(r@) == sort_pairs_spec(pair_views(xs@)),
{
    let ghost input = pair_views(xs@);
    let mut r: Vec<ScorePair> = Vec::new();
    let n = xs.len();
    proof {
        assert(pair_views(r@) =~= sort_pairs_spec(input.take(0)));
    }
    let mut i: usize = 0;
    while i < n
        invariant
            0 <= i <= n,
            n + r@.len() == i + xs@.len(),
            n <= i + xs@.len(),
            input == pair_views(xs@.subrange(0, xs@.len() as int)).subrange(
                0,
                input.len() as int,
            ),
            i <= input.len(),
            n == input.len(),
            xs@.len() == input.len(),
            forall|y: int| 0 <= y < xs@.len() ==> (#[trigger] xs@[y])@ == input[y],
            pair_views(r@) == sort_pairs_spec(input.take(i as int)),
        decreases n - i,
    {
        // find where the next element goes: after everything with a
        // score at least as large
        let xscore: u128 = xs[i].score;
        let mut pos: usize = 0;
        while pos < r.len() && r[pos].score >= xscore
            invariant
                0 <= pos <= r@.len(),
                i < xs@.len(),
                xscore == xs@[i as int].score,
                forall|y: int| 0 <= y < pos ==> (#[trigger] r@[y]).score >= xscore,
            decreases r@.len() - pos,
        {
            pos = pos + 1;
        }
        let ghost pre = pair_views(r@);
        let xc = ScorePair { score: xs[i].score, association: clone_string(&xs[i].association) };
        r.insert(pos, xc);
        proof {
            assert(input.take(i + 1 as int).drop_last() =~= input.take(i as int));
            assert(input.take(i + 1 as int).last() == input[i as int]);
            assert forall|y: int| 0 <= y < pos implies (#[trigger] pre[y]).score >= input[
                i as int].score by {
                assert(pre[y] == r@[y]@);
            }
            if pos < pre.len() {
                assert(pre[pos as int].score < input[i as int].score);
            }
            lemma_place_at(pre, input[i as int], pos as int);
            assert(pair_views(r@) =~= pre.take(pos as int) + seq![input[i as int]] + pre.skip(
                pos as int,
            ));
        }
        i = i + 1;
    }
    proof {
        assert(input.take(n as int) =~= input);
    }
    r
}

/// A copy of a string.
fn clone_string(s: &String) -> (r: String)
    ensures
        r@ == s@,
{
    s.clone()
}

/// Whether a stage produces a layer, given whether one exists: the
/// all-wiki stage runs only first, the exact stage only later, and
/// the rest run anywhere.
pub open spec fn stage_produces(stage: QueryStage, have_prev: bool) -> bool {
    match stage {
        QueryStage::WikiAllStem => !have_prev,
        QueryStage::WikiArticleExact => have_prev,
        _ => true,
    }
}

/// How many layers the first `k` stages produce.
pub open spec fn nlayers(stages: Seq<QueryStage>, k: int) -> int
    decreases k,
{
    if k <= 0 {
        0
    } else {
        let p = nlayers(stages, k - 1);
        p + if stage_produces(stages[k - 1], p > 0) {
            1int
        } else {
            0int
        }
    }
}

/// What layer `li` must hold for its producing stage.
pub open spec fn layer_rel<N: Searchable, M: Searchable>(
    norm: &N,
    table: &M,
    syn: &SynonymIndex,
    hom: &SynonymIndex,
    terms: Seq<Seq<char>>,
    stage: QueryStage,
    layers: Seq<AssociationDict>,
    li: int,
) -> bool {
    &&& 0 <= li < layers.len()
    &&& match stage {
        QueryStage::WikiAllStem => li == 0 && layers[0]@ == find_assoc_model(
            norm,
            table,
            terms,
            1,
            false,
        ),
        QueryStage::WikiArticleStem => if li == 0 {
            layers[0]@ == find_assoc_model(norm, norm, terms, 1, false)
        } else {
            layers[li]@ == subfind_model(norm, &layers[li - 1])
        },
        QueryStage::WikiArticleExact => li > 0 && layers[li]@ == subfind_model(
            norm,
            &layers[li - 1],
        ),
        QueryStage::Synonym => if li == 0 {
            layers[0]@ == find_syn_model(syn.classes(), terms)
        } else {
            layers[li]@ == subfind_syn_model(syn.classes(), &layers[li - 1])
        },
        QueryStage::Homophone => if li == 0 {
            layers[0]@ == find_syn_model(hom.classes(), terms)
        } else {
            layers[li]@ == subfind_syn_model(hom.classes(), &layers[li - 1])
        },
    }
}

/// The first `k` stages ran: the layers are exactly those the
/// producing stages built, in order, and `used` records which stage
/// built each.
pub open spec fn stages_run<N: Searchable, M: Searchable>(
    norm: &N,
    table: &M,
    syn: &SynonymIndex,
    hom: &SynonymIndex,
    terms: Seq<Seq<char>>,
    stages: Seq<QueryStage>,
    used: Seq<QueryStage>,
    layers: Seq<AssociationDict>,
    k: int,
) -> bool {
    &&& layers.len() == nlayers(stages, k)
    &&& used.len() == layers.len()
    &&& forall|x: int|
        0 <= x < k && stage_produces(#[trigger] stages[x], nlayers(stages, x) > 0) ==> layer_rel(
            norm,
            table,
            syn,
            hom,
            terms,
            stages[x],
            layers,
            nlayers(stages, x),
        ) && used[nlayers(stages, x)] == stages[x]
}

/// A value clamped to the machine word.
pub open spec fn sat_usize(x: int) -> int {
    if x > usize::MAX {
        usize::MAX as int
    } else {
        x
    }
}

/// The working-set guard would fire before stage `g`: a previous
/// layer exists and its entry count exceeds the bound.
pub open spec fn guard_trip(
    stages: Seq<QueryStage>,
    layers: Seq<AssociationDict>,
    max_size: int,
    g: int,
) -> bool {
    nlayers(stages, g) > 0 && sat_usize(sum_entries(&layers[nlayers(stages, g) - 1])) > max_size
}

/// The guard's error body, naming the counts, the stage, and how many
/// layers were built.
pub open spec fn guard_error_body(tot: int, max: int, stage: QueryStage, nl: int) -> Seq<char> {
    "{\"error\": \"maximum working size "@ + crate::codec::dec_rec(tot) + " exceeded max "@
        + crate::codec::dec_rec(max) + " for stage: "@ + stage_name_spec(stage) + " (#"@
        + crate::codec::dec_rec(nl) + ")\"}"@
}

/// Every later-stage entry points back at a candidate of its source
/// layer.
proof fn lemma_subfind_entry_terms<N: Searchable>(norm: &N, children: Seq<Seq<char>>)
    ensures
        forall|c: Seq<char>|
            #[trigger] subfind_entry(norm, children).contains_key(c) ==> children.contains(
                subfind_entry(norm, children)[c].search_term,
            ),
    decreases children.len(),
{
    if children.len() > 0 {
        let cs = children.drop_last();
        assert(forall|i: int| 0 <= i < cs.len() ==> #[trigger] cs[i] == children[i]);
        lemma_subfind_entry_terms(norm, cs);
        let c = children.last();
        assert(children[children.len() - 1] == c);
        assert(children.contains(c));
        assert forall|x: Seq<char>|
            #[trigger] subfind_entry(norm, children).contains_key(x) implies children.contains(
            subfind_entry(norm, children)[x].search_term,
        ) by {
            let m = subfind_entry(norm, cs);
            if m.contains_key(x) && subfind_entry(norm, children)[x] == m[x] {
                assert(cs.contains(m[x].search_term));
                let i = choose|i: int| 0 <= i < cs.len() && #[trigger] cs[i] == m[x].search_term;
                assert(children[i] == m[x].search_term);
            }
        }
    }
}

/// The same for synonym expansion.
proof fn lemma_subfind_syn_entry_terms(classes: Seq<Seq<Seq<char>>>, children: Seq<Seq<char>>)
    ensures
        forall|c: Seq<char>|
            #[trigger] subfind_syn_entry(classes, children).contains_key(c) ==> children.contains(
                subfind_syn_entry(classes, children)[c].search_term,
            ),
    decreases children.len(),
{
    if children.len() > 0 {
        let cs = children.drop_last();
        assert(forall|i: int| 0 <= i < cs.len() ==> #[trigger] cs[i] == children[i]);
        lemma_subfind_syn_entry_terms(classes, cs);
        let c = children.last();
        assert(children[children.len() - 1] == c);
        assert(children.contains(c));
        assert forall|x: Seq<char>|
            #[trigger] subfind_syn_entry(classes, children).contains_key(x) implies
            children.contains(subfind_syn_entry(classes, children)[x].search_term) by {
            let m = subfind_syn_entry(classes, cs);
            if m.contains_key(x) && subfind_syn_entry(classes, children)[x] == m[x] {
                assert(cs.contains(m[x].search_term));
                let i = choose|i: int| 0 <= i < cs.len() && #[trigger] cs[i] == m[x].search_term;
                assert(children[i] == m[x].search_term);
            }
        }
    }
}

/// A layer built by re-searching the previous layer points back into
/// it.
proof fn lemma_subfind_reaches<N: Searchable>(
    norm: &N,
    prev: &AssociationDict,
    cur: &AssociationDict,
)
    requires
        assoc_wf(prev),
        cur@ == subfind_model(norm, prev),
    ensures
        layer_reaches(prev, cur),
{
    assert forall|t: Seq<char>| #[trigger] cur@.contains_key(t) implies prev@.contains_key(t) && (
    forall|c: Seq<char>|
        #[trigger] cur@[t].contains_key(c) ==> prev@[t].contains_key(
            cur@[t][c].search_term,
        )) by {
        prev.lemma_view_contains(t);
        prev.lemma_index_of(t);
        let inner = prev.val_seq()[prev.spec_index_of(t)];
        lemma_subfind_entry_terms(norm, inner.key_seq());
        assert forall|c: Seq<char>|
            #[trigger] cur@[t].contains_key(c) implies prev@[t].contains_key(
            cur@[t][c].search_term,
        ) by {
            assert(inner.key_seq().contains(cur@[t][c].search_term));
            inner.lemma_view_contains(cur@[t][c].search_term);
            assert(prev@[t] == inner@);
        }
    }
}

/// The same for synonym expansion.
proof fn lemma_subfind_syn_reaches(
    classes: Seq<Seq<Seq<char>>>,
    prev: &AssociationDict,
    cur: &AssociationDict,
)
    requires
        assoc_wf(prev),
        cur@ == subfind_syn_model(classes, prev),
    ensures
        layer_reaches(prev, cur),
{
    assert forall|t: Seq<char>| #[trigger] cur@.contains_key(t) implies prev@.contains_key(t) && (
    forall|c: Seq<char>|
        #[trigger] cur@[t].contains_key(c) ==> prev@[t].contains_key(
            cur@[t][c].search_term,
        )) by {
        prev.lemma_view_contains(t);
        prev.lemma_index_of(t);
        let inner = prev.val_seq()[prev.spec_index_of(t)];
        lemma_subfind_syn_entry_terms(classes, inner.key_seq());
        assert forall|c: Seq<char>|
            #[trigger] cur@[t].contains_key(c) implies prev@[t].contains_key(
            cur@[t][c].search_term,
        ) by {
            assert(inner.key_seq().contains(cur@[t][c].search_term));
            inner.lemma_view_contains(cur@[t][c].search_term);
            assert(prev@[t] == inner@);
        }
    }
}

/// The characters of an optional text.
pub open spec fn flavor_view(f: &Option<String>) -> Option<Seq<char>> {
    match f {
        Some(x) => Some(x@),
        None => None,
    }
}

/// Everything the pipeline promises of its layers, stage bookkeeping,
/// scoring, and result body.
pub open spec fn process_post<N: Searchable, M: Searchable>(
    norm: &N,
    table: &M,
    syn: &SynonymIndex,
    hom: &SynonymIndex,
    terms: Seq<Seq<char>>,
    stages: Seq<QueryStage>,
    max_size: int,
    flavor: Option<Seq<char>>,
    layers: Seq<AssociationDict>,
    used: Seq<QueryStage>,
    cd: Dict<u64>,
    chains: Seq<Dict<Chain>>,
    r: Seq<char>,
) -> bool {
    &&& layers_wf(layers)
    &&& layers_linked(layers)
    &&& ({
        ||| (exists|g: int|
            {
                &&& 0 <= g < stages.len()
                &&& stages_run(norm, table, syn, hom, terms, stages, used, layers, g)
                &&& (forall|x: int| 0 <= x < g ==> !guard_trip(stages, layers, max_size, x))
                &&& #[trigger] guard_trip(stages, layers, max_size, g)
                &&& r == guard_error_body(
                    sat_usize(sum_entries(&layers[nlayers(stages, g) - 1])),
                    max_size,
                    stages[g],
                    nlayers(stages, g),
                )
            })
        ||| ({
            &&& stages_run(norm, table, syn, hom, terms, stages, used, layers, stages.len() as int)
            &&& (forall|x: int|
                0 <= x < stages.len() ==> !guard_trip(stages, layers, max_size, x))
            &&& if layers.len() == 0 {
                r == "[]"@ && chains.len() == 0
            } else {
                &&& cd.wf()
                &&& counts_match(cd@, count_model(&layers[layers.len() - 1], terms))
                &&& {
                    let sorted = sort_pairs_spec(
                        scored_prefix(&cd, flavor, cd.key_seq().len() as int),
                    );
                    &&& chains.len() == (if sorted.len() <= 100 {
                        sorted.len() as int
                    } else {
                        100
                    })
                    &&& (forall|p: int|
                        0 <= p < chains.len() ==> (#[trigger] chains[p]).wf() && chains[p]@
                            == chain_map_model(layers, used, terms, sorted[p].association))
                    &&& r == chains_text(chains)
                }
            }
        })
    })
}

/// Run the stages in order, abort when the working-set guard fires,
/// then score the final layer's candidates, sort them, and emit the
/// chain list as a JSON body.
#[verifier::rlimit(100)]
pub fn process_query<N: Searchable, M: Searchable>(
    query: Query,
    norm_index: &N,
    table_index: &M,
    syn_index: &SynonymIndex,
    homophone_index: &SynonymIndex,
) -> (r: String)
    requires
        norm_index.search_wf(),
        table_index.search_wf(),
        syn_index.wf(),
        homophone_index.wf(),
        query.association_dicts@.len() == 0,
    ensures
        exists|
            layers: Seq<AssociationDict>,
            used: Seq<QueryStage>,
            cd: Dict<u64>,
            chains: Seq<Dict<Chain>>,
        |
            #[trigger] process_post(
                norm_index,
                table_index,
                syn_index,
                homophone_index,
                crate::stemmer::str_views(query.query_terms@),
                query.stages@,
                query.max_size as int,
                flavor_view(&query.flavortext),
                layers,
                used,
                cd,
                chains,
                r@,
            ),
{
    let ghost terms = crate::stemmer::str_views(query.query_terms@);
    let ghost stages0 = query.stages@;
    let ghost flavor: Option<Seq<char>> = flavor_view(&query.flavortext);
    let max_size = query.max_size;
    let mut layers: Vec<AssociationDict> = Vec::new();
    let mut used: Vec<QueryStage> = Vec::new();
    let nstages = query.stages.len();
    let mut k: usize = 0;
    while k < nstages
        invariant
            0 <= k <= nstages,
            nstages == stages0.len(),
            stages0 == query.stages@,
            terms == crate::stemmer::str_views(query.query_terms@),
            max_size == query.max_size,
            norm_index.search_wf(),
            table_index.search_wf(),
            syn_index.wf(),
            homophone_index.wf(),
            stages_run(
                norm_index,
                table_index,
                syn_index,
                homophone_index,
                terms,
                stages0,
                used@,
                layers@,
                k as int,
            ),
            flavor == flavor_view(&query.flavortext),
            forall|x: int| 0 <= x < k ==> !guard_trip(stages0, layers@, max_size as int, x),
            layers_wf(layers@),
            layers_linked(layers@),
        decreases nstages - k,
    {
        let stage = query.stages[k];
        let nl = layers.len();
        let ghost layers_pre = layers@;
        let ghost used_pre = used@;
        if nl > 0 {
            let total = sum_subentries(&layers[nl - 1]);
            if total > max_size {
                let mut out = String::new();
                out.append("{\"error\": \"maximum working size ");
                crate::codec::write_u64(&mut out, total as u64);
                out.append(" exceeded max ");
                crate::codec::write_u64(&mut out, max_size as u64);
                out.append(" for stage: ");
                let nm = stage_name(&stage);
                out.append(nm.as_str());
                out.append(" (#");
                crate::codec::write_u64(&mut out, nl as u64);
                out.append(")\"}");
                proof {
                    assert(nlayers(stages0, k as int) == nl);
                    assert(total as int == sat_usize(sum_entries(&layers@[nl - 1])));
                    assert(guard_trip(stages0, layers@, max_size as int, k as int));
                    assert(out@ =~= guard_error_body(
                        total as int,
                        max_size as int,
                        stages0[k as int],
                        nl as int,
                    ));
                    let cd0 = vstd::pervasive::arbitrary::<Dict<u64>>();
                    assert(process_post(
                        norm_index,
                        table_index,
                        syn_index,
                        homophone_index,
                        terms,
                        stages0,
                        max_size as int,
                        flavor,
                        layers@,
                        used@,
                        cd0,
                        Seq::<Dict<Chain>>::empty(),
                        out@,
                    ));
                }
                return out;
            }
            proof {
                assert(!guard_trip(stages0, layers_pre, max_size as int, k as int));
            }
        } else {
            proof {
                assert(nlayers(stages0, k as int) == 0);
                assert(!guard_trip(stages0, layers_pre, max_size as int, k as int));
            }
        }
        let mut produced = false;
        match stage {
            QueryStage::WikiAllStem => {
                if nl == 0 {
                    let l = find_associations(&query.query_terms, norm_index, table_index);
                    layers.push(l);
                    used.push(stage);
                    produced = true;
                }
            },
            QueryStage::WikiArticleStem => {
                if nl == 0 {
                    let l = find_associations(&query.query_terms, norm_index, norm_index);
                    layers.push(l);
                    used.push(stage);
                    produced = true;
                } else {
                    let l = subfind_associations(&layers[nl - 1], norm_index);
                    proof {
                        lemma_subfind_reaches(norm_index, &layers@[nl - 1], &l);
                    }
                    layers.push(l);
                    used.push(stage);
                    produced = true;
                }
            },
            QueryStage::WikiArticleExact => {
                if nl > 0 {
                    let l = subfind_associations_map(&layers[nl - 1], norm_index);
                    proof {
                        lemma_subfind_reaches(norm_index, &layers@[nl - 1], &l);
                    }
                    layers.push(l);
                    used.push(stage);
                    produced = true;
                }
            },
            QueryStage::Synonym => {
                if nl == 0 {
                    let l = find_synonym_associations(&query.query_terms, syn_index);
                    layers.push(l);
                    used.push(stage);
                    produced = true;
                } else {
                    let l = subfind_synonyms(&layers[nl - 1], syn_index);
                    proof {
                        lemma_subfind_syn_reaches(syn_index.classes(), &layers@[nl - 1], &l);
                    }
                    layers.push(l);
                    used.push(stage);
                    produced = true;
                }
            },
            QueryStage::Homophone => {
                if nl == 0 {
                    let l = find_synonym_associations(&query.query_terms, homophone_index);
                    layers.push(l);
                    used.push(stage);
                    produced = true;
                } else {
                    let l = subfind_synonyms(&layers[nl - 1], homophone_index);
                    proof {
                        lemma_subfind_syn_reaches(homophone_index.classes(), &layers@[nl - 1], &l);
                    }
                    layers.push(l);
                    used.push(stage);
                    produced = true;
                }
            },
        }
        proof {
            assert(produced == stage_produces(stages0[k as int], nlayers(stages0, k as int) > 0));
            assert(nlayers(stages0, k + 1) == nlayers(stages0, k as int) + if produced {
                1int
            } else {
                0int
            });
            if produced {
                assert(layers@ =~= layers_pre.push(layers@[layers@.len() - 1]));
                assert(forall|x: int|
                    0 <= x < layers_pre.len() ==> #[trigger] layers@[x] == layers_pre[x]);
                assert(forall|x: int|
                    0 <= x < used_pre.len() ==> #[trigger] used@[x] == used_pre[x]);
                assert(layer_rel(
                    norm_index,
                    table_index,
                    syn_index,
                    homophone_index,
                    terms,
                    stages0[k as int],
                    layers@,
                    nlayers(stages0, k as int),
                ));
            }
            assert forall|x: int|
                0 <= x < k + 1 && stage_produces(
                    #[trigger] stages0[x],
                    nlayers(stages0, x) > 0,
                ) implies layer_rel(
                norm_index,
                table_index,
                syn_index,
                homophone_index,
                terms,
                stages0[x],
                layers@,
                nlayers(stages0, x),
            ) && used@[nlayers(stages0, x)] == stages0[x] by {
                if x < k {
                    lemma_nlayers_monotone(stages0, x + 1, k as int);
                    assert(nlayers(stages0, x) < layers_pre.len());
                }
            }
            assert forall|x: int|
                0 <= x < k + 1 implies !guard_trip(stages0, layers@, max_size as int, x) by {
                lemma_nlayers_monotone(stages0, x, k as int);
                assert(!guard_trip(stages0, layers_pre, max_size as int, x));
                if nlayers(stages0, x) > 0 {
                    assert(nlayers(stages0, x) <= layers_pre.len());
                    assert(layers@[nlayers(stages0, x) - 1] == layers_pre[nlayers(
                        stages0,
                        x,
                    ) - 1]);
                }
            }
        }
        k = k + 1;
    }
    if layers.len() == 0 {
        let body = String::from_str("[]");
        proof {
            let cd0 = vstd::pervasive::arbitrary::<Dict<u64>>();
            assert(process_post(
                norm_index,
                table_index,
                syn_index,
                homophone_index,
                terms,
                stages0,
                max_size as int,
                flavor,
                layers@,
                used@,
                cd0,
                Seq::<Dict<Chain>>::empty(),
                body@,
            ));
        }
        return body;
    }
    let nl = layers.len();
    let n_terms = query.query_terms.len();
    proof {
        assert(query.query_terms@.len() == n_terms);
    }
    let counts = count_candidates(&layers[nl - 1], &query.query_terms);
    let scored = score_candidates(&counts, &query.flavortext);
    let sorted = sort_score_pairs(scored);
    let chains = construct_chains(&layers, &used, &query.query_terms, &sorted);
    let body = encode_chains(&chains);
    proof {
        let sorted_spec = sort_pairs_spec(scored_prefix(&counts, flavor, counts.key_seq().len() as int));
        assert(pair_views(sorted@) == sorted_spec);
        assert forall|p: int|
            0 <= p < chains@.len() implies (#[trigger] chains@[p]).wf() && chains@[p]@
            == chain_map_model(layers@, used@, terms, sorted_spec[p].association) by {
            assert(sorted@[p]@ == sorted_spec[p]);
        }
        assert(process_post(
            norm_index,
            table_index,
            syn_index,
            homophone_index,
            terms,
            stages0,
            max_size as int,
            flavor,
            layers@,
            used@,
            counts,
            chains@,
            body@,
        ));
    }
    body
}

/// More stages never produce fewer layers.
proof fn lemma_nlayers_monotone(stages: Seq<QueryStage>, i: int, j: int)
    requires
        0 <= i <= j,
    ensures
        nlayers(stages, i) <= nlayers(stages, j),
    decreases j - i,
{
    if i < j {
        lemma_nlayers_monotone(stages, i, j - 1);
    }
}

/// Scoring is monotone in reach: a candidate reached by more query
/// terms never scores lower, whatever the flavortext adds.
pub proof fn lemma_score_monotone(c1: int, c2: int, cand: Seq<char>, flavor: Option<Seq<char>>)
    requires
        0 <= c1 <= c2,
    ensures
        score_of(c1, cand, flavor) <= score_of(c2, cand, flavor),
{
}

/// Provenance: a candidate of the final layer has a non-empty chain —
/// four entries per stage — to every query term that reached it.
pub proof fn lemma_chain_nonempty(
    ds: Seq<AssociationDict>,
    used: Seq<QueryStage>,
    t: Seq<char>,
    cand: Seq<char>,
)
    requires
        ds.len() >= 1,
    ensures
        chain_spec(ds, used, t, cand, ds.len() - 1).len() == 4 * ds.len(),
        chain_spec(ds, used, t, cand, ds.len() - 1).len() > 0,
{
    lemma_chain_len(ds, used, t, cand, ds.len() - 1);
}

proof fn lemma_chain_len(
    ds: Seq<AssociationDict>,
    used: Seq<QueryStage>,
    t: Seq<char>,
    cur: Seq<char>,
    s: int,
)
    ensures
        chain_spec(ds, used, t, cur, s).len() == if s < 0 {
            0int
        } else {
            4 * (s + 1)
        },
    decreases s + 1,
{
    if s >= 0 {
        lemma_chain_len(ds, used, t, ds[s]@[t][cur].search_term, s - 1);
    }
}

/// The body of one chain object: each term's chain, comma-separated.
pub open spec fn chain_obj_body(d: &Dict<Chain>, j: int) -> Seq<char>
    decreases j,
{
    if j <= 0 {
        Seq::empty()
    } else {
        let piece = crate::codec::json_string(d.key_seq()[j - 1]) + seq![':']
            + crate::codec::json_string_list(d.val_seq()[j - 1]@);
        if j == 1 {
            piece
        } else {
            chain_obj_body(d, j - 1) + seq![','] + piece
        }
    }
}

/// One chain object: `{"term":["…",…],…}`.
pub open spec fn chain_obj(d: &Dict<Chain>) -> Seq<char> {
    seq!['{'] + chain_obj_body(d, d.key_seq().len() as int) + seq!['}']
}

/// The body of the response array: the chain objects, comma-separated.
pub open spec fn chains_body(cs: Seq<Dict<Chain>>, i: int) -> Seq<char>
    decreases i,
{
    if i <= 0 {
        Seq::empty()
    } else if i == 1 {
        chain_obj(&cs[0])
    } else {
        chains_body(cs, i - 1) + seq![','] + chain_obj(&cs[i - 1])
    }
}

/// The response: a JSON array of chain objects.
pub open spec fn chains_text(cs: Seq<Dict<Chain>>) -> Seq<char> {
    seq!['['] + chains_body(cs, cs.len() as int) + seq![']']
}

/// Encode the chain maps as the JSON response body.
pub fn encode_chains(chains: &Vec<Dict<Chain>>) -> (r: String)
    requires
        forall|p: int| 0 <= p < chains@.len() ==> (#[trigger] chains@[p]).wf(),
    ensures
        r@ == chains_text(chains@),
{
    let mut out = String::new();
    crate::chars::push_char(&mut out, '[');
    let n = chains.len();
    let mut i: usize = 0;
    proof {
        assert(out@ =~= seq!['['] + chains_body(chains@, 0));
    }
    while i < n
        invariant
            0 <= i <= n,
            n == chains@.len(),
            forall|p: int| 0 <= p < chains@.len() ==> (#[trigger] chains@[p]).wf(),
            out@ == seq!['['] + chains_body(chains@, i as int),
        decreases n - i,
    {
        if i > 0 {
            crate::chars::push_char(&mut out, ',');
        }
        let d = &chains[i];
        crate::chars::push_char(&mut out, '{');
        let ghost base2 = out@;
        let m = d.len();
        let mut j: usize = 0;
        proof {
            assert(out@ =~= base2 + chain_obj_body(d, 0));
        }
        while j < m
            invariant
                0 <= j <= m,
                i < chains@.len(),
                d == &chains@[i as int],
                d.wf(),
                m == d.key_seq().len(),
                out@ == base2 + chain_obj_body(d, j as int),
            decreases m - j,
        {
            if j > 0 {
                crate::chars::push_char(&mut out, ',');
            }
            let key = d.key_at(j);
            let val = d.val_at(j);
            crate::codec::write_json_string(&mut out, key.as_str());
            crate::chars::push_char(&mut out, ':');
            crate::codec::write_string_list(&mut out, &val.0);
            proof {
                assert(out@ =~= base2 + chain_obj_body(d, j + 1 as int));
            }
            j = j + 1;
        }
        crate::chars::push_char(&mut out, '}');
        proof {
            assert(out@ =~= seq!['['] + chains_body(chains@, i + 1 as int));
        }
        i = i + 1;
    }
    crate::chars::push_char(&mut out, ']');
    proof {
        assert(out@ =~= chains_text(chains@));
    }
    out
}

/// The printed name of a stage.
pub open spec fn stage_name_spec(s: QueryStage) -> Seq<char> {
    match s {
        QueryStage::WikiAllStem => "WikiAllStem"@,
        QueryStage::WikiArticleStem => "WikiArticleStem"@,
        QueryStage::WikiArticleExact => "WikiArticleExact"@,
        QueryStage::Synonym => "Synonym"@,
        QueryStage::Homophone => "Homophone"@,
    }
}

/// The printed name of a stage.
pub fn stage_name(s: &QueryStage) -> (r: String)
    ensures
        r@ == stage_name_spec(*s),
{
    match s {
        QueryStage::WikiAllStem => String::from_str("WikiAllStem"),
        QueryStage::WikiArticleStem => String::from_str("WikiArticleStem"),
        QueryStage::WikiArticleExact => String::from_str("WikiArticleExact"),
        QueryStage::Synonym => String::from_str("Synonym"),
        QueryStage::Homophone => String::from_str("Homophone"),
    }
}

/// One provenance chain, read query-term-first.
pub struct Chain(pub Vec<String>);

impl View for Chain {
    type V = Seq<Seq<char>>;

    open spec fn view(&self) -> Seq<Seq<char>> {
        crate::stemmer::str_views(self.0@)
    }
}

/// Every entry of the later layer points back, through its
/// `search_term`, at an entry of the earlier layer under the same
/// query term.
pub open spec fn layer_reaches(prev: &AssociationDict, cur: &AssociationDict) -> bool {
    forall|t: Seq<char>|
        #[trigger] cur@.contains_key(t) ==> prev@.contains_key(t) && (forall|c: Seq<char>|
            #[trigger] cur@[t].contains_key(c) ==> prev@[t].contains_key(cur@[t][c].search_term))
}

/// Consecutive layers are linked by back-pointers.
pub open spec fn layers_linked(ds: Seq<AssociationDict>) -> bool {
    forall|k: int| #![trigger ds[k]] 1 <= k < ds.len() ==> layer_reaches(&ds[k - 1], &ds[k])
}

/// Every layer's dictionaries are well formed.
pub open spec fn layers_wf(ds: Seq<AssociationDict>) -> bool {
    forall|k: int| 0 <= k < ds.len() ==> assoc_wf(&#[trigger] ds[k])
}

/// The candidate the walk stands on at stage `s`, tracing back from
/// `cand` at the last stage.
pub open spec fn cur_at(
    ds: Seq<AssociationDict>,
    t: Seq<char>,
    cand: Seq<char>,
    s: int,
) -> Seq<char>
    decreases ds.len() - s,
{
    if s >= ds.len() - 1 {
        cand
    } else {
        ds[s + 1]@[t][cur_at(ds, t, cand, s + 1)].search_term
    }
}

/// Walking back from a candidate of the last layer stays on present
/// entries at every stage.
pub proof fn lemma_walk_present(ds: Seq<AssociationDict>, t: Seq<char>, cand: Seq<char>, s: int)
    requires
        layers_linked(ds),
        ds.len() >= 1,
        0 <= s < ds.len(),
        ds[ds.len() - 1]@.contains_key(t),
        ds[ds.len() - 1]@[t].contains_key(cand),
    ensures
        ds[s]@.contains_key(t),
        ds[s]@[t].contains_key(cur_at(ds, t, cand, s)),
    decreases ds.len() - s,
{
    if s == ds.len() - 1 {
    } else {
        lemma_walk_present(ds, t, cand, s + 1);
        assert(layer_reaches(&ds[s], &ds[s + 1]));
    }
}

/// The chain for one query term and one candidate: for each stage in
/// order, the stage's name, the key searched, what it matched, and
/// the candidate it produced.
pub open spec fn chain_spec(
    ds: Seq<AssociationDict>,
    used: Seq<QueryStage>,
    t: Seq<char>,
    cur: Seq<char>,
    s: int,
) -> Seq<Seq<char>>
    decreases s + 1,
{
    if s < 0 {
        Seq::empty()
    } else {
        let m = ds[s]@[t][cur];
        chain_spec(ds, used, t, m.search_term, s - 1) + seq![
            stage_name_spec(used[s]),
            m.search_term,
            m.search_match,
            cur,
        ]
    }
}

/// The map one emitted candidate yields: each query term to its
/// chain, empty when the term never reached the candidate.
pub open spec fn chain_map_model(
    ds: Seq<AssociationDict>,
    used: Seq<QueryStage>,
    terms: Seq<Seq<char>>,
    cand: Seq<char>,
) -> Map<Seq<char>, Seq<Seq<char>>> {
    Map::new(
        |t: Seq<char>| terms.contains(t),
        |t: Seq<char>|
            if ds.len() > 0 && ds[ds.len() - 1]@.contains_key(t) && ds[ds.len() - 1]@[
                t].contains_key(cand) {
                chain_spec(ds, used, t, cand, ds.len() - 1)
            } else {
                Seq::empty()
            },
    )
}

/// Trace one term's chain to one candidate of the last layer.
fn walk_chain(
    layers: &Vec<AssociationDict>,
    used_stages: &Vec<QueryStage>,
    term: &String,
    cand: &String,
) -> (r: Chain)
    requires
        layers@.len() == used_stages@.len(),
        layers@.len() >= 1,
        layers_wf(layers@),
        layers_linked(layers@),
        layers@[layers@.len() - 1]@.contains_key(term@),
        layers@[layers@.len() - 1]@[term@].contains_key(cand@),
    ensures
        r@ == chain_spec(layers@, used_stages@, term@, cand@, layers@.len() - 1),
{
    let ghost ds = layers@;
    let n = layers.len();
    // first pass: collect the candidate at each stage, walking back
    let mut curs: Vec<String> = Vec::new();
    let mut cur: String = clone_string(cand);
    let mut k: usize = 0;
    while k < n
        invariant
            0 <= k <= n,
            n == ds.len(),
            ds == layers@,
            layers_wf(ds),
            layers_linked(ds),
            ds[n - 1]@.contains_key(term@),
            ds[n - 1]@[term@].contains_key(cand@),
            curs@.len() == k,
            forall|x: int| 0 <= x < k ==> (#[trigger] curs@[x])@ == cur_at(ds, term@, cand@, n - 1 - x),
            cur@ == cur_at(ds, term@, cand@, n - 1 - k),
        decreases n - k,
    {
        let s = n - 1 - k;
        proof {
            lemma_walk_present(ds, term@, cand@, s as int);
        }
        let layer = &layers[s];
        proof {
            assert(assoc_wf(&ds[s as int]));
        }
        let entry = match layer.get(term.as_str()) {
            Some(e) => e,
            None => {
                proof {
                    assert(false);
                }
                return Chain(Vec::new());
            },
        };
        proof {
            layer.lemma_view_contains(term@);
            layer.lemma_index_of(term@);
            assert(entry.wf());
        }
        let m = match entry.get(cur.as_str()) {
            Some(m) => m,
            None => {
                proof {
                    assert(false);
                }
                return Chain(Vec::new());
            },
        };
        let next = clone_string(&m.search_term);
        proof {
            assert(m@ == ds[s as int]@[term@][cur@]);
            if k + 1 < n {
                assert(next@ == cur_at(ds, term@, cand@, n - 1 - (k + 1)));
            }
        }
        curs.push(cur);
        cur = next;
        k = k + 1;
    }
    // second pass: emit the chain forward, stage by stage
    let mut chain_vec: Vec<String> = Vec::new();
    let mut s: usize = 0;
    proof {
        assert(crate::stemmer::str_views(chain_vec@) =~= chain_spec(
            ds,
            used_stages@,
            term@,
            cur_at(ds, term@, cand@, -1),
            -1,
        ));
    }
    while s < n
        invariant
            0 <= s <= n,
            n == ds.len(),
            ds == layers@,
            n == used_stages@.len(),
            layers_wf(ds),
            layers_linked(ds),
            ds[n - 1]@.contains_key(term@),
            ds[n - 1]@[term@].contains_key(cand@),
            curs@.len() == n,
            forall|x: int| 0 <= x < n ==> (#[trigger] curs@[x])@ == cur_at(ds, term@, cand@, n - 1 - x),
            crate::stemmer::str_views(chain_vec@) == chain_spec(
                ds,
                used_stages@,
                term@,
                cur_at(ds, term@, cand@, s - 1),
                s - 1,
            ),
        decreases n - s,
    {
        let cs = &curs[n - 1 - s];
        proof {
            assert(cs@ == cur_at(ds, term@, cand@, s as int));
            lemma_walk_present(ds, term@, cand@, s as int);
            assert(assoc_wf(&ds[s as int]));
        }
        let layer = &layers[s];
        let entry = match layer.get(term.as_str()) {
            Some(e) => e,
            None => {
                proof {
                    assert(false);
                }
                return Chain(Vec::new());
            },
        };
        proof {
            layer.lemma_view_contains(term@);
            layer.lemma_index_of(term@);
            assert(entry.wf());
        }
        let m = match entry.get(cs.as_str()) {
            Some(m) => m,
            None => {
                proof {
                    assert(false);
                }
                return Chain(Vec::new());
            },
        };
        let ghost pre = crate::stemmer::str_views(chain_vec@);
        let name = stage_name(&used_stages[s]);
        chain_vec.push(name);
        chain_vec.push(clone_string(&m.search_term));
        chain_vec.push(clone_string(&m.search_match));
        chain_vec.push(clone_string(cs));
        proof {
            let mv = ds[s as int]@[term@][cs@];
            assert(m@ == mv);
            if s as int - 1 >= 0 {
                assert(cur_at(ds, term@, cand@, s - 1) == mv.search_term);
            }
            assert(chain_spec(ds, used_stages@, term@, cur_at(ds, term@, cand@, s as int), s as int)
                == chain_spec(ds, used_stages@, term@, mv.search_term, s - 1) + seq![
                stage_name_spec(used_stages@[s as int]),
                mv.search_term,
                mv.search_match,
                cs@,
            ]);
            assert(chain_spec(ds, used_stages@, term@, mv.search_term, s - 1) == pre) by {
                if s as int - 1 < 0 {
                    assert(chain_spec(ds, used_stages@, term@, mv.search_term, s - 1)
                        =~= Seq::<Seq<char>>::empty());
                    assert(pre =~= Seq::<Seq<char>>::empty());
                }
            }
            assert(crate::stemmer::str_views(chain_vec@) =~= pre + seq![
                stage_name_spec(used_stages@[s as int]),
                mv.search_term,
                mv.search_match,
                cs@,
            ]);
        }
        s = s + 1;
    }
    proof {
        assert(cur_at(ds, term@, cand@, n - 1) == cand@);
    }
    Chain(chain_vec)
}

/// Expand the top-scored candidates (at most one hundred) into chain
/// maps, one per candidate, each mapping every query term to its
/// chain or to the empty chain when the term never reached the
/// candidate.
pub fn construct_chains(
    layers: &Vec<AssociationDict>,
    used_stages: &Vec<QueryStage>,
    query_terms: &Vec<String>,
    scored_pairs: &Vec<ScorePair>,
) -> (r: Vec<Dict<Chain>>)
    requires
        layers@.len() == used_stages@.len(),
        layers@.len() >= 1,
        layers_wf(layers@),
        layers_linked(layers@),
    ensures
        r@.len() == if scored_pairs@.len() <= 100 {
            scored_pairs@.len() as int
        } else {
            100
        },
        forall|p: int|
            0 <= p < r@.len() ==> (#[trigger] r@[p]).wf() && r@[p]@ == chain_map_model(
                layers@,
                used_stages@,
                crate::stemmer::str_views(query_terms@),
                scored_pairs@[p]@.association,
            ),
{
    let ghost ds = layers@;
    let ghost terms = crate::stemmer::str_views(query_terms@);
    let emit = if scored_pairs.len() <= 100 {
        scored_pairs.len()
    } else {
        100
    };
    let mut r: Vec<Dict<Chain>> = Vec::new();
    let mut p: usize = 0;
    while p < emit
        invariant
            0 <= p <= emit,
            emit <= scored_pairs@.len(),
            ds == layers@,
            terms == crate::stemmer::str_views(query_terms@),
            layers@.len() == used_stages@.len(),
            layers@.len() >= 1,
            layers_wf(ds),
            layers_linked(ds),
            r@.len() == p,
            forall|x: int|
                0 <= x < p ==> (#[trigger] r@[x]).wf() && r@[x]@ == chain_map_model(
                    ds,
                    used_stages@,
                    terms,
                    scored_pairs@[x]@.association,
                ),
        decreases emit - p,
    {
        let cand = &scored_pairs[p].association;
        let mut mc: Dict<Chain> = Dict::new();
        let n_terms = query_terms.len();
        let mut q: usize = 0;
        proof {
            assert(mc@ =~= Map::new(
                |t: Seq<char>| terms.take(0).contains(t),
                |t: Seq<char>|
                    if ds.len() > 0 && ds[ds.len() - 1]@.contains_key(t) && ds[ds.len() - 1]@[
                        t].contains_key(cand@) {
                        chain_spec(ds, used_stages@, t, cand@, ds.len() - 1)
                    } else {
                        Seq::<Seq<char>>::empty()
                    },
            ));
        }
        while q < n_terms
            invariant
                0 <= q <= n_terms,
                n_terms == query_terms@.len(),
                ds == layers@,
                terms == crate::stemmer::str_views(query_terms@),
                layers@.len() == used_stages@.len(),
                layers@.len() >= 1,
                layers_wf(ds),
                layers_linked(ds),
                p < scored_pairs@.len(),
                cand@ == scored_pairs@[p as int]@.association,
                mc.wf(),
                mc@ == Map::new(
                    |t: Seq<char>| terms.take(q as int).contains(t),
                    |t: Seq<char>|
                        if ds.len() > 0 && ds[ds.len() - 1]@.contains_key(t) && ds[ds.len()
                            - 1]@[t].contains_key(cand@) {
                            chain_spec(ds, used_stages@, t, cand@, ds.len() - 1)
                        } else {
                            Seq::<Seq<char>>::empty()
                        },
                ),
            decreases n_terms - q,
        {
            let item = &query_terms[q];
            let last_layer = &layers[layers.len() - 1];
            proof {
                assert(assoc_wf(&ds[ds.len() - 1]));
            }
            let present = match last_layer.get(item.as_str()) {
                Some(entry) => {
                    proof {
                        last_layer.lemma_view_contains(item@);
                        last_layer.lemma_index_of(item@);
                        assert(entry.wf());
                    }
                    entry.contains_key(cand.as_str())
                },
                None => false,
            };
            let chain = if present {
                walk_chain(layers, used_stages, item, cand)
            } else {
                Chain(Vec::new())
            };
            proof {
                if present {
                    assert(chain@ == chain_spec(ds, used_stages@, item@, cand@, ds.len() - 1));
                } else {
                    assert(chain@ =~= Seq::<Seq<char>>::empty());
                    assert(!(ds[ds.len() - 1]@.contains_key(item@) && ds[ds.len()
                        - 1]@[item@].contains_key(cand@)));
                }
            }
            let ikey = clone_string(item);
            mc.insert(ikey, chain);
            proof {
                assert forall|t: Seq<char>| #[trigger] terms.take(q + 1 as int).contains(t)
                    <==> (terms.take(q as int).contains(t) || t == terms[q as int]) by {
                    lemma_take_contains(terms, q as int, t);
                }
                assert(mc@ =~= Map::new(
                    |t: Seq<char>| terms.take(q + 1 as int).contains(t),
                    |t: Seq<char>|
                        if ds.len() > 0 && ds[ds.len() - 1]@.contains_key(t) && ds[ds.len()
                            - 1]@[t].contains_key(cand@) {
                            chain_spec(ds, used_stages@, t, cand@, ds.len() - 1)
                        } else {
                            Seq::<Seq<char>>::empty()
                        },
                ));
            }
            q = q + 1;
        }
        proof {
            assert(terms.take(terms.len() as int) =~= terms);
            assert(mc@ =~= chain_map_model(ds, used_stages@, terms, cand@));
        }
        r.push(mc);
        p = p + 1;
    }
    r
}

} // verus!

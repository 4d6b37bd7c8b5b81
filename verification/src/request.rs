//! Turning request values into queries.
//!
//! A query names its terms and stages; stage names outside the closed
//! set are ignored, the working-set bound defaults, and empty
//! flavortext means none.

use vstd::prelude::*;

verus! {

use crate::pipeline::{Query, QueryStage, AssociationDict};
use crate::stemmer::str_views;
use crate::lexord::{str_cmp, Cmp};
use vstd::string::{StringExecFns, StrSliceExecFns};

/// The stage a name denotes, if any.
pub open spec fn stage_of_name(s: Seq<char>) -> Option<QueryStage> {
    if s == "WikiAllStem"@ {
        Some(QueryStage::WikiAllStem)
    } else if s == "WikiArticleStem"@ {
        Some(QueryStage::WikiArticleStem)
    } else if s == "WikiArticleExact"@ {
        Some(QueryStage::WikiArticleExact)
    } else if s == "Synonym"@ {
        Some(QueryStage::Synonym)
    } else if s == "Homophone"@ {
        Some(QueryStage::Homophone)
    } else {
        None
    }
}

/// The stages the names denote, unknown names dropped, order kept.
pub open spec fn stages_of_names(names: Seq<Seq<char>>) -> Seq<QueryStage>
    decreases names.len(),
{
    if names.len() == 0 {
        Seq::empty()
    } else {
        let p = stages_of_names(names.drop_last());
        match stage_of_name(names.last()) {
            Some(st) => p.push(st),
            None => p,
        }
    }
}

/// The default working-set bound.
pub open spec fn default_max_size() -> int {
    100000
}

/// Executable stage-name recognition.
fn parse_stage(name: &str) -> (r: Option<QueryStage>)
    ensures
        r == stage_of_name(name@),
{
    if matches!(str_cmp(name, "WikiAllStem"), Cmp::Eq) {
        Some(QueryStage::WikiAllStem)
    } else if matches!(str_cmp(name, "WikiArticleStem"), Cmp::Eq) {
        Some(QueryStage::WikiArticleStem)
    } else if matches!(str_cmp(name, "WikiArticleExact"), Cmp::Eq) {
        Some(QueryStage::WikiArticleExact)
    } else if matches!(str_cmp(name, "Synonym"), Cmp::Eq) {
        Some(QueryStage::Synonym)
    } else if matches!(str_cmp(name, "Homophone"), Cmp::Eq) {
        Some(QueryStage::Homophone)
    } else {
        proof {
            crate::lexord::lemma_lex_trichotomy(
                vstd::utf8::encode_utf8(name@),
                vstd::utf8::encode_utf8("WikiAllStem"@),
            );
        }
        None
    }
}

/// Assemble a query from plain values: the terms as given, the named
/// stages in order with unknown names ignored, the default bound, no
/// layers, and the flavortext as given.
pub fn build_query(
    query_terms: Vec<String>,
    stage_names: Vec<String>,
    flavortext: Option<String>,
) -> (r: Query)
    ensures
        r.query_terms == query_terms,
        r.stages@ == stages_of_names(str_views(stage_names@)),
        r.max_size == default_max_size(),
        r.association_dicts@.len() == 0,
        r.flavortext == flavortext,
{
    let ghost names = str_views(stage_names@);
    let mut stages: Vec<QueryStage> = Vec::new();
    let mut i: usize = 0;
    proof {
        assert(stages@ =~= stages_of_names(names.take(0)));
    }
    while i < stage_names.len()
        invariant
            0 <= i <= stage_names@.len(),
            names == str_views(stage_names@),
            stages@ == stages_of_names(names.take(i as int)),
        decreases stage_names@.len() - i,
    {
        proof {
            assert(names.take(i + 1 as int).drop_last() =~= names.take(i as int));
            assert(names.take(i + 1 as int).last() == names[i as int]);
        }
        match parse_stage(stage_names[i].as_str()) {
            Some(st) => {
                stages.push(st);
            },
            None => {},
        }
        i = i + 1;
    }
    proof {
        assert(names.take(names.len() as int) =~= names);
    }
    let association_dicts: Vec<AssociationDict> = Vec::new();
    Query { query_terms, stages, max_size: 100000, association_dicts, flavortext }
}

/// Split on commas, keeping every piece.
fn split_plain_commas(s: &str) -> (r: Vec<String>)
    ensures
        str_views(r@) == crate::synonym_index::split_commas(s@),
{
    let cs = crate::chars::str_to_chars(s);
    let mut words: Vec<String> = Vec::new();
    let mut pos: usize = 0;
    proof {
        assert(cs@.skip(0) =~= cs@);
        assert(str_views(words@) =~= Seq::<Seq<char>>::empty());
        assert(str_views(words@) + crate::synonym_index::split_commas(cs@)
            =~= crate::synonym_index::split_commas(cs@));
    }
    loop
        invariant_except_break
            str_views(words@) + crate::synonym_index::split_commas(cs@.skip(pos as int))
                == crate::synonym_index::split_commas(cs@),
        invariant
            0 <= pos <= cs@.len(),
            cs@ == s@,
        ensures
            str_views(words@) == crate::synonym_index::split_commas(cs@),
            cs@ == s@,
        decreases cs@.len() - pos,
    {
        let mut end: usize = pos;
        while end < cs.len() && cs[end] != ','
            invariant
                pos <= end <= cs@.len(),
                forall|j: int| pos <= j < end ==> cs@[j] != ',',
            decreases cs@.len() - end,
        {
            end = end + 1;
        }
        let w = crate::chars::chars_range_to_string(&cs, pos, end);
        let ghost tail = cs@.skip(pos as int);
        proof {
            assert(forall|j: int| 0 <= j < end - pos ==> tail[j] != ',');
            if end - pos < tail.len() {
                assert(tail[end - pos] == cs@[end as int]);
            }
            crate::synonym_index::lemma_comma_run_exact(tail, end - pos);
            assert(tail.take(end - pos) =~= cs@.subrange(pos as int, end as int));
        }
        if end == cs.len() {
            proof {
                assert(tail.take(end - pos) =~= tail);
                assert(crate::synonym_index::split_commas(tail) == seq![w@]);
                assert(str_views(words@.push(w)) =~= str_views(words@).push(w@));
                assert(str_views(words@) + seq![w@] =~= str_views(words@.push(w)));
            }
            words.push(w);
            break ;
        }
        proof {
            assert(tail.skip(end - pos + 1) =~= cs@.skip(end + 1 as int));
            assert(crate::synonym_index::split_commas(tail) == seq![w@]
                + crate::synonym_index::split_commas(cs@.skip(end + 1 as int)));
            assert(str_views(words@.push(w)) =~= str_views(words@).push(w@));
            assert(str_views(words@.push(w)) + crate::synonym_index::split_commas(
                cs@.skip(end + 1 as int),
            ) =~= str_views(words@) + crate::synonym_index::split_commas(tail));
        }
        words.push(w);
        pos = end + 1;
    }
    words
}


/// Parse a request body: a JSON object holding `terms` and `stages`
/// as string arrays, then optionally `flavortext` as a string, in
/// that order, with whitespace allowed between tokens and nothing
/// after the closing brace.
pub open spec fn sp_request(s: Seq<char>) -> Option<
    (Seq<Seq<char>>, Seq<Seq<char>>, Option<Seq<char>>),
> {
    let p0 = crate::codec::skip_ws(s, 0);
    if !(p0 < s.len() && s[p0] == '{') {
        None
    } else {
        let p1 = crate::codec::skip_ws(s, p0 + 1);
        match crate::codec::sp_string(s, p1) {
            None => None,
            Some(k1) => {
                if k1.0 != "terms"@ {
                    None
                } else {
                    let p3 = crate::codec::skip_ws(s, k1.1);
                    if !(p3 < s.len() && s[p3] == ':') {
                        None
                    } else {
                        let p4 = crate::codec::skip_ws(s, p3 + 1);
                        match crate::codec::sp_string_list(s, p4) {
                            None => None,
                            Some(terms) => sp_request_stages(s, terms.0, terms.1),
                        }
                    }
                }
            },
        }
    }
}

/// The remainder of a request after the terms array: the `stages`
/// field and what follows it.
pub open spec fn sp_request_stages(s: Seq<char>, terms: Seq<Seq<char>>, pos: int) -> Option<
    (Seq<Seq<char>>, Seq<Seq<char>>, Option<Seq<char>>),
> {
    let p6 = crate::codec::skip_ws(s, pos);
    if !(p6 < s.len() && s[p6] == ',') {
        None
    } else {
        let p7 = crate::codec::skip_ws(s, p6 + 1);
        match crate::codec::sp_string(s, p7) {
            None => None,
            Some(k2) => {
                if k2.0 != "stages"@ {
                    None
                } else {
                    let p9 = crate::codec::skip_ws(s, k2.1);
                    if !(p9 < s.len() && s[p9] == ':') {
                        None
                    } else {
                        let p10 = crate::codec::skip_ws(s, p9 + 1);
                        match crate::codec::sp_string_list(s, p10) {
                            None => None,
                            Some(stages) => sp_request_tail(s, terms, stages.0, stages.1),
                        }
                    }
                }
            },
        }
    }
}

/// The remainder of a request after the stages array: the closing
/// brace, or the optional `flavortext` field and the closing brace.
pub open spec fn sp_request_tail(
    s: Seq<char>,
    terms: Seq<Seq<char>>,
    stages: Seq<Seq<char>>,
    pos: int,
) -> Option<(Seq<Seq<char>>, Seq<Seq<char>>, Option<Seq<char>>)> {
    let p12 = crate::codec::skip_ws(s, pos);
    if p12 < s.len() && s[p12] == '}' {
        if crate::codec::skip_ws(s, p12 + 1) == s.len() {
            Some((terms, stages, None))
        } else {
            None
        }
    } else if p12 < s.len() && s[p12] == ',' {
        let p13 = crate::codec::skip_ws(s, p12 + 1);
        match crate::codec::sp_string(s, p13) {
            None => None,
            Some(k3) => {
                if k3.0 != "flavortext"@ {
                    None
                } else {
                    let p15 = crate::codec::skip_ws(s, k3.1);
                    if !(p15 < s.len() && s[p15] == ':') {
                        None
                    } else {
                        let p16 = crate::codec::skip_ws(s, p15 + 1);
                        match crate::codec::sp_string(s, p16) {
                            None => None,
                            Some(fl) => {
                                let p18 = crate::codec::skip_ws(s, fl.1);
                                if p18 < s.len() && s[p18] == '}' && crate::codec::skip_ws(s, p18 + 1)
                                    == s.len() {
                                    Some((terms, stages, Some(fl.0)))
                                } else {
                                    None
                                }
                            },
                        }
                    }
                }
            },
        }
    } else {
        None
    }
}

/// Parse a key string and check it is the expected field name.
fn parse_key(cs: &Vec<char>, pos: usize, want: &str) -> (r: Option<(usize, bool)>)
    requires
        pos <= cs@.len(),
    ensures
        r is Some <==> crate::codec::sp_string(cs@, pos as int) is Some,
        r matches Some(p) ==> crate::codec::sp_string(cs@, pos as int) matches Some(t) && p.0
            == t.1 && p.0 <= cs@.len() && (p.1 <==> t.0 == want@),
{
    match crate::codec::parse_string_at(cs, pos) {
        None => None,
        Some((k, p2)) => {
            proof {
                crate::codec::lemma_sp_string_bounds(cs@, pos as int);
            }
            let same = matches!(str_cmp(k.as_str(), want), Cmp::Eq);
            Some((p2, same))
        },
    }
}

/// Parse an HTTP request body into a query: the `terms` and `stages`
/// arrays and the optional `flavortext`, assembled with the default
/// working-set bound; `None` when the body is not in the documented
/// form.
pub fn parse_http_query(body: &str) -> (r: Option<Query>)
    ensures
        r is Some <==> sp_request(body@) is Some,
        r matches Some(q) ==> sp_request(body@) matches Some(t) && {
            &&& str_views(q.query_terms@) == t.0
            &&& q.stages@ == stages_of_names(t.1)
            &&& q.max_size == default_max_size()
            &&& q.association_dicts@.len() == 0
            &&& crate::pipeline::flavor_view(&q.flavortext) == t.2
        },
{
    let cs = crate::chars::str_to_chars(body);
    let ghost s = cs@;
    let p0 = crate::codec::skip_ws_exec(&cs, 0);
    if !(p0 < cs.len() && cs[p0] == '{') {
        return None;
    }
    let p1 = crate::codec::skip_ws_exec(&cs, p0 + 1);
    let (p2, is_terms) = match parse_key(&cs, p1, "terms") {
        None => {
            return None;
        },
        Some(x) => x,
    };
    if !is_terms {
        return None;
    }
    let p3 = crate::codec::skip_ws_exec(&cs, p2);
    if !(p3 < cs.len() && cs[p3] == ':') {
        return None;
    }
    let p4 = crate::codec::skip_ws_exec(&cs, p3 + 1);
    let (terms, p5) = match crate::codec::parse_string_list_at(&cs, p4) {
        None => {
            return None;
        },
        Some(x) => x,
    };
    proof {
        crate::codec::lemma_sp_string_list_bounds(s, p4 as int);
    }
    let p6 = crate::codec::skip_ws_exec(&cs, p5);
    if !(p6 < cs.len() && cs[p6] == ',') {
        return None;
    }
    let p7 = crate::codec::skip_ws_exec(&cs, p6 + 1);
    let (p8, is_stages) = match parse_key(&cs, p7, "stages") {
        None => {
            return None;
        },
        Some(x) => x,
    };
    if !is_stages {
        return None;
    }
    let p9 = crate::codec::skip_ws_exec(&cs, p8);
    if !(p9 < cs.len() && cs[p9] == ':') {
        return None;
    }
    let p10 = crate::codec::skip_ws_exec(&cs, p9 + 1);
    let (stage_names, p11) = match crate::codec::parse_string_list_at(&cs, p10) {
        None => {
            return None;
        },
        Some(x) => x,
    };
    proof {
        crate::codec::lemma_sp_string_list_bounds(s, p10 as int);
    }
    let p12 = crate::codec::skip_ws_exec(&cs, p11);
    if p12 < cs.len() && cs[p12] == '}' {
        if crate::codec::skip_ws_exec(&cs, p12 + 1) == cs.len() {
            return Some(build_query(terms, stage_names, None));
        }
        return None;
    }
    if !(p12 < cs.len() && cs[p12] == ',') {
        return None;
    }
    let p13 = crate::codec::skip_ws_exec(&cs, p12 + 1);
    let (p14, is_flavor) = match parse_key(&cs, p13, "flavortext") {
        None => {
            return None;
        },
        Some(x) => x,
    };
    if !is_flavor {
        return None;
    }
    let p15 = crate::codec::skip_ws_exec(&cs, p14);
    if !(p15 < cs.len() && cs[p15] == ':') {
        return None;
    }
    let p16 = crate::codec::skip_ws_exec(&cs, p15 + 1);
    let (fl, p17) = match crate::codec::parse_string_at(&cs, p16) {
        None => {
            return None;
        },
        Some(x) => x,
    };
    proof {
        crate::codec::lemma_sp_string_bounds(s, p16 as int);
    }
    let p18 = crate::codec::skip_ws_exec(&cs, p17);
    if p18 < cs.len() && cs[p18] == '}' {
        if crate::codec::skip_ws_exec(&cs, p18 + 1) == cs.len() {
            return Some(build_query(terms, stage_names, Some(fl)));
        }
        return None;
    }
    None
}

/// Build a query from the interactive form: comma-separated terms,
/// comma-separated stage names (unknown ones ignored), and flavortext
/// taken only when non-empty.
pub fn parse_interactive_query(
    query_terms_str: &str,
    query_stages_str: &str,
    flavortext_str: &str,
) -> (r: Query)
    ensures
        str_views(r.query_terms@) == crate::synonym_index::split_commas(query_terms_str@),
        r.stages@ == stages_of_names(crate::synonym_index::split_commas(query_stages_str@)),
        r.max_size == default_max_size(),
        r.association_dicts@.len() == 0,
        crate::pipeline::flavor_view(&r.flavortext) == if flavortext_str@.len() > 0 {
            Some(flavortext_str@)
        } else {
            None::<Seq<char>>
        },
{
    let query_terms = split_plain_commas(query_terms_str);
    let stage_names = split_plain_commas(query_stages_str);
    let flavortext: Option<String> = if flavortext_str.unicode_len() > 0 {
        Some(String::from_str(flavortext_str))
    } else {
        None
    };
    build_query(query_terms, stage_names, flavortext)
}

} // verus!

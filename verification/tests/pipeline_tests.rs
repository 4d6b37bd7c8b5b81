use searcher::codec;
use searcher::indexer;
use searcher::pipeline;
use searcher::request;
use searcher::synonym_index;

fn records_text(recs: &[(&str, &[&str])]) -> String {
    let mut out = String::new();
    for (title, children) in recs {
        let cv: Vec<String> = children.iter().map(|c| c.to_string()).collect();
        out.push_str(&codec::encode_record(title, &cv));
        out.push('\n');
    }
    out
}

fn query(terms: &[&str], stages: &[&str], flavortext: Option<&str>) -> pipeline::Query {
    request::build_query(
        terms.iter().map(|t| t.to_string()).collect(),
        stages.iter().map(|s| s.to_string()).collect(),
        flavortext.map(|f| f.to_string()),
    )
}

fn empty_syn() -> synonym_index::SynonymIndex {
    synonym_index::generate_synonym_index(&Vec::new())
}

#[test]
fn single_reach_candidates_filtered() {
    let text = records_text(&[
        ("book of job", &["suffering", "patience"]),
        ("book of ruth", &["loyalty"]),
    ]);
    let norm = indexer::generate_inmemory_index(&text, 1, true).expect("norm");
    let table = indexer::generate_fst_index(&text, 1, false).expect("table");
    let q = query(&["job", "ruth"], &["WikiAllStem"], None);
    let r = pipeline::process_query(q, &norm, &table, &empty_syn(), &empty_syn());
    assert_eq!(r, "[]");
}

#[test]
fn single_term_yields_nothing() {
    let text = records_text(&[
        ("book of job", &["suffering", "patience"]),
        ("book of ruth", &["loyalty"]),
    ]);
    let norm = indexer::generate_inmemory_index(&text, 1, true).expect("norm");
    let table = indexer::generate_fst_index(&text, 1, false).expect("table");
    let q = query(&["book"], &["WikiAllStem"], None);
    let r = pipeline::process_query(q, &norm, &table, &empty_syn(), &empty_syn());
    assert_eq!(r, "[]");
}

#[test]
fn two_hop_association_scores_two() {
    let text = records_text(&[
        ("book of job", &["patience"]),
        ("story of patience", &["virtue"]),
    ]);
    let norm = indexer::generate_inmemory_index(&text, 1, true).expect("norm");
    let table = indexer::generate_fst_index(&text, 1, false).expect("table");
    let q = query(&["job", "virtue"], &["WikiArticleStem", "WikiArticleStem"], None);
    let r = pipeline::process_query(q, &norm, &table, &empty_syn(), &empty_syn());
    let expected = "[{\"job\":[\"WikiArticleStem\",\"job\",\"book of job\",\"patience\",\"WikiArticleStem\",\"patience\",\"story of patience\",\"virtue\"],\"virtue\":[\"WikiArticleStem\",\"virtue\",\"virtue\",\"virtue\",\"WikiArticleStem\",\"virtue\",\"virtue\",\"virtue\"]}]";
    assert_eq!(r, expected);
}

#[test]
fn synonym_stage_intersects_class() {
    let syn = synonym_index::generate_synonym_index(&vec!["happy,joyful,glad".to_string()]);
    let text = records_text(&[("unused", &["u"])]);
    let norm = indexer::generate_inmemory_index(&text, 1, true).expect("norm");
    let table = indexer::generate_fst_index(&text, 1, false).expect("table");
    let q = query(&["happy", "glad"], &["Synonym"], None);
    let r = pipeline::process_query(q, &norm, &table, &syn, &empty_syn());
    // joyful is reached only under happy, so only glad survives the
    // count filter
    let expected = "[{\"glad\":[\"Synonym\",\"glad\",\"glad\",\"glad\"],\"happy\":[\"Synonym\",\"happy\",\"happy\",\"glad\"]}]";
    assert_eq!(r, expected);
}

#[test]
fn working_set_guard_aborts() {
    // one record whose fan-out exceeds the default working-set bound
    let mut children: Vec<String> = Vec::new();
    for i in 0..100001u32 {
        children.push(format!("c{:07}", i));
    }
    let mut text = codec::encode_record("x", &children);
    text.push('\n');
    let norm = indexer::generate_inmemory_index(&text, 1, true).expect("norm");
    let q = query(&["x", "y"], &["WikiAllStem", "Synonym"], None);
    let r = pipeline::process_query(q, &norm, &norm, &empty_syn(), &empty_syn());
    assert_eq!(
        r,
        "{\"error\": \"maximum working size 100002 exceeded max 100000 for stage: Synonym (#1)\"}"
    );
}

#[test]
fn flavortext_boost_reorders() {
    let text = records_text(&[
        ("q1", &["beta", "zeta"]),
        ("q2", &["beta", "zeta"]),
    ]);
    let norm = indexer::generate_inmemory_index(&text, 1, true).expect("norm");
    let table = indexer::generate_fst_index(&text, 1, false).expect("table");
    // tied scores keep candidate order
    let q1 = query(&["q1", "q2"], &["WikiAllStem"], None);
    let plain = pipeline::process_query(q1, &norm, &table, &empty_syn(), &empty_syn());
    let beta_first = plain.find("beta").unwrap() < plain.find("zeta").unwrap();
    assert!(beta_first);
    // the flavortext shares a stem with zeta, lifting it above beta
    let q2 = query(&["q1", "q2"], &["WikiAllStem"], Some("consider zeta here"));
    let boosted = pipeline::process_query(q2, &norm, &table, &empty_syn(), &empty_syn());
    let zeta_first = boosted.find("zeta").unwrap() < boosted.find("beta").unwrap();
    assert!(zeta_first, "boosted: {}", boosted);
}

#[test]
fn exact_stage_skipped_first_and_allstem_skipped_later() {
    let text = records_text(&[
        ("book of job", &["patience"]),
        ("story of patience", &["virtue"]),
    ]);
    let norm = indexer::generate_inmemory_index(&text, 1, true).expect("norm");
    let table = indexer::generate_fst_index(&text, 1, false).expect("table");
    // the exact stage cannot run first and the all-wiki stage cannot
    // run later; with them ignored this is the two-hop scenario
    let q = query(
        &["job", "virtue"],
        &["WikiArticleExact", "WikiArticleStem", "WikiAllStem", "WikiArticleStem"],
        None,
    );
    let r = pipeline::process_query(q, &norm, &table, &empty_syn(), &empty_syn());
    let q2 = query(&["job", "virtue"], &["WikiArticleStem", "WikiArticleStem"], None);
    let r2 = pipeline::process_query(q2, &norm, &table, &empty_syn(), &empty_syn());
    assert_eq!(r, r2);
}

#[test]
fn exact_stage_follows_whole_titles() {
    let text = records_text(&[
        ("book of job", &["patience"]),
        ("patience", &["virtue"]),
    ]);
    let norm = indexer::generate_inmemory_index(&text, 1, true).expect("norm");
    let table = indexer::generate_fst_index(&text, 1, false).expect("table");
    let q = query(&["job", "virtue"], &["WikiArticleStem", "WikiArticleExact"], None);
    let r = pipeline::process_query(q, &norm, &table, &empty_syn(), &empty_syn());
    assert!(r.contains("\"virtue\""), "response: {}", r);
    assert_ne!(r, "[]");
}

#[test]
fn interactive_query_parses() {
    let q = request::parse_interactive_query("job,ruth", "WikiAllStem,Bogus,Synonym", "");
    assert_eq!(q.query_terms, vec!["job".to_string(), "ruth".to_string()]);
    assert_eq!(
        q.stages,
        vec![pipeline::QueryStage::WikiAllStem, pipeline::QueryStage::Synonym]
    );
    assert_eq!(q.max_size, 100000);
    assert!(q.flavortext.is_none());
    let q2 = request::parse_interactive_query("a", "Homophone", "hint text");
    assert_eq!(q2.flavortext, Some("hint text".to_string()));
}

#[test]
fn http_query_parses() {
    let q = request::parse_http_query(
        "{\"terms\": [\"job\", \"ruth\"], \"stages\": [\"WikiAllStem\"]}",
    )
    .expect("parses");
    assert_eq!(q.query_terms, vec!["job".to_string(), "ruth".to_string()]);
    assert_eq!(q.stages, vec![pipeline::QueryStage::WikiAllStem]);
    assert!(q.flavortext.is_none());
    let q2 = request::parse_http_query(
        "{\"terms\":[\"a\"],\"stages\":[\"Synonym\"],\"flavortext\":\"some hint\"}",
    )
    .expect("parses");
    assert_eq!(q2.flavortext, Some("some hint".to_string()));
}

#[test]
fn http_query_rejects_malformed() {
    for bad in [
        "",
        "not json",
        "{\"terms\":[\"a\"]}",
        "{\"stages\":[\"Synonym\"],\"terms\":[\"a\"]}",
        "{\"terms\":[\"a\"],\"stages\":[\"Synonym\"]} trailing",
        "{\"terms\":[\"a\"],\"stages\":[\"Synonym\"],\"flavortext\":3}",
    ] {
        assert!(searcher::request::parse_http_query(bad).is_none(), "accepted: {}", bad);
    }
}

#[test]
fn emitted_chain_list_capped_at_hundred() {
    // 150 candidates reached by both terms; only 100 chain objects come out
    let mut children: Vec<String> = Vec::new();
    for i in 0..150u32 {
        children.push(format!("cand{:03}", i));
    }
    let child_refs: Vec<&str> = children.iter().map(|c| c.as_str()).collect();
    let text = records_text(&[("q1", &child_refs), ("q2", &child_refs)]);
    let norm = indexer::generate_inmemory_index(&text, 1, true).expect("norm");
    let q = query(&["q1", "q2"], &["WikiAllStem"], None);
    let r = pipeline::process_query(q, &norm, &norm, &empty_syn(), &empty_syn());
    let objects = r.matches("{\"q1\"").count();
    assert_eq!(objects, 100, "response: {}...", &r[..80.min(r.len())]);
}

#[test]
fn duplicate_terms_count_twice() {
    let text = records_text(&[("book of job", &["patience"])]);
    let norm = indexer::generate_inmemory_index(&text, 1, true).expect("norm");
    let q = query(&["job", "job"], &["WikiAllStem"], None);
    let r = pipeline::process_query(q, &norm, &norm, &empty_syn(), &empty_syn());
    assert_ne!(r, "[]");
    assert!(r.contains("\"patience\""), "response: {}", r);
}

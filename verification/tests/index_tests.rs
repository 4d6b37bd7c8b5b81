use searcher::codec;
use searcher::indexer::{self, Searchable};
use searcher::synonym_index;

fn records_text(recs: &[(&str, &[&str])]) -> String {
    let mut out = String::new();
    for (title, children) in recs {
        let cv: Vec<String> = children.iter().map(|c| c.to_string()).collect();
        out.push_str(&codec::encode_record(title, &cv));
        out.push('\n');
    }
    out
}

#[test]
fn inmemory_search_finds_children() {
    let text = records_text(&[
        ("book of job", &["suffering", "patience"]),
        ("book of ruth", &["loyalty"]),
    ]);
    let idx = indexer::generate_inmemory_index(&text, 1, true).expect("build");
    let hits = idx.search("job", 1, false);
    assert_eq!(hits.len(), 2);
    assert_eq!(hits.get("suffering"), Some(&"book of job".to_string()));
    assert_eq!(hits.get("patience"), Some(&"book of job".to_string()));
    assert_eq!(hits.get("loyalty"), None);
    // the shared word reaches both records
    let hits2 = idx.search("book", 1, false);
    assert_eq!(hits2.len(), 3);
    assert_eq!(hits2.get("loyalty"), Some(&"book of ruth".to_string()));
}

#[test]
fn inmemory_build_rejects_malformed() {
    let text = "[\"ok\",[\"a\"]]\nnot a record\n";
    let r = indexer::generate_inmemory_index(text, 1, false);
    assert!(matches!(r, Err(indexer::IndexBuildError::MalformedRecord)));
}

#[test]
fn fst_search_finds_children() {
    let text = records_text(&[
        ("book of job", &["suffering", "patience"]),
        ("book of ruth", &["loyalty"]),
    ]);
    let idx = indexer::generate_fst_index(&text, 1, false).expect("build");
    let hits = idx.search("job", 1, false);
    assert_eq!(hits.len(), 2);
    assert_eq!(hits.get("suffering"), Some(&"book of job".to_string()));
    let hits2 = idx.search("ruth daughter", 1, false);
    assert_eq!(hits2.get("loyalty"), Some(&"book of ruth".to_string()));
    let hits3 = idx.search("absent", 1, false);
    assert_eq!(hits3.len(), 0);
}

#[test]
fn fst_search_round_trip_titles() {
    // every record's title is reachable through one of its own stems
    let recs: &[(&str, &[&str])] = &[
        ("alpha beta", &["x"]),
        ("gamma", &["y", "z"]),
        ("delta epsilon zeta", &["w"]),
    ];
    let text = records_text(recs);
    let idx = indexer::generate_fst_index(&text, 1, false).expect("build");
    for (title, _) in recs {
        let mut found = false;
        for stem in searcher::stemmer::generate_stems(title, 1, false) {
            let hits = idx.search(&stem, 1, false);
            let mut i = 0;
            while i < hits.len() {
                if hits.val_at(i) == title {
                    found = true;
                }
                i += 1;
            }
        }
        assert!(found, "no stem of {} reaches it", title);
    }
}

#[test]
fn fst_line_starts_address_lines() {
    let text = records_text(&[("one", &["a"]), ("twó", &["bb"])]);
    let idx = indexer::generate_fst_index(&text, 1, false).expect("build");
    assert_eq!(idx.num_records(), 2);
    let bytes = text.as_bytes();
    let lines: Vec<&str> = text.lines().collect();
    assert_eq!(idx.line_start_at(0), 0);
    let s1 = idx.line_start_at(1) as usize;
    assert_eq!(s1, lines[0].len() + 1);
    let s2 = idx.line_start_at(2) as usize;
    assert_eq!(s2, bytes.len());
    assert_eq!(&bytes[0..s1], format!("{}\n", lines[0]).as_bytes());
    assert_eq!(&bytes[s1..s2], format!("{}\n", lines[1]).as_bytes());
    assert!(std::str::from_utf8(&bytes[s1..s2 - 1]).is_ok());
}

#[test]
fn fst_cached_build_matches_fresh() {
    let text = records_text(&[
        ("book of job", &["suffering", "patience"]),
        ("book of ruth", &["loyalty"]),
    ]);
    let fresh = indexer::generate_fst_index(&text, 1, false).expect("build");
    let fst_bytes = fresh.fst_bytes();
    let sidecar = fresh.sidecar();
    let reopened = fst::Map::new(fst_bytes).expect("reopen");
    let cached = indexer::generate_fst_index_cached(&text, reopened, &sidecar, 1, false)
        .expect("cached build");
    for term in ["job", "ruth", "book", "absent"] {
        let a = fresh.search(term, 1, false);
        let b = cached.search(term, 1, false);
        assert_eq!(a.len(), b.len());
        let mut i = 0;
        while i < a.len() {
            assert_eq!(a.key_at(i), b.key_at(i));
            assert_eq!(a.val_at(i), b.val_at(i));
            i += 1;
        }
    }
}

#[test]
fn fst_cached_build_rejects_bad_sidecar() {
    let text = records_text(&[("book of job", &["suffering"])]);
    let fresh = indexer::generate_fst_index(&text, 1, false).expect("build");
    let reopened = fst::Map::new(fresh.fst_bytes()).expect("reopen");
    let r = indexer::generate_fst_index_cached(&text, reopened, "nonsense\n", 1, false);
    assert!(matches!(r, Err(indexer::IndexBuildError::BadSidecar)));
}

#[test]
fn stemmed_index_build() {
    let text = records_text(&[("alpha beta", &["x"]), ("gamma", &["y"])]);
    let (idx, bytes) =
        indexer::generate_stemmed_index(&text, "titles.fst".to_string(), 1).expect("build");
    assert_eq!(idx.num_payloads(), 2);
    let map = fst::Map::new(bytes).expect("reopen");
    assert_eq!(map.get("alpha"), Some(0));
    assert_eq!(map.get("beta"), Some(0));
    assert_eq!(map.get("gamma"), Some(1));
    assert_eq!(map.get("delta"), None);
}

#[test]
fn stemmed_index_rejects_duplicate_stems() {
    let text = records_text(&[("alpha", &["x"]), ("alpha thing", &["y"])]);
    let r = indexer::generate_stemmed_index(&text, "titles.fst".to_string(), 1);
    assert!(matches!(r, Err(indexer::IndexBuildError::DuplicateStem)));
}

#[test]
fn synonym_lookup_contains_self() {
    let idx = synonym_index::generate_synonym_index(&vec!["happy,joyful,glad".to_string()]);
    let r = synonym_index::search_synonym_index("anything", &idx);
    assert_eq!(r.get("anything"), Some(&"anything".to_string()));
    assert_eq!(r.len(), 1);
}

#[test]
fn synonym_root_expands_class() {
    let idx = synonym_index::generate_synonym_index(&vec![
        "happy,joyful,glad".to_string(),
        "happy,content".to_string(),
        "sad,blue".to_string(),
    ]);
    let r = synonym_index::search_synonym_index("happy", &idx);
    for w in ["happy", "joyful", "glad", "content"] {
        assert_eq!(r.get(w), Some(&"happy".to_string()), "missing {}", w);
    }
    assert_eq!(r.get("blue"), None);
    // case folds on ingest
    let idx2 = synonym_index::generate_synonym_index(&vec!["Big,Large".to_string()]);
    let r2 = synonym_index::search_synonym_index("big", &idx2);
    assert_eq!(r2.get("large"), Some(&"big".to_string()));
}

#[test]
fn synonym_non_root_is_only_itself() {
    let idx = synonym_index::generate_synonym_index(&vec!["happy,joyful,glad".to_string()]);
    let r = synonym_index::search_synonym_index("glad", &idx);
    assert_eq!(r.len(), 1);
    assert_eq!(r.get("glad"), Some(&"glad".to_string()));
}

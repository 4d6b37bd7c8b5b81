use searcher::stemmer;

fn vec_compare(va: &[String], vb: &[String]) -> bool {
    (va.len() == vb.len()) && va.iter().zip(vb).all(|(a, b)| a == b)
}

#[test]
fn stemmer_basic_test() {
    let mut stems = stemmer::generate_stems("sup-cat what hi", 3, false);
    let expected_list = vec!["supcat", "what", "hi", "supcat what", "what hi", "supcat what hi"];
    let mut expected: Vec<String> = expected_list.iter().map(|x| x.to_string()).collect();
    stems.sort();
    expected.sort();
    assert!(vec_compare(&(expected[..]), &stems));
}

#[test]
fn stemmer_less_than_k() {
    let mut stems = stemmer::generate_stems("sup-cat what hi", 9, false);
    let expected_list = vec!["supcat", "what", "hi", "supcat what", "what hi", "supcat what hi"];
    let mut expected: Vec<String> = expected_list.iter().map(|x| x.to_string()).collect();
    stems.sort();
    expected.sort();
    assert!(vec_compare(&(expected[..]), &stems));
}

#[test]
fn stemmer_repeated_whitespace() {
    let mut stems = stemmer::generate_stems("hello      there", 2, false);
    let expected_list = vec!["hello", "there", "hello there"];
    let mut expected: Vec<String> = expected_list.iter().map(|x| x.to_string()).collect();
    stems.sort();
    expected.sort();
    assert!(vec_compare(&(expected[..]), &stems));
}

#[test]
fn stemmer_norm_lower() {
    let mut stems = stemmer::generate_stems("HeLlO -TheRe-", 3, false);
    let expected_list = vec!["hello", "there", "hello there"];
    let mut expected: Vec<String> = expected_list.iter().map(|x| x.to_string()).collect();
    stems.sort();
    expected.sort();
    assert!(vec_compare(&(expected[..]), &stems));
}

#[test]
fn stemmer_whole_only() {
    // width zero with the whole phrase asked for: the full join, nothing else
    let stems = stemmer::generate_stems("book of job", 0, true);
    assert_eq!(stems, vec!["book of job".to_string()]);
}

#[test]
fn stemmer_whole_not_duplicated() {
    // the whole join is already covered when the width reaches the word count
    let stems = stemmer::generate_stems("a b", 2, true);
    assert_eq!(stems, vec!["a".to_string(), "b".to_string(), "a b".to_string()]);
}

#[test]
fn stemmer_empty_phrase() {
    let stems = stemmer::generate_stems("-- !!", 3, false);
    assert!(stems.is_empty());
    let stems2 = stemmer::generate_stems("", 0, true);
    assert!(stems2.is_empty());
}

#[test]
fn canonicalize_normalizes() {
    assert_eq!(stemmer::canonicalize("HeLlO -TheRe-"), "hello there");
    assert_eq!(stemmer::canonicalize("sup-cat   what  hi "), "supcat what hi");
}

#[test]
fn stems_agree_with_canonical_form() {
    // stemming a phrase and stemming its canonical form give the same stems
    for phrase in ["HeLlO -TheRe-", "sup-cat what hi", "  A  b C!! d  "] {
        for k in 0..4usize {
            for whole in [false, true] {
                let direct = stemmer::generate_stems(phrase, k, whole);
                let canon = stemmer::canonicalize(phrase);
                let via_canon = stemmer::generate_stems(&canon, k, whole);
                assert_eq!(direct, via_canon);
            }
        }
    }
}

use fingertips::index::InMemoryIndex;
use fingertips::index::tokenize;

fn terms_of(ix: &InMemoryIndex) -> Vec<String> {
    let mut v = Vec::new();
    for e in &ix.entries {
        v.push(String::from_utf8(e.term.clone()).unwrap());
    }
    v
}

#[test]
fn tokenize_splits_and_folds_case() {
    let text = b"The CAT, the hat; 2 hats".to_vec();
    let toks = tokenize(&text);
    let words: Vec<String> = toks
        .iter()
        .map(|t| String::from_utf8(t.clone()).unwrap())
        .collect();
    assert_eq!(words, vec!["the", "cat", "the", "hat", "2", "hats"]);
}

#[test]
fn tokenize_empty_text() {
    let toks = tokenize(&Vec::new());
    assert!(toks.is_empty());
}

#[test]
fn single_document_groups_occurrences() {
    let text = b"the cat sat on the mat".to_vec();
    let ix = InMemoryIndex::from_single_document(7, &text);
    // Terms in byte-lexicographic order.
    assert_eq!(terms_of(&ix), vec!["cat", "mat", "on", "sat", "the"]);
    for e in &ix.entries {
        assert_eq!(e.postings.len(), 1);
        assert_eq!(e.postings[0].doc_id, 7);
    }
    // "the" occurs at token offsets 0 and 4.
    let the = &ix.entries[4];
    assert_eq!(the.postings[0].positions, vec![0, 4]);
}

#[test]
fn merge_is_sorted_union_with_positions_intact() {
    let mut a = InMemoryIndex::from_single_document(0, &b"the cat sat".to_vec());
    let b = InMemoryIndex::from_single_document(1, &b"the dog sat".to_vec());
    a.merge(b);
    assert_eq!(terms_of(&a), vec!["cat", "dog", "sat", "the"]);
    // Shared terms: one posting per document, ascending ids, offsets kept.
    let sat = &a.entries[2];
    assert_eq!(sat.postings.len(), 2);
    assert_eq!(sat.postings[0].doc_id, 0);
    assert_eq!(sat.postings[0].positions, vec![2]);
    assert_eq!(sat.postings[1].doc_id, 1);
    assert_eq!(sat.postings[1].positions, vec![2]);
    // Terms of one side only carry over unchanged.
    let cat = &a.entries[0];
    assert_eq!(cat.postings.len(), 1);
    assert_eq!(cat.postings[0].doc_id, 0);
    assert_eq!(cat.postings[0].positions, vec![1]);
    let dog = &a.entries[1];
    assert_eq!(dog.postings.len(), 1);
    assert_eq!(dog.postings[0].doc_id, 1);
    assert_eq!(dog.postings[0].positions, vec![1]);
}

#[test]
fn merge_into_empty_and_with_empty() {
    let mut a = InMemoryIndex::new();
    assert!(a.is_empty());
    let b = InMemoryIndex::from_single_document(0, &b"word".to_vec());
    a.merge(b);
    assert!(!a.is_empty());
    assert_eq!(terms_of(&a), vec!["word"]);
    a.merge(InMemoryIndex::new());
    assert_eq!(terms_of(&a), vec!["word"]);
}

#[test]
fn size_estimate_matches_serialized_length() {
    let ix = InMemoryIndex::from_single_document(0, &b"a bb ccc a".to_vec());
    let bytes = ix.serialize();
    assert_eq!(ix.size_estimate(), bytes.len() as u64);
    assert!(ix.is_large(bytes.len() as u64));
    assert!(ix.is_large(1));
    assert!(!ix.is_large(bytes.len() as u64 + 1));
    assert_eq!(InMemoryIndex::new().size_estimate(), 0);
}

use fingertips::accumulator::MergeAccumulator;
use fingertips::index::InMemoryIndex;
use fingertips::pipeline::merge_index_files;
use fingertips::pipeline::run_pipeline;
use fingertips::IndexError;

fn posting_list(ix: &InMemoryIndex, term: &str) -> Vec<(u64, Vec<u32>)> {
    for e in &ix.entries {
        if e.term == term.as_bytes() {
            return e
                .postings
                .iter()
                .map(|p| (p.doc_id, p.positions.clone()))
                .collect();
        }
    }
    Vec::new()
}

#[test]
fn accumulator_spills_exactly_when_threshold_is_crossed() {
    // Each single-word document serializes to 29 bytes.  With a threshold
    // of 80 the accumulator stays quiet for two documents and spills once
    // the third crosses the line, holding precisely documents 0, 1 and 2;
    // it then resumes accumulating from document 3.
    let one_doc = InMemoryIndex::from_single_document(0, &b"abcde".to_vec());
    assert_eq!(one_doc.size_estimate(), 29);
    let mut acc = MergeAccumulator::new(80);
    assert!(acc.push(InMemoryIndex::from_single_document(0, &b"abcde".to_vec())).is_none());
    assert!(acc.push(InMemoryIndex::from_single_document(1, &b"fghij".to_vec())).is_none());
    let spilled = acc
        .push(InMemoryIndex::from_single_document(2, &b"klmno".to_vec()))
        .expect("the third document crosses the threshold");
    let docs: Vec<u64> = spilled
        .entries
        .iter()
        .flat_map(|e| e.postings.iter().map(|p| p.doc_id))
        .collect();
    let mut sorted = docs.clone();
    sorted.sort();
    assert_eq!(sorted, vec![0, 1, 2]);
    // Accumulation resumed from an empty index.
    assert!(acc.push(InMemoryIndex::from_single_document(3, &b"pqrst".to_vec())).is_none());
    let rest = acc.finish().expect("a non-empty remainder is emitted");
    assert_eq!(posting_list(&rest, "pqrst"), vec![(3, vec![0])]);
}

#[test]
fn accumulator_drops_empty_remainder() {
    let acc = MergeAccumulator::new(10);
    assert!(acc.finish().is_none());
}

#[test]
fn external_merge_unites_segments() {
    let s1 = InMemoryIndex::from_single_document(0, &b"the cat".to_vec()).serialize();
    let s2 = InMemoryIndex::from_single_document(1, &b"the dog".to_vec()).serialize();
    let s3 = InMemoryIndex::from_single_document(2, &b"a cat".to_vec()).serialize();
    let out = merge_index_files(vec![s1, s2, s3]).unwrap();
    let ix = InMemoryIndex::deserialize(&out).unwrap();
    let terms: Vec<&[u8]> = ix.entries.iter().map(|e| e.term.as_slice()).collect();
    assert_eq!(terms, vec![b"a".as_slice(), b"cat", b"dog", b"the"]);
    assert_eq!(posting_list(&ix, "cat"), vec![(0, vec![1]), (2, vec![1])]);
    assert_eq!(posting_list(&ix, "the"), vec![(0, vec![0]), (1, vec![0])]);
    assert_eq!(posting_list(&ix, "dog"), vec![(1, vec![1])]);
    assert_eq!(posting_list(&ix, "a"), vec![(2, vec![0])]);
}

#[test]
fn external_merge_of_no_segments_is_the_empty_index() {
    let out = merge_index_files(Vec::new()).unwrap();
    assert!(out.is_empty());
}

#[test]
fn external_merge_rejects_a_malformed_segment() {
    let good = InMemoryIndex::from_single_document(0, &b"ok".to_vec()).serialize();
    let mut bad = InMemoryIndex::from_single_document(1, &b"broken".to_vec()).serialize();
    bad.truncate(bad.len() - 3);
    assert_eq!(merge_index_files(vec![good, bad]), Err(IndexError::Format));
}

#[test]
fn end_to_end_two_documents() {
    // Documents "the cat sat" and "the dog sat", threshold large enough to
    // avoid spilling mid-run.
    let docs = vec![
        Some(b"the cat sat".to_vec()),
        Some(b"the dog sat".to_vec()),
    ];
    let (bytes, skipped) = run_pipeline(docs, 1_000_000);
    assert_eq!(skipped, 0);
    let ix = InMemoryIndex::deserialize(&bytes).unwrap();
    assert_eq!(posting_list(&ix, "the"), vec![(0, vec![0]), (1, vec![0])]);
    assert_eq!(posting_list(&ix, "sat"), vec![(0, vec![2]), (1, vec![2])]);
    assert_eq!(posting_list(&ix, "cat"), vec![(0, vec![1])]);
    assert_eq!(posting_list(&ix, "dog"), vec![(1, vec![1])]);
}

#[test]
fn end_to_end_with_small_threshold_spills_and_still_unites() {
    // A tiny threshold forces a spill after every document; the final
    // index is the same as without spilling.
    let docs = vec![
        Some(b"the cat sat".to_vec()),
        Some(b"the dog sat".to_vec()),
    ];
    let (small, _) = run_pipeline(docs.clone(), 1);
    let (large, _) = run_pipeline(docs, 1_000_000);
    assert_eq!(small, large);
}

#[test]
fn unreadable_documents_are_skipped_and_counted() {
    // One unreadable document among ten readable ones: the run succeeds,
    // reports one skip, and the index reflects the nine readable texts.
    let mut docs: Vec<Option<Vec<u8>>> = Vec::new();
    for i in 0..10 {
        if i == 4 {
            docs.push(None);
        } else {
            docs.push(Some(format!("word{} common", i).into_bytes()));
        }
    }
    let (bytes, skipped) = run_pipeline(docs, 1_000_000);
    assert_eq!(skipped, 1);
    let ix = InMemoryIndex::deserialize(&bytes).unwrap();
    let common = posting_list(&ix, "common");
    // Nine readable documents, ids 0..=8 in arrival order.
    assert_eq!(common.len(), 9);
    for (id, positions) in common.iter().enumerate() {
        assert_eq!(*positions, (id as u64, vec![1]));
    }
    // The skipped document consumed no id: word4 never appears.
    assert!(posting_list(&ix, "word4").is_empty());
    assert_eq!(posting_list(&ix, "word5"), vec![(4, vec![0])]);
}

use fingertips::index::InMemoryIndex;
use fingertips::IndexError;

fn same_contents(a: &InMemoryIndex, b: &InMemoryIndex) -> bool {
    if a.entries.len() != b.entries.len() {
        return false;
    }
    for i in 0..a.entries.len() {
        let (ea, eb) = (&a.entries[i], &b.entries[i]);
        if ea.term != eb.term || ea.postings.len() != eb.postings.len() {
            return false;
        }
        for k in 0..ea.postings.len() {
            if ea.postings[k].doc_id != eb.postings[k].doc_id
                || ea.postings[k].positions != eb.postings[k].positions
            {
                return false;
            }
        }
    }
    true
}

#[test]
fn round_trip_preserves_contents() {
    let mut ix = InMemoryIndex::from_single_document(0, &b"the cat sat on the mat".to_vec());
    ix.merge(InMemoryIndex::from_single_document(1, &b"a cat and a dog".to_vec()));
    let bytes = ix.serialize();
    let back = InMemoryIndex::deserialize(&bytes).unwrap();
    assert!(same_contents(&ix, &back));
}

#[test]
fn round_trip_of_the_empty_index() {
    let ix = InMemoryIndex::new();
    let bytes = ix.serialize();
    assert!(bytes.is_empty());
    let back = InMemoryIndex::deserialize(&bytes).unwrap();
    assert!(back.is_empty());
}

#[test]
fn exact_layout_of_one_block() {
    // One document, text "ab ab": one term block for "ab" with a single
    // posting of document 0 at offsets 0 and 1.
    let ix = InMemoryIndex::from_single_document(0, &b"ab ab".to_vec());
    let bytes = ix.serialize();
    let expected: Vec<u8> = vec![
        2, 0, 0, 0, // term length
        b'a', b'b', // term bytes
        1, 0, 0, 0, // posting count
        0, 0, 0, 0, 0, 0, 0, 0, // document id
        2, 0, 0, 0, // position count
        0, 0, 0, 0, // offset 0
        1, 0, 0, 0, // offset 1
    ];
    assert_eq!(bytes, expected);
}

#[test]
fn truncated_segment_is_a_format_error() {
    let ix = InMemoryIndex::from_single_document(0, &b"ab ab".to_vec());
    let mut bytes = ix.serialize();
    bytes.pop();
    assert_eq!(InMemoryIndex::deserialize(&bytes), Err(IndexError::Format));
}

#[test]
fn out_of_order_terms_are_a_format_error() {
    // Two blocks in descending term order break the sort invariant.
    let b_first = InMemoryIndex::from_single_document(0, &b"bb".to_vec()).serialize();
    let a_second = InMemoryIndex::from_single_document(0, &b"aa".to_vec()).serialize();
    let mut bytes = b_first;
    bytes.extend(a_second);
    assert_eq!(InMemoryIndex::deserialize(&bytes), Err(IndexError::Format));
}

//! The pipeline's tail: the external k-way merge and the whole run.
//!
//! Segments arrive as serialized indexes; the merger reads them back,
//! folds them into one index in term order and serializes the consolidated
//! result.  The pipeline entry point drives a corpus of documents through
//! indexing, accumulation with spilling, and the final merge.

use vstd::prelude::*;

use crate::codec::check_serializable;
use crate::codec::lemma_serialization_round_trip;
use crate::codec::ser_index;
use crate::codec::serializable;
use crate::index::index_wf;
use crate::index::merge_entries;
use crate::index::merge_plists;
use crate::index::merge_positions;
use crate::index::plist_has_doc;
use crate::index::plist_of;
use crate::index::positions_of;
use crate::index::EntryModel;
use crate::index::InMemoryIndex;
use crate::IndexError;

verus! {

/// The bytes are exactly the serialization of the well-formed index `w`.
pub open spec fn parses_to(b: Seq<u8>, w: Seq<EntryModel>) -> bool {
    index_wf(w) && serializable(w) && ser_index(w) == b
}

/// Some well-formed index serializes to these bytes.  By
/// [`lemma_serialization_round_trip`] there is at most one such index.
pub open spec fn parseable(b: Seq<u8>) -> bool {
    exists|w: Seq<EntryModel>| parses_to(b, w)
}

/// The unique well-formed index these bytes serialize.
pub open spec fn model_of(b: Seq<u8>) -> Seq<EntryModel> {
    choose|w: Seq<EntryModel>| parses_to(b, w)
}

/// The left fold of the term-sorted union over a list of indexes.
pub open spec fn fold_merge(ms: Seq<Seq<EntryModel>>) -> Seq<EntryModel>
    decreases ms.len(),
{
    if ms.len() == 0 {
        Seq::empty()
    } else {
        merge_entries(fold_merge(ms.drop_last()), ms.last())
    }
}

/// The models of a list of serialized segments.
pub open spec fn seg_models(segs: Seq<Vec<u8>>) -> Seq<Seq<EntryModel>> {
    segs.map_values(|v: Vec<u8>| model_of(v@))
}

/// Merges serialized segments into one serialized index: the k-way merge.
///
/// Every segment must be a well-formed serialized index; the first
/// malformed segment aborts the merge with a format error, and a
/// consolidated index whose counters would no longer fit the format's
/// 4-byte fields is refused the same way.  On success the output is the
/// serialization of the term-sorted union of all segments; no other file
/// is touched.
pub fn merge_index_files(segments: Vec<Vec<u8>>) -> (r: Result<Vec<u8>, IndexError>)
    ensures
        r matches Ok(out) ==> (forall|i: int|
            0 <= i < segments@.len() ==> parseable((#[trigger] segments@[i])@)) && index_wf(
            fold_merge(seg_models(segments@)),
        ) && serializable(fold_merge(seg_models(segments@))) && out@ == ser_index(
            fold_merge(seg_models(segments@)),
        ),
        r matches Err(e) ==> e == IndexError::Format && ((exists|i: int|
            0 <= i < segments@.len() && !parseable((#[trigger] segments@[i])@)) || !serializable(
            fold_merge(seg_models(segments@)),
        )),
{
    let mut acc = InMemoryIndex::new();
    let n = segments.len();
    let mut i: usize = 0;
    proof {
        assert(seg_models(segments@).take(0) =~= Seq::<Seq<EntryModel>>::empty());
    }
    while i < n
        invariant
            0 <= i <= n,
            n == segments@.len(),
            acc.wf(),
            forall|l: int| 0 <= l < i ==> parseable((#[trigger] segments@[l])@),
            acc.model() == fold_merge(seg_models(segments@).take(i as int)),
        decreases n - i,
    {
        let ix = match InMemoryIndex::deserialize(&segments[i]) {
            Ok(ix) => ix,
            Err(_) => {
                proof {
                    let b = segments@[i as int]@;
                    assert(!parseable(b)) by {
                        if parseable(b) {
                            let w = choose|w: Seq<EntryModel>| parses_to(b, w);
                            assert(parses_to(b, w));
                        }
                    }
                }
                return Err(IndexError::Format);
            },
        };
        proof {
            let b = segments@[i as int]@;
            assert(parses_to(b, ix.model()));
            assert(parseable(b));
            let w = model_of(b);
            assert(parses_to(b, w));
            lemma_serialization_round_trip(w, ix.model());
            assert(seg_models(segments@)[i as int] == ix.model());
            assert(seg_models(segments@).take(i + 1).drop_last() =~= seg_models(
                segments@,
            ).take(i as int));
            assert(seg_models(segments@).take(i + 1).last() == ix.model());
        }
        acc.merge(ix);
        i = i + 1;
    }
    proof {
        assert(seg_models(segments@).take(n as int) =~= seg_models(segments@));
    }
    if !check_serializable(&acc) {
        proof {
            assert(!serializable(fold_merge(seg_models(segments@))));
        }
        return Err(IndexError::Format);
    }
    let out = acc.serialize();
    Ok(out)
}


// ---------------------------------------------------------------------------
// The whole pipeline run
// ---------------------------------------------------------------------------

/// Every document the postings list mentions is at least `d`.
pub open spec fn plist_docs_at_least(ps: Seq<crate::index::PostingModel>, d: u64) -> bool {
    forall|k: int| 0 <= k < ps.len() ==> (#[trigger] ps[k]).doc >= d
}

/// Every document the index mentions is at least `d`.
pub open spec fn docs_at_least(m: Seq<EntryModel>, d: u64) -> bool {
    forall|i: int, k: int|
        0 <= i < m.len() && 0 <= k < m[i].postings.len() ==> (#[trigger] m[i].postings[k]).doc
            >= d
}

/// In a well-formed index, looking an entry's own term up yields exactly
/// that entry's postings.
pub proof fn lemma_plist_of_self(m: Seq<EntryModel>, i: int)
    requires
        index_wf(m),
        0 <= i < m.len(),
    ensures
        plist_of(m, m[i].term) == m[i].postings,
    decreases i,
{
    if i == 0 {
    } else {
        crate::order::lemma_lex_trichotomy(m[0].term, m[i].term);
        assert(m[0].term != m[i].term);
        assert(crate::index::index_wf(m.skip(1))) by {
            assert(forall|l: int| 0 <= l < m.skip(1).len() ==> m.skip(1)[l] == m[l + 1]);
        }
        assert(forall|l: int| 0 <= l < m.skip(1).len() ==> m.skip(1)[l] == m[l + 1]);
        lemma_plist_of_self(m.skip(1), i - 1);
    }
}

/// The postings an index holds all mention documents at least `d` when the
/// whole index does.
proof fn lemma_plist_of_docs_at_least(m: Seq<EntryModel>, t: Seq<u8>, d: u64)
    requires
        docs_at_least(m, d),
    ensures
        plist_docs_at_least(plist_of(m, t), d),
    decreases m.len(),
{
    if m.len() > 0 {
        if m[0].term == t {
        } else {
            assert(forall|i: int| 0 <= i < m.skip(1).len() ==> m.skip(1)[i] == m[i + 1]);
            lemma_plist_of_docs_at_least(m.skip(1), t, d);
        }
    }
}

/// Merging two postings lists whose document ranges lie on either side of
/// `d` is plain concatenation.
proof fn lemma_merge_plists_concat(
    x: Seq<crate::index::PostingModel>,
    y: Seq<crate::index::PostingModel>,
    d: u64,
)
    requires
        crate::index::plist_docs_below(x, d),
        plist_docs_at_least(y, d),
    ensures
        merge_plists(x, y) == x + y,
    decreases x.len(),
{
    if x.len() == 0 {
        assert(merge_plists(x, y) =~= x + y);
    } else if y.len() == 0 {
        assert(merge_plists(x, y) =~= x + y);
    } else {
        assert(x[0].doc < d <= y[0].doc);
        assert(forall|k: int| 0 <= k < x.skip(1).len() ==> x.skip(1)[k] == x[k + 1]);
        lemma_merge_plists_concat(x.skip(1), y, d);
        assert(seq![x[0]] + (x.skip(1) + y) =~= x + y);
    }
}

/// Merging two indexes whose document ranges lie on either side of `d`
/// concatenates each term's postings.
proof fn lemma_merge_entries_concat(a: Seq<EntryModel>, b: Seq<EntryModel>, d: u64)
    requires
        index_wf(a),
        index_wf(b),
        crate::index::docs_below(a, d),
        docs_at_least(b, d),
    ensures
        forall|t: Seq<u8>|
            #[trigger] plist_of(merge_entries(a, b), t) == plist_of(a, t) + plist_of(b, t),
{
    crate::index::lemma_merge_entries(a, b);
    assert forall|t: Seq<u8>|
        #[trigger] plist_of(merge_entries(a, b), t) == plist_of(a, t) + plist_of(b, t) by {
        crate::index::lemma_plist_of_docs_below(a, t, d);
        lemma_plist_of_docs_at_least(b, t, d);
        lemma_merge_plists_concat(plist_of(a, t), plist_of(b, t), d);
    }
}

/// Document bounds carry through a merge.
proof fn lemma_merge_docs_bounds(a: Seq<EntryModel>, b: Seq<EntryModel>, lo: u64, hi: u64)
    requires
        index_wf(a),
        index_wf(b),
        docs_at_least(a, lo),
        docs_at_least(b, lo),
        crate::index::docs_below(a, hi),
        crate::index::docs_below(b, hi),
    ensures
        docs_at_least(merge_entries(a, b), lo),
        crate::index::docs_below(merge_entries(a, b), hi),
{
    crate::index::lemma_merge_entries(a, b);
    let r = merge_entries(a, b);
    assert forall|i: int, k: int|
        0 <= i < r.len() && 0 <= k < r[i].postings.len() implies (#[trigger] r[i].postings[k]).doc
        >= lo && r[i].postings[k].doc < hi by {
        lemma_plist_of_self(r, i);
        let t = r[i].term;
        assert(r[i].postings == merge_plists(plist_of(a, t), plist_of(b, t)));
        crate::index::lemma_plist_of_wf(a, t);
        crate::index::lemma_plist_of_wf(b, t);
        crate::index::lemma_merge_plists(plist_of(a, t), plist_of(b, t));
        assert(plist_has_doc(plist_of(a, t), r[i].postings[k].doc) || plist_has_doc(
            plist_of(b, t),
            r[i].postings[k].doc,
        ));
        crate::index::lemma_plist_of_docs_below(a, t, hi);
        crate::index::lemma_plist_of_docs_below(b, t, hi);
        lemma_plist_of_docs_at_least(a, t, lo);
        lemma_plist_of_docs_at_least(b, t, lo);
        if plist_has_doc(plist_of(a, t), r[i].postings[k].doc) {
            let l = choose|l: int|
                0 <= l < plist_of(a, t).len() && (#[trigger] plist_of(a, t)[l]).doc == r[i]
                    .postings[k].doc;
        } else {
            let l = choose|l: int|
                0 <= l < plist_of(b, t).len() && (#[trigger] plist_of(b, t)[l]).doc == r[i]
                    .postings[k].doc;
        }
    }
}

/// An index whose every term carries at most one posting, always of
/// document `d`, mentions no document but `d`.
proof fn lemma_uniform_doc_bounds(m: Seq<EntryModel>, d: u64)
    requires
        index_wf(m),
        d < u64::MAX,
        forall|t: Seq<u8>|
            #[trigger] plist_of(m, t).len() <= 1 && (plist_of(m, t).len() == 1 ==> plist_of(
                m,
                t,
            )[0].doc == d),
    ensures
        docs_at_least(m, d),
        crate::index::docs_below(m, (d + 1) as u64),
{
    assert forall|i: int, k: int|
        0 <= i < m.len() && 0 <= k < m[i].postings.len() implies (#[trigger] m[i].postings[k]).doc
        == d by {
        lemma_plist_of_self(m, i);
    }
}


/// The texts a run receives: one entry per source document, `None` for a
/// document that could not be read.
pub open spec fn docs_view(d: Seq<Option<Vec<u8>>>) -> Seq<Option<Seq<u8>>> {
    d.map_values(
        |o: Option<Vec<u8>>|
            match o {
                Option::Some(v) => Option::Some(v@),
                Option::None => Option::None,
            },
    )
}

/// How many of the first `j` documents were readable.  Document ids are
/// assigned to readable documents in arrival order, so this is also the id
/// the next readable document receives.
pub open spec fn readable_upto(docs: Seq<Option<Seq<u8>>>, j: int) -> int
    decreases j,
{
    if j <= 0 {
        0
    } else {
        readable_upto(docs, j - 1) + if docs[j - 1] is Some {
            1int
        } else {
            0int
        }
    }
}

/// The postings list the whole corpus owes term `t` after the first `j`
/// documents: one posting per readable document the term occurs in, in
/// document-id order, carrying that document's occurrence offsets.
pub open spec fn corpus_plist(docs: Seq<Option<Seq<u8>>>, j: int, t: Seq<u8>) -> Seq<
    crate::index::PostingModel,
>
    decreases j,
{
    if j <= 0 {
        Seq::empty()
    } else {
        let prev = corpus_plist(docs, j - 1, t);
        match docs[j - 1] {
            Option::None => prev,
            Option::Some(tx) => prev + crate::index::occ_posting(
                readable_upto(docs, j - 1) as u64,
                crate::index::occurrences(crate::index::spec_tokens(tx), t),
            ),
        }
    }
}

proof fn lemma_occ_upto_len(toks: Seq<Seq<u8>>, k: int, t: Seq<u8>)
    requires
        k >= 0,
    ensures
        crate::index::occ_upto(toks, k, t).len() <= k,
        crate::index::occ_upto(toks, k, t).len() > 0 ==> (exists|j: int|
            0 <= j < k && toks[j] == t),
    decreases k,
{
    if k > 0 {
        lemma_occ_upto_len(toks, k - 1, t);
    }
}

/// Bounds that make the corpus index fit the segment format: lists no
/// longer than the number of readable documents, offsets no more numerous
/// than a text's bytes, terms no longer than a text.
proof fn lemma_corpus_plist_bounds(docs: Seq<Option<Seq<u8>>>, j: int, t: Seq<u8>)
    requires
        0 <= j <= docs.len(),
        docs.len() <= u32::MAX,
        forall|i: int|
            0 <= i < docs.len() ==> ((#[trigger] docs[i]) matches Option::Some(tx) ==> tx.len()
                <= u32::MAX),
    ensures
        corpus_plist(docs, j, t).len() <= readable_upto(docs, j),
        readable_upto(docs, j) <= j,
        forall|k: int|
            0 <= k < corpus_plist(docs, j, t).len() ==> (#[trigger] corpus_plist(
                docs,
                j,
                t,
            )[k]).positions.len() <= u32::MAX,
        corpus_plist(docs, j, t).len() > 0 ==> 1 <= t.len() <= u32::MAX,
    decreases j,
{
    if j > 0 {
        lemma_corpus_plist_bounds(docs, j - 1, t);
        let prev = corpus_plist(docs, j - 1, t);
        let cur = corpus_plist(docs, j, t);
        match docs[j - 1] {
            Option::None => {},
            Option::Some(tx) => {
                let toks = crate::index::spec_tokens(tx);
                crate::index::lemma_tokens_bounds(tx);
                lemma_occ_upto_len(toks, toks.len() as int, t);
                let occ = crate::index::occurrences(toks, t);
                let part = crate::index::occ_posting(readable_upto(docs, j - 1) as u64, occ);
                assert(cur == prev + part);
                assert(forall|k: int| 0 <= k < prev.len() ==> cur[k] == prev[k]);
                if part.len() > 0 {
                    assert(cur[cur.len() - 1] == part[0]);
                    assert(part[0].positions == occ);
                    let w = choose|w: int| 0 <= w < toks.len() && toks[w] == t;
                    assert(1 <= t.len() <= tx.len());
                }
            },
        }
    }
}


/// Runs the whole in-memory pipeline over a corpus.
///
/// Each document arrives as `Some(text)` or as `None` for a document that
/// could not be read; unreadable documents are skipped and counted, never
/// fatal.  Readable documents receive consecutive ids in arrival order,
/// are indexed one by one, accumulated up to the spill threshold, and the
/// spills are merged into one consolidated index.  The first result is
/// that index in the segment format: it holds, for every term, exactly the
/// corpus's postings — one posting per readable document the term occurs
/// in, in document order, with the occurrence offsets intact.  The second
/// result is the number of skipped documents.
#[verifier::rlimit(100)]
pub fn run_pipeline(documents: Vec<Option<Vec<u8>>>, threshold: u64) -> (r: (Vec<u8>, u64))
    requires
        documents@.len() <= u32::MAX,
        forall|i: int|
            0 <= i < documents@.len() ==> ((#[trigger] documents@[i]) matches Some(v) ==> v@.len()
                <= u32::MAX),
    ensures
        parseable(r.0@),
        forall|t: Seq<u8>|
            #[trigger] plist_of(model_of(r.0@), t) == corpus_plist(
                docs_view(documents@),
                documents@.len() as int,
                t,
            ),
        r.1 == documents@.len() - readable_upto(docs_view(documents@), documents@.len() as int),
{
    let ghost dv = docs_view(documents@);
    proof {
        assert forall|l: int|
            0 <= l < dv.len() implies ((#[trigger] dv[l]) matches Option::Some(tx) ==> tx.len()
            <= u32::MAX) by {
            assert(dv[l] == match documents@[l] {
                Option::Some(v) => Option::Some(v@),
                Option::None => Option::None,
            });
        }
    }
    let mut acc = crate::accumulator::MergeAccumulator::new(threshold);
    let mut merged = InMemoryIndex::new();
    let mut next_id: u64 = 0;
    let mut skipped: u64 = 0;
    let ghost mut boundary: u64 = 0;
    let n = documents.len();
    let mut i: usize = 0;
    proof {
        assert forall|t: Seq<u8>|
            #[trigger] plist_of(merged.model(), t) + plist_of(acc.current.model(), t)
                == corpus_plist(dv, 0, t) by {
            assert(plist_of(merged.model(), t) + plist_of(acc.current.model(), t) =~= Seq::<
                crate::index::PostingModel,
            >::empty());
        }
    }
    while i < n
        invariant
            0 <= i <= n,
            n == documents@.len(),
            n <= u32::MAX,
            dv == docs_view(documents@),
            dv.len() == n,
            forall|l: int|
                0 <= l < dv.len() ==> ((#[trigger] dv[l]) matches Option::Some(tx) ==> tx.len()
                    <= u32::MAX),
            acc.wf(),
            merged.wf(),
            next_id == readable_upto(dv, i as int),
            next_id <= i,
            skipped == i - next_id,
            boundary <= next_id,
            crate::index::docs_below(merged.model(), boundary),
            docs_at_least(acc.current.model(), boundary),
            crate::index::docs_below(acc.current.model(), next_id),
            forall|t: Seq<u8>|
                #[trigger] plist_of(merged.model(), t) + plist_of(acc.current.model(), t)
                    == corpus_plist(dv, i as int, t),
        decreases n - i,
    {
        proof {
            assert(dv[i as int] == match documents@[i as int] {
                Option::Some(v) => Option::Some(v@),
                Option::None => Option::None,
            });
        }
        match &documents[i] {
            None => {
                skipped = skipped + 1;
                proof {
                    assert forall|t: Seq<u8>|
                        #[trigger] plist_of(merged.model(), t) + plist_of(acc.current.model(), t)
                            == corpus_plist(dv, i + 1, t) by {
                        assert(corpus_plist(dv, i + 1, t) == corpus_plist(dv, i as int, t));
                    }
                }
            },
            Some(text) => {
                let di = InMemoryIndex::from_single_document(next_id, text);
                let ghost dim = di.model();
                let ghost tx = text@;
                proof {
                    assert forall|t: Seq<u8>|
                        #[trigger] plist_of(dim, t).len() <= 1 && (plist_of(dim, t).len() == 1
                            ==> plist_of(dim, t)[0].doc == next_id) by {
                        assert(plist_of(dim, t) == crate::index::occ_posting(
                            next_id,
                            crate::index::occurrences(crate::index::spec_tokens(tx), t),
                        ));
                    }
                    lemma_uniform_doc_bounds(dim, next_id);
                }
                let ghost cur0 = acc.current.model();
                let spill = acc.push(di);
                let ghost mm = merge_entries(cur0, dim);
                proof {
                    lemma_merge_entries_concat(cur0, dim, next_id);
                    lemma_merge_docs_bounds(cur0, dim, boundary, (next_id + 1) as u64);
                    crate::index::lemma_merge_entries(cur0, dim);
                }
                match spill {
                    Some(sp) => {
                        let ghost mg0 = merged.model();
                        proof {
                            assert(sp.model() == mm);
                            lemma_merge_entries_concat(mg0, mm, boundary);
                            assert(docs_at_least(mg0, 0));
                            lemma_merge_docs_bounds(mg0, mm, 0, (next_id + 1) as u64);
                        }
                        merged.merge(sp);
                        proof {
                            boundary = (next_id + 1) as u64;
                            assert forall|t: Seq<u8>|
                                #[trigger] plist_of(merged.model(), t) + plist_of(
                                    acc.current.model(),
                                    t,
                                ) == corpus_plist(dv, i + 1, t) by {
                                assert(plist_of(merged.model(), t) == plist_of(mg0, t)
                                    + plist_of(mm, t));
                                assert(plist_of(mm, t) == plist_of(cur0, t) + plist_of(dim, t));
                                assert(plist_of(acc.current.model(), t) =~= Seq::<
                                    crate::index::PostingModel,
                                >::empty());
                                assert(plist_of(merged.model(), t) + plist_of(
                                    acc.current.model(),
                                    t,
                                ) =~= (plist_of(mg0, t) + plist_of(cur0, t)) + plist_of(dim, t));
                                assert(corpus_plist(dv, i + 1, t) == corpus_plist(dv, i as int, t)
                                    + crate::index::occ_posting(
                                    next_id,
                                    crate::index::occurrences(
                                        crate::index::spec_tokens(tx),
                                        t,
                                    ),
                                ));
                            }
                        }
                    },
                    None => {
                        proof {
                            assert(acc.current.model() == mm);
                            assert forall|t: Seq<u8>|
                                #[trigger] plist_of(merged.model(), t) + plist_of(
                                    acc.current.model(),
                                    t,
                                ) == corpus_plist(dv, i + 1, t) by {
                                assert(plist_of(mm, t) == plist_of(cur0, t) + plist_of(dim, t));
                                assert(plist_of(merged.model(), t) + (plist_of(cur0, t)
                                    + plist_of(dim, t)) =~= (plist_of(merged.model(), t)
                                    + plist_of(cur0, t)) + plist_of(dim, t));
                                assert(corpus_plist(dv, i + 1, t) == corpus_plist(dv, i as int, t)
                                    + crate::index::occ_posting(
                                    next_id,
                                    crate::index::occurrences(
                                        crate::index::spec_tokens(tx),
                                        t,
                                    ),
                                ));
                            }
                        }
                    },
                }
                next_id = next_id + 1;
            },
        }
        i = i + 1;
    }
    match acc.finish() {
        Some(last) => {
            let ghost mg0 = merged.model();
            let ghost lm = last.model();
            proof {
                lemma_merge_entries_concat(mg0, lm, boundary);
                crate::index::lemma_merge_entries(mg0, lm);
            }
            merged.merge(last);
            proof {
                assert forall|t: Seq<u8>|
                    #[trigger] plist_of(merged.model(), t) == corpus_plist(dv, n as int, t) by {
                    assert(plist_of(merged.model(), t) == plist_of(mg0, t) + plist_of(lm, t));
                }
            }
        },
        None => {
            proof {
                assert forall|t: Seq<u8>|
                    #[trigger] plist_of(merged.model(), t) == corpus_plist(dv, n as int, t) by {
                    assert(plist_of(merged.model(), t) + Seq::<
                        crate::index::PostingModel,
                    >::empty() =~= plist_of(merged.model(), t));
                }
            }
        },
    }
    proof {
        let m = merged.model();
        assert forall|l: int| 0 <= l < m.len() implies crate::codec::entry_serializable(
            #[trigger] m[l],
        ) by {
            lemma_plist_of_self(m, l);
            lemma_corpus_plist_bounds(dv, n as int, m[l].term);
            assert(m[l].postings == corpus_plist(dv, n as int, m[l].term));
            assert(crate::index::entry_wf(m[l]));
        }
    }
    let out = merged.serialize();
    let ghost fm = merged.model();
    proof {
        assert(parses_to(out@, fm));
        assert(parseable(out@));
        let w = model_of(out@);
        assert(parses_to(out@, w));
        lemma_serialization_round_trip(w, fm);
    }
    (out, skipped)
}


/// The offsets document `d` owes term `t` after folding a list of indexes:
/// the union of the offsets each index holds.
pub open spec fn fold_positions(ms: Seq<Seq<EntryModel>>, t: Seq<u8>, d: u64) -> Seq<u32>
    decreases ms.len(),
{
    if ms.len() == 0 {
        Seq::empty()
    } else {
        merge_positions(
            fold_positions(ms.drop_last(), t, d),
            positions_of(plist_of(ms.last(), t), d),
        )
    }
}

/// In a well-formed postings list every document's offsets ascend.
proof fn lemma_positions_of_sorted(ps: Seq<crate::index::PostingModel>, d: u64)
    requires
        crate::index::plist_wf(ps),
    ensures
        crate::index::pos_sorted(positions_of(ps, d)),
    decreases ps.len(),
{
    if ps.len() > 0 {
        if ps[0].doc == d {
            assert(crate::index::posting_wf(ps[0]));
        } else {
            assert(crate::index::plist_wf(ps.skip(1))) by {
                assert(forall|k: int| 0 <= k < ps.skip(1).len() ==> ps.skip(1)[k] == ps[k + 1]);
            }
            lemma_positions_of_sorted(ps.skip(1), d);
        }
    }
}

/// The k-way merge law: folding any list of well-formed indexes keeps the
/// sort invariant, and per term and document the output's offsets are
/// exactly the union of the inputs' offsets.
pub proof fn lemma_kway_merge_union(ms: Seq<Seq<EntryModel>>)
    requires
        forall|i: int| 0 <= i < ms.len() ==> index_wf(#[trigger] ms[i]),
    ensures
        index_wf(fold_merge(ms)),
        forall|t: Seq<u8>, d: u64|
            #[trigger] positions_of(plist_of(fold_merge(ms), t), d) == fold_positions(ms, t, d),
    decreases ms.len(),
{
    if ms.len() == 0 {
    } else {
        assert(forall|i: int| 0 <= i < ms.drop_last().len() ==> ms.drop_last()[i] == ms[i]);
        lemma_kway_merge_union(ms.drop_last());
        let a = fold_merge(ms.drop_last());
        let b = ms.last();
        crate::index::lemma_merge_entries(a, b);
        assert forall|t: Seq<u8>, d: u64|
            #[trigger] positions_of(plist_of(fold_merge(ms), t), d) == fold_positions(
                ms,
                t,
                d,
            ) by {
            assert(plist_of(fold_merge(ms), t) == merge_plists(plist_of(a, t), plist_of(b, t)));
            crate::index::lemma_plist_of_wf(a, t);
            crate::index::lemma_plist_of_wf(b, t);
            crate::index::lemma_merge_plists(plist_of(a, t), plist_of(b, t));
        }
    }
}

/// No offset is lost and none is invented: an offset stands in the folded
/// output for a term and document exactly when some input holds it.
pub proof fn lemma_kway_merge_no_loss(ms: Seq<Seq<EntryModel>>, t: Seq<u8>, d: u64, p: u32)
    requires
        forall|i: int| 0 <= i < ms.len() ==> index_wf(#[trigger] ms[i]),
    ensures
        positions_of(plist_of(fold_merge(ms), t), d).contains(p) <==> exists|i: int|
            0 <= i < ms.len() && positions_of(plist_of(#[trigger] ms[i], t), d).contains(p),
    decreases ms.len(),
{
    lemma_kway_merge_union(ms);
    if ms.len() == 0 {
    } else {
        assert(forall|i: int| 0 <= i < ms.drop_last().len() ==> ms.drop_last()[i] == ms[i]);
        lemma_kway_merge_no_loss(ms.drop_last(), t, d, p);
        lemma_kway_merge_union(ms.drop_last());
        let a = fold_merge(ms.drop_last());
        let b = ms.last();
        crate::index::lemma_plist_of_wf(a, t);
        crate::index::lemma_plist_of_wf(b, t);
        lemma_positions_of_sorted(plist_of(a, t), d);
        lemma_positions_of_sorted(plist_of(b, t), d);
        crate::index::lemma_merge_positions(
            positions_of(plist_of(a, t), d),
            positions_of(plist_of(b, t), d),
        );
        assert(positions_of(plist_of(fold_merge(ms), t), d) == merge_positions(
            positions_of(plist_of(a, t), d),
            positions_of(plist_of(b, t), d),
        )) by {
            crate::index::lemma_merge_entries(a, b);
            crate::index::lemma_merge_plists(plist_of(a, t), plist_of(b, t));
        }
        if positions_of(plist_of(fold_merge(ms), t), d).contains(p) {
            if positions_of(plist_of(a, t), d).contains(p) {
                let i = choose|i: int|
                    0 <= i < ms.drop_last().len() && positions_of(
                        plist_of(#[trigger] ms.drop_last()[i], t),
                        d,
                    ).contains(p);
                assert(positions_of(plist_of(ms[i], t), d).contains(p));
            } else {
                assert(positions_of(plist_of(ms[ms.len() - 1], t), d).contains(p));
            }
        }
        if exists|i: int|
            0 <= i < ms.len() && positions_of(plist_of(#[trigger] ms[i], t), d).contains(p) {
            let i = choose|i: int|
                0 <= i < ms.len() && positions_of(plist_of(#[trigger] ms[i], t), d).contains(p);
            if i < ms.len() - 1 {
                assert(positions_of(plist_of(ms.drop_last()[i], t), d).contains(p));
                assert(positions_of(plist_of(a, t), d).contains(p));
            } else {
                assert(positions_of(plist_of(b, t), d).contains(p));
            }
        }
    }
}

} // verus!

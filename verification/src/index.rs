//! The in-memory inverted index.
//!
//! An [`InMemoryIndex`] maps each term to its postings list: the ordered
//! sequence of documents the term occurs in, with the 0-based token offsets
//! of every occurrence.  Entries are kept sorted in byte-lexicographic term
//! order, postings in ascending document order, positions in ascending
//! offset order; these sort invariants carry over to the on-disk format and
//! the external merge relies on them.

use vstd::prelude::*;

use crate::order::lemma_lex_trans;
use crate::order::lemma_lex_trichotomy;
use crate::order::lex_cmp;
use crate::order::lex_lt;
use crate::order::TermCmp;

verus! {

/// Mathematical model of one posting: a document and the ascending token
/// offsets at which the term occurs in it.
pub struct PostingModel {
    pub doc: u64,
    pub positions: Seq<u32>,
}

/// Mathematical model of one index entry: a term and its postings list.
pub struct EntryModel {
    pub term: Seq<u8>,
    pub postings: Seq<PostingModel>,
}

/// A posting: one document's occurrences of one term.
#[derive(Debug, PartialEq, Eq)]
pub struct Posting {
    pub doc_id: u64,
    pub positions: Vec<u32>,
}

impl Posting {
    pub open spec fn model(self) -> PostingModel {
        PostingModel { doc: self.doc_id, positions: self.positions@ }
    }
}

/// One term together with its postings list.
#[derive(Debug, PartialEq, Eq)]
pub struct TermEntry {
    pub term: Vec<u8>,
    pub postings: Vec<Posting>,
}

impl TermEntry {
    pub open spec fn model(self) -> EntryModel {
        EntryModel {
            term: self.term@,
            postings: self.postings@.map_values(|p: Posting| p.model()),
        }
    }
}

/// A posting is well formed when it records at least one occurrence and its
/// offsets ascend strictly.
pub open spec fn posting_wf(p: PostingModel) -> bool {
    p.positions.len() >= 1 && (forall|i: int, j: int|
        0 <= i < j < p.positions.len() ==> p.positions[i] < p.positions[j])
}

/// A postings list is well formed when every posting is, and documents
/// ascend strictly (at most one posting per document).
pub open spec fn plist_wf(ps: Seq<PostingModel>) -> bool {
    (forall|i: int| 0 <= i < ps.len() ==> posting_wf(#[trigger] ps[i])) && (forall|i: int, j: int|
        0 <= i < j < ps.len() ==> ps[i].doc < ps[j].doc)
}

/// An entry is well formed when its term is non-empty and its postings list
/// is non-empty and well formed.
pub open spec fn entry_wf(e: EntryModel) -> bool {
    e.term.len() >= 1 && e.postings.len() >= 1 && plist_wf(e.postings)
}

/// An index is well formed when every entry is, and terms ascend strictly
/// in byte-lexicographic order (no duplicate term).
pub open spec fn index_wf(m: Seq<EntryModel>) -> bool {
    (forall|i: int| 0 <= i < m.len() ==> entry_wf(#[trigger] m[i])) && (forall|i: int, j: int|
        0 <= i < j < m.len() ==> lex_lt(m[i].term, m[j].term))
}

/// The postings list an index holds for `term`; empty when the term is absent.
pub open spec fn plist_of(m: Seq<EntryModel>, term: Seq<u8>) -> Seq<PostingModel>
    decreases m.len(),
{
    if m.len() == 0 {
        Seq::empty()
    } else if m[0].term == term {
        m[0].postings
    } else {
        plist_of(m.skip(1), term)
    }
}

/// The positions a postings list holds for document `d`; empty when absent.
pub open spec fn positions_of(ps: Seq<PostingModel>, d: u64) -> Seq<u32>
    decreases ps.len(),
{
    if ps.len() == 0 {
        Seq::empty()
    } else if ps[0].doc == d {
        ps[0].positions
    } else {
        positions_of(ps.skip(1), d)
    }
}

/// Every document mentioned in the index is strictly below `d`.
pub open spec fn docs_below(m: Seq<EntryModel>, d: u64) -> bool {
    forall|i: int, k: int|
        0 <= i < m.len() && 0 <= k < m[i].postings.len() ==> (#[trigger] m[i].postings[k]).doc < d
}

/// Every document mentioned in the postings list is strictly below `d`.
pub open spec fn plist_docs_below(ps: Seq<PostingModel>, d: u64) -> bool {
    forall|k: int| 0 <= k < ps.len() ==> (#[trigger] ps[k]).doc < d
}

// ---------------------------------------------------------------------------
// Tokenization
// ---------------------------------------------------------------------------

/// A normalized word byte: a lower-case ASCII letter or a digit.
pub open spec fn is_word_byte(b: u8) -> bool {
    (97 <= b <= 122) || (48 <= b <= 57)
}

/// Case folding: upper-case ASCII letters map to lower case, all other
/// bytes stay as they are.
pub open spec fn norm_byte(b: u8) -> u8 {
    if 65 <= b <= 90 {
        (b + 32) as u8
    } else {
        b
    }
}

/// Length of the maximal word run at the front of `t`.
pub open spec fn run_len(t: Seq<u8>) -> int
    decreases t.len(),
{
    if t.len() == 0 {
        0
    } else if !is_word_byte(norm_byte(t[0])) {
        0
    } else {
        1 + run_len(t.skip(1))
    }
}

pub proof fn lemma_run_len_bounds(t: Seq<u8>)
    ensures
        0 <= run_len(t) <= t.len(),
    decreases t.len(),
{
    if t.len() > 0 && is_word_byte(norm_byte(t[0])) {
        lemma_run_len_bounds(t.skip(1));
    }
}

/// The tokens of a text: maximal runs of alphanumeric bytes, case folded,
/// in order of occurrence.
pub open spec fn spec_tokens(t: Seq<u8>) -> Seq<Seq<u8>>
    decreases t.len(),
    via spec_tokens_decreases
{
    if t.len() == 0 {
        Seq::empty()
    } else if !is_word_byte(norm_byte(t[0])) {
        spec_tokens(t.skip(1))
    } else {
        seq![t.take(run_len(t)).map_values(|b: u8| norm_byte(b))] + spec_tokens(t.skip(run_len(t)))
    }
}

#[via_fn]
proof fn spec_tokens_decreases(t: Seq<u8>) {
    lemma_run_len_bounds(t);
    if t.len() > 0 && is_word_byte(norm_byte(t[0])) {
        lemma_run_len_bounds(t.skip(1));
    }
}

/// A run length is pinned by its characterization: `n` word bytes followed
/// by the end of the text or a non-word byte.
pub proof fn lemma_run_len_char(t: Seq<u8>, n: int)
    requires
        0 <= n <= t.len(),
        forall|i: int| 0 <= i < n ==> is_word_byte(norm_byte(t[i])),
        n == t.len() || !is_word_byte(norm_byte(t[n])),
    ensures
        run_len(t) == n,
    decreases n,
{
    if n == 0 {
    } else {
        assert(forall|i: int| 0 <= i < n - 1 ==> t.skip(1)[i] == t[i + 1]);
        lemma_run_len_char(t.skip(1), n - 1);
    }
}

/// There are no more tokens than bytes, and every token is non-empty and no
/// longer than the text.
pub proof fn lemma_tokens_bounds(t: Seq<u8>)
    ensures
        spec_tokens(t).len() <= t.len(),
        forall|k: int|
            0 <= k < spec_tokens(t).len() ==> 1 <= (#[trigger] spec_tokens(t)[k]).len() <= t.len(),
    decreases t.len(),
{
    lemma_run_len_bounds(t);
    if t.len() == 0 {
    } else if !is_word_byte(norm_byte(t[0])) {
        lemma_tokens_bounds(t.skip(1));
    } else {
        let n = run_len(t);
        lemma_run_len_bounds(t.skip(1));
        assert(n >= 1);
        lemma_tokens_bounds(t.skip(n));
        assert(spec_tokens(t)[0].len() == n);
        assert(forall|k: int|
            1 <= k < spec_tokens(t).len() ==> spec_tokens(t)[k] == spec_tokens(t.skip(n))[k - 1]);
    }
}

/// Splits a text into its normalized tokens.
pub fn tokenize(text: &Vec<u8>) -> (toks: Vec<Vec<u8>>)
    ensures
        toks@.map_values(|v: Vec<u8>| v@) == spec_tokens(text@),
{
    let n = text.len();
    let mut toks: Vec<Vec<u8>> = Vec::new();
    let mut i: usize = 0;
    proof {
        assert(text@.skip(0) =~= text@);
        assert(toks@.map_values(|v: Vec<u8>| v@) =~= Seq::<Seq<u8>>::empty());
        assert(Seq::<Seq<u8>>::empty() + spec_tokens(text@) =~= spec_tokens(text@));
    }
    while i < n
        invariant
            0 <= i <= n,
            n == text@.len(),
            toks@.map_values(|v: Vec<u8>| v@) + spec_tokens(text@.skip(i as int)) == spec_tokens(
                text@,
            ),
        decreases n - i,
    {
        let b = normalize_byte(text[i]);
        if !word_byte(b) {
            proof {
                assert(text@.skip(i as int)[0] == text@[i as int]);
                assert(text@.skip(i as int).skip(1) =~= text@.skip(i + 1));
            }
            i = i + 1;
        } else {
            // Collect the maximal word run that starts at i.
            let start = i;
            let mut cur: Vec<u8> = Vec::new();
            while i < n && word_byte(normalize_byte(text[i]))
                invariant
                    start <= i <= n,
                    n == text@.len(),
                    forall|j: int| start <= j < i ==> is_word_byte(norm_byte(text@[j])),
                    cur@ == text@.subrange(start as int, i as int).map_values(
                        |b: u8| norm_byte(b),
                    ),
                decreases n - i,
            {
                cur.push(normalize_byte(text[i]));
                proof {
                    assert(text@.subrange(start as int, i + 1) =~= text@.subrange(
                        start as int,
                        i as int,
                    ).push(text@[i as int]));
                    assert(text@.subrange(start as int, i + 1).map_values(|b: u8| norm_byte(b))
                        =~= text@.subrange(start as int, i as int).map_values(
                        |b: u8| norm_byte(b),
                    ).push(norm_byte(text@[i as int])));
                }
                i = i + 1;
            }
            proof {
                let rest = text@.skip(start as int);
                assert(forall|j: int| 0 <= j < i - start ==> rest[j] == text@[start + j]);
                assert(i < n ==> rest[i - start] == text@[i as int]);
                lemma_run_len_char(rest, i - start);
                assert(rest.take(i - start) =~= text@.subrange(start as int, i as int));
                assert(rest.skip(i - start) =~= text@.skip(i as int));
                assert(is_word_byte(norm_byte(rest[0])));
                assert(spec_tokens(rest) == seq![text@.subrange(start as int, i as int).map_values(
                    |b: u8| norm_byte(b),
                )] + spec_tokens(text@.skip(i as int)));
            }
            let ghost old_toks = toks@;
            let ghost cur_view = cur@;
            toks.push(cur);
            proof {
                assert(toks@.map_values(|v: Vec<u8>| v@) =~= old_toks.map_values(|v: Vec<u8>| v@)
                    + seq![cur_view]);
                assert(toks@.map_values(|v: Vec<u8>| v@) + spec_tokens(text@.skip(i as int))
                    =~= old_toks.map_values(|v: Vec<u8>| v@) + (seq![cur_view] + spec_tokens(
                    text@.skip(i as int),
                )));
            }
        }
    }
    proof {
        assert(text@.skip(n as int) =~= Seq::<u8>::empty());
        assert(toks@.map_values(|v: Vec<u8>| v@) + Seq::<Seq<u8>>::empty() =~= toks@.map_values(
            |v: Vec<u8>| v@,
        ));
    }
    toks
}

// ---------------------------------------------------------------------------
// Occurrences of a term among the tokens of one document
// ---------------------------------------------------------------------------

/// The 0-based token offsets, among the first `k` tokens, at which `term`
/// occurs.
pub open spec fn occ_upto(toks: Seq<Seq<u8>>, k: int, term: Seq<u8>) -> Seq<u32>
    decreases k,
{
    if k <= 0 {
        Seq::empty()
    } else if toks[k - 1] == term {
        occ_upto(toks, k - 1, term) + seq![(k - 1) as u32]
    } else {
        occ_upto(toks, k - 1, term)
    }
}

/// The 0-based token offsets at which `term` occurs in the token list.
pub open spec fn occurrences(toks: Seq<Seq<u8>>, term: Seq<u8>) -> Seq<u32> {
    occ_upto(toks, toks.len() as int, term)
}

pub proof fn lemma_occ_upto_sorted(toks: Seq<Seq<u8>>, k: int, term: Seq<u8>)
    requires
        k <= u32::MAX + 1,
    ensures
        forall|l: int|
            0 <= l < occ_upto(toks, k, term).len() ==> 0 <= #[trigger] occ_upto(toks, k, term)[l]
                < k,
        forall|l1: int, l2: int|
            0 <= l1 < l2 < occ_upto(toks, k, term).len() ==> occ_upto(toks, k, term)[l1] < occ_upto(
                toks,
                k,
                term,
            )[l2],
    decreases k,
{
    if k > 0 {
        lemma_occ_upto_sorted(toks, k - 1, term);
        let prev = occ_upto(toks, k - 1, term);
        let cur = occ_upto(toks, k, term);
        if toks[k - 1] == term {
            assert(cur == prev + seq![(k - 1) as u32]);
            assert(forall|l: int| 0 <= l < prev.len() ==> cur[l] == prev[l]);
            assert(cur[cur.len() - 1] == (k - 1) as u32);
        }
    }
}

// ---------------------------------------------------------------------------
// Spec-level insertion of one token occurrence
// ---------------------------------------------------------------------------

/// Records one more occurrence of a term in document `d` at offset `pos`:
/// the occurrence joins the document's posting if the list already ends with
/// `d`, and opens a fresh posting otherwise.
pub open spec fn plist_add(ps: Seq<PostingModel>, d: u64, pos: u32) -> Seq<PostingModel> {
    if ps.len() > 0 && ps.last().doc == d {
        ps.drop_last().push(PostingModel { doc: d, positions: ps.last().positions.push(pos) })
    } else {
        ps.push(PostingModel { doc: d, positions: seq![pos] })
    }
}

/// Records one token occurrence in the index, keeping entries in term order.
pub open spec fn add_token(m: Seq<EntryModel>, term: Seq<u8>, d: u64, pos: u32) -> Seq<EntryModel>
    decreases m.len(),
{
    let fresh = EntryModel {
        term: term,
        postings: seq![PostingModel { doc: d, positions: seq![pos] }],
    };
    if m.len() == 0 {
        seq![fresh]
    } else if lex_lt(term, m[0].term) {
        seq![fresh] + m
    } else if term == m[0].term {
        seq![EntryModel { term: m[0].term, postings: plist_add(m[0].postings, d, pos) }] + m.skip(1)
    } else {
        seq![m[0]] + add_token(m.skip(1), term, d, pos)
    }
}

/// Records the first `k` tokens of a document, offset by token index.
pub open spec fn add_tokens_upto(m: Seq<EntryModel>, d: u64, toks: Seq<Seq<u8>>, k: int) -> Seq<
    EntryModel,
>
    decreases k,
{
    if k <= 0 {
        m
    } else {
        add_token(add_tokens_upto(m, d, toks, k - 1), toks[k - 1], d, (k - 1) as u32)
    }
}

/// Every document mentioned in the index is at most `d`.
pub open spec fn docs_at_most(m: Seq<EntryModel>, d: u64) -> bool {
    forall|i: int, k: int|
        0 <= i < m.len() && 0 <= k < m[i].postings.len() ==> (#[trigger] m[i].postings[k]).doc <= d
}

/// Every offset recorded for document `d` is strictly below `pos`.
pub open spec fn doc_positions_below(m: Seq<EntryModel>, d: u64, pos: u32) -> bool {
    forall|i: int, k: int, l: int|
        0 <= i < m.len() && 0 <= k < m[i].postings.len() && 0 <= l
            < m[i].postings[k].positions.len() && m[i].postings[k].doc == d ==> (#[trigger] m[i]
            .postings[k].positions[l]) < pos
}

/// A term absent from every entry has an empty postings list.
pub proof fn lemma_plist_of_absent(m: Seq<EntryModel>, t: Seq<u8>)
    requires
        forall|i: int| 0 <= i < m.len() ==> (#[trigger] m[i]).term != t,
    ensures
        plist_of(m, t) == Seq::<PostingModel>::empty(),
    decreases m.len(),
{
    if m.len() > 0 {
        lemma_plist_of_absent(m.skip(1), t);
    }
}

/// What [`add_token`] does: the touched term's list grows by [`plist_add`],
/// every other list stays, and well-formedness is kept.
#[verifier::rlimit(100)]
#[verifier::spinoff_prover]
pub proof fn lemma_add_token(m: Seq<EntryModel>, term: Seq<u8>, d: u64, pos: u32)
    requires
        index_wf(m),
        term.len() >= 1,
        docs_at_most(m, d),
        doc_positions_below(m, d, pos),
        pos < u32::MAX,
    ensures
        index_wf(add_token(m, term, d, pos)),
        docs_at_most(add_token(m, term, d, pos), d),
        doc_positions_below(add_token(m, term, d, pos), d, (pos + 1) as u32),
        plist_of(add_token(m, term, d, pos), term) == plist_add(plist_of(m, term), d, pos),
        forall|t: Seq<u8>|
            t != term ==> plist_of(add_token(m, term, d, pos), t) == plist_of(m, t),
        forall|j: int|
            0 <= j < add_token(m, term, d, pos).len() ==> (#[trigger] add_token(
                m,
                term,
                d,
                pos,
            )[j]).term == term || exists|i: int|
                0 <= i < m.len() && add_token(m, term, d, pos)[j].term == (#[trigger] m[i]).term,
    decreases m.len(),
{
    let fresh = EntryModel {
        term: term,
        postings: seq![PostingModel { doc: d, positions: seq![pos] }],
    };
    let r = add_token(m, term, d, pos);
    if m.len() == 0 {
        assert(r =~= seq![fresh]);
        assert(r.skip(1) =~= Seq::<EntryModel>::empty());
        assert forall|t: Seq<u8>| t != term implies plist_of(r, t) == plist_of(m, t) by {
            lemma_plist_of_absent(r.skip(1), t);
        }
        assert(plist_of(m, term) =~= Seq::<PostingModel>::empty());
        assert(doc_positions_below(r, d, (pos + 1) as u32)) by {
            assert(r[0] == fresh);
            assert(fresh.postings[0].positions[0] == pos);
        }
    } else if lex_lt(term, m[0].term) {
        assert(r =~= seq![fresh] + m);
        assert(r.skip(1) =~= m);
        assert(r[0] == fresh);
        // term is strictly below every term of m.
        assert forall|i: int| 0 <= i < m.len() implies lex_lt(term, (#[trigger] m[i]).term) by {
            if i > 0 {
                lemma_lex_trans(term, m[0].term, m[i].term);
            }
        }
        assert forall|i: int| 0 <= i < m.len() implies (#[trigger] m[i]).term != term by {
            lemma_lex_trichotomy(term, m[i].term);
        }
        lemma_plist_of_absent(m, term);
        assert(plist_of(r, term) == fresh.postings);
        assert(plist_add(plist_of(m, term), d, pos) =~= fresh.postings);
        assert(doc_positions_below(r, d, (pos + 1) as u32)) by {
            assert forall|i: int, k: int, l: int|
                0 <= i < r.len() && 0 <= k < r[i].postings.len() && 0 <= l
                    < r[i].postings[k].positions.len() && r[i].postings[k].doc == d implies r[i]
                .postings[k].positions[l] < (pos + 1) as u32 by {
                if i == 0 {
                    assert(r[0] == fresh);
                    assert(fresh.postings[k] == fresh.postings[0]);
                    assert(fresh.postings[0].positions[l] == pos);
                } else {
                    assert(r[i] == m[i - 1]);
                    assert(m[i - 1].postings[k].positions[l] < pos);
                }
            }
        }
    } else if term == m[0].term {
        let merged = EntryModel { term: m[0].term, postings: plist_add(m[0].postings, d, pos) };
        assert(r =~= seq![merged] + m.skip(1));
        assert(r[0] == merged);
        assert(r.skip(1) =~= m.skip(1));
        assert(entry_wf(m[0]));
        // The new or extended posting is well formed and keeps the list sorted.
        let ps = m[0].postings;
        if ps.len() > 0 && ps.last().doc == d {
            assert(posting_wf(ps.last()));
            assert(forall|l: int|
                0 <= l < ps.last().positions.len() ==> ps.last().positions[l] < pos);
            assert(posting_wf(merged.postings.last()));
            assert(merged.postings =~= ps.drop_last().push(merged.postings.last()));
            assert(plist_wf(merged.postings));
        } else {
            assert(plist_wf(merged.postings));
        }
        assert(entry_wf(merged));
        assert forall|j: int| 0 <= j < m.skip(1).len() implies lex_lt(
            merged.term,
            m.skip(1)[j].term,
        ) by {
            assert(m.skip(1)[j] == m[j + 1]);
        }
        assert(index_wf(r));
        assert(plist_of(r, term) == merged.postings);
        assert forall|t: Seq<u8>| t != term implies plist_of(r, t) == plist_of(m, t) by {
            assert(plist_of(r, t) == plist_of(m.skip(1), t));
            assert(plist_of(m, t) == plist_of(m.skip(1), t));
        }
        assert(doc_positions_below(r, d, (pos + 1) as u32)) by {
            assert forall|i: int, k: int, l: int|
                0 <= i < r.len() && 0 <= k < r[i].postings.len() && 0 <= l
                    < r[i].postings[k].positions.len() && r[i].postings[k].doc == d implies r[i]
                .postings[k].positions[l] < (pos + 1) as u32 by {
                if i == 0 {
                    assert(r[0] == merged);
                    if ps.len() > 0 && ps.last().doc == d {
                        if k < merged.postings.len() - 1 {
                            assert(merged.postings[k] == ps[k]);
                            assert(m[0].postings[k].positions[l] < pos);
                        } else {
                            let lastp = merged.postings[k];
                            assert(lastp.positions == ps.last().positions.push(pos));
                            if l < lastp.positions.len() - 1 {
                                assert(lastp.positions[l] == ps.last().positions[l]);
                                assert(m[0].postings[ps.len() - 1].positions[l] < pos);
                            } else {
                                assert(lastp.positions[l] == pos);
                            }
                        }
                    } else {
                        if k < merged.postings.len() - 1 {
                            assert(merged.postings[k] == ps[k]);
                            assert(m[0].postings[k].positions[l] < pos);
                        } else {
                            assert(merged.postings[k].positions[l] == pos);
                        }
                    }
                } else {
                    assert(r[i] == m[i]);
                }
            }
        }
    } else {
        lemma_lex_trichotomy(term, m[0].term);
        assert(lex_lt(m[0].term, term));
        let rec = add_token(m.skip(1), term, d, pos);
        assert(r =~= seq![m[0]] + rec);
        assert(r[0] == m[0]);
        assert(r.skip(1) =~= rec);
        assert(index_wf(m.skip(1))) by {
            assert(forall|i: int| 0 <= i < m.skip(1).len() ==> m.skip(1)[i] == m[i + 1]);
        }
        assert(docs_at_most(m.skip(1), d)) by {
            assert(forall|i: int| 0 <= i < m.skip(1).len() ==> m.skip(1)[i] == m[i + 1]);
        }
        assert(doc_positions_below(m.skip(1), d, pos)) by {
            assert(forall|i: int| 0 <= i < m.skip(1).len() ==> m.skip(1)[i] == m[i + 1]);
        }
        lemma_add_token(m.skip(1), term, d, pos);
        // The head stays strictly below every term that follows it.
        assert forall|j: int| 0 <= j < rec.len() implies lex_lt(m[0].term, (#[trigger] rec[j]).term) by {
            if rec[j].term == term {
            } else {
                let i = choose|i: int|
                    0 <= i < m.skip(1).len() && rec[j].term == (#[trigger] m.skip(1)[i]).term;
                assert(m.skip(1)[i] == m[i + 1]);
                assert(lex_lt(m[0].term, m[i + 1].term));
            }
        }
        assert(index_wf(r));
        assert(m[0].term != term) by {
            lemma_lex_trichotomy(term, m[0].term);
        }
        assert(plist_of(r, term) == plist_of(rec, term));
        assert(plist_of(m, term) == plist_of(m.skip(1), term));
        assert forall|t: Seq<u8>| t != term implies plist_of(r, t) == plist_of(m, t) by {
            if m[0].term == t {
            } else {
                assert(plist_of(r, t) == plist_of(rec, t));
                assert(plist_of(m, t) == plist_of(m.skip(1), t));
            }
        }
        assert forall|j: int|
            0 <= j < r.len() implies (#[trigger] r[j]).term == term || exists|i: int|
                0 <= i < m.len() && r[j].term == (#[trigger] m[i]).term by {
            if j == 0 {
                assert(r[0].term == m[0].term);
            } else if rec[j - 1].term != term {
                let i = choose|i: int|
                    0 <= i < m.skip(1).len() && rec[j - 1].term == (#[trigger] m.skip(1)[i]).term;
                assert(m.skip(1)[i] == m[i + 1]);
                assert(r[j].term == m[i + 1].term);
            }
        }
        assert(doc_positions_below(r, d, (pos + 1) as u32)) by {
            assert forall|i: int, k: int, l: int|
                0 <= i < r.len() && 0 <= k < r[i].postings.len() && 0 <= l
                    < r[i].postings[k].positions.len() && r[i].postings[k].doc == d implies r[i]
                .postings[k].positions[l] < (pos + 1) as u32 by {
                if i == 0 {
                    assert(r[0] == m[0]);
                    assert(m[0].postings[k].positions[l] < pos);
                } else {
                    assert(r[i] == rec[i - 1]);
                }
            }
        }
    }
}

/// The postings contributed by one document for one term: a single posting
/// carrying the occurrence offsets, or nothing when the term does not occur.
pub open spec fn occ_posting(d: u64, occ: Seq<u32>) -> Seq<PostingModel> {
    if occ.len() > 0 {
        seq![PostingModel { doc: d, positions: occ }]
    } else {
        Seq::empty()
    }
}

/// The postings an index holds all mention documents below `d` when the
/// whole index does.
pub proof fn lemma_plist_of_docs_below(m: Seq<EntryModel>, t: Seq<u8>, d: u64)
    requires
        docs_below(m, d),
    ensures
        plist_docs_below(plist_of(m, t), d),
    decreases m.len(),
{
    if m.len() > 0 {
        if m[0].term == t {
        } else {
            assert(forall|i: int| 0 <= i < m.skip(1).len() ==> m.skip(1)[i] == m[i + 1]);
            lemma_plist_of_docs_below(m.skip(1), t, d);
        }
    }
}

/// What recording one document's first `k` tokens does: each term's list
/// grows by that document's occurrence posting, and nothing else changes.
pub proof fn lemma_add_tokens_upto(m: Seq<EntryModel>, d: u64, toks: Seq<Seq<u8>>, k: int)
    requires
        index_wf(m),
        docs_below(m, d),
        toks.len() <= u32::MAX,
        0 <= k <= toks.len(),
        forall|j: int| 0 <= j < toks.len() ==> (#[trigger] toks[j]).len() >= 1,
    ensures
        index_wf(add_tokens_upto(m, d, toks, k)),
        docs_at_most(add_tokens_upto(m, d, toks, k), d),
        doc_positions_below(add_tokens_upto(m, d, toks, k), d, k as u32),
        forall|t: Seq<u8>|
            #[trigger] plist_of(add_tokens_upto(m, d, toks, k), t) == plist_of(m, t) + occ_posting(
                d,
                occ_upto(toks, k, t),
            ),
    decreases k,
{
    if k <= 0 {
        assert(doc_positions_below(m, d, 0));
        assert forall|t: Seq<u8>|
            #[trigger] plist_of(add_tokens_upto(m, d, toks, k), t) == plist_of(m, t) + occ_posting(
                d,
                occ_upto(toks, k, t),
            ) by {
            assert(plist_of(m, t) + Seq::<PostingModel>::empty() =~= plist_of(m, t));
        }
    } else {
        lemma_add_tokens_upto(m, d, toks, k - 1);
        let prev = add_tokens_upto(m, d, toks, k - 1);
        let term = toks[k - 1];
        let pos = (k - 1) as u32;
        assert(pos < u32::MAX);
        lemma_add_token(prev, term, d, pos);
        let cur = add_tokens_upto(m, d, toks, k);
        assert(cur == add_token(prev, term, d, pos));
        lemma_occ_upto_sorted(toks, k - 1, term);
        assert forall|t: Seq<u8>|
            #[trigger] plist_of(cur, t) == plist_of(m, t) + occ_posting(
                d,
                occ_upto(toks, k, t),
            ) by {
            if t == term {
                let base = plist_of(m, t);
                let occ = occ_upto(toks, k - 1, t);
                assert(plist_of(prev, t) == base + occ_posting(d, occ));
                lemma_plist_of_docs_below(m, t, d);
                if occ.len() == 0 {
                    assert(base + occ_posting(d, occ) =~= base);
                    if base.len() > 0 {
                        assert(base.last().doc < d);
                        assert(plist_add(base, d, pos) =~= base.push(
                            PostingModel { doc: d, positions: seq![pos] },
                        ));
                    }
                    assert(occ_upto(toks, k, t) =~= seq![pos]);
                    assert(plist_of(cur, t) =~= base + seq![
                        PostingModel { doc: d, positions: seq![pos] },
                    ]);
                } else {
                    let p = PostingModel { doc: d, positions: occ };
                    assert(plist_of(prev, t) =~= base.push(p));
                    assert(plist_of(prev, t).last() == p);
                    assert(plist_of(prev, t).drop_last() =~= base);
                    assert(occ_upto(toks, k, t) =~= occ.push(pos));
                    assert(plist_of(cur, t) =~= base + seq![
                        PostingModel { doc: d, positions: occ.push(pos) },
                    ]);
                }
            } else {
                assert(plist_of(cur, t) == plist_of(prev, t));
                assert(occ_upto(toks, k, t) == occ_upto(toks, k - 1, t));
            }
        }
    }
}

/// When the term already stands at `idx`, [`add_token`] updates that entry
/// in place.
pub proof fn lemma_add_token_at_found(
    m: Seq<EntryModel>,
    term: Seq<u8>,
    d: u64,
    pos: u32,
    idx: int,
)
    requires
        index_wf(m),
        0 <= idx < m.len(),
        m[idx].term == term,
        forall|j: int| 0 <= j < idx ==> lex_lt((#[trigger] m[j]).term, term),
    ensures
        add_token(m, term, d, pos) == m.update(
            idx,
            EntryModel { term: m[idx].term, postings: plist_add(m[idx].postings, d, pos) },
        ),
    decreases idx,
{
    if idx == 0 {
        lemma_lex_trichotomy(term, m[0].term);
        assert(add_token(m, term, d, pos) =~= m.update(
            0,
            EntryModel { term: m[0].term, postings: plist_add(m[0].postings, d, pos) },
        ));
    } else {
        lemma_lex_trichotomy(term, m[0].term);
        assert(index_wf(m.skip(1))) by {
            assert(forall|i: int| 0 <= i < m.skip(1).len() ==> m.skip(1)[i] == m[i + 1]);
        }
        assert(forall|i: int| 0 <= i < m.skip(1).len() ==> m.skip(1)[i] == m[i + 1]);
        lemma_add_token_at_found(m.skip(1), term, d, pos, idx - 1);
        assert(add_token(m, term, d, pos) =~= m.update(
            idx,
            EntryModel { term: m[idx].term, postings: plist_add(m[idx].postings, d, pos) },
        ));
    }
}

/// When the term is absent and belongs at `idx`, [`add_token`] inserts a
/// fresh entry there.
pub proof fn lemma_add_token_at_insert(
    m: Seq<EntryModel>,
    term: Seq<u8>,
    d: u64,
    pos: u32,
    idx: int,
)
    requires
        index_wf(m),
        0 <= idx <= m.len(),
        forall|j: int| 0 <= j < idx ==> lex_lt((#[trigger] m[j]).term, term),
        idx == m.len() || lex_lt(term, m[idx].term),
    ensures
        add_token(m, term, d, pos) == m.insert(
            idx,
            EntryModel {
                term: term,
                postings: seq![PostingModel { doc: d, positions: seq![pos] }],
            },
        ),
    decreases idx,
{
    let fresh = EntryModel {
        term: term,
        postings: seq![PostingModel { doc: d, positions: seq![pos] }],
    };
    if idx == 0 {
        if m.len() > 0 {
            lemma_lex_trichotomy(term, m[0].term);
        }
        assert(add_token(m, term, d, pos) =~= m.insert(0, fresh));
    } else {
        lemma_lex_trichotomy(term, m[0].term);
        assert(index_wf(m.skip(1))) by {
            assert(forall|i: int| 0 <= i < m.skip(1).len() ==> m.skip(1)[i] == m[i + 1]);
        }
        assert(forall|i: int| 0 <= i < m.skip(1).len() ==> m.skip(1)[i] == m[i + 1]);
        lemma_add_token_at_insert(m.skip(1), term, d, pos, idx - 1);
        assert(add_token(m, term, d, pos) =~= m.insert(idx, fresh));
    }
}

/// A posting that records a single occurrence.
fn singleton_posting(doc_id: u64, pos: u32) -> (p: Posting)
    ensures
        p.model() == (PostingModel { doc: doc_id, positions: seq![pos] }),
{
    let mut positions: Vec<u32> = Vec::new();
    positions.push(pos);
    proof {
        assert(positions@ =~= seq![pos]);
    }
    Posting { doc_id: doc_id, positions: positions }
}

/// The in-memory inverted index: entries sorted in byte-lexicographic term
/// order, each carrying its postings list.
#[derive(Debug, PartialEq, Eq)]
pub struct InMemoryIndex {
    pub entries: Vec<TermEntry>,
}

impl InMemoryIndex {
    /// The mathematical contents of the index.
    pub open spec fn model(self) -> Seq<EntryModel> {
        self.entries@.map_values(|e: TermEntry| e.model())
    }

    /// The sort and structure invariants of the index.
    pub open spec fn wf(self) -> bool {
        index_wf(self.model())
    }

    /// An empty index.
    pub fn new() -> (r: InMemoryIndex)
        ensures
            r.wf(),
            r.model() == Seq::<EntryModel>::empty(),
    {
        let r = InMemoryIndex { entries: Vec::new() };
        proof {
            assert(r.model() =~= Seq::<EntryModel>::empty());
        }
        r
    }

    /// Whether the index holds no term at all.
    pub fn is_empty(&self) -> (r: bool)
        ensures
            r == (self.model().len() == 0),
    {
        self.entries.len() == 0
    }

    /// Tokenizes a document and records every occurrence.  The document must
    /// be new: all documents already indexed lie strictly below `doc_id`.
    pub fn add_document(&mut self, doc_id: u64, text: &Vec<u8>)
        requires
            old(self).wf(),
            docs_below(old(self).model(), doc_id),
            text@.len() <= u32::MAX,
        ensures
            final(self).wf(),
            docs_at_most(final(self).model(), doc_id),
            final(self).model() == add_tokens_upto(
                old(self).model(),
                doc_id,
                spec_tokens(text@),
                spec_tokens(text@).len() as int,
            ),
            forall|t: Seq<u8>|
                #[trigger] plist_of(final(self).model(), t) == plist_of(old(self).model(), t)
                    + occ_posting(doc_id, occurrences(spec_tokens(text@), t)),
    {
        let ghost m0 = self.model();
        let mut toks = tokenize(text);
        let ghost tmodel = toks@.map_values(|v: Vec<u8>| v@);
        let total = toks.len();
        proof {
            lemma_tokens_bounds(text@);
            assert(tmodel.skip(0) =~= tmodel);
            assert(add_tokens_upto(m0, doc_id, tmodel, 0) == m0);
        }
        let mut j: usize = 0;
        while j < total
            invariant
                0 <= j <= total,
                total == tmodel.len(),
                total <= u32::MAX,
                toks@.map_values(|v: Vec<u8>| v@) == tmodel.skip(j as int),
                toks@.len() == total - j,
                index_wf(m0),
                docs_below(m0, doc_id),
                forall|l: int| 0 <= l < tmodel.len() ==> (#[trigger] tmodel[l]).len() >= 1,
                self.model() == add_tokens_upto(m0, doc_id, tmodel, j as int),
            decreases total - j,
        {
            proof {
                lemma_add_tokens_upto(m0, doc_id, tmodel, j as int);
            }
            let ghost cur_m = self.model();
            let ghost tv = toks@;
            let term = toks.remove(0);
            proof {
                assert(tv.map_values(|v: Vec<u8>| v@)[0] == tv[0]@);
                assert(term@ == tmodel.skip(j as int)[0]);
                assert(term@ == tmodel[j as int]);
                assert(toks@ =~= tv.skip(1));
                assert(toks@.map_values(|v: Vec<u8>| v@) =~= tmodel.skip(j + 1)) by {
                    assert forall|l: int| 0 <= l < toks@.len() implies toks@.map_values(
                        |v: Vec<u8>| v@,
                    )[l] == #[trigger] tmodel.skip(j + 1)[l] by {
                        assert(toks@[l] == tv[l + 1]);
                        assert(tv.map_values(|v: Vec<u8>| v@)[l + 1] == tv[l + 1]@);
                        assert(tmodel.skip(j as int)[l + 1] == tmodel[j + 1 + l]);
                        assert(tmodel.skip(j + 1)[l] == tmodel[j + 1 + l]);
                    }
                }
                assert(term@.len() >= 1);
            }
            let pos = j as u32;
            let n = self.entries.len();
            let mut i: usize = 0;
            while i < n && lex_cmp(&self.entries[i].term, &term) == TermCmp::Lt
                invariant
                    0 <= i <= n,
                    n == self.entries@.len(),
                    self.model() == cur_m,
                    forall|l: int| 0 <= l < i ==> lex_lt((#[trigger] cur_m[l]).term, term@),
                decreases n - i,
            {
                proof {
                    assert(cur_m[i as int] == self.entries@[i as int].model());
                }
                i = i + 1;
            }
            proof {
                assert(i < n ==> cur_m[i as int] == self.entries@[i as int].model());
            }
            let ghost cur_v = self.entries@;
            if i < n && lex_cmp(&self.entries[i].term, &term) == TermCmp::Eq {
                // The term is already present: extend its postings list.
                let mut e = self.entries.remove(i);
                let ghost eps = e.postings@.map_values(|q: Posting| q.model());
                proof {
                    assert(eps == cur_m[i as int].postings);
                }
                match e.postings.pop() {
                    Some(p) => {
                        let ghost rest = e.postings@.map_values(|q: Posting| q.model());
                        proof {
                            assert(rest =~= eps.drop_last());
                            assert(p.model() == eps.last());
                        }
                        let mut p = p;
                        if p.doc_id == doc_id {
                            p.positions.push(pos);
                            e.postings.push(p);
                            proof {
                                assert(e.postings@.map_values(|q: Posting| q.model())
                                    =~= plist_add(eps, doc_id, pos));
                            }
                        } else {
                            e.postings.push(p);
                            proof {
                                assert(e.postings@.map_values(|q: Posting| q.model()) =~= eps);
                            }
                            e.postings.push(singleton_posting(doc_id, pos));
                            proof {
                                assert(e.postings@.map_values(|q: Posting| q.model())
                                    =~= plist_add(eps, doc_id, pos));
                            }
                        }
                    },
                    None => {
                        e.postings.push(singleton_posting(doc_id, pos));
                        proof {
                            assert(eps =~= Seq::<PostingModel>::empty());
                            assert(e.postings@.map_values(|q: Posting| q.model()) =~= plist_add(
                                eps,
                                doc_id,
                                pos,
                            ));
                        }
                    },
                }
                proof {
                    assert(e.model() == EntryModel {
                        term: cur_m[i as int].term,
                        postings: plist_add(cur_m[i as int].postings, doc_id, pos),
                    });
                }
                self.entries.insert(i, e);
                proof {
                    lemma_add_token_at_found(cur_m, term@, doc_id, pos, i as int);
                    let tgt = cur_m.update(
                        i as int,
                        EntryModel {
                            term: cur_m[i as int].term,
                            postings: plist_add(cur_m[i as int].postings, doc_id, pos),
                        },
                    );
                    assert(self.entries@ =~= cur_v.update(i as int, e));
                    assert forall|l: int| 0 <= l < self.model().len() implies #[trigger] self.model()[l]
                        == tgt[l] by {
                        assert(self.model()[l] == self.entries@[l].model());
                        if l != i {
                            assert(self.entries@[l] == cur_v[l]);
                            assert(cur_m[l] == cur_v[l].model());
                        }
                    }
                    assert(self.model() =~= tgt);
                }
            } else {
                // The term is new: insert a fresh entry at its sorted place.
                proof {
                    if i < n {
                        assert(lex_lt(term@, cur_m[i as int].term));
                    }
                }
                let mut fresh_postings: Vec<Posting> = Vec::new();
                fresh_postings.push(singleton_posting(doc_id, pos));
                let fresh_entry = TermEntry { term: term, postings: fresh_postings };
                let ghost fresh_model = fresh_entry.model();
                proof {
                    assert(fresh_model.postings =~= seq![
                        PostingModel { doc: doc_id, positions: seq![pos] },
                    ]);
                }
                self.entries.insert(i, fresh_entry);
                proof {
                    lemma_add_token_at_insert(cur_m, term@, doc_id, pos, i as int);
                    let tgt = cur_m.insert(
                        i as int,
                        EntryModel {
                            term: term@,
                            postings: seq![PostingModel { doc: doc_id, positions: seq![pos] }],
                        },
                    );
                    assert forall|l: int| 0 <= l < self.model().len() implies #[trigger] self.model()[l]
                        == tgt[l] by {
                        assert(self.model()[l] == self.entries@[l].model());
                        if l < i {
                            assert(self.entries@[l] == cur_v[l]);
                            assert(cur_m[l] == cur_v[l].model());
                        } else if l == i {
                            assert(self.entries@[l] == fresh_entry);
                        } else {
                            assert(self.entries@[l] == cur_v[l - 1]);
                            assert(cur_m[l - 1] == cur_v[l - 1].model());
                        }
                    }
                    assert(self.model() =~= tgt);
                }
            }
            proof {
                assert(tmodel.skip(j as int).skip(1) =~= tmodel.skip(j + 1));
                assert(self.model() == add_tokens_upto(m0, doc_id, tmodel, j + 1));
            }
            j = j + 1;
        }
        proof {
            lemma_add_tokens_upto(m0, doc_id, tmodel, total as int);
        }
    }

    /// Folds `other` into `self`: the term-sorted union of the two indexes,
    /// with the postings lists of shared terms united in document order.
    /// [`lemma_merge_entries`] states what the union holds per term.
    pub fn merge(&mut self, other: InMemoryIndex)
        requires
            old(self).wf(),
            other.wf(),
        ensures
            final(self).wf(),
            final(self).model() == merge_entries(old(self).model(), other.model()),
    {
        let ghost am = self.model();
        let ghost bm = other.model();
        let mut a: Vec<TermEntry> = Vec::new();
        core::mem::swap(&mut a, &mut self.entries);
        let other = other;
        let b = other.entries;
        proof {
            assert(emodels(a@) == am);
            assert(emodels(b@) == bm);
        }
        let mut xs = drain_to_stack(a);
        let mut ys = drain_to_stack(b);
        proof {
            assert(emodels(xs@).reverse() =~= am) by {
                assert forall|l: int| 0 <= l < am.len() implies #[trigger] emodels(
                    xs@,
                ).reverse()[l] == am[l] by {
                    assert(emodels(xs@).reverse()[l] == emodels(xs@)[xs@.len() - 1 - l]);
                }
            }
            assert(emodels(ys@).reverse() =~= bm) by {
                assert forall|l: int| 0 <= l < bm.len() implies #[trigger] emodels(
                    ys@,
                ).reverse()[l] == bm[l] by {
                    assert(emodels(ys@).reverse()[l] == emodels(ys@)[ys@.len() - 1 - l]);
                }
            }
        }
        let mut r: Vec<TermEntry> = Vec::new();
        proof {
            assert(emodels(r@) =~= Seq::<EntryModel>::empty());
            assert(Seq::<EntryModel>::empty() + merge_entries(am, bm) =~= merge_entries(am, bm));
        }
        while xs.len() > 0 && ys.len() > 0
            invariant
                merge_entries(am, bm) == emodels(r@) + merge_entries(
                    emodels(xs@).reverse(),
                    emodels(ys@).reverse(),
                ),
            decreases xs@.len() + ys@.len(),
        {
            let ghost xv = xs@;
            let ghost yv = ys@;
            let ghost xrem = emodels(xv).reverse();
            let ghost yrem = emodels(yv).reverse();
            proof {
                lemma_stack_top_entry(xv);
                lemma_stack_top_entry(yv);
                assert(xrem[0] == xv.last().model());
                assert(yrem[0] == yv.last().model());
            }
            let cmp = lex_cmp(&xs[xs.len() - 1].term, &ys[ys.len() - 1].term);
            proof {
                assert(xrem[0].term == xv.last().term@);
                assert(yrem[0].term == yv.last().term@);
            }
            match cmp {
                TermCmp::Lt => {
                    let e = match xs.pop() {
                        Some(e) => e,
                        None => {
                            proof {
                                assert(false);
                            }
                            unreached()
                        },
                    };
                    proof {
                        assert(merge_entries(xrem, yrem) == seq![xrem[0]] + merge_entries(
                            xrem.skip(1),
                            yrem,
                        ));
                        assert(emodels(r@.push(e)) =~= emodels(r@).push(e.model()));
                        assert(emodels(r@).push(e.model()) + merge_entries(xrem.skip(1), yrem)
                            =~= emodels(r@) + (seq![xrem[0]] + merge_entries(
                            xrem.skip(1),
                            yrem,
                        )));
                    }
                    r.push(e);
                },
                TermCmp::Gt => {
                    let e = match ys.pop() {
                        Some(e) => e,
                        None => {
                            proof {
                                assert(false);
                            }
                            unreached()
                        },
                    };
                    proof {
                        assert(merge_entries(xrem, yrem) == seq![yrem[0]] + merge_entries(
                            xrem,
                            yrem.skip(1),
                        ));
                        assert(emodels(r@.push(e)) =~= emodels(r@).push(e.model()));
                        assert(emodels(r@).push(e.model()) + merge_entries(xrem, yrem.skip(1))
                            =~= emodels(r@) + (seq![yrem[0]] + merge_entries(
                            xrem,
                            yrem.skip(1),
                        )));
                    }
                    r.push(e);
                },
                TermCmp::Eq => {
                    let ex = match xs.pop() {
                        Some(e) => e,
                        None => {
                            proof {
                                assert(false);
                            }
                            unreached()
                        },
                    };
                    let ey = match ys.pop() {
                        Some(e) => e,
                        None => {
                            proof {
                                assert(false);
                            }
                            unreached()
                        },
                    };
                    proof {
                        crate::order::lemma_lex_trichotomy(xrem[0].term, yrem[0].term);
                    }
                    let postings = merge_posting_lists(ex.postings, ey.postings);
                    let merged = TermEntry { term: ex.term, postings: postings };
                    proof {
                        assert(merged.model() == (EntryModel {
                            term: xrem[0].term,
                            postings: merge_plists(xrem[0].postings, yrem[0].postings),
                        }));
                        assert(merge_entries(xrem, yrem) == seq![merged.model()] + merge_entries(
                            xrem.skip(1),
                            yrem.skip(1),
                        ));
                        assert(emodels(r@.push(merged)) =~= emodels(r@).push(merged.model()));
                        assert(emodels(r@).push(merged.model()) + merge_entries(
                            xrem.skip(1),
                            yrem.skip(1),
                        ) =~= emodels(r@) + (seq![merged.model()] + merge_entries(
                            xrem.skip(1),
                            yrem.skip(1),
                        )));
                    }
                    r.push(merged);
                },
            }
        }
        while xs.len() > 0
            invariant
                xs@.len() == 0 || ys@.len() == 0,
                merge_entries(am, bm) == emodels(r@) + merge_entries(
                    emodels(xs@).reverse(),
                    emodels(ys@).reverse(),
                ),
            decreases xs@.len(),
        {
            let ghost xv = xs@;
            let ghost xrem = emodels(xv).reverse();
            proof {
                lemma_stack_top_entry(xv);
                assert(emodels(ys@).reverse().len() == 0);
                assert(merge_entries(xrem, emodels(ys@).reverse()) == xrem);
                assert(merge_entries(xrem.skip(1), emodels(ys@).reverse()) == xrem.skip(1));
            }
            let e = match xs.pop() {
                Some(e) => e,
                None => {
                    proof {
                        assert(false);
                    }
                    unreached()
                },
            };
            proof {
                assert(xrem =~= seq![xrem[0]] + xrem.skip(1));
                assert(emodels(r@.push(e)) =~= emodels(r@).push(e.model()));
                assert(emodels(r@).push(e.model()) + xrem.skip(1) =~= emodels(r@) + (
                seq![xrem[0]] + xrem.skip(1)));
            }
            r.push(e);
        }
        while ys.len() > 0
            invariant
                xs@.len() == 0,
                merge_entries(am, bm) == emodels(r@) + merge_entries(
                    emodels(xs@).reverse(),
                    emodels(ys@).reverse(),
                ),
            decreases ys@.len(),
        {
            let ghost yv = ys@;
            let ghost yrem = emodels(yv).reverse();
            proof {
                lemma_stack_top_entry(yv);
                assert(emodels(xs@).reverse().len() == 0);
                assert(merge_entries(emodels(xs@).reverse(), yrem) == yrem);
                assert(merge_entries(emodels(xs@).reverse(), yrem.skip(1)) == yrem.skip(1));
            }
            let e = match ys.pop() {
                Some(e) => e,
                None => {
                    proof {
                        assert(false);
                    }
                    unreached()
                },
            };
            proof {
                assert(yrem =~= seq![yrem[0]] + yrem.skip(1));
                assert(emodels(r@.push(e)) =~= emodels(r@).push(e.model()));
                assert(emodels(r@).push(e.model()) + yrem.skip(1) =~= emodels(r@) + (
                seq![yrem[0]] + yrem.skip(1)));
            }
            r.push(e);
        }
        proof {
            assert(emodels(xs@).reverse().len() == 0);
            assert(emodels(ys@).reverse().len() == 0);
            assert(merge_entries(emodels(xs@).reverse(), emodels(ys@).reverse()).len() == 0);
            assert(emodels(r@) + merge_entries(emodels(xs@).reverse(), emodels(ys@).reverse())
                =~= emodels(r@));
        }
        self.entries = r;
        proof {
            lemma_merge_entries(am, bm);
        }
    }

    /// Builds the index of one document: every term maps to a single posting
    /// with that document's occurrence offsets.
    pub fn from_single_document(doc_id: u64, text: &Vec<u8>) -> (r: InMemoryIndex)
        requires
            text@.len() <= u32::MAX,
        ensures
            r.wf(),
            docs_at_most(r.model(), doc_id),
            forall|t: Seq<u8>|
                #[trigger] plist_of(r.model(), t) == occ_posting(
                    doc_id,
                    occurrences(spec_tokens(text@), t),
                ),
    {
        let mut ix = InMemoryIndex::new();
        ix.add_document(doc_id, text);
        proof {
            assert forall|t: Seq<u8>|
                #[trigger] plist_of(ix.model(), t) == occ_posting(
                    doc_id,
                    occurrences(spec_tokens(text@), t),
                ) by {
                assert(Seq::<PostingModel>::empty() + occ_posting(
                    doc_id,
                    occurrences(spec_tokens(text@), t),
                ) =~= occ_posting(doc_id, occurrences(spec_tokens(text@), t)));
            }
        }
        ix
    }
}

// ---------------------------------------------------------------------------
// Merging two indexes
// ---------------------------------------------------------------------------

/// Strictly ascending offsets.
pub open spec fn pos_sorted(s: Seq<u32>) -> bool {
    forall|i: int, j: int| 0 <= i < j < s.len() ==> s[i] < s[j]
}

/// Some posting of the list mentions document `d`.
pub open spec fn plist_has_doc(ps: Seq<PostingModel>, d: u64) -> bool {
    exists|k: int| 0 <= k < ps.len() && (#[trigger] ps[k]).doc == d
}

/// Some entry of the index carries `t`.
pub open spec fn has_term(m: Seq<EntryModel>, t: Seq<u8>) -> bool {
    exists|i: int| 0 <= i < m.len() && (#[trigger] m[i]).term == t
}

/// Sorted union of two ascending offset lists, without duplicates.
pub open spec fn merge_positions(a: Seq<u32>, b: Seq<u32>) -> Seq<u32>
    decreases a.len() + b.len(),
{
    if a.len() == 0 {
        b
    } else if b.len() == 0 {
        a
    } else if a[0] < b[0] {
        seq![a[0]] + merge_positions(a.skip(1), b)
    } else if b[0] < a[0] {
        seq![b[0]] + merge_positions(a, b.skip(1))
    } else {
        seq![a[0]] + merge_positions(a.skip(1), b.skip(1))
    }
}

/// Document-sorted union of two postings lists; postings of a document both
/// sides mention have their offset lists united.
pub open spec fn merge_plists(x: Seq<PostingModel>, y: Seq<PostingModel>) -> Seq<PostingModel>
    decreases x.len() + y.len(),
{
    if x.len() == 0 {
        y
    } else if y.len() == 0 {
        x
    } else if x[0].doc < y[0].doc {
        seq![x[0]] + merge_plists(x.skip(1), y)
    } else if y[0].doc < x[0].doc {
        seq![y[0]] + merge_plists(x, y.skip(1))
    } else {
        seq![
            PostingModel {
                doc: x[0].doc,
                positions: merge_positions(x[0].positions, y[0].positions),
            },
        ] + merge_plists(x.skip(1), y.skip(1))
    }
}

/// Term-sorted union of two indexes; entries both sides carry have their
/// postings lists merged.
pub open spec fn merge_entries(a: Seq<EntryModel>, b: Seq<EntryModel>) -> Seq<EntryModel>
    decreases a.len() + b.len(),
{
    if a.len() == 0 {
        b
    } else if b.len() == 0 {
        a
    } else if lex_lt(a[0].term, b[0].term) {
        seq![a[0]] + merge_entries(a.skip(1), b)
    } else if lex_lt(b[0].term, a[0].term) {
        seq![b[0]] + merge_entries(a, b.skip(1))
    } else {
        seq![
            EntryModel {
                term: a[0].term,
                postings: merge_plists(a[0].postings, b[0].postings),
            },
        ] + merge_entries(a.skip(1), b.skip(1))
    }
}

/// The union of two ascending offset lists ascends, loses no offset and
/// invents none.
pub proof fn lemma_merge_positions(a: Seq<u32>, b: Seq<u32>)
    requires
        pos_sorted(a),
        pos_sorted(b),
    ensures
        pos_sorted(merge_positions(a, b)),
        merge_positions(a, b).len() >= a.len(),
        merge_positions(a, b).len() >= b.len(),
        forall|v: u32| merge_positions(a, b).contains(v) <==> a.contains(v) || b.contains(v),
    decreases a.len() + b.len(),
{
    let r = merge_positions(a, b);
    if a.len() == 0 || b.len() == 0 {
    } else {
        assert(pos_sorted(a.skip(1)));
        assert(pos_sorted(b.skip(1)));
        if a[0] < b[0] {
            let rec = merge_positions(a.skip(1), b);
            lemma_merge_positions(a.skip(1), b);
            assert(r =~= seq![a[0]] + rec);
            lemma_merge_cons_u32(a[0], rec, a, b);
        } else if b[0] < a[0] {
            let rec = merge_positions(a, b.skip(1));
            lemma_merge_positions(a, b.skip(1));
            assert(r =~= seq![b[0]] + rec);
            lemma_merge_cons_u32(b[0], rec, b, a);
        } else {
            let rec = merge_positions(a.skip(1), b.skip(1));
            lemma_merge_positions(a.skip(1), b.skip(1));
            assert(r =~= seq![a[0]] + rec);
            // Every element of rec comes from a tail, so lies above a[0].
            assert forall|l: int| 0 <= l < rec.len() implies a[0] < #[trigger] rec[l] by {
                assert(rec.contains(rec[l]));
                if a.skip(1).contains(rec[l]) {
                    let k = choose|k: int| 0 <= k < a.skip(1).len() && a.skip(1)[k] == rec[l];
                    assert(a[k + 1] == rec[l]);
                } else {
                    let k = choose|k: int| 0 <= k < b.skip(1).len() && b.skip(1)[k] == rec[l];
                    assert(b[k + 1] == rec[l]);
                }
            }
            assert(pos_sorted(r)) by {
                assert(forall|l: int| 0 <= l < rec.len() ==> r[l + 1] == rec[l]);
            }
            assert forall|v: u32| r.contains(v) <==> a.contains(v) || b.contains(v) by {
                lemma_cons_contains_u32(a[0], rec, v);
                lemma_skip1_contains_u32(a, v);
                lemma_skip1_contains_u32(b, v);
            }
        }
    }
}

/// Membership in a list with one element put in front.
proof fn lemma_cons_contains_u32(x: u32, s: Seq<u32>, v: u32)
    ensures
        (seq![x] + s).contains(v) <==> v == x || s.contains(v),
{
    let c = seq![x] + s;
    if c.contains(v) {
        let i = choose|i: int| 0 <= i < c.len() && c[i] == v;
        if i == 0 {
            assert(v == x);
        } else {
            assert(s[i - 1] == v);
            assert(s.contains(v));
        }
    }
    if v == x {
        assert(c[0] == v);
        assert(c.contains(v));
    }
    if s.contains(v) {
        let i = choose|i: int| 0 <= i < s.len() && s[i] == v;
        assert(c[i + 1] == v);
        assert(c.contains(v));
    }
}

/// Membership in a non-empty list, split into head and tail.
proof fn lemma_skip1_contains_u32(s: Seq<u32>, v: u32)
    requires
        s.len() > 0,
    ensures
        s.contains(v) <==> v == s[0] || s.skip(1).contains(v),
{
    assert(s =~= seq![s[0]] + s.skip(1));
    lemma_cons_contains_u32(s[0], s.skip(1), v);
}

/// A sorted-union step: putting the strictly smallest head in front keeps
/// the outcome sorted and its membership exact.
proof fn lemma_merge_cons_u32(h: u32, rec: Seq<u32>, src: Seq<u32>, other: Seq<u32>)
    requires
        pos_sorted(src),
        pos_sorted(other),
        src.len() > 0,
        other.len() > 0,
        h == src[0],
        h < other[0],
        pos_sorted(rec),
        forall|v: u32| rec.contains(v) <==> src.skip(1).contains(v) || other.contains(v),
    ensures
        pos_sorted(seq![h] + rec),
        forall|v: u32| (seq![h] + rec).contains(v) <==> src.contains(v) || other.contains(v),
{
    let r = seq![h] + rec;
    assert forall|l: int| 0 <= l < rec.len() implies h < #[trigger] rec[l] by {
        assert(rec.contains(rec[l]));
        if src.skip(1).contains(rec[l]) {
            let k = choose|k: int| 0 <= k < src.skip(1).len() && src.skip(1)[k] == rec[l];
            assert(src[k + 1] == rec[l]);
        } else {
            let k = choose|k: int| 0 <= k < other.len() && other[k] == rec[l];
            if k > 0 {
                assert(other[0] < other[k]);
            }
        }
    }
    assert(pos_sorted(r)) by {
        assert(forall|l: int| 0 <= l < rec.len() ==> r[l + 1] == rec[l]);
    }
    assert forall|v: u32| r.contains(v) <==> src.contains(v) || other.contains(v) by {
        lemma_cons_contains_u32(h, rec, v);
        lemma_skip1_contains_u32(src, v);
    }
}

/// The sorted union of offsets does not depend on the order of its sides.
pub proof fn lemma_merge_positions_comm(a: Seq<u32>, b: Seq<u32>)
    ensures
        merge_positions(a, b) == merge_positions(b, a),
    decreases a.len() + b.len(),
{
    if a.len() == 0 && b.len() == 0 {
        assert(merge_positions(a, b) =~= merge_positions(b, a));
    } else if a.len() == 0 || b.len() == 0 {
    } else if a[0] < b[0] {
        lemma_merge_positions_comm(a.skip(1), b);
    } else if b[0] < a[0] {
        lemma_merge_positions_comm(a, b.skip(1));
    } else {
        lemma_merge_positions_comm(a.skip(1), b.skip(1));
    }
}

/// A document absent from every posting has no positions.
pub proof fn lemma_positions_of_absent(ps: Seq<PostingModel>, d: u64)
    requires
        forall|k: int| 0 <= k < ps.len() ==> (#[trigger] ps[k]).doc != d,
    ensures
        positions_of(ps, d) == Seq::<u32>::empty(),
    decreases ps.len(),
{
    if ps.len() > 0 {
        assert(forall|k: int| 0 <= k < ps.skip(1).len() ==> ps.skip(1)[k] == ps[k + 1]);
        lemma_positions_of_absent(ps.skip(1), d);
    }
}

/// The document-sorted union of two postings lists keeps every invariant,
/// and per document its offsets are exactly the union of both sides'
/// offsets — intact when only one side mentions the document.
pub proof fn lemma_merge_plists(x: Seq<PostingModel>, y: Seq<PostingModel>)
    requires
        plist_wf(x),
        plist_wf(y),
    ensures
        plist_wf(merge_plists(x, y)),
        merge_plists(x, y).len() >= x.len(),
        merge_plists(x, y).len() >= y.len(),
        forall|d: u64|
            #[trigger] positions_of(merge_plists(x, y), d) == merge_positions(
                positions_of(x, d),
                positions_of(y, d),
            ),
        forall|k: int|
            0 <= k < merge_plists(x, y).len() ==> plist_has_doc(
                x,
                (#[trigger] merge_plists(x, y)[k]).doc,
            ) || plist_has_doc(y, merge_plists(x, y)[k].doc),
    decreases x.len() + y.len(),
{
    let r = merge_plists(x, y);
    if x.len() == 0 {
        assert forall|d: u64|
            #[trigger] positions_of(r, d) == merge_positions(
                positions_of(x, d),
                positions_of(y, d),
            ) by {
            assert(positions_of(x, d) == Seq::<u32>::empty());
        }
        assert forall|k: int| 0 <= k < r.len() implies plist_has_doc(
            x,
            (#[trigger] r[k]).doc,
        ) || plist_has_doc(y, r[k].doc) by {
            assert(y[k].doc == r[k].doc);
        }
    } else if y.len() == 0 {
        assert forall|d: u64|
            #[trigger] positions_of(r, d) == merge_positions(
                positions_of(x, d),
                positions_of(y, d),
            ) by {
            assert(positions_of(y, d) == Seq::<u32>::empty());
            if positions_of(x, d).len() == 0 {
                assert(merge_positions(positions_of(x, d), positions_of(y, d)) == positions_of(
                    y,
                    d,
                ));
                assert(positions_of(x, d) =~= positions_of(y, d));
            }
        }
        assert forall|k: int| 0 <= k < r.len() implies plist_has_doc(
            x,
            (#[trigger] r[k]).doc,
        ) || plist_has_doc(y, r[k].doc) by {
            assert(x[k].doc == r[k].doc);
        }
    } else {
        assert(plist_wf(x.skip(1))) by {
            assert(forall|k: int| 0 <= k < x.skip(1).len() ==> x.skip(1)[k] == x[k + 1]);
        }
        assert(plist_wf(y.skip(1))) by {
            assert(forall|k: int| 0 <= k < y.skip(1).len() ==> y.skip(1)[k] == y[k + 1]);
        }
        assert(forall|k: int| 0 <= k < x.skip(1).len() ==> x.skip(1)[k] == x[k + 1]);
        assert(forall|k: int| 0 <= k < y.skip(1).len() ==> y.skip(1)[k] == y[k + 1]);
        if x[0].doc < y[0].doc {
            lemma_merge_plists(x.skip(1), y);
            let rec = merge_plists(x.skip(1), y);
            assert(r =~= seq![x[0]] + rec);
            lemma_merge_plists_cons(x[0], rec, x, y, r);
        } else if y[0].doc < x[0].doc {
            lemma_merge_plists(x, y.skip(1));
            let rec = merge_plists(x, y.skip(1));
            assert(r =~= seq![y[0]] + rec);
            // Restate the recursive union with the two sides exchanged.
            assert forall|d: u64|
                #[trigger] positions_of(rec, d) == merge_positions(
                    positions_of(y.skip(1), d),
                    positions_of(x, d),
                ) by {
                lemma_merge_positions_comm(positions_of(x, d), positions_of(y.skip(1), d));
            }
            lemma_merge_plists_cons(y[0], rec, y, x, r);
            assert forall|d: u64|
                #[trigger] positions_of(r, d) == merge_positions(
                    positions_of(x, d),
                    positions_of(y, d),
                ) by {
                lemma_merge_positions_comm(positions_of(x, d), positions_of(y, d));
            }
        } else {
            lemma_merge_plists(x.skip(1), y.skip(1));
            let rec = merge_plists(x.skip(1), y.skip(1));
            assert(posting_wf(x[0]));
            assert(posting_wf(y[0]));
            lemma_merge_positions(x[0].positions, y[0].positions);
            let merged = PostingModel {
                doc: x[0].doc,
                positions: merge_positions(x[0].positions, y[0].positions),
            };
            assert(r =~= seq![merged] + rec);
            assert(r[0] == merged);
            assert(r.skip(1) =~= rec);
            assert(posting_wf(merged));
            assert forall|l: int| 0 <= l < rec.len() implies merged.doc < (#[trigger] rec[l]).doc by {
                if plist_has_doc(x.skip(1), rec[l].doc) {
                    let k = choose|k: int|
                        0 <= k < x.skip(1).len() && (#[trigger] x.skip(1)[k]).doc == rec[l].doc;
                } else {
                    let k = choose|k: int|
                        0 <= k < y.skip(1).len() && (#[trigger] y.skip(1)[k]).doc == rec[l].doc;
                }
            }
            assert(plist_wf(r)) by {
                assert(forall|l: int| 0 <= l < rec.len() ==> r[l + 1] == rec[l]);
            }
            assert forall|d: u64|
                #[trigger] positions_of(r, d) == merge_positions(
                    positions_of(x, d),
                    positions_of(y, d),
                ) by {
                if d == x[0].doc {
                    assert(positions_of(r, d) == merged.positions);
                } else {
                    assert(positions_of(r, d) == positions_of(rec, d));
                }
            }
            assert forall|k: int| 0 <= k < r.len() implies plist_has_doc(
                x,
                (#[trigger] r[k]).doc,
            ) || plist_has_doc(y, r[k].doc) by {
                if k == 0 {
                    assert(x[0].doc == r[0].doc);
                } else {
                    if plist_has_doc(x.skip(1), rec[k - 1].doc) {
                        let l = choose|l: int|
                            0 <= l < x.skip(1).len() && (#[trigger] x.skip(1)[l]).doc == rec[k
                                - 1].doc;
                        assert(x[l + 1].doc == r[k].doc);
                    } else {
                        let l = choose|l: int|
                            0 <= l < y.skip(1).len() && (#[trigger] y.skip(1)[l]).doc == rec[k
                                - 1].doc;
                        assert(y[l + 1].doc == r[k].doc);
                    }
                }
            }
        }
    }
}

/// One sorted-union step at the postings level: the strictly smaller head
/// goes in front.
proof fn lemma_merge_plists_cons(
    h: PostingModel,
    rec: Seq<PostingModel>,
    src: Seq<PostingModel>,
    other: Seq<PostingModel>,
    r: Seq<PostingModel>,
)
    requires
        plist_wf(src),
        plist_wf(other),
        src.len() > 0,
        other.len() > 0,
        h == src[0],
        h.doc < other[0].doc,
        plist_wf(rec),
        r == seq![h] + rec,
        forall|d: u64|
            #[trigger] positions_of(rec, d) == merge_positions(
                positions_of(src.skip(1), d),
                positions_of(other, d),
            ),
        forall|k: int|
            0 <= k < rec.len() ==> plist_has_doc(src.skip(1), (#[trigger] rec[k]).doc)
                || plist_has_doc(other, rec[k].doc),
    ensures
        plist_wf(r),
        forall|d: u64|
            #[trigger] positions_of(r, d) == merge_positions(
                positions_of(src, d),
                positions_of(other, d),
            ),
        forall|k: int|
            0 <= k < r.len() ==> plist_has_doc(src, (#[trigger] r[k]).doc) || plist_has_doc(
                other,
                r[k].doc,
            ),
{
    assert(r[0] == h);
    assert(r.skip(1) =~= rec);
    assert(forall|k: int| 0 <= k < src.skip(1).len() ==> src.skip(1)[k] == src[k + 1]);
    assert forall|l: int| 0 <= l < rec.len() implies h.doc < (#[trigger] rec[l]).doc by {
        if plist_has_doc(src.skip(1), rec[l].doc) {
            let k = choose|k: int|
                0 <= k < src.skip(1).len() && (#[trigger] src.skip(1)[k]).doc == rec[l].doc;
        } else {
            let k = choose|k: int| 0 <= k < other.len() && (#[trigger] other[k]).doc == rec[l].doc;
            if k > 0 {
                assert(other[0].doc < other[k].doc);
            }
        }
    }
    assert(plist_wf(r)) by {
        assert(forall|l: int| 0 <= l < rec.len() ==> r[l + 1] == rec[l]);
        assert(r[0] == h);
    }
    assert forall|d: u64|
        #[trigger] positions_of(r, d) == merge_positions(
            positions_of(src, d),
            positions_of(other, d),
        ) by {
        if d == h.doc {
            assert(positions_of(r, d) == h.positions);
            assert(positions_of(src, d) == h.positions);
            assert forall|k: int| 0 <= k < other.len() implies (#[trigger] other[k]).doc != d by {
                if k > 0 {
                    assert(other[0].doc < other[k].doc);
                }
            }
            lemma_positions_of_absent(other, d);
            assert(merge_positions(h.positions, Seq::<u32>::empty()) == h.positions);
        } else {
            assert(positions_of(r, d) == positions_of(rec, d));
            assert(positions_of(src, d) == positions_of(src.skip(1), d));
        }
    }
    assert forall|k: int| 0 <= k < r.len() implies plist_has_doc(
        src,
        (#[trigger] r[k]).doc,
    ) || plist_has_doc(other, r[k].doc) by {
        if k == 0 {
            assert(src[0].doc == r[0].doc);
        } else if plist_has_doc(src.skip(1), rec[k - 1].doc) {
            let l = choose|l: int|
                0 <= l < src.skip(1).len() && (#[trigger] src.skip(1)[l]).doc == rec[k - 1].doc;
            assert(src[l + 1].doc == r[k].doc);
        }
    }
}

/// The term-sorted union of two indexes keeps every invariant, and per
/// term its postings list is exactly the document-sorted union of both
/// sides' lists.  This is the merge law: no term and no posting is lost or
/// invented, and postings lists of documents only one side mentions carry
/// over intact.
pub proof fn lemma_merge_entries(a: Seq<EntryModel>, b: Seq<EntryModel>)
    requires
        index_wf(a),
        index_wf(b),
    ensures
        index_wf(merge_entries(a, b)),
        forall|t: Seq<u8>|
            #[trigger] plist_of(merge_entries(a, b), t) == merge_plists(
                plist_of(a, t),
                plist_of(b, t),
            ),
        forall|j: int|
            0 <= j < merge_entries(a, b).len() ==> has_term(
                a,
                (#[trigger] merge_entries(a, b)[j]).term,
            ) || has_term(b, merge_entries(a, b)[j].term),
    decreases a.len() + b.len(),
{
    let r = merge_entries(a, b);
    if a.len() == 0 {
        assert forall|t: Seq<u8>|
            #[trigger] plist_of(r, t) == merge_plists(plist_of(a, t), plist_of(b, t)) by {
            assert(plist_of(a, t) == Seq::<PostingModel>::empty());
            if plist_of(b, t).len() == 0 {
                assert(plist_of(a, t) =~= plist_of(b, t));
            }
        }
        assert forall|j: int| 0 <= j < r.len() implies has_term(
            a,
            (#[trigger] r[j]).term,
        ) || has_term(b, r[j].term) by {
            assert(b[j].term == r[j].term);
        }
    } else if b.len() == 0 {
        assert forall|t: Seq<u8>|
            #[trigger] plist_of(r, t) == merge_plists(plist_of(a, t), plist_of(b, t)) by {
            assert(plist_of(b, t) == Seq::<PostingModel>::empty());
            if plist_of(a, t).len() == 0 {
                assert(plist_of(a, t) =~= plist_of(b, t));
            }
        }
        assert forall|j: int| 0 <= j < r.len() implies has_term(
            a,
            (#[trigger] r[j]).term,
        ) || has_term(b, r[j].term) by {
            assert(a[j].term == r[j].term);
        }
    } else {
        assert(index_wf(a.skip(1))) by {
            assert(forall|i: int| 0 <= i < a.skip(1).len() ==> a.skip(1)[i] == a[i + 1]);
        }
        assert(index_wf(b.skip(1))) by {
            assert(forall|i: int| 0 <= i < b.skip(1).len() ==> b.skip(1)[i] == b[i + 1]);
        }
        assert(forall|i: int| 0 <= i < a.skip(1).len() ==> a.skip(1)[i] == a[i + 1]);
        assert(forall|i: int| 0 <= i < b.skip(1).len() ==> b.skip(1)[i] == b[i + 1]);
        lemma_lex_trichotomy(a[0].term, b[0].term);
        if lex_lt(a[0].term, b[0].term) {
            lemma_merge_entries(a.skip(1), b);
            let rec = merge_entries(a.skip(1), b);
            assert(r =~= seq![a[0]] + rec);
            lemma_merge_entries_cons(a[0], rec, a, b, r);
        } else if lex_lt(b[0].term, a[0].term) {
            lemma_merge_entries(a, b.skip(1));
            let rec = merge_entries(a, b.skip(1));
            assert(r =~= seq![b[0]] + rec);
            assert forall|t: Seq<u8>|
                #[trigger] plist_of(rec, t) == merge_plists(
                    plist_of(b.skip(1), t),
                    plist_of(a, t),
                ) by {
                lemma_merge_plists_of_wf_comm(a, b.skip(1), t);
            }
            lemma_merge_entries_cons(b[0], rec, b, a, r);
            assert forall|t: Seq<u8>|
                #[trigger] plist_of(r, t) == merge_plists(plist_of(a, t), plist_of(b, t)) by {
                lemma_merge_plists_of_wf_comm(a, b, t);
            }
        } else {
            assert(a[0].term == b[0].term);
            lemma_merge_entries(a.skip(1), b.skip(1));
            let rec = merge_entries(a.skip(1), b.skip(1));
            assert(entry_wf(a[0]));
            assert(entry_wf(b[0]));
            lemma_merge_plists(a[0].postings, b[0].postings);
            let merged = EntryModel {
                term: a[0].term,
                postings: merge_plists(a[0].postings, b[0].postings),
            };
            assert(r =~= seq![merged] + rec);
            assert(r[0] == merged);
            assert(r.skip(1) =~= rec);
            assert(entry_wf(merged));
            assert forall|l: int| 0 <= l < rec.len() implies lex_lt(
                merged.term,
                (#[trigger] rec[l]).term,
            ) by {
                if has_term(a.skip(1), rec[l].term) {
                    let k = choose|k: int|
                        0 <= k < a.skip(1).len() && (#[trigger] a.skip(1)[k]).term == rec[l].term;
                } else {
                    let k = choose|k: int|
                        0 <= k < b.skip(1).len() && (#[trigger] b.skip(1)[k]).term == rec[l].term;
                }
            }
            assert(index_wf(r)) by {
                assert(forall|l: int| 0 <= l < rec.len() ==> r[l + 1] == rec[l]);
            }
            assert forall|t: Seq<u8>|
                #[trigger] plist_of(r, t) == merge_plists(plist_of(a, t), plist_of(b, t)) by {
                if t == merged.term {
                    assert(plist_of(r, t) == merged.postings);
                    assert(plist_of(a, t) == a[0].postings);
                    assert(plist_of(b, t) == b[0].postings);
                } else {
                    assert(plist_of(r, t) == plist_of(rec, t));
                    assert(plist_of(a, t) == plist_of(a.skip(1), t));
                    assert(plist_of(b, t) == plist_of(b.skip(1), t));
                }
            }
            assert forall|j: int| 0 <= j < r.len() implies has_term(
                a,
                (#[trigger] r[j]).term,
            ) || has_term(b, r[j].term) by {
                if j == 0 {
                    assert(a[0].term == r[0].term);
                } else if has_term(a.skip(1), rec[j - 1].term) {
                    let l = choose|l: int|
                        0 <= l < a.skip(1).len() && (#[trigger] a.skip(1)[l]).term == rec[j
                            - 1].term;
                    assert(a[l + 1].term == r[j].term);
                } else {
                    let l = choose|l: int|
                        0 <= l < b.skip(1).len() && (#[trigger] b.skip(1)[l]).term == rec[j
                            - 1].term;
                    assert(b[l + 1].term == r[j].term);
                }
            }
        }
    }
}

/// For well-formed postings lists the union is symmetric.
proof fn lemma_merge_plists_of_wf_comm(a: Seq<EntryModel>, b: Seq<EntryModel>, t: Seq<u8>)
    requires
        index_wf(a),
        index_wf(b),
    ensures
        merge_plists(plist_of(a, t), plist_of(b, t)) == merge_plists(
            plist_of(b, t),
            plist_of(a, t),
        ),
{
    lemma_plist_of_wf(a, t);
    lemma_plist_of_wf(b, t);
    lemma_merge_plists_wf_comm(plist_of(a, t), plist_of(b, t));
}

/// Whatever list an index holds for a term is well formed.
pub proof fn lemma_plist_of_wf(m: Seq<EntryModel>, t: Seq<u8>)
    requires
        index_wf(m),
    ensures
        plist_wf(plist_of(m, t)),
    decreases m.len(),
{
    if m.len() > 0 {
        if m[0].term == t {
            assert(entry_wf(m[0]));
        } else {
            assert(index_wf(m.skip(1))) by {
                assert(forall|i: int| 0 <= i < m.skip(1).len() ==> m.skip(1)[i] == m[i + 1]);
            }
            lemma_plist_of_wf(m.skip(1), t);
        }
    }
}

/// For well-formed postings lists the document-sorted union is symmetric.
pub proof fn lemma_merge_plists_wf_comm(x: Seq<PostingModel>, y: Seq<PostingModel>)
    requires
        plist_wf(x),
        plist_wf(y),
    ensures
        merge_plists(x, y) == merge_plists(y, x),
    decreases x.len() + y.len(),
{
    if x.len() == 0 && y.len() == 0 {
        assert(merge_plists(x, y) =~= merge_plists(y, x));
    } else if x.len() == 0 || y.len() == 0 {
    } else {
        assert(plist_wf(x.skip(1))) by {
            assert(forall|k: int| 0 <= k < x.skip(1).len() ==> x.skip(1)[k] == x[k + 1]);
        }
        assert(plist_wf(y.skip(1))) by {
            assert(forall|k: int| 0 <= k < y.skip(1).len() ==> y.skip(1)[k] == y[k + 1]);
        }
        if x[0].doc < y[0].doc {
            lemma_merge_plists_wf_comm(x.skip(1), y);
        } else if y[0].doc < x[0].doc {
            lemma_merge_plists_wf_comm(x, y.skip(1));
        } else {
            lemma_merge_plists_wf_comm(x.skip(1), y.skip(1));
            lemma_merge_positions_comm(x[0].positions, y[0].positions);
        }
    }
}

/// One sorted-union step at the entry level: the strictly smaller head
/// goes in front.
proof fn lemma_merge_entries_cons(
    h: EntryModel,
    rec: Seq<EntryModel>,
    src: Seq<EntryModel>,
    other: Seq<EntryModel>,
    r: Seq<EntryModel>,
)
    requires
        index_wf(src),
        index_wf(other),
        src.len() > 0,
        other.len() > 0,
        h == src[0],
        lex_lt(h.term, other[0].term),
        index_wf(rec),
        r == seq![h] + rec,
        forall|t: Seq<u8>|
            #[trigger] plist_of(rec, t) == merge_plists(
                plist_of(src.skip(1), t),
                plist_of(other, t),
            ),
        forall|j: int|
            0 <= j < rec.len() ==> has_term(src.skip(1), (#[trigger] rec[j]).term) || has_term(
                other,
                rec[j].term,
            ),
    ensures
        index_wf(r),
        forall|t: Seq<u8>|
            #[trigger] plist_of(r, t) == merge_plists(plist_of(src, t), plist_of(other, t)),
        forall|j: int|
            0 <= j < r.len() ==> has_term(src, (#[trigger] r[j]).term) || has_term(
                other,
                r[j].term,
            ),
{
    assert(r[0] == h);
    assert(r.skip(1) =~= rec);
    assert(forall|i: int| 0 <= i < src.skip(1).len() ==> src.skip(1)[i] == src[i + 1]);
    assert forall|l: int| 0 <= l < rec.len() implies lex_lt(h.term, (#[trigger] rec[l]).term) by {
        if has_term(src.skip(1), rec[l].term) {
            let k = choose|k: int|
                0 <= k < src.skip(1).len() && (#[trigger] src.skip(1)[k]).term == rec[l].term;
        } else {
            let k = choose|k: int|
                0 <= k < other.len() && (#[trigger] other[k]).term == rec[l].term;
            if k > 0 {
                lemma_lex_trans(h.term, other[0].term, other[k].term);
            }
        }
    }
    assert(index_wf(r)) by {
        assert(forall|l: int| 0 <= l < rec.len() ==> r[l + 1] == rec[l]);
        assert(entry_wf(src[0]));
    }
    assert forall|t: Seq<u8>|
        #[trigger] plist_of(r, t) == merge_plists(plist_of(src, t), plist_of(other, t)) by {
        if t == h.term {
            assert(plist_of(r, t) == h.postings);
            assert(plist_of(src, t) == h.postings);
            assert forall|k: int| 0 <= k < other.len() implies (#[trigger] other[k]).term != t by {
                if k > 0 {
                    lemma_lex_trans(h.term, other[0].term, other[k].term);
                } else {
                    lemma_lex_trichotomy(h.term, other[0].term);
                }
                lemma_lex_trichotomy(h.term, other[k].term);
            }
            lemma_plist_of_absent(other, t);
            assert(plist_of(other, t) == Seq::<PostingModel>::empty());
            assert(entry_wf(src[0]));
            assert(merge_plists(h.postings, Seq::<PostingModel>::empty()) == h.postings);
        } else {
            assert(plist_of(r, t) == plist_of(rec, t));
            assert(plist_of(src, t) == plist_of(src.skip(1), t));
        }
    }
    assert forall|j: int| 0 <= j < r.len() implies has_term(
        src,
        (#[trigger] r[j]).term,
    ) || has_term(other, r[j].term) by {
        if j == 0 {
            assert(src[0].term == r[0].term);
        } else if has_term(src.skip(1), rec[j - 1].term) {
            let l = choose|l: int|
                0 <= l < src.skip(1).len() && (#[trigger] src.skip(1)[l]).term == rec[j - 1].term;
            assert(src[l + 1].term == r[j].term);
        }
    }
}

/// The models of a vector of postings.
pub open spec fn pmodels(v: Seq<Posting>) -> Seq<PostingModel> {
    v.map_values(|p: Posting| p.model())
}

/// The models of a vector of entries.
pub open spec fn emodels(v: Seq<TermEntry>) -> Seq<EntryModel> {
    v.map_values(|e: TermEntry| e.model())
}

/// Empties a vector onto a stack, so that its items can be taken out front
/// first.
fn drain_to_stack<T>(v: Vec<T>) -> (r: Vec<T>)
    ensures
        r@ == v@.reverse(),
{
    let mut src = v;
    let ghost full = src@;
    let mut r: Vec<T> = Vec::new();
    while src.len() > 0
        invariant
            src@.len() <= full.len(),
            src@ == full.take(src@.len() as int),
            r@ == full.skip(src@.len() as int).reverse(),
        decreases src@.len(),
    {
        let ghost sl = src@.len() as int;
        let x = match src.pop() {
            Some(x) => x,
            None => {
                proof {
                    assert(false);
                }
                unreached()
            },
        };
        r.push(x);
        proof {
            assert(src@ =~= full.take(sl - 1));
            assert(full.take(sl)[sl - 1] == full[sl - 1]);
            assert(x == full[sl - 1]);
            assert(r@ =~= full.skip(sl - 1).reverse()) by {
                assert forall|l: int| 0 <= l < r@.len() implies r@[l] == #[trigger] full.skip(
                    sl - 1,
                ).reverse()[l] by {
                    if l < r@.len() - 1 {
                        assert(r@[l] == full.skip(sl).reverse()[l]);
                        assert(full.skip(sl).reverse()[l] == full.skip(sl)[full.len() - sl - 1
                            - l]);
                        assert(full.skip(sl - 1).reverse()[l] == full.skip(sl - 1)[full.len() - (sl
                            - 1) - 1 - l]);
                    } else {
                        assert(full.skip(sl - 1).reverse()[l] == full.skip(sl - 1)[full.len() - (sl
                            - 1) - 1 - l]);
                    }
                }
            }
        }
    }
    proof {
        assert(src@.len() == 0);
        assert(r@ =~= full.reverse());
    }
    r
}

/// Merges two ascending offset lists into their sorted union.
fn merge_position_lists(a: &Vec<u32>, b: &Vec<u32>) -> (r: Vec<u32>)
    ensures
        r@ == merge_positions(a@, b@),
{
    let mut r: Vec<u32> = Vec::new();
    let mut i: usize = 0;
    let mut j: usize = 0;
    proof {
        assert(a@.skip(0) =~= a@);
        assert(b@.skip(0) =~= b@);
        assert(Seq::<u32>::empty() + merge_positions(a@, b@) =~= merge_positions(a@, b@));
    }
    while i < a.len() || j < b.len()
        invariant
            0 <= i <= a@.len(),
            0 <= j <= b@.len(),
            merge_positions(a@, b@) == r@ + merge_positions(a@.skip(i as int), b@.skip(j as int)),
        decreases a@.len() - i + b@.len() - j,
    {
        let ghost ra = a@.skip(i as int);
        let ghost rb = b@.skip(j as int);
        if i >= a.len() {
            let x = b[j];
            proof {
                assert(ra.len() == 0);
                assert(rb[0] == x);
                assert(merge_positions(ra, rb) == rb);
                assert(rb =~= seq![x] + b@.skip(j + 1));
                assert(merge_positions(ra, b@.skip(j + 1)) == b@.skip(j + 1));
                assert(r@.push(x) + b@.skip(j + 1) =~= r@ + rb);
            }
            r.push(x);
            j = j + 1;
        } else if j >= b.len() {
            let x = a[i];
            proof {
                assert(rb.len() == 0);
                assert(ra[0] == x);
                assert(merge_positions(ra, rb) == ra);
                assert(ra =~= seq![x] + a@.skip(i + 1));
                assert(merge_positions(a@.skip(i + 1), rb) == a@.skip(i + 1));
                assert(r@.push(x) + a@.skip(i + 1) =~= r@ + ra);
            }
            r.push(x);
            i = i + 1;
        } else {
            let x = a[i];
            let y = b[j];
            proof {
                assert(ra[0] == x);
                assert(rb[0] == y);
                assert(ra.skip(1) =~= a@.skip(i + 1));
                assert(rb.skip(1) =~= b@.skip(j + 1));
            }
            if x < y {
                proof {
                    assert(merge_positions(ra, rb) == seq![x] + merge_positions(
                        a@.skip(i + 1),
                        rb,
                    ));
                    assert(r@.push(x) + merge_positions(a@.skip(i + 1), rb) =~= r@ + (seq![x]
                        + merge_positions(a@.skip(i + 1), rb)));
                }
                r.push(x);
                i = i + 1;
            } else if y < x {
                proof {
                    assert(merge_positions(ra, rb) == seq![y] + merge_positions(
                        ra,
                        b@.skip(j + 1),
                    ));
                    assert(r@.push(y) + merge_positions(ra, b@.skip(j + 1)) =~= r@ + (seq![y]
                        + merge_positions(ra, b@.skip(j + 1))));
                }
                r.push(y);
                j = j + 1;
            } else {
                proof {
                    assert(merge_positions(ra, rb) == seq![x] + merge_positions(
                        a@.skip(i + 1),
                        b@.skip(j + 1),
                    ));
                    assert(r@.push(x) + merge_positions(a@.skip(i + 1), b@.skip(j + 1)) =~= r@ + (
                    seq![x] + merge_positions(a@.skip(i + 1), b@.skip(j + 1))));
                }
                r.push(x);
                i = i + 1;
                j = j + 1;
            }
        }
    }
    proof {
        assert(a@.skip(i as int).len() == 0);
        assert(b@.skip(j as int).len() == 0);
        assert(merge_positions(a@.skip(i as int), b@.skip(j as int)).len() == 0);
        assert(r@ + merge_positions(a@.skip(i as int), b@.skip(j as int)) =~= r@);
    }
    r
}

/// Taking the top of a stack of postings takes the front of the reversed
/// model sequence.
proof fn lemma_stack_top_posting(xv: Seq<Posting>)
    requires
        xv.len() > 0,
    ensures
        pmodels(xv).reverse()[0] == xv.last().model(),
        pmodels(xv.take(xv.len() - 1)).reverse() == pmodels(xv).reverse().skip(1),
{
    assert(pmodels(xv).reverse()[0] == pmodels(xv)[xv.len() - 1]);
    assert(pmodels(xv.take(xv.len() - 1)).reverse() =~= pmodels(xv).reverse().skip(1)) by {
        let n = xv.len() as int;
        assert forall|l: int| 0 <= l < n - 1 implies #[trigger] pmodels(
            xv.take(n - 1),
        ).reverse()[l] == pmodels(xv).reverse().skip(1)[l] by {
            assert(pmodels(xv.take(n - 1)).reverse()[l] == pmodels(xv.take(n - 1))[n - 2 - l]);
            assert(pmodels(xv.take(n - 1))[n - 2 - l] == xv.take(n - 1)[n - 2 - l].model());
            assert(pmodels(xv).reverse().skip(1)[l] == pmodels(xv).reverse()[l + 1]);
            assert(pmodels(xv).reverse()[l + 1] == pmodels(xv)[n - 1 - (l + 1)]);
        }
    }
}

/// Taking the top of a stack of entries takes the front of the reversed
/// model sequence.
proof fn lemma_stack_top_entry(xv: Seq<TermEntry>)
    requires
        xv.len() > 0,
    ensures
        emodels(xv).reverse()[0] == xv.last().model(),
        emodels(xv.take(xv.len() - 1)).reverse() == emodels(xv).reverse().skip(1),
{
    assert(emodels(xv).reverse()[0] == emodels(xv)[xv.len() - 1]);
    assert(emodels(xv.take(xv.len() - 1)).reverse() =~= emodels(xv).reverse().skip(1)) by {
        let n = xv.len() as int;
        assert forall|l: int| 0 <= l < n - 1 implies #[trigger] emodels(
            xv.take(n - 1),
        ).reverse()[l] == emodels(xv).reverse().skip(1)[l] by {
            assert(emodels(xv.take(n - 1)).reverse()[l] == emodels(xv.take(n - 1))[n - 2 - l]);
            assert(emodels(xv.take(n - 1))[n - 2 - l] == xv.take(n - 1)[n - 2 - l].model());
            assert(emodels(xv).reverse().skip(1)[l] == emodels(xv).reverse()[l + 1]);
            assert(emodels(xv).reverse()[l + 1] == emodels(xv)[n - 1 - (l + 1)]);
        }
    }
}

/// Merges two document-sorted postings lists into their sorted union.
fn merge_posting_lists(x: Vec<Posting>, y: Vec<Posting>) -> (r: Vec<Posting>)
    ensures
        pmodels(r@) == merge_plists(pmodels(x@), pmodels(y@)),
{
    let ghost xm = pmodels(x@);
    let ghost ym = pmodels(y@);
    let mut xs = drain_to_stack(x);
    let mut ys = drain_to_stack(y);
    proof {
        assert(pmodels(xs@).reverse() =~= xm) by {
            assert forall|l: int| 0 <= l < xm.len() implies #[trigger] pmodels(
                xs@,
            ).reverse()[l] == xm[l] by {
                assert(pmodels(xs@).reverse()[l] == pmodels(xs@)[xs@.len() - 1 - l]);
            }
        }
        assert(pmodels(ys@).reverse() =~= ym) by {
            assert forall|l: int| 0 <= l < ym.len() implies #[trigger] pmodels(
                ys@,
            ).reverse()[l] == ym[l] by {
                assert(pmodels(ys@).reverse()[l] == pmodels(ys@)[ys@.len() - 1 - l]);
            }
        }
    }
    let mut r: Vec<Posting> = Vec::new();
    proof {
        assert(pmodels(r@) =~= Seq::<PostingModel>::empty());
        assert(Seq::<PostingModel>::empty() + merge_plists(xm, ym) =~= merge_plists(xm, ym));
    }
    while xs.len() > 0 && ys.len() > 0
        invariant
            merge_plists(xm, ym) == pmodels(r@) + merge_plists(
                pmodels(xs@).reverse(),
                pmodels(ys@).reverse(),
            ),
        decreases xs@.len() + ys@.len(),
    {
        let ghost xv = xs@;
        let ghost yv = ys@;
        let ghost xrem = pmodels(xv).reverse();
        let ghost yrem = pmodels(yv).reverse();
        proof {
            lemma_stack_top_posting(xv);
            lemma_stack_top_posting(yv);
        }
        let xd = xs[xs.len() - 1].doc_id;
        let yd = ys[ys.len() - 1].doc_id;
        proof {
            assert(xrem[0] == xv.last().model());
            assert(xrem[0].doc == xd);
            assert(yrem[0].doc == yd);
        }
        if xd < yd {
            let p = match xs.pop() {
                Some(p) => p,
                None => {
                    proof {
                        assert(false);
                    }
                    unreached()
                },
            };
            proof {
                assert(merge_plists(xrem, yrem) == seq![xrem[0]] + merge_plists(
                    xrem.skip(1),
                    yrem,
                ));
                assert(pmodels(r@.push(p)) =~= pmodels(r@).push(p.model()));
                assert(pmodels(r@).push(p.model()) + merge_plists(xrem.skip(1), yrem)
                    =~= pmodels(r@) + (seq![xrem[0]] + merge_plists(xrem.skip(1), yrem)));
            }
            r.push(p);
        } else if yd < xd {
            let p = match ys.pop() {
                Some(p) => p,
                None => {
                    proof {
                        assert(false);
                    }
                    unreached()
                },
            };
            proof {
                assert(merge_plists(xrem, yrem) == seq![yrem[0]] + merge_plists(
                    xrem,
                    yrem.skip(1),
                ));
                assert(pmodels(r@.push(p)) =~= pmodels(r@).push(p.model()));
                assert(pmodels(r@).push(p.model()) + merge_plists(xrem, yrem.skip(1))
                    =~= pmodels(r@) + (seq![yrem[0]] + merge_plists(xrem, yrem.skip(1))));
            }
            r.push(p);
        } else {
            let px = match xs.pop() {
                Some(p) => p,
                None => {
                    proof {
                        assert(false);
                    }
                    unreached()
                },
            };
            let py = match ys.pop() {
                Some(p) => p,
                None => {
                    proof {
                        assert(false);
                    }
                    unreached()
                },
            };
            let positions = merge_position_lists(&px.positions, &py.positions);
            let merged = Posting { doc_id: px.doc_id, positions: positions };
            proof {
                assert(merged.model() == (PostingModel {
                    doc: xrem[0].doc,
                    positions: merge_positions(xrem[0].positions, yrem[0].positions),
                }));
                assert(merge_plists(xrem, yrem) == seq![merged.model()] + merge_plists(
                    xrem.skip(1),
                    yrem.skip(1),
                ));
                assert(pmodels(r@.push(merged)) =~= pmodels(r@).push(merged.model()));
                assert(pmodels(r@).push(merged.model()) + merge_plists(
                    xrem.skip(1),
                    yrem.skip(1),
                ) =~= pmodels(r@) + (seq![merged.model()] + merge_plists(
                    xrem.skip(1),
                    yrem.skip(1),
                )));
            }
            r.push(merged);
        }
    }
    // One side is exhausted: the rest of the other side carries over.
    while xs.len() > 0
        invariant
            xs@.len() == 0 || ys@.len() == 0,
            merge_plists(xm, ym) == pmodels(r@) + merge_plists(
                pmodels(xs@).reverse(),
                pmodels(ys@).reverse(),
            ),
        decreases xs@.len(),
    {
        let ghost xv = xs@;
        let ghost xrem = pmodels(xv).reverse();
        proof {
            lemma_stack_top_posting(xv);
            assert(pmodels(ys@).reverse().len() == 0);
            assert(merge_plists(xrem, pmodels(ys@).reverse()) == xrem);
            assert(merge_plists(xrem.skip(1), pmodels(ys@).reverse()) == xrem.skip(1));
        }
        let p = match xs.pop() {
            Some(p) => p,
            None => {
                proof {
                    assert(false);
                }
                unreached()
            },
        };
        proof {
            assert(xrem =~= seq![xrem[0]] + xrem.skip(1));
            assert(pmodels(r@.push(p)) =~= pmodels(r@).push(p.model()));
            assert(pmodels(r@).push(p.model()) + xrem.skip(1) =~= pmodels(r@) + (seq![xrem[0]]
                + xrem.skip(1)));
        }
        r.push(p);
    }
    while ys.len() > 0
        invariant
            xs@.len() == 0,
            merge_plists(xm, ym) == pmodels(r@) + merge_plists(
                pmodels(xs@).reverse(),
                pmodels(ys@).reverse(),
            ),
        decreases ys@.len(),
    {
        let ghost yv = ys@;
        let ghost yrem = pmodels(yv).reverse();
        proof {
            lemma_stack_top_posting(yv);
            assert(pmodels(xs@).reverse().len() == 0);
            assert(merge_plists(pmodels(xs@).reverse(), yrem) == yrem);
            assert(merge_plists(pmodels(xs@).reverse(), yrem.skip(1)) == yrem.skip(1));
        }
        let p = match ys.pop() {
            Some(p) => p,
            None => {
                proof {
                    assert(false);
                }
                unreached()
            },
        };
        proof {
            assert(yrem =~= seq![yrem[0]] + yrem.skip(1));
            assert(pmodels(r@.push(p)) =~= pmodels(r@).push(p.model()));
            assert(pmodels(r@).push(p.model()) + yrem.skip(1) =~= pmodels(r@) + (seq![yrem[0]]
                + yrem.skip(1)));
        }
        r.push(p);
    }
    proof {
        assert(pmodels(xs@).reverse().len() == 0);
        assert(pmodels(ys@).reverse().len() == 0);
        assert(merge_plists(pmodels(xs@).reverse(), pmodels(ys@).reverse()).len() == 0);
        assert(pmodels(r@) + merge_plists(pmodels(xs@).reverse(), pmodels(ys@).reverse())
            =~= pmodels(r@));
    }
    r
}

/// Case folding of one byte, as [`norm_byte`] states it.
pub fn normalize_byte(b: u8) -> (r: u8)
    ensures
        r == norm_byte(b),
{
    if 65 <= b && b <= 90 {
        b + 32
    } else {
        b
    }
}

/// Whether a normalized byte belongs to a word, as [`is_word_byte`] states it.
pub fn word_byte(b: u8) -> (r: bool)
    ensures
        r == is_word_byte(b),
{
    (97 <= b && b <= 122) || (48 <= b && b <= 57)
}

} // verus!

//! The worker service: `map` turns one file's bytes into key-sorted
//! `(word, "1")` pairs, and `reduce` turns the merged pairs into the bytes
//! of the output artifact. The worker is stateless between calls, so any
//! number of calls may run in parallel.
//!
//! Writing the reduce output to its destination file is the caller's part;
//! `reduce` computes the exact content, and `reduce_ack` states when the
//! operation as a whole counts as successful.

use vstd::prelude::*;
use crate::kernel::{
    collapse, lemma_collapse_counts, lemma_lex_le_total_ordering, lex_le_fn, one_value,
    sort_entries, sorted_key_seq, sorted_keys, spec_collapse, spec_pairs, spec_tokens,
    lemma_sorted_unique, to_pairs, tokenize,
};
use crate::text::lex_le;
use crate::model::{keys_of, pairs_of, MapResult, MapTask, ReduceResult, ReduceTask};
use crate::render::{render_table, spec_render};

verus! {

/// The word-frequency table for a key sequence: the keys sorted, collapsed
/// into per-key counts, rendered one `"<word> <count>\n"` line per key.
pub open spec fn spec_wc_output(ks: Seq<Seq<u8>>) -> Seq<u8> {
    spec_render(spec_collapse(sorted_key_seq(ks)))
}

/// A key-sorted permutation of pairs that all carry the value "1" is exactly
/// the canonical sorted key sequence paired with "1".
pub proof fn lemma_sorted_pairs_exact(
    orig: Seq<(Seq<u8>, Seq<u8>)>,
    sorted: Seq<(Seq<u8>, Seq<u8>)>,
)
    requires
        sorted_keys(sorted),
        sorted.to_multiset() == orig.to_multiset(),
        keys_of(sorted).to_multiset() == keys_of(orig).to_multiset(),
        forall|i: int| 0 <= i < orig.len() ==> (#[trigger] orig[i]).1 == one_value(),
    ensures
        sorted == to_pairs(sorted_key_seq(keys_of(orig))),
{
    broadcast use vstd::seq_lib::group_to_multiset_ensures;

    lemma_lex_le_total_ordering();
    let ks = keys_of(orig);
    ks.lemma_sort_by_ensures(lex_le_fn());
    let target = sorted_key_seq(ks);
    assert forall|x: int, y: int| 0 <= x < y < keys_of(sorted).len() implies #[trigger] lex_le_fn()(
        keys_of(sorted)[x],
        keys_of(sorted)[y],
    ) by {
        assert(keys_of(sorted)[x] == sorted[x].0);
        assert(keys_of(sorted)[y] == sorted[y].0);
    }
    lemma_sorted_unique(keys_of(sorted), target);
    assert forall|i: int| 0 <= i < sorted.len() implies (#[trigger] sorted[i]).1
        == one_value() by {
        assert(sorted.contains(sorted[i]));
        assert(sorted.to_multiset().count(sorted[i]) > 0);
        assert(orig.contains(sorted[i]));
        let j = choose|j: int| 0 <= j < orig.len() && orig[j] == sorted[i];
        assert(orig[j].1 == one_value());
    }
    assert forall|i: int| 0 <= i < sorted.len() implies sorted[i] == #[trigger] to_pairs(target)[i] by {
        assert(keys_of(sorted)[i] == sorted[i].0);
        assert(to_pairs(target)[i] == (target[i], one_value()));
    }
    assert(sorted =~= to_pairs(target));
}

/// The word-frequency rows for raw input bytes: the input's words, sorted,
/// collapsed into per-word counts.
pub open spec fn spec_frequencies(data: Seq<u8>) -> Seq<(Seq<u8>, nat)> {
    spec_collapse(sorted_key_seq(spec_tokens(data)))
}

/// The word-frequency table is exact. For any input bytes, the pipeline of
/// tokenize, sort and collapse yields every distinct word of the input
/// exactly once, in strictly ascending key order, each with its exact
/// number of occurrences; and no word that does not occur.
pub proof fn lemma_word_frequencies(data: Seq<u8>)
    ensures
        forall|i: int, j: int|
            0 <= i < j < spec_frequencies(data).len() ==> lex_le(
                #[trigger] spec_frequencies(data)[i].0,
                #[trigger] spec_frequencies(data)[j].0,
            ) && spec_frequencies(data)[i].0 != spec_frequencies(data)[j].0,
        forall|i: int|
            0 <= i < spec_frequencies(data).len() ==> (#[trigger] spec_frequencies(data)[i]).1
                == spec_tokens(data).to_multiset().count(spec_frequencies(data)[i].0)
                && spec_frequencies(data)[i].1 >= 1,
        forall|w: Seq<u8>|
            #[trigger] spec_tokens(data).contains(w) <==> exists|i: int|
                0 <= i < spec_frequencies(data).len() && (#[trigger] spec_frequencies(data)[i]).0
                    == w,
{
    broadcast use vstd::seq_lib::group_to_multiset_ensures;

    let toks = spec_tokens(data);
    let sorted = sorted_key_seq(toks);
    lemma_lex_le_total_ordering();
    toks.lemma_sort_by_ensures(lex_le_fn());
    lemma_collapse_counts(sorted);
    assert forall|w: Seq<u8>| #[trigger] toks.contains(w) implies sorted.contains(w) by {
        assert(sorted.to_multiset().count(w) > 0);
    }
    assert forall|w: Seq<u8>| #[trigger] sorted.contains(w) implies toks.contains(w) by {
        assert(toks.to_multiset().count(w) > 0);
    }
    let rows = spec_collapse(sorted);
    assert forall|w: Seq<u8>| #[trigger] toks.contains(w) implies exists|i: int|
        0 <= i < spec_frequencies(data).len() && (#[trigger] spec_frequencies(data)[i]).0
            == w by {
        assert(sorted.contains(w));
        let i = choose|i: int| 0 <= i < rows.len() && (#[trigger] rows[i]).0 == w;
        assert(spec_frequencies(data)[i].0 == w);
    }
    assert forall|w: Seq<u8>|
        (exists|i: int|
            0 <= i < spec_frequencies(data).len() && (#[trigger] spec_frequencies(data)[i]).0
                == w) implies toks.contains(w) by {
        let i = choose|i: int|
            0 <= i < spec_frequencies(data).len() && (#[trigger] spec_frequencies(data)[i]).0
                == w;
        assert(rows[i].0 == w);
        assert(sorted.contains(w));
    }
}

/// The stateless worker: one `map` and one `reduce` operation, no state
/// kept between calls.
pub struct Worker {}

impl Worker {
    /// Tokenizes the task's file bytes and returns the `(word, "1")` pairs
    /// sorted ascending by key: exactly the canonical sorted arrangement of
    /// the file's words. Total: no input is rejected.
    pub fn map(&self, task: &MapTask) -> (r: MapResult)
        ensures
            pairs_of(r.results@) == to_pairs(sorted_key_seq(spec_tokens(task.file_data@))),
            sorted_keys(pairs_of(r.results@)),
    {
        let toks = tokenize(task.file_data.as_slice());
        let sorted = sort_entries(&toks);
        proof {
            let data = task.file_data@;
            assert(keys_of(spec_pairs(data)) =~= spec_tokens(data));
            lemma_sorted_pairs_exact(spec_pairs(data), pairs_of(sorted@));
        }
        MapResult { results: sorted }
    }

    /// Computes the content of the output artifact for the merged pairs:
    /// re-establishes sort order by key, collapses runs into counts, and
    /// renders one line per distinct key, in ascending key order. An empty
    /// pair sequence yields empty content; nothing is to be written then.
    pub fn reduce(&self, task: &ReduceTask) -> (out: Vec<u8>)
        ensures
            out@ == spec_wc_output(keys_of(pairs_of(task.map_result.results@))),
            task.map_result.results@.len() == 0 ==> out@ == Seq::<u8>::empty(),
    {
        let sorted = sort_entries(&task.map_result.results);
        let rows = collapse(&sorted);
        let out = render_table(&rows);
        proof {
            broadcast use vstd::seq_lib::group_to_multiset_ensures;

            let ks0 = keys_of(pairs_of(task.map_result.results@));
            let ks1 = keys_of(pairs_of(sorted@));
            lemma_lex_le_total_ordering();
            ks0.lemma_sort_by_ensures(lex_le_fn());
            assert forall|x: int, y: int| 0 <= x < y < ks1.len() implies #[trigger] lex_le_fn()(
                ks1[x],
                ks1[y],
            ) by {
                assert(ks1[x] == pairs_of(sorted@)[x].0);
                assert(ks1[y] == pairs_of(sorted@)[y].0);
            }
            lemma_sorted_unique(ks1, sorted_key_seq(ks0));
            if task.map_result.results@.len() == 0 {
                assert(ks0 =~= Seq::<Seq<u8>>::empty());
                assert(ks1.to_multiset().len() == ks1.len());
                assert(ks0.to_multiset().len() == ks0.len());
                assert(ks1.len() == 0);
                assert(rows@.len() == 0);
            }
        }
        out
    }

    /// Whether the reduce operation as a whole succeeded: trivially yes when
    /// there was nothing to write, otherwise exactly when the write went
    /// through.
    pub fn reduce_ack(&self, had_rows: bool, write_ok: bool) -> (r: ReduceResult)
        ensures
            r.ok == (!had_rows || write_ok),
    {
        ReduceResult { ok: !had_rows || write_ok }
    }
}

} // verus!

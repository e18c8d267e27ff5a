//! The coordinator's decision logic: merging the collected outcomes of the
//! concurrent map calls, building the single reduce task, and judging the
//! job's final outcome.
//!
//! The fan-out itself (reading files, issuing the calls, awaiting them) is
//! the caller's part; it hands the collected outcomes here in input order.
//! A failed map call contributes nothing: the job proceeds over whatever
//! data succeeded rather than aborting on partial failure.

use vstd::prelude::*;
use crate::kernel::{
    lemma_lex_le_total_ordering, lex_le_fn, sort_entries, sorted_key_seq, sorted_keys,
    lemma_sorted_unique,
};
use crate::model::{
    clone_entries, keys_of, pairs_of, JobOutcome, MapCallError, MapResult, ReduceResult,
    ReduceTask, WcMapResult,
};
use crate::worker::spec_wc_output;
use vstd::seq_lib::lemma_flatten_concat;

verus! {

/// What one collected map call contributes to the merge: its pairs if it
/// succeeded, nothing if it failed.
pub open spec fn contribution(o: Result<MapResult, MapCallError>) -> Seq<(Seq<u8>, Seq<u8>)> {
    match o {
        Ok(mr) => pairs_of(mr.results@),
        Err(_) => Seq::<(Seq<u8>, Seq<u8>)>::empty(),
    }
}

/// The merged pair sequence: the successful outcomes' pairs, in collection
/// order, with failed calls omitted.
pub open spec fn spec_merge(outs: Seq<Result<MapResult, MapCallError>>) -> Seq<(Seq<u8>, Seq<u8>)>
    decreases outs.len(),
{
    if outs.len() == 0 {
        Seq::<(Seq<u8>, Seq<u8>)>::empty()
    } else {
        spec_merge(outs.drop_last()) + contribution(outs.last())
    }
}

proof fn lemma_pairs_of_concat(a: Seq<WcMapResult>, b: Seq<WcMapResult>)
    ensures
        pairs_of(a + b) =~= pairs_of(a) + pairs_of(b),
{
}

/// Merges the collected outcomes of all map calls into one pair sequence,
/// in collection order. Failed calls are dropped; the job is not aborted.
pub fn merge_map_outcomes(outcomes: &Vec<Result<MapResult, MapCallError>>) -> (merged: Vec<
    WcMapResult,
>)
    ensures
        pairs_of(merged@) == spec_merge(outcomes@),
{
    let mut merged: Vec<WcMapResult> = Vec::new();
    let mut i: usize = 0;
    proof {
        assert(pairs_of(merged@) =~= spec_merge(outcomes@.take(0)));
    }
    while i < outcomes.len()
        invariant
            0 <= i <= outcomes@.len(),
            pairs_of(merged@) =~= spec_merge(outcomes@.take(i as int)),
        decreases outcomes@.len() - i,
    {
        proof {
            assert(outcomes@.take(i + 1).drop_last() =~= outcomes@.take(i as int));
            assert(outcomes@.take(i + 1).last() == outcomes@[i as int]);
        }
        let ghost before = merged@;
        match &outcomes[i] {
            Ok(mr) => {
                let mut part = clone_entries(&mr.results);
                merged.append(&mut part);
                proof {
                    lemma_pairs_of_concat(before, mr.results@);
                }
            },
            Err(_) => {
                proof {
                    assert(pairs_of(merged@) + Seq::<(Seq<u8>, Seq<u8>)>::empty() =~= pairs_of(
                        merged@,
                    ));
                }
            },
        }
        i = i + 1;
    }
    proof {
        assert(outcomes@.take(outcomes@.len() as int) =~= outcomes@);
    }
    merged
}

/// Builds the single reduce task of a job: merges the collected outcomes
/// and sorts the result ascending by key, as the reduce phase requires.
/// The task carries exactly the surviving pairs and the canonical sorted
/// arrangement of their keys.
pub fn prepare_reduce(dst_file: String, outcomes: &Vec<Result<MapResult, MapCallError>>) -> (t:
    ReduceTask)
    ensures
        t.dst_file == dst_file,
        sorted_keys(pairs_of(t.map_result.results@)),
        pairs_of(t.map_result.results@).to_multiset() == spec_merge(outcomes@).to_multiset(),
        keys_of(pairs_of(t.map_result.results@)) == sorted_key_seq(
            keys_of(spec_merge(outcomes@)),
        ),
{
    let merged = merge_map_outcomes(outcomes);
    let sorted = sort_entries(&merged);
    proof {
        let ks0 = keys_of(spec_merge(outcomes@));
        let ks1 = keys_of(pairs_of(sorted@));
        lemma_lex_le_total_ordering();
        ks0.lemma_sort_by_ensures(lex_le_fn());
        assert forall|x: int, y: int| 0 <= x < y < ks1.len() implies #[trigger] lex_le_fn()(
            ks1[x],
            ks1[y],
        ) by {
            assert(ks1[x] == pairs_of(sorted@)[x].0);
            assert(ks1[y] == pairs_of(sorted@)[y].0);
        }
        lemma_sorted_unique(ks1, sorted_key_seq(ks0));
    }
    ReduceTask { dst_file, map_result: MapResult { results: sorted } }
}

/// The contributions of all collected outcomes, one sequence per call.
pub open spec fn contributions(outs: Seq<Result<MapResult, MapCallError>>) -> Seq<
    Seq<(Seq<u8>, Seq<u8>)>,
> {
    outs.map_values(|o: Result<MapResult, MapCallError>| contribution(o))
}

proof fn lemma_merge_is_flatten(outs: Seq<Result<MapResult, MapCallError>>)
    ensures
        spec_merge(outs) == contributions(outs).flatten(),
    decreases outs.len(),
{
    broadcast use vstd::prelude::Seq::lemma_flatten_push;

    if outs.len() == 0 {
        assert(contributions(outs) =~= Seq::<Seq<(Seq<u8>, Seq<u8>)>>::empty());
        assert(spec_merge(outs) =~= contributions(outs).flatten());
    } else {
        lemma_merge_is_flatten(outs.drop_last());
        assert(contributions(outs) =~= contributions(outs.drop_last()).push(
            contribution(outs.last()),
        ));
        assert(spec_merge(outs) =~= contributions(outs).flatten());
    }
}

proof fn lemma_flatten_multiset_permutation(
    s: Seq<Seq<(Seq<u8>, Seq<u8>)>>,
    t: Seq<Seq<(Seq<u8>, Seq<u8>)>>,
)
    requires
        s.to_multiset() == t.to_multiset(),
    ensures
        s.flatten().to_multiset() == t.flatten().to_multiset(),
    decreases s.len(),
{
    broadcast use
        vstd::seq_lib::group_to_multiset_ensures,
        vstd::multiset::group_multiset_axioms,
        vstd::prelude::Seq::lemma_flatten_push,
        vstd::seq_lib::lemma_multiset_commutative,
    ;

    assert(s.to_multiset().len() == s.len());
    assert(t.to_multiset().len() == t.len());
    if s.len() == 0 {
        assert(s =~= t);
    } else {
        let x = s.last();
        assert(s.contains(x));
        assert(t.to_multiset().count(x) > 0);
        assert(t.contains(x));
        let i = choose|i: int| 0 <= i < t.len() && t[i] == x;
        let t1 = t.subrange(0, i);
        let t2 = t.subrange(i + 1, t.len() as int);
        assert(t =~= (t1 + seq![x]) + t2);
        assert(t.remove(i) =~= t1 + t2);
        lemma_flatten_concat(t1 + seq![x], t2);
        lemma_flatten_concat(t1, seq![x]);
        lemma_flatten_concat(t1, t2);
        assert(seq![x].flatten() =~= x) by {
            seq![x].lemma_flatten_one_element();
        }
        assert(t.flatten() =~= (t1.flatten() + x) + t2.flatten());
        assert(t.remove(i).flatten() =~= t1.flatten() + t2.flatten());
        assert(t.flatten().to_multiset() =~= t.remove(i).flatten().to_multiset().add(
            x.to_multiset(),
        ));
        assert(s.drop_last() =~= s.remove(s.len() - 1));
        assert(s.remove(s.len() - 1).to_multiset() == s.to_multiset().remove(x));
        assert(t.remove(i).to_multiset() == t.to_multiset().remove(x));
        lemma_flatten_multiset_permutation(s.drop_last(), t.remove(i));
        assert(s =~= s.drop_last().push(x));
        assert(s.drop_last().push(x).flatten() =~= s.drop_last().flatten() + x);
        assert(s.flatten() =~= s.drop_last().flatten() + x);
        assert(s.flatten().to_multiset() =~= s.drop_last().flatten().to_multiset().add(
            x.to_multiset(),
        ));
        assert(s.flatten().to_multiset() =~= t.flatten().to_multiset());
    }
}

/// A permutation maps to a permutation: two sequences holding the same
/// elements with the same multiplicities still do so after applying the
/// same function to every element.
pub proof fn lemma_map_multiset_permutation<A, B>(s: Seq<A>, t: Seq<A>, f: spec_fn(A) -> B)
    requires
        s.to_multiset() == t.to_multiset(),
    ensures
        s.map_values(f).to_multiset() == t.map_values(f).to_multiset(),
    decreases s.len(),
{
    broadcast use vstd::seq_lib::group_to_multiset_ensures, vstd::multiset::group_multiset_axioms;

    assert(s.to_multiset().len() == s.len());
    assert(t.to_multiset().len() == t.len());
    if s.len() == 0 {
        assert(s.map_values(f) =~= t.map_values(f));
    } else {
        let x = s.last();
        assert(s.contains(x));
        assert(t.to_multiset().count(x) > 0);
        assert(t.contains(x));
        let i = choose|i: int| 0 <= i < t.len() && t[i] == x;
        assert(s.drop_last() =~= s.remove(s.len() - 1));
        assert(s.remove(s.len() - 1).to_multiset() == s.to_multiset().remove(x));
        assert(t.remove(i).to_multiset() == t.to_multiset().remove(x));
        lemma_map_multiset_permutation(s.drop_last(), t.remove(i), f);
        assert(t.map_values(f).remove(i) =~= t.remove(i).map_values(f));
        assert(t.map_values(f).remove(i).to_multiset() == t.map_values(f).to_multiset().remove(
            t.map_values(f)[i],
        ));
        assert(t.map_values(f)[i] == f(x));
        assert(s.map_values(f) =~= s.drop_last().map_values(f).push(f(x)));
        assert(s.map_values(f).to_multiset() =~= s.drop_last().map_values(f).to_multiset().insert(
            f(x),
        ));
        assert(t.map_values(f).to_multiset().count(f(x)) > 0);
        assert(t.map_values(f).to_multiset().remove(f(x)).insert(f(x)) =~= t.map_values(
            f,
        ).to_multiset());
        assert(s.map_values(f).to_multiset() =~= t.map_values(f).to_multiset());
    }
}

/// Completion order is immaterial. Whenever two runs collect the same map
/// outcomes, in whatever orders the concurrent calls happened to finish,
/// the merged pairs form the same multiset, their keys form the same
/// multiset, and the sorted key sequence handed to the reduce phase — and
/// with it the rendered output — is identical.
pub proof fn lemma_merge_order_irrelevant(
    a: Seq<Result<MapResult, MapCallError>>,
    b: Seq<Result<MapResult, MapCallError>>,
)
    requires
        contributions(a).to_multiset() == contributions(b).to_multiset(),
    ensures
        spec_merge(a).to_multiset() == spec_merge(b).to_multiset(),
        keys_of(spec_merge(a)).to_multiset() == keys_of(spec_merge(b)).to_multiset(),
        sorted_key_seq(keys_of(spec_merge(a))) == sorted_key_seq(keys_of(spec_merge(b))),
        spec_wc_output(keys_of(spec_merge(a))) == spec_wc_output(keys_of(spec_merge(b))),
{
    lemma_merge_is_flatten(a);
    lemma_merge_is_flatten(b);
    lemma_flatten_multiset_permutation(contributions(a), contributions(b));
    let fkey = |p: (Seq<u8>, Seq<u8>)| p.0;
    lemma_map_multiset_permutation(spec_merge(a), spec_merge(b), fkey);
    assert(keys_of(spec_merge(a)) =~= spec_merge(a).map_values(fkey));
    assert(keys_of(spec_merge(b)) =~= spec_merge(b).map_values(fkey));
    lemma_lex_le_total_ordering();
    keys_of(spec_merge(a)).lemma_sort_by_ensures(lex_le_fn());
    keys_of(spec_merge(b)).lemma_sort_by_ensures(lex_le_fn());
    lemma_sorted_unique(sorted_key_seq(keys_of(spec_merge(a))), sorted_key_seq(keys_of(spec_merge(b))));
}

/// The job's final outcome: success exactly when the reduce call came back
/// and reported a successful write; a transport failure (no response) or a
/// reported write failure fails the job.
pub fn job_outcome(reduce_response: Option<ReduceResult>) -> (r: JobOutcome)
    ensures
        (r is Completed) <==> (reduce_response matches Some(rr) && rr.ok),
{
    match reduce_response {
        Some(rr) => if rr.ok {
            JobOutcome::Completed
        } else {
            JobOutcome::Failed
        },
        None => JobOutcome::Failed,
    }
}

} // verus!

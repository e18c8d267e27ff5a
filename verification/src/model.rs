//! The task and result shapes exchanged between the coordinator and the
//! worker, and the error and outcome kinds of a job.
//!
//! A pair of strings is viewed as the pair of its UTF-8 byte sequences, so
//! that every contract downstream can speak of plain byte sequences.

use vstd::prelude::*;
use crate::text::text;

verus! {

/// Progression of a task through dispatch. The dispatch protocol is
/// fire-and-forget per call, so nothing here transitions the status; it is
/// part of the task record for callers that track their own registry.
#[derive(Debug, Clone, Copy, PartialEq, Eq, Structural)]
pub enum TaskStatus {
    Idle,
    InProgress,
    Completed,
}

/// One unit of map work: a file's name and its raw bytes.
pub struct MapTask {
    pub file_name: String,
    pub file_data: Vec<u8>,
    pub status: TaskStatus,
}

/// One intermediate key/value pair produced by a map call.
pub struct WcMapResult {
    pub k: String,
    pub v: String,
}

impl View for WcMapResult {
    type V = (Seq<u8>, Seq<u8>);

    open spec fn view(&self) -> (Seq<u8>, Seq<u8>) {
        (text(self.k@), text(self.v@))
    }
}

/// The models of a sequence of pairs: each entry as its byte-level view.
pub open spec fn pairs_of(s: Seq<WcMapResult>) -> Seq<(Seq<u8>, Seq<u8>)> {
    s.map_values(|e: WcMapResult| e@)
}

/// The keys of a sequence of byte-level pairs.
pub open spec fn keys_of(ps: Seq<(Seq<u8>, Seq<u8>)>) -> Seq<Seq<u8>> {
    ps.map_values(|p: (Seq<u8>, Seq<u8>)| p.0)
}

/// Aggregated output of one map call.
pub struct MapResult {
    pub results: Vec<WcMapResult>,
}

/// The reduce task: destination path and the merged intermediate pairs.
pub struct ReduceTask {
    pub dst_file: String,
    pub map_result: MapResult,
}

/// Terminal signal of the reduce phase: success or failure of the write.
#[derive(Debug, Clone, Copy, PartialEq, Eq, Structural)]
pub struct ReduceResult {
    pub ok: bool,
}

/// Why a single remote map call failed.
#[derive(Debug, Clone, Copy, PartialEq, Eq, Structural)]
pub enum MapCallError {
    /// The call could not be completed: connection refused, timeout.
    TransportFailure,
    /// The worker's own map logic failed.
    ExecutionFailure,
}

/// Terminal state of a whole job.
#[derive(Debug, Clone, Copy, PartialEq, Eq, Structural)]
pub enum JobOutcome {
    Completed,
    Failed,
}

/// Copies one pair; the copy has the same byte-level view.
pub fn clone_entry(e: &WcMapResult) -> (r: WcMapResult)
    ensures
        r == *e,
{
    WcMapResult { k: e.k.clone(), v: e.v.clone() }
}

/// Copies a sequence of pairs entry by entry.
pub fn clone_entries(v: &Vec<WcMapResult>) -> (r: Vec<WcMapResult>)
    ensures
        r@ == v@,
{
    let mut r: Vec<WcMapResult> = Vec::new();
    let mut i: usize = 0;
    while i < v.len()
        invariant
            0 <= i <= v@.len(),
            r@ == v@.take(i as int),
        decreases v@.len() - i,
    {
        r.push(clone_entry(&v[i]));
        proof {
            assert(r@ =~= v@.take(i + 1));
        }
        i = i + 1;
    }
    proof {
        assert(r@ =~= v@);
    }
    r
}

} // verus!

use fake_mp::coordinator::{job_outcome, merge_map_outcomes, prepare_reduce};
use fake_mp::model::{
    JobOutcome, MapCallError, MapResult, MapTask, ReduceResult, ReduceTask, TaskStatus,
};
use fake_mp::worker::Worker;

fn map_task(name: &str, data: &[u8]) -> MapTask {
    MapTask {
        file_name: name.to_string(),
        file_data: data.to_vec(),
        status: TaskStatus::Idle,
    }
}

fn run_map(data: &[u8]) -> MapResult {
    let worker = Worker {};
    worker.map(&map_task("input", data))
}

#[test]
fn worker_map_sorts_pairs() {
    let r = run_map(b"pear apple pear");
    let words: Vec<&str> = r.results.iter().map(|e| e.k.as_str()).collect();
    assert_eq!(words, vec!["apple", "pear", "pear"]);
}

#[test]
fn partial_failure_tolerance() {
    // Three input files; the map call for the second is simulated to fail.
    // The job must still complete over files one and three alone.
    let worker = Worker {};
    let outcomes: Vec<Result<MapResult, MapCallError>> = vec![
        Ok(run_map(b"red green")),
        Err(MapCallError::ExecutionFailure),
        Ok(run_map(b"green blue")),
    ];
    let merged = merge_map_outcomes(&outcomes);
    let words: Vec<&str> = merged.iter().map(|e| e.k.as_str()).collect();
    assert_eq!(words, vec!["green", "red", "blue", "green"]);

    let task = prepare_reduce("wc.txt".to_string(), &outcomes);
    let out = worker.reduce(&task);
    assert_eq!(out, b"blue 1\ngreen 2\nred 1\n".to_vec());
}

#[test]
fn empty_reduce_reports_success_and_writes_nothing() {
    let worker = Worker {};
    let task = ReduceTask {
        dst_file: "wc.txt".to_string(),
        map_result: MapResult { results: Vec::new() },
    };
    let out = worker.reduce(&task);
    assert_eq!(out.len(), 0);
    // Nothing to write: the operation succeeds whatever the writer would
    // have reported.
    let ack = worker.reduce_ack(false, false);
    assert!(ack.ok);
}

#[test]
fn reduce_ack_reflects_write_outcome() {
    let worker = Worker {};
    assert!(worker.reduce_ack(true, true).ok);
    assert!(!worker.reduce_ack(true, false).ok);
}

#[test]
fn job_outcome_from_reduce_response() {
    // A completed reduce call with a successful write completes the job.
    assert_eq!(job_outcome(Some(ReduceResult { ok: true })), JobOutcome::Completed);
    // A reported write failure fails the job.
    assert_eq!(job_outcome(Some(ReduceResult { ok: false })), JobOutcome::Failed);
    // A transport failure (no response at all) fails the job.
    assert_eq!(job_outcome(None), JobOutcome::Failed);
}

#[test]
fn merge_is_independent_of_completion_order() {
    let worker = Worker {};
    let a = run_map(b"one two");
    let b = run_map(b"two three");
    let c = run_map(b"three four");
    let collect = |order: Vec<&MapResult>| -> Vec<Result<MapResult, MapCallError>> {
        order
            .into_iter()
            .map(|mr| {
                Ok(MapResult {
                    results: mr
                        .results
                        .iter()
                        .map(|e| fake_mp::model::clone_entry(e))
                        .collect(),
                })
            })
            .collect()
    };
    let first = prepare_reduce("wc.txt".to_string(), &collect(vec![&a, &b, &c]));
    let second = prepare_reduce("wc.txt".to_string(), &collect(vec![&c, &a, &b]));
    let out_first = worker.reduce(&first);
    let out_second = worker.reduce(&second);
    assert_eq!(out_first, out_second);
    assert_eq!(out_first, b"four 1\none 1\nthree 2\ntwo 2\n".to_vec());
}

#[test]
fn round_trip_counts_match_fixture() {
    // A three-line fixture with known word frequencies; the table produced
    // by the pipeline must match counts taken independently from the text.
    let text: &[u8] = b"ash elm ash\noak elm ash\nelm oak fir\n";
    let worker = Worker {};
    let outcomes: Vec<Result<MapResult, MapCallError>> = vec![Ok(run_map(text))];
    let task = prepare_reduce("wc.txt".to_string(), &outcomes);
    let out = worker.reduce(&task);
    let rendered = String::from_utf8(out).expect("output is ASCII text");

    // Independent count over a fresh tokenization of the same source text.
    let mut counted: Vec<(String, usize)> = Vec::new();
    for e in fake_mp::kernel::tokenize(text) {
        match counted.iter_mut().find(|(w, _)| *w == e.k) {
            Some((_, n)) => *n += 1,
            None => counted.push((e.k.clone(), 1)),
        }
    }
    counted.sort();
    let mut expect = String::new();
    for (w, n) in counted {
        expect.push_str(&format!("{} {}\n", w, n));
    }
    assert_eq!(rendered, expect);
    assert_eq!(rendered, "ash 3\nelm 3\nfir 1\noak 2\n");
}

use fake_mp::kernel::{collapse, sort_entries, tokenize, wc_map};
use fake_mp::model::WcMapResult;
use fake_mp::render::{dec_bytes, render_table, wc_reduce_line};

fn entry(k: &str, v: &str) -> WcMapResult {
    WcMapResult { k: k.to_string(), v: v.to_string() }
}

#[test]
fn tokenize_empty_returns_empty() {
    let r = tokenize(b"");
    assert_eq!(r.len(), 0);
}

#[test]
fn tokenize_splits_on_non_alphabetic() {
    let r = tokenize(b"a1b,,C  d-");
    let words: Vec<&str> = r.iter().map(|e| e.k.as_str()).collect();
    assert_eq!(words, vec!["a", "b", "C", "d"]);
    for e in &r {
        assert_eq!(e.v, "1");
    }
}

#[test]
fn tokenize_treats_invalid_bytes_as_delimiters() {
    let r = tokenize(&[b'a', 0xff, 0xfe, b'b', b'c']);
    let words: Vec<&str> = r.iter().map(|e| e.k.as_str()).collect();
    assert_eq!(words, vec!["a", "bc"]);
}

#[test]
fn kernel_word_count() {
    let toks = tokenize(b"the quick the fox the");
    let sorted = sort_entries(&toks);
    let rows = collapse(&sorted);
    let got: Vec<(String, usize)> = rows.iter().map(|r| (r.word.clone(), r.count)).collect();
    assert_eq!(
        got,
        vec![
            ("fox".to_string(), 1),
            ("quick".to_string(), 1),
            ("the".to_string(), 3),
        ]
    );
}

#[test]
fn collapse_unsorted_input_fragments_counts() {
    // collapse requires sorted input for correct totals; on unsorted input
    // it counts each maximal run separately, so the same key can appear in
    // more than one row.
    let unsorted = vec![entry("b", "1"), entry("a", "1"), entry("a", "1")];
    let fragmented = collapse(&unsorted);
    let got: Vec<(String, usize)> =
        fragmented.iter().map(|r| (r.word.clone(), r.count)).collect();
    assert_eq!(got, vec![("b".to_string(), 1), ("a".to_string(), 2)]);

    let sorted = sort_entries(&unsorted);
    let proper = collapse(&sorted);
    let want: Vec<(String, usize)> =
        proper.iter().map(|r| (r.word.clone(), r.count)).collect();
    assert_eq!(want, vec![("a".to_string(), 2), ("b".to_string(), 1)]);
    assert_ne!(got, want);
}

#[test]
fn collapse_same_key_split_across_runs() {
    let unsorted = vec![entry("a", "1"), entry("b", "1"), entry("a", "1")];
    let rows = collapse(&unsorted);
    let got: Vec<(String, usize)> = rows.iter().map(|r| (r.word.clone(), r.count)).collect();
    assert_eq!(
        got,
        vec![
            ("a".to_string(), 1),
            ("b".to_string(), 1),
            ("a".to_string(), 1),
        ]
    );
}

#[test]
fn tokenize_delimiters_only_yields_nothing() {
    let r = tokenize(b" \t\n12,;.!");
    assert_eq!(r.len(), 0);
}

#[test]
fn collapse_handles_empty_keys_and_other_values() {
    let pairs = vec![entry("", "x"), entry("", "y"), entry("a", "z")];
    let rows = collapse(&pairs);
    let got: Vec<(String, usize)> = rows.iter().map(|r| (r.word.clone(), r.count)).collect();
    assert_eq!(got, vec![("".to_string(), 2), ("a".to_string(), 1)]);
}

#[test]
fn sort_entries_orders_by_key_and_keeps_duplicates() {
    let v = vec![entry("pear", "1"), entry("apple", "1"), entry("pear", "1")];
    let sorted = sort_entries(&v);
    let words: Vec<&str> = sorted.iter().map(|e| e.k.as_str()).collect();
    assert_eq!(words, vec!["apple", "pear", "pear"]);
}

#[test]
fn wc_map_is_total() {
    let r = wc_map("any_file", b"hello world hello");
    let pairs = r.expect("wc_map never fails");
    let words: Vec<&str> = pairs.iter().map(|e| e.k.as_str()).collect();
    assert_eq!(words, vec!["hello", "world", "hello"]);
}

#[test]
fn dec_bytes_renders_decimal() {
    assert_eq!(dec_bytes(0), b"0".to_vec());
    assert_eq!(dec_bytes(7), b"7".to_vec());
    assert_eq!(dec_bytes(10), b"10".to_vec());
    assert_eq!(dec_bytes(90731), b"90731".to_vec());
}

#[test]
fn render_table_formats_lines() {
    let toks = tokenize(b"b b b b b b b b b b b b a");
    let sorted = sort_entries(&toks);
    let rows = collapse(&sorted);
    let out = render_table(&rows);
    assert_eq!(out, b"a 1\nb 12\n".to_vec());
}

#[test]
fn wc_reduce_line_counts_values() {
    let values = vec!["1".to_string(), "1".to_string(), "1".to_string()];
    let out = wc_reduce_line("word", &values);
    assert_eq!(out, b"word 3\n".to_vec());
}

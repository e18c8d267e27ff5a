//! The word-count kernel: `tokenize` splits raw bytes into words and emits
//! one `(word, "1")` pair per word; `collapse` run-length aggregates an
//! already key-sorted pair sequence into per-key counts.
//!
//! A word is a maximal run of ASCII alphabetic bytes; every other byte is a
//! delimiter. Multi-byte UTF-8 sequences and invalid bytes all lie outside
//! the ASCII alphabetic range, so scanning the raw bytes splits the input
//! exactly where a lossy UTF-8 decode followed by a character split would.

use vstd::prelude::*;
use vstd::multiset::Multiset;
use crate::model::{clone_entry, keys_of, pairs_of, WcMapResult, MapCallError};
use crate::text::{
    lemma_lex_le_antisymmetric,
    lemma_lex_le_refl, lemma_lex_le_total, lemma_lex_le_transitive, lex_le, str_le, str_text_eq,
    text,
};

verus! {

/// A byte that can stand inside a word: ASCII alphabetic.
pub open spec fn is_word_byte(b: u8) -> bool {
    ('a' as u8) <= b <= ('z' as u8) || ('A' as u8) <= b <= ('Z' as u8)
}

/// One scan step: a word byte extends the current word; a delimiter closes
/// it (empty words are discarded).
pub open spec fn tok_step(st: (Seq<Seq<u8>>, Seq<u8>), b: u8) -> (Seq<Seq<u8>>, Seq<u8>) {
    if is_word_byte(b) {
        (st.0, st.1.push(b))
    } else if st.1.len() > 0 {
        (st.0.push(st.1), Seq::<u8>::empty())
    } else {
        st
    }
}

/// The scan state (words emitted so far, word in progress) after reading `s`
/// left to right.
pub open spec fn tok_scan(s: Seq<u8>) -> (Seq<Seq<u8>>, Seq<u8>)
    decreases s.len(),
{
    if s.len() == 0 {
        (Seq::<Seq<u8>>::empty(), Seq::<u8>::empty())
    } else {
        tok_step(tok_scan(s.drop_last()), s.last())
    }
}

/// The words of a byte sequence, in scan order: the maximal runs of ASCII
/// alphabetic bytes.
pub open spec fn spec_tokens(s: Seq<u8>) -> Seq<Seq<u8>> {
    let st = tok_scan(s);
    if st.1.len() > 0 {
        st.0.push(st.1)
    } else {
        st.0
    }
}

/// The bytes of the value every map pair carries: the string "1".
pub open spec fn one_value() -> Seq<u8> {
    seq!['1' as u8]
}

/// Words paired with the value "1", entrywise.
pub open spec fn to_pairs(ts: Seq<Seq<u8>>) -> Seq<(Seq<u8>, Seq<u8>)> {
    ts.map_values(|t: Seq<u8>| (t, one_value()))
}

/// The `(word, "1")` pairs that tokenizing a byte sequence yields.
pub open spec fn spec_pairs(s: Seq<u8>) -> Seq<(Seq<u8>, Seq<u8>)> {
    to_pairs(spec_tokens(s))
}

proof fn lemma_to_pairs_push(ts: Seq<Seq<u8>>, t: Seq<u8>)
    ensures
        to_pairs(ts.push(t)) =~= to_pairs(ts).push((t, one_value())),
{
}

proof fn lemma_pairs_of_push(v: Seq<WcMapResult>, e: WcMapResult)
    ensures
        pairs_of(v.push(e)) =~= pairs_of(v).push(e@),
{
}

/// Relies on `String::from_utf8`: on ASCII input it returns the string
/// holding exactly the given bytes, whose characters are those bytes' code
/// points.
#[verifier::external_body]
fn string_from_ascii(v: Vec<u8>) -> (r: String)
    requires
        forall|i: int| 0 <= i < v@.len() ==> v@[i] < 128,
    ensures
        r@ == v@.map_values(|b: u8| b as char),
        text(r@) == v@,
{
    String::from_utf8(v).unwrap_or_default()
}

/// The string "1", as the value of a fresh map pair.
fn one_string() -> (r: String)
    ensures
        text(r@) == one_value(),
{
    let r: String = "1".to_owned();
    proof {
        reveal_strlit("1");
        vstd::utf8::is_ascii_chars_encode_utf8(r@);
        assert(text(r@) =~= one_value());
    }
    r
}

proof fn lemma_tok_scan_words(s: Seq<u8>)
    ensures
        forall|i: int, j: int|
            0 <= i < tok_scan(s).0.len() && 0 <= j < tok_scan(s).0[i].len() ==> is_word_byte(
                #[trigger] tok_scan(s).0[i][j],
            ),
        forall|i: int| 0 <= i < tok_scan(s).0.len() ==> (#[trigger] tok_scan(s).0[i]).len() > 0,
        forall|j: int| 0 <= j < tok_scan(s).1.len() ==> is_word_byte(#[trigger] tok_scan(s).1[j]),
    decreases s.len(),
{
    if s.len() > 0 {
        lemma_tok_scan_words(s.drop_last());
        let st = tok_scan(s.drop_last());
        let b = s.last();
        assert(tok_scan(s) == tok_step(st, b));
        assert forall|i: int| 0 <= i < tok_scan(s).0.len() implies (#[trigger] tok_scan(
            s,
        ).0[i]).len() > 0 by {
            if !is_word_byte(b) && st.1.len() > 0 {
                if i < st.0.len() {
                    assert(tok_scan(s).0[i] == st.0[i]);
                } else {
                    assert(tok_scan(s).0[i] == st.1);
                }
            } else {
                assert(tok_scan(s).0[i] == st.0[i]);
            }
        }
        assert forall|i: int, j: int|
            0 <= i < tok_scan(s).0.len() && 0 <= j < tok_scan(s).0[i].len() implies is_word_byte(
            #[trigger] tok_scan(s).0[i][j],
        ) by {
            if !is_word_byte(b) && st.1.len() > 0 {
                if i < st.0.len() {
                    assert(tok_scan(s).0[i] == st.0[i]);
                } else {
                    assert(tok_scan(s).0[i] == st.1);
                }
            } else {
                assert(tok_scan(s).0[i] == st.0[i]);
            }
        }
    }
}

/// Every word that tokenizing yields is a nonempty run of ASCII alphabetic
/// bytes.
pub proof fn lemma_tokens_are_words(s: Seq<u8>)
    ensures
        forall|i: int, j: int|
            0 <= i < spec_tokens(s).len() && 0 <= j < spec_tokens(s)[i].len() ==> is_word_byte(
                #[trigger] spec_tokens(s)[i][j],
            ),
        forall|i: int| 0 <= i < spec_tokens(s).len() ==> (#[trigger] spec_tokens(s)[i]).len() > 0,
{
    lemma_tok_scan_words(s);
}

/// An empty input has no words: tokenizing it yields no pairs.
pub proof fn lemma_tokenize_empty()
    ensures
        spec_tokens(Seq::<u8>::empty()) == Seq::<Seq<u8>>::empty(),
        spec_pairs(Seq::<u8>::empty()) == Seq::<(Seq<u8>, Seq<u8>)>::empty(),
{
    assert(spec_tokens(Seq::<u8>::empty()) =~= Seq::<Seq<u8>>::empty());
    assert(spec_pairs(Seq::<u8>::empty()) =~= Seq::<(Seq<u8>, Seq<u8>)>::empty());
}

/// Splits raw bytes into words and returns one `(word, "1")` pair per word,
/// in scan order. Total: any byte sequence is accepted.
pub fn tokenize(contents: &[u8]) -> (r: Vec<WcMapResult>)
    ensures
        pairs_of(r@) == spec_pairs(contents@),
{
    let ghost s = contents@;
    let mut out: Vec<WcMapResult> = Vec::new();
    let mut cur: Vec<u8> = Vec::new();
    let mut i: usize = 0;
    while i < contents.len()
        invariant
            0 <= i <= s.len(),
            s == contents@,
            pairs_of(out@) =~= to_pairs(tok_scan(s.take(i as int)).0),
            cur@ == tok_scan(s.take(i as int)).1,
            forall|j: int| 0 <= j < cur@.len() ==> is_word_byte(cur@[j]),
        decreases s.len() - i,
    {
        let b = contents[i];
        proof {
            assert(s.take(i + 1).drop_last() =~= s.take(i as int));
            assert(s.take(i + 1).last() == b);
        }
        if (97 <= b && b <= 122) || (65 <= b && b <= 90) {
            cur.push(b);
        } else if cur.len() > 0 {
            let ghost closed = cur@;
            let word = string_from_ascii(cur);
            let entry = WcMapResult { k: word, v: one_string() };
            proof {
                assert(entry@ == (closed, one_value()));
            }
            proof {
                lemma_pairs_of_push(out@, entry);
                lemma_to_pairs_push(tok_scan(s.take(i as int)).0, closed);
            }
            out.push(entry);
            cur = Vec::new();
        }
        i = i + 1;
    }
    if cur.len() > 0 {
        let ghost closed = cur@;
        let word = string_from_ascii(cur);
        let entry = WcMapResult { k: word, v: one_string() };
        proof {
            assert(entry@ == (closed, one_value()));
            assert(s.take(s.len() as int) =~= s);
            lemma_pairs_of_push(out@, entry);
            lemma_to_pairs_push(tok_scan(s).0, closed);
        }
        out.push(entry);
    }
    proof {
        assert(s.take(s.len() as int) =~= s);
        assert(pairs_of(out@) =~= spec_pairs(s));
    }
    out
}

/// A pair sequence sorted ascending by key, in lexicographic byte order.
pub open spec fn sorted_keys(ps: Seq<(Seq<u8>, Seq<u8>)>) -> bool {
    forall|i: int, j: int| 0 <= i < j < ps.len() ==> lex_le(#[trigger] ps[i].0, #[trigger] ps[j].0)
}

proof fn lemma_pairs_of_insert(s: Seq<WcMapResult>, i: int, e: WcMapResult)
    requires
        0 <= i <= s.len(),
    ensures
        pairs_of(s.insert(i, e)) =~= pairs_of(s).insert(i, e@),
{
    s.insert_ensures(i, e);
    pairs_of(s).insert_ensures(i, e@);
}

proof fn lemma_keys_of_insert(ps: Seq<(Seq<u8>, Seq<u8>)>, i: int, p: (Seq<u8>, Seq<u8>))
    requires
        0 <= i <= ps.len(),
    ensures
        keys_of(ps.insert(i, p)) =~= keys_of(ps).insert(i, p.0),
{
    ps.insert_ensures(i, p);
    keys_of(ps).insert_ensures(i, p.0);
}

/// Sorts a pair sequence ascending by key. The result is a permutation of
/// the input: both the pair multiset and the key multiset are kept.
pub fn sort_entries(v: &Vec<WcMapResult>) -> (r: Vec<WcMapResult>)
    ensures
        sorted_keys(pairs_of(r@)),
        pairs_of(r@).to_multiset() == pairs_of(v@).to_multiset(),
        keys_of(pairs_of(r@)).to_multiset() == keys_of(pairs_of(v@)).to_multiset(),
{
    let mut out: Vec<WcMapResult> = Vec::new();
    proof {
        assert(out@ =~= v@.take(0));
    }
    let mut i: usize = 0;
    while i < v.len()
        invariant
            0 <= i <= v@.len(),
            sorted_keys(pairs_of(out@)),
            pairs_of(out@).to_multiset() == pairs_of(v@.take(i as int)).to_multiset(),
            keys_of(pairs_of(out@)).to_multiset() == keys_of(
                pairs_of(v@.take(i as int)),
            ).to_multiset(),
        decreases v@.len() - i,
    {
        let e = clone_entry(&v[i]);
        let mut p: usize = 0;
        while p < out.len() && str_le(out[p].k.as_str(), e.k.as_str())
            invariant
                0 <= p <= out@.len(),
                forall|q: int| 0 <= q < p ==> lex_le(#[trigger] pairs_of(out@)[q].0, e@.0),
            decreases out@.len() - p,
        {
            p = p + 1;
        }
        proof {
            broadcast use vstd::seq_lib::group_to_multiset_ensures, vstd::seq_lib::to_multiset_insert;

            let ps = pairs_of(out@);
            let inserted = ps.insert(p as int, e@);
            ps.insert_ensures(p as int, e@);
            if (p as int) < ps.len() {
                lemma_lex_le_total(ps[p as int].0, e@.0);
                assert forall|q: int| p <= q < ps.len() implies lex_le(
                    e@.0,
                    #[trigger] ps[q].0,
                ) by {
                    lemma_lex_le_refl(ps[p as int].0);
                    lemma_lex_le_transitive(e@.0, ps[p as int].0, ps[q].0);
                }
            }
            assert forall|x: int, y: int| 0 <= x < y < inserted.len() implies lex_le(
                #[trigger] inserted[x].0,
                #[trigger] inserted[y].0,
            ) by {
                if y > p && x < p {
                    lemma_lex_le_transitive(inserted[x].0, e@.0, inserted[y].0);
                }
            }
            lemma_pairs_of_insert(out@, p as int, e);
            lemma_keys_of_insert(pairs_of(out@), p as int, e@);
            assert(v@.take(i + 1).drop_last() =~= v@.take(i as int));
            assert(v@.take(i + 1) =~= v@.take(i as int).push(v@[i as int]));
            lemma_pairs_of_push(v@.take(i as int), v@[i as int]);
            lemma_to_pairs_keys(pairs_of(v@.take(i as int)), v@[i as int]@);
        }
        out.insert(p, e);
        i = i + 1;
    }
    proof {
        assert(v@.take(v@.len() as int) =~= v@);
    }
    out
}

proof fn lemma_to_pairs_keys(ps: Seq<(Seq<u8>, Seq<u8>)>, p: (Seq<u8>, Seq<u8>))
    ensures
        keys_of(ps.push(p)) =~= keys_of(ps).push(p.0),
{
}

/// The key order as a relation value, for use with sequence sorting.
pub open spec fn lex_le_fn() -> spec_fn(Seq<u8>, Seq<u8>) -> bool {
    |a: Seq<u8>, b: Seq<u8>| lex_le(a, b)
}

/// Lexicographic byte order is a total order.
pub proof fn lemma_lex_le_total_ordering()
    ensures
        vstd::relations::total_ordering(lex_le_fn()),
{
    let leq = lex_le_fn();
    assert forall|a: Seq<u8>| #[trigger] leq(a, a) by {
        lemma_lex_le_refl(a);
    }
    assert forall|a: Seq<u8>, b: Seq<u8>| #[trigger] leq(a, b) && #[trigger] leq(b, a) implies a
        == b by {
        lemma_lex_le_antisymmetric(a, b);
    }
    assert forall|a: Seq<u8>, b: Seq<u8>, c: Seq<u8>|
        #[trigger] leq(a, b) && #[trigger] leq(b, c) implies leq(a, c) by {
        lemma_lex_le_transitive(a, b, c);
    }
    assert forall|a: Seq<u8>, b: Seq<u8>| #[trigger] leq(a, b) || #[trigger] leq(b, a) by {
        lemma_lex_le_total(a, b);
    }
}

/// A key sequence sorted ascending, in lexicographic byte order.
pub open spec fn sorted_le(ks: Seq<Seq<u8>>) -> bool {
    vstd::relations::sorted_by(ks, lex_le_fn())
}

/// The canonical sorted arrangement of a key sequence.
pub open spec fn sorted_key_seq(ks: Seq<Seq<u8>>) -> Seq<Seq<u8>> {
    ks.sort_by(lex_le_fn())
}

/// Sorting is canonical: two sorted key sequences holding the same keys with
/// the same multiplicities are the same sequence.
pub proof fn lemma_sorted_unique(a: Seq<Seq<u8>>, b: Seq<Seq<u8>>)
    requires
        sorted_le(a),
        sorted_le(b),
        a.to_multiset() == b.to_multiset(),
    ensures
        a == b,
    decreases a.len(),
{
    broadcast use vstd::seq_lib::group_to_multiset_ensures;

    assert(a.to_multiset().len() == a.len());
    assert(b.to_multiset().len() == b.len());
    if a.len() == 0 {
        assert(a =~= b);
    } else {
        let x = a.last();
        let y = b.last();
        assert(a.contains(x) && b.contains(y));
        assert(b.to_multiset().count(x) > 0);
        assert(a.to_multiset().count(y) > 0);
        assert(b.contains(x) && a.contains(y));
        let i = choose|i: int| 0 <= i < b.len() && b[i] == x;
        let j = choose|j: int| 0 <= j < a.len() && a[j] == y;
        let leq = lex_le_fn();
        assert(leq(b[i], y) || i == b.len() - 1);
        assert(leq(a[j], x) || j == a.len() - 1);
        lemma_lex_le_refl(x);
        lemma_lex_le_refl(y);
        assert(lex_le(x, y) && lex_le(y, x));
        lemma_lex_le_antisymmetric(x, y);
        assert(a.drop_last() =~= a.remove(a.len() - 1));
        assert(b.drop_last() =~= b.remove(b.len() - 1));
        assert(a.drop_last().to_multiset() == b.drop_last().to_multiset());
        lemma_sorted_unique(a.drop_last(), b.drop_last());
        assert(a =~= a.drop_last().push(a.last()));
        assert(b =~= b.drop_last().push(b.last()));
        assert(a =~= b);
    }
}

/// One aggregated row of the word-frequency table.
pub struct WordCount {
    pub word: String,
    pub count: usize,
}

impl View for WordCount {
    type V = (Seq<u8>, nat);

    open spec fn view(&self) -> (Seq<u8>, nat) {
        (text(self.word@), self.count as nat)
    }
}

/// The models of a sequence of rows: each as (word bytes, count).
pub open spec fn counts_of(s: Seq<WordCount>) -> Seq<(Seq<u8>, nat)> {
    s.map_values(|c: WordCount| c@)
}

proof fn lemma_counts_of_push(s: Seq<WordCount>, c: WordCount)
    ensures
        counts_of(s.push(c)) =~= counts_of(s).push(c@),
{
}

/// One collapse step: the scan state is (rows emitted, current key, its
/// count so far); a count of zero means nothing has been scanned yet.
pub open spec fn col_step(
    st: (Seq<(Seq<u8>, nat)>, Seq<u8>, nat),
    k: Seq<u8>,
) -> (Seq<(Seq<u8>, nat)>, Seq<u8>, nat) {
    if st.2 == 0 {
        (st.0, k, 1nat)
    } else if k == st.1 {
        (st.0, st.1, (st.2 + 1) as nat)
    } else {
        (st.0.push((st.1, st.2)), k, 1nat)
    }
}

/// The collapse scan state after reading the keys left to right.
pub open spec fn col_scan(keys: Seq<Seq<u8>>) -> (Seq<(Seq<u8>, nat)>, Seq<u8>, nat)
    decreases keys.len(),
{
    if keys.len() == 0 {
        (Seq::<(Seq<u8>, nat)>::empty(), Seq::<u8>::empty(), 0nat)
    } else {
        col_step(col_scan(keys.drop_last()), keys.last())
    }
}

/// Run-length collapse of a key sequence: one (key, count) row per maximal
/// run of equal adjacent keys, in scan order. Only when the keys are sorted
/// do the counts equal the keys' true multiplicities.
pub open spec fn spec_collapse(keys: Seq<Seq<u8>>) -> Seq<(Seq<u8>, nat)> {
    let st = col_scan(keys);
    if st.2 == 0 {
        st.0
    } else {
        st.0.push((st.1, st.2))
    }
}

/// Dropping the last key keeps a key sequence sorted, and the last key is
/// no smaller than any other.
proof fn lemma_sorted_drop_last(ks: Seq<Seq<u8>>)
    requires
        sorted_le(ks),
        ks.len() > 0,
    ensures
        sorted_le(ks.drop_last()),
        ks.len() > 1 ==> lex_le(ks.drop_last().last(), ks.last()),
{
    let rest = ks.drop_last();
    assert forall|i: int, j: int| 0 <= i < j < rest.len() implies #[trigger] lex_le_fn()(
        rest[i],
        rest[j],
    ) by {
        assert(rest[i] == ks[i]);
        assert(rest[j] == ks[j]);
        assert(lex_le_fn()(ks[i], ks[j]));
    }
    if ks.len() > 1 {
        assert(lex_le_fn()(ks[ks.len() - 2], ks[ks.len() - 1]));
        assert(rest.last() == ks[ks.len() - 2]);
    }
}

/// On a sorted key sequence the collapse scan's current run is exactly the
/// run of the last key: the run key is the last key and the run count is
/// that key's full multiplicity.
proof fn lemma_col_scan_sorted(ks: Seq<Seq<u8>>)
    requires
        sorted_le(ks),
        ks.len() > 0,
    ensures
        col_scan(ks).2 >= 1,
        col_scan(ks).1 == ks.last(),
        col_scan(ks).2 == ks.to_multiset().count(ks.last()),
    decreases ks.len(),
{
    broadcast use vstd::seq_lib::group_to_multiset_ensures, vstd::multiset::group_multiset_axioms;

    let rest = ks.drop_last();
    let x = ks.last();
    assert(ks =~= rest.push(x));
    assert(ks.to_multiset() == rest.to_multiset().insert(x));
    assert(col_scan(ks) == col_step(col_scan(rest), x));
    if rest.len() == 0 {
        assert(rest.to_multiset() =~= Multiset::<Seq<u8>>::empty());
        assert(ks.to_multiset().count(x) == 1);
    } else {
        let y = rest.last();
        lemma_sorted_drop_last(ks);
        lemma_col_scan_sorted(rest);
        assert(lex_le(y, x));
        if x == y {
            assert(ks.to_multiset().count(x) == rest.to_multiset().count(x) + 1);
        } else {
            if rest.to_multiset().count(x) > 0 {
                assert(rest.contains(x));
                let i = choose|i: int| 0 <= i < rest.len() && rest[i] == x;
                if i < rest.len() - 1 {
                    assert(lex_le_fn()(rest[i], rest[rest.len() - 1]));
                }
                lemma_lex_le_antisymmetric(x, y);
                assert(false);
            }
            assert(ks.to_multiset().count(x) == 1);
        }
    }
}

/// Collapse is correct on sorted input: the rows' keys are strictly
/// increasing, each row's count is its key's exact multiplicity in the
/// input, and the rows carry precisely the keys that occur in the input.
pub proof fn lemma_collapse_counts(ks: Seq<Seq<u8>>)
    requires
        sorted_le(ks),
    ensures
        forall|i: int, j: int|
            0 <= i < j < spec_collapse(ks).len() ==> lex_le(
                #[trigger] spec_collapse(ks)[i].0,
                #[trigger] spec_collapse(ks)[j].0,
            ) && spec_collapse(ks)[i].0 != spec_collapse(ks)[j].0,
        forall|i: int|
            0 <= i < spec_collapse(ks).len() ==> (#[trigger] spec_collapse(ks)[i]).1
                == ks.to_multiset().count(spec_collapse(ks)[i].0) && spec_collapse(ks)[i].1 >= 1,
        forall|w: Seq<u8>|
            #[trigger] ks.contains(w) <==> exists|i: int|
                0 <= i < spec_collapse(ks).len() && (#[trigger] spec_collapse(ks)[i]).0 == w,
    decreases ks.len(),
{
    broadcast use vstd::seq_lib::group_to_multiset_ensures, vstd::multiset::group_multiset_axioms;

    if ks.len() == 0 {
        assert(spec_collapse(ks).len() == 0);
        assert forall|w: Seq<u8>| !(#[trigger] ks.contains(w)) by {}
    } else {
        let rest = ks.drop_last();
        let x = ks.last();
        assert(ks =~= rest.push(x));
        assert(ks.to_multiset() == rest.to_multiset().insert(x));
        lemma_sorted_drop_last(ks);
        lemma_collapse_counts(rest);
        lemma_col_scan_sorted(ks);
        let rows = spec_collapse(ks);
        let prior = spec_collapse(rest);
        if rest.len() == 0 {
            assert(rest.to_multiset() =~= Multiset::<Seq<u8>>::empty());
            assert(rows =~= seq![(x, 1nat)]);
            assert forall|w: Seq<u8>| #[trigger] ks.contains(w) implies exists|i: int|
                0 <= i < rows.len() && (#[trigger] rows[i]).0 == w by {
                assert(w == x);
                assert(rows[0].0 == w);
            }
        } else {
            let y = rest.last();
            lemma_col_scan_sorted(rest);
            let st = col_scan(rest);
            assert(prior == st.0.push((st.1, st.2)));
            if x == y {
                assert(rows =~= st.0.push((st.1, (st.2 + 1) as nat)));
                assert(rows.len() == prior.len());
                assert forall|i: int| 0 <= i < rows.len() - 1 implies rows[i] == prior[i] by {}
                assert(rows.last().0 == x && prior.last().0 == x);
                assert forall|i: int| 0 <= i < rows.len() implies (#[trigger] rows[i]).1
                    == ks.to_multiset().count(rows[i].0) && rows[i].1 >= 1 by {
                    if i < rows.len() - 1 {
                        assert(rows[i] == prior[i]);
                        assert(prior[i].0 != prior.last().0);
                        assert(ks.to_multiset().count(rows[i].0) == rest.to_multiset().count(
                            rows[i].0,
                        ));
                    }
                }
                assert forall|w: Seq<u8>| #[trigger] ks.contains(w) implies exists|i: int|
                    0 <= i < rows.len() && (#[trigger] rows[i]).0 == w by {
                    if w == x {
                        assert(rows[rows.len() - 1].0 == w);
                    } else {
                        assert(rest.contains(w));
                        let i = choose|i: int|
                            0 <= i < prior.len() && (#[trigger] prior[i]).0 == w;
                        assert(rows[i].0 == w);
                    }
                }
                assert forall|w: Seq<u8>|
                    (exists|i: int|
                        0 <= i < rows.len() && (#[trigger] rows[i]).0 == w) implies ks.contains(
                    w,
                ) by {
                    let i = choose|i: int| 0 <= i < rows.len() && (#[trigger] rows[i]).0 == w;
                    if i < rows.len() - 1 {
                        assert(prior[i].0 == w);
                        assert(rest.contains(w));
                        assert(ks.to_multiset().count(w) >= rest.to_multiset().count(w));
                        assert(ks.to_multiset().count(w) > 0);
                    } else {
                        assert(ks.contains(x));
                    }
                }
            } else {
                assert(rows =~= prior.push((x, 1nat)));
                assert(ks.to_multiset().count(x) == 1);
                assert(rest.to_multiset().count(x) == 0);
                assert forall|i: int| 0 <= i < rows.len() - 1 implies lex_le(
                    (#[trigger] rows[i]).0,
                    x,
                ) && rows[i].0 != x by {
                    assert(rows[i] == prior[i]);
                    assert(prior[i].1 == rest.to_multiset().count(prior[i].0));
                    assert(prior[i].1 >= 1);
                    assert(rest.to_multiset().count(prior[i].0) > 0);
                    assert(rest.contains(prior[i].0));
                    let q = choose|q: int| 0 <= q < rest.len() && rest[q] == prior[i].0;
                    if q < rest.len() - 1 {
                        assert(lex_le_fn()(rest[q], rest[rest.len() - 1]));
                    } else {
                        lemma_lex_le_refl(y);
                    }
                    lemma_lex_le_transitive(prior[i].0, y, x);
                }
                assert forall|i: int| 0 <= i < rows.len() implies (#[trigger] rows[i]).1
                    == ks.to_multiset().count(rows[i].0) && rows[i].1 >= 1 by {
                    if i < rows.len() - 1 {
                        assert(rows[i] == prior[i]);
                        assert(ks.to_multiset().count(rows[i].0) == rest.to_multiset().count(
                            rows[i].0,
                        ));
                    }
                }
                assert forall|w: Seq<u8>| #[trigger] ks.contains(w) implies exists|i: int|
                    0 <= i < rows.len() && (#[trigger] rows[i]).0 == w by {
                    if w == x {
                        assert(rows[rows.len() - 1].0 == w);
                    } else {
                        assert(rest.contains(w));
                        let i = choose|i: int|
                            0 <= i < prior.len() && (#[trigger] prior[i]).0 == w;
                        assert(rows[i].0 == w);
                    }
                }
                assert forall|w: Seq<u8>|
                    (exists|i: int|
                        0 <= i < rows.len() && (#[trigger] rows[i]).0 == w) implies ks.contains(
                    w,
                ) by {
                    let i = choose|i: int| 0 <= i < rows.len() && (#[trigger] rows[i]).0 == w;
                    if i < rows.len() - 1 {
                        assert(prior[i].0 == w);
                        assert(rest.contains(w));
                        assert(ks.to_multiset().count(w) >= rest.to_multiset().count(w));
                        assert(ks.to_multiset().count(w) > 0);
                    } else {
                        assert(ks.contains(x));
                    }
                }
            }
        }
    }
}

/// Run-length collapse of a pair sequence into per-key counts.
///
/// The input is expected to be sorted ascending by key; that is a documented
/// caller responsibility, not a checked one. On unsorted input the scan
/// still terminates and yields one row per maximal run of equal adjacent
/// keys, which fragments the counts of keys that recur in separate runs.
pub fn collapse(pairs: &Vec<WcMapResult>) -> (r: Vec<WordCount>)
    ensures
        counts_of(r@) == spec_collapse(keys_of(pairs_of(pairs@))),
{
    let ghost kseq = keys_of(pairs_of(pairs@));
    let mut out: Vec<WordCount> = Vec::new();
    let mut cur_key: String = String::new();
    let mut cnt: usize = 0;
    let mut i: usize = 0;
    proof {
        vstd::utf8::is_ascii_chars_encode_utf8(cur_key@);
        assert(text(cur_key@) =~= Seq::<u8>::empty());
    }
    while i < pairs.len()
        invariant
            0 <= i <= pairs@.len(),
            cnt <= i,
            kseq == keys_of(pairs_of(pairs@)),
            counts_of(out@) =~= col_scan(kseq.take(i as int)).0,
            text(cur_key@) == col_scan(kseq.take(i as int)).1,
            cnt as nat == col_scan(kseq.take(i as int)).2,
        decreases pairs@.len() - i,
    {
        proof {
            assert(kseq.take(i + 1).drop_last() =~= kseq.take(i as int));
            assert(kseq.take(i + 1).last() == pairs@[i as int]@.0);
        }
        let e = &pairs[i];
        if cnt == 0 {
            cur_key = e.k.clone();
            cnt = 1;
        } else if str_text_eq(e.k.as_str(), cur_key.as_str()) {
            cnt = cnt + 1;
        } else {
            proof {
                lemma_counts_of_push(out@, WordCount { word: cur_key, count: cnt });
            }
            out.push(WordCount { word: cur_key, count: cnt });
            cur_key = e.k.clone();
            cnt = 1;
        }
        i = i + 1;
    }
    proof {
        assert(kseq.take(kseq.len() as int) =~= kseq);
    }
    if cnt > 0 {
        proof {
            lemma_counts_of_push(out@, WordCount { word: cur_key, count: cnt });
        }
        out.push(WordCount { word: cur_key, count: cnt });
    }
    proof {
        assert(counts_of(out@) =~= spec_collapse(kseq));
    }
    out
}

/// The map kernel applied to one file: tokenizes its contents. The file
/// name plays no part; the operation is total, so the result is always `Ok`.
pub fn wc_map(file_name: &str, contents: &[u8]) -> (r: Result<Vec<WcMapResult>, MapCallError>)
    ensures
        r is Ok,
        pairs_of(r.unwrap()@) == spec_pairs(contents@),
{
    let _ = file_name;
    Ok(tokenize(contents))
}

} // verus!

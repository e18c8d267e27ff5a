//! Rendering of the output artifact: one line per distinct word, in the
//! format `"<word> <count>\n"`, with the count in decimal.

use vstd::prelude::*;
use crate::kernel::{counts_of, WordCount};
use crate::text::text;

verus! {

/// The decimal digits of `n`, most significant first.
pub open spec fn spec_dec(n: nat) -> Seq<u8>
    decreases n,
{
    if n < 10 {
        seq![(48 + n) as u8]
    } else {
        spec_dec(n / 10).push((48 + n % 10) as u8)
    }
}

/// Writes `n` in decimal.
pub fn dec_bytes(n: usize) -> (r: Vec<u8>)
    ensures
        r@ == spec_dec(n as nat),
{
    let mut digits: Vec<u8> = Vec::new();
    let mut m: usize = n;
    while m >= 10
        invariant
            spec_dec(n as nat) == spec_dec(m as nat) + digits@.reverse(),
        decreases m,
    {
        let d: u8 = (m % 10) as u8 + 48;
        proof {
            let ghost before = digits@;
            assert(before.push(d).reverse() =~= seq![d] + before.reverse());
            assert(spec_dec((m / 10) as nat).push(d) + before.reverse() =~= spec_dec(
                (m / 10) as nat,
            ) + (seq![d] + before.reverse()));
        }
        digits.push(d);
        m = m / 10;
    }
    proof {
        let ghost before = digits@;
        let d = (48 + m) as u8;
        assert(before.push(d).reverse() =~= seq![d] + before.reverse());
        assert(spec_dec(m as nat) =~= seq![d]);
        assert(seq![d] + before.reverse() =~= spec_dec(m as nat) + before.reverse());
    }
    digits.push(48 + m as u8);
    let mut r: Vec<u8> = Vec::new();
    let mut j: usize = digits.len();
    while j > 0
        invariant
            0 <= j <= digits@.len(),
            r@ == digits@.skip(j as int).reverse(),
        decreases j,
    {
        j = j - 1;
        proof {
            assert(digits@.skip(j as int) =~= seq![digits@[j as int]] + digits@.skip(j + 1));
            assert(digits@.skip(j as int).reverse() =~= digits@.skip(j + 1).reverse().push(
                digits@[j as int],
            ));
        }
        r.push(digits[j]);
    }
    proof {
        assert(digits@.skip(0) =~= digits@);
    }
    r
}

/// One output line for a (word, count) row: `"<word> <count>\n"`.
pub open spec fn spec_line(row: (Seq<u8>, nat)) -> Seq<u8> {
    row.0 + seq![' ' as u8] + spec_dec(row.1) + seq![10u8]
}

/// The whole output: the rows' lines, in row order.
pub open spec fn spec_render(rows: Seq<(Seq<u8>, nat)>) -> Seq<u8>
    decreases rows.len(),
{
    if rows.len() == 0 {
        Seq::<u8>::empty()
    } else {
        spec_render(rows.drop_last()) + spec_line(rows.last())
    }
}

/// Renders the word-frequency table, one line per row.
pub fn render_table(rows: &Vec<WordCount>) -> (out: Vec<u8>)
    ensures
        out@ == spec_render(counts_of(rows@)),
{
    let ghost model = counts_of(rows@);
    let mut out: Vec<u8> = Vec::new();
    proof {
        assert(model.take(0) =~= Seq::<(Seq<u8>, nat)>::empty());
    }
    let mut i: usize = 0;
    while i < rows.len()
        invariant
            0 <= i <= rows@.len(),
            model == counts_of(rows@),
            out@ == spec_render(model.take(i as int)),
        decreases rows@.len() - i,
    {
        let ghost before = out@;
        let row = &rows[i];
        out.extend_from_slice(row.word.as_str().as_bytes());
        out.push(32);
        let d = dec_bytes(row.count);
        out.extend_from_slice(d.as_slice());
        out.push(10);
        proof {
            assert(model.take(i + 1).drop_last() =~= model.take(i as int));
            assert(model.take(i + 1).last() == row@);
            assert(out@ =~= before + spec_line(row@));
            assert(out@ =~= spec_render(model.take(i + 1)));
        }
        i = i + 1;
    }
    proof {
        assert(model.take(model.len() as int) =~= model);
    }
    out
}

/// The computed part of the single-key reduce variant: the output line
/// `"<key> <count>\n"` for one key whose occurrences are the given values.
pub fn wc_reduce_line(key: &str, values: &Vec<String>) -> (out: Vec<u8>)
    ensures
        out@ == text(key@) + seq![' ' as u8] + spec_dec(values@.len() as nat) + seq![10u8],
{
    let mut out: Vec<u8> = Vec::new();
    out.extend_from_slice(key.as_bytes());
    out.push(32);
    let d = dec_bytes(values.len());
    out.extend_from_slice(d.as_slice());
    out.push(10);
    out
}

} // verus!

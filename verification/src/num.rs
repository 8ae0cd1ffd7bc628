//! Decimal numerals.
//!
//! The persisted week format and the slot labels both spell unsigned
//! integers in ordinary decimal, without leading zeros. `spec_dec` is the
//! canonical numeral of a number; `push_dec` emits it, and the lemmas here
//! connect a numeral back to its value, which the store's parser relies on.

use vstd::prelude::*;

verus! {

/// The value of a decimal digit character, or 10 for a non-digit.
pub open spec fn digit_val(c: char) -> nat {
    if c == '0' { 0 } else if c == '1' { 1 } else if c == '2' { 2 }
    else if c == '3' { 3 } else if c == '4' { 4 } else if c == '5' { 5 }
    else if c == '6' { 6 } else if c == '7' { 7 } else if c == '8' { 8 }
    else if c == '9' { 9 } else { 10 }
}

pub open spec fn is_digit(c: char) -> bool {
    digit_val(c) < 10
}

/// The digit character for a value below ten.
pub open spec fn digit_char(v: nat) -> char {
    if v == 0 { '0' } else if v == 1 { '1' } else if v == 2 { '2' }
    else if v == 3 { '3' } else if v == 4 { '4' } else if v == 5 { '5' }
    else if v == 6 { '6' } else if v == 7 { '7' } else if v == 8 { '8' }
    else { '9' }
}

/// The canonical decimal numeral of `n`: no leading zeros, and `"0"` for zero.
pub open spec fn spec_dec(n: nat) -> Seq<char>
    decreases n,
{
    if n < 10 {
        seq![digit_char(n)]
    } else {
        spec_dec(n / 10).push(digit_char(n % 10))
    }
}

/// The number a digit string denotes (most significant digit first).
pub open spec fn numeral_val(ds: Seq<char>) -> nat
    decreases ds.len(),
{
    if ds.len() == 0 {
        0
    } else {
        numeral_val(ds.drop_last()) * 10 + digit_val(ds.last())
    }
}

/// A canonical numeral: nonempty, all digits, no leading zero.
pub open spec fn is_canonical_numeral(ds: Seq<char>) -> bool {
    &&& ds.len() > 0
    &&& forall|i: int| 0 <= i < ds.len() ==> is_digit(#[trigger] ds[i])
    &&& (ds.len() > 1 ==> ds[0] != '0')
}

pub proof fn lemma_dec_digits(n: nat)
    ensures
        spec_dec(n).len() > 0,
        forall|i: int| 0 <= i < spec_dec(n).len() ==> is_digit(#[trigger] spec_dec(n)[i]),
        n > 0 ==> spec_dec(n)[0] != '0',
        n < 10 ==> spec_dec(n) == seq![digit_char(n)],
        is_canonical_numeral(spec_dec(n)),
    decreases n,
{
    if n < 10 {
        assert(spec_dec(n) == seq![digit_char(n)]);
    } else {
        lemma_dec_digits(n / 10);
        assert(spec_dec(n) == spec_dec(n / 10).push(digit_char(n % 10)));
        assert(spec_dec(n)[0] == spec_dec(n / 10)[0]);
        assert(n / 10 > 0) by (nonlinear_arith)
            requires n >= 10;
    }
}

/// The numeral of a number denotes that number.
pub proof fn lemma_dec_val(n: nat)
    ensures
        numeral_val(spec_dec(n)) == n,
    decreases n,
{
    if n < 10 {
        let ds = spec_dec(n);
        assert(ds == seq![digit_char(n)]);
        assert(ds.drop_last() =~= Seq::<char>::empty());
        assert(numeral_val(Seq::<char>::empty()) == 0);
        assert(ds.last() == digit_char(n));
        assert(numeral_val(ds) == numeral_val(ds.drop_last()) * 10 + digit_val(ds.last()));
        assert(numeral_val(ds) == digit_val(digit_char(n)));
    } else {
        lemma_dec_val(n / 10);
        let ds = spec_dec(n);
        assert(ds == spec_dec(n / 10).push(digit_char(n % 10)));
        assert(ds.drop_last() =~= spec_dec(n / 10));
        assert(ds.last() == digit_char(n % 10));
        assert(digit_val(digit_char(n % 10)) == n % 10);
        assert((n / 10) * 10 + n % 10 == n) by (nonlinear_arith);
    }
}

/// A canonical digit string is the numeral of the number it denotes.
pub proof fn lemma_canonical_numeral(ds: Seq<char>)
    requires
        is_canonical_numeral(ds),
    ensures
        spec_dec(numeral_val(ds)) == ds,
    decreases ds.len(),
{
    let n = numeral_val(ds);
    if ds.len() == 1 {
        assert(is_digit(ds[0]));
        assert(n == numeral_val(ds.drop_last()) * 10 + digit_val(ds.last()));
        assert(ds.drop_last() =~= Seq::<char>::empty());
        assert(n == digit_val(ds[0]));
        assert(digit_char(n) == ds[0]);
        assert(spec_dec(n) =~= ds);
    } else {
        let head = ds.drop_last();
        assert(head.len() == ds.len() - 1);
        assert(forall|i: int| 0 <= i < head.len() ==> is_digit(#[trigger] head[i]));
        assert(head[0] == ds[0]);
        lemma_canonical_numeral(head);
        let m = numeral_val(head);
        // the head is nonempty and has no leading zero, so its value is positive
        assert(m > 0) by {
            if m == 0 {
                lemma_dec_digits(0);
                assert(spec_dec(0) == seq![digit_char(0)]);
                assert(head =~= seq!['0']);
                assert(ds[0] == '0');
            }
        }
        let d = digit_val(ds.last());
        assert(n == m * 10 + d);
        assert(n >= 10) by (nonlinear_arith)
            requires m >= 1, n == m * 10 + d;
        assert(n / 10 == m && n % 10 == d) by (nonlinear_arith)
            requires n == m * 10 + d, d < 10;
        assert(digit_char(d) == ds.last());
        assert(spec_dec(n) == spec_dec(m).push(digit_char(d)));
        assert(spec_dec(n) =~= ds);
    }
}

/// The value of a numeral never shrinks as digits are appended.
pub proof fn lemma_numeral_prefix_le(ds: Seq<char>, k: int)
    requires
        0 <= k <= ds.len(),
        forall|i: int| 0 <= i < ds.len() ==> is_digit(#[trigger] ds[i]),
    ensures
        numeral_val(ds.take(k)) <= numeral_val(ds),
    decreases ds.len() - k,
{
    if k == ds.len() {
        assert(ds.take(k) =~= ds);
    } else {
        lemma_numeral_prefix_le(ds, k + 1);
        let p = ds.take(k);
        let q = ds.take(k + 1);
        assert(q.drop_last() =~= p);
        assert(numeral_val(q) == numeral_val(p) * 10 + digit_val(q.last()));
        assert(numeral_val(p) <= numeral_val(p) * 10) by (nonlinear_arith);
    }
}

fn digit_to_char(v: u64) -> (c: char)
    requires
        v < 10,
    ensures
        c == digit_char(v as nat),
{
    if v == 0 { '0' } else if v == 1 { '1' } else if v == 2 { '2' }
    else if v == 3 { '3' } else if v == 4 { '4' } else if v == 5 { '5' }
    else if v == 6 { '6' } else if v == 7 { '7' } else if v == 8 { '8' }
    else { '9' }
}

/// The value of a digit character; 10 signals a non-digit.
pub fn char_digit(c: char) -> (v: u64)
    ensures
        v == digit_val(c),
{
    if c == '0' { 0 } else if c == '1' { 1 } else if c == '2' { 2 }
    else if c == '3' { 3 } else if c == '4' { 4 } else if c == '5' { 5 }
    else if c == '6' { 6 } else if c == '7' { 7 } else if c == '8' { 8 }
    else if c == '9' { 9 } else { 10 }
}

/// Appends the canonical decimal numeral of `n` to `out`.
pub fn push_dec(out: &mut Vec<char>, n: u64)
    ensures
        final(out)@ == old(out)@ + spec_dec(n as nat),
    decreases n,
{
    if n < 10 {
        out.push(digit_to_char(n));
        assert(out@ =~= old(out)@ + spec_dec(n as nat));
    } else {
        let q = n / 10;
        let r = n % 10;
        push_dec(out, q);
        out.push(digit_to_char(r));
        assert(spec_dec(n as nat) == spec_dec((n as nat) / 10).push(digit_char((n as nat) % 10)));
        assert(out@ =~= old(out)@ + spec_dec(n as nat));
    }
}

} // verus!

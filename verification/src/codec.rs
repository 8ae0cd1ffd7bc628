//! The persisted week format.
//!
//! A week's grid is stored as text in a canonical form: a version header
//! line, then one line per slot, Monday column first, hours ascending.
//! Each slot line spells its two strings as length-prefixed blocks
//! (`<length>:<characters><newline>`) and ends with the slot's day of
//! month in decimal. Lengths and the day are canonical decimal numerals,
//! so every grid has exactly one encoding, and the parser accepts exactly
//! the encodings: parsing an encoded grid gives the grid back, and any
//! text the parser rejects is the encoding of no grid.

use vstd::prelude::*;
use vstd::string::StrSliceExecFns;
use vstd::arithmetic::div_mod::{lemma_fundamental_div_mod, lemma_fundamental_div_mod_converse};
use crate::model::{HourUnit, HourUnitView, WeekGrid, grid_wf};
use crate::num::{
    spec_dec, is_digit, digit_val, push_dec, char_digit,
    numeral_val, is_canonical_numeral,
    lemma_dec_digits, lemma_dec_val, lemma_canonical_numeral, lemma_numeral_prefix_le,
};
use crate::text::{str_to_chars, chars_to_string};

verus! {

/// The version line that every stored week begins with.
pub open spec fn spec_header() -> Seq<char> {
    seq!['w', 'e', 'e', 'k', '-', 'g', 'r', 'i', 'd', '-', 'v', '1', '\n']
}

/// A length-prefixed text block: `<length>:<characters><newline>`.
pub open spec fn enc_str(t: Seq<char>) -> Seq<char> {
    spec_dec(t.len()) + seq![':'] + t + seq!['\n']
}

/// One slot: its label block, its note block, then its day of month.
pub open spec fn enc_unit(u: HourUnitView) -> Seq<char> {
    enc_str(u.date_hour) + enc_str(u.content) + spec_dec(u.day as nat) + seq!['\n']
}

/// The encodings of a row of slots, in order.
pub open spec fn enc_units(us: Seq<HourUnitView>) -> Seq<char>
    decreases us.len(),
{
    if us.len() == 0 {
        Seq::empty()
    } else {
        enc_unit(us[0]) + enc_units(us.drop_first())
    }
}

/// The 91 slots of a grid in storage order: column by column, row by row.
pub open spec fn flat_units(g: Seq<Seq<HourUnitView>>) -> Seq<HourUnitView> {
    Seq::new(91, |k: int| g[k / 13][k % 13])
}

/// The canonical encoding of a whole grid.
pub open spec fn spec_encode(g: Seq<Seq<HourUnitView>>) -> Seq<char> {
    spec_header() + enc_units(flat_units(g))
}

/// Both strings of a slot are short enough to spell their length.
pub open spec fn bounded_unit(u: HourUnitView) -> bool {
    u.date_hour.len() <= u64::MAX && u.content.len() <= u64::MAX
}

pub open spec fn grid_bounded(g: Seq<Seq<HourUnitView>>) -> bool {
    forall|i: int, j: int| 0 <= i < 7 && 0 <= j < 13 ==> bounded_unit(#[trigger] g[i][j])
}

proof fn lemma_enc_units_push(us: Seq<HourUnitView>, u: HourUnitView)
    ensures
        enc_units(us.push(u)) == enc_units(us) + enc_unit(u),
    decreases us.len(),
{
    let p = us.push(u);
    assert(p.len() == us.len() + 1);
    assert(enc_units(p) == enc_unit(p[0]) + enc_units(p.drop_first()));
    if us.len() == 0 {
        assert(p[0] == u);
        assert(p.drop_first() =~= Seq::<HourUnitView>::empty());
        assert(enc_units(p.drop_first()) == Seq::<char>::empty());
        assert(enc_units(us) == Seq::<char>::empty());
        assert(enc_units(p) =~= enc_units(us) + enc_unit(u));
    } else {
        assert(p.drop_first() =~= us.drop_first().push(u));
        assert(p[0] == us[0]);
        lemma_enc_units_push(us.drop_first(), u);
        assert(enc_units(us) == enc_unit(us[0]) + enc_units(us.drop_first()));
        assert(enc_units(p) =~= enc_units(us) + enc_unit(u));
    }
}

// ---------------------------------------------------------------------------
// Parsing: numerals
// ---------------------------------------------------------------------------

/// The canonical numeral of `n` sits at `pos`, ending at a non-digit or the
/// end of the text.
pub open spec fn dec_at(s: Seq<char>, pos: int, n: nat) -> bool {
    let e = pos + spec_dec(n).len();
    &&& 0 <= pos
    &&& e <= s.len()
    &&& s.subrange(pos, e) == spec_dec(n)
    &&& (e == s.len() || !is_digit(s[e]))
}

/// At one position, at most one number's numeral can sit.
pub proof fn lemma_dec_at_unique(s: Seq<char>, pos: int, n1: nat, n2: nat)
    requires
        dec_at(s, pos, n1),
        dec_at(s, pos, n2),
    ensures
        n1 == n2,
{
    lemma_dec_digits(n1);
    lemma_dec_digits(n2);
    let l1 = spec_dec(n1).len() as int;
    let l2 = spec_dec(n2).len() as int;
    if l1 < l2 {
        assert(s[pos + l1] == spec_dec(n2)[l1]);
        assert(is_digit(s[pos + l1]));
        assert(false);
    }
    if l2 < l1 {
        assert(s[pos + l2] == spec_dec(n1)[l2]);
        assert(is_digit(s[pos + l2]));
        assert(false);
    }
    assert(spec_dec(n1) =~= spec_dec(n2));
    lemma_dec_val(n1);
    lemma_dec_val(n2);
}

/// Reads the canonical decimal numeral at `pos`, if one sits there: its
/// value must fit in a `u64`. Rejects everything else: an empty or
/// non-digit start, a leading zero, a value too large.
pub fn parse_dec(v: &Vec<char>, pos: usize) -> (r: Option<(u64, usize)>)
    requires
        pos <= v@.len(),
    ensures
        r matches Some((n, p)) ==> dec_at(v@, pos as int, n as nat)
            && p == pos + spec_dec(n as nat).len(),
        r is None ==> forall|n: nat| n <= u64::MAX ==> !dec_at(v@, pos as int, n),
{
    let len = v.len();
    let mut e = pos;
    while e < len && char_digit(v[e]) < 10
        invariant
            pos <= e <= len,
            len == v@.len(),
            forall|k: int| pos <= k < e ==> is_digit(#[trigger] v@[k]),
        decreases len - e,
    {
        e = e + 1;
    }
    assert(e == len || !is_digit(v@[e as int]));
    if e == pos {
        proof {
            assert forall|n: nat| n <= u64::MAX implies !dec_at(v@, pos as int, n) by {
                if dec_at(v@, pos as int, n) {
                    lemma_dec_digits(n);
                    let l = spec_dec(n).len() as int;
                    assert(l >= 1);
                    assert(pos + l <= v@.len());
                    assert(v@[pos as int] == spec_dec(n)[0]);
                    assert(is_digit(v@[pos as int]));
                }
            }
        }
        return None;
    }
    if e > pos + 1 && char_digit(v[pos]) == 0 {
        proof {
            assert forall|n: nat| n <= u64::MAX implies !dec_at(v@, pos as int, n) by {
                if dec_at(v@, pos as int, n) {
                    lemma_dec_digits(n);
                    assert(v@[pos as int] == spec_dec(n)[0]);
                    if n > 0 {
                        assert(spec_dec(n)[0] != '0');
                        assert(digit_val(v@[pos as int]) == 0);
                        assert(v@[pos as int] == '0') by {
                            let c = v@[pos as int];
                            assert(digit_val(c) == 0);
                            if c != '0' { assert(digit_val(c) != 0); }
                        }
                    } else {
                        assert(spec_dec(0).len() == 1);
                        assert(pos + 1 < e <= v@.len());
                        assert(is_digit(v@[pos + 1]));
                    }
                }
            }
        }
        return None;
    }
    let ghost run = v@.subrange(pos as int, e as int);
    proof {
        assert(run.len() == e - pos);
        assert(forall|k: int| 0 <= k < run.len() ==> is_digit(#[trigger] run[k]));
        assert(run.len() > 1 ==> run[0] != '0') by {
            if run.len() > 1 {
                assert(digit_val(v@[pos as int]) != 0);
                assert(run[0] == v@[pos as int]);
                if run[0] == '0' { assert(digit_val(run[0]) == 0); }
            }
        }
        assert(is_canonical_numeral(run));
        lemma_canonical_numeral(run);
    }
    let mut acc: u64 = 0;
    let mut k = pos;
    while k < e
        invariant
            pos <= k <= e <= len,
            len == v@.len(),
            run == v@.subrange(pos as int, e as int),
            forall|kk: int| pos <= kk < e ==> is_digit(#[trigger] v@[kk]),
            acc == numeral_val(v@.subrange(pos as int, k as int)),
            is_canonical_numeral(run),
            spec_dec(numeral_val(run)) == run,
            e == len || !is_digit(v@[e as int]),
        decreases e - k,
    {
        let d = char_digit(v[k]);
        assert(d < 10);
        if acc > (u64::MAX - d) / 10 {
            proof {
                let pref = v@.subrange(pos as int, k + 1);
                assert(pref.drop_last() =~= v@.subrange(pos as int, k as int));
                assert(pref.last() == v@[k as int]);
                assert(numeral_val(pref) == acc * 10 + d);
                assert(acc * 10 + d > u64::MAX) by (nonlinear_arith)
                    requires acc > (u64::MAX - d) / 10, d < 10,
                        u64::MAX - d == 10 * ((u64::MAX - d) / 10) + (u64::MAX - d) % 10,
                        0 <= (u64::MAX - d) % 10 < 10,
                {
                }
                assert(u64::MAX - d == 10 * ((u64::MAX - d) / 10) + (u64::MAX - d) % 10
                    && 0 <= (u64::MAX - d) % 10 < 10) by {
                    vstd::arithmetic::div_mod::lemma_fundamental_div_mod(u64::MAX - d, 10);
                }
                assert(pref =~= run.take(k + 1 - pos));
                lemma_numeral_prefix_le(run, k + 1 - pos);
                assert(numeral_val(run) >= numeral_val(pref));
                assert(numeral_val(run) > u64::MAX);
                assert forall|n: nat| n <= u64::MAX implies !dec_at(v@, pos as int, n) by {
                    if dec_at(v@, pos as int, n) {
                        assert(dec_at(v@, pos as int, numeral_val(run))) by {
                            assert(v@.subrange(pos as int, pos + run.len()) == run);
                        }
                        lemma_dec_at_unique(v@, pos as int, n, numeral_val(run));
                    }
                }
            }
            return None;
        }
        proof {
            assert(acc * 10 + d <= u64::MAX) by (nonlinear_arith)
                requires acc <= (u64::MAX - d) / 10, d < 10,
                    u64::MAX - d == 10 * ((u64::MAX - d) / 10) + (u64::MAX - d) % 10,
                    0 <= (u64::MAX - d) % 10 < 10,
            {
            }
            assert(u64::MAX - d == 10 * ((u64::MAX - d) / 10) + (u64::MAX - d) % 10
                && 0 <= (u64::MAX - d) % 10 < 10) by {
                vstd::arithmetic::div_mod::lemma_fundamental_div_mod(u64::MAX - d, 10);
            }
            let pref = v@.subrange(pos as int, k + 1);
            assert(pref.drop_last() =~= v@.subrange(pos as int, k as int));
            assert(pref.last() == v@[k as int]);
        }
        acc = acc * 10 + d;
        k = k + 1;
    }
    proof {
        assert(v@.subrange(pos as int, k as int) == run);
        assert(acc == numeral_val(run));
        assert(spec_dec(acc as nat) == run);
        assert(dec_at(v@, pos as int, acc as nat));
    }
    Some((acc, e))
}

// ---------------------------------------------------------------------------
// Parsing: blocks and slots
// ---------------------------------------------------------------------------

/// A length-prefixed block spelling `t` sits at `pos`.
pub open spec fn str_block_at(s: Seq<char>, pos: int, t: Seq<char>) -> bool {
    let e = pos + enc_str(t).len();
    &&& 0 <= pos
    &&& e <= s.len()
    &&& s.subrange(pos, e) == enc_str(t)
}

/// A slot line, a numeral then a newline, spelling `day` sits at `pos`.
pub open spec fn day_line_at(s: Seq<char>, pos: int, day: nat) -> bool {
    let e = pos + spec_dec(day).len() + 1;
    &&& 0 <= pos
    &&& e <= s.len()
    &&& s.subrange(pos, e) == spec_dec(day) + seq!['\n']
}

/// A whole slot encoding for `u` sits at `pos`.
pub open spec fn unit_at(s: Seq<char>, pos: int, u: HourUnitView) -> bool {
    let e = pos + enc_unit(u).len();
    &&& 0 <= pos
    &&& e <= s.len()
    &&& s.subrange(pos, e) == enc_unit(u)
}

/// What a block at `pos` pins down: its length numeral, colon, characters
/// and closing newline, each in place.
proof fn lemma_str_block_parts(s: Seq<char>, pos: int, t: Seq<char>)
    requires
        str_block_at(s, pos, t),
    ensures
        dec_at(s, pos, t.len()),
        s[pos + spec_dec(t.len()).len()] == ':',
        s.subrange(
            pos + spec_dec(t.len()).len() + 1,
            pos + spec_dec(t.len()).len() + 1 + t.len(),
        ) == t,
        s[pos + spec_dec(t.len()).len() + 1 + t.len()] == '\n',
{
    let a = spec_dec(t.len());
    let la = a.len() as int;
    let e = pos + enc_str(t).len();
    assert(enc_str(t).len() == la + 1 + t.len() + 1);
    assert(forall|idx: int| 0 <= idx < enc_str(t).len()
        ==> s[pos + idx] == #[trigger] enc_str(t)[idx]) by {
        assert(forall|idx: int| 0 <= idx < enc_str(t).len()
            ==> #[trigger] enc_str(t)[idx] == s.subrange(pos, e)[idx]);
    }
    assert(s.subrange(pos, pos + la) =~= a) by {
        assert forall|i: int| 0 <= i < la implies s.subrange(pos, pos + la)[i] == a[i] by {
            assert(s[pos + i] == enc_str(t)[i]);
            assert(enc_str(t)[i] == a[i]);
        }
    }
    assert(enc_str(t)[la] == ':');
    assert(s.subrange(pos + la + 1, pos + la + 1 + t.len()) =~= t) by {
        assert forall|i: int| 0 <= i < t.len()
            implies s.subrange(pos + la + 1, pos + la + 1 + t.len())[i] == t[i] by {
            assert(s[pos + (la + 1 + i)] == enc_str(t)[la + 1 + i]);
            assert(enc_str(t)[la + 1 + i] == t[i]);
        }
    }
    assert(enc_str(t)[la + 1 + t.len()] == '\n');
    lemma_dec_digits(t.len());
    assert(!is_digit(':'));
    assert(dec_at(s, pos, t.len()));
}

/// At one position, at most one string's block can sit.
proof fn lemma_str_block_unique(s: Seq<char>, pos: int, t1: Seq<char>, t2: Seq<char>)
    requires
        str_block_at(s, pos, t1),
        str_block_at(s, pos, t2),
    ensures
        t1 == t2,
{
    lemma_str_block_parts(s, pos, t1);
    lemma_str_block_parts(s, pos, t2);
    lemma_dec_at_unique(s, pos, t1.len(), t2.len());
    assert(t1 =~= t2);
}

/// What a day line at `pos` pins down.
proof fn lemma_day_line_parts(s: Seq<char>, pos: int, day: nat)
    requires
        day_line_at(s, pos, day),
    ensures
        dec_at(s, pos, day),
        s[pos + spec_dec(day).len()] == '\n',
{
    let a = spec_dec(day);
    let la = a.len() as int;
    let e = pos + la + 1;
    assert(forall|idx: int| 0 <= idx < la + 1
        ==> s[pos + idx] == #[trigger] (a + seq!['\n'])[idx]) by {
        assert(forall|idx: int| 0 <= idx < la + 1
            ==> #[trigger] (a + seq!['\n'])[idx] == s.subrange(pos, e)[idx]);
    }
    assert(s.subrange(pos, pos + la) =~= a);
    assert((a + seq!['\n'])[la] == '\n');
    lemma_dec_digits(day);
    assert(!is_digit('\n'));
    assert(dec_at(s, pos, day));
}

/// What a slot line at `pos` pins down: its three pieces in place.
proof fn lemma_unit_at_parts(s: Seq<char>, pos: int, u: HourUnitView)
    requires
        unit_at(s, pos, u),
    ensures
        str_block_at(s, pos, u.date_hour),
        str_block_at(s, pos + enc_str(u.date_hour).len(), u.content),
        day_line_at(
            s,
            pos + enc_str(u.date_hour).len() + enc_str(u.content).len(),
            u.day as nat,
        ),
{
    let a = enc_str(u.date_hour);
    let b = enc_str(u.content);
    let c = spec_dec(u.day as nat) + seq!['\n'];
    let e = pos + enc_unit(u).len();
    assert(enc_unit(u) =~= a + b + c);
    assert(enc_unit(u).len() == a.len() + b.len() + c.len());
    assert(forall|idx: int| 0 <= idx < enc_unit(u).len()
        ==> s[pos + idx] == #[trigger] enc_unit(u)[idx]) by {
        assert(forall|idx: int| 0 <= idx < enc_unit(u).len()
            ==> #[trigger] enc_unit(u)[idx] == s.subrange(pos, e)[idx]);
    }
    assert(s.subrange(pos, pos + a.len()) =~= a) by {
        assert forall|i: int| 0 <= i < a.len()
            implies s.subrange(pos, pos + a.len())[i] == a[i] by {
            assert(s[pos + i] == enc_unit(u)[i]);
            assert(enc_unit(u)[i] == a[i]);
        }
    }
    assert(s.subrange(pos + a.len(), pos + a.len() + b.len()) =~= b) by {
        assert forall|i: int| 0 <= i < b.len()
            implies s.subrange(pos + a.len(), pos + a.len() + b.len())[i] == b[i] by {
            assert(s[pos + (a.len() + i)] == enc_unit(u)[a.len() + i]);
            assert(enc_unit(u)[a.len() + i] == b[i]);
        }
    }
    assert(s.subrange(pos + a.len() + b.len(), pos + a.len() + b.len() + c.len()) =~= c) by {
        assert forall|i: int| 0 <= i < c.len()
            implies s.subrange(pos + a.len() + b.len(), pos + a.len() + b.len() + c.len())[i]
                == c[i] by {
            assert(s[pos + (a.len() + b.len() + i)] == enc_unit(u)[a.len() + b.len() + i]);
            assert(enc_unit(u)[a.len() + b.len() + i] == c[i]);
        }
    }
}

/// At one position, at most one slot's line can sit.
proof fn lemma_unit_at_unique(s: Seq<char>, pos: int, u1: HourUnitView, u2: HourUnitView)
    requires
        unit_at(s, pos, u1),
        unit_at(s, pos, u2),
    ensures
        u1 == u2,
{
    lemma_unit_at_parts(s, pos, u1);
    lemma_unit_at_parts(s, pos, u2);
    lemma_str_block_unique(s, pos, u1.date_hour, u2.date_hour);
    let p1 = pos + enc_str(u1.date_hour).len();
    lemma_str_block_unique(s, p1, u1.content, u2.content);
    let p2 = p1 + enc_str(u1.content).len();
    lemma_day_line_parts(s, p2, u1.day as nat);
    lemma_day_line_parts(s, p2, u2.day as nat);
    lemma_dec_at_unique(s, p2, u1.day as nat, u2.day as nat);
    assert(u1 =~= u2);
}

/// Reads the length-prefixed block at `pos`, if one sits there; its length
/// numeral must be canonical and fit in a `u64`.
pub fn parse_str_block(v: &Vec<char>, pos: usize) -> (r: Option<(String, usize)>)
    requires
        pos <= v@.len(),
    ensures
        r matches Some(b) ==> str_block_at(v@, pos as int, b.0@)
            && b.1 == pos + enc_str(b.0@).len(),
        r is None ==> forall|t: Seq<char>| t.len() <= u64::MAX
            ==> !str_block_at(v@, pos as int, t),
{
    let parsed = parse_dec(v, pos);
    if parsed.is_none() {
        proof {
            assert forall|t: Seq<char>| t.len() <= u64::MAX
                implies !str_block_at(v@, pos as int, t) by {
                if str_block_at(v@, pos as int, t) {
                    lemma_str_block_parts(v@, pos as int, t);
                }
            }
        }
        return None;
    }
    let (n, p1) = parsed.unwrap();
    if p1 == v.len() || v[p1] != ':' {
        proof {
            assert forall|t: Seq<char>| t.len() <= u64::MAX
                implies !str_block_at(v@, pos as int, t) by {
                if str_block_at(v@, pos as int, t) {
                    lemma_str_block_parts(v@, pos as int, t);
                    lemma_dec_at_unique(v@, pos as int, n as nat, t.len());
                }
            }
        }
        return None;
    }
    let start = p1 + 1;
    let avail = v.len() - start;
    if n > avail as u64 || (n as usize) == avail {
        proof {
            assert forall|t: Seq<char>| t.len() <= u64::MAX
                implies !str_block_at(v@, pos as int, t) by {
                if str_block_at(v@, pos as int, t) {
                    lemma_str_block_parts(v@, pos as int, t);
                    lemma_dec_at_unique(v@, pos as int, n as nat, t.len());
                }
            }
        }
        return None;
    }
    let n_us = n as usize;
    let end = start + n_us;
    if v[end] != '\n' {
        proof {
            assert forall|t: Seq<char>| t.len() <= u64::MAX
                implies !str_block_at(v@, pos as int, t) by {
                if str_block_at(v@, pos as int, t) {
                    lemma_str_block_parts(v@, pos as int, t);
                    lemma_dec_at_unique(v@, pos as int, n as nat, t.len());
                }
            }
        }
        return None;
    }
    let mut cs: Vec<char> = Vec::new();
    let mut k = start;
    while k < end
        invariant
            start <= k <= end <= v@.len(),
            cs@ == v@.subrange(start as int, k as int),
        decreases end - k,
    {
        cs.push(v[k]);
        assert(cs@ =~= v@.subrange(start as int, k + 1));
        k = k + 1;
    }
    let t = chars_to_string(&cs);
    proof {
        assert(t@ == v@.subrange(start as int, end as int));
        assert(t@.len() == n);
        assert(enc_str(t@) =~= spec_dec(n as nat) + seq![':'] + t@ + seq!['\n']);
        assert(v@.subrange(pos as int, end + 1 as int) =~= enc_str(t@)) by {
            assert(v@.subrange(pos as int, p1 as int) == spec_dec(n as nat));
            assert(forall|idx: int| 0 <= idx < p1 - pos
                ==> v@[pos + idx] == #[trigger] spec_dec(n as nat)[idx]);
            assert(forall|idx: int| 0 <= idx < n
                ==> #[trigger] v@.subrange(start as int, end as int)[idx] == v@[start + idx]);
        }
    }
    Some((t, end + 1))
}

/// Reads a day-of-month line at `pos`: a canonical numeral fitting `u32`,
/// then a newline.
pub fn parse_day_line(v: &Vec<char>, pos: usize) -> (r: Option<(u32, usize)>)
    requires
        pos <= v@.len(),
    ensures
        r matches Some(b) ==> day_line_at(v@, pos as int, b.0 as nat)
            && b.1 == pos + spec_dec(b.0 as nat).len() + 1,
        r is None ==> forall|day: nat| day <= u32::MAX
            ==> !day_line_at(v@, pos as int, day),
{
    let parsed = parse_dec(v, pos);
    if parsed.is_none() {
        proof {
            assert forall|day: nat| day <= u32::MAX
                implies !day_line_at(v@, pos as int, day) by {
                if day_line_at(v@, pos as int, day) {
                    lemma_day_line_parts(v@, pos as int, day);
                }
            }
        }
        return None;
    }
    let (n, p1) = parsed.unwrap();
    if n > 0xffff_ffff || p1 == v.len() || v[p1] != '\n' {
        proof {
            assert forall|day: nat| day <= u32::MAX
                implies !day_line_at(v@, pos as int, day) by {
                if day_line_at(v@, pos as int, day) {
                    lemma_day_line_parts(v@, pos as int, day);
                    lemma_dec_at_unique(v@, pos as int, n as nat, day);
                }
            }
        }
        return None;
    }
    proof {
        assert(v@.subrange(pos as int, p1 + 1 as int)
            =~= spec_dec(n as nat) + seq!['\n']) by {
            assert(v@.subrange(pos as int, p1 as int) == spec_dec(n as nat));
            assert(forall|idx: int| 0 <= idx < p1 - pos
                ==> v@[pos + idx] == #[trigger] spec_dec(n as nat)[idx]);
        }
    }
    Some((n as u32, p1 + 1))
}

/// Reads one slot line at `pos`, if one sits there.
pub fn parse_unit(v: &Vec<char>, pos: usize) -> (r: Option<(HourUnit, usize)>)
    requires
        pos <= v@.len(),
    ensures
        r matches Some(b) ==> unit_at(v@, pos as int, b.0@)
            && b.1 == pos + enc_unit(b.0@).len(),
        r is None ==> forall|u: HourUnitView| bounded_unit(u)
            ==> !unit_at(v@, pos as int, u),
{
    let first = parse_str_block(v, pos);
    if first.is_none() {
        proof {
            assert forall|u: HourUnitView| bounded_unit(u)
                implies !unit_at(v@, pos as int, u) by {
                if unit_at(v@, pos as int, u) {
                    lemma_unit_at_parts(v@, pos as int, u);
                }
            }
        }
        return None;
    }
    let (dh, p1) = first.unwrap();
    let second = parse_str_block(v, p1);
    if second.is_none() {
        proof {
            assert forall|u: HourUnitView| bounded_unit(u)
                implies !unit_at(v@, pos as int, u) by {
                if unit_at(v@, pos as int, u) {
                    lemma_unit_at_parts(v@, pos as int, u);
                    lemma_str_block_unique(v@, pos as int, dh@, u.date_hour);
                }
            }
        }
        return None;
    }
    let (ct, p2) = second.unwrap();
    let third = parse_day_line(v, p2);
    if third.is_none() {
        proof {
            assert forall|u: HourUnitView| bounded_unit(u)
                implies !unit_at(v@, pos as int, u) by {
                if unit_at(v@, pos as int, u) {
                    lemma_unit_at_parts(v@, pos as int, u);
                    lemma_str_block_unique(v@, pos as int, dh@, u.date_hour);
                    lemma_str_block_unique(v@, p1 as int, ct@, u.content);
                }
            }
        }
        return None;
    }
    let (day, p3) = third.unwrap();
    let u = HourUnit { date_hour: dh, content: ct, day };
    proof {
        assert(enc_unit(u@) =~= enc_str(dh@) + enc_str(ct@)
            + spec_dec(day as nat) + seq!['\n']);
        assert(v@.subrange(pos as int, p3 as int) =~= enc_unit(u@)) by {
            let a = enc_str(dh@);
            let b = enc_str(ct@);
            let c = spec_dec(day as nat) + seq!['\n'];
            assert(v@.subrange(pos as int, p1 as int) == a);
            assert(v@.subrange(p1 as int, p2 as int) == b);
            assert(v@.subrange(p2 as int, p3 as int) == c);
            assert forall|idx: int| 0 <= idx < p3 - pos
                implies v@.subrange(pos as int, p3 as int)[idx] == enc_unit(u@)[idx] by {
                if idx < a.len() {
                    assert(v@[pos + idx] == v@.subrange(pos as int, p1 as int)[idx]);
                    assert(enc_unit(u@)[idx] == a[idx]);
                } else if idx < a.len() + b.len() {
                    assert(v@[pos + idx] == v@.subrange(p1 as int, p2 as int)[idx - a.len()]);
                    assert(enc_unit(u@)[idx] == b[idx - a.len()]);
                } else {
                    assert(v@[pos + idx]
                        == v@.subrange(p2 as int, p3 as int)[idx - a.len() - b.len()]);
                    assert(enc_unit(u@)[idx] == c[idx - a.len() - b.len()]);
                }
            }
        }
        assert(unit_at(v@, pos as int, u@));
    }
    Some((u, p3))
}

// ---------------------------------------------------------------------------
// Parsing: the whole grid
// ---------------------------------------------------------------------------

/// The views of a row of slots.
pub open spec fn unit_views(s: Seq<HourUnit>) -> Seq<HourUnitView> {
    Seq::new(s.len(), |k: int| s[k]@)
}

/// Where the encoding of slot `k` starts within an encoded grid.
pub open spec fn units_pos(us: Seq<HourUnitView>, k: int) -> int {
    spec_header().len() + enc_units(us.take(k)).len() as int
}

proof fn lemma_units_split(us: Seq<HourUnitView>, k: int)
    requires
        0 <= k <= us.len(),
    ensures
        enc_units(us) == enc_units(us.take(k)) + enc_units(us.skip(k)),
    decreases k,
{
    if k == 0 {
        assert(us.take(0) =~= Seq::<HourUnitView>::empty());
        assert(us.skip(0) =~= us);
        assert(enc_units(us.take(0)) == Seq::<char>::empty());
        assert(enc_units(us) =~= enc_units(us.take(k)) + enc_units(us.skip(k)));
    } else {
        let d = us.drop_first();
        assert(enc_units(us) == enc_unit(us[0]) + enc_units(d));
        lemma_units_split(d, k - 1);
        assert(d.take(k - 1) =~= us.take(k).drop_first());
        assert(d.skip(k - 1) =~= us.skip(k));
        assert(us.take(k).len() == k);
        assert(enc_units(us.take(k)) == enc_unit(us.take(k)[0]) + enc_units(us.take(k).drop_first()));
        assert(us.take(k)[0] == us[0]);
        assert(enc_units(us) =~= enc_units(us.take(k)) + enc_units(us.skip(k)));
    }
}

/// In an encoded grid, slot `k`'s line sits at its boundary position.
proof fn lemma_unit_at_position(v: Seq<char>, us: Seq<HourUnitView>, k: int)
    requires
        v == spec_header() + enc_units(us),
        0 <= k < us.len(),
    ensures
        unit_at(v, units_pos(us, k), us[k]),
{
    lemma_units_split(us, k);
    let sk = us.skip(k);
    assert(sk.len() == us.len() - k);
    assert(enc_units(sk) == enc_unit(sk[0]) + enc_units(sk.drop_first()));
    assert(sk[0] == us[k]);
    let p = spec_header() + enc_units(us.take(k));
    let m = enc_unit(us[k]);
    let rest = enc_units(sk.drop_first());
    assert(v =~= p + m + rest);
    let pos = units_pos(us, k);
    assert(p.len() == pos);
    assert(v.len() == pos + m.len() + rest.len());
    assert(v.subrange(pos, pos + m.len()) =~= m) by {
        assert forall|i: int| 0 <= i < m.len()
            implies v.subrange(pos, pos + m.len())[i] == m[i] by {
            assert(v[pos + i] == (p + m + rest)[pos + i]);
            assert((p + m + rest)[pos + i] == m[i]);
        }
    }
}

/// Slot lines read back in order: a parsed prefix of an encoded grid is
/// the grid's own prefix of slots.
proof fn lemma_parsed_matches(v: Seq<char>, us: Seq<HourUnitView>, ps: Seq<HourUnitView>)
    requires
        v == spec_header() + enc_units(us),
        ps.len() <= us.len(),
        spec_header().len() + enc_units(ps).len() as int <= v.len(),
        v.subrange(0, spec_header().len() + enc_units(ps).len() as int)
            == spec_header() + enc_units(ps),
    ensures
        ps == us.take(ps.len() as int),
    decreases ps.len(),
{
    let k = ps.len() as int;
    if k == 0 {
        assert(ps =~= us.take(0));
    } else {
        let q = ps.drop_last();
        let last = ps.last();
        assert(ps =~= q.push(last));
        lemma_enc_units_push(q, last);
        assert(enc_units(ps) == enc_units(q) + enc_unit(last));
        let hlen = spec_header().len() as int;
        let posq = hlen + enc_units(q).len();
        let pos = hlen + enc_units(ps).len();
        assert(pos == posq + enc_unit(last).len());
        let full = spec_header() + enc_units(ps);
        assert(forall|i: int| 0 <= i < pos ==> v[i] == #[trigger] full[i]) by {
            assert(forall|i: int| 0 <= i < pos
                ==> v[i] == #[trigger] v.subrange(0, pos)[i]);
        }
        assert(v.subrange(0, posq) =~= spec_header() + enc_units(q)) by {
            assert forall|i: int| 0 <= i < posq
                implies v.subrange(0, posq)[i] == (spec_header() + enc_units(q))[i] by {
                assert(v[i] == full[i]);
                assert(full =~= (spec_header() + enc_units(q)) + enc_unit(last));
                assert(full[i] == (spec_header() + enc_units(q))[i]);
            }
        }
        lemma_parsed_matches(v, us, q);
        assert(q == us.take(k - 1));
        lemma_unit_at_position(v, us, k - 1);
        assert(units_pos(us, k - 1) == posq);
        assert(unit_at(v, posq, us[k - 1]));
        assert(unit_at(v, posq, last)) by {
            assert(v.subrange(posq, posq + enc_unit(last).len()) =~= enc_unit(last)) by {
                assert forall|i: int| 0 <= i < enc_unit(last).len()
                    implies v.subrange(posq, posq + enc_unit(last).len())[i]
                        == enc_unit(last)[i] by {
                    assert(v[posq + i] == full[posq + i]);
                    assert(full =~= (spec_header() + enc_units(q)) + enc_unit(last));
                    assert(full[posq + i] == enc_unit(last)[i]);
                }
            }
        }
        lemma_unit_at_unique(v, posq, last, us[k - 1]);
        assert(ps =~= us.take(k));
    }
}

/// The flat slot index `k` names column `k / 13`, row `k % 13`.
proof fn lemma_flat_index(k: int)
    requires
        0 <= k < 91,
    ensures
        0 <= k / 13 < 7,
        0 <= k % 13 < 13,
        k == 13 * (k / 13) + k % 13,
{
    lemma_fundamental_div_mod(k, 13);
    vstd::arithmetic::div_mod::lemma_mod_bound(k, 13);
    vstd::arithmetic::div_mod::lemma_div_pos_is_pos(k, 13);
    assert(k / 13 < 7) by (nonlinear_arith)
        requires k < 91, k == 13 * (k / 13) + k % 13, 0 <= k % 13, 0 <= k / 13;
}

/// Recognizes the version header at the start of the text.
fn check_header(v: &Vec<char>) -> (r: bool)
    ensures
        r <==> (v@.len() >= 13 && v@.subrange(0, 13) == spec_header()),
{
    if v.len() < 13 {
        return false;
    }
    let r = v[0] == 'w' && v[1] == 'e' && v[2] == 'e' && v[3] == 'k' && v[4] == '-'
        && v[5] == 'g' && v[6] == 'r' && v[7] == 'i' && v[8] == 'd' && v[9] == '-'
        && v[10] == 'v' && v[11] == '1' && v[12] == '\n';
    proof {
        if r {
            assert(v@.subrange(0, 13) =~= spec_header());
        } else {
            if v@.subrange(0, 13) == spec_header() {
                assert(forall|i: int| 0 <= i < 13
                    ==> v@[i] == #[trigger] spec_header()[i]) by {
                    assert(forall|i: int| 0 <= i < 13
                        ==> v@[i] == #[trigger] v@.subrange(0, 13)[i]);
                }
                assert(v@[0] == 'w' && v@[1] == 'e' && v@[2] == 'e' && v@[3] == 'k'
                    && v@[4] == '-' && v@[5] == 'g' && v@[6] == 'r' && v@[7] == 'i'
                    && v@[8] == 'd' && v@[9] == '-' && v@[10] == 'v' && v@[11] == '1'
                    && v@[12] == '\n');
                assert(false);
            }
        }
    }
    r
}

/// Reads a whole grid back from its canonical text. Returns the grid
/// whose encoding the text is, and rejects any text that encodes no grid.
pub fn parse_grid(v: &Vec<char>) -> (r: Option<WeekGrid>)
    ensures
        r matches Some(g) ==> g.wf() && v@ == spec_encode(g@),
        r is None ==> forall|gv: Seq<Seq<HourUnitView>>|
            grid_wf(gv) && grid_bounded(gv) ==> v@ != spec_encode(gv),
{
    let ok = check_header(v);
    if !ok {
        proof {
            assert forall|gv: Seq<Seq<HourUnitView>>|
                grid_wf(gv) && grid_bounded(gv) implies v@ != spec_encode(gv) by {
                if v@ == spec_encode(gv) {
                    assert(v@.len() >= 13);
                    assert(v@.subrange(0, 13) =~= spec_header()) by {
                        assert forall|i: int| 0 <= i < 13
                            implies v@.subrange(0, 13)[i] == spec_header()[i] by {
                            assert(v@[i] == (spec_header() + enc_units(flat_units(gv)))[i]);
                        }
                    }
                }
            }
        }
        return None;
    }
    let mut flat: Vec<HourUnit> = Vec::new();
    let mut pos: usize = 13;
    let mut k: usize = 0;
    proof {
        assert(unit_views(flat@) =~= Seq::<HourUnitView>::empty());
        assert(enc_units(unit_views(flat@)).len() == 0);
        assert(v@.subrange(0, 13) =~= spec_header() + enc_units(unit_views(flat@)));
    }
    while k < 91
        invariant
            k <= 91,
            flat@.len() == k,
            13 <= pos <= v@.len(),
            pos == 13 + enc_units(unit_views(flat@)).len(),
            v@.subrange(0, pos as int) == spec_header() + enc_units(unit_views(flat@)),
        decreases 91 - k,
    {
        let parsed = parse_unit(v, pos);
        if parsed.is_none() {
            proof {
                assert forall|gv: Seq<Seq<HourUnitView>>|
                    grid_wf(gv) && grid_bounded(gv) implies v@ != spec_encode(gv) by {
                    if v@ == spec_encode(gv) {
                        let us = flat_units(gv);
                        assert(us.len() == 91);
                        lemma_parsed_matches(v@, us, unit_views(flat@));
                        assert(unit_views(flat@) == us.take(k as int));
                        lemma_unit_at_position(v@, us, k as int);
                        assert(units_pos(us, k as int) == pos);
                        lemma_flat_index(k as int);
                        assert(bounded_unit(us[k as int]));
                        assert(!unit_at(v@, pos as int, us[k as int]));
                        assert(false);
                    }
                }
            }
            return None;
        }
        let (u, p) = parsed.unwrap();
        let ghost old_views = unit_views(flat@);
        flat.push(u);
        proof {
            assert(unit_views(flat@) =~= old_views.push(u@));
            lemma_enc_units_push(old_views, u@);
            let m = enc_unit(u@);
            assert(v@.subrange(0, p as int)
                =~= spec_header() + enc_units(unit_views(flat@))) by {
                assert(v@.subrange(pos as int, pos + m.len()) == m);
                assert forall|i: int| 0 <= i < p
                    implies v@.subrange(0, p as int)[i]
                        == (spec_header() + enc_units(unit_views(flat@)))[i] by {
                    let rhs = spec_header() + enc_units(unit_views(flat@));
                    assert(rhs =~= (spec_header() + enc_units(old_views)) + m);
                    if i < pos {
                        assert(v@[i] == v@.subrange(0, pos as int)[i]);
                        assert(rhs[i] == (spec_header() + enc_units(old_views))[i]);
                    } else {
                        assert(v@[i] == v@.subrange(pos as int, pos + m.len())[i - pos]);
                        assert(rhs[i] == m[i - pos]);
                    }
                }
            }
        }
        pos = p;
        k = k + 1;
    }
    if pos != v.len() {
        proof {
            assert forall|gv: Seq<Seq<HourUnitView>>|
                grid_wf(gv) && grid_bounded(gv) implies v@ != spec_encode(gv) by {
                if v@ == spec_encode(gv) {
                    let us = flat_units(gv);
                    assert(us.len() == 91);
                    lemma_parsed_matches(v@, us, unit_views(flat@));
                    assert(unit_views(flat@) == us.take(91));
                    assert(us.take(91) =~= us);
                    assert(v@.len() == 13 + enc_units(us).len());
                    assert(false);
                }
            }
        }
        return None;
    }
    proof {
        assert(v@.subrange(0, pos as int) =~= v@);
    }
    let ghost flatv = flat@;
    let mut days: Vec<Vec<HourUnit>> = Vec::new();
    let mut i: usize = 0;
    while i < 7
        invariant
            i <= 7,
            days@.len() == i,
            flat@.len() == 91 - 13 * i,
            flat@ == flatv.skip(13 * i as int),
            flatv.len() == 91,
            forall|ii: int| 0 <= ii < i ==> (#[trigger] days@[ii]@).len() == 13,
            forall|ii: int, jj: int| 0 <= ii < i && 0 <= jj < 13
                ==> (#[trigger] days@[ii]@[jj]) == flatv[13 * ii + jj],
        decreases 7 - i,
    {
        let mut col: Vec<HourUnit> = Vec::new();
        let mut j: usize = 0;
        while j < 13
            invariant
                i < 7,
                j <= 13,
                col@.len() == j,
                flat@.len() == 91 - 13 * i - j,
                flatv.len() == 91,
                flat@ == flatv.skip(13 * i + j as int),
                forall|jj: int| 0 <= jj < j
                    ==> (#[trigger] col@[jj]) == flatv[13 * (i as int) + jj],
            decreases 13 - j,
        {
            let u = flat.remove(0);
            proof {
                assert(u == flatv.skip(13 * (i as int) + j as int)[0]);
                assert(flatv.skip(13 * (i as int) + j as int)[0]
                    == flatv[13 * (i as int) + j as int]);
                assert(flat@ =~= flatv.skip(13 * (i as int) + j + 1));
            }
            col.push(u);
            j = j + 1;
        }
        days.push(col);
        i = i + 1;
    }
    let g = WeekGrid { days };
    proof {
        assert(g@.len() == 7);
        assert(forall|ii: int| 0 <= ii < 7 ==> (#[trigger] g@[ii]).len() == 13);
        assert(grid_wf(g@));
        assert(flat_units(g@) =~= unit_views(flatv)) by {
            assert forall|kk: int| 0 <= kk < 91
                implies flat_units(g@)[kk] == unit_views(flatv)[kk] by {
                lemma_flat_index(kk);
                let ii = kk / 13;
                let jj = kk % 13;
                assert(g@[ii][jj] == days@[ii]@[jj]@);
                assert(days@[ii]@[jj] == flatv[13 * ii + jj]);
                assert(13 * ii + jj == kk);
            }
        }
        assert(v@ == spec_encode(g@));
    }
    Some(g)
}

// ---------------------------------------------------------------------------
// Injectivity: every text encodes at most one grid
// ---------------------------------------------------------------------------

proof fn lemma_enc_units_injective(us1: Seq<HourUnitView>, us2: Seq<HourUnitView>)
    requires
        us1.len() == us2.len(),
        enc_units(us1) == enc_units(us2),
    ensures
        us1 == us2,
    decreases us1.len(),
{
    if us1.len() == 0 {
        assert(us1 =~= us2);
    } else {
        let w = enc_units(us1);
        let m1 = enc_unit(us1[0]);
        let m2 = enc_unit(us2[0]);
        let r1 = enc_units(us1.drop_first());
        let r2 = enc_units(us2.drop_first());
        assert(w == m1 + r1);
        assert(w == m2 + r2);
        assert(unit_at(w, 0, us1[0])) by {
            assert(w.subrange(0, m1.len() as int) =~= m1) by {
                assert forall|i: int| 0 <= i < m1.len()
                    implies w.subrange(0, m1.len() as int)[i] == m1[i] by {
                    assert(w[i] == (m1 + r1)[i]);
                }
            }
        }
        assert(unit_at(w, 0, us2[0])) by {
            assert(w.subrange(0, m2.len() as int) =~= m2) by {
                assert forall|i: int| 0 <= i < m2.len()
                    implies w.subrange(0, m2.len() as int)[i] == m2[i] by {
                    assert(w[i] == (m2 + r2)[i]);
                }
            }
        }
        lemma_unit_at_unique(w, 0, us1[0], us2[0]);
        assert(r1 =~= r2) by {
            assert forall|i: int| 0 <= i < r1.len() implies r1[i] == r2[i] by {
                assert((m1 + r1)[m1.len() + i] == r1[i]);
                assert((m2 + r2)[m2.len() + i] == r2[i]);
                assert(w[m1.len() + i] == r1[i]);
                assert(w[m1.len() + i] == r2[i]);
            }
        }
        lemma_enc_units_injective(us1.drop_first(), us2.drop_first());
        assert(us1 =~= us2) by {
            assert forall|i: int| 0 <= i < us1.len() implies us1[i] == us2[i] by {
                if i == 0 {
                } else {
                    assert(us1.drop_first()[i - 1] == us1[i]);
                    assert(us2.drop_first()[i - 1] == us2[i]);
                }
            }
        }
    }
}

/// A text is the canonical encoding of at most one grid.
pub proof fn lemma_encode_injective(g1: Seq<Seq<HourUnitView>>, g2: Seq<Seq<HourUnitView>>)
    requires
        grid_wf(g1),
        grid_wf(g2),
        spec_encode(g1) == spec_encode(g2),
    ensures
        g1 == g2,
{
    let a = enc_units(flat_units(g1));
    let b = enc_units(flat_units(g2));
    assert(spec_encode(g1) == spec_header() + a);
    assert(spec_encode(g2) == spec_header() + b);
    assert((spec_header() + a).len() == spec_header().len() + a.len());
    assert((spec_header() + b).len() == spec_header().len() + b.len());
    assert(a.len() == b.len());
    assert(a =~= b) by {
        assert forall|i: int| 0 <= i < a.len() implies a[i] == b[i] by {
            assert((spec_header() + a)[spec_header().len() + i] == a[i]);
            assert((spec_header() + b)[spec_header().len() + i] == b[i]);
        }
    }
    lemma_enc_units_injective(flat_units(g1), flat_units(g2));
    assert forall|i: int, j: int| 0 <= i < 7 && 0 <= j < 13
        implies g1[i][j] == #[trigger] g2[i][j] by {
        let k = 13 * i + j;
        lemma_fundamental_div_mod_converse(k, 13, i, j);
        assert(k / 13 == i && k % 13 == j);
        assert(flat_units(g1)[k] == g1[i][j]);
        assert(flat_units(g2)[k] == g2[i][j]);
    }
    assert(g1 =~~= g2);
}

/// Appends the canonical block for one string.
fn encode_str_block(out: &mut Vec<char>, s: &str)
    ensures
        final(out)@ == old(out)@ + enc_str(s@),
{
    let n = s.unicode_len();
    push_dec(out, n as u64);
    out.push(':');
    let mut cs = str_to_chars(s);
    out.append(&mut cs);
    out.push('\n');
    assert(out@ =~= old(out)@ + enc_str(s@));
}

/// Appends the canonical line for one slot.
fn encode_unit(out: &mut Vec<char>, u: &HourUnit)
    ensures
        final(out)@ == old(out)@ + enc_unit(u@),
{
    encode_str_block(out, u.date_hour.as_str());
    encode_str_block(out, u.content.as_str());
    push_dec(out, u.day as u64);
    out.push('\n');
    assert(out@ =~= old(out)@ + enc_unit(u@));
}

fn push_header(out: &mut Vec<char>)
    ensures
        final(out)@ == old(out)@ + spec_header(),
{
    out.push('w');
    out.push('e');
    out.push('e');
    out.push('k');
    out.push('-');
    out.push('g');
    out.push('r');
    out.push('i');
    out.push('d');
    out.push('-');
    out.push('v');
    out.push('1');
    out.push('\n');
    assert(out@ =~= old(out)@ + spec_header());
}

/// The canonical text of a grid.
pub fn encode_grid(g: &WeekGrid) -> (r: String)
    requires
        g.wf(),
    ensures
        r@ == spec_encode(g@),
{
    let ghost flat = flat_units(g@);
    let mut out: Vec<char> = Vec::new();
    push_header(&mut out);
    let mut k: usize = 0;
    while k < 91
        invariant
            k <= 91,
            g.wf(),
            flat == flat_units(g@),
            out@ == spec_header() + enc_units(flat.take(k as int)),
        decreases 91 - k,
    {
        let i = k / 13;
        let j = k % 13;
        let u = g.slot(i, j);
        proof {
            assert(flat[k as int] == g@[k as int / 13][k as int % 13]);
        }
        encode_unit(&mut out, u);
        proof {
            assert(flat.take(k + 1 as int) =~= flat.take(k as int).push(flat[k as int]));
            lemma_enc_units_push(flat.take(k as int), flat[k as int]);
            assert(out@ =~= spec_header() + enc_units(flat.take(k + 1 as int)));
        }
        k = k + 1;
    }
    proof {
        assert(flat.take(91) =~= flat);
        assert(out@ =~= spec_encode(g@));
    }
    chars_to_string(&out)
}

} // verus!

//! The on-disk encoding of the interval sequence.
//!
//! The database file holds a JSON array of three-element arrays, one per
//! record: `[[1700000000,null,true],[1700000100,1700000200,false]]`. This is
//! the canonical shape that [`encode`] produces — no whitespace, decimal
//! numbers without leading zeros — and [`decode`] accepts exactly that shape,
//! or an empty or whitespace-only file, which stands for the empty sequence.
//! Decoding inverts encoding: see [`lemma_round_trip`].

use vstd::prelude::*;
use crate::error::FlatFileError;
use crate::record::Timestamp;

verus! {

pub const LBRACKET: u8 = 91;

pub const RBRACKET: u8 = 93;

pub const COMMA: u8 = 44;

// ---------------------------------------------------------------------------
// The canonical encoding, as a spec-level printer.
// ---------------------------------------------------------------------------

/// The decimal digits of `n`, most significant first.
pub open spec fn dec_digits(n: nat) -> Seq<u8>
    decreases n,
{
    if n < 10 {
        seq![(48 + n) as u8]
    } else {
        dec_digits(n / 10).push((48 + n % 10) as u8)
    }
}

/// The bytes of the keyword `null`.
pub open spec fn null_bytes() -> Seq<u8> {
    seq![110u8, 117u8, 108u8, 108u8]
}

/// The bytes of the keyword `true`.
pub open spec fn true_bytes() -> Seq<u8> {
    seq![116u8, 114u8, 117u8, 101u8]
}

/// The bytes of the keyword `false`.
pub open spec fn false_bytes() -> Seq<u8> {
    seq![102u8, 97u8, 108u8, 115u8, 101u8]
}

/// The encoding of the optional end timestamp.
pub open spec fn enc_end(e: Option<u64>) -> Seq<u8> {
    match e {
        Option::None => null_bytes(),
        Option::Some(v) => dec_digits(v as nat),
    }
}

/// The encoding of the active flag.
pub open spec fn enc_bool(b: bool) -> Seq<u8> {
    if b {
        true_bytes()
    } else {
        false_bytes()
    }
}

/// The encoding of one record: `[start,end,active]`.
pub open spec fn enc_record(r: Timestamp) -> Seq<u8> {
    seq![LBRACKET] + dec_digits(r.0 as nat) + seq![COMMA] + enc_end(r.1) + seq![COMMA]
        + enc_bool(r.2) + seq![RBRACKET]
}

/// The comma-separated encodings of a sequence of records.
pub open spec fn enc_records(s: Seq<Timestamp>) -> Seq<u8>
    decreases s.len(),
{
    if s.len() == 0 {
        Seq::empty()
    } else if s.len() == 1 {
        enc_record(s[0])
    } else {
        enc_record(s[0]) + seq![COMMA] + enc_records(s.drop_first())
    }
}

/// The encoding of the whole database: the records between brackets.
pub open spec fn spec_encode(s: Seq<Timestamp>) -> Seq<u8> {
    seq![LBRACKET] + enc_records(s) + seq![RBRACKET]
}

// ---------------------------------------------------------------------------
// The decoder, as a spec-level recursive-descent parser.
// ---------------------------------------------------------------------------

/// ASCII space, tab, line feed or carriage return.
pub open spec fn is_ws(b: u8) -> bool {
    b == 32 || b == 9 || b == 10 || b == 13
}

/// Every byte of `s` is whitespace; holds of the empty sequence.
pub open spec fn all_ws(s: Seq<u8>) -> bool {
    forall|i: int| 0 <= i < s.len() ==> is_ws(#[trigger] s[i])
}

/// ASCII decimal digit.
pub open spec fn is_digit(b: u8) -> bool {
    48 <= b <= 57
}

/// The first position at or after `i` that does not hold a digit.
pub open spec fn digit_run_end(s: Seq<u8>, i: int) -> int
    decreases s.len() - i,
{
    if 0 <= i < s.len() && is_digit(s[i]) {
        digit_run_end(s, i + 1)
    } else {
        i
    }
}

/// The value of the decimal digits `s[i..j)`.
pub open spec fn digits_value(s: Seq<u8>, i: int, j: int) -> nat
    decreases j - i,
{
    if j <= i {
        0
    } else {
        digits_value(s, i, j - 1) * 10 + (s[j - 1] - 48) as nat
    }
}

/// The word `w` occurs in `s` at position `i`.
pub open spec fn matches_at(s: Seq<u8>, i: int, w: Seq<u8>) -> bool {
    &&& 0 <= i
    &&& i + w.len() <= s.len()
    &&& forall|k: int| 0 <= k < w.len() ==> s[i + k] == #[trigger] w[k]
}

/// The byte `b` stands in `s` at position `i`.
pub open spec fn byte_at(s: Seq<u8>, i: int, b: u8) -> bool {
    0 <= i < s.len() && s[i] == b
}

/// Parse a canonical decimal `u64` at position `i`: at least one digit, no
/// leading zero, value within range. Returns the value and the position
/// after the digits.
pub open spec fn parse_u64_at(s: Seq<u8>, i: int) -> Option<(u64, int)> {
    let j = digit_run_end(s, i);
    if j == i {
        Option::None
    } else if s[i] == 48 && j > i + 1 {
        Option::None
    } else if digits_value(s, i, j) > u64::MAX {
        Option::None
    } else {
        Option::Some((digits_value(s, i, j) as u64, j))
    }
}

/// Parse the optional end timestamp: `null` or a decimal number.
pub open spec fn parse_end_at(s: Seq<u8>, i: int) -> Option<(Option<u64>, int)> {
    if matches_at(s, i, null_bytes()) {
        Option::Some((Option::None, i + 4))
    } else {
        match parse_u64_at(s, i) {
            Option::Some((v, j)) => Option::Some((Option::Some(v), j)),
            Option::None => Option::None,
        }
    }
}

/// Parse the active flag: `true` or `false`.
pub open spec fn parse_bool_at(s: Seq<u8>, i: int) -> Option<(bool, int)> {
    if matches_at(s, i, true_bytes()) {
        Option::Some((true, i + 4))
    } else if matches_at(s, i, false_bytes()) {
        Option::Some((false, i + 5))
    } else {
        Option::None
    }
}

/// Parse one record `[start,end,active]` at position `i`.
pub open spec fn parse_record_at(s: Seq<u8>, i: int) -> Option<(Timestamp, int)> {
    if !byte_at(s, i, LBRACKET) {
        Option::None
    } else {
        match parse_u64_at(s, i + 1) {
            Option::None => Option::None,
            Option::Some((st, j)) => {
                if !byte_at(s, j, COMMA) {
                    Option::None
                } else {
                    match parse_end_at(s, j + 1) {
                        Option::None => Option::None,
                        Option::Some((e, k)) => {
                            if !byte_at(s, k, COMMA) {
                                Option::None
                            } else {
                                match parse_bool_at(s, k + 1) {
                                    Option::None => Option::None,
                                    Option::Some((b, m)) => {
                                        if byte_at(s, m, RBRACKET) {
                                            Option::Some((Timestamp(st, e, b), m + 1))
                                        } else {
                                            Option::None
                                        }
                                    },
                                }
                            }
                        },
                    }
                }
            },
        }
    }
}

/// Parse one or more comma-separated records starting at position `i`.
pub open spec fn parse_records_at(s: Seq<u8>, i: int) -> Option<(Seq<Timestamp>, int)>
    decreases s.len() - i,
        via parse_records_at_decreases
{
    match parse_record_at(s, i) {
        Option::None => Option::None,
        Option::Some((r, j)) => {
            if byte_at(s, j, COMMA) {
                match parse_records_at(s, j + 1) {
                    Option::None => Option::None,
                    Option::Some((rs, k)) => Option::Some((seq![r] + rs, k)),
                }
            } else {
                Option::Some((seq![r], j))
            }
        },
    }
}

#[via_fn]
proof fn parse_records_at_decreases(s: Seq<u8>, i: int) {
    lemma_parse_record_advances(s, i);
}

/// Parse a whole database: `[]`, or records between brackets, consuming all
/// of `s`.
pub open spec fn parse_top(s: Seq<u8>) -> Option<Seq<Timestamp>> {
    if !byte_at(s, 0, LBRACKET) {
        Option::None
    } else if s.len() == 2 && s[1] == RBRACKET {
        Option::Some(Seq::empty())
    } else {
        match parse_records_at(s, 1) {
            Option::None => Option::None,
            Option::Some((rs, j)) => {
                if j + 1 == s.len() && byte_at(s, j, RBRACKET) {
                    Option::Some(rs)
                } else {
                    Option::None
                }
            },
        }
    }
}

/// What a database file means: an empty or whitespace-only file is the empty
/// sequence; anything else must be a canonical encoding.
pub open spec fn spec_decode(s: Seq<u8>) -> Option<Seq<Timestamp>> {
    if all_ws(s) {
        Option::Some(Seq::empty())
    } else {
        parse_top(s)
    }
}

// ---------------------------------------------------------------------------
// Positions only ever move forward through the input.
// ---------------------------------------------------------------------------

proof fn lemma_digit_run_end_bounds(s: Seq<u8>, i: int)
    requires
        0 <= i <= s.len(),
    ensures
        i <= digit_run_end(s, i) <= s.len(),
    decreases s.len() - i,
{
    if i < s.len() && is_digit(s[i]) {
        lemma_digit_run_end_bounds(s, i + 1);
    }
}

proof fn lemma_parse_u64_advances(s: Seq<u8>, i: int)
    ensures
        parse_u64_at(s, i) matches Option::Some((v, j)) ==> 0 <= i < j <= s.len(),
{
    if parse_u64_at(s, i) is Some {
        let j = digit_run_end(s, i);
        if j != i {
            // The run advanced, so the first branch of its definition applied.
            assert(0 <= i < s.len() && is_digit(s[i]));
            lemma_digit_run_end_bounds(s, i);
        }
    }
}

proof fn lemma_parse_end_advances(s: Seq<u8>, i: int)
    ensures
        parse_end_at(s, i) matches Option::Some((e, j)) ==> 0 <= i < j <= s.len(),
{
    lemma_parse_u64_advances(s, i);
}

proof fn lemma_parse_bool_advances(s: Seq<u8>, i: int)
    ensures
        parse_bool_at(s, i) matches Option::Some((b, j)) ==> 0 <= i < j <= s.len(),
{
}

proof fn lemma_parse_record_advances(s: Seq<u8>, i: int)
    ensures
        parse_record_at(s, i) matches Option::Some((r, j)) ==> 0 <= i < j <= s.len(),
{
    if parse_record_at(s, i) is Some {
        lemma_parse_u64_advances(s, i + 1);
        let (st, j) = parse_u64_at(s, i + 1)->Some_0;
        lemma_parse_end_advances(s, j + 1);
        let (e, k) = parse_end_at(s, j + 1)->Some_0;
        lemma_parse_bool_advances(s, k + 1);
    }
}

// ---------------------------------------------------------------------------
// The decoder inverts the encoder.
// ---------------------------------------------------------------------------

proof fn lemma_dec_digits_len(n: nat)
    ensures
        dec_digits(n).len() >= 1,
    decreases n,
{
    if n >= 10 {
        lemma_dec_digits_len(n / 10);
    }
}

proof fn lemma_dec_digits_digits(n: nat)
    ensures
        forall|k: int| 0 <= k < dec_digits(n).len() ==> is_digit(#[trigger] dec_digits(n)[k]),
    decreases n,
{
    if n >= 10 {
        lemma_dec_digits_digits(n / 10);
        assert forall|k: int| 0 <= k < dec_digits(n).len() implies is_digit(
            #[trigger] dec_digits(n)[k],
        ) by {
            if k < dec_digits(n / 10).len() {
                assert(dec_digits(n)[k] == dec_digits(n / 10)[k]);
            }
        }
    }
}

proof fn lemma_dec_digits_leading(n: nat)
    ensures
        dec_digits(n)[0] == 48 ==> n == 0,
    decreases n,
{
    if n >= 10 {
        lemma_dec_digits_leading(n / 10);
        lemma_dec_digits_len(n / 10);
        assert(dec_digits(n)[0] == dec_digits(n / 10)[0]);
    }
}

proof fn lemma_matches_split(s: Seq<u8>, i: int, a: Seq<u8>, b: Seq<u8>)
    requires
        matches_at(s, i, a + b),
    ensures
        matches_at(s, i, a),
        matches_at(s, i + a.len(), b),
{
    assert forall|k: int| 0 <= k < a.len() implies s[i + k] == #[trigger] a[k] by {
        assert((a + b)[k] == a[k]);
    }
    assert forall|k: int| 0 <= k < b.len() implies s[i + a.len() + k] == #[trigger] b[k] by {
        assert((a + b)[a.len() + k] == b[k]);
        assert(s[i + (a.len() + k)] == (a + b)[a.len() + k]);
    }
}

proof fn lemma_digit_run_end_of(s: Seq<u8>, i: int, d: Seq<u8>)
    requires
        matches_at(s, i, d),
        forall|k: int| 0 <= k < d.len() ==> is_digit(#[trigger] d[k]),
        i + d.len() == s.len() || !is_digit(s[i + d.len()]),
    ensures
        digit_run_end(s, i) == i + d.len(),
    decreases d.len(),
{
    if d.len() == 0 {
    } else {
        assert(s[i + 0] == d[0]);
        assert(is_digit(s[i]));
        let e = d.drop_first();
        assert forall|k: int| 0 <= k < e.len() implies s[i + 1 + k] == #[trigger] e[k] by {
            assert(e[k] == d[k + 1]);
            assert(s[i + (k + 1)] == d[k + 1]);
        }
        assert forall|k: int| 0 <= k < e.len() implies is_digit(#[trigger] e[k]) by {
            assert(e[k] == d[k + 1]);
        }
        lemma_digit_run_end_of(s, i + 1, e);
    }
}

proof fn lemma_digits_value_of(s: Seq<u8>, i: int, n: nat)
    requires
        matches_at(s, i, dec_digits(n)),
    ensures
        digits_value(s, i, i + dec_digits(n).len()) == n,
    decreases n,
{
    let d = dec_digits(n);
    if n < 10 {
        assert(s[i + 0] == d[0]);
        assert(digits_value(s, i, i) == 0);
        assert(digits_value(s, i, i + 1) == (s[i] - 48) as nat);
    } else {
        let q = dec_digits(n / 10);
        assert forall|k: int| 0 <= k < q.len() implies s[i + k] == #[trigger] q[k] by {
            assert(d[k] == q[k]);
        }
        lemma_digits_value_of(s, i, n / 10);
        lemma_dec_digits_len(n / 10);
        assert(s[i + (d.len() - 1)] == d[d.len() - 1]);
        assert(d[d.len() - 1] == (48 + n % 10) as u8);
        assert(digits_value(s, i, i + d.len()) == digits_value(s, i, i + d.len() - 1) * 10 + (s[i
            + d.len() - 1] - 48) as nat);
        assert(n / 10 * 10 + n % 10 == n);
    }
}

proof fn lemma_parse_u64_of(s: Seq<u8>, i: int, n: u64)
    requires
        matches_at(s, i, dec_digits(n as nat)),
        i + dec_digits(n as nat).len() == s.len() || !is_digit(s[i + dec_digits(n as nat).len()]),
    ensures
        parse_u64_at(s, i) == Option::Some((n, i + dec_digits(n as nat).len())),
{
    let d = dec_digits(n as nat);
    lemma_dec_digits_len(n as nat);
    lemma_dec_digits_digits(n as nat);
    lemma_digit_run_end_of(s, i, d);
    lemma_digits_value_of(s, i, n as nat);
    let j = digit_run_end(s, i);
    if s[i] == 48 {
        assert(s[i + 0] == d[0]);
        lemma_dec_digits_leading(n as nat);
        assert(n == 0);
        assert(j == i + 1);
    }
}

proof fn lemma_parse_end_of(s: Seq<u8>, i: int, e: Option<u64>)
    requires
        matches_at(s, i, enc_end(e)),
        i + enc_end(e).len() == s.len() || !is_digit(s[i + enc_end(e).len()]),
    ensures
        parse_end_at(s, i) == Option::Some((e, i + enc_end(e).len())),
{
    match e {
        Option::None => {
            assert(matches_at(s, i, null_bytes()));
        },
        Option::Some(v) => {
            if matches_at(s, i, null_bytes()) {
                assert(s[i + 0] == null_bytes()[0]);
                lemma_dec_digits_digits(v as nat);
                lemma_dec_digits_len(v as nat);
                assert(s[i + 0] == dec_digits(v as nat)[0]);
                assert(is_digit(dec_digits(v as nat)[0]));
                assert(false);
            }
            lemma_parse_u64_of(s, i, v);
        },
    }
}

proof fn lemma_parse_bool_of(s: Seq<u8>, i: int, b: bool)
    requires
        matches_at(s, i, enc_bool(b)),
    ensures
        parse_bool_at(s, i) == Option::Some((b, i + enc_bool(b).len())),
{
    if b {
        assert(matches_at(s, i, true_bytes()));
    } else {
        if matches_at(s, i, true_bytes()) {
            assert(s[i + 0] == true_bytes()[0]);
            assert(s[i + 0] == false_bytes()[0]);
            assert(false);
        }
        assert(matches_at(s, i, false_bytes()));
    }
}

proof fn lemma_parse_record_of(s: Seq<u8>, i: int, r: Timestamp)
    requires
        matches_at(s, i, enc_record(r)),
        i + enc_record(r).len() == s.len() || !is_digit(s[i + enc_record(r).len()]),
    ensures
        parse_record_at(s, i) == Option::Some((r, i + enc_record(r).len())),
{
    let a = dec_digits(r.0 as nat);
    let b = enc_end(r.1);
    let c = enc_bool(r.2);
    let i1 = i + 1;
    let i2 = i1 + a.len();
    let i3 = i2 + 1;
    let i4 = i3 + b.len();
    let i5 = i4 + 1;
    let i6 = i5 + c.len();
    lemma_matches_split(
        s,
        i,
        seq![LBRACKET] + a + seq![COMMA] + b + seq![COMMA] + c,
        seq![RBRACKET],
    );
    lemma_matches_split(s, i, seq![LBRACKET] + a + seq![COMMA] + b + seq![COMMA], c);
    lemma_matches_split(s, i, seq![LBRACKET] + a + seq![COMMA] + b, seq![COMMA]);
    lemma_matches_split(s, i, seq![LBRACKET] + a + seq![COMMA], b);
    lemma_matches_split(s, i, seq![LBRACKET] + a, seq![COMMA]);
    lemma_matches_split(s, i, seq![LBRACKET], a);
    assert(s[i + 0] == seq![LBRACKET][0]);
    assert(byte_at(s, i, LBRACKET));
    assert(s[i2 + 0] == seq![COMMA][0]);
    assert(byte_at(s, i2, COMMA));
    assert(s[i4 + 0] == seq![COMMA][0]);
    assert(byte_at(s, i4, COMMA));
    assert(s[i6 + 0] == seq![RBRACKET][0]);
    assert(byte_at(s, i6, RBRACKET));
    assert(!is_digit(COMMA));
    lemma_parse_u64_of(s, i1, r.0);
    lemma_parse_end_of(s, i3, r.1);
    lemma_parse_bool_of(s, i5, r.2);
    assert(Timestamp(r.0, r.1, r.2) == r);
    assert(i6 + 1 == i + enc_record(r).len());
}

proof fn lemma_parse_records_of(s: Seq<u8>, i: int, rs: Seq<Timestamp>)
    requires
        rs.len() >= 1,
        matches_at(s, i, enc_records(rs)),
        byte_at(s, i + enc_records(rs).len(), RBRACKET),
    ensures
        parse_records_at(s, i) == Option::Some((rs, i + enc_records(rs).len())),
    decreases rs.len(),
{
    let e = enc_records(rs);
    if rs.len() == 1 {
        assert(e == enc_record(rs[0]));
        assert(!is_digit(RBRACKET));
        lemma_parse_record_of(s, i, rs[0]);
        let j = i + e.len();
        assert(!byte_at(s, j, COMMA));
        assert(seq![rs[0]] =~= rs);
    } else {
        let r0 = enc_record(rs[0]);
        let rest = enc_records(rs.drop_first());
        assert(e == r0 + seq![COMMA] + rest);
        lemma_matches_split(s, i, r0 + seq![COMMA], rest);
        lemma_matches_split(s, i, r0, seq![COMMA]);
        let j = i + r0.len();
        assert(s[j + 0] == seq![COMMA][0]);
        assert(byte_at(s, j, COMMA));
        assert(!is_digit(COMMA));
        lemma_parse_record_of(s, i, rs[0]);
        assert(byte_at(s, j + 1 + rest.len(), RBRACKET));
        lemma_parse_records_of(s, j + 1, rs.drop_first());
        assert(seq![rs[0]] + rs.drop_first() =~= rs);
    }
}

/// Decoding inverts encoding: the canonical encoding of any finite record
/// sequence decodes back to that same sequence.
pub proof fn lemma_round_trip(rs: Seq<Timestamp>)
    ensures
        spec_decode(spec_encode(rs)) == Option::Some(rs),
{
    let s = spec_encode(rs);
    let e = enc_records(rs);
    assert(s[0] == LBRACKET) by {
        assert(s[0] == (seq![LBRACKET] + e)[0]);
        assert((seq![LBRACKET] + e)[0] == seq![LBRACKET][0]);
    }
    assert(!is_ws(LBRACKET));
    assert(!all_ws(s));
    assert(byte_at(s, 0, LBRACKET));
    assert(s[s.len() - 1] == seq![RBRACKET][0]);
    assert(byte_at(s, 1 + e.len() as int, RBRACKET));
    if rs.len() == 0 {
        assert(s.len() == 2);
        assert(parse_top(s) == Option::Some(Seq::<Timestamp>::empty()));
        assert(rs =~= Seq::<Timestamp>::empty());
    } else {
        lemma_dec_digits_len(rs[0].0 as nat);
        assert(enc_record(rs[0]).len() >= 1);
        assert(e.len() >= 1);
        assert(s.len() >= 3);
        assert forall|k: int| 0 <= k < e.len() implies s[1 + k] == #[trigger] e[k] by {
            assert(s[1 + k] == ((seq![LBRACKET] + e) + seq![RBRACKET])[1 + k]);
            assert(((seq![LBRACKET] + e) + seq![RBRACKET])[1 + k] == (seq![LBRACKET] + e)[1 + k]);
            assert((seq![LBRACKET] + e)[1 + k] == e[k]);
        }
        assert(matches_at(s, 1, e));
        lemma_parse_records_of(s, 1, rs);
        assert(parse_top(s) == Option::Some(rs));
    }
}

// ---------------------------------------------------------------------------
// The executable encoder.
// ---------------------------------------------------------------------------

/// Append the decimal digits of `n` to `out`.
fn push_u64(out: &mut Vec<u8>, n: u64)
    ensures
        final(out)@ == old(out)@ + dec_digits(n as nat),
    decreases n,
{
    let ghost p = out@;
    if n < 10 {
        out.push(48 + n as u8);
        proof {
            assert(out@ =~= p + dec_digits(n as nat));
        }
    } else {
        push_u64(out, n / 10);
        out.push(48 + (n % 10) as u8);
        proof {
            assert(out@ =~= p + dec_digits(n as nat));
        }
    }
}

/// Append the encoding of one record to `out`.
fn push_record(out: &mut Vec<u8>, r: Timestamp)
    ensures
        final(out)@ == old(out)@ + enc_record(r),
{
    let ghost p = out@;
    out.push(LBRACKET);
    push_u64(out, r.0);
    out.push(COMMA);
    match r.1 {
        Option::Some(v) => {
            push_u64(out, v);
        },
        Option::None => {
            out.push(110);
            out.push(117);
            out.push(108);
            out.push(108);
        },
    }
    out.push(COMMA);
    if r.2 {
        out.push(116);
        out.push(114);
        out.push(117);
        out.push(101);
    } else {
        out.push(102);
        out.push(97);
        out.push(108);
        out.push(115);
        out.push(101);
    }
    out.push(RBRACKET);
    proof {
        assert(out@ =~= p + enc_record(r));
    }
}

proof fn lemma_enc_records_snoc(t: Seq<Timestamp>, r: Timestamp)
    ensures
        t.len() == 0 ==> enc_records(t.push(r)) == enc_record(r),
        t.len() > 0 ==> enc_records(t.push(r)) == enc_records(t) + seq![COMMA] + enc_record(r),
    decreases t.len(),
{
    let u = t.push(r);
    if t.len() == 0 {
        assert(u[0] == r);
    } else {
        assert(u[0] == t[0]);
        assert(u.drop_first() =~= t.drop_first().push(r));
        lemma_enc_records_snoc(t.drop_first(), r);
        assert(enc_records(u) =~= enc_records(t) + seq![COMMA] + enc_record(r));
    }
}

/// Encode a record sequence in the canonical on-disk form.
pub fn encode(db: &Vec<Timestamp>) -> (r: Vec<u8>)
    ensures
        r@ == spec_encode(db@),
{
    let mut out: Vec<u8> = Vec::new();
    out.push(LBRACKET);
    let mut i: usize = 0;
    while i < db.len()
        invariant
            i <= db@.len(),
            out@ == seq![LBRACKET] + enc_records(db@.take(i as int)),
        decreases db@.len() - i,
    {
        if i > 0 {
            out.push(COMMA);
        }
        push_record(&mut out, db[i]);
        proof {
            lemma_enc_records_snoc(db@.take(i as int), db@[i as int]);
            assert(db@.take(i as int + 1) =~= db@.take(i as int).push(db@[i as int]));
            assert(out@ =~= seq![LBRACKET] + enc_records(db@.take(i as int + 1)));
        }
        i += 1;
    }
    out.push(RBRACKET);
    proof {
        assert(db@.take(db@.len() as int) =~= db@);
        assert(out@ =~= spec_encode(db@));
    }
    out
}

// ---------------------------------------------------------------------------
// The executable decoder.
// ---------------------------------------------------------------------------

fn ws_only(bytes: &[u8]) -> (r: bool)
    ensures
        r == all_ws(bytes@),
{
    let n = bytes.len();
    let mut i: usize = 0;
    while i < n
        invariant
            i <= n,
            n == bytes@.len(),
            forall|k: int| 0 <= k < i ==> is_ws(#[trigger] bytes@[k]),
        decreases n - i,
    {
        let b = bytes[i];
        if !(b == 32 || b == 9 || b == 10 || b == 13) {
            assert(!is_ws(bytes@[i as int]));
            return false;
        }
        i += 1;
    }
    true
}

fn digit_end(bytes: &[u8], from: usize) -> (j: usize)
    requires
        from <= bytes@.len(),
    ensures
        j == digit_run_end(bytes@, from as int),
        from <= j <= bytes@.len(),
{
    let n = bytes.len();
    let mut k: usize = from;
    while k < n && 48 <= bytes[k] && bytes[k] <= 57
        invariant
            from <= k <= n,
            n == bytes@.len(),
            digit_run_end(bytes@, from as int) == digit_run_end(bytes@, k as int),
        decreases n - k,
    {
        proof {
            assert(digit_run_end(bytes@, k as int) == digit_run_end(bytes@, k as int + 1));
        }
        k += 1;
    }
    k
}

proof fn lemma_run_digits(s: Seq<u8>, i: int)
    requires
        0 <= i,
    ensures
        forall|m: int| i <= m < digit_run_end(s, i) ==> is_digit(#[trigger] s[m]),
    decreases s.len() - i,
{
    if 0 <= i < s.len() && is_digit(s[i]) {
        lemma_run_digits(s, i + 1);
    }
}

proof fn lemma_digits_value_mono(s: Seq<u8>, i: int, j1: int, j2: int)
    requires
        i <= j1 <= j2,
    ensures
        digits_value(s, i, j1) <= digits_value(s, i, j2),
    decreases j2 - j1,
{
    if j1 < j2 {
        lemma_digits_value_mono(s, i, j1, j2 - 1);
        assert(digits_value(s, i, j2 - 1) * 10 >= digits_value(s, i, j2 - 1));
    }
}

fn parse_num(bytes: &[u8], from: usize) -> (r: Option<(u64, usize)>)
    requires
        from <= bytes@.len(),
    ensures
        r matches Option::Some((v, j)) ==> parse_u64_at(bytes@, from as int) == Option::Some(
            (v, j as int),
        ) && from < j <= bytes@.len(),
        r is None ==> parse_u64_at(bytes@, from as int) is None,
{
    let j = digit_end(bytes, from);
    if j == from {
        return None;
    }
    if bytes[from] == 48 && j > from + 1 {
        return None;
    }
    proof {
        lemma_run_digits(bytes@, from as int);
    }
    let mut val: u64 = 0;
    let mut k: usize = from;
    while k < j
        invariant
            from <= k <= j,
            j == digit_run_end(bytes@, from as int),
            from < j <= bytes@.len(),
            forall|m: int| from <= m < j ==> is_digit(#[trigger] bytes@[m]),
            val == digits_value(bytes@, from as int, k as int),
        decreases j - k,
    {
        let d = bytes[k] - 48;
        proof {
            vstd::arithmetic::div_mod::lemma_fundamental_div_mod(
                (u64::MAX - d) as int,
                10,
            );
        }
        if val > (u64::MAX - d as u64) / 10 {
            proof {
                assert(digits_value(bytes@, from as int, k as int + 1) > u64::MAX);
                lemma_digits_value_mono(bytes@, from as int, k as int + 1, j as int);
            }
            return None;
        }
        val = val * 10 + d as u64;
        k += 1;
    }
    Some((val, j))
}

fn match_null(bytes: &[u8], from: usize) -> (r: bool)
    requires
        from <= bytes@.len(),
    ensures
        r == matches_at(bytes@, from as int, null_bytes()),
{
    if bytes.len() - from < 4 {
        return false;
    }
    let ok = bytes[from] == 110 && bytes[from + 1] == 117 && bytes[from + 2] == 108 && bytes[from
        + 3] == 108;
    proof {
        if ok {
            assert forall|k: int| 0 <= k < null_bytes().len() implies bytes@[from as int + k]
                == #[trigger] null_bytes()[k] by {
                if k == 0 {
                } else if k == 1 {
                } else if k == 2 {
                } else {
                }
            }
        } else if matches_at(bytes@, from as int, null_bytes()) {
            assert(bytes@[from as int + 0] == null_bytes()[0]);
            assert(bytes@[from as int + 1] == null_bytes()[1]);
            assert(bytes@[from as int + 2] == null_bytes()[2]);
            assert(bytes@[from as int + 3] == null_bytes()[3]);
        }
    }
    ok
}

fn match_true(bytes: &[u8], from: usize) -> (r: bool)
    requires
        from <= bytes@.len(),
    ensures
        r == matches_at(bytes@, from as int, true_bytes()),
{
    if bytes.len() - from < 4 {
        return false;
    }
    let ok = bytes[from] == 116 && bytes[from + 1] == 114 && bytes[from + 2] == 117 && bytes[from
        + 3] == 101;
    proof {
        if ok {
            assert forall|k: int| 0 <= k < true_bytes().len() implies bytes@[from as int + k]
                == #[trigger] true_bytes()[k] by {
                if k == 0 {
                } else if k == 1 {
                } else if k == 2 {
                } else {
                }
            }
        } else if matches_at(bytes@, from as int, true_bytes()) {
            assert(bytes@[from as int + 0] == true_bytes()[0]);
            assert(bytes@[from as int + 1] == true_bytes()[1]);
            assert(bytes@[from as int + 2] == true_bytes()[2]);
            assert(bytes@[from as int + 3] == true_bytes()[3]);
        }
    }
    ok
}

fn match_false(bytes: &[u8], from: usize) -> (r: bool)
    requires
        from <= bytes@.len(),
    ensures
        r == matches_at(bytes@, from as int, false_bytes()),
{
    if bytes.len() - from < 5 {
        return false;
    }
    let ok = bytes[from] == 102 && bytes[from + 1] == 97 && bytes[from + 2] == 108 && bytes[from
        + 3] == 115 && bytes[from + 4] == 101;
    proof {
        if ok {
            assert forall|k: int| 0 <= k < false_bytes().len() implies bytes@[from as int + k]
                == #[trigger] false_bytes()[k] by {
                if k == 0 {
                } else if k == 1 {
                } else if k == 2 {
                } else if k == 3 {
                } else {
                }
            }
        } else if matches_at(bytes@, from as int, false_bytes()) {
            assert(bytes@[from as int + 0] == false_bytes()[0]);
            assert(bytes@[from as int + 1] == false_bytes()[1]);
            assert(bytes@[from as int + 2] == false_bytes()[2]);
            assert(bytes@[from as int + 3] == false_bytes()[3]);
            assert(bytes@[from as int + 4] == false_bytes()[4]);
        }
    }
    ok
}

fn parse_end(bytes: &[u8], from: usize) -> (r: Option<(Option<u64>, usize)>)
    requires
        from <= bytes@.len(),
    ensures
        r matches Option::Some((e, j)) ==> parse_end_at(bytes@, from as int) == Option::Some(
            (e, j as int),
        ) && from < j <= bytes@.len(),
        r is None ==> parse_end_at(bytes@, from as int) is None,
{
    if match_null(bytes, from) {
        let _n: usize = bytes.len();
        proof {
            assert(null_bytes().len() == 4);
        }
        return Some((None, from + 4));
    }
    match parse_num(bytes, from) {
        Some((v, j)) => Some((Some(v), j)),
        None => None,
    }
}

fn parse_flag(bytes: &[u8], from: usize) -> (r: Option<(bool, usize)>)
    requires
        from <= bytes@.len(),
    ensures
        r matches Option::Some((b, j)) ==> parse_bool_at(bytes@, from as int) == Option::Some(
            (b, j as int),
        ) && from < j <= bytes@.len(),
        r is None ==> parse_bool_at(bytes@, from as int) is None,
{
    if match_true(bytes, from) {
        let _n: usize = bytes.len();
        proof {
            assert(true_bytes().len() == 4);
        }
        return Some((true, from + 4));
    }
    if match_false(bytes, from) {
        let _n: usize = bytes.len();
        proof {
            assert(false_bytes().len() == 5);
        }
        return Some((false, from + 5));
    }
    None
}

fn parse_rec(bytes: &[u8], from: usize) -> (r: Option<(Timestamp, usize)>)
    requires
        from <= bytes@.len(),
    ensures
        r matches Option::Some((t, j)) ==> parse_record_at(bytes@, from as int) == Option::Some(
            (t, j as int),
        ) && from < j <= bytes@.len(),
        r is None ==> parse_record_at(bytes@, from as int) is None,
{
    if from >= bytes.len() || bytes[from] != LBRACKET {
        return None;
    }
    let st = match parse_num(bytes, from + 1) {
        Some((v, j)) => (v, j),
        None => {
            return None;
        },
    };
    let (start, j) = st;
    if j >= bytes.len() || bytes[j] != COMMA {
        return None;
    }
    let en = match parse_end(bytes, j + 1) {
        Some((e, k)) => (e, k),
        None => {
            return None;
        },
    };
    let (end, k) = en;
    if k >= bytes.len() || bytes[k] != COMMA {
        return None;
    }
    let fl = match parse_flag(bytes, k + 1) {
        Some((b, m)) => (b, m),
        None => {
            return None;
        },
    };
    let (flag, m) = fl;
    if m >= bytes.len() || bytes[m] != RBRACKET {
        return None;
    }
    Some((Timestamp(start, end, flag), m + 1))
}

/// The records already gathered, together with what remains to be parsed
/// from `cur`, make up exactly what parsing from `from` yields.
spec fn recs_cont(s: Seq<u8>, from: int, acc: Seq<Timestamp>, cur: int) -> bool {
    parse_records_at(s, from) == (match parse_records_at(s, cur) {
        Option::Some((rs, j)) => Option::Some((acc + rs, j)),
        Option::None => Option::None::<(Seq<Timestamp>, int)>,
    })
}

fn parse_recs(bytes: &[u8], from: usize) -> (r: Option<(Vec<Timestamp>, usize)>)
    requires
        from <= bytes@.len(),
    ensures
        r matches Option::Some((v, j)) ==> parse_records_at(bytes@, from as int) == Option::Some(
            (v@, j as int),
        ) && from < j <= bytes@.len(),
        r is None ==> parse_records_at(bytes@, from as int) is None,
{
    let mut acc: Vec<Timestamp> = Vec::new();
    let mut cur: usize = from;
    proof {
        if parse_records_at(bytes@, from as int) is Some {
            let (rs, j) = parse_records_at(bytes@, from as int)->Some_0;
            assert(Seq::<Timestamp>::empty() + rs =~= rs);
        }
    }
    loop
        invariant
            from <= cur <= bytes@.len(),
            recs_cont(bytes@, from as int, acc@, cur as int),
        decreases bytes@.len() - cur,
    {
        let ghost acc_old = acc@;
        match parse_rec(bytes, cur) {
            None => {
                return None;
            },
            Some((t, j)) => {
                acc.push(t);
                if j < bytes.len() && bytes[j] == COMMA {
                    proof {
                        if parse_records_at(bytes@, j as int + 1) is Some {
                            let (rs2, k) = parse_records_at(bytes@, j as int + 1)->Some_0;
                            assert(acc_old + (seq![t] + rs2) =~= acc@ + rs2);
                        }
                    }
                    cur = j + 1;
                } else {
                    proof {
                        assert(parse_records_at(bytes@, cur as int) == Option::Some(
                            (seq![t], j as int),
                        ));
                        assert(acc_old + seq![t] =~= acc@);
                    }
                    return Some((acc, j));
                }
            },
        }
    }
}

/// Decode the bytes of a database file.
///
/// An empty or whitespace-only file decodes to the empty sequence; otherwise
/// the bytes must be a canonical encoding, and any other content is refused
/// with `JsonParseError`.
pub fn decode(bytes: &[u8]) -> (r: Result<Vec<Timestamp>, FlatFileError>)
    ensures
        r matches Result::Ok(v) ==> spec_decode(bytes@) == Option::Some(v@),
        r matches Result::Err(e) ==> spec_decode(bytes@) is None && e
            == FlatFileError::JsonParseError,
{
    if ws_only(bytes) {
        let v: Vec<Timestamp> = Vec::new();
        proof {
            assert(v@ =~= Seq::<Timestamp>::empty());
        }
        return Ok(v);
    }
    if bytes.len() == 0 || bytes[0] != LBRACKET {
        return Err(FlatFileError::JsonParseError);
    }
    if bytes.len() == 2 && bytes[1] == RBRACKET {
        let v: Vec<Timestamp> = Vec::new();
        proof {
            assert(v@ =~= Seq::<Timestamp>::empty());
        }
        return Ok(v);
    }
    match parse_recs(bytes, 1) {
        None => Err(FlatFileError::JsonParseError),
        Some((v, j)) => {
            if j == bytes.len() - 1 && bytes[j] == RBRACKET {
                Ok(v)
            } else {
                Err(FlatFileError::JsonParseError)
            }
        },
    }
}

} // verus!

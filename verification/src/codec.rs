//! CSV serialization of a sample log: each sample becomes one line of two
//! comma-separated decimal fields, `elapsed,value`, terminated by a line
//! feed, with no header row. Integer fields never need quoting, so the
//! encoding is exactly the decimal digits. A verified decoder inverts the
//! encoding, and the round-trip law is proved.

use crate::sample_log::Sample;
use vstd::prelude::*;

verus! {

/// Is `b` the ASCII code of a decimal digit?
pub open spec fn is_digit(b: u8) -> bool {
    48 <= b <= 57
}

/// The ASCII code of the digit `d` (for `0 <= d <= 9`).
pub open spec fn digit_byte(d: int) -> u8 {
    (48 + d) as u8
}

/// The decimal digits of `n`, most significant first, no sign and no
/// leading zeros (a single `0` for zero).
pub open spec fn dec_digits(n: nat) -> Seq<u8>
    decreases n,
{
    if n < 10 {
        seq![digit_byte(n as int)]
    } else {
        dec_digits(n / 10).push(digit_byte((n % 10) as int))
    }
}

/// The decimal encoding of a signed integer: a leading `-` for negative
/// values, then the digits of the absolute value.
pub open spec fn int_bytes(n: int) -> Seq<u8> {
    if n < 0 {
        seq![45u8] + dec_digits((-n) as nat)
    } else {
        dec_digits(n as nat)
    }
}

/// One CSV line for one sample: `elapsed,value` followed by a line feed.
pub open spec fn sample_line(s: Sample) -> Seq<u8> {
    int_bytes(s.elapsed_ms as int) + seq![44u8] + int_bytes(s.value as int) + seq![10u8]
}

/// The CSV encoding of a whole sample sequence: the lines of the samples,
/// in order, with nothing before, between or after them.
pub open spec fn csv_encoding(ss: Seq<Sample>) -> Seq<u8>
    decreases ss.len(),
{
    if ss.len() == 0 {
        Seq::empty()
    } else {
        sample_line(ss[0]) + csv_encoding(ss.skip(1))
    }
}

/// Encoding one more sample appends exactly one more line.
pub proof fn lemma_csv_encoding_push(ss: Seq<Sample>, x: Sample)
    ensures
        csv_encoding(ss.push(x)) == csv_encoding(ss) + sample_line(x),
    decreases ss.len(),
{
    if ss.len() == 0 {
        assert(ss.push(x).skip(1) =~= Seq::<Sample>::empty());
        assert(ss.push(x)[0] == x);
        assert(csv_encoding(ss.push(x)) == sample_line(x) + csv_encoding(Seq::<Sample>::empty()));
        assert(csv_encoding(Seq::<Sample>::empty()) == Seq::<u8>::empty());
        assert(sample_line(x) + Seq::<u8>::empty() =~= sample_line(x));
        assert(csv_encoding(ss) + sample_line(x) =~= sample_line(x));
    } else {
        assert(ss.push(x).skip(1) =~= ss.skip(1).push(x));
        lemma_csv_encoding_push(ss.skip(1), x);
        assert(ss.push(x)[0] == ss[0]);
        assert(csv_encoding(ss.push(x)) == sample_line(ss[0]) + (csv_encoding(ss.skip(1))
            + sample_line(x)));
        assert(sample_line(ss[0]) + (csv_encoding(ss.skip(1)) + sample_line(x)) =~= (sample_line(
            ss[0],
        ) + csv_encoding(ss.skip(1))) + sample_line(x));
    }
}

/// An opaque holder for the csv crate's writer over an in-memory sink, so
/// that verified code can carry it between calls.
#[verifier::external_body]
pub struct CsvSink {
    inner: csv::Writer<Vec<u8>>,
}

/// The bytes that the csv writer has produced so far for its in-memory
/// sink (what `into_inner` would return).
pub uninterp spec fn csv_written(w: CsvSink) -> Seq<u8>;

/// Relies on csv::Writer::from_writer: a fresh writer has emitted nothing.
#[verifier::external_body]
fn csv_writer_new() -> (w: CsvSink)
    ensures
        csv_written(w) == Seq::<u8>::empty(),
{
    CsvSink { inner: csv::Writer::from_writer(Vec::new()) }
}

/// Relies on csv::Writer::serialize: a tuple of two integers is written as
/// one record — the decimal digits of each field, separated by the default
/// `,` delimiter and terminated by the default `\n`; integer fields never
/// need quoting, and records of unnamed fields get no header row. Writing
/// into an in-memory `Vec<u8>` sink cannot fail.
#[verifier::external_body]
fn csv_write_sample(w: &mut CsvSink, elapsed_ms: i64, value: i16)
    ensures
        csv_written(*final(w)) == csv_written(*old(w)) + sample_line(
            Sample { elapsed_ms, value },
        ),
{
    w.inner.serialize((elapsed_ms, value)).unwrap();
}

/// Relies on csv::Writer::into_inner: flushes the internal buffer and hands
/// back the underlying sink; flushing into an in-memory `Vec<u8>` cannot
/// fail.
#[verifier::external_body]
fn csv_writer_into_bytes(w: CsvSink) -> (r: Vec<u8>)
    ensures
        r@ == csv_written(w),
{
    w.inner.into_inner().unwrap()
}

/// Serialize the samples to CSV: one line per sample, in order, fields
/// `elapsed,value`. Infallible: the sink is an in-memory buffer.
pub fn to_csv(samples: &Vec<Sample>) -> (r: Vec<u8>)
    ensures
        r@ == csv_encoding(samples@),
{
    let mut w = csv_writer_new();
    let mut i: usize = 0;
    while i < samples.len()
        invariant
            0 <= i <= samples.len(),
            csv_written(w) == csv_encoding(samples@.take(i as int)),
        decreases samples.len() - i,
    {
        let s = samples[i];
        csv_write_sample(&mut w, s.elapsed_ms, s.value);
        proof {
            assert(samples@.take(i + 1 as int) =~= samples@.take(i as int).push(samples@[i as int]));
            lemma_csv_encoding_push(samples@.take(i as int), samples@[i as int]);
        }
        i = i + 1;
    }
    proof {
        assert(samples@.take(samples@.len() as int) =~= samples@);
    }
    csv_writer_into_bytes(w)
}

/// Ten to the `k`-th power.
pub open spec fn pow10(k: nat) -> int
    decreases k,
{
    if k == 0 {
        1
    } else {
        10 * pow10((k - 1) as nat)
    }
}

proof fn lemma_pow10_19()
    ensures
        pow10(19) == 10_000_000_000_000_000_000,
{
    reveal_with_fuel(pow10, 20);
}

proof fn lemma_pow10_monotone(a: nat, b: nat)
    requires
        a <= b,
    ensures
        pow10(a) <= pow10(b),
        pow10(a) >= 1,
    decreases b,
{
    if b > 0 {
        if a == b {
            lemma_pow10_monotone((a - 1) as nat, (b - 1) as nat);
        } else {
            lemma_pow10_monotone(a, (b - 1) as nat);
        }
    }
}

/// The numeric value of a digit run, most significant digit first.
pub open spec fn digits_val(d: Seq<u8>) -> int
    decreases d.len(),
{
    if d.len() == 0 {
        0
    } else {
        digits_val(d.drop_last()) * 10 + (d.last() - 48)
    }
}

/// Split a byte sequence at the end of its leading digit run.
pub open spec fn split_digits(b: Seq<u8>) -> (Seq<u8>, Seq<u8>)
    decreases b.len(),
{
    if b.len() > 0 && is_digit(b[0]) {
        let p = split_digits(b.skip(1));
        (seq![b[0]] + p.0, p.1)
    } else {
        (Seq::empty(), b)
    }
}

/// Parse one optionally signed decimal field at the head of `b`: an optional
/// `-`, then one to nineteen digits (every 64-bit field the encoder emits
/// fits in nineteen). Yields the value and the unconsumed remainder.
pub open spec fn parse_int(b: Seq<u8>) -> Option<(int, Seq<u8>)> {
    if b.len() > 0 && b[0] == 45 {
        let p = split_digits(b.skip(1));
        if 1 <= p.0.len() <= 19 {
            Some((-digits_val(p.0), p.1))
        } else {
            None
        }
    } else {
        let p = split_digits(b);
        if 1 <= p.0.len() <= 19 {
            Some((digits_val(p.0), p.1))
        } else {
            None
        }
    }
}

/// What the decoder makes of a CSV byte buffer: a sample for each
/// `elapsed,value` line, in order, or nothing if any line is malformed or a
/// field does not fit its type.
pub open spec fn csv_decoding(b: Seq<u8>) -> Option<Seq<Sample>>
    decreases b.len(),
    via csv_decoding_dec
{
    if b.len() == 0 {
        Some(Seq::empty())
    } else {
        match parse_int(b) {
            Option::None => None,
            Option::Some((e, r1)) => {
                if r1.len() == 0 || r1[0] != 44 {
                    None
                } else {
                    match parse_int(r1.skip(1)) {
                        Option::None => None,
                        Option::Some((v, r2)) => {
                            if r2.len() == 0 || r2[0] != 10 {
                                None
                            } else if e < i64::MIN as int || e > i64::MAX as int || v < -32768
                                || v > 32767 {
                                None
                            } else {
                                match csv_decoding(r2.skip(1)) {
                                    Option::None => None,
                                    Option::Some(rest) => Some(
                                        seq![Sample { elapsed_ms: e as i64, value: v as i16 }]
                                            + rest,
                                    ),
                                }
                            }
                        },
                    }
                }
            },
        }
    }
}

#[via_fn]
proof fn csv_decoding_dec(b: Seq<u8>) {
    if b.len() != 0 {
        lemma_parse_int_shrinks(b);
        match parse_int(b) {
            Option::None => {},
            Option::Some((e, r1)) => {
                if r1.len() > 0 {
                    lemma_parse_int_shrinks(r1.skip(1));
                }
            },
        }
    }
}

/// `split_digits` splits exactly: the parts re-concatenate to the input,
/// and the first part holds digits only.
proof fn lemma_split_digits_parts(b: Seq<u8>)
    ensures
        split_digits(b).0 + split_digits(b).1 =~= b,
        split_digits(b).0.len() + split_digits(b).1.len() == b.len(),
        forall|i: int| 0 <= i < split_digits(b).0.len() ==> is_digit(split_digits(b).0[i]),
    decreases b.len(),
{
    if b.len() > 0 && is_digit(b[0]) {
        lemma_split_digits_parts(b.skip(1));
        let p = split_digits(b.skip(1));
        assert(p.0 + p.1 == b.skip(1));
        assert(seq![b[0]] + b.skip(1) =~= b);
        assert((seq![b[0]] + p.0) + p.1 =~= seq![b[0]] + (p.0 + p.1));
        assert((seq![b[0]] + p.0) + p.1 =~= b);
        assert forall|i: int| 0 <= i < split_digits(b).0.len() implies is_digit(
            split_digits(b).0[i],
        ) by {
            if i > 0 {
                assert(split_digits(b).0[i] == p.0[i - 1]);
            }
        }
    }
}

/// A successful parse consumes at least one byte.
proof fn lemma_parse_int_shrinks(b: Seq<u8>)
    ensures
        match parse_int(b) {
            Option::Some(p) => p.1.len() < b.len(),
            Option::None => true,
        },
{
    if b.len() > 0 && b[0] == 45 {
        lemma_split_digits_parts(b.skip(1));
    } else {
        lemma_split_digits_parts(b);
    }
}

/// The digits of `n` are digits, and their value is `n`.
proof fn lemma_dec_digits(n: nat)
    ensures
        dec_digits(n).len() >= 1,
        forall|i: int| 0 <= i < dec_digits(n).len() ==> is_digit(dec_digits(n)[i]),
        digits_val(dec_digits(n)) == n,
    decreases n,
{
    if n < 10 {
        let d = seq![digit_byte(n as int)];
        assert(d.drop_last() =~= Seq::<u8>::empty());
        assert(digits_val(Seq::<u8>::empty()) == 0);
        assert(d.last() == digit_byte(n as int));
        assert(digit_byte(n as int) == 48 + n);
        assert(digits_val(d) == digits_val(d.drop_last()) * 10 + (d.last() - 48));
    } else {
        lemma_dec_digits(n / 10);
        let d = dec_digits(n / 10);
        let full = d.push(digit_byte((n % 10) as int));
        assert(full.drop_last() =~= d);
        assert(full.last() == digit_byte((n % 10) as int));
        assert(digits_val(full) == digits_val(d) * 10 + ((n % 10) as int));
        assert(digits_val(full) == n);
        assert forall|i: int| 0 <= i < full.len() implies is_digit(full[i]) by {
            if i < d.len() {
                assert(full[i] == d[i]);
            }
        }
    }
}

/// At most `k` digits suffice below ten to the `k`.
proof fn lemma_dec_digits_len(n: nat, k: nat)
    requires
        k >= 1,
        n < pow10(k),
    ensures
        dec_digits(n).len() <= k,
    decreases n,
{
    if n < 10 {
    } else {
        assert(pow10(k) == 10 * pow10((k - 1) as nat));
        if k == 1 {
            assert(pow10(1) == 10) by {
                reveal_with_fuel(pow10, 2);
            }
            assert(false);
        }
        assert(n / 10 < pow10((k - 1) as nat)) by (nonlinear_arith)
            requires
                n < 10 * pow10((k - 1) as nat),
                n >= 10,
                pow10((k - 1) as nat) >= 1,
        {
        }
        lemma_dec_digits_len(n / 10, (k - 1) as nat);
    }
}

/// Splitting a digit run followed by a non-digit remainder recovers both.
proof fn lemma_split_digits_exact(d: Seq<u8>, r: Seq<u8>)
    requires
        forall|i: int| 0 <= i < d.len() ==> is_digit(d[i]),
        r.len() == 0 || !is_digit(r[0]),
    ensures
        split_digits(d + r) == (d, r),
    decreases d.len(),
{
    if d.len() == 0 {
        assert(d + r =~= r);
        assert(split_digits(d + r).0 =~= d);
    } else {
        let b = d + r;
        assert(b[0] == d[0]);
        assert(is_digit(b[0]));
        assert(b.skip(1) =~= d.skip(1) + r);
        lemma_split_digits_exact(d.skip(1), r);
        assert(split_digits(b).0 =~= seq![d[0]] + d.skip(1));
        assert(seq![d[0]] + d.skip(1) =~= d);
    }
}

/// Parsing the encoding of `n`, followed by anything that is neither a
/// digit nor a minus sign, recovers `n` and the remainder.
proof fn lemma_parse_int_encode(n: int, rest: Seq<u8>)
    requires
        -9223372036854775808 <= n <= 9223372036854775807,
        rest.len() >= 1,
        !is_digit(rest[0]),
        rest[0] != 45,
    ensures
        parse_int(int_bytes(n) + rest) == Some((n, rest)),
{
    lemma_pow10_19();
    if n >= 0 {
        lemma_dec_digits(n as nat);
        lemma_dec_digits_len(n as nat, 19);
        let d = dec_digits(n as nat);
        let b = int_bytes(n) + rest;
        assert(b[0] == d[0]);
        assert(is_digit(b[0]) && b[0] != 45);
        lemma_split_digits_exact(d, rest);
        assert(split_digits(b) == (d, rest));
    } else {
        lemma_dec_digits((-n) as nat);
        lemma_dec_digits_len((-n) as nat, 19);
        let d = dec_digits((-n) as nat);
        let b = int_bytes(n) + rest;
        assert(b[0] == 45);
        assert(b.skip(1) =~= d + rest);
        lemma_split_digits_exact(d, rest);
        assert(split_digits(b.skip(1)) == (d, rest));
    }
}

/// Round-trip law: decoding the CSV encoding of any sample sequence yields
/// exactly that sequence — every line, in order, with both integer fields
/// intact.
pub proof fn lemma_csv_round_trip(ss: Seq<Sample>)
    ensures
        csv_decoding(csv_encoding(ss)) == Some(ss),
    decreases ss.len(),
{
    if ss.len() == 0 {
    } else {
        let s0 = ss[0];
        let e: int = s0.elapsed_ms as int;
        let v: int = s0.value as int;
        let tail = csv_encoding(ss.skip(1));
        let b = csv_encoding(ss);
        let r2 = seq![10u8] + tail;
        let r1 = seq![44u8] + (int_bytes(v) + r2);
        assert(b == sample_line(s0) + tail);
        assert(b =~= int_bytes(e) + r1);
        assert(r1[0] == 44u8);
        assert(!is_digit(r1[0]) && r1[0] != 45);
        lemma_parse_int_encode(e, r1);
        assert(parse_int(b) == Some((e, r1)));
        assert(r1.skip(1) =~= int_bytes(v) + r2);
        assert(r2[0] == 10u8);
        assert(!is_digit(r2[0]) && r2[0] != 45);
        lemma_parse_int_encode(v, r2);
        assert(parse_int(r1.skip(1)) == Some((v, r2)));
        assert(r2.skip(1) =~= tail);
        lemma_csv_round_trip(ss.skip(1));
        assert(csv_decoding(tail) == Some(ss.skip(1)));
        assert(Sample { elapsed_ms: e as i64, value: v as i16 } == s0);
        assert(csv_decoding(b) == Some(seq![s0] + ss.skip(1)));
        assert(seq![s0] + ss.skip(1) =~= ss);
    }
}

/// The position just past the digit run that begins at `start`.
fn scan_digits(bytes: &Vec<u8>, start: usize) -> (j: usize)
    requires
        start <= bytes@.len(),
    ensures
        start <= j <= bytes@.len(),
        split_digits(bytes@.skip(start as int)) == (
            bytes@.subrange(start as int, j as int),
            bytes@.skip(j as int),
        ),
        forall|i: int| start <= i < j ==> is_digit(bytes@[i]),
        j == bytes@.len() || !is_digit(bytes@[j as int]),
{
    let mut j: usize = start;
    while j < bytes.len() && 48 <= bytes[j] && bytes[j] <= 57
        invariant
            start <= j <= bytes@.len(),
            forall|i: int| start <= i < j ==> is_digit(bytes@[i]),
        decreases bytes@.len() - j,
    {
        j = j + 1;
    }
    proof {
        let d = bytes@.subrange(start as int, j as int);
        let r = bytes@.skip(j as int);
        assert forall|i: int| 0 <= i < d.len() implies is_digit(d[i]) by {
            assert(d[i] == bytes@[start + i]);
        }
        assert(r.len() == 0 || !is_digit(r[0]));
        lemma_split_digits_exact(d, r);
        assert(bytes@.skip(start as int) =~= d + r);
    }
    j
}

/// Parse one signed decimal field at `start`. Yields the value and the
/// position just past its digits; refuses a field whose value does not fit
/// a signed 64-bit integer.
fn parse_int_exec(bytes: &Vec<u8>, start: usize) -> (r: Option<(i64, usize)>)
    requires
        start <= bytes@.len(),
    ensures
        match r {
            Option::Some(p) => {
                &&& start < p.1 <= bytes@.len()
                &&& parse_int(bytes@.skip(start as int)) == Some(
                    (p.0 as int, bytes@.skip(p.1 as int)),
                )
            },
            Option::None => match parse_int(bytes@.skip(start as int)) {
                Option::Some(q) => q.0 < i64::MIN as int || q.0 > i64::MAX as int,
                Option::None => true,
            },
        },
{
    let neg = start < bytes.len() && bytes[start] == 45;
    let ds: usize = if neg {
        start + 1
    } else {
        start
    };
    let j = scan_digits(bytes, ds);
    proof {
        if neg {
            assert(bytes@.skip(start as int).skip(1) =~= bytes@.skip(ds as int));
        }
        lemma_pow10_19();
    }
    let len = j - ds;
    if len < 1 || len > 19 {
        return None;
    }
    let mut acc: u64 = 0;
    let mut k: usize = ds;
    proof {
        assert(bytes@.subrange(ds as int, ds as int) =~= Seq::<u8>::empty());
    }
    while k < j
        invariant
            ds <= k <= j <= bytes@.len(),
            j - ds <= 19,
            acc == digits_val(bytes@.subrange(ds as int, k as int)),
            acc < pow10((k - ds) as nat),
            pow10(19) == 10_000_000_000_000_000_000,
            forall|i: int| ds <= i < j ==> is_digit(bytes@[i]),
        decreases j - k,
    {
        let d = bytes[k] - 48;
        proof {
            let sub1 = bytes@.subrange(ds as int, (k + 1) as int);
            assert(sub1.drop_last() =~= bytes@.subrange(ds as int, k as int));
            assert(sub1.last() == bytes@[k as int]);
            assert(pow10(((k + 1) - ds) as nat) == 10 * pow10((k - ds) as nat));
            lemma_pow10_monotone(((k + 1) - ds) as nat, 19);
            assert(acc * 10 + (bytes@[k as int] - 48) < pow10(((k + 1) - ds) as nat))
                by (nonlinear_arith)
                requires
                    acc < pow10((k - ds) as nat),
                    pow10(((k + 1) - ds) as nat) == 10 * pow10((k - ds) as nat),
                    bytes@[k as int] - 48 < 10,
            ;
        }
        acc = acc * 10 + (d as u64);
        k = k + 1;
    }
    proof {
        assert(bytes@.subrange(ds as int, j as int) == split_digits(bytes@.skip(ds as int)).0);
    }
    if neg {
        if acc > 9_223_372_036_854_775_808u64 {
            None
        } else if acc == 9_223_372_036_854_775_808u64 {
            Some((i64::MIN, j))
        } else {
            Some((-(acc as i64), j))
        }
    } else {
        if acc > 9_223_372_036_854_775_807u64 {
            None
        } else {
            Some((acc as i64, j))
        }
    }
}

/// Decode a CSV byte buffer back into samples: one sample per
/// `elapsed,value` line, in order; nothing if any line is malformed or a
/// field does not fit its type.
pub fn to_csv_decode(bytes: &Vec<u8>) -> (r: Option<Vec<Sample>>)
    ensures
        match r {
            Option::Some(v) => csv_decoding(bytes@) == Some(v@),
            Option::None => csv_decoding(bytes@) is None,
        },
{
    let mut out: Vec<Sample> = Vec::new();
    let mut pos: usize = 0;
    proof {
        assert(bytes@.skip(0) =~= bytes@);
        match csv_decoding(bytes@) {
            Option::Some(t) => {
                assert(Seq::<Sample>::empty() + t =~= t);
            },
            Option::None => {},
        }
    }
    while pos < bytes.len()
        invariant
            0 <= pos <= bytes@.len(),
            match csv_decoding(bytes@.skip(pos as int)) {
                Option::Some(t) => csv_decoding(bytes@) == Some(out@ + t),
                Option::None => csv_decoding(bytes@) is None,
            },
        decreases bytes@.len() - pos,
    {
        let ghost b0 = bytes@.skip(pos as int);
        let first = parse_int_exec(bytes, pos);
        if first.is_none() {
            proof {
                assert(csv_decoding(b0) is None);
            }
            return None;
        }
        let (e, p1) = first.unwrap();
        if p1 >= bytes.len() || bytes[p1] != 44 {
            proof {
                let r1 = bytes@.skip(p1 as int);
                assert(p1 < bytes@.len() ==> r1[0] == bytes@[p1 as int]);
                assert(csv_decoding(b0) is None);
            }
            return None;
        }
        proof {
            assert(bytes@.skip(p1 as int)[0] == bytes@[p1 as int]);
            assert(bytes@.skip(p1 as int).skip(1) =~= bytes@.skip((p1 + 1) as int));
        }
        let second = parse_int_exec(bytes, p1 + 1);
        if second.is_none() {
            proof {
                assert(csv_decoding(b0) is None);
            }
            return None;
        }
        let (v, p2) = second.unwrap();
        if v < -32768 || v > 32767 {
            proof {
                assert(csv_decoding(b0) is None);
            }
            return None;
        }
        if p2 >= bytes.len() || bytes[p2] != 10 {
            proof {
                let r2 = bytes@.skip(p2 as int);
                assert(p2 < bytes@.len() ==> r2[0] == bytes@[p2 as int]);
                assert(csv_decoding(b0) is None);
            }
            return None;
        }
        let smp = Sample { elapsed_ms: e, value: v as i16 };
        proof {
            let r2 = bytes@.skip(p2 as int);
            assert(r2[0] == bytes@[p2 as int]);
            assert(r2.skip(1) =~= bytes@.skip((p2 + 1) as int));
            match csv_decoding(bytes@.skip((p2 + 1) as int)) {
                Option::Some(t) => {
                    assert(csv_decoding(b0) == Some(seq![smp] + t));
                    assert(out@.push(smp) + t =~= out@ + (seq![smp] + t));
                },
                Option::None => {
                    assert(csv_decoding(b0) is None);
                },
            }
        }
        out.push(smp);
        pos = p2 + 1;
    }
    proof {
        assert(bytes@.skip(pos as int) =~= Seq::<u8>::empty());
        assert(csv_decoding(Seq::<u8>::empty()) == Some(Seq::<Sample>::empty()));
        assert(out@ + Seq::<Sample>::empty() =~= out@);
    }
    Some(out)
}

} // verus!

//! Recording file names. A name is derived from the session start instant
//! as a fixed-width, locale-independent UTC timestamp —
//! `YYYY-MM-DDTHH-MM-SS.mmmZ.csv` — so that sessions started at different
//! milliseconds never collide.

use crate::sample_log::MAX_TIMESTAMP_MILLIS;
use crate::sample_log::Timestamp;
use crate::storage::is_valid_recording_name;
use chrono::Datelike;
use chrono::Timelike;
use vstd::prelude::*;

verus! {

/// A civil (calendar) decomposition of a UTC instant: year, month, day,
/// hour, minute, second and millisecond.
#[derive(Clone, Copy, PartialEq, Eq, Structural, Debug)]
pub struct CivilTime {
    pub year: u16,
    pub month: u8,
    pub day: u8,
    pub hour: u8,
    pub minute: u8,
    pub second: u8,
    pub millisecond: u16,
}

impl CivilTime {
    /// The field ranges of a civil time the library can format.
    pub open spec fn wf(self) -> bool {
        &&& 1970 <= self.year <= 9999
        &&& 1 <= self.month <= 12
        &&& 1 <= self.day <= 31
        &&& self.hour <= 23
        &&& self.minute <= 59
        &&& self.second <= 59
        &&& self.millisecond <= 999
    }
}

/// The UTC instant, in milliseconds since the Unix epoch, denoted by the
/// civil fields (year, month, day, hour, minute, second, millisecond).
/// Names what chrono's `DateTime::<Utc>::timestamp_millis` returns for a
/// date-time with these fields; the value is a function of the fields alone.
pub uninterp spec fn millis_of_civil(
    y: int,
    mo: int,
    d: int,
    h: int,
    mi: int,
    s: int,
    ms: int,
) -> int;

/// The civil decomposition of a UTC instant, as the tuple (year, month,
/// day, hour, minute, second, millisecond). Names what chrono's
/// `Datelike`/`Timelike` accessors return on
/// `DateTime::<Utc>::from_timestamp_millis(ms)`: UTC has no locale or
/// time-zone dependence, so the fields are a function of `ms` alone.
pub uninterp spec fn civil_of_millis(ms: int) -> (int, int, int, int, int, int, int);

/// The `CivilTime` holding the decomposition of `ms`.
pub open spec fn civil_decomposition(ms: int) -> CivilTime {
    let t = civil_of_millis(ms);
    CivilTime {
        year: t.0 as u16,
        month: t.1 as u8,
        day: t.2 as u8,
        hour: t.3 as u8,
        minute: t.4 as u8,
        second: t.5 as u8,
        millisecond: t.6 as u16,
    }
}

/// The instant a `CivilTime` denotes.
pub open spec fn civil_millis(c: CivilTime) -> int {
    millis_of_civil(
        c.year as int,
        c.month as int,
        c.day as int,
        c.hour as int,
        c.minute as int,
        c.second as int,
        c.millisecond as int,
    )
}

/// Relies on chrono: `DateTime::<Utc>::from_timestamp_millis` is defined on
/// this whole range (it fails only far outside the years 1970..=9999), and
/// the `Datelike`/`Timelike` accessors `year`, `month`, `day`, `hour`,
/// `minute`, `second` and `timestamp_subsec_millis` read back the civil
/// fields of that instant, which determine it exactly (`timestamp_millis`
/// inverts the decomposition).
#[verifier::external_body]
pub fn civil_from_millis(ms: i64) -> (c: CivilTime)
    requires
        0 <= ms < MAX_TIMESTAMP_MILLIS,
    ensures
        c.wf(),
        millis_of_civil(
            c.year as int,
            c.month as int,
            c.day as int,
            c.hour as int,
            c.minute as int,
            c.second as int,
            c.millisecond as int,
        ) == ms as int,
        civil_of_millis(ms as int) == (
            c.year as int,
            c.month as int,
            c.day as int,
            c.hour as int,
            c.minute as int,
            c.second as int,
            c.millisecond as int,
        ),
{
    let dt = chrono::DateTime::from_timestamp_millis(ms).unwrap();
    CivilTime {
        year: dt.year() as u16,
        month: dt.month() as u8,
        day: dt.day() as u8,
        hour: dt.hour() as u8,
        minute: dt.minute() as u8,
        second: dt.second() as u8,
        millisecond: dt.timestamp_subsec_millis() as u16,
    }
}

/// The character for the decimal digit `d`.
pub open spec fn digit_char(d: int) -> char {
    ((48 + d) as u8) as char
}

/// `n` zero-padded to two digits.
pub open spec fn pad2_chars(n: int) -> Seq<char> {
    seq![digit_char(n / 10 % 10), digit_char(n % 10)]
}

/// `n` zero-padded to three digits.
pub open spec fn pad3_chars(n: int) -> Seq<char> {
    seq![digit_char(n / 100 % 10), digit_char(n / 10 % 10), digit_char(n % 10)]
}

/// `n` zero-padded to four digits.
pub open spec fn pad4_chars(n: int) -> Seq<char> {
    seq![digit_char(n / 1000 % 10), digit_char(n / 100 % 10), digit_char(n / 10 % 10), digit_char(
        n % 10,
    )]
}

/// The file name for a civil time: `YYYY-MM-DDTHH-MM-SS.mmmZ.csv`, every
/// numeric field zero-padded to a fixed width.
pub open spec fn spec_recording_name(c: CivilTime) -> Seq<char> {
    pad4_chars(c.year as int) + seq!['-'] + pad2_chars(c.month as int) + seq!['-'] + pad2_chars(
        c.day as int,
    ) + seq!['T'] + pad2_chars(c.hour as int) + seq!['-'] + pad2_chars(c.minute as int) + seq!['-']
        + pad2_chars(c.second as int) + seq!['.'] + pad3_chars(c.millisecond as int) + seq![
        'Z',
        '.',
        'c',
        's',
        'v',
    ]
}

/// Relies on String::push: appends exactly one character at the end.
#[verifier::external_body]
fn push_char(s: &mut String, c: char)
    ensures
        final(s)@ == old(s)@.push(c),
{
    s.push(c);
}

/// The character for a digit value.
fn digit_to_char(d: u8) -> (c: char)
    requires
        d < 10,
    ensures
        c == digit_char(d as int),
{
    (48 + d) as char
}

/// Append one literal character.
fn push_lit(s: &mut String, c: char)
    ensures
        final(s)@ == old(s)@ + seq![c],
{
    push_char(s, c);
    proof {
        assert(old(s)@.push(c) =~= old(s)@ + seq![c]);
    }
}

/// Append a value zero-padded to two digits.
fn push_pad2(s: &mut String, v: u8)
    requires
        v < 100,
    ensures
        final(s)@ == old(s)@ + pad2_chars(v as int),
{
    push_char(s, digit_to_char(v / 10 % 10));
    push_char(s, digit_to_char(v % 10));
    proof {
        assert(old(s)@.push(digit_char((v / 10 % 10) as int)).push(digit_char((v % 10) as int))
            =~= old(s)@ + pad2_chars(v as int));
    }
}

/// Append a value zero-padded to three digits.
fn push_pad3(s: &mut String, v: u16)
    requires
        v < 1000,
    ensures
        final(s)@ == old(s)@ + pad3_chars(v as int),
{
    push_char(s, digit_to_char((v / 100 % 10) as u8));
    push_char(s, digit_to_char((v / 10 % 10) as u8));
    push_char(s, digit_to_char((v % 10) as u8));
    proof {
        assert(old(s)@.push(digit_char((v / 100 % 10) as int)).push(
            digit_char((v / 10 % 10) as int),
        ).push(digit_char((v % 10) as int)) =~= old(s)@ + pad3_chars(v as int));
    }
}

/// Append a value zero-padded to four digits.
fn push_pad4(s: &mut String, v: u16)
    requires
        v < 10000,
    ensures
        final(s)@ == old(s)@ + pad4_chars(v as int),
{
    push_char(s, digit_to_char((v / 1000 % 10) as u8));
    push_char(s, digit_to_char((v / 100 % 10) as u8));
    push_char(s, digit_to_char((v / 10 % 10) as u8));
    push_char(s, digit_to_char((v % 10) as u8));
    proof {
        assert(old(s)@.push(digit_char((v / 1000 % 10) as int)).push(
            digit_char((v / 100 % 10) as int),
        ).push(digit_char((v / 10 % 10) as int)).push(digit_char((v % 10) as int)) =~= old(s)@
            + pad4_chars(v as int));
    }
}

/// Format the fixed-width name of a civil time.
pub fn format_recording_name(c: &CivilTime) -> (r: String)
    requires
        c.wf(),
    ensures
        r@ == spec_recording_name(*c),
{
    let mut s = String::new();
    proof {
        assert(s@ + pad4_chars(c.year as int) =~= pad4_chars(c.year as int));
    }
    push_pad4(&mut s, c.year);
    push_lit(&mut s, '-');
    push_pad2(&mut s, c.month);
    push_lit(&mut s, '-');
    push_pad2(&mut s, c.day);
    push_lit(&mut s, 'T');
    push_pad2(&mut s, c.hour);
    push_lit(&mut s, '-');
    push_pad2(&mut s, c.minute);
    push_lit(&mut s, '-');
    push_pad2(&mut s, c.second);
    push_lit(&mut s, '.');
    push_pad3(&mut s, c.millisecond);
    push_lit(&mut s, 'Z');
    push_lit(&mut s, '.');
    push_lit(&mut s, 'c');
    push_lit(&mut s, 's');
    push_lit(&mut s, 'v');
    proof {
        assert(seq!['Z'] + seq!['.'] + seq!['c'] + seq!['s'] + seq!['v'] =~= seq![
            'Z',
            '.',
            'c',
            's',
            'v',
        ]);
        assert(s@ =~= spec_recording_name(*c));
    }
    s
}

/// Derive the file name for a session started at `start_time`: a
/// fixed-width UTC timestamp with millisecond precision, plus the `.csv`
/// extension. The name is a function of the start time alone — the same
/// instant always yields the same name — and always passes the library's
/// name validation.
pub fn name_for(start_time: &Timestamp) -> (r: String)
    requires
        start_time.wf(),
    ensures
        is_valid_recording_name(r@),
        r@ == spec_recording_name(civil_decomposition(start_time.millis as int)),
        civil_decomposition(start_time.millis as int).wf(),
        civil_millis(civil_decomposition(start_time.millis as int)) == start_time.millis as int,
{
    let c = civil_from_millis(start_time.millis);
    let r = format_recording_name(&c);
    proof {
        assert(c == civil_decomposition(start_time.millis as int));
        lemma_recording_name_valid(c);
    }
    r
}

/// Neither a path separator nor a drive prefix occurs in `s`.
spec fn no_separator(s: Seq<char>) -> bool {
    forall|i: int| 0 <= i < s.len() ==> s[i] != '/' && s[i] != '\\' && s[i] != ':'
}

proof fn lemma_no_separator_concat(a: Seq<char>, b: Seq<char>)
    requires
        no_separator(a),
        no_separator(b),
    ensures
        no_separator(a + b),
{
    assert forall|i: int| 0 <= i < (a + b).len() implies (a + b)[i] != '/' && (a + b)[i] != '\\'
        && (a + b)[i] != ':' by {
        if i < a.len() {
            assert((a + b)[i] == a[i]);
        } else {
            assert((a + b)[i] == b[i - a.len()]);
        }
    }
}

proof fn lemma_digit_char_no_sep(d: int)
    requires
        0 <= d < 10,
    ensures
        digit_char(d) != '/',
        digit_char(d) != '\\',
        digit_char(d) != ':',
{
}

proof fn lemma_pad2_no_sep(n: int)
    ensures
        no_separator(pad2_chars(n)),
{
    lemma_digit_char_no_sep(n / 10 % 10);
    lemma_digit_char_no_sep(n % 10);
    assert forall|i: int| 0 <= i < pad2_chars(n).len() implies pad2_chars(n)[i] != '/'
        && pad2_chars(n)[i] != '\\' && pad2_chars(n)[i] != ':' by {
        assert(pad2_chars(n)[0] == digit_char(n / 10 % 10));
        assert(pad2_chars(n)[1] == digit_char(n % 10));
    }
}

proof fn lemma_pad3_no_sep(n: int)
    ensures
        no_separator(pad3_chars(n)),
{
    lemma_digit_char_no_sep(n / 100 % 10);
    lemma_digit_char_no_sep(n / 10 % 10);
    lemma_digit_char_no_sep(n % 10);
    assert forall|i: int| 0 <= i < pad3_chars(n).len() implies pad3_chars(n)[i] != '/'
        && pad3_chars(n)[i] != '\\' && pad3_chars(n)[i] != ':' by {
        assert(pad3_chars(n)[0] == digit_char(n / 100 % 10));
        assert(pad3_chars(n)[1] == digit_char(n / 10 % 10));
        assert(pad3_chars(n)[2] == digit_char(n % 10));
    }
}

proof fn lemma_pad4_no_sep(n: int)
    ensures
        no_separator(pad4_chars(n)),
{
    lemma_digit_char_no_sep(n / 1000 % 10);
    lemma_digit_char_no_sep(n / 100 % 10);
    lemma_digit_char_no_sep(n / 10 % 10);
    lemma_digit_char_no_sep(n % 10);
    assert forall|i: int| 0 <= i < pad4_chars(n).len() implies pad4_chars(n)[i] != '/'
        && pad4_chars(n)[i] != '\\' && pad4_chars(n)[i] != ':' by {
        assert(pad4_chars(n)[0] == digit_char(n / 1000 % 10));
        assert(pad4_chars(n)[1] == digit_char(n / 100 % 10));
        assert(pad4_chars(n)[2] == digit_char(n / 10 % 10));
        assert(pad4_chars(n)[3] == digit_char(n % 10));
    }
}

/// Every generated recording name passes the library's own name
/// validation: it ends in `.csv` and holds no path separator, so the
/// save, upload and delete paths all accept it.
proof fn lemma_recording_name_valid(c: CivilTime)
    requires
        c.wf(),
    ensures
        is_valid_recording_name(spec_recording_name(c)),
{
    let tail5 = seq!['Z', '.', 'c', 's', 'v'];
    let head = pad4_chars(c.year as int) + seq!['-'] + pad2_chars(c.month as int) + seq!['-']
        + pad2_chars(c.day as int) + seq!['T'] + pad2_chars(c.hour as int) + seq!['-']
        + pad2_chars(c.minute as int) + seq!['-'] + pad2_chars(c.second as int) + seq!['.']
        + pad3_chars(c.millisecond as int);
    let s = spec_recording_name(c);
    assert(s =~= head + tail5);
    assert(head.len() == 23);
    assert(s.len() == 28);
    assert(s.subrange(24, 28) =~= seq!['.', 'c', 's', 'v']) by {
        assert(s[24] == tail5[1]);
        assert(s[25] == tail5[2]);
        assert(s[26] == tail5[3]);
        assert(s[27] == tail5[4]);
    }
    assert(no_separator(s)) by {
        lemma_pad4_no_sep(c.year as int);
        lemma_pad2_no_sep(c.month as int);
        lemma_pad2_no_sep(c.day as int);
        lemma_pad2_no_sep(c.hour as int);
        lemma_pad2_no_sep(c.minute as int);
        lemma_pad2_no_sep(c.second as int);
        lemma_pad3_no_sep(c.millisecond as int);
        assert(no_separator(seq!['-']));
        assert(no_separator(seq!['T']));
        assert(no_separator(seq!['.']));
        assert(no_separator(tail5));
        lemma_no_separator_concat(pad4_chars(c.year as int), seq!['-']);
        lemma_no_separator_concat(
            pad4_chars(c.year as int) + seq!['-'],
            pad2_chars(c.month as int),
        );
        lemma_no_separator_concat(
            pad4_chars(c.year as int) + seq!['-'] + pad2_chars(c.month as int),
            seq!['-'],
        );
        lemma_no_separator_concat(
            pad4_chars(c.year as int) + seq!['-'] + pad2_chars(c.month as int) + seq!['-'],
            pad2_chars(c.day as int),
        );
        lemma_no_separator_concat(
            pad4_chars(c.year as int) + seq!['-'] + pad2_chars(c.month as int) + seq!['-']
                + pad2_chars(c.day as int),
            seq!['T'],
        );
        lemma_no_separator_concat(
            pad4_chars(c.year as int) + seq!['-'] + pad2_chars(c.month as int) + seq!['-']
                + pad2_chars(c.day as int) + seq!['T'],
            pad2_chars(c.hour as int),
        );
        lemma_no_separator_concat(
            pad4_chars(c.year as int) + seq!['-'] + pad2_chars(c.month as int) + seq!['-']
                + pad2_chars(c.day as int) + seq!['T'] + pad2_chars(c.hour as int),
            seq!['-'],
        );
        lemma_no_separator_concat(
            pad4_chars(c.year as int) + seq!['-'] + pad2_chars(c.month as int) + seq!['-']
                + pad2_chars(c.day as int) + seq!['T'] + pad2_chars(c.hour as int) + seq!['-'],
            pad2_chars(c.minute as int),
        );
        lemma_no_separator_concat(
            pad4_chars(c.year as int) + seq!['-'] + pad2_chars(c.month as int) + seq!['-']
                + pad2_chars(c.day as int) + seq!['T'] + pad2_chars(c.hour as int) + seq!['-']
                + pad2_chars(c.minute as int),
            seq!['-'],
        );
        lemma_no_separator_concat(
            pad4_chars(c.year as int) + seq!['-'] + pad2_chars(c.month as int) + seq!['-']
                + pad2_chars(c.day as int) + seq!['T'] + pad2_chars(c.hour as int) + seq!['-']
                + pad2_chars(c.minute as int) + seq!['-'],
            pad2_chars(c.second as int),
        );
        lemma_no_separator_concat(
            pad4_chars(c.year as int) + seq!['-'] + pad2_chars(c.month as int) + seq!['-']
                + pad2_chars(c.day as int) + seq!['T'] + pad2_chars(c.hour as int) + seq!['-']
                + pad2_chars(c.minute as int) + seq!['-'] + pad2_chars(c.second as int),
            seq!['.'],
        );
        lemma_no_separator_concat(
            pad4_chars(c.year as int) + seq!['-'] + pad2_chars(c.month as int) + seq!['-']
                + pad2_chars(c.day as int) + seq!['T'] + pad2_chars(c.hour as int) + seq!['-']
                + pad2_chars(c.minute as int) + seq!['-'] + pad2_chars(c.second as int)
                + seq!['.'],
            pad3_chars(c.millisecond as int),
        );
        lemma_no_separator_concat(head, tail5);
        assert forall|i: int| 0 <= i < s.len() implies s[i] != '/' && s[i] != '\\' && s[i]
            != ':' by {
            assert(s[i] == (head + tail5)[i]);
        }
    }
}

/// Two digits are equal only if their characters are.
proof fn lemma_digit_char_inj(a: int, b: int)
    requires
        0 <= a < 10,
        0 <= b < 10,
        digit_char(a) == digit_char(b),
    ensures
        a == b,
{
    assert((48 + a) as u8 == (48 + b) as u8);
}

/// Equal two-digit paddings come from equal values.
proof fn lemma_pad2_inj(a: int, b: int)
    requires
        0 <= a < 100,
        0 <= b < 100,
        pad2_chars(a) == pad2_chars(b),
    ensures
        a == b,
{
    assert(pad2_chars(a)[0] == pad2_chars(b)[0]);
    assert(pad2_chars(a)[1] == pad2_chars(b)[1]);
    lemma_digit_char_inj(a / 10 % 10, b / 10 % 10);
    lemma_digit_char_inj(a % 10, b % 10);
    assert(a == 10 * (a / 10) + a % 10);
    assert(b == 10 * (b / 10) + b % 10);
    assert(a / 10 == a / 10 % 10);
    assert(b / 10 == b / 10 % 10);
}

/// Equal three-digit paddings come from equal values.
proof fn lemma_pad3_inj(a: int, b: int)
    requires
        0 <= a < 1000,
        0 <= b < 1000,
        pad3_chars(a) == pad3_chars(b),
    ensures
        a == b,
{
    assert(pad3_chars(a)[0] == pad3_chars(b)[0]);
    assert(pad3_chars(a)[1] == pad3_chars(b)[1]);
    assert(pad3_chars(a)[2] == pad3_chars(b)[2]);
    lemma_digit_char_inj(a / 100 % 10, b / 100 % 10);
    lemma_digit_char_inj(a / 10 % 10, b / 10 % 10);
    lemma_digit_char_inj(a % 10, b % 10);
    assert(a == 10 * (a / 10) + a % 10);
    assert(b == 10 * (b / 10) + b % 10);
    assert(a / 10 == 10 * (a / 10 / 10) + a / 10 % 10);
    assert(b / 10 == 10 * (b / 10 / 10) + b / 10 % 10);
    assert(a / 10 / 10 == a / 100) by (nonlinear_arith);
    assert(b / 10 / 10 == b / 100) by (nonlinear_arith);
    assert(a / 100 == a / 100 % 10);
    assert(b / 100 == b / 100 % 10);
}

/// Equal four-digit paddings come from equal values.
proof fn lemma_pad4_inj(a: int, b: int)
    requires
        0 <= a < 10000,
        0 <= b < 10000,
        pad4_chars(a) == pad4_chars(b),
    ensures
        a == b,
{
    assert(pad4_chars(a)[0] == pad4_chars(b)[0]);
    assert(pad4_chars(a)[1] == pad4_chars(b)[1]);
    assert(pad4_chars(a)[2] == pad4_chars(b)[2]);
    assert(pad4_chars(a)[3] == pad4_chars(b)[3]);
    lemma_digit_char_inj(a / 1000 % 10, b / 1000 % 10);
    lemma_digit_char_inj(a / 100 % 10, b / 100 % 10);
    lemma_digit_char_inj(a / 10 % 10, b / 10 % 10);
    lemma_digit_char_inj(a % 10, b % 10);
    assert(a == 10 * (a / 10) + a % 10);
    assert(b == 10 * (b / 10) + b % 10);
    assert(a / 10 == 10 * (a / 10 / 10) + a / 10 % 10);
    assert(b / 10 == 10 * (b / 10 / 10) + b / 10 % 10);
    assert(a / 10 / 10 == a / 100) by (nonlinear_arith);
    assert(b / 10 / 10 == b / 100) by (nonlinear_arith);
    assert(a / 100 == 10 * (a / 100 / 10) + a / 100 % 10);
    assert(b / 100 == 10 * (b / 100 / 10) + b / 100 % 10);
    assert(a / 100 / 10 == a / 1000) by (nonlinear_arith);
    assert(b / 100 / 10 == b / 1000) by (nonlinear_arith);
    assert(a / 1000 == a / 1000 % 10);
    assert(b / 1000 == b / 1000 % 10);
}

/// Equal concatenations with equally long first parts have equal parts.
proof fn lemma_concat_inj(a1: Seq<char>, b1: Seq<char>, a2: Seq<char>, b2: Seq<char>)
    requires
        a1.len() == a2.len(),
        a1 + b1 == a2 + b2,
    ensures
        a1 == a2,
        b1 == b2,
{
    assert(a1 =~= a2) by {
        assert(forall|i: int|
            0 <= i < a1.len() ==> a1[i] == (a1 + b1)[i] && a2[i] == (a2 + b2)[i]);
    }
    assert((a1 + b1).len() == a1.len() + b1.len());
    assert((a2 + b2).len() == a2.len() + b2.len());
    assert(b1.len() == b2.len());
    assert forall|i: int| 0 <= i < b1.len() implies b1[i] == b2[i] by {
        assert((a1 + b1)[a1.len() + i] == b1[i]);
        assert((a2 + b2)[a2.len() + i] == b2[i]);
    }
    assert(b1 =~= b2);
}

/// Name collision law: two civil times format to the same recording name
/// only if they are the same civil time, and hence denote the same instant.
/// Since a session's name is the formatting of the civil decomposition of
/// its start time, sessions started at different milliseconds never produce
/// the same name.
#[verifier::rlimit(100)]
pub proof fn lemma_recording_name_injective(c1: CivilTime, c2: CivilTime)
    requires
        c1.wf(),
        c2.wf(),
        spec_recording_name(c1) == spec_recording_name(c2),
    ensures
        c1 == c2,
        civil_millis(c1) == civil_millis(c2),
{
    let y1 = pad4_chars(c1.year as int);
    let y2 = pad4_chars(c2.year as int);
    let rest1 = seq!['-'] + pad2_chars(c1.month as int) + seq!['-'] + pad2_chars(c1.day as int)
        + seq!['T'] + pad2_chars(c1.hour as int) + seq!['-'] + pad2_chars(c1.minute as int)
        + seq!['-'] + pad2_chars(c1.second as int) + seq!['.'] + pad3_chars(c1.millisecond as int)
        + seq!['Z', '.', 'c', 's', 'v'];
    let rest2 = seq!['-'] + pad2_chars(c2.month as int) + seq!['-'] + pad2_chars(c2.day as int)
        + seq!['T'] + pad2_chars(c2.hour as int) + seq!['-'] + pad2_chars(c2.minute as int)
        + seq!['-'] + pad2_chars(c2.second as int) + seq!['.'] + pad3_chars(c2.millisecond as int)
        + seq!['Z', '.', 'c', 's', 'v'];
    assert(spec_recording_name(c1) =~= y1 + rest1);
    assert(spec_recording_name(c2) =~= y2 + rest2);
    lemma_concat_inj(y1, rest1, y2, rest2);
    lemma_pad4_inj(c1.year as int, c2.year as int);
    lemma_name_tail_eq(c1, c2, rest1, rest2);
}

/// Step through the tail of two equal names, field by field.
proof fn lemma_name_tail_eq(c1: CivilTime, c2: CivilTime, rest1: Seq<char>, rest2: Seq<char>)
    requires
        c1.wf(),
        c2.wf(),
        rest1 == seq!['-'] + pad2_chars(c1.month as int) + seq!['-'] + pad2_chars(c1.day as int)
            + seq!['T'] + pad2_chars(c1.hour as int) + seq!['-'] + pad2_chars(c1.minute as int)
            + seq!['-'] + pad2_chars(c1.second as int) + seq!['.'] + pad3_chars(
            c1.millisecond as int,
        ) + seq!['Z', '.', 'c', 's', 'v'],
        rest2 == seq!['-'] + pad2_chars(c2.month as int) + seq!['-'] + pad2_chars(c2.day as int)
            + seq!['T'] + pad2_chars(c2.hour as int) + seq!['-'] + pad2_chars(c2.minute as int)
            + seq!['-'] + pad2_chars(c2.second as int) + seq!['.'] + pad3_chars(
            c2.millisecond as int,
        ) + seq!['Z', '.', 'c', 's', 'v'],
        rest1 == rest2,
    ensures
        c1.month == c2.month,
        c1.day == c2.day,
        c1.hour == c2.hour,
        c1.minute == c2.minute,
        c1.second == c2.second,
        c1.millisecond == c2.millisecond,
{
    let tail1 = pad3_chars(c1.millisecond as int) + seq!['Z', '.', 'c', 's', 'v'];
    let tail2 = pad3_chars(c2.millisecond as int) + seq!['Z', '.', 'c', 's', 'v'];
    let head1 = seq!['-'] + pad2_chars(c1.month as int) + seq!['-'] + pad2_chars(c1.day as int)
        + seq!['T'] + pad2_chars(c1.hour as int) + seq!['-'] + pad2_chars(c1.minute as int)
        + seq!['-'] + pad2_chars(c1.second as int) + seq!['.'];
    let head2 = seq!['-'] + pad2_chars(c2.month as int) + seq!['-'] + pad2_chars(c2.day as int)
        + seq!['T'] + pad2_chars(c2.hour as int) + seq!['-'] + pad2_chars(c2.minute as int)
        + seq!['-'] + pad2_chars(c2.second as int) + seq!['.'];
    assert(rest1 =~= head1 + tail1);
    assert(rest2 =~= head2 + tail2);
    lemma_concat_inj(head1, tail1, head2, tail2);
    lemma_concat_inj(
        pad3_chars(c1.millisecond as int),
        seq!['Z', '.', 'c', 's', 'v'],
        pad3_chars(c2.millisecond as int),
        seq!['Z', '.', 'c', 's', 'v'],
    );
    lemma_pad3_inj(c1.millisecond as int, c2.millisecond as int);
    assert(head1[1] == head2[1]);
    assert(head1[2] == head2[2]);
    assert(head1[1] == digit_char(c1.month as int / 10 % 10));
    assert(head1[2] == digit_char(c1.month as int % 10));
    assert(head2[1] == digit_char(c2.month as int / 10 % 10));
    assert(head2[2] == digit_char(c2.month as int % 10));
    assert(pad2_chars(c1.month as int) =~= pad2_chars(c2.month as int));
    lemma_pad2_inj(c1.month as int, c2.month as int);
    assert(head1[4] == head2[4]);
    assert(head1[5] == head2[5]);
    assert(head1[4] == digit_char(c1.day as int / 10 % 10));
    assert(head1[5] == digit_char(c1.day as int % 10));
    assert(head2[4] == digit_char(c2.day as int / 10 % 10));
    assert(head2[5] == digit_char(c2.day as int % 10));
    assert(pad2_chars(c1.day as int) =~= pad2_chars(c2.day as int));
    lemma_pad2_inj(c1.day as int, c2.day as int);
    assert(head1[7] == head2[7]);
    assert(head1[8] == head2[8]);
    assert(head1[7] == digit_char(c1.hour as int / 10 % 10));
    assert(head1[8] == digit_char(c1.hour as int % 10));
    assert(head2[7] == digit_char(c2.hour as int / 10 % 10));
    assert(head2[8] == digit_char(c2.hour as int % 10));
    assert(pad2_chars(c1.hour as int) =~= pad2_chars(c2.hour as int));
    lemma_pad2_inj(c1.hour as int, c2.hour as int);
    assert(head1[10] == head2[10]);
    assert(head1[11] == head2[11]);
    assert(head1[10] == digit_char(c1.minute as int / 10 % 10));
    assert(head1[11] == digit_char(c1.minute as int % 10));
    assert(head2[10] == digit_char(c2.minute as int / 10 % 10));
    assert(head2[11] == digit_char(c2.minute as int % 10));
    assert(pad2_chars(c1.minute as int) =~= pad2_chars(c2.minute as int));
    lemma_pad2_inj(c1.minute as int, c2.minute as int);
    assert(head1[13] == head2[13]);
    assert(head1[14] == head2[14]);
    assert(head1[13] == digit_char(c1.second as int / 10 % 10));
    assert(head1[14] == digit_char(c1.second as int % 10));
    assert(head2[13] == digit_char(c2.second as int / 10 % 10));
    assert(head2[14] == digit_char(c2.second as int % 10));
    assert(pad2_chars(c1.second as int) =~= pad2_chars(c2.second as int));
    lemma_pad2_inj(c1.second as int, c2.second as int);
}

} // verus!

//! Timestamp-named backup records.
//!
//! A record directory is named `YYYY-MM-DD HH_MM_SS[.fff] +zzzz`: date,
//! time with an optional subsecond fraction of three, six or nine digits,
//! and a numeric UTC offset.  Names both identify new snapshots and are
//! parsed back when old ones are enumerated for retention pruning.
use crate::chars::digit_char_of;
use crate::chars::digit_val;
use crate::chars::is_digit;
use crate::file_list::digit_run_end;
use crate::file_list::digits_val;
use crate::file_list::lemma_digit_run_end;
use crate::file_list::lemma_digit_run_end_is;
use vstd::prelude::*;

verus! {

/// A civil time with a fixed UTC offset, second-or-finer precision.
#[derive(Clone, Copy, Debug, PartialEq, Eq, Structural)]
pub struct Timestamp {
    pub year: i32,
    pub month: u32,
    pub day: u32,
    pub hour: u32,
    pub minute: u32,
    pub second: u32,
    /// Nanoseconds past the second; a value of one billion or more marks a
    /// leap second.
    pub nanos: u32,
    /// Local time minus UTC, in seconds.
    pub offset_seconds: i32,
}

pub open spec fn is_leap_year(y: int) -> bool {
    y % 4 == 0 && (y % 100 != 0 || y % 400 == 0)
}

pub open spec fn days_in_month(y: int, m: int) -> int {
    if m == 2 {
        if is_leap_year(y) {
            29
        } else {
            28
        }
    } else if m == 4 || m == 6 || m == 9 || m == 11 {
        30
    } else {
        31
    }
}

impl Timestamp {
    /// A well-formed civil time: a real calendar date within four-digit
    /// years, and in-range time fields.
    pub open spec fn wf(self) -> bool {
        &&& 1 <= self.year <= 9999
        &&& 1 <= self.month <= 12
        &&& 1 <= self.day <= days_in_month(self.year as int, self.month as int)
        &&& self.hour <= 23
        &&& self.minute <= 59
        &&& self.second <= 59
        &&& self.nanos < 2_000_000_000
        &&& -86400 < self.offset_seconds < 86400
    }
}

/// `v` zero-padded to `w` decimal digits (modulo `10^w`).
pub open spec fn pad_digits(v: int, w: nat) -> Seq<char>
    decreases w,
{
    if w == 0 {
        Seq::empty()
    } else {
        pad_digits(v / 10, (w - 1) as nat) + seq![digit_char_of(v % 10)]
    }
}

pub open spec fn pow10(k: nat) -> int
    decreases k,
{
    if k == 0 {
        1
    } else {
        10 * pow10((k - 1) as nat)
    }
}

pub proof fn lemma_pad_digits(v: int, w: nat)
    requires
        0 <= v < pow10(w),
    ensures
        pad_digits(v, w).len() == w,
        forall|i: int| 0 <= i < w ==> is_digit(#[trigger] pad_digits(v, w)[i]),
        digits_val(pad_digits(v, w)) == v,
    decreases w,
{
    if w == 0 {
    } else {
        let a = pad_digits(v / 10, (w - 1) as nat);
        let c = digit_char_of(v % 10);
        let ds = pad_digits(v, w);
        assert(pow10(w) == 10 * pow10((w - 1) as nat));
        assert(v / 10 < pow10((w - 1) as nat)) by {
            assert(v < 10 * pow10((w - 1) as nat));
        }
        lemma_pad_digits(v / 10, (w - 1) as nat);
        assert(ds =~= a + seq![c]);
        assert(ds.drop_last() =~= a);
        assert(ds.last() == c);
        assert(digits_val(ds) == digits_val(a) * 10 + digit_val(c));
        assert(digits_val(ds) == (v / 10) * 10 + v % 10);
        assert(forall|i: int| 0 <= i < ds.len() ==> is_digit(#[trigger] ds[i])) by {
            assert(forall|i: int| 0 <= i < a.len() ==> ds[i] == a[i]);
            assert(ds[ds.len() - 1] == c);
        }
    }
}

pub proof fn lemma_pow10_vals()
    ensures
        pow10(0) == 1,
        pow10(1) == 10,
        pow10(2) == 100,
        pow10(3) == 1000,
        pow10(4) == 10000,
        pow10(5) == 100000,
        pow10(6) == 1000000,
        pow10(7) == 10000000,
        pow10(8) == 100000000,
        pow10(9) == 1000000000,
{
    assert(pow10(0) == 1);
    assert(pow10(1) == 10 * pow10(0));
    assert(pow10(2) == 10 * pow10(1));
    assert(pow10(3) == 10 * pow10(2));
    assert(pow10(4) == 10 * pow10(3));
    assert(pow10(5) == 10 * pow10(4));
    assert(pow10(6) == 10 * pow10(5));
    assert(pow10(7) == 10 * pow10(6));
    assert(pow10(8) == 10 * pow10(7));
    assert(pow10(9) == 10 * pow10(8));
}

/// The date-and-time prefix of a record name, nineteen characters.
pub open spec fn date_part(ts: Timestamp) -> Seq<char> {
    pad_digits(ts.year as int, 4) + seq!['-'] + pad_digits(ts.month as int, 2) + seq!['-']
        + pad_digits(ts.day as int, 2) + seq![' '] + pad_digits(ts.hour as int, 2) + seq!['_']
        + pad_digits(ts.minute as int, 2) + seq!['_'] + pad_digits(
        ts.second as int + ts.nanos as int / 1_000_000_000,
        2,
    )
}

/// The subsecond fraction: empty when zero, else a dot and the fewest of
/// three, six or nine digits that keep full precision.
pub open spec fn frac_part(ts: Timestamp) -> Seq<char> {
    let nano = ts.nanos as int % 1_000_000_000;
    if nano == 0 {
        Seq::empty()
    } else if nano % 1_000_000 == 0 {
        seq!['.'] + pad_digits(nano / 1_000_000, 3)
    } else if nano % 1_000 == 0 {
        seq!['.'] + pad_digits(nano / 1_000, 6)
    } else {
        seq!['.'] + pad_digits(nano, 9)
    }
}

/// The UTC-offset suffix: sign, hours, minutes; seconds are rounded to the
/// nearest minute.
pub open spec fn zone_part(ts: Timestamp) -> Seq<char> {
    let off = ts.offset_seconds as int;
    let sign: char = if off < 0 {
        '-'
    } else {
        '+'
    };
    let a = if off < 0 {
        -off
    } else {
        off
    };
    let minutes = (a + 30) / 60;
    seq![' '] + seq![sign] + pad_digits(minutes / 60, 2) + pad_digits(minutes % 60, 2)
}

/// The record-directory name of a timestamp.
pub open spec fn name_of(ts: Timestamp) -> Seq<char> {
    date_part(ts) + frac_part(ts) + zone_part(ts)
}

/// Appends `v` zero-padded to `w` digits.
fn push_pad(v: u64, w: u64, out: &mut Vec<char>)
    ensures
        final(out)@ == old(out)@ + pad_digits(v as int, w as nat),
    decreases w,
{
    if w == 0 {
        assert(old(out)@ + pad_digits(v as int, 0) =~= old(out)@);
    } else {
        push_pad(v / 10, w - 1, out);
        out.push((((v % 10) as u8) + 48) as char);
        assert((old(out)@ + pad_digits(v as int / 10, (w - 1) as nat)).push(
            digit_char_of(v as int % 10),
        ) =~= old(out)@ + pad_digits(v as int, w as nat));
    }
}

/// Formats a timestamp as a record-directory name.
pub fn format_name(ts: &Timestamp) -> (r: Vec<char>)
    requires
        ts.wf(),
    ensures
        r@ == name_of(*ts),
{
    let mut r: Vec<char> = Vec::new();
    push_pad(ts.year as u64, 4, &mut r);
    r.push('-');
    push_pad(ts.month as u64, 2, &mut r);
    r.push('-');
    push_pad(ts.day as u64, 2, &mut r);
    r.push(' ');
    push_pad(ts.hour as u64, 2, &mut r);
    r.push('_');
    push_pad(ts.minute as u64, 2, &mut r);
    r.push('_');
    push_pad((ts.second + ts.nanos / 1_000_000_000) as u64, 2, &mut r);
    assert(r@ =~= date_part(*ts));
    let nano = ts.nanos % 1_000_000_000;
    if nano == 0 {
        assert(date_part(*ts) + frac_part(*ts) =~= date_part(*ts));
    } else if nano % 1_000_000 == 0 {
        r.push('.');
        push_pad((nano / 1_000_000) as u64, 3, &mut r);
        assert(r@ =~= date_part(*ts) + frac_part(*ts));
    } else if nano % 1_000 == 0 {
        r.push('.');
        push_pad((nano / 1_000) as u64, 6, &mut r);
        assert(r@ =~= date_part(*ts) + frac_part(*ts));
    } else {
        r.push('.');
        push_pad(nano as u64, 9, &mut r);
        assert(r@ =~= date_part(*ts) + frac_part(*ts));
    }
    r.push(' ');
    let off = ts.offset_seconds;
    if off < 0 {
        r.push('-');
    } else {
        r.push('+');
    }
    let a: u64 = if off < 0 {
        (-(off as i64)) as u64
    } else {
        off as u64
    };
    let minutes: u64 = (a + 30) / 60;
    push_pad(minutes / 60, 2, &mut r);
    push_pad(minutes % 60, 2, &mut r);
    assert(r@ =~= name_of(*ts));
    r
}

/// All characters in `[i, j)` are decimal digits.
pub open spec fn all_digits(s: Seq<char>, i: int, j: int) -> bool {
    forall|q: int| i <= q < j ==> is_digit(#[trigger] s[q])
}

/// The fixed `YYYY-MM-DD HH_MM_SS` layout of the first nineteen characters.
pub open spec fn base_shape(s: Seq<char>) -> bool {
    &&& s.len() >= 19
    &&& all_digits(s, 0, 4)
    &&& s[4] == '-'
    &&& all_digits(s, 5, 7)
    &&& s[7] == '-'
    &&& all_digits(s, 8, 10)
    &&& s[10] == ' '
    &&& all_digits(s, 11, 13)
    &&& s[13] == '_'
    &&& all_digits(s, 14, 16)
    &&& s[16] == '_'
    &&& all_digits(s, 17, 19)
}

/// End of the subsecond fraction: past the digit run after the dot, or 19
/// when there is no fraction.
pub open spec fn frac_end(s: Seq<char>) -> int {
    if s.len() > 19 && s[19] == '.' {
        digit_run_end(s, 20)
    } else {
        19
    }
}

/// Nanoseconds encoded by the fraction `[20, fe)`.
pub open spec fn frac_nanos(s: Seq<char>, fe: int) -> int {
    digits_val(s.subrange(20, fe)) * pow10((9 - (fe - 20)) as nat)
}

/// A whole record name: base layout, optional fraction of one to nine
/// digits, then ` ±zzzz`, and field values that form a real civil time.
pub open spec fn name_shape(s: Seq<char>) -> bool {
    let fe = frac_end(s);
    &&& base_shape(s)
    &&& (s.len() > 19 && s[19] == '.' ==> 1 <= fe - 20 <= 9)
    &&& s.len() == fe + 6
    &&& s[fe] == ' '
    &&& (s[fe + 1] == '+' || s[fe + 1] == '-')
    &&& all_digits(s, fe + 2, fe + 6)
    &&& parsed_fields_ok(s)
}

/// Field values read from a name.
pub open spec fn field(s: Seq<char>, i: int, j: int) -> int {
    digits_val(s.subrange(i, j))
}

pub open spec fn parsed_fields_ok(s: Seq<char>) -> bool {
    let fe = frac_end(s);
    let y = field(s, 0, 4);
    let mo = field(s, 5, 7);
    let d = field(s, 8, 10);
    let h = field(s, 11, 13);
    let mi = field(s, 14, 16);
    let sec = field(s, 17, 19);
    let zh = field(s, fe + 2, fe + 4);
    let zm = field(s, fe + 4, fe + 6);
    &&& 1 <= y <= 9999
    &&& 1 <= mo <= 12
    &&& 1 <= d <= days_in_month(y, mo)
    &&& h <= 23
    &&& mi <= 59
    &&& sec <= 59
    &&& zh <= 23
    &&& zm <= 59
}

/// The timestamp a well-shaped name denotes.
pub open spec fn name_fields(s: Seq<char>) -> Timestamp {
    let fe = frac_end(s);
    let zone = field(s, fe + 2, fe + 4) * 3600 + field(s, fe + 4, fe + 6) * 60;
    Timestamp {
        year: field(s, 0, 4) as i32,
        month: field(s, 5, 7) as u32,
        day: field(s, 8, 10) as u32,
        hour: field(s, 11, 13) as u32,
        minute: field(s, 14, 16) as u32,
        second: field(s, 17, 19) as u32,
        nanos: if s.len() > 19 && s[19] == '.' {
            frac_nanos(s, fe) as u32
        } else {
            0
        },
        offset_seconds: if s[fe + 1] == '-' {
            (-zone) as i32
        } else {
            zone as i32
        },
    }
}

/// The timestamp named by `s`, if `s` is a record name.
pub open spec fn parse_name(s: Seq<char>) -> Option<Timestamp> {
    if name_shape(s) {
        Some(name_fields(s))
    } else {
        None
    }
}

pub proof fn lemma_digits_val_bound(ds: Seq<char>)
    requires
        forall|i: int| 0 <= i < ds.len() ==> is_digit(#[trigger] ds[i]),
    ensures
        0 <= digits_val(ds) < pow10(ds.len()),
    decreases ds.len(),
{
    if ds.len() == 0 {
    } else {
        let a = ds.drop_last();
        assert(forall|i: int| 0 <= i < a.len() ==> a[i] == ds[i]);
        lemma_digits_val_bound(a);
        assert(pow10(ds.len()) == 10 * pow10(a.len()));
        assert(digits_val(ds) == digits_val(a) * 10 + digit_val(ds.last()));
        assert(digit_val(ds.last()) <= 9);
        assert(digits_val(a) * 10 <= (pow10(a.len()) - 1) * 10) by (nonlinear_arith)
            requires
                digits_val(a) <= pow10(a.len()) - 1,
        ;
    }
}

pub proof fn lemma_pow10_add(a: nat, b: nat)
    ensures
        pow10(a + b) == pow10(a) * pow10(b),
    decreases a,
{
    if a == 0 {
    } else {
        lemma_pow10_add((a - 1) as nat, b);
        assert(pow10(a + b) == 10 * pow10((a + b - 1) as nat));
        assert(pow10(a) == 10 * pow10((a - 1) as nat));
        assert(10 * (pow10((a - 1) as nat) * pow10(b)) == (10 * pow10((a - 1) as nat)) * pow10(
            b,
        )) by (nonlinear_arith);
    }
}

/// Reads the decimal value of `s[i..j]`, at most nine digits.
fn read_field(s: &Vec<char>, i: usize, j: usize) -> (r: u64)
    requires
        i <= j <= s@.len(),
        j - i <= 9,
        all_digits(s@, i as int, j as int),
    ensures
        r == field(s@, i as int, j as int),
        r < pow10((j - i) as nat),
{
    let ghost ds = s@.subrange(i as int, j as int);
    proof {
        assert(forall|q: int| 0 <= q < ds.len() ==> is_digit(#[trigger] ds[q]));
        lemma_digits_val_bound(ds);
        assert(ds.subrange(0, 0) =~= Seq::<char>::empty());
    }
    let mut acc: u64 = 0;
    let mut q: usize = i;
    while q < j
        invariant
            i <= q <= j <= s@.len(),
            j - i <= 9,
            ds == s@.subrange(i as int, j as int),
            forall|t: int| 0 <= t < ds.len() ==> is_digit(#[trigger] ds[t]),
            acc == digits_val(ds.subrange(0, q - i)),
            acc < 1_000_000_000,
        decreases j - q,
    {
        let ghost m = q - i;
        proof {
            assert(ds.subrange(0, m + 1).drop_last() =~= ds.subrange(0, m));
            assert(ds.subrange(0, m + 1).last() == ds[m]);
            assert(ds[m] == s@[q as int]);
            assert(is_digit(s@[q as int]));
            crate::file_list::lemma_digits_val_nonneg_pub(ds.subrange(0, m));
            lemma_digits_val_bound(ds.subrange(0, m + 1));
            assert(ds.subrange(0, m + 1).len() == m + 1 <= 9);
            lemma_pow10_le((m + 1) as nat, 9);
            lemma_pow10_vals();
        }
        let d: u32 = (s[q] as u32) - 48;
        acc = acc * 10 + (d as u64);
        q += 1;
    }
    proof {
        assert(ds.subrange(0, j - i) =~= ds);
    }
    acc
}

pub proof fn lemma_pow10_le(a: nat, b: nat)
    requires
        a <= b,
    ensures
        pow10(a) <= pow10(b),
    decreases b,
{
    if a < b {
        lemma_pow10_le(a, (b - 1) as nat);
        lemma_pow10_pos((b - 1) as nat);
    }
}

pub proof fn lemma_pow10_pos(a: nat)
    ensures
        pow10(a) >= 1,
    decreases a,
{
    if a > 0 {
        lemma_pow10_pos((a - 1) as nat);
    }
}

/// Whether every character of `s[i..j]` is a decimal digit.
fn check_digits(s: &Vec<char>, i: usize, j: usize) -> (r: bool)
    requires
        i <= j <= s@.len(),
    ensures
        r == all_digits(s@, i as int, j as int),
{
    let mut q: usize = i;
    while q < j
        invariant
            i <= q <= j <= s@.len(),
            forall|t: int| i <= t < q ==> is_digit(#[trigger] s@[t]),
        decreases j - q,
    {
        if !crate::chars::digit_char(s[q]) {
            return false;
        }
        q += 1;
    }
    true
}

pub fn days_in_month_exec(y: u64, m: u64) -> (r: u64)
    requires
        1 <= y,
        1 <= m <= 12,
    ensures
        r == days_in_month(y as int, m as int),
{
    if m == 2 {
        if y % 4 == 0 && (y % 100 != 0 || y % 400 == 0) {
            29
        } else {
            28
        }
    } else if m == 4 || m == 6 || m == 9 || m == 11 {
        30
    } else {
        31
    }
}

fn pow10_exec(k: u64) -> (r: u64)
    requires
        k <= 9,
    ensures
        r == pow10(k as nat),
{
    let mut r: u64 = 1;
    let mut t: u64 = 0;
    while t < k
        invariant
            t <= k <= 9,
            r == pow10(t as nat),
            r <= 1_000_000_000,
        decreases k - t,
    {
        proof {
            lemma_pow10_le((t + 1) as nat, 9);
            lemma_pow10_vals();
        }
        r = r * 10;
        t += 1;
    }
    r
}

/// A name parses to a well-formed timestamp.
pub proof fn lemma_name_fields_wf(s: Seq<char>)
    requires
        name_shape(s),
    ensures
        name_fields(s).wf(),
        name_fields(s).nanos < 1_000_000_000,
        name_fields(s).offset_seconds as int % 60 == 0,
{
    let fe = frac_end(s);
    lemma_pow10_vals();
    lemma_field_bounds(s, 0, 4);
    lemma_field_bounds(s, 5, 7);
    lemma_field_bounds(s, 8, 10);
    lemma_field_bounds(s, 11, 13);
    lemma_field_bounds(s, 14, 16);
    lemma_field_bounds(s, 17, 19);
    lemma_field_bounds(s, fe + 2, fe + 4);
    lemma_field_bounds(s, fe + 4, fe + 6);
    if s.len() > 19 && s[19] == '.' {
        let ds = s.subrange(20, fe);
        lemma_digit_run_end(s, 20);
        assert forall|q: int| 0 <= q < ds.len() implies is_digit(#[trigger] ds[q]) by {
            assert(ds[q] == s[20 + q]);
            assert(is_digit(s[20 + q]));
        }
        lemma_digits_val_bound(ds);
        let k = (fe - 20) as nat;
        lemma_pow10_add(k, (9 - k) as nat);
        lemma_pow10_pos((9 - k) as nat);
        assert(digits_val(ds) * pow10((9 - k) as nat) < pow10(k) * pow10((9 - k) as nat)) by (
        nonlinear_arith)
            requires
                digits_val(ds) < pow10(k),
                pow10((9 - k) as nat) >= 1,
        ;
        assert(ds.len() == fe - 20);
        assert(k + ((9 - k) as nat) == 9);
        assert(pow10(k) * pow10((9 - k) as nat) == pow10(9));
        assert(frac_nanos(s, fe) == digits_val(ds) * pow10((9 - (fe - 20)) as nat));
        assert((9 - (fe - 20)) as nat == (9 - k) as nat);
        assert(pow10((9 - (fe - 20)) as nat) == pow10((9 - k) as nat));
        assert(frac_nanos(s, fe) == digits_val(ds) * pow10((9 - k) as nat));
        assert(frac_nanos(s, fe) < pow10(9));
        assert(digits_val(ds) * pow10((9 - k) as nat) >= 0) by (nonlinear_arith)
            requires
                digits_val(ds) >= 0,
                pow10((9 - k) as nat) >= 1,
        ;
        assert(frac_nanos(s, fe) >= 0);
    }
}

proof fn lemma_field_bounds(s: Seq<char>, i: int, j: int)
    requires
        0 <= i <= j <= s.len(),
        all_digits(s, i, j),
    ensures
        0 <= field(s, i, j) < pow10((j - i) as nat),
{
    let ds = s.subrange(i, j);
    assert(forall|q: int| 0 <= q < ds.len() ==> is_digit(#[trigger] ds[q])) by {
        assert(forall|q: int| 0 <= q < ds.len() ==> ds[q] == s[i + q]);
    }
    lemma_digits_val_bound(ds);
}

/// Parses a directory name as a record name, rejecting any other shape.
pub fn parse_name_exec(s: &Vec<char>) -> (r: Option<Timestamp>)
    ensures
        r == parse_name(s@),
        r is Some ==> r->0.wf(),
{
    let n = s.len();
    if n < 25 {
        proof {
            if name_shape(s@) {
                if s@.len() > 19 && s@[19] == '.' {
                    lemma_digit_run_end(s@, 20);
                }
            }
        }
        return None;
    }
    if !(check_digits(s, 0, 4) && s[4] == '-' && check_digits(s, 5, 7) && s[7] == '-'
        && check_digits(s, 8, 10) && s[10] == ' ' && check_digits(s, 11, 13) && s[13] == '_'
        && check_digits(s, 14, 16) && s[16] == '_' && check_digits(s, 17, 19)) {
        return None;
    }
    let fe: usize;
    if s[19] == '.' {
        let mut de: usize = 20;
        while de < n && crate::chars::digit_char(s[de])
            invariant
                20 <= de <= n,
                n == s@.len(),
                forall|q: int| 20 <= q < de ==> is_digit(#[trigger] s@[q]),
            decreases n - de,
        {
            de += 1;
        }
        proof {
            lemma_digit_run_end_is(s@, 20, de as int);
        }
        if de - 20 < 1 || de - 20 > 9 {
            return None;
        }
        fe = de;
    } else {
        fe = 19;
    }
    assert(fe as int == frac_end(s@));
    if n != fe + 6 {
        return None;
    }
    if s[fe] != ' ' {
        return None;
    }
    let sign = s[fe + 1];
    if sign != '+' && sign != '-' {
        return None;
    }
    if !check_digits(s, fe + 2, fe + 6) {
        return None;
    }
    proof {
        lemma_pow10_vals();
    }
    let y = read_field(s, 0, 4);
    let mo = read_field(s, 5, 7);
    let d = read_field(s, 8, 10);
    let h = read_field(s, 11, 13);
    let mi = read_field(s, 14, 16);
    let sec = read_field(s, 17, 19);
    let zh = read_field(s, fe + 2, fe + 4);
    let zm = read_field(s, fe + 4, fe + 6);
    if !(1 <= y && 1 <= mo && mo <= 12 && 1 <= d && d <= days_in_month_exec(y, mo) && h <= 23
        && mi <= 59 && sec <= 59 && zh <= 23 && zm <= 59) {
        return None;
    }
    let nanos: u64;
    if s[19] == '.' {
        let v = read_field(s, 20, fe);
        let k = fe - 20;
        let f = pow10_exec(9 - (k as u64));
        proof {
            lemma_pow10_vals();
            lemma_pow10_add((k) as nat, (9 - k) as nat);
            lemma_pow10_pos((9 - k) as nat);
            assert(v * pow10((9 - k) as nat) < pow10(k as nat) * pow10((9 - k) as nat)) by (
            nonlinear_arith)
                requires
                    v < pow10(k as nat),
                    pow10((9 - k) as nat) >= 1,
            ;
        }
        nanos = v * f;
        assert(nanos == frac_nanos(s@, fe as int));
    } else {
        nanos = 0;
    }
    let zone: u64 = zh * 3600 + zm * 60;
    let offset_seconds: i32 = if sign == '-' {
        -((zone as i64) as i32)
    } else {
        zone as i32
    };
    let ts = Timestamp {
        year: y as i32,
        month: mo as u32,
        day: d as u32,
        hour: h as u32,
        minute: mi as u32,
        second: sec as u32,
        nanos: nanos as u32,
        offset_seconds,
    };
    proof {
        assert(name_shape(s@));
        assert(ts == name_fields(s@));
        lemma_name_fields_wf(s@);
    }
    Some(ts)
}

/// Days since the epoch of the civil date, by the standard Gregorian
/// era/year-of-era decomposition.
pub open spec fn days_of(y: int, m: int, d: int) -> int {
    let yy = if m <= 2 {
        y - 1
    } else {
        y
    };
    let era = yy / 400;
    let yoe = yy % 400;
    let mp = (m + 9) % 12;
    let doy = (153 * mp + 2) / 5 + d - 1;
    let doe = yoe * 365 + yoe / 4 - yoe / 100 + doy;
    era * 146097 + doe - 719468
}

/// Total order on timestamps: nanoseconds since the epoch, offset applied.
pub open spec fn key_of(ts: Timestamp) -> int {
    (days_of(ts.year as int, ts.month as int, ts.day as int) * 86400 + ts.hour as int * 3600
        + ts.minute as int * 60 + ts.second as int - ts.offset_seconds as int) * 1_000_000_000
        + ts.nanos as int
}

/// The chronological key of a well-formed timestamp.
pub fn key_exec(ts: &Timestamp) -> (r: i128)
    requires
        ts.wf(),
    ensures
        r as int == key_of(*ts),
{
    let y = ts.year as u64;
    let m = ts.month as u64;
    let yy: u64 = if m <= 2 {
        y - 1
    } else {
        y
    };
    let era: u64 = yy / 400;
    let yoe: u64 = yy % 400;
    let mp: u64 = (m + 9) % 12;
    let doy: u64 = (153 * mp + 2) / 5 + (ts.day as u64 - 1);
    let doe: u64 = yoe * 365 + yoe / 4 - yoe / 100 + doy;
    assert(era <= 24);
    assert(doe <= 146096);
    let days: i64 = (era * 146097 + doe) as i64 - 719468;
    let tod: i64 = (ts.hour as i64) * 3600 + (ts.minute as i64) * 60 + (ts.second as i64);
    let secs: i64 = days * 86400 + tod - (ts.offset_seconds as i64);
    (secs as i128) * 1_000_000_000 + (ts.nanos as i128)
}

/// Round trip of record names: formatting a well-formed timestamp with
/// sub-second nanoseconds and a minute-granular offset, then parsing the
/// name, returns the same timestamp.
pub proof fn lemma_name_round_trip(ts: Timestamp)
    requires
        ts.wf(),
        ts.nanos < 1_000_000_000,
        ts.offset_seconds as int % 60 == 0,
    ensures
        parse_name(name_of(ts)) == Some(ts),
{
    lemma_pow10_vals();
    let s = name_of(ts);
    let d = date_part(ts);
    let f = frac_part(ts);
    let z = zone_part(ts);
    let nano = ts.nanos as int;
    assert(nano % 1_000_000_000 == nano);
    let sd = ts.second as int + ts.nanos as int / 1_000_000_000;
    assert(sd == ts.second as int);
    // Piece lengths.
    lemma_pad_digits(ts.year as int, 4);
    lemma_pad_digits(ts.month as int, 2);
    lemma_pad_digits(ts.day as int, 2);
    lemma_pad_digits(ts.hour as int, 2);
    lemma_pad_digits(ts.minute as int, 2);
    lemma_pad_digits(sd, 2);
    assert(d.len() == 19);
    let off = ts.offset_seconds as int;
    let a = if off < 0 {
        -off
    } else {
        off
    };
    assert(a % 60 == 0);
    let q = a / 60;
    assert(a == 60 * q);
    vstd::arithmetic::div_mod::lemma_fundamental_div_mod_converse(60 * q + 30, 60, q, 30);
    assert((a + 30) / 60 == q);
    assert(q <= 1439);
    lemma_pad_digits(q / 60, 2);
    lemma_pad_digits(q % 60, 2);
    assert(z.len() == 6);
    // The fraction: empty, or a dot and three, six or nine digits whose
    // value scales back to the nanoseconds.
    let k: int = if nano == 0 {
        0
    } else if nano % 1_000_000 == 0 {
        3
    } else if nano % 1_000 == 0 {
        6
    } else {
        9
    };
    if nano != 0 {
        if nano % 1_000_000 == 0 {
            lemma_pad_digits(nano / 1_000_000, 3);
        } else if nano % 1_000 == 0 {
            lemma_pad_digits(nano / 1_000, 6);
        } else {
            lemma_pad_digits(nano, 9);
        }
        assert(f.len() == 1 + k);
    } else {
        assert(f.len() == 0);
    }
    let fe = 19 + f.len() as int;
    assert(s.len() == fe + 6);
    // The base layout.
    assert(base_shape(s));
    // The fraction boundary.
    if nano != 0 {
        assert(s[19] == '.');
        assert(frac_end(s) == fe) by {
            assert forall|t: int| 20 <= t < fe implies is_digit(s[t]) by {
                assert(s[t] == f[t - 19]);
            }
            assert(!is_digit(s[fe])) by {
                assert(s[fe] == z[0]);
            }
            lemma_digit_run_end_is(s, 20, fe);
        }
        // The digits scale back to the nanoseconds.
        assert(s.subrange(20, fe) =~= f.subrange(1, f.len() as int)) by {
            assert forall|t: int| 0 <= t < fe - 20 implies s.subrange(20, fe)[t] == f.subrange(
                1,
                f.len() as int,
            )[t] by {
                assert(s[20 + t] == f[1 + t]);
            }
        }
        if nano % 1_000_000 == 0 {
            assert(f.subrange(1, f.len() as int) =~= pad_digits(nano / 1_000_000, 3));
            assert(frac_nanos(s, fe) == (nano / 1_000_000) * pow10(6));
            assert(nano == 1_000_000 * (nano / 1_000_000) + nano % 1_000_000);
        } else if nano % 1_000 == 0 {
            assert(f.subrange(1, f.len() as int) =~= pad_digits(nano / 1_000, 6));
            assert(frac_nanos(s, fe) == (nano / 1_000) * pow10(3));
            assert(nano == 1_000 * (nano / 1_000) + nano % 1_000);
        } else {
            assert(f.subrange(1, f.len() as int) =~= pad_digits(nano, 9));
            assert(frac_nanos(s, fe) == nano * pow10(0));
        }
        assert(frac_nanos(s, fe) == nano);
    } else {
        assert(s[19] == z[0]);
        assert(s[19] == ' ');
        assert(frac_end(s) == 19);
    }
    assert(frac_end(s) == fe);
    // The zone suffix.
    assert(s[fe] == ' ') by {
        assert(s[fe] == z[0]);
    }
    let sign: char = if off < 0 {
        '-'
    } else {
        '+'
    };
    assert(s[fe + 1] == sign) by {
        assert(s[fe + 1] == z[1]);
    }
    assert forall|t: int| fe + 2 <= t < fe + 6 implies is_digit(s[t]) by {
        assert(s[t] == z[t - fe]);
        if t - fe < 4 {
            assert(z[t - fe] == pad_digits(q / 60, 2)[t - fe - 2]);
        } else {
            assert(z[t - fe] == pad_digits(q % 60, 2)[t - fe - 4]);
        }
    }
    // Field values.
    lemma_subrange_field(s, 0, 4, pad_digits(ts.year as int, 4), ts.year as int);
    lemma_subrange_field(s, 5, 7, pad_digits(ts.month as int, 2), ts.month as int);
    lemma_subrange_field(s, 8, 10, pad_digits(ts.day as int, 2), ts.day as int);
    lemma_subrange_field(s, 11, 13, pad_digits(ts.hour as int, 2), ts.hour as int);
    lemma_subrange_field(s, 14, 16, pad_digits(ts.minute as int, 2), ts.minute as int);
    lemma_subrange_field(s, 17, 19, pad_digits(sd, 2), sd);
    lemma_subrange_field(s, fe + 2, fe + 4, pad_digits(q / 60, 2), q / 60);
    lemma_subrange_field(s, fe + 4, fe + 6, pad_digits(q % 60, 2), q % 60);
    assert(q / 60 <= 23);
    assert(name_shape(s));
    // The parsed fields are those of the formatted timestamp.
    let out = name_fields(s);
    assert(out.nanos == ts.nanos);
    assert((q / 60) * 3600 + (q % 60) * 60 == 60 * q) by {
        assert(q == 60 * (q / 60) + q % 60);
        assert((q / 60) * 3600 == 3600 * (q / 60));
    }
    assert(out.offset_seconds == ts.offset_seconds);
    assert(out == ts);
}

proof fn lemma_subrange_field(s: Seq<char>, i: int, j: int, p: Seq<char>, v: int)
    requires
        0 <= i <= j <= s.len(),
        p.len() == j - i,
        forall|t: int| 0 <= t < p.len() ==> s[i + t] == p[t],
        digits_val(p) == v,
    ensures
        field(s, i, j) == v,
{
    assert(s.subrange(i, j) =~= p) by {
        assert forall|t: int| 0 <= t < j - i implies s.subrange(i, j)[t] == p[t] by {
            assert(s.subrange(i, j)[t] == s[i + t]);
        }
    }
}

} // verus!

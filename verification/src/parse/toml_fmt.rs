//! TOML datetimes as strings: uppercase `T` separator; a UTC
//! offset (`Z`, `z`, or `+00:00` in the source) renders as `Z`; any other
//! offset keeps its numeric form; fractional seconds drop trailing zeros,
//! and the `.` goes with them when the fraction is zero; local date-times,
//! dates, and times keep their offset-less fragment.

use vstd::prelude::*;

use crate::lock::{pad_number, padded};
use crate::text::string_of;

verus! {

/// A TOML date's fields.
#[derive(Clone, Copy, Debug)]
pub struct TomlDate {
    /// The year.
    pub year: u16,
    /// The month, 1 to 12.
    pub month: u8,
    /// The day, 1 to 31.
    pub day: u8,
}

/// A TOML time's fields.
#[derive(Clone, Copy, Debug)]
pub struct TomlTime {
    /// The hour.
    pub hour: u8,
    /// The minute.
    pub minute: u8,
    /// The second.
    pub second: u8,
    /// The nanosecond.
    pub nanosecond: u32,
}

/// A TOML offset.
#[derive(Clone, Copy, Debug)]
pub enum TomlOffset {
    /// `Z` or `z`.
    Z,
    /// A numeric offset, in minutes.
    Custom(i16),
}

/// A TOML datetime's fields: any of a date, a time, and an offset.
#[derive(Clone, Copy, Debug)]
pub struct TomlDatetime {
    /// The date, if any.
    pub date: Option<TomlDate>,
    /// The time, if any.
    pub time: Option<TomlTime>,
    /// The offset, if any.
    pub offset: Option<TomlOffset>,
}

/// Text without its trailing zeros.
pub open spec fn trim_zeros(s: Seq<char>) -> Seq<char>
    decreases s.len(),
{
    if s.len() > 0 && s.last() == '0' {
        trim_zeros(s.drop_last())
    } else {
        s
    }
}

/// `YYYY-MM-DD`.
pub open spec fn date_text(d: TomlDate) -> Seq<char> {
    padded(d.year as nat, 4) + seq!['-'] + padded(d.month as nat, 2) + seq!['-'] + padded(d.day as nat, 2)
}

/// `HH:MM:SS`, then `.` and the fraction without trailing zeros when it is
/// not zero.
pub open spec fn time_text(t: TomlTime) -> Seq<char> {
    let f = trim_zeros(padded(t.nanosecond as nat, 9));
    padded(t.hour as nat, 2) + seq![':'] + padded(t.minute as nat, 2) + seq![':'] + padded(t.second as nat, 2) + if f.len()
        > 0 {
        seq!['.'] + f
    } else {
        Seq::empty()
    }
}

/// `Z` for UTC, otherwise `±HH:MM`.
pub open spec fn offset_text(o: TomlOffset) -> Seq<char> {
    match o {
        TomlOffset::Z => seq!['Z'],
        TomlOffset::Custom(m) => if m == 0 {
            seq!['Z']
        } else {
            let a = if m < 0 { -m } else { m as int };
            seq![if m < 0 { '-' } else { '+' }] + padded((a / 60) as nat, 2) + seq![':'] + padded((a % 60) as nat, 2)
        },
    }
}

/// A datetime as a string.
pub open spec fn datetime_text(dt: TomlDatetime) -> Seq<char> {
    (match dt.date {
        Some(d) => date_text(d),
        None => Seq::empty(),
    }) + (match dt.time {
        Some(t) => (if dt.date is Some { seq!['T'] } else { Seq::empty() }) + time_text(t),
        None => Seq::empty(),
    }) + (match dt.offset {
        Some(o) => offset_text(o),
        None => Seq::empty(),
    })
}

fn trim_trailing_zeros(s: &Vec<char>) -> (r: Vec<char>)
    ensures
        r@ == trim_zeros(s@),
{
    let mut n = s.len();
    assert(s@.take(n as int) =~= s@);
    while n > 0 && s[n - 1] == '0'
        invariant
            n <= s.len(),
            trim_zeros(s@) == trim_zeros(s@.take(n as int)),
        decreases n,
    {
        assert(s@.take(n as int).drop_last() =~= s@.take(n - 1));
        n = n - 1;
    }
    crate::text::slice_vec(s, 0, n)
}

fn push(out: &mut Vec<char>, s: &Vec<char>)
    ensures
        final(out)@ == old(out)@ + s@,
{
    crate::jsonfmt::push_chars(out, s);
}

fn write_date(out: &mut Vec<char>, d: &TomlDate)
    ensures
        final(out)@ == old(out)@ + date_text(*d),
{
    let ghost base = out@;
    push(out, &pad_number(d.year as u64, 4));
    out.push('-');
    push(out, &pad_number(d.month as u64, 2));
    out.push('-');
    push(out, &pad_number(d.day as u64, 2));
    assert(out@ =~= base + date_text(*d));
}

fn write_time(out: &mut Vec<char>, t: &TomlTime)
    ensures
        final(out)@ == old(out)@ + time_text(*t),
{
    let ghost base = out@;
    push(out, &pad_number(t.hour as u64, 2));
    out.push(':');
    push(out, &pad_number(t.minute as u64, 2));
    out.push(':');
    push(out, &pad_number(t.second as u64, 2));
    let ghost mid = out@;
    let f = trim_trailing_zeros(&pad_number(t.nanosecond as u64, 9));
    if f.len() > 0 {
        out.push('.');
        push(out, &f);
        assert(out@ =~= mid + (seq!['.'] + f@));
    } else {
        assert(out@ =~= mid + Seq::<char>::empty());
    }
    assert(out@ =~= base + time_text(*t));
}

fn write_offset(out: &mut Vec<char>, o: &TomlOffset)
    ensures
        final(out)@ == old(out)@ + offset_text(*o),
{
    let ghost base = out@;
    match o {
        TomlOffset::Z => out.push('Z'),
        TomlOffset::Custom(m) => {
            if *m == 0 {
                out.push('Z');
            } else {
                let a: u64 = if *m < 0 { (0i32 - *m as i32) as u64 } else { *m as u64 };
                out.push(if *m < 0 { '-' } else { '+' });
                push(out, &pad_number(a / 60, 2));
                out.push(':');
                push(out, &pad_number(a % 60, 2));
            }
        },
    }
    assert(out@ =~= base + offset_text(*o));
}

/// Renders a TOML datetime as the string the data model holds.
pub fn render_datetime(dt: &TomlDatetime) -> (r: String)
    ensures
        r@ == datetime_text(*dt),
{
    let mut out: Vec<char> = Vec::new();
    match &dt.date {
        Some(d) => write_date(&mut out, d),
        None => {},
    }
    let ghost after_date = out@;
    match &dt.time {
        Some(t) => {
            if dt.date.is_some() {
                out.push('T');
            }
            write_time(&mut out, t);
        },
        None => {},
    }
    let ghost after_time = out@;
    match &dt.offset {
        Some(o) => write_offset(&mut out, o),
        None => {},
    }
    proof {
        let dp = match dt.date {
            Some(d) => date_text(d),
            None => Seq::empty(),
        };
        let tp = match dt.time {
            Some(t) => (if dt.date is Some { seq!['T'] } else { Seq::empty() }) + time_text(t),
            None => Seq::empty(),
        };
        let op = match dt.offset {
            Some(o) => offset_text(o),
            None => Seq::empty(),
        };
        assert(after_date =~= dp);
        assert(after_time =~= dp + tp);
        assert(out@ =~= dp + tp + op);
    }
    string_of(out.as_slice())
}


/// The number two decimal digits spell.
pub open spec fn two_digit_value(s: Seq<char>) -> int {
    (s[0] as int - '0' as int) * 10 + (s[1] as int - '0' as int)
}

/// The offset in minutes that a rendered offset stands for: `Z` is none;
/// `+HH:MM` is ahead of UTC and `-HH:MM` behind it.
pub open spec fn offset_minutes(t: Seq<char>) -> int {
    if t == seq!['Z'] {
        0
    } else {
        (if t[0] == '-' { -1int } else { 1int }) * (two_digit_value(t.subrange(1, 3)) * 60 + two_digit_value(t.subrange(4, 6)))
    }
}

proof fn lemma_padded_two(n: nat)
    requires
        n < 100,
    ensures
        padded(n, 2).len() == 2,
        two_digit_value(padded(n, 2)) == n,
{
    if n < 10 {
        crate::edit::lemma_digit_char(n);
        assert(n % 10 == n);
        assert(crate::text::dec_spec(n) == seq![crate::text::digit_char(n)]);
        assert(padded(n, 1) == crate::text::dec_spec(n));
        assert(padded(n, 2) == seq!['0'] + padded(n, 1));
        assert(padded(n, 2) =~= seq!['0', crate::text::digit_char(n)]);
    } else {
        let h = n / 10;
        let l = n % 10;
        crate::edit::lemma_digit_char(h);
        crate::edit::lemma_digit_char(l);
        assert(h < 10);
        assert(h % 10 == h);
        assert(crate::text::dec_spec(h) == seq![crate::text::digit_char(h)]);
        assert(crate::text::dec_spec(n) == crate::text::dec_spec(h).push(crate::text::digit_char(l)));
        assert(crate::text::dec_spec(n) =~= seq![crate::text::digit_char(h), crate::text::digit_char(l)]);
        assert(padded(n, 2) == crate::text::dec_spec(n));
        assert(n == h * 10 + l);
    }
}

/// Law: a rendered numeric offset reads back as the same number of minutes,
/// with its sign: an offset ahead of UTC is written `+HH:MM` and one behind
/// it `-HH:MM`, so the rendered datetime names the same instant (for any
/// offset of fewer than a hundred hours, which covers every TOML offset).
pub proof fn law_offset_reads_back(m: i16)
    requires
        -6000 < m < 6000,
    ensures
        offset_minutes(offset_text(TomlOffset::Custom(m))) == m,
        m > 0 ==> offset_text(TomlOffset::Custom(m))[0] == '+',
        m < 0 ==> offset_text(TomlOffset::Custom(m))[0] == '-',
        m != 0 ==> offset_text(TomlOffset::Custom(m)).len() == 6 && offset_text(TomlOffset::Custom(m))[3] == ':',
{
    if m != 0 {
        let a: int = if m < 0 { -m } else { m as int };
        let h = (a / 60) as nat;
        let mm = (a % 60) as nat;
        lemma_padded_two(h);
        lemma_padded_two(mm);
        let t = offset_text(TomlOffset::Custom(m));
        let sign = seq![if m < 0 { '-' } else { '+' }];
        assert(t == sign + padded(h, 2) + seq![':'] + padded(mm, 2));
        assert(t.subrange(1, 3) =~= padded(h, 2));
        assert(t.subrange(4, 6) =~= padded(mm, 2));
        assert(t != seq!['Z']) by {
            assert(t.len() == 6);
        }
        assert(a == h * 60 + mm);
        assert(two_digit_value(t.subrange(1, 3)) == h);
        assert(two_digit_value(t.subrange(4, 6)) == mm);
        if m < 0 {
            assert(t[0] == '-');
            assert(offset_minutes(t) == -1int * a);
        } else {
            assert(t[0] == '+');
            assert(offset_minutes(t) == 1int * a);
        }
    } else {
        assert(offset_text(TomlOffset::Custom(m)) == seq!['Z']);
    }
}

} // verus!

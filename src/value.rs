//! Typed, nullable cell values and their text.
use vstd::prelude::*;

verus! {

/// Largest magnitude of a decimal's mantissa (96 bits).
pub const DECIMAL_MAX_MANTISSA: i128 = 0xFFFF_FFFF_FFFF_FFFF_FFFF_FFFF;

/// Largest scale of a decimal.
pub const DECIMAL_MAX_SCALE: u32 = 28;

/// An arbitrary-precision decimal: `mantissa / 10^scale`.
#[derive(Clone, Copy, Debug, PartialEq, Eq, Structural)]
pub struct DecimalValue {
    pub mantissa: i128,
    pub scale: u32,
}

impl DecimalValue {
    pub open spec fn wf(&self) -> bool {
        &&& self.scale <= DECIMAL_MAX_SCALE
        &&& -DECIMAL_MAX_MANTISSA <= self.mantissa <= DECIMAL_MAX_MANTISSA
    }
}

/// A timestamp without time zone, field by field.
#[derive(Clone, Copy, Debug, PartialEq, Eq, Structural)]
pub struct DateTimeValue {
    pub year: i32,
    pub month: u32,
    pub day: u32,
    pub hour: u32,
    pub minute: u32,
    pub second: u32,
    pub nanosecond: u32,
}

pub open spec fn is_leap_year(y: int) -> bool {
    (y % 4 == 0 && y % 100 != 0) || y % 400 == 0
}

pub open spec fn days_in_month(y: int, m: int) -> int {
    if m == 2 {
        if is_leap_year(y) {
            29
        } else {
            28
        }
    } else if m == 4 || m == 6 || m == 9 || m == 11 {
        30
    } else {
        31
    }
}

impl DateTimeValue {
    /// A calendar date within the supported years and a time of day.
    pub open spec fn wf(&self) -> bool {
        &&& -262143 <= self.year <= 262142
        &&& 1 <= self.month <= 12
        &&& 1 <= self.day <= days_in_month(self.year as int, self.month as int)
        &&& self.hour < 24
        &&& self.minute < 60
        &&& self.second < 60
        &&& self.nanosecond < 1_000_000_000
    }
}

/// One cell. Every variant may be null; floats are carried as their decimal text.
#[derive(Clone, Debug)]
pub enum ColumnValue {
    Bool(Option<bool>),
    Short(Option<i16>),
    Integer(Option<i32>),
    UnsignedInt(Option<u8>),
    Float(Option<String>),
    BigFloat(Option<String>),
    Long(Option<i64>),
    String(Option<String>),
    Uuid(Option<u128>),
    DateTime2(Option<DateTimeValue>),
    DateTimeOffset(Option<DateTimeValue>),
    Decimal(Option<DecimalValue>),
}

pub open spec fn digit_char(d: int) -> char {
    if d == 0 {
        '0'
    } else if d == 1 {
        '1'
    } else if d == 2 {
        '2'
    } else if d == 3 {
        '3'
    } else if d == 4 {
        '4'
    } else if d == 5 {
        '5'
    } else if d == 6 {
        '6'
    } else if d == 7 {
        '7'
    } else if d == 8 {
        '8'
    } else if d == 9 {
        '9'
    } else if d == 10 {
        'a'
    } else if d == 11 {
        'b'
    } else if d == 12 {
        'c'
    } else if d == 13 {
        'd'
    } else if d == 14 {
        'e'
    } else {
        'f'
    }
}

/// Decimal digits of `n`, most significant first, without leading zeros.
pub open spec fn nat_text(n: nat) -> Seq<char>
    decreases n,
{
    if n < 10 {
        seq![digit_char(n as int)]
    } else {
        nat_text(n / 10).push(digit_char((n % 10) as int))
    }
}

/// An integer in decimal, with a leading `-` when negative.
pub open spec fn int_text(i: int) -> Seq<char> {
    if i < 0 {
        seq!['-'] + nat_text((-i) as nat)
    } else {
        nat_text(i as nat)
    }
}

/// The lowest `n` hexadecimal digits of `v`, most significant first.
pub open spec fn hex_text(v: nat, n: nat) -> Seq<char>
    decreases n,
{
    if n == 0 {
        Seq::empty()
    } else {
        hex_text(v / 16, (n - 1) as nat).push(digit_char((v % 16) as int))
    }
}

/// A UUID in its hyphenated lower-case form, 8-4-4-4-12 digits.
pub open spec fn uuid_text(v: u128) -> Seq<char> {
    hex_text((v / 0x1_0000_0000_0000_0000_0000_0000) as nat, 8) + seq!['-'] + hex_text(
        (v / 0x1_0000_0000_0000_0000_0000) as nat,
        4,
    ) + seq!['-'] + hex_text((v / 0x1_0000_0000_0000_0000) as nat, 4) + seq!['-'] + hex_text(
        (v / 0x1_0000_0000_0000) as nat,
        4,
    ) + seq!['-'] + hex_text(v as nat, 12)
}

/// `n` zeros.
pub open spec fn zeros(n: int) -> Seq<char> {
    Seq::new(if n > 0 {
        n as nat
    } else {
        0
    }, |i: int| '0')
}

/// The decimal digits of `n`, with leading zeros up to `width` digits.
pub open spec fn padded(n: nat, width: int) -> Seq<char> {
    zeros(width - nat_text(n).len()) + nat_text(n)
}

/// Text of a decimal `mantissa / 10^scale` as rust_decimal writes it: a `-`
/// when negative; the digits of the magnitude, zero-padded to at least `scale`
/// digits; a `.` before the last `scale` digits, with a `0` before it when no
/// digit is left; `0` for zero at scale 0.
pub open spec fn decimal_text(mantissa: int, scale: int) -> Seq<char> {
    let m = if mantissa < 0 {
        -mantissa
    } else {
        mantissa
    };
    let d = if m == 0 {
        Seq::<char>::empty()
    } else {
        nat_text(m as nat)
    };
    let z = zeros(scale - d.len()) + d;
    let body = if scale <= 0 {
        nat_text(m as nat)
    } else {
        let w = z.subrange(0, z.len() - scale);
        (if w.len() == 0 {
            seq!['0']
        } else {
            w
        }) + seq!['.'] + z.subrange(z.len() - scale, z.len() as int)
    };
    if mantissa < 0 {
        seq!['-'] + body
    } else {
        body
    }
}

/// A year as chrono writes it: four digits within 0..=9999, else an explicit
/// sign and at least four digits.
pub open spec fn year_text(y: int) -> Seq<char> {
    if 0 <= y <= 9999 {
        padded(y as nat, 4)
    } else if y < 0 {
        seq!['-'] + padded((-y) as nat, 4)
    } else {
        seq!['+'] + padded(y as nat, 4)
    }
}

/// Nanoseconds as chrono writes them: nothing when zero, else a `.` and 3, 6
/// or 9 digits, the fewest that hold them exactly.
pub open spec fn fraction_text(nano: int) -> Seq<char> {
    if nano == 0 {
        Seq::empty()
    } else if nano % 1_000_000 == 0 {
        seq!['.'] + padded((nano / 1_000_000) as nat, 3)
    } else if nano % 1_000 == 0 {
        seq!['.'] + padded((nano / 1_000) as nat, 6)
    } else {
        seq!['.'] + padded(nano as nat, 9)
    }
}

/// Text of a timestamp as chrono writes a `NaiveDateTime`:
/// `YYYY-MM-DD hh:mm:ss` and the fraction.
pub open spec fn datetime_text(
    year: int,
    month: int,
    day: int,
    hour: int,
    minute: int,
    second: int,
    nanosecond: int,
) -> Seq<char> {
    year_text(year) + seq!['-'] + padded(month as nat, 2) + seq!['-'] + padded(day as nat, 2)
        + seq![' '] + padded(hour as nat, 2) + seq![':'] + padded(minute as nat, 2) + seq![':']
        + padded(second as nat, 2) + fraction_text(nanosecond)
}

pub open spec fn null_text() -> Seq<char> {
    seq!['N', 'U', 'L', 'L']
}

pub open spec fn bool_text(b: bool) -> Seq<char> {
    if b {
        seq!['t', 'r', 'u', 'e']
    } else {
        seq!['f', 'a', 'l', 's', 'e']
    }
}

pub open spec fn timestamp_text(d: DateTimeValue) -> Seq<char> {
    datetime_text(
        d.year as int,
        d.month as int,
        d.day as int,
        d.hour as int,
        d.minute as int,
        d.second as int,
        d.nanosecond as int,
    )
}

impl ColumnValue {
    /// Whether every value held is within its type's range.
    pub open spec fn wf(&self) -> bool {
        match self {
            ColumnValue::DateTime2(Some(d)) => d.wf(),
            ColumnValue::DateTimeOffset(Some(d)) => d.wf(),
            ColumnValue::Decimal(Some(d)) => d.wf(),
            _ => true,
        }
    }

    pub open spec fn is_null(&self) -> bool {
        match self {
            ColumnValue::Bool(v) => v is None,
            ColumnValue::Short(v) => v is None,
            ColumnValue::Integer(v) => v is None,
            ColumnValue::UnsignedInt(v) => v is None,
            ColumnValue::Float(v) => v is None,
            ColumnValue::BigFloat(v) => v is None,
            ColumnValue::Long(v) => v is None,
            ColumnValue::String(v) => v is None,
            ColumnValue::Uuid(v) => v is None,
            ColumnValue::DateTime2(v) => v is None,
            ColumnValue::DateTimeOffset(v) => v is None,
            ColumnValue::Decimal(v) => v is None,
        }
    }

    /// The text of the value: `NULL` when absent, else its natural form.
    pub open spec fn text(&self) -> Seq<char> {
        if self.is_null() {
            null_text()
        } else {
            match self {
                ColumnValue::Bool(Some(b)) => bool_text(*b),
                ColumnValue::Short(Some(v)) => int_text(*v as int),
                ColumnValue::Integer(Some(v)) => int_text(*v as int),
                ColumnValue::UnsignedInt(Some(v)) => int_text(*v as int),
                ColumnValue::Long(Some(v)) => int_text(*v as int),
                ColumnValue::Float(Some(s)) => s@,
                ColumnValue::BigFloat(Some(s)) => s@,
                ColumnValue::String(Some(s)) => s@,
                ColumnValue::Uuid(Some(u)) => uuid_text(*u),
                ColumnValue::DateTime2(Some(d)) => timestamp_text(*d),
                ColumnValue::DateTimeOffset(Some(d)) => timestamp_text(*d),
                ColumnValue::Decimal(Some(d)) => decimal_text(d.mantissa as int, d.scale as int),
                _ => null_text(),
            }
        }
    }

    /// Whether the value held is within its type's range.
    pub fn is_valid(&self) -> (r: bool)
        ensures
            r == self.wf(),
    {
        match self {
            ColumnValue::DateTime2(Some(d)) => datetime_valid(d),
            ColumnValue::DateTimeOffset(Some(d)) => datetime_valid(d),
            ColumnValue::Decimal(Some(d)) => d.scale <= DECIMAL_MAX_SCALE && -DECIMAL_MAX_MANTISSA
                <= d.mantissa && d.mantissa <= DECIMAL_MAX_MANTISSA,
            _ => true,
        }
    }

    /// Writes the value as text.
    pub fn render(&self) -> (r: String)
        requires
            self.wf(),
        ensures
            r@ == self.text(),
    {
        let mut s = String::new();
        match self {
            ColumnValue::Bool(Some(b)) => {
                if *b {
                    s.append("true");
                } else {
                    s.append("false");
                }
                proof {
                    reveal_strlit("true");
                    reveal_strlit("false");
                    assert(s@ =~= self.text());
                }
            },
            ColumnValue::Short(Some(v)) => {
                push_int(&mut s, *v as i64);
            },
            ColumnValue::Integer(Some(v)) => {
                push_int(&mut s, *v as i64);
            },
            ColumnValue::UnsignedInt(Some(v)) => {
                push_int(&mut s, *v as i64);
            },
            ColumnValue::Long(Some(v)) => {
                push_int(&mut s, *v);
            },
            ColumnValue::Float(Some(t)) => {
                s = t.clone();
            },
            ColumnValue::BigFloat(Some(t)) => {
                s = t.clone();
            },
            ColumnValue::String(Some(t)) => {
                s = t.clone();
            },
            ColumnValue::Uuid(Some(u)) => {
                push_uuid(&mut s, *u);
            },
            ColumnValue::DateTime2(Some(d)) => {
                s = datetime_to_text(d);
            },
            ColumnValue::DateTimeOffset(Some(d)) => {
                s = datetime_to_text(d);
            },
            ColumnValue::Decimal(Some(d)) => {
                s = decimal_to_text(d.mantissa, d.scale);
            },
            _ => {
                s.append("NULL");
                proof {
                    reveal_strlit("NULL");
                    assert(s@ =~= self.text());
                }
            },
        }
        s
    }
}

fn datetime_valid(d: &DateTimeValue) -> (r: bool)
    ensures
        r == d.wf(),
{
    let leap = (d.year % 4 == 0 && d.year % 100 != 0) || d.year % 400 == 0;
    let days: u32 = if d.month == 2 {
        if leap {
            29
        } else {
            28
        }
    } else if d.month == 4 || d.month == 6 || d.month == 9 || d.month == 11 {
        30
    } else {
        31
    };
    -262143 <= d.year && d.year <= 262142 && 1 <= d.month && d.month <= 12 && 1 <= d.day && d.day
        <= days && d.hour < 24 && d.minute < 60 && d.second < 60 && d.nanosecond < 1_000_000_000
}

/// Relies on `String::push`: appends one character.
#[verifier::external_body]
pub(crate) fn push_char(s: &mut String, c: char)
    ensures
        final(s)@ == old(s)@.push(c),
{
    s.push(c);
}

/// Relies on rust_decimal: `Decimal::from_i128_with_scale` builds the value
/// (it panics only outside the bounds required here) and its `Display` writes
/// it as `decimal_text` states.
#[verifier::external_body]
fn decimal_to_text(mantissa: i128, scale: u32) -> (r: String)
    requires
        scale <= DECIMAL_MAX_SCALE,
        -DECIMAL_MAX_MANTISSA <= mantissa <= DECIMAL_MAX_MANTISSA,
    ensures
        r@ == decimal_text(mantissa as int, scale as int),
{
    rust_decimal::Decimal::from_i128_with_scale(mantissa, scale).to_string()
}

/// Relies on chrono: `NaiveDate::from_ymd_opt` and `NaiveDate::and_hms_nano_opt`
/// accept every well-formed timestamp, and `NaiveDateTime`'s `Display` writes
/// it as `datetime_text` states.
#[verifier::external_body]
fn datetime_to_text(d: &DateTimeValue) -> (r: String)
    requires
        d.wf(),
    ensures
        r@ == datetime_text(
            d.year as int,
            d.month as int,
            d.day as int,
            d.hour as int,
            d.minute as int,
            d.second as int,
            d.nanosecond as int,
        ),
{
    chrono::NaiveDate::from_ymd_opt(d.year, d.month, d.day)
        .unwrap()
        .and_hms_nano_opt(d.hour, d.minute, d.second, d.nanosecond)
        .unwrap()
        .to_string()
}

fn digit(d: u8) -> (c: char)
    requires
        d < 16,
    ensures
        c == digit_char(d as int),
{
    if d == 0 {
        '0'
    } else if d == 1 {
        '1'
    } else if d == 2 {
        '2'
    } else if d == 3 {
        '3'
    } else if d == 4 {
        '4'
    } else if d == 5 {
        '5'
    } else if d == 6 {
        '6'
    } else if d == 7 {
        '7'
    } else if d == 8 {
        '8'
    } else if d == 9 {
        '9'
    } else if d == 10 {
        'a'
    } else if d == 11 {
        'b'
    } else if d == 12 {
        'c'
    } else if d == 13 {
        'd'
    } else if d == 14 {
        'e'
    } else {
        'f'
    }
}

pub(crate) fn push_nat(s: &mut String, n: u64)
    ensures
        final(s)@ == old(s)@ + nat_text(n as nat),
        final(s)@ == old(s)@ + int_text(n as int),
    decreases n,
{
    if n >= 10 {
        push_nat(s, n / 10);
    }
    push_char(s, digit((n % 10) as u8));
    assert(final(s)@ =~= old(s)@ + nat_text(n as nat));
}

fn push_int(s: &mut String, v: i64)
    ensures
        final(s)@ == old(s)@ + int_text(v as int),
{
    if v < 0 {
        push_char(s, '-');
        let m: u64 = if v == i64::MIN {
            0x8000_0000_0000_0000u64
        } else {
            (-v) as u64
        };
        push_nat(s, m);
        assert(final(s)@ =~= old(s)@ + int_text(v as int));
    } else {
        push_nat(s, v as u64);
    }
}

fn push_hex(s: &mut String, v: u128, n: u32)
    ensures
        final(s)@ == old(s)@ + hex_text(v as nat, n as nat),
    decreases n,
{
    if n > 0 {
        push_hex(s, v / 16, n - 1);
        push_char(s, digit((v % 16) as u8));
        assert(final(s)@ =~= old(s)@ + hex_text(v as nat, n as nat));
    } else {
        assert(final(s)@ =~= old(s)@ + hex_text(v as nat, n as nat));
    }
}

fn push_uuid(s: &mut String, u: u128)
    ensures
        final(s)@ == old(s)@ + uuid_text(u),
{
    push_hex(s, u / 0x1_0000_0000_0000_0000_0000_0000, 8);
    push_char(s, '-');
    push_hex(s, u / 0x1_0000_0000_0000_0000_0000, 4);
    push_char(s, '-');
    push_hex(s, u / 0x1_0000_0000_0000_0000, 4);
    push_char(s, '-');
    push_hex(s, u / 0x1_0000_0000_0000, 4);
    push_char(s, '-');
    push_hex(s, u, 12);
    assert(final(s)@ =~= old(s)@ + uuid_text(u));
}

} // verus!

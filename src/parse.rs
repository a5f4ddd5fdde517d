//! Reading a typed value back from its text.
use vstd::prelude::*;
use crate::value::{
    ColumnValue, DECIMAL_MAX_MANTISSA, DECIMAL_MAX_SCALE, DecimalValue, decimal_text, digit_char,
    hex_text, int_text, nat_text, null_text, uuid_text, zeros, DateTimeValue, days_in_month,
    padded, year_text, fraction_text, timestamp_text,
};
use vstd::arithmetic::div_mod::lemma_div_denominator;

verus! {

/// The variant of a cell, without its value.
#[derive(Clone, Copy, Debug, PartialEq, Eq, Structural)]
pub enum ValueKind {
    Bool,
    Short,
    Integer,
    UnsignedInt,
    Float,
    BigFloat,
    Long,
    String,
    Uuid,
    DateTime2,
    DateTimeOffset,
    Decimal,
}

pub open spec fn kind_of(v: ColumnValue) -> ValueKind {
    match v {
        ColumnValue::Bool(_) => ValueKind::Bool,
        ColumnValue::Short(_) => ValueKind::Short,
        ColumnValue::Integer(_) => ValueKind::Integer,
        ColumnValue::UnsignedInt(_) => ValueKind::UnsignedInt,
        ColumnValue::Float(_) => ValueKind::Float,
        ColumnValue::BigFloat(_) => ValueKind::BigFloat,
        ColumnValue::Long(_) => ValueKind::Long,
        ColumnValue::String(_) => ValueKind::String,
        ColumnValue::Uuid(_) => ValueKind::Uuid,
        ColumnValue::DateTime2(_) => ValueKind::DateTime2,
        ColumnValue::DateTimeOffset(_) => ValueKind::DateTimeOffset,
        ColumnValue::Decimal(_) => ValueKind::Decimal,
    }
}

/// The value of a decimal digit, or -1 for another character.
pub open spec fn digit_value(c: char) -> int {
    if c == '0' {
        0
    } else if c == '1' {
        1
    } else if c == '2' {
        2
    } else if c == '3' {
        3
    } else if c == '4' {
        4
    } else if c == '5' {
        5
    } else if c == '6' {
        6
    } else if c == '7' {
        7
    } else if c == '8' {
        8
    } else if c == '9' {
        9
    } else {
        -1
    }
}

pub open spec fn all_digits(d: Seq<char>) -> bool {
    forall|i: int| 0 <= i < d.len() ==> digit_value(#[trigger] d[i]) >= 0
}

/// Digits without a superfluous leading zero.
pub open spec fn canonical_digits(d: Seq<char>) -> bool {
    &&& d.len() >= 1
    &&& all_digits(d)
    &&& (d.len() == 1 || d[0] != '0')
}

pub open spec fn digits_value(d: Seq<char>) -> int
    decreases d.len(),
{
    if d.len() == 0 {
        0
    } else {
        digits_value(d.drop_last()) * 10 + digit_value(d.last())
    }
}

/// The integer whose canonical decimal text is `t`, if any.
pub open spec fn int_of_text(t: Seq<char>) -> Option<int> {
    if t.len() > 0 && t[0] == '-' {
        let d = t.drop_first();
        if canonical_digits(d) && d != seq!['0'] {
            Some(-digits_value(d))
        } else {
            None
        }
    } else if canonical_digits(t) {
        Some(digits_value(t))
    } else {
        None
    }
}

pub open spec fn in_range(kind: ValueKind, i: int) -> bool {
    match kind {
        ValueKind::Short => i16::MIN <= i <= i16::MAX,
        ValueKind::Integer => i32::MIN <= i <= i32::MAX,
        ValueKind::UnsignedInt => 0 <= i <= u8::MAX,
        ValueKind::Long => i64::MIN <= i <= i64::MAX,
        _ => false,
    }
}

/// The value of a lower-case hexadecimal digit, or -1 for another character.
pub open spec fn hex_value(c: char) -> int {
    if digit_value(c) >= 0 {
        digit_value(c)
    } else if c == 'a' {
        10
    } else if c == 'b' {
        11
    } else if c == 'c' {
        12
    } else if c == 'd' {
        13
    } else if c == 'e' {
        14
    } else if c == 'f' {
        15
    } else {
        -1
    }
}

pub open spec fn all_hex(h: Seq<char>) -> bool {
    forall|i: int| 0 <= i < h.len() ==> hex_value(#[trigger] h[i]) >= 0
}

pub open spec fn hex_digits_value(h: Seq<char>) -> nat
    decreases h.len(),
{
    if h.len() == 0 {
        0
    } else {
        hex_digits_value(h.drop_last()) * 16 + hex_value(h.last()) as nat
    }
}

pub open spec fn pow16(m: nat) -> nat
    decreases m,
{
    if m == 0 {
        1
    } else {
        16 * pow16((m - 1) as nat)
    }
}

/// The 32 digits of a UUID's hyphenated text.
pub open spec fn uuid_digits(t: Seq<char>) -> Seq<char> {
    t.subrange(0, 8) + t.subrange(9, 13) + t.subrange(14, 18) + t.subrange(19, 23) + t.subrange(
        24,
        36,
    )
}

/// Whether `t` is a UUID in hyphenated lower-case form.
pub open spec fn is_uuid_text(t: Seq<char>) -> bool {
    &&& t.len() == 36
    &&& t[8] == '-'
    &&& t[13] == '-'
    &&& t[18] == '-'
    &&& t[23] == '-'
    &&& all_hex(uuid_digits(t))
}

/// `t` without a leading `-`.
pub open spec fn unsigned_part(t: Seq<char>) -> Seq<char> {
    if t.len() > 0 && t[0] == '-' {
        t.drop_first()
    } else {
        t
    }
}

/// `u` is canonical integer digits, a `.` at `k`, and 1 to 28 fraction digits.
pub open spec fn dot_split(u: Seq<char>, k: int) -> bool {
    &&& 0 <= k < u.len()
    &&& u[k] == '.'
    &&& canonical_digits(u.subrange(0, k))
    &&& all_digits(u.subrange(k + 1, u.len() as int))
    &&& 1 <= u.len() - k - 1 <= DECIMAL_MAX_SCALE
}

/// The digits of the mantissa of `u` split at `k`: the integer digits unless
/// they are a lone `0`, then the fraction digits.
pub open spec fn mantissa_digits(u: Seq<char>, k: int) -> Seq<char> {
    let w = u.subrange(0, k);
    (if w == seq!['0'] {
        Seq::empty()
    } else {
        w
    }) + u.subrange(k + 1, u.len() as int)
}

/// The mantissa and scale of a decimal in canonical form: an optional `-`
/// (not on zero), integer digits without a superfluous leading zero, and an
/// optional `.` with 1 to 28 fraction digits, within the 96-bit mantissa.
pub open spec fn decimal_of_text(t: Seq<char>) -> Option<(int, int)> {
    let neg = t.len() > 0 && t[0] == '-';
    let u = unsigned_part(t);
    let (ok, m, scale) = if canonical_digits(u) {
        (true, digits_value(u), 0int)
    } else if exists|k: int| dot_split(u, k) {
        let k = choose|k: int| dot_split(u, k);
        (true, digits_value(mantissa_digits(u, k)), u.len() - k - 1)
    } else {
        (false, 0int, 0int)
    };
    if !ok || (neg && m == 0) || m > DECIMAL_MAX_MANTISSA {
        None
    } else {
        Some(
            (
                if neg {
                    -m
                } else {
                    m
                },
                scale,
            ),
        )
    }
}

/// The number of characters from the `.` of a timestamp's fraction to its
/// end: 4, 7 or 10, or 0 when the text has no fraction there.
pub open spec fn fraction_len(t: Seq<char>) -> int {
    if t.len() >= 4 && t[t.len() - 4] == '.' {
        4
    } else if t.len() >= 7 && t[t.len() - 7] == '.' {
        7
    } else if t.len() >= 10 && t[t.len() - 10] == '.' {
        10
    } else {
        0
    }
}

/// The value of `t` from `from` to `to` when those are all digits.
pub open spec fn fixed_digits(t: Seq<char>, from: int, to: int) -> Option<int> {
    if all_digits(t.subrange(from, to)) {
        Some(digits_value(t.subrange(from, to)))
    } else {
        None
    }
}

/// A year as chrono writes it: four digits, or a sign and four to six digits
/// (no superfluous leading zero past four), `+` only above 9999 and `-` only
/// below 0.
pub open spec fn year_of_text(y: Seq<char>) -> Option<int> {
    if y.len() == 4 && all_digits(y) {
        Some(digits_value(y))
    } else if 5 <= y.len() <= 7 && (y[0] == '+' || y[0] == '-') {
        let d = y.drop_first();
        let v = digits_value(d);
        if !all_digits(d) || (d.len() > 4 && d[0] == '0') {
            None
        } else if y[0] == '+' && v > 9999 {
            Some(v)
        } else if y[0] == '-' && v >= 1 {
            Some(-v)
        } else {
            None
        }
    } else {
        None
    }
}

/// Nanoseconds as chrono writes them: nothing for zero, else a `.` and 3, 6 or
/// 9 digits, the fewest that hold them.
pub open spec fn nano_of_text(f: Seq<char>) -> Option<int> {
    if f.len() == 0 {
        Some(0)
    } else if f[0] != '.' || !all_digits(f.drop_first()) {
        None
    } else {
        let v = digits_value(f.drop_first());
        if f.len() == 4 && v != 0 {
            Some(v * 1_000_000)
        } else if f.len() == 7 && v % 1000 != 0 {
            Some(v * 1000)
        } else if f.len() == 10 && v % 1000 != 0 {
            Some(v)
        } else {
            None
        }
    }
}

/// The timestamp written as `t` in chrono's form `YYYY-MM-DD hh:mm:ss` and
/// fraction, when it is a well-formed one.
pub open spec fn datetime_of_text(t: Seq<char>) -> Option<DateTimeValue> {
    let fl = fraction_len(t);
    let y = t.len() - 15 - fl;
    if y < 4 {
        None
    } else {
        let yv = year_of_text(t.subrange(0, y));
        let mo = fixed_digits(t, y + 1, y + 3);
        let dd = fixed_digits(t, y + 4, y + 6);
        let hh = fixed_digits(t, y + 7, y + 9);
        let mi = fixed_digits(t, y + 10, y + 12);
        let ss = fixed_digits(t, y + 13, y + 15);
        let ns = nano_of_text(t.subrange(y + 15, t.len() as int));
        if t[y] == '-' && t[y + 3] == '-' && t[y + 6] == ' ' && t[y + 9] == ':' && t[y + 12]
            == ':' && yv is Some && mo is Some && dd is Some && hh is Some && mi is Some
            && ss is Some && ns is Some && -262143 <= yv->Some_0 <= 262142 && 1 <= mo->Some_0
            <= 12 && 1 <= dd->Some_0 <= days_in_month(yv->Some_0, mo->Some_0) && hh->Some_0 < 24
            && mi->Some_0 < 60 && ss->Some_0 < 60 && ns->Some_0 < 1_000_000_000 {
            Some(
                DateTimeValue {
                    year: yv->Some_0 as i32,
                    month: mo->Some_0 as u32,
                    day: dd->Some_0 as u32,
                    hour: hh->Some_0 as u32,
                    minute: mi->Some_0 as u32,
                    second: ss->Some_0 as u32,
                    nanosecond: ns->Some_0 as u32,
                },
            )
        } else {
            None
        }
    }
}

/// `v` is the non-null value of variant `kind` read from `t`.
pub open spec fn parses_to(kind: ValueKind, t: Seq<char>, v: ColumnValue) -> bool {
    &&& kind_of(v) == kind
    &&& !v.is_null()
    &&& match v {
        ColumnValue::Bool(Some(b)) => t == (if b {
            "true"@
        } else {
            "false"@
        }),
        ColumnValue::Short(Some(x)) => int_of_text(t) == Some(x as int),
        ColumnValue::Integer(Some(x)) => int_of_text(t) == Some(x as int),
        ColumnValue::UnsignedInt(Some(x)) => int_of_text(t) == Some(x as int),
        ColumnValue::Long(Some(x)) => int_of_text(t) == Some(x as int),
        ColumnValue::Float(Some(s)) => s@ == t,
        ColumnValue::BigFloat(Some(s)) => s@ == t,
        ColumnValue::String(Some(s)) => s@ == t,
        ColumnValue::Uuid(Some(u)) => is_uuid_text(t) && u as nat == hex_digits_value(
            uuid_digits(t),
        ),
        ColumnValue::DateTime2(Some(d)) => datetime_of_text(t) == Some(d),
        ColumnValue::DateTimeOffset(Some(d)) => datetime_of_text(t) == Some(d),
        ColumnValue::Decimal(Some(d)) => decimal_of_text(t) == Some(
            (d.mantissa as int, d.scale as int),
        ),
        _ => false,
    }
}

/// Whether `t` is the text of a non-null value of variant `kind` that is read here:
/// booleans, integers in canonical decimal form and range, UUIDs in hyphenated
/// lower-case form, decimals in canonical form, timestamps in chrono's form,
/// and the text-carried variants.
pub open spec fn accepts(kind: ValueKind, t: Seq<char>) -> bool {
    match kind {
        ValueKind::Bool => t == "true"@ || t == "false"@,
        ValueKind::Short | ValueKind::Integer | ValueKind::UnsignedInt | ValueKind::Long => {
            &&& int_of_text(t) is Some
            &&& in_range(kind, int_of_text(t)->Some_0)
        },
        ValueKind::Float | ValueKind::BigFloat | ValueKind::String => true,
        ValueKind::Uuid => is_uuid_text(t),
        ValueKind::Decimal => decimal_of_text(t) is Some,
        ValueKind::DateTime2 | ValueKind::DateTimeOffset => datetime_of_text(t) is Some,
        _ => false,
    }
}

proof fn lemma_digit_round_trip(c: char)
    requires
        digit_value(c) >= 0,
    ensures
        digit_char(digit_value(c)) == c,
        0 <= digit_value(c) <= 9,
{
}

proof fn lemma_digits_positive(d: Seq<char>)
    requires
        d.len() >= 1,
        all_digits(d),
        d[0] != '0',
    ensures
        digits_value(d) >= 1,
    decreases d.len(),
{
    if d.len() > 1 {
        let p = d.drop_last();
        assert(p[0] == d[0]);
        assert forall|i: int| 0 <= i < p.len() implies digit_value(#[trigger] p[i]) >= 0 by {
            assert(p[i] == d[i]);
        }
        lemma_digits_positive(p);
        assert(d.last() == d[d.len() - 1]);
        assert(digit_value(d.last()) >= 0);
        let pv = digits_value(p);
        assert(pv * 10 >= 10) by (nonlinear_arith)
            requires
                pv >= 1,
        ;
        assert(digits_value(d) == pv * 10 + digit_value(d.last()));
    } else {
        assert(d.drop_last().len() == 0);
        assert(digits_value(d.drop_last()) == 0);
        assert(d.last() == d[0]);
        assert(digit_value(d[0]) >= 0);
        assert(digits_value(d) == digit_value(d[0]));
    }
}

/// Canonical digits are the text of their value.
proof fn lemma_digits_text(d: Seq<char>)
    requires
        canonical_digits(d),
    ensures
        digits_value(d) >= 0,
        nat_text(digits_value(d) as nat) == d,
    decreases d.len(),
{
    let c = d.last();
    assert(digit_value(d[d.len() - 1]) >= 0);
    lemma_digit_round_trip(c);
    if d.len() == 1 {
        assert(d.drop_last().len() == 0);
        assert(digits_value(d.drop_last()) == 0);
        assert(digits_value(d) == digit_value(c));
        assert(nat_text(digits_value(d) as nat) =~= d);
    } else {
        let p = d.drop_last();
        assert(p[0] == d[0]);
        assert forall|i: int| 0 <= i < p.len() implies digit_value(#[trigger] p[i]) >= 0 by {
            assert(p[i] == d[i]);
        }
        lemma_digits_positive(p);
        lemma_digits_text(p);
        let n = digits_value(d);
        assert(n == digits_value(p) * 10 + digit_value(c));
        assert(n / 10 == digits_value(p));
        assert(n % 10 == digit_value(c));
        assert(nat_text(n as nat) =~= d);
    }
}

/// Text read as a value of some variant writes back as the same text.
pub proof fn lemma_parse_then_render(kind: ValueKind, t: Seq<char>, v: ColumnValue)
    requires
        parses_to(kind, t, v),
    ensures
        v.text() == t,
{
    match v {
        ColumnValue::Bool(Some(b)) => {
            reveal_strlit("true");
            reveal_strlit("false");
            if b {
                assert(t =~= seq!['t', 'r', 'u', 'e']);
            } else {
                assert(t =~= seq!['f', 'a', 'l', 's', 'e']);
            }
        },
        ColumnValue::Short(Some(x)) => lemma_int_text(t),
        ColumnValue::Integer(Some(x)) => lemma_int_text(t),
        ColumnValue::UnsignedInt(Some(x)) => lemma_int_text(t),
        ColumnValue::Long(Some(x)) => lemma_int_text(t),
        ColumnValue::Uuid(Some(u)) => lemma_uuid_text(t),
        ColumnValue::Decimal(Some(d)) => lemma_decimal_text(t),
        ColumnValue::DateTime2(Some(d)) => lemma_datetime_text(t),
        ColumnValue::DateTimeOffset(Some(d)) => lemma_datetime_text(t),
        _ => {},
    }
}

proof fn lemma_hex_text_len(v: nat, n: nat)
    ensures
        hex_text(v, n).len() == n,
    decreases n,
{
    if n > 0 {
        lemma_hex_text_len(v / 16, (n - 1) as nat);
    }
}

/// The lowest `n + m` digits are the `n` digits above the lowest `m`, then those.
proof fn lemma_hex_split(v: nat, n: nat, m: nat)
    ensures
        hex_text(v, n + m) == hex_text(v / pow16(m), n) + hex_text(v, m),
    decreases m,
{
    if m == 0 {
        assert(v / 1 == v);
        assert(hex_text(v, n + m) =~= hex_text(v / pow16(m), n) + hex_text(v, m));
    } else {
        lemma_hex_split(v / 16, n, (m - 1) as nat);
        lemma_pow16_pos((m - 1) as nat);
        lemma_div_denominator(v as int, 16, pow16((m - 1) as nat) as int);
        assert((v / 16) / pow16((m - 1) as nat) == v / pow16(m));
        assert(hex_text(v, (n + m) as nat) == hex_text(v / 16, (n + m - 1) as nat).push(
            digit_char((v % 16) as int),
        ));
        assert(hex_text(v, n + m) =~= hex_text(v / pow16(m), n) + hex_text(v, m));
    }
}

/// Hexadecimal digits are the text of their value, at their width.
proof fn lemma_hex_digits_text(h: Seq<char>)
    requires
        all_hex(h),
    ensures
        hex_text(hex_digits_value(h), h.len()) == h,
        hex_digits_value(h) < pow16(h.len()),
    decreases h.len(),
{
    if h.len() > 0 {
        let p = h.drop_last();
        assert forall|i: int| 0 <= i < p.len() implies hex_value(#[trigger] p[i]) >= 0 by {
            assert(p[i] == h[i]);
        }
        lemma_hex_digits_text(p);
        let c = h.last();
        assert(hex_value(h[h.len() - 1]) >= 0);
        let d = hex_value(c);
        assert(0 <= d <= 15);
        assert(digit_char(d) == c);
        let x = hex_digits_value(h);
        let px = hex_digits_value(p);
        assert(x == px * 16 + d);
        assert(x / 16 == px);
        assert(x % 16 == d);
        assert(hex_text(x, h.len()) =~= h);
        let pp = pow16(p.len());
        assert(x < pow16(h.len())) by (nonlinear_arith)
            requires
                x == px * 16 + d,
                px < pp,
                0 <= d <= 15,
                pow16(h.len()) == 16 * pp,
        ;
    }
}

proof fn lemma_uuid_text(t: Seq<char>)
    requires
        is_uuid_text(t),
    ensures
        hex_digits_value(uuid_digits(t)) < 0x1_0000_0000_0000_0000_0000_0000_0000_0000,
        uuid_text(hex_digits_value(uuid_digits(t)) as u128) == t,
{
    let h = uuid_digits(t);
    let v = hex_digits_value(h);
    lemma_hex_digits_text(h);
    reveal_with_fuel(pow16, 33);
    assert(pow16(32) == 0x1_0000_0000_0000_0000_0000_0000_0000_0000);
    let u = v as u128;
    assert(u as nat == v);
    lemma_hex_split(v, 8, 24);
    lemma_hex_split(v, 4, 20);
    lemma_hex_split(v, 4, 16);
    lemma_hex_split(v, 4, 12);
    lemma_hex_text_len(v / pow16(24), 8);
    lemma_hex_text_len(v / pow16(20), 4);
    lemma_hex_text_len(v / pow16(16), 4);
    lemma_hex_text_len(v / pow16(12), 4);
    lemma_hex_text_len(v, 12);
    assert(pow16(24) == 0x1_0000_0000_0000_0000_0000_0000);
    assert(pow16(20) == 0x1_0000_0000_0000_0000_0000);
    assert(pow16(16) == 0x1_0000_0000_0000_0000);
    assert(pow16(12) == 0x1_0000_0000_0000);
    assert(hex_text(v, 32) == h);
    let x1 = hex_text(v / pow16(24), 8);
    let x2 = hex_text(v / pow16(20), 4);
    let x3 = hex_text(v / pow16(16), 4);
    let x4 = hex_text(v / pow16(12), 4);
    let x5 = hex_text(v, 12);
    assert(hex_text(v, 8 + 24) == x1 + hex_text(v, 24));
    assert(hex_text(v, 4 + 20) == x2 + hex_text(v, 20));
    assert(hex_text(v, 4 + 16) == x3 + hex_text(v, 16));
    assert(hex_text(v, 4 + 12) == x4 + x5);
    assert(h =~= x1 + x2 + x3 + x4 + x5);
    assert(x1 =~= h.subrange(0, 8));
    assert(x2 =~= h.subrange(8, 12));
    assert(x3 =~= h.subrange(12, 16));
    assert(x4 =~= h.subrange(16, 20));
    assert(x5 =~= h.subrange(20, 32));
    assert(h.subrange(0, 8) =~= t.subrange(0, 8));
    assert(h.subrange(8, 12) =~= t.subrange(9, 13));
    assert(h.subrange(12, 16) =~= t.subrange(14, 18));
    assert(h.subrange(16, 20) =~= t.subrange(19, 23));
    assert(h.subrange(20, 32) =~= t.subrange(24, 36));
    assert((u / 0x1_0000_0000_0000_0000_0000_0000) as nat == v / pow16(24));
    assert((u / 0x1_0000_0000_0000_0000_0000) as nat == v / pow16(20));
    assert((u / 0x1_0000_0000_0000_0000) as nat == v / pow16(16));
    assert((u / 0x1_0000_0000_0000) as nat == v / pow16(12));
    assert(uuid_text(u) =~= t);
}

proof fn lemma_int_text(t: Seq<char>)
    requires
        int_of_text(t) is Some,
    ensures
        int_text(int_of_text(t)->Some_0) == t,
{
    if t.len() > 0 && t[0] == '-' {
        let d = t.drop_first();
        lemma_digits_text(d);
        if d.len() == 1 {
            if d[0] == '0' {
                assert(d =~= seq!['0']);
            }
            assert(digit_value(d[0]) != 0);
            assert(d.drop_last().len() == 0);
            assert(digits_value(d.drop_last()) == 0);
            assert(d.last() == d[0]);
        } else {
            lemma_digits_positive(d);
        }
        assert(digits_value(d) > 0);
        assert(t =~= seq!['-'] + d);
    } else {
        lemma_digits_text(t);
    }
}

/// An absent value of every variant writes as `NULL`.
pub proof fn lemma_null_text(kind: ValueKind)
    ensures
        ColumnValue::null_of(kind).text() == null_text(),
{
}

impl ColumnValue {
    /// The absent value of variant `kind`.
    pub open spec fn null_of(kind: ValueKind) -> ColumnValue {
        match kind {
            ValueKind::Bool => ColumnValue::Bool(None),
            ValueKind::Short => ColumnValue::Short(None),
            ValueKind::Integer => ColumnValue::Integer(None),
            ValueKind::UnsignedInt => ColumnValue::UnsignedInt(None),
            ValueKind::Float => ColumnValue::Float(None),
            ValueKind::BigFloat => ColumnValue::BigFloat(None),
            ValueKind::Long => ColumnValue::Long(None),
            ValueKind::String => ColumnValue::String(None),
            ValueKind::Uuid => ColumnValue::Uuid(None),
            ValueKind::DateTime2 => ColumnValue::DateTime2(None),
            ValueKind::DateTimeOffset => ColumnValue::DateTimeOffset(None),
            ValueKind::Decimal => ColumnValue::Decimal(None),
        }
    }

    /// The absent value of variant `kind`.
    pub fn null(kind: ValueKind) -> (r: ColumnValue)
        ensures
            r == ColumnValue::null_of(kind),
    {
        match kind {
            ValueKind::Bool => ColumnValue::Bool(None),
            ValueKind::Short => ColumnValue::Short(None),
            ValueKind::Integer => ColumnValue::Integer(None),
            ValueKind::UnsignedInt => ColumnValue::UnsignedInt(None),
            ValueKind::Float => ColumnValue::Float(None),
            ValueKind::BigFloat => ColumnValue::BigFloat(None),
            ValueKind::Long => ColumnValue::Long(None),
            ValueKind::String => ColumnValue::String(None),
            ValueKind::Uuid => ColumnValue::Uuid(None),
            ValueKind::DateTime2 => ColumnValue::DateTime2(None),
            ValueKind::DateTimeOffset => ColumnValue::DateTimeOffset(None),
            ValueKind::Decimal => ColumnValue::Decimal(None),
        }
    }

    /// Reads a non-null value of variant `kind` from its text; `None` when the
    /// text is not such a value's text.
    pub fn parse(kind: ValueKind, text: &str) -> (r: Option<ColumnValue>)
        ensures
            r is Some <==> accepts(kind, text@),
            r matches Some(v) ==> parses_to(kind, text@, v),
    {
        match kind {
            ValueKind::Bool => {
                let t = text.to_owned();
                let yes = "true".to_owned();
                let no = "false".to_owned();
                proof {
                    reveal_strlit("true");
                    reveal_strlit("false");
                }
                if t == yes {
                    Some(ColumnValue::Bool(Some(true)))
                } else if t == no {
                    Some(ColumnValue::Bool(Some(false)))
                } else {
                    None
                }
            },
            ValueKind::Float => Some(ColumnValue::Float(Some(text.to_owned()))),
            ValueKind::BigFloat => Some(ColumnValue::BigFloat(Some(text.to_owned()))),
            ValueKind::String => Some(ColumnValue::String(Some(text.to_owned()))),
            ValueKind::Short => match read_int(text) {
                Some(x) if -32768 <= x && x <= 32767 => Some(ColumnValue::Short(Some(x as i16))),
                _ => None,
            },
            ValueKind::Integer => match read_int(text) {
                Some(x) if -2147483648 <= x && x <= 2147483647 => Some(
                    ColumnValue::Integer(Some(x as i32)),
                ),
                _ => None,
            },
            ValueKind::UnsignedInt => match read_int(text) {
                Some(x) if 0 <= x && x <= 255 => Some(ColumnValue::UnsignedInt(Some(x as u8))),
                _ => None,
            },
            ValueKind::DateTime2 => match read_datetime(text) {
                Some(d) => Some(ColumnValue::DateTime2(Some(d))),
                None => None,
            },
            ValueKind::DateTimeOffset => match read_datetime(text) {
                Some(d) => Some(ColumnValue::DateTimeOffset(Some(d))),
                None => None,
            },
            ValueKind::Decimal => match read_decimal(text) {
                Some(d) => Some(ColumnValue::Decimal(Some(d))),
                None => None,
            },
            ValueKind::Uuid => match read_uuid(text) {
                Some(u) => Some(ColumnValue::Uuid(Some(u))),
                None => None,
            },
            ValueKind::Long => match read_int(text) {
                Some(x) if -9223372036854775808 <= x && x <= 9223372036854775807 => Some(
                    ColumnValue::Long(Some(x as i64)),
                ),
                _ => None,
            },
            _ => None,
        }
    }
}

fn digit_of(c: char) -> (r: Option<u8>)
    ensures
        match r {
            Some(d) => d as int == digit_value(c) && d <= 9,
            None => digit_value(c) < 0,
        },
{
    if c == '0' {
        Some(0)
    } else if c == '1' {
        Some(1)
    } else if c == '2' {
        Some(2)
    } else if c == '3' {
        Some(3)
    } else if c == '4' {
        Some(4)
    } else if c == '5' {
        Some(5)
    } else if c == '6' {
        Some(6)
    } else if c == '7' {
        Some(7)
    } else if c == '8' {
        Some(8)
    } else if c == '9' {
        Some(9)
    } else {
        None
    }
}

/// Bound past which no integer of a cell can lie.
const READ_LIMIT: i128 = 100_000_000_000_000_000_000;

/// The integer whose canonical text is `text`, when it is below `READ_LIMIT` in size.
#[verifier::rlimit(40)]
fn read_int(text: &str) -> (r: Option<i128>)
    ensures
        match r {
            Some(x) => int_of_text(text@) == Some(x as int),
            None => int_of_text(text@) is None || int_of_text(text@)->Some_0 >= READ_LIMIT
                || int_of_text(text@)->Some_0 <= -READ_LIMIT,
        },
{
    let n = text.unicode_len();
    if n == 0 {
        return None;
    }
    let negative = text.get_char(0) == '-';
    let start: usize = if negative {
        1
    } else {
        0
    };
    if start >= n {
        return None;
    }
    let ghost t = text@;
    let ghost d = t.subrange(start as int, n as int);
    proof {
        if negative {
            assert(d =~= t.drop_first());
        } else {
            assert(d =~= t);
        }
    }
    let first = text.get_char(start);
    if first == '0' && n - start > 1 {
        proof {
            assert(d[0] == '0');
        }
        return None;
    }
    let mut acc: i128 = 0;
    let mut i: usize = start;
    while i < n
        invariant
            t == text@,
            n == t.len(),
            start <= i <= n,
            start < n,
            d == t.subrange(start as int, n as int),
            negative <==> (t.len() > 0 && t[0] == '-'),
            negative ==> d == t.drop_first(),
            !negative ==> d == t,
            first == d[0],
            all_digits(d.subrange(0, i - start)),
            acc as int == digits_value(d.subrange(0, i - start)),
            0 <= acc < READ_LIMIT,
        decreases n - i,
    {
        let c = text.get_char(i);
        let ghost pre = d.subrange(0, i - start + 1);
        proof {
            assert(pre.drop_last() =~= d.subrange(0, i - start));
            assert(pre.last() == c);
        }
        match digit_of(c) {
            None => {
                proof {
                    assert(d[i - start] == c);
                    assert(!all_digits(d));
                }
                return None;
            },
            Some(v) => {
                if acc >= READ_LIMIT / 10 {
                    proof {
                        assert(digits_value(pre) >= READ_LIMIT);
                        if all_digits(d) {
                            lemma_prefix_bound(d, i - start + 1);
                        }
                    }
                    return None;
                }
                acc = acc * 10 + v as i128;
                proof {
                    assert forall|j: int| 0 <= j < pre.len() implies digit_value(#[trigger] pre[j])
                        >= 0 by {
                        if j < pre.len() - 1 {
                            assert(pre[j] == d.subrange(0, i - start)[j]);
                        }
                    }
                }
            },
        }
        i = i + 1;
    }
    assert(d.subrange(0, n - start) =~= d);
    if negative {
        let zero = first == '0';
        if zero {
            proof {
                assert(d.len() == 1);
                assert(d =~= seq!['0']);
            }
            return None;
        }
        proof {
            assert(d != seq!['0']);
        }
        Some(-acc)
    } else {
        Some(acc)
    }
}

/// The value of the digits grows with every further digit.
proof fn lemma_prefix_bound(d: Seq<char>, k: int)
    requires
        0 < k <= d.len(),
        all_digits(d),
    ensures
        digits_value(d) >= digits_value(d.subrange(0, k)),
    decreases d.len() - k,
{
    if k < d.len() {
        lemma_prefix_bound(d, k + 1);
        assert(d.subrange(0, k + 1).drop_last() =~= d.subrange(0, k));
        assert(digit_value(d[k]) >= 0);
        assert(d.subrange(0, k + 1).last() == d[k]);
        lemma_digits_nonneg(d.subrange(0, k));
    } else {
        assert(d.subrange(0, k) =~= d);
    }
}

proof fn lemma_digits_nonneg(d: Seq<char>)
    requires
        all_digits(d),
    ensures
        digits_value(d) >= 0,
    decreases d.len(),
{
    if d.len() > 0 {
        let p = d.drop_last();
        assert forall|i: int| 0 <= i < p.len() implies digit_value(#[trigger] p[i]) >= 0 by {
            assert(p[i] == d[i]);
        }
        lemma_digits_nonneg(p);
        assert(digit_value(d[d.len() - 1]) >= 0);
    }
}

fn hex_of(c: char) -> (r: Option<u8>)
    ensures
        match r {
            Some(d) => d as int == hex_value(c) && d <= 15,
            None => hex_value(c) < 0,
        },
{
    match digit_of(c) {
        Some(d) => Some(d),
        None => {
            if c == 'a' {
                Some(10)
            } else if c == 'b' {
                Some(11)
            } else if c == 'c' {
                Some(12)
            } else if c == 'd' {
                Some(13)
            } else if c == 'e' {
                Some(14)
            } else if c == 'f' {
                Some(15)
            } else {
                None
            }
        },
    }
}

/// The value of the hexadecimal digits of `text` from `from` to `to`.
fn read_hex(text: &str, from: usize, to: usize) -> (r: Option<u64>)
    requires
        from <= to <= text@.len(),
        to - from <= 12,
    ensures
        match r {
            Some(v) => all_hex(text@.subrange(from as int, to as int)) && v as nat
                == hex_digits_value(text@.subrange(from as int, to as int)),
            None => !all_hex(text@.subrange(from as int, to as int)),
        },
{
    let ghost t = text@;
    let mut acc: u64 = 0;
    let mut i: usize = from;
    while i < to
        invariant
            t == text@,
            from <= i <= to <= t.len(),
            to - from <= 12,
            all_hex(t.subrange(from as int, i as int)),
            acc as nat == hex_digits_value(t.subrange(from as int, i as int)),
            acc < pow16((i - from) as nat),
        decreases to - i,
    {
        let c = text.get_char(i);
        let ghost pre = t.subrange(from as int, i + 1);
        proof {
            assert(pre.drop_last() =~= t.subrange(from as int, i as int));
            assert(pre.last() == c);
        }
        match hex_of(c) {
            None => {
                proof {
                    assert(pre[i - from] == c);
                    let whole = t.subrange(from as int, to as int);
                    assert(whole[i - from] == c);
                }
                return None;
            },
            Some(d) => {
                proof {
                    reveal_with_fuel(pow16, 13);
                    lemma_pow16_mono((i - from) as nat, 11);
                    assert(pow16(11) == 0x1000_0000_0000);
                }
                let ghost a0 = acc;
                acc = acc * 16 + d as u64;
                proof {
                    assert forall|j: int| 0 <= j < pre.len() implies hex_value(#[trigger] pre[j])
                        >= 0 by {
                        if j < pre.len() - 1 {
                            assert(pre[j] == t.subrange(from as int, i as int)[j]);
                        }
                    }
                    let pp = pow16((i - from) as nat);
                    assert(acc < pow16((i + 1 - from) as nat)) by (nonlinear_arith)
                        requires
                            acc == a0 * 16 + d,
                            a0 < pp,
                            d <= 15,
                            pow16((i + 1 - from) as nat) == 16 * pp,
                    ;
                }
            },
        }
        i = i + 1;
    }
    Some(acc)
}

proof fn lemma_pow16_pos(m: nat)
    ensures
        pow16(m) >= 1,
    decreases m,
{
    if m > 0 {
        lemma_pow16_pos((m - 1) as nat);
    }
}

proof fn lemma_pow16_mono(a: nat, b: nat)
    requires
        a <= b,
    ensures
        pow16(a) <= pow16(b),
    decreases b,
{
    if a < b {
        lemma_pow16_mono(a, (b - 1) as nat);
    }
}

proof fn lemma_hex_concat(a: Seq<char>, b: Seq<char>)
    ensures
        hex_digits_value(a + b) == hex_digits_value(a) * pow16(b.len()) + hex_digits_value(b),
    decreases b.len(),
{
    if b.len() == 0 {
        assert(a + b =~= a);
        assert(pow16(0) == 1);
        assert(hex_digits_value(b) == 0);
        assert(hex_digits_value(a) * 1 == hex_digits_value(a));
    } else {
        lemma_hex_concat(a, b.drop_last());
        assert((a + b).drop_last() =~= a + b.drop_last());
        assert((a + b).last() == b.last());
        let x = hex_digits_value(a);
        let y = hex_digits_value(b.drop_last());
        let p = pow16((b.len() - 1) as nat);
        let z = hex_value(b.last()) as nat;
        assert(hex_digits_value(a + b) == hex_digits_value(a + b.drop_last()) * 16 + z);
        assert(hex_digits_value(b) == y * 16 + z);
        assert(pow16(b.len()) == 16 * p);
        assert((x * p + y) * 16 + z == x * (16 * p) + (y * 16 + z)) by (nonlinear_arith);
    }
}

/// The UUID written as `text` in hyphenated lower-case form.
#[verifier::rlimit(40)]
fn read_uuid(text: &str) -> (r: Option<u128>)
    ensures
        match r {
            Some(u) => is_uuid_text(text@) && u as nat == hex_digits_value(uuid_digits(text@)),
            None => !is_uuid_text(text@),
        },
{
    let ghost t = text@;
    if text.unicode_len() != 36 {
        return None;
    }
    if text.get_char(8) != '-' || text.get_char(13) != '-' || text.get_char(18) != '-'
        || text.get_char(23) != '-' {
        return None;
    }
    let ghost a = t.subrange(0, 8);
    let ghost b = t.subrange(9, 13);
    let ghost c = t.subrange(14, 18);
    let ghost d = t.subrange(19, 23);
    let ghost e = t.subrange(24, 36);
    proof {
        let h = uuid_digits(t);
        assert(h =~= a + b + c + d + e);
        assert forall|i: int| 0 <= i < 8 implies h[i] == a[i] by {}
        assert forall|i: int| 0 <= i < 4 implies h[8 + i] == b[i] && h[12 + i] == c[i] && h[16
            + i] == d[i] by {}
        assert forall|i: int| 0 <= i < 12 implies h[20 + i] == e[i] by {}
    }
    let g1 = match read_hex(text, 0, 8) {
        Some(v) => v,
        None => {
            proof {
                let h = uuid_digits(t);
                let i = choose|i: int| 0 <= i < a.len() && !(hex_value(a[i]) >= 0);
                assert(h[i] == a[i]);
            }
            return None;
        },
    };
    let g2 = match read_hex(text, 9, 13) {
        Some(v) => v,
        None => {
            proof {
                let h = uuid_digits(t);
                let i = choose|i: int| 0 <= i < b.len() && !(hex_value(b[i]) >= 0);
                assert(h[8 + i] == b[i]);
            }
            return None;
        },
    };
    let g3 = match read_hex(text, 14, 18) {
        Some(v) => v,
        None => {
            proof {
                let h = uuid_digits(t);
                let i = choose|i: int| 0 <= i < c.len() && !(hex_value(c[i]) >= 0);
                assert(h[12 + i] == c[i]);
            }
            return None;
        },
    };
    let g4 = match read_hex(text, 19, 23) {
        Some(v) => v,
        None => {
            proof {
                let h = uuid_digits(t);
                let i = choose|i: int| 0 <= i < d.len() && !(hex_value(d[i]) >= 0);
                assert(h[16 + i] == d[i]);
            }
            return None;
        },
    };
    let g5 = match read_hex(text, 24, 36) {
        Some(v) => v,
        None => {
            proof {
                let h = uuid_digits(t);
                let i = choose|i: int| 0 <= i < e.len() && !(hex_value(e[i]) >= 0);
                assert(h[20 + i] == e[i]);
            }
            return None;
        },
    };
    proof {
        lemma_hex_digits_text(a);
        lemma_hex_digits_text(b);
        lemma_hex_digits_text(c);
        lemma_hex_digits_text(d);
        lemma_hex_digits_text(e);
        reveal_with_fuel(pow16, 13);
        assert(pow16(8) == 0x1_0000_0000);
        assert(pow16(4) == 0x1_0000);
        assert(pow16(12) == 0x1_0000_0000_0000);
        lemma_hex_concat(a, b);
        lemma_hex_concat(a + b, c);
        lemma_hex_concat(a + b + c, d);
        lemma_hex_concat(a + b + c + d, e);
        let h = uuid_digits(t);
        assert forall|i: int| 0 <= i < h.len() implies hex_value(#[trigger] h[i]) >= 0 by {
            if i < 8 {
                assert(h[i] == a[i]);
            } else if i < 12 {
                assert(h[i] == b[i - 8]);
            } else if i < 16 {
                assert(h[i] == c[i - 12]);
            } else if i < 20 {
                assert(h[i] == d[i - 16]);
            } else {
                assert(h[i] == e[i - 20]);
            }
        }
    }
    assert(g1 < 0x1_0000_0000 && g2 < 0x1_0000 && g3 < 0x1_0000 && g4 < 0x1_0000);
    assert(g5 < 0x1_0000_0000_0000);
    assert((g1 as int) * 0x1_0000 + (g2 as int) < 0x1_0000_0000_0000) by (nonlinear_arith)
        requires
            g1 < 0x1_0000_0000,
            g2 < 0x1_0000,
    ;
    let v1: u128 = g1 as u128 * 0x1_0000 + g2 as u128;
    let v2: u128 = v1 * 0x1_0000 + g3 as u128;
    let v3: u128 = v2 * 0x1_0000 + g4 as u128;
    proof {
        assert(v3 < 0x1_0000_0000_0000_0000_0000) by (nonlinear_arith)
            requires
                v1 == g1 * 0x1_0000 + g2,
                v2 == v1 * 0x1_0000 + g3,
                v3 == v2 * 0x1_0000 + g4,
                g1 < 0x1_0000_0000,
                g2 < 0x1_0000,
                g3 < 0x1_0000,
                g4 < 0x1_0000,
        ;
        assert(v3 * 0x1_0000_0000_0000 + g5 < 0x1_0000_0000_0000_0000_0000_0000_0000_0000)
            by (nonlinear_arith)
            requires
                v3 < 0x1_0000_0000_0000_0000_0000,
                g5 < 0x1_0000_0000_0000,
        ;
    }
    let v: u128 = v3 * 0x1_0000_0000_0000 + g5 as u128;
    Some(v)
}

/// Digits, leading zeros included, are their value's digits zero-padded to
/// their width (no digits for zero).
proof fn lemma_padded_digits(d: Seq<char>)
    requires
        all_digits(d),
    ensures
        digits_value(d) >= 0,
        ({
            let n = digits_value(d);
            let e = if n == 0 {
                Seq::<char>::empty()
            } else {
                nat_text(n as nat)
            };
            &&& e.len() <= d.len()
            &&& zeros(d.len() - e.len()) + e == d
        }),
    decreases d.len(),
{
    if d.len() == 0 {
        assert(zeros(0) =~= d);
    } else {
        let p = d.drop_last();
        assert forall|i: int| 0 <= i < p.len() implies digit_value(#[trigger] p[i]) >= 0 by {
            assert(p[i] == d[i]);
        }
        lemma_padded_digits(p);
        let c = d.last();
        assert(digit_value(d[d.len() - 1]) >= 0);
        lemma_digit_round_trip(c);
        let pv = digits_value(p);
        let n = digits_value(d);
        assert(n == pv * 10 + digit_value(c));
        assert(d =~= p.push(c));
        if pv == 0 {
            assert(zeros(p.len() as int) + Seq::<char>::empty() == p);
            assert(zeros(p.len() as int) + Seq::<char>::empty() =~= zeros(p.len() as int));
        }
        if n == 0 {
            assert(pv == 0 && digit_value(c) == 0);
            assert(c == '0');
            assert(zeros(d.len() as int) =~= zeros(p.len() as int).push('0'));
            assert(zeros(d.len() as int) =~= d);
            assert(zeros(d.len() as int) + Seq::<char>::empty() =~= d);
        } else if pv == 0 {
            assert(nat_text(n as nat) =~= seq![c]);
            assert(zeros(d.len() - 1) + seq![c] =~= d);
        } else {
            let ep = nat_text(pv as nat);
            assert(n / 10 == pv);
            assert(n % 10 == digit_value(c));
            assert(nat_text(n as nat) =~= ep.push(c));
            assert(zeros(p.len() - ep.len()) + ep == p);
            assert(zeros(d.len() - nat_text(n as nat).len()) =~= zeros(p.len() - ep.len()));
            assert(zeros(d.len() - nat_text(n as nat).len()) + nat_text(n as nat) =~= (zeros(
                p.len() - ep.len(),
            ) + ep).push(c));
        }
    }
}

#[verifier::rlimit(60)]
proof fn lemma_decimal_text(t: Seq<char>)
    requires
        decimal_of_text(t) is Some,
    ensures
        decimal_text(decimal_of_text(t)->Some_0.0, decimal_of_text(t)->Some_0.1) == t,
{
    let neg = t.len() > 0 && t[0] == '-';
    let u = unsigned_part(t);
    if neg {
        assert(t =~= seq!['-'] + u);
    } else {
        assert(t == u);
    }
    if canonical_digits(u) {
        lemma_digits_text(u);
    } else {
        let k = choose|k: int| dot_split(u, k);
        let w = u.subrange(0, k);
        let f = u.subrange(k + 1, u.len() as int);
        let s = mantissa_digits(u, k);
        let scale = u.len() - k - 1;
        assert(u =~= w + seq!['.'] + f);
        assert(f.len() == scale);
        assert forall|i: int| 0 <= i < s.len() implies digit_value(#[trigger] s[i]) >= 0 by {
            if w == seq!['0'] {
                assert(s[i] == f[i]);
            } else if i < w.len() {
                assert(s[i] == w[i]);
            } else {
                assert(s[i] == f[i - w.len()]);
            }
        }
        lemma_padded_digits(s);
        let m = digits_value(s);
        if w == seq!['0'] {
            assert(s =~= f);
        } else {
            assert(w[0] != '0') by {
                if w.len() == 1 && w[0] == '0' {
                    assert(w =~= seq!['0']);
                }
            }
            assert(s[0] == w[0]);
            lemma_digits_positive(s);
            let e = nat_text(m as nat);
            if e.len() < s.len() {
                assert((zeros(s.len() - e.len()) + e)[0] == '0');
            }
            assert(e == s);
            assert(zeros(scale - e.len()) + e =~= s);
            assert(s.subrange(0, s.len() - scale) =~= w);
            assert(s.subrange(s.len() - scale, s.len() as int) =~= f);
        }
    }
}

/// The value of the digits of `text` from `from` to `to` following the digits
/// `head` whose value is `acc`, when all are digits and the value stays within
/// the decimal mantissa's bound.
fn read_digits(text: &str, from: usize, to: usize, acc: i128, Ghost(head): Ghost<Seq<char>>) -> (r:
    Option<i128>)
    requires
        from <= to <= text@.len(),
        all_digits(head),
        acc as int == digits_value(head),
        0 <= acc <= DECIMAL_MAX_MANTISSA,
    ensures
        match r {
            Some(v) => all_digits(head + text@.subrange(from as int, to as int)) && v as int
                == digits_value(head + text@.subrange(from as int, to as int)) && 0 <= v
                <= DECIMAL_MAX_MANTISSA,
            None => !all_digits(head + text@.subrange(from as int, to as int)) || digits_value(
                head + text@.subrange(from as int, to as int),
            ) > DECIMAL_MAX_MANTISSA,
        },
{
    let ghost t = text@;
    let mut v = acc;
    let mut i = from;
    while i < to
        invariant
            t == text@,
            from <= i <= to <= t.len(),
            all_digits(head + t.subrange(from as int, i as int)),
            v as int == digits_value(head + t.subrange(from as int, i as int)),
            0 <= v <= DECIMAL_MAX_MANTISSA,
        decreases to - i,
    {
        let c = text.get_char(i);
        let ghost pre = head + t.subrange(from as int, i + 1);
        let ghost whole = head + t.subrange(from as int, to as int);
        proof {
            assert(pre.drop_last() =~= head + t.subrange(from as int, i as int));
            assert(pre.last() == c);
            assert(whole[head.len() + i - from] == c);
        }
        match digit_of(c) {
            None => {
                return None;
            },
            Some(d) => {
                proof {
                    assert forall|j: int| 0 <= j < pre.len() implies digit_value(#[trigger] pre[j])
                        >= 0 by {
                        if j < pre.len() - 1 {
                            assert(pre[j] == (head + t.subrange(from as int, i as int))[j]);
                        }
                    }
                }
                if v > (DECIMAL_MAX_MANTISSA - d as i128) / 10 {
                    proof {
                        assert(digits_value(pre) > DECIMAL_MAX_MANTISSA);
                        if all_digits(whole) {
                            assert(pre =~= whole.subrange(0, pre.len() as int));
                            lemma_prefix_bound(whole, pre.len() as int);
                        }
                    }
                    return None;
                }
                v = v * 10 + d as i128;
            },
        }
        i = i + 1;
    }
    Some(v)
}

/// `t`'s unsigned part has its first `.` at `kk`, and splitting there gives no
/// decimal within bounds: `t` is no decimal.
proof fn lemma_decimal_none(t: Seq<char>, kk: int)
    requires
        0 <= kk < unsigned_part(t).len(),
        unsigned_part(t)[kk] == '.',
        forall|i: int| 0 <= i < kk ==> unsigned_part(t)[i] != '.',
        !dot_split(unsigned_part(t), kk) || digits_value(mantissa_digits(unsigned_part(t), kk))
            > DECIMAL_MAX_MANTISSA,
    ensures
        decimal_of_text(t) is None,
{
    let u = unsigned_part(t);
    assert(!canonical_digits(u)) by {
        assert(digit_value(u[kk]) < 0);
    }
    if exists|k: int| dot_split(u, k) {
        let k = choose|k: int| dot_split(u, k);
        if k != kk {
            lemma_only_dot(u, kk, k);
        }
    }
}

/// `t`'s unsigned part splits as a decimal at its first `.`, `kk`.
proof fn lemma_decimal_at(t: Seq<char>, kk: int)
    requires
        0 <= kk < unsigned_part(t).len(),
        forall|i: int| 0 <= i < kk ==> unsigned_part(t)[i] != '.',
        dot_split(unsigned_part(t), kk),
    ensures
        !canonical_digits(unsigned_part(t)),
        (exists|k: int| dot_split(unsigned_part(t), k)),
        (choose|k: int| dot_split(unsigned_part(t), k)) == kk,
{
    let u = unsigned_part(t);
    assert(digit_value(u[kk]) < 0);
    let k = choose|k: int| dot_split(u, k);
    if k != kk {
        lemma_only_dot(u, kk, k);
    }
}

proof fn lemma_all_digits_concat(a: Seq<char>, b: Seq<char>)
    ensures
        all_digits(a + b) <==> (all_digits(a) && all_digits(b)),
{
    if all_digits(a + b) {
        assert forall|i: int| 0 <= i < a.len() implies digit_value(#[trigger] a[i]) >= 0 by {
            assert((a + b)[i] == a[i]);
        }
        assert forall|i: int| 0 <= i < b.len() implies digit_value(#[trigger] b[i]) >= 0 by {
            assert((a + b)[a.len() + i] == b[i]);
        }
    }
    if all_digits(a) && all_digits(b) {
        assert forall|i: int| 0 <= i < (a + b).len() implies digit_value(#[trigger] (a + b)[i])
            >= 0 by {
            if i < a.len() {
                assert((a + b)[i] == a[i]);
            } else {
                assert((a + b)[i] == b[i - a.len()]);
            }
        }
    }
}

/// The decimal written as `text` in canonical form, without a `.`.
fn read_whole_decimal(text: &str, start: usize, negative: bool) -> (r: Option<DecimalValue>)
    requires
        start <= text@.len(),
        negative <==> (text@.len() > 0 && text@[0] == '-'),
        start == (if negative { 1int } else { 0int }),
        forall|i: int| start <= i < text@.len() ==> text@[i] != '.',
    ensures
        match r {
            Some(d) => decimal_of_text(text@) == Some((d.mantissa as int, d.scale as int)),
            None => decimal_of_text(text@) is None,
        },
{
    let ghost t = text@;
    let n = text.unicode_len();
    let ghost u = unsigned_part(t);
    proof {
        assert(u =~= t.subrange(start as int, n as int));
        assert forall|j: int| 0 <= j < u.len() implies !dot_split(u, j) by {
            assert(u[j] == t[start + j]);
        }
    }
    if n == start {
        return None;
    }
    if n - start > 1 && text.get_char(start) == '0' {
        proof {
            assert(u[0] == '0');
        }
        return None;
    }
    let m = read_digits(text, start, n, 0, Ghost(Seq::empty()));
    proof {
        assert(Seq::<char>::empty() + t.subrange(start as int, n as int) =~= u);
        if n - start > 1 {
            assert(u[0] == t[start as int]);
        }
    }
    match m {
        None => None,
        Some(v) => {
            if negative && v == 0 {
                None
            } else {
                Some(DecimalValue { mantissa: if negative { -v } else { v }, scale: 0 })
            }
        },
    }
}

/// The decimal written as `text` in canonical form, whose unsigned part has
/// its first `.` at `k - start`.
#[verifier::rlimit(60)]
fn read_fraction_decimal(text: &str, start: usize, negative: bool, k: usize) -> (r: Option<
    DecimalValue,
>)
    requires
        start <= k < text@.len(),
        negative <==> (text@.len() > 0 && text@[0] == '-'),
        start == (if negative { 1int } else { 0int }),
        text@[k as int] == '.',
        forall|i: int| start <= i < k ==> text@[i] != '.',
    ensures
        match r {
            Some(d) => decimal_of_text(text@) == Some((d.mantissa as int, d.scale as int)),
            None => decimal_of_text(text@) is None,
        },
{
    let ghost t = text@;
    let n = text.unicode_len();
    let ghost u = unsigned_part(t);
    let kk: usize = k - start;
    let flen: usize = n - k - 1;
    proof {
        assert(u =~= t.subrange(start as int, n as int));
        assert(u[kk as int] == '.');
        assert forall|i: int| 0 <= i < kk implies u[i] != '.' by {
            assert(u[i] == t[start + i]);
        }
    }
    let ghost w = u.subrange(0, kk as int);
    let ghost f = u.subrange(kk + 1, u.len() as int);
    if kk == 0 || (kk > 1 && text.get_char(start) == '0') || flen == 0 || flen > 28 {
        proof {
            if kk > 1 {
                assert(w[0] == u[0]);
                assert(u[0] == t[start as int]);
            }
            lemma_decimal_none(t, kk as int);
        }
        return None;
    }
    let lone_zero = kk == 1 && text.get_char(start) == '0';
    proof {
        assert(Seq::<char>::empty() + t.subrange(start as int, k as int) =~= w);
        assert(t.subrange(k + 1, n as int) =~= f);
        assert(w[0] == t[start as int]);
        if lone_zero {
            assert(w =~= seq!['0']);
        } else {
            assert(w != seq!['0']) by {
                if w == seq!['0'] {
                    assert(w[0] == '0');
                }
            }
        }
    }
    let acc: i128 = if lone_zero {
        0
    } else {
        match read_digits(text, start, k, 0, Ghost(Seq::empty())) {
            None => {
                proof {
                    if dot_split(u, kk as int) {
                        lemma_all_digits_concat(w, f);
                        assert(mantissa_digits(u, kk as int) =~= w + f);
                        lemma_prefix_bound(w + f, w.len() as int);
                        assert((w + f).subrange(0, w.len() as int) =~= w);
                    }
                    lemma_decimal_none(t, kk as int);
                }
                return None;
            },
            Some(a) => a,
        }
    };
    let ghost hd = if lone_zero {
        Seq::<char>::empty()
    } else {
        w
    };
    proof {
        assert(hd + f =~= mantissa_digits(u, kk as int));
        assert(all_digits(hd));
        assert(acc as int == digits_value(hd)) by {
            if !lone_zero {
                assert(Seq::<char>::empty() + t.subrange(start as int, k as int) =~= hd);
            }
        }
    }
    let m = read_digits(text, k + 1, n, acc, Ghost(hd));
    proof {
        lemma_all_digits_concat(hd, f);
    }
    match m {
        None => {
            proof {
                if dot_split(u, kk as int) {
                    if lone_zero {
                        assert(all_digits(hd));
                    }
                }
                lemma_decimal_none(t, kk as int);
            }
            None
        },
        Some(v) => {
            proof {
                assert(canonical_digits(w));
                assert(dot_split(u, kk as int));
                lemma_decimal_at(t, kk as int);
            }
            if negative && v == 0 {
                None
            } else {
                Some(DecimalValue { mantissa: if negative { -v } else { v }, scale: flen as u32 })
            }
        },
    }
}

/// The decimal written as `text` in canonical form.
fn read_decimal(text: &str) -> (r: Option<DecimalValue>)
    ensures
        match r {
            Some(d) => decimal_of_text(text@) == Some((d.mantissa as int, d.scale as int)),
            None => decimal_of_text(text@) is None,
        },
{
    let ghost t = text@;
    let n = text.unicode_len();
    let negative = n > 0 && text.get_char(0) == '-';
    let start: usize = if negative {
        1
    } else {
        0
    };
    let mut k: usize = start;
    while k < n && text.get_char(k) != '.'
        invariant
            t == text@,
            n == t.len(),
            start <= k <= n,
            forall|i: int| start <= i < k ==> t[i] != '.',
        decreases n - k,
    {
        k = k + 1;
    }
    if k == n {
        read_whole_decimal(text, start, negative)
    } else {
        read_fraction_decimal(text, start, negative, k)
    }
}

/// A split at a `.` other than the first one in `u` is no split.
proof fn lemma_only_dot(u: Seq<char>, kk: int, j: int)
    requires
        0 <= kk < u.len(),
        u[kk] == '.',
        forall|i: int| 0 <= i < kk ==> u[i] != '.',
        j != kk,
    ensures
        !dot_split(u, j),
{
    if dot_split(u, j) {
        if j < kk {
            assert(u[j] == '.');
        } else {
            assert(u.subrange(0, j)[kk] == '.');
            assert(digit_value(u.subrange(0, j)[kk]) < 0);
        }
    }
}

/// Digits are their value zero-padded to their width.
proof fn lemma_padded_exact(x: Seq<char>)
    requires
        x.len() >= 1,
        all_digits(x),
    ensures
        digits_value(x) >= 0,
        padded(digits_value(x) as nat, x.len() as int) == x,
{
    lemma_padded_digits(x);
    let n = digits_value(x);
    if n == 0 {
        assert(x =~= zeros(x.len() as int));
        assert(nat_text(0) =~= seq!['0']);
        assert(padded(0, x.len() as int) =~= zeros(x.len() - 1) + seq!['0']);
        assert(padded(0, x.len() as int) =~= x);
    }
}

pub open spec fn pow10(m: nat) -> nat
    decreases m,
{
    if m == 0 {
        1
    } else {
        10 * pow10((m - 1) as nat)
    }
}

/// Digits are worth less than ten to the power of their number.
proof fn lemma_digits_bound(d: Seq<char>)
    requires
        all_digits(d),
    ensures
        0 <= digits_value(d) < pow10(d.len()),
    decreases d.len(),
{
    if d.len() > 0 {
        let p = d.drop_last();
        assert forall|i: int| 0 <= i < p.len() implies digit_value(#[trigger] p[i]) >= 0 by {
            assert(p[i] == d[i]);
        }
        lemma_digits_bound(p);
        assert(digit_value(d[d.len() - 1]) >= 0);
        let pv = digits_value(p);
        let c = digit_value(d.last());
        let pp = pow10(p.len());
        assert(digits_value(d) < pow10(d.len())) by (nonlinear_arith)
            requires
                digits_value(d) == pv * 10 + c,
                0 <= pv < pp,
                0 <= c <= 9,
                pow10(d.len()) == 10 * pp,
        ;
    }
}

proof fn lemma_year_text(y: Seq<char>)
    requires
        year_of_text(y) is Some,
    ensures
        year_text(year_of_text(y)->Some_0) == y,
{
    if y.len() == 4 && all_digits(y) {
        lemma_padded_exact(y);
        lemma_digits_bound(y);
        reveal_with_fuel(pow10, 5);
    } else {
        let d = y.drop_first();
        let v = digits_value(d);
        lemma_padded_exact(d);
        assert(y =~= seq![y[0]] + d);
        if d.len() > 4 {
            assert(canonical_digits(d));
            lemma_digits_text(d);
            assert(zeros(4 - nat_text(v as nat).len()) =~= Seq::<char>::empty());
            assert(padded(v as nat, 4) =~= d);
        } else {
            assert(padded(v as nat, 4) == d);
        }
    }
}

proof fn lemma_fraction_text(f: Seq<char>)
    requires
        nano_of_text(f) is Some,
    ensures
        fraction_text(nano_of_text(f)->Some_0) == f,
{
    if f.len() > 0 {
        let d = f.drop_first();
        lemma_padded_exact(d);
        let v = digits_value(d);
        assert(f =~= seq!['.'] + d);
        if f.len() == 4 {
            assert((v * 1_000_000) % 1_000_000 == 0 && (v * 1_000_000) / 1_000_000 == v)
                by (nonlinear_arith)
                requires
                    v >= 0,
            ;
        } else if f.len() == 7 {
            assert((v * 1000) % 1_000_000 != 0 && (v * 1000) % 1000 == 0 && (v * 1000) / 1000
                == v) by (nonlinear_arith)
                requires
                    v >= 0,
                    v % 1000 != 0,
            ;
        } else {
            assert(v % 1_000_000 != 0) by (nonlinear_arith)
                requires
                    v % 1000 != 0,
                    v >= 0,
            ;
        }
    }
}

/// A timestamp read from its text writes back as that text.
#[verifier::rlimit(80)]
proof fn lemma_datetime_text(t: Seq<char>)
    requires
        datetime_of_text(t) is Some,
    ensures
        timestamp_text(datetime_of_text(t)->Some_0) == t,
{
    let d = datetime_of_text(t)->Some_0;
    let fl = fraction_len(t);
    let y = t.len() - 15 - fl;
    let yp = t.subrange(0, y);
    lemma_year_text(yp);
    let f = t.subrange(y + 15, t.len() as int);
    lemma_fraction_text(f);
    lemma_padded_exact(t.subrange(y + 1, y + 3));
    lemma_padded_exact(t.subrange(y + 4, y + 6));
    lemma_padded_exact(t.subrange(y + 7, y + 9));
    lemma_padded_exact(t.subrange(y + 10, y + 12));
    lemma_padded_exact(t.subrange(y + 13, y + 15));
    assert(d.year as int == year_of_text(yp)->Some_0);
    assert(d.month as int == digits_value(t.subrange(y + 1, y + 3)));
    assert(d.day as int == digits_value(t.subrange(y + 4, y + 6)));
    assert(d.hour as int == digits_value(t.subrange(y + 7, y + 9)));
    assert(d.minute as int == digits_value(t.subrange(y + 10, y + 12)));
    assert(d.second as int == digits_value(t.subrange(y + 13, y + 15)));
    if f.len() > 0 {
        lemma_digits_nonneg(f.drop_first());
    }
    assert(d.nanosecond as int == nano_of_text(f)->Some_0);
    assert(year_text(d.year as int) == yp);
    assert(padded(d.month as nat, 2) == t.subrange(y + 1, y + 3));
    assert(padded(d.day as nat, 2) == t.subrange(y + 4, y + 6));
    assert(padded(d.hour as nat, 2) == t.subrange(y + 7, y + 9));
    assert(padded(d.minute as nat, 2) == t.subrange(y + 10, y + 12));
    assert(padded(d.second as nat, 2) == t.subrange(y + 13, y + 15));
    assert(fraction_text(d.nanosecond as int) == f);
    assert(t =~= yp + seq!['-'] + t.subrange(y + 1, y + 3) + seq!['-'] + t.subrange(y + 4, y + 6)
        + seq![' '] + t.subrange(y + 7, y + 9) + seq![':'] + t.subrange(y + 10, y + 12) + seq![
        ':',
    ] + t.subrange(y + 13, y + 15) + f);
}

/// The value of the digits of `text` from `from` to `to`, at most nine.
fn read_fixed(text: &str, from: usize, to: usize) -> (r: Option<u64>)
    requires
        from <= to <= text@.len(),
        to - from <= 9,
    ensures
        match r {
            Some(v) => fixed_digits(text@, from as int, to as int) == Some(v as int) && v
                < 1_000_000_000,
            None => fixed_digits(text@, from as int, to as int) is None,
        },
{
    let ghost t = text@;
    let mut acc: u64 = 0;
    let mut i: usize = from;
    while i < to
        invariant
            t == text@,
            from <= i <= to <= t.len(),
            to - from <= 9,
            all_digits(t.subrange(from as int, i as int)),
            acc as int == digits_value(t.subrange(from as int, i as int)),
            acc < pow10((i - from) as nat),
        decreases to - i,
    {
        let c = text.get_char(i);
        let ghost pre = t.subrange(from as int, i + 1);
        proof {
            assert(pre.drop_last() =~= t.subrange(from as int, i as int));
            assert(pre.last() == c);
        }
        match digit_of(c) {
            None => {
                proof {
                    let whole = t.subrange(from as int, to as int);
                    assert(whole[i - from] == c);
                }
                return None;
            },
            Some(d) => {
                proof {
                    reveal_with_fuel(pow10, 10);
                    lemma_pow10_mono((i - from) as nat, 8);
                    assert(pow10(8) == 100_000_000);
                }
                let ghost a0 = acc;
                acc = acc * 10 + d as u64;
                proof {
                    assert forall|j: int| 0 <= j < pre.len() implies digit_value(#[trigger] pre[j])
                        >= 0 by {
                        if j < pre.len() - 1 {
                            assert(pre[j] == t.subrange(from as int, i as int)[j]);
                        }
                    }
                    let pp = pow10((i - from) as nat);
                    assert(acc < pow10((i + 1 - from) as nat)) by (nonlinear_arith)
                        requires
                            acc == a0 * 10 + d,
                            a0 < pp,
                            d <= 9,
                            pow10((i + 1 - from) as nat) == 10 * pp,
                    ;
                }
            },
        }
        i = i + 1;
    }
    proof {
        reveal_with_fuel(pow10, 10);
        lemma_pow10_mono((i - from) as nat, 9);
        assert(pow10(9) == 1_000_000_000);
    }
    Some(acc)
}

proof fn lemma_pow10_mono(a: nat, b: nat)
    requires
        a <= b,
    ensures
        pow10(a) <= pow10(b),
    decreases b,
{
    if a < b {
        lemma_pow10_mono(a, (b - 1) as nat);
    }
}

/// The year written in `text` up to `y`.
fn read_year(text: &str, y: usize) -> (r: Option<i64>)
    requires
        4 <= y <= text@.len(),
    ensures
        match r {
            Some(v) => year_of_text(text@.subrange(0, y as int)) == Some(v as int),
            None => year_of_text(text@.subrange(0, y as int)) is None,
        },
{
    let ghost t = text@;
    let ghost yp = t.subrange(0, y as int);
    if y == 4 {
        proof {
            assert(t.subrange(0, 4) =~= yp);
        }
        return match read_fixed(text, 0, 4) {
            Some(v) => Some(v as i64),
            None => None,
        };
    }
    let c0 = text.get_char(0);
    if y > 7 || (c0 != '+' && c0 != '-') {
        return None;
    }
    proof {
        assert(yp.drop_first() =~= t.subrange(1, y as int));
        assert(yp[0] == c0);
    }
    let v = match read_fixed(text, 1, y) {
        Some(v) => v,
        None => {
            return None;
        },
    };
    if y > 5 && text.get_char(1) == '0' {
        proof {
            assert(yp.drop_first()[0] == t[1]);
        }
        return None;
    }
    proof {
        if y > 5 {
            assert(yp.drop_first()[0] == t[1]);
        }
    }
    if c0 == '+' && v > 9999 {
        Some(v as i64)
    } else if c0 == '-' && v >= 1 {
        Some(-(v as i64))
    } else {
        None
    }
}

/// The nanoseconds written in `text` from `from` to its end, `end` long.
fn read_nano(text: &str, from: usize, end: usize) -> (r: Option<u64>)
    requires
        from <= end == text@.len(),
        end - from == 0 || end - from == 4 || end - from == 7 || end - from == 10,
    ensures
        match r {
            Some(v) => nano_of_text(text@.subrange(from as int, end as int)) == Some(v as int),
            None => nano_of_text(text@.subrange(from as int, end as int)) is None,
        },
{
    let ghost t = text@;
    let ghost f = t.subrange(from as int, end as int);
    if from == end {
        return Some(0);
    }
    if text.get_char(from) != '.' {
        return None;
    }
    proof {
        assert(f.drop_first() =~= t.subrange(from + 1, end as int));
    }
    let v = match read_fixed(text, from + 1, end) {
        Some(v) => v,
        None => {
            return None;
        },
    };
    proof {
        reveal_with_fuel(pow10, 10);
        assert(pow10(9) == 1_000_000_000);
        lemma_pow10_mono((end - from - 1) as nat, 9);
        lemma_digits_bound(f.drop_first());
    }
    let len = end - from;
    if len == 4 && v != 0 {
        Some(v * 1_000_000)
    } else if len == 7 && v % 1000 != 0 {
        Some(v * 1000)
    } else if len == 10 && v % 1000 != 0 {
        Some(v)
    } else {
        None
    }
}

/// The timestamp written as `text` in chrono's form.
#[verifier::rlimit(60)]
fn read_datetime(text: &str) -> (r: Option<DateTimeValue>)
    ensures
        r == datetime_of_text(text@),
{
    let ghost t = text@;
    let n = text.unicode_len();
    let fl: usize = if n >= 4 && text.get_char(n - 4) == '.' {
        4
    } else if n >= 7 && text.get_char(n - 7) == '.' {
        7
    } else if n >= 10 && text.get_char(n - 10) == '.' {
        10
    } else {
        0
    };
    assert(fl as int == fraction_len(t));
    if n < 19 + fl {
        return None;
    }
    let y = n - 15 - fl;
    let yv = match read_year(text, y) {
        Some(v) => v,
        None => {
            return None;
        },
    };
    if text.get_char(y) != '-' || text.get_char(y + 3) != '-' || text.get_char(y + 6) != ' '
        || text.get_char(y + 9) != ':' || text.get_char(y + 12) != ':' {
        return None;
    }
    let mo = match read_fixed(text, y + 1, y + 3) {
        Some(v) => v,
        None => {
            return None;
        },
    };
    let dd = match read_fixed(text, y + 4, y + 6) {
        Some(v) => v,
        None => {
            return None;
        },
    };
    let hh = match read_fixed(text, y + 7, y + 9) {
        Some(v) => v,
        None => {
            return None;
        },
    };
    let mi = match read_fixed(text, y + 10, y + 12) {
        Some(v) => v,
        None => {
            return None;
        },
    };
    let ss = match read_fixed(text, y + 13, y + 15) {
        Some(v) => v,
        None => {
            return None;
        },
    };
    let ns = match read_nano(text, y + 15, n) {
        Some(v) => v,
        None => {
            return None;
        },
    };
    if yv < -262143 || yv > 262142 || mo < 1 || mo > 12 || dd < 1 || hh >= 24 || mi >= 60
        || ss >= 60 || ns >= 1_000_000_000 {
        return None;
    }
    let leap = (yv % 4 == 0 && yv % 100 != 0) || yv % 400 == 0;
    let days: u64 = if mo == 2 {
        if leap {
            29
        } else {
            28
        }
    } else if mo == 4 || mo == 6 || mo == 9 || mo == 11 {
        30
    } else {
        31
    };
    assert(days as int == days_in_month(yv as int, mo as int));
    if dd > days {
        return None;
    }
    Some(
        DateTimeValue {
            year: yv as i32,
            month: mo as u32,
            day: dd as u32,
            hour: hh as u32,
            minute: mi as u32,
            second: ss as u32,
            nanosecond: ns as u32,
        },
    )
}

} // verus!

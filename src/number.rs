use vstd::prelude::*;

verus! {

pub const ZERO: u8 = 48;
pub const NINE: u8 = 57;
pub const MINUS: u8 = 45;
pub const POINT: u8 = 46;

pub open spec fn is_digit(b: u8) -> bool {
    ZERO <= b <= NINE
}

pub open spec fn digit_value(b: u8) -> int {
    b - ZERO
}

/// Magnitude in tenths of an unsigned fixed-format number: `d.d` or `dd.d`.
pub open spec fn magnitude_of(s: Seq<u8>) -> Option<int> {
    if s.len() == 3 && is_digit(s[0]) && s[1] == POINT && is_digit(s[2]) {
        Some(10 * digit_value(s[0]) + digit_value(s[2]))
    } else if s.len() == 4 && is_digit(s[0]) && is_digit(s[1]) && s[2] == POINT && is_digit(s[3]) {
        Some(100 * digit_value(s[0]) + 10 * digit_value(s[1]) + digit_value(s[3]))
    } else {
        None
    }
}

/// The value in tenths of a fixed-format number (optional `-`, one or two
/// integer digits, a point, one fractional digit); `None` for any other text.
pub open spec fn value_of(s: Seq<u8>) -> Option<int> {
    if s.len() > 0 && s[0] == MINUS {
        match magnitude_of(s.drop_first()) {
            Some(m) => Some(-m),
            None => None,
        }
    } else {
        magnitude_of(s)
    }
}

pub open spec fn digit_char(d: int) -> u8 {
    (d + ZERO) as u8
}

/// The text of a value given in tenths, with exactly one fractional digit and
/// no leading zero.
pub open spec fn render_tenths(t: int) -> Seq<u8> {
    let m = if t < 0 { -t } else { t };
    let whole = m / 10;
    let sign = if t < 0 { seq![MINUS] } else { Seq::<u8>::empty() };
    let digits = if whole >= 10 {
        seq![digit_char(whole / 10), digit_char(whole % 10)]
    } else {
        seq![digit_char(whole)]
    };
    sign + digits + seq![POINT, digit_char(m % 10)]
}

/// Decodes one fixed-format number into tenths; `None` on any other layout.
pub fn parse_float(x: &[u8]) -> (r: Option<i64>)
    ensures
        r matches Some(v) ==> value_of(x@) == Some(v as int) && -999 <= v <= 999,
        r is None ==> value_of(x@) is None,
{
    let neg = x.len() > 0 && x[0] == MINUS;
    let start: usize = if neg { 1 } else { 0 };
    let len = x.len() - start;
    proof {
        if neg {
            assert(x@.drop_first() =~= x@.subrange(1, x@.len() as int));
        } else {
            assert(x@ =~= x@.subrange(0, x@.len() as int));
        }
    }
    let magnitude: i64;
    if len == 3 {
        let (a, p, b) = (x[start], x[start + 1], x[start + 2]);
        if ZERO <= a && a <= NINE && p == POINT && ZERO <= b && b <= NINE {
            magnitude = 10 * ((a - ZERO) as i64) + ((b - ZERO) as i64);
        } else {
            return None;
        }
    } else if len == 4 {
        let (a, b, p, c) = (x[start], x[start + 1], x[start + 2], x[start + 3]);
        if ZERO <= a && a <= NINE && ZERO <= b && b <= NINE && p == POINT && ZERO <= c && c <= NINE {
            magnitude = 100 * ((a - ZERO) as i64) + 10 * ((b - ZERO) as i64) + ((c - ZERO) as i64);
        } else {
            return None;
        }
    } else {
        return None;
    }
    if neg {
        Some(-magnitude)
    } else {
        Some(magnitude)
    }
}

/// Appends the text of `t` tenths to `out`.
pub fn push_tenths(out: &mut Vec<u8>, t: i64)
    requires
        -999 <= t <= 999,
    ensures
        final(out)@ == old(out)@ + render_tenths(t as int),
{
    let ghost start = out@;
    if t < 0 {
        out.push(MINUS);
    }
    let m: i64 = if t < 0 { -t } else { t };
    let whole = m / 10;
    if whole >= 10 {
        out.push(((whole / 10) as u8) + ZERO);
        out.push(((whole % 10) as u8) + ZERO);
    } else {
        out.push((whole as u8) + ZERO);
    }
    out.push(POINT);
    out.push(((m % 10) as u8) + ZERO);
    assert(out@ =~= start + render_tenths(t as int));
}

/// The text of `t` tenths, such as `-12.3` for `-123`.
pub fn format_tenths(t: i64) -> (r: Vec<u8>)
    requires
        -999 <= t <= 999,
    ensures
        r@ == render_tenths(t as int),
{
    let mut out: Vec<u8> = Vec::new();
    push_tenths(&mut out, t);
    assert(out@ =~= render_tenths(t as int));
    out
}

/// Formatting a value of the fixed format and parsing the text back gives the
/// value again, so parsing then formatting reproduces every canonical text.
pub proof fn lemma_parse_render_round_trip(t: int)
    requires
        -999 <= t <= 999,
    ensures
        value_of(render_tenths(t)) == Some(t),
        render_tenths(value_of(render_tenths(t))->Some_0) == render_tenths(t),
{
    let s = render_tenths(t);
    let m = if t < 0 { -t } else { t };
    if t < 0 {
        assert(s.drop_first() =~= render_tenths(m));
    } else {
        assert(s.len() == 0 || s[0] != MINUS);
    }
}

} // verus!

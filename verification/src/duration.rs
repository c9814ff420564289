//! Durations as configuration carries them: a number of seconds, written in
//! a settings file as "N", "N seconds", "N minutes", "N hours" or "N days".

use vstd::prelude::*;

verus! {

use crate::text::chars_of;

/// A configured duration, held as whole seconds.
#[derive(Clone, Copy, PartialEq, Eq, Structural, Debug)]
pub struct DurationValue {
    pub secs: u64,
}

impl DurationValue {
    pub fn from_secs(secs: u64) -> (r: Self)
        ensures
            r.secs == secs,
    {
        DurationValue { secs }
    }

    pub fn secs(&self) -> (r: u64)
        ensures
            r == self.secs,
    {
        self.secs
    }
}

/// Why a duration string was rejected.
#[derive(Clone, Copy, PartialEq, Eq, Structural, Debug)]
pub enum DurationParseError {
    /// Not of the form "N", "N seconds", "N minutes", "N hours", "N days".
    InvalidFormat,
    /// Well-formed, but the number of seconds does not fit in a `u64`.
    TooLarge,
}

pub open spec fn is_ascii_digit(c: char) -> bool {
    '0' <= c <= '9'
}

pub open spec fn is_space_char(c: char) -> bool {
    c == ' ' || c == '\t' || c == '\n' || c == '\r' || c == '\x0b' || c == '\x0c'
}

/// How many leading characters of `s` satisfy `digits` first.
pub open spec fn digit_run(s: Seq<char>) -> int
    decreases s.len(),
{
    if s.len() == 0 || !is_ascii_digit(s[0]) {
        0
    } else {
        1 + digit_run(s.drop_first())
    }
}

pub open spec fn space_run(s: Seq<char>) -> int
    decreases s.len(),
{
    if s.len() == 0 || !is_space_char(s[0]) {
        0
    } else {
        1 + space_run(s.drop_first())
    }
}

/// The numeric value of a digit string.
pub open spec fn digits_val(s: Seq<char>) -> nat
    decreases s.len(),
{
    if s.len() == 0 {
        0
    } else {
        (digits_val(s.drop_last()) * 10 + (s.last() as int - '0' as int)) as nat
    }
}

/// Seconds per unit word; `None` for an unknown unit.
pub open spec fn unit_secs(u: Seq<char>) -> Option<nat> {
    if u =~= Seq::<char>::empty() || u =~= "second"@ || u =~= "seconds"@ {
        Some(1nat)
    } else if u =~= "minute"@ || u =~= "minutes"@ {
        Some(60nat)
    } else if u =~= "hour"@ || u =~= "hours"@ {
        Some(3600nat)
    } else if u =~= "day"@ || u =~= "days"@ {
        Some(86400nat)
    } else {
        None
    }
}

/// What a duration string denotes: a digit run, optional blanks, and a unit
/// word covering the rest; `None` where it has any other shape.
pub open spec fn spec_parse_duration(s: Seq<char>) -> Option<nat> {
    let d = digit_run(s);
    if d == 0 {
        None
    } else {
        let sp = space_run(s.skip(d));
        match unit_secs(s.skip(d + sp)) {
            None => None,
            Some(mul) => Some(digits_val(s.take(d)) * mul),
        }
    }
}

proof fn lemma_digit_run_of_prefix(s: Seq<char>, d: int)
    requires
        0 <= d <= s.len(),
        forall|k: int| 0 <= k < d ==> is_ascii_digit(#[trigger] s[k]),
        d < s.len() ==> !is_ascii_digit(s[d]),
    ensures
        digit_run(s) == d,
    decreases s.len(),
{
    if s.len() > 0 && is_ascii_digit(s[0]) {
        assert(d > 0);
        lemma_digit_run_of_prefix(s.drop_first(), d - 1);
    }
}

proof fn lemma_space_run_of_prefix(s: Seq<char>, d: int)
    requires
        0 <= d <= s.len(),
        forall|k: int| 0 <= k < d ==> is_space_char(#[trigger] s[k]),
        d < s.len() ==> !is_space_char(s[d]),
    ensures
        space_run(s) == d,
    decreases s.len(),
{
    if s.len() > 0 && is_space_char(s[0]) {
        assert(d > 0);
        lemma_space_run_of_prefix(s.drop_first(), d - 1);
    }
}

/// A longer digit string denotes at least as large a number.
proof fn lemma_digits_val_monotone(s: Seq<char>, i: int)
    requires
        0 <= i <= s.len(),
        forall|k: int| 0 <= k < s.len() ==> is_ascii_digit(#[trigger] s[k]),
    ensures
        digits_val(s.take(i)) <= digits_val(s),
    decreases s.len() - i,
{
    if i < s.len() {
        lemma_digits_val_monotone(s, i + 1);
        assert(s.take(i + 1).drop_last() =~= s.take(i));
        assert(s.take(i + 1).last() == s[i]);
        assert(is_ascii_digit(s[i]));
        assert(digits_val(s.take(i)) <= digits_val(s.take(i + 1)));
    } else {
        assert(s.take(i) =~= s);
    }
}

/// Compares a character list with a string literal's characters.
fn chars_eq(a: &Vec<char>, lit: &str) -> (r: bool)
    ensures
        r == (a@ =~= lit@),
{
    let lc = chars_of(lit);
    if a.len() != lc.len() {
        return false;
    }
    let mut i: usize = 0;
    while i < a.len()
        invariant
            0 <= i <= a@.len(),
            a@.len() == lc@.len(),
            lc@ == lit@,
            forall|k: int| 0 <= k < i ==> a@[k] == lc@[k],
        decreases a@.len() - i,
    {
        if a[i] != lc[i] {
            return false;
        }
        i += 1;
    }
    proof {
        assert(a@ =~= lit@);
    }
    true
}

/// Parses "N", "N seconds", "N minutes", "N hours" or "N days" (singular
/// accepted) into whole seconds.  Rejects any other shape, and a value that
/// does not fit in a `u64`.
pub fn parse_duration(s: &str) -> (r: Result<DurationValue, DurationParseError>)
    ensures
        match spec_parse_duration(s@) {
            None => r == Err::<DurationValue, _>(DurationParseError::InvalidFormat),
            Some(v) => if v <= u64::MAX {
                r matches Ok(dv) && dv.secs == v
            } else {
                r == Err::<DurationValue, _>(DurationParseError::TooLarge)
            },
        },
{
    let cs = chars_of(s);
    let ghost sv = s@;
    let n = cs.len();
    // the digit run
    let mut d: usize = 0;
    while d < n && cs[d] >= '0' && cs[d] <= '9'
        invariant
            0 <= d <= n,
            cs@ == sv,
            n == cs@.len(),
            forall|k: int| 0 <= k < d ==> is_ascii_digit(#[trigger] sv[k]),
        decreases n - d,
    {
        d += 1;
    }
    proof {
        lemma_digit_run_of_prefix(sv, d as int);
    }
    if d == 0 {
        return Err(DurationParseError::InvalidFormat);
    }
    // the blanks after it
    let mut sp: usize = d;
    while sp < n && (cs[sp] == ' ' || cs[sp] == '\t' || cs[sp] == '\n' || cs[sp] == '\r'
        || cs[sp] == '\x0b' || cs[sp] == '\x0c')
        invariant
            d <= sp <= n,
            cs@ == sv,
            n == cs@.len(),
            forall|k: int| d <= k < sp ==> is_space_char(#[trigger] sv[k]),
        decreases n - sp,
    {
        sp += 1;
    }
    proof {
        assert forall|k: int| 0 <= k < sp - d implies is_space_char(
            #[trigger] sv.skip(d as int)[k],
        ) by {
            assert(sv.skip(d as int)[k] == sv[d + k]);
        }
        if (sp as int) < n {
            assert(sv.skip(d as int)[sp - d] == sv[sp as int]);
        }
        lemma_space_run_of_prefix(sv.skip(d as int), sp - d as int);
    }
    // the unit word
    let mut unit: Vec<char> = Vec::new();
    let mut k: usize = sp;
    while k < n
        invariant
            sp <= k <= n,
            cs@ == sv,
            n == cs@.len(),
            unit@ == sv.skip(sp as int).take(k - sp),
        decreases n - k,
    {
        unit.push(cs[k]);
        proof {
            assert(unit@ =~= sv.skip(sp as int).take(k + 1 - sp));
        }
        k += 1;
    }
    proof {
        assert(sv.skip(sp as int).take(n - sp) =~= sv.skip(sp as int));
        assert(unit@ == sv.skip(d as int).skip(sp - d as int)) by {
            assert(sv.skip(d as int).skip(sp - d as int) =~= sv.skip(sp as int));
        }
    }
    let mul: u64 = if unit.len() == 0 || chars_eq(&unit, "second") || chars_eq(&unit, "seconds") {
        1
    } else if chars_eq(&unit, "minute") || chars_eq(&unit, "minutes") {
        60
    } else if chars_eq(&unit, "hour") || chars_eq(&unit, "hours") {
        3600
    } else if chars_eq(&unit, "day") || chars_eq(&unit, "days") {
        86400
    } else {
        proof {
            assert(unit_secs(sv.skip(d as int + space_run(sv.skip(d as int)))) is None);
        }
        return Err(DurationParseError::InvalidFormat);
    };
    proof {
        if unit@.len() == 0 {
            assert(unit@ =~= Seq::<char>::empty());
        }
        assert(unit_secs(sv.skip(d as int + space_run(sv.skip(d as int)))) == Some(
            mul as nat,
        ));
    }
    // the numeric value, watching for overflow
    let ghost digits = sv.take(d as int);
    let ghost spec_mul = mul as nat;
    proof {
        assert(spec_parse_duration(sv) == Some((digits_val(digits) * spec_mul) as nat));
    }
    let mut val: u64 = 0;
    let mut i: usize = 0;
    while i < d
        invariant
            0 <= i <= d <= n,
            cs@ == sv,
            n == cs@.len(),
            digits == sv.take(d as int),
            sv == s@,
            spec_parse_duration(sv) == Some((digits_val(digits) * spec_mul) as nat),
            spec_mul == mul as nat,
            1 <= mul,
            forall|k2: int| 0 <= k2 < d ==> is_ascii_digit(#[trigger] sv[k2]),
            val as nat == digits_val(digits.take(i as int)),
        decreases d - i,
    {
        let c = cs[i];
        proof {
            assert(is_ascii_digit(sv[i as int]));
            assert(digits.take(i + 1).drop_last() =~= digits.take(i as int));
            assert(digits.take(i + 1).last() == sv[i as int]);
        }
        let digit = (c as u32 - '0' as u32) as u64;
        if val > (u64::MAX - digit) / 10 {
            proof {
                vstd::arithmetic::div_mod::lemma_fundamental_div_mod(
                    (u64::MAX - digit) as int,
                    10,
                );
                assert(val * 10 + digit > u64::MAX) by (nonlinear_arith)
                    requires
                        val as int >= ((u64::MAX - digit) as int) / 10 + 1,
                        (u64::MAX - digit) as int == 10 * (((u64::MAX - digit) as int) / 10) + (
                        (u64::MAX - digit) as int) % 10,
                        0 <= ((u64::MAX - digit) as int) % 10 < 10,
                ;
                assert(digits_val(digits.take(i + 1)) > u64::MAX);
                lemma_digits_val_monotone(digits, i + 1);
                assert(digits_val(digits) > u64::MAX);
                assert(digits_val(digits) * spec_mul >= digits_val(digits) * 1)
                    by (nonlinear_arith)
                    requires
                        spec_mul >= 1,
                ;
            }
            return Err(DurationParseError::TooLarge);
        }
        proof {
            vstd::arithmetic::div_mod::lemma_fundamental_div_mod((u64::MAX - digit) as int, 10);
            assert(val * 10 + digit <= u64::MAX) by (nonlinear_arith)
                requires
                    val as int <= ((u64::MAX - digit) as int) / 10,
                    (u64::MAX - digit) as int == 10 * (((u64::MAX - digit) as int) / 10) + ((
                    u64::MAX - digit) as int) % 10,
                    0 <= ((u64::MAX - digit) as int) % 10,
                    digit <= 9,
            ;
        }
        val = val * 10 + digit;
        i += 1;
    }
    proof {
        assert(digits.take(d as int) =~= digits);
    }
    // the multiplication, watching for overflow
    if mul != 1 && val > u64::MAX / mul {
        proof {
            vstd::arithmetic::div_mod::lemma_fundamental_div_mod(u64::MAX as int, mul as int);
            assert(val * mul > u64::MAX) by (nonlinear_arith)
                requires
                    val as int >= (u64::MAX as int) / (mul as int) + 1,
                    u64::MAX as int == (mul as int) * ((u64::MAX as int) / (mul as int)) + (
                    u64::MAX as int) % (mul as int),
                    0 <= (u64::MAX as int) % (mul as int) < mul as int,
            ;
            assert(digits_val(digits) * spec_mul > u64::MAX);
        }
        return Err(DurationParseError::TooLarge);
    }
    proof {
        if mul != 1 {
            vstd::arithmetic::div_mod::lemma_fundamental_div_mod(u64::MAX as int, mul as int);
            assert(val * mul <= u64::MAX) by (nonlinear_arith)
                requires
                    val as int <= (u64::MAX as int) / (mul as int),
                    u64::MAX as int == (mul as int) * ((u64::MAX as int) / (mul as int)) + (
                    u64::MAX as int) % (mul as int),
                    0 <= (u64::MAX as int) % (mul as int),
                    mul >= 1,
            ;
        }
        assert((val * mul) as nat == digits_val(digits) * spec_mul);
    }
    let total = val * mul;
    Ok(DurationValue { secs: total })
}

} // verus!

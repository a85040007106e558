use crate::numeral::is_digit;
use crate::numeral::is_numeral;
use crate::numeral::numeral_value;
use crate::numeral::scan_value;
use vstd::arithmetic::div_mod::lemma_div_is_ordered;
use vstd::arithmetic::mul::lemma_mul_upper_bound;
use vstd::prelude::*;
use vstd::string::StrSliceExecFns;

verus! {

/// A parsed brightness adjustment instruction.
///
/// Each variant carries one numeric payload; `apply` turns it, together with
/// the device's current value and the `[min, max]` bounds, into the next
/// brightness value.
#[derive(Debug, PartialEq, Eq, Structural, Copy, Clone)]
pub enum BrightnessSpec {
    /// Set brightness to exactly this value (before the final clamp).
    Absolute(u32),
    /// Add this signed delta to the current brightness.
    Relative(i32),
    /// Set brightness to `min + v * (max - min) / 100`.
    Percentage(u32),
    /// Scale the current brightness by `(100 + v) / 100`, moving by at least
    /// one step whenever `v != 0`.
    RelativePercentage(i32),
}

/// `clamp(raw, lo, hi)` is `max(lo, min(hi, raw))`: the single
/// range-enforcing step, run after every variant's raw computation.
pub open spec fn spec_clamp(raw: int, lo: int, hi: int) -> int {
    let capped = if raw <= hi {
        raw
    } else {
        hi
    };
    if capped >= lo {
        capped
    } else {
        lo
    }
}

/// Division by 100 that truncates toward zero, as machine signed division
/// does (the spec-mode `/` on `int` rounds toward negative infinity instead).
pub open spec fn div100_trunc(a: int) -> int {
    if a >= 0 {
        a / 100
    } else {
        -((-a) / 100)
    }
}

/// The raw (pre-clamp) next value for each variant, computed over the
/// unbounded integers so that no intermediate result can wrap.
pub open spec fn spec_raw(s: BrightnessSpec, current: u32, min: u32, max: u32) -> int {
    match s {
        BrightnessSpec::Absolute(v) => v as int,
        BrightnessSpec::Relative(v) => current + v,
        BrightnessSpec::Percentage(v) => min + div100_trunc(v * (max - min)),
        BrightnessSpec::RelativePercentage(v) => {
            let scaled = div100_trunc(current * (100 + v));
            if v > 0 {
                if current + 1 >= scaled {
                    current + 1
                } else {
                    scaled
                }
            } else if v < 0 {
                if current - 1 <= scaled {
                    current - 1
                } else {
                    scaled
                }
            } else {
                current as int
            }
        },
    }
}

/// What `apply` returns: the variant's raw value clamped into `[min, max]`.
pub open spec fn spec_apply(s: BrightnessSpec, current: u32, min: u32, max: u32) -> int {
    spec_clamp(spec_raw(s, current, min, max), min as int, max as int)
}

impl BrightnessSpec {
    /// Compute the next brightness value from the current one and the
    /// `[min, max]` bounds. Total: every input yields a clamped result.
    pub fn apply(self, current: u32, min: u32, max: u32) -> (r: u32)
        ensures
            r == spec_apply(self, current, min, max),
            min <= max ==> min <= r <= max,
    {
        let raw: i128 = match self {
            BrightnessSpec::Absolute(v) => v as i128,
            BrightnessSpec::Relative(v) => current as i128 + v as i128,
            BrightnessSpec::Percentage(v) => {
                if max >= min {
                    let diff: u32 = max - min;
                    proof {
                        lemma_mul_upper_bound(v as int, u32::MAX as int, diff as int, u32::MAX as int);
                    }
                    let prod: u128 = (v as u128) * (diff as u128);
                    proof {
                        lemma_div_is_ordered(prod as int, u32::MAX as int * u32::MAX as int, 100);
                    }
                    min as i128 + (prod / 100) as i128
                } else {
                    let diff: u32 = min - max;
                    proof {
                        lemma_mul_upper_bound(v as int, u32::MAX as int, diff as int, u32::MAX as int);
                    }
                    let prod: u128 = (v as u128) * (diff as u128);
                    proof {
                        lemma_div_is_ordered(prod as int, u32::MAX as int * u32::MAX as int, 100);
                        assert((v as int) * ((max - min) as int) == -((v as int) * ((min - max) as int)))
                            by (nonlinear_arith);
                    }
                    min as i128 - (prod / 100) as i128
                }
            },
            BrightnessSpec::RelativePercentage(v) => {
                if v > 0 {
                    let k: i64 = 100 + v as i64;
                    proof {
                        lemma_mul_upper_bound(
                            current as int,
                            u32::MAX as int,
                            k as int,
                            i32::MAX as int + 100,
                        );
                    }
                    let prod: u128 = (current as u128) * (k as u128);
                    proof {
                        lemma_div_is_ordered(
                            prod as int,
                            u32::MAX as int * (i32::MAX as int + 100),
                            100,
                        );
                    }
                    let scaled: i128 = (prod / 100) as i128;
                    let bump: i128 = current as i128 + 1;
                    if bump >= scaled {
                        bump
                    } else {
                        scaled
                    }
                } else if v < 0 {
                    let k: i64 = 100 + v as i64;
                    let scaled: i128 = if k >= 0 {
                        proof {
                            lemma_mul_upper_bound(current as int, u32::MAX as int, k as int, 99);
                        }
                        let prod: u128 = (current as u128) * (k as u128);
                        proof {
                            lemma_div_is_ordered(prod as int, u32::MAX as int * 99, 100);
                        }
                        (prod / 100) as i128
                    } else {
                        proof {
                            lemma_mul_upper_bound(
                                current as int,
                                u32::MAX as int,
                                -k as int,
                                i32::MAX as int,
                            );
                        }
                        let m: u128 = (current as u128) * ((-k) as u128);
                        proof {
                            lemma_div_is_ordered(m as int, u32::MAX as int * i32::MAX as int, 100);
                            assert((current as int) * ((100 + v) as int) == -((current as int) * ((-(
                            100 + v)) as int))) by (nonlinear_arith);
                        }
                        -((m / 100) as i128)
                    };
                    let down: i128 = current as i128 - 1;
                    if down <= scaled {
                        down
                    } else {
                        scaled
                    }
                } else {
                    current as i128
                }
            },
        };
        let capped: i128 = if raw <= max as i128 {
            raw
        } else {
            max as i128
        };
        let next: i128 = if capped >= min as i128 {
            capped
        } else {
            min as i128
        };
        next as u32
    }
}

/// A leading sign character of a relative spec string.
pub open spec fn is_sign(c: char) -> bool {
    c == '+' || c == '-'
}

/// The signed value a sign character gives to a numeral's magnitude.
pub open spec fn signed_value(sign: char, m: int) -> int {
    if sign == '-' {
        -m
    } else {
        m
    }
}

/// The grammar of spec strings, matched against the whole string:
/// digits alone are an absolute value, a sign before them makes the value
/// relative, a trailing `%` makes it a percentage, and both together make a
/// relative percentage. Anything else is rejected, as is a numeral whose
/// value does not fit the variant's payload type.
pub open spec fn spec_parse(s: Seq<char>) -> Result<BrightnessSpec, ()> {
    if is_numeral(s) {
        if numeral_value(s) <= u32::MAX {
            Ok(BrightnessSpec::Absolute(numeral_value(s) as u32))
        } else {
            Err(())
        }
    } else if s.len() >= 1 && is_sign(s[0]) && is_numeral(s.subrange(1, s.len() as int)) {
        let v = signed_value(s[0], numeral_value(s.subrange(1, s.len() as int)));
        if i32::MIN <= v <= i32::MAX {
            Ok(BrightnessSpec::Relative(v as i32))
        } else {
            Err(())
        }
    } else if s.len() >= 1 && s.last() == '%' && is_numeral(s.subrange(0, s.len() - 1)) {
        if numeral_value(s.subrange(0, s.len() - 1)) <= u32::MAX {
            Ok(BrightnessSpec::Percentage(numeral_value(s.subrange(0, s.len() - 1)) as u32))
        } else {
            Err(())
        }
    } else if s.len() >= 2 && is_sign(s[0]) && s.last() == '%' && is_numeral(
        s.subrange(1, s.len() - 1),
    ) {
        let v = signed_value(s[0], numeral_value(s.subrange(1, s.len() - 1)));
        if i32::MIN <= v <= i32::MAX {
            Ok(BrightnessSpec::RelativePercentage(v as i32))
        } else {
            Err(())
        }
    } else {
        Err(())
    }
}

impl BrightnessSpec {
    /// Parse a brightness spec string: `VALUE`, `[+|-]VALUE`, `VALUE%` or
    /// `[+|-]VALUE%`, with no surrounding whitespace and no partial matches.
    pub fn from_str(s: &str) -> (r: Result<BrightnessSpec, ()>)
        ensures
            r == spec_parse(s@),
    {
        let n: usize = s.unicode_len();
        if n == 0 {
            return Err(());
        }
        let first: char = s.get_char(0);
        let has_sign: bool = first == '+' || first == '-';
        let last: char = s.get_char(n - 1);
        let has_pct: bool = last == '%';
        proof {
            assert(has_sign ==> !is_digit(s@[0]));
            assert(has_pct ==> !is_digit(s@[n - 1]));
            assert(!has_sign ==> !is_sign(s@[0]));
        }
        let start: usize = if has_sign {
            1
        } else {
            0
        };
        let end: usize = if has_pct {
            n - 1
        } else {
            n
        };
        if end <= start {
            proof {
                lemma_parse_rejects(s@, has_sign, has_pct, start as int, end as int);
            }
            return Err(());
        }
        let scanned: Option<u64> = scan_value(s, start, end);
        let ghost region = s@.subrange(start as int, end as int);
        match scanned {
            None => {
                proof {
                    lemma_parse_rejects(s@, has_sign, has_pct, start as int, end as int);
                }
                Err(())
            },
            Some(val) => {
                proof {
                    lemma_parse_classifies(s@, has_sign, has_pct, start as int, end as int);
                }
                if !has_sign && !has_pct {
                    assert(region =~= s@);
                    Ok(BrightnessSpec::Absolute(val as u32))
                } else if has_sign && !has_pct {
                    if first == '-' {
                        if val <= 2147483648 {
                            if val == 2147483648 {
                                Ok(BrightnessSpec::Relative(i32::MIN))
                            } else {
                                Ok(BrightnessSpec::Relative(-(val as i32)))
                            }
                        } else {
                            Err(())
                        }
                    } else {
                        if val <= 2147483647 {
                            Ok(BrightnessSpec::Relative(val as i32))
                        } else {
                            Err(())
                        }
                    }
                } else if !has_sign && has_pct {
                    Ok(BrightnessSpec::Percentage(val as u32))
                } else {
                    if first == '-' {
                        if val <= 2147483648 {
                            if val == 2147483648 {
                                Ok(BrightnessSpec::RelativePercentage(i32::MIN))
                            } else {
                                Ok(BrightnessSpec::RelativePercentage(-(val as i32)))
                            }
                        } else {
                            Err(())
                        }
                    } else {
                        if val <= 2147483647 {
                            Ok(BrightnessSpec::RelativePercentage(val as i32))
                        } else {
                            Err(())
                        }
                    }
                }
            },
        }
    }
}

/// When the digit region between an optional leading sign and an optional
/// trailing `%` is empty, not a run of digits, or worth more than `u32::MAX`,
/// no grammar branch accepts the string.
proof fn lemma_parse_rejects(s: Seq<char>, has_sign: bool, has_pct: bool, start: int, end: int)
    requires
        s.len() >= 1,
        has_sign == is_sign(s[0]),
        has_pct == (s[s.len() - 1] == '%'),
        start == if has_sign { 1int } else { 0int },
        end == if has_pct { s.len() - 1 } else { s.len() as int },
        end <= start || !(is_numeral(s.subrange(start, end)) && numeral_value(
            s.subrange(start, end),
        ) <= u32::MAX),
    ensures
        spec_parse(s) == Err::<BrightnessSpec, ()>(()),
{
    lemma_parse_classifies(s, has_sign, has_pct, start, end);
    if end <= start {
        assert(s.subrange(start, end).len() <= 0);
    } else {
        let region = s.subrange(start, end);
        if is_numeral(region) {
            let m = numeral_value(region);
            assert(m > u32::MAX);
            assert(i32::MAX < u32::MAX);
            if has_sign && s[0] == '-' {
                assert(signed_value(s[0], m) < i32::MIN);
            }
        }
    }
}

/// Which grammar branch, if any, a string can satisfy is decided by its
/// first and last characters alone: a branch other than the one selected by
/// `(has_sign, has_pct)` never matches.
proof fn lemma_parse_classifies(s: Seq<char>, has_sign: bool, has_pct: bool, start: int, end: int)
    requires
        s.len() >= 1,
        has_sign == is_sign(s[0]),
        has_pct == (s[s.len() - 1] == '%'),
        start == if has_sign { 1int } else { 0int },
        end == if has_pct { s.len() - 1 } else { s.len() as int },
    ensures
        has_sign ==> !is_numeral(s),
        has_pct ==> !is_numeral(s),
        !has_sign ==> !(is_sign(s[0])),
        has_pct && s.len() >= 2 ==> !is_numeral(s.subrange(1, s.len() as int)),
        has_sign && s.len() >= 2 ==> !is_numeral(s.subrange(0, s.len() - 1)),
        !has_pct ==> s[s.len() - 1] != '%',
        !has_sign && !has_pct ==> s.subrange(start, end) =~= s,
{
    if has_sign {
        assert(!is_digit(s[0]));
        assert(!is_numeral(s));
        if s.len() >= 2 {
            let t = s.subrange(0, s.len() - 1);
            assert(t[0] == s[0]);
            assert(!is_numeral(t));
        }
    }
    if has_pct {
        assert(!is_digit(s[s.len() - 1]));
        assert(!is_numeral(s));
        if s.len() >= 2 {
            let t = s.subrange(1, s.len() as int);
            assert(t[t.len() - 1] == s[s.len() - 1]);
            assert(!is_numeral(t));
        }
    }
}

/// A relative percentage of zero is a strict no-op: the result is the
/// current value, merely clamped into `[min, max]`.
pub proof fn lemma_relative_percentage_zero_noop(current: u32, min: u32, max: u32)
    ensures
        spec_apply(BrightnessSpec::RelativePercentage(0i32), current, min, max) == spec_clamp(
            current as int,
            min as int,
            max as int,
        ),
{
}

/// An absolute spec overrides the current value entirely: whatever the
/// device held before, the result is the requested value clamped into
/// `[min, max]`.
pub proof fn lemma_absolute_override(v: u32, current: u32, min: u32, max: u32)
    ensures
        spec_apply(BrightnessSpec::Absolute(v), current, min, max) == spec_clamp(
            v as int,
            min as int,
            max as int,
        ),
{
}

/// Fifty percent of the full `[0, 100]` range is 50, whatever the current
/// value was.
pub proof fn lemma_percentage_midpoint(current: u32)
    ensures
        spec_apply(BrightnessSpec::Percentage(50u32), current, 0u32, 100u32) == 50,
{
}

/// Forward progress: a positive relative percentage strictly increases any
/// current value that lies within bounds and is not yet at the maximum,
/// even where pure scaling would round down to no change.
pub proof fn lemma_forward_progress(v: i32, current: u32, min: u32, max: u32)
    requires
        v > 0,
        min <= current,
        current < max,
    ensures
        spec_apply(BrightnessSpec::RelativePercentage(v), current, min, max) > current,
{
}

impl Default for BrightnessSpec {
    /// The no-op specification, used when the caller supplies no spec string.
    fn default() -> (r: Self)
        ensures
            r == BrightnessSpec::Relative(0i32),
    {
        BrightnessSpec::Relative(0)
    }
}

} // verus!

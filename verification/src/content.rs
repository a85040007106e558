use crate::numeral::digit_val;
use crate::numeral::is_digit;
use crate::numeral::is_numeral;
use crate::numeral::numeral_value;
use crate::numeral::scan_value;
use vstd::prelude::*;
use vstd::string::StrSliceExecFns;

verus! {

/// An ASCII whitespace character, as found around the integer in a device's
/// brightness files.
pub open spec fn is_space(c: char) -> bool {
    c == ' ' || c == '\t' || c == '\n' || c == '\r'
}

/// The sequence with its leading whitespace removed.
pub open spec fn drop_leading_spaces(s: Seq<char>) -> Seq<char>
    decreases s.len(),
{
    if s.len() > 0 && is_space(s[0]) {
        drop_leading_spaces(s.drop_first())
    } else {
        s
    }
}

/// The sequence with its trailing whitespace removed.
pub open spec fn drop_trailing_spaces(s: Seq<char>) -> Seq<char>
    decreases s.len(),
{
    if s.len() > 0 && is_space(s.last()) {
        drop_trailing_spaces(s.drop_last())
    } else {
        s
    }
}

/// The sequence with whitespace removed from both ends.
pub open spec fn spec_trim(s: Seq<char>) -> Seq<char> {
    drop_trailing_spaces(drop_leading_spaces(s))
}

/// Dropping leading whitespace keeps exactly the tail that starts at the
/// first non-whitespace character.
proof fn lemma_drop_leading(s: Seq<char>, lo: int)
    requires
        0 <= lo <= s.len(),
        forall|j: int| 0 <= j < lo ==> is_space(#[trigger] s[j]),
        lo == s.len() || !is_space(s[lo]),
    ensures
        drop_leading_spaces(s) =~= s.subrange(lo, s.len() as int),
    decreases lo,
{
    if lo == 0 {
        assert(s.subrange(0, s.len() as int) =~= s);
    } else {
        assert(is_space(s[0]));
        let t = s.drop_first();
        assert(forall|j: int| 0 <= j < lo - 1 ==> is_space(#[trigger] t[j]));
        lemma_drop_leading(t, lo - 1);
        assert(t.subrange(lo - 1, t.len() as int) =~= s.subrange(lo, s.len() as int));
    }
}

/// Dropping trailing whitespace keeps exactly the head that ends at the
/// last non-whitespace character.
proof fn lemma_drop_trailing(s: Seq<char>, hi: int)
    requires
        0 <= hi <= s.len(),
        forall|j: int| hi <= j < s.len() ==> is_space(#[trigger] s[j]),
        hi == 0 || !is_space(s[hi - 1]),
    ensures
        drop_trailing_spaces(s) =~= s.subrange(0, hi),
    decreases s.len() - hi,
{
    if hi == s.len() {
        assert(s.subrange(0, s.len() as int) =~= s);
    } else {
        assert(is_space(s.last()));
        let t = s.drop_last();
        lemma_drop_trailing(t, hi);
        assert(t.subrange(0, hi) =~= s.subrange(0, hi));
    }
}

/// Parse a device file's text: a decimal integer, optionally surrounded by
/// whitespace. Succeeds exactly when the trimmed text is a non-empty run of
/// digits whose value fits in `u32`.
pub fn parse_content(s: &str) -> (r: Result<u32, ()>)
    ensures
        match r {
            Ok(v) => is_numeral(spec_trim(s@)) && v == numeral_value(spec_trim(s@)),
            Err(()) => !(is_numeral(spec_trim(s@)) && numeral_value(spec_trim(s@)) <= u32::MAX),
        },
{
    let n: usize = s.unicode_len();
    let mut lo: usize = 0;
    loop
        invariant
            lo <= n,
            n == s@.len(),
            forall|j: int| 0 <= j < lo ==> is_space(#[trigger] s@[j]),
        ensures
            lo <= n,
            n == s@.len(),
            forall|j: int| 0 <= j < lo ==> is_space(#[trigger] s@[j]),
            lo == n || !is_space(s@[lo as int]),
        decreases n - lo,
    {
        if lo == n {
            break ;
        }
        let c: char = s.get_char(lo);
        if c == ' ' || c == '\t' || c == '\n' || c == '\r' {
            lo = lo + 1;
        } else {
            break ;
        }
    }
    let mut hi: usize = n;
    loop
        invariant
            lo <= hi <= n,
            n == s@.len(),
            forall|j: int| hi <= j < n ==> is_space(#[trigger] s@[j]),
            lo == n || !is_space(s@[lo as int]),
        ensures
            lo <= hi <= n,
            n == s@.len(),
            forall|j: int| hi <= j < n ==> is_space(#[trigger] s@[j]),
            hi == lo || !is_space(s@[hi - 1]),
        decreases hi,
    {
        if hi == lo {
            break ;
        }
        let c: char = s.get_char(hi - 1);
        if c == ' ' || c == '\t' || c == '\n' || c == '\r' {
            hi = hi - 1;
        } else {
            break ;
        }
    }
    proof {
        lemma_drop_leading(s@, lo as int);
        let t = s@.subrange(lo as int, n as int);
        assert(forall|j: int| hi - lo <= j < t.len() ==> is_space(#[trigger] t[j]));
        if hi > lo {
            assert(t[hi - lo - 1] == s@[hi - 1]);
        }
        lemma_drop_trailing(t, hi - lo);
        assert(t.subrange(0, hi - lo) =~= s@.subrange(lo as int, hi as int));
        assert(spec_trim(s@) =~= s@.subrange(lo as int, hi as int));
    }
    match scan_value(s, lo, hi) {
        Some(v) => Ok(v as u32),
        None => Err(()),
    }
}

/// The character for one decimal digit value.
pub open spec fn digit_char(d: int) -> char {
    ((48 + d) as u8) as char
}

/// The decimal digit characters of `v`, most significant first, with no
/// leading zero (the value zero is the single character `0`).
pub open spec fn spec_digits(v: nat) -> Seq<char>
    decreases v,
{
    if v < 10 {
        seq![digit_char(v as int)]
    } else {
        spec_digits(v / 10).push(digit_char((v % 10) as int))
    }
}

/// The decimal digits of a value read back as a numeral give the value
/// itself; they are all digits, and only zero starts with `0`.
pub proof fn lemma_digits_value(v: nat)
    ensures
        is_numeral(spec_digits(v)),
        numeral_value(spec_digits(v)) == v,
        v > 0 ==> spec_digits(v)[0] != '0',
        v == 0 ==> spec_digits(v) =~= seq!['0'],
    decreases v,
{
    if v < 10 {
        let ds = spec_digits(v);
        assert(ds.len() == 1);
        assert(is_digit(ds[0]));
        assert(ds.drop_last() =~= Seq::<char>::empty());
        assert(numeral_value(Seq::<char>::empty()) == 0);
        assert(numeral_value(ds) == numeral_value(ds.drop_last()) * 10 + digit_val(ds.last()));
        assert(ds.last() == ds[0]);
        assert(numeral_value(ds) == digit_val(ds[0]));
    } else {
        lemma_digits_value(v / 10);
        let ds = spec_digits(v);
        let prefix = spec_digits(v / 10);
        assert(ds.drop_last() =~= prefix);
        assert(ds.last() == digit_char((v % 10) as int));
        assert(is_digit(ds.last()));
        assert(digit_val(ds.last()) == v % 10);
        assert(numeral_value(ds) == numeral_value(prefix) * 10 + v % 10);
        assert(v / 10 * 10 + v % 10 == v) by {
            vstd::arithmetic::div_mod::lemma_fundamental_div_mod(v as int, 10);
        }
        assert(forall|i: int| 0 <= i < ds.len() ==> is_digit(#[trigger] ds[i])) by {
            assert(forall|i: int|
                0 <= i < prefix.len() ==> ds[i] == #[trigger] prefix[i]);
        }
        assert(ds[0] == prefix[0]);
    }
}

/// The decimal text of `v`: what gets written back to a device's brightness
/// file. Formatting then parsing returns the same value (`lemma_digits_value`
/// together with `parse_content`'s contract).
pub fn format_value(v: u32) -> (r: Vec<char>)
    ensures
        r@ =~= spec_digits(v as nat),
    decreases v,
{
    if v < 10 {
        let c: char = ((48 + v) as u8) as char;
        let mut out: Vec<char> = Vec::new();
        out.push(c);
        out
    } else {
        let mut out: Vec<char> = format_value(v / 10);
        let d: u32 = v % 10;
        let c: char = ((48 + d) as u8) as char;
        out.push(c);
        out
    }
}

} // verus!

use vstd::prelude::*;
use vstd::string::StrSliceExecFns;

verus! {

/// A decimal digit character.
pub open spec fn is_digit(c: char) -> bool {
    ('0' as u32) <= (c as u32) && (c as u32) <= ('9' as u32)
}

/// The numeric value of one digit character.
pub open spec fn digit_val(c: char) -> int {
    (c as u32) - ('0' as u32)
}

/// A non-empty run of decimal digits.
pub open spec fn is_numeral(s: Seq<char>) -> bool {
    s.len() > 0 && (forall|i: int| 0 <= i < s.len() ==> is_digit(#[trigger] s[i]))
}

/// The value of a digit sequence read as a base-ten numeral
/// (most significant digit first; the empty sequence reads as zero).
pub open spec fn numeral_value(s: Seq<char>) -> int
    decreases s.len(),
{
    if s.len() == 0 {
        0
    } else {
        numeral_value(s.drop_last()) * 10 + digit_val(s.last())
    }
}

/// A digit sequence's value is never negative.
pub proof fn lemma_numeral_value_nonneg(s: Seq<char>)
    requires
        forall|i: int| 0 <= i < s.len() ==> is_digit(#[trigger] s[i]),
    ensures
        numeral_value(s) >= 0,
    decreases s.len(),
{
    if s.len() > 0 {
        lemma_numeral_value_nonneg(s.drop_last());
    }
}

/// Extending a digit sequence on the right never lowers its value:
/// a prefix of an all-digit numeral is worth no more than the whole.
pub proof fn lemma_numeral_prefix_le(s: Seq<char>, k: int)
    requires
        forall|i: int| 0 <= i < s.len() ==> is_digit(#[trigger] s[i]),
        0 <= k <= s.len(),
    ensures
        numeral_value(s.subrange(0, k)) <= numeral_value(s),
    decreases s.len() - k,
{
    if k == s.len() {
        assert(s.subrange(0, k) =~= s);
    } else {
        lemma_numeral_prefix_le(s, k + 1);
        let t = s.subrange(0, k + 1);
        assert(t.drop_last() =~= s.subrange(0, k));
        lemma_numeral_value_nonneg(s.subrange(0, k));
        assert(numeral_value(t) == numeral_value(s.subrange(0, k)) * 10 + digit_val(s[k]));
        assert(numeral_value(s.subrange(0, k)) * 10 >= numeral_value(s.subrange(0, k)))
            by (nonlinear_arith)
            requires
                numeral_value(s.subrange(0, k)) >= 0,
        ;
    }
}

/// Scan `s[start..end)` as a base-ten numeral. Returns its value when the
/// span is a non-empty run of digits whose value fits in `u32`, and reports
/// exactly why it failed otherwise.
pub fn scan_value(s: &str, start: usize, end: usize) -> (r: Option<u64>)
    requires
        start <= end <= s@.len(),
    ensures
        match r {
            Some(v) => is_numeral(s@.subrange(start as int, end as int)) && v == numeral_value(
                s@.subrange(start as int, end as int),
            ) && v <= u32::MAX,
            None => !(is_numeral(s@.subrange(start as int, end as int)) && numeral_value(
                s@.subrange(start as int, end as int),
            ) <= u32::MAX),
        },
{
    let ghost region = s@.subrange(start as int, end as int);
    if start == end {
        assert(region.len() == 0);
        return None;
    }
    let mut val: u64 = 0;
    let mut i: usize = start;
    while i < end
        invariant
            start <= i <= end <= s@.len(),
            region == s@.subrange(start as int, end as int),
            forall|j: int| start <= j < i ==> is_digit(#[trigger] s@[j]),
            val == numeral_value(s@.subrange(start as int, i as int)),
            val <= u32::MAX,
        decreases end - i,
    {
        let c: char = s.get_char(i);
        let u: u32 = c as u32;
        if u < 48 || u > 57 {
            assert(!is_digit(s@[i as int]));
            assert(!is_numeral(region)) by {
                assert(region[i - start] == s@[i as int]);
            }
            return None;
        }
        let d: u64 = (u - 48) as u64;
        let next_val: u64 = val * 10 + d;
        proof {
            let prefix = s@.subrange(start as int, i + 1);
            assert(prefix.drop_last() =~= s@.subrange(start as int, i as int));
            assert(prefix.last() == s@[i as int]);
            assert(is_digit(s@[i as int]));
            assert(next_val == numeral_value(prefix));
        }
        if next_val > 0xFFFF_FFFF {
            proof {
                if is_numeral(region) {
                    assert(s@.subrange(start as int, i + 1) =~= region.subrange(
                        0,
                        i + 1 - start,
                    ));
                    lemma_numeral_prefix_le(region, i + 1 - start);
                }
            }
            return None;
        }
        val = next_val;
        i = i + 1;
    }
    proof {
        assert(region =~= s@.subrange(start as int, end as int));
        assert forall|j: int| 0 <= j < region.len() implies is_digit(#[trigger] region[j]) by {
            assert(region[j] == s@[start + j]);
        }
    }
    Some(val)
}

} // verus!

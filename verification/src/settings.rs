//! Validation of the per-run configuration: the group width `n`, the filter
//! threshold, and the extra-character set.
//!
//! Raw textual input is parsed as a decimal number (an optional leading `+`,
//! then digits); input that does not parse, or a zero where zero is not
//! allowed, falls back to the caller's default.  The extra-character set is
//! built by discarding every character the ideographic range already covers.

use vstd::prelude::*;

use crate::accept::spec_is_ideograph;

verus! {

/// A decimal digit character.
pub open spec fn is_digit(c: char) -> bool {
    48 <= c as u32 <= 57
}

/// The numeric value of a digit character.
pub open spec fn digit_value(c: char) -> int {
    c as u32 - 48
}

/// The value of the first `i` characters of `s` read as decimal digits.
pub open spec fn digits_value(s: Seq<char>, i: int) -> int
    decreases i,
{
    if i <= 0 {
        0
    } else {
        digits_value(s, i - 1) * 10 + digit_value(s[i - 1])
    }
}

/// Every character of `s` is a decimal digit.
pub open spec fn all_digits(s: Seq<char>) -> bool {
    forall|i: int| 0 <= i < s.len() ==> is_digit(#[trigger] s[i])
}

/// The number `s` denotes: an optional leading `+`, then one or more
/// digits, provided the value fits in `usize`.
pub open spec fn spec_parse_usize(s: Seq<char>) -> Option<usize> {
    let t = if s.len() > 0 && s[0] == '+' {
        s.drop_first()
    } else {
        s
    };
    if t.len() > 0 && all_digits(t) && digits_value(t, t.len() as int) <= usize::MAX {
        Some(digits_value(t, t.len() as int) as usize)
    } else {
        None
    }
}

pub proof fn lemma_digits_nonneg(s: Seq<char>, i: int)
    requires
        forall|m: int| 0 <= m < i ==> is_digit(#[trigger] s[m]),
    ensures
        digits_value(s, i) >= 0,
    decreases i,
{
    if i > 0 {
        lemma_digits_nonneg(s, i - 1);
    }
}

pub proof fn lemma_digits_mono(s: Seq<char>, i: int, i2: int)
    requires
        0 <= i <= i2,
        forall|m: int| 0 <= m < i2 ==> is_digit(#[trigger] s[m]),
    ensures
        digits_value(s, i) <= digits_value(s, i2),
    decreases i2 - i,
{
    if i < i2 {
        lemma_digits_mono(s, i, i2 - 1);
        lemma_digits_nonneg(s, i2 - 1);
    }
}

/// Parses a decimal number, `None` on any malformed input or overflow.
#[verifier::loop_isolation(false)]
pub fn parse_usize(s: &Vec<char>) -> (r: Option<usize>)
    ensures
        r == spec_parse_usize(s@),
{
    let start: usize = if s.len() > 0 && s[0] == '+' {
        1
    } else {
        0
    };
    let ghost t = if start == 1 {
        s@.drop_first()
    } else {
        s@
    };
    proof {
        assert(forall|m: int| 0 <= m < t.len() ==> t[m] == s@[m + start]);
    }
    if s.len() == start {
        return None;
    }
    let mut val: usize = 0;
    let mut i: usize = start;
    while i < s.len()
        invariant
            start <= i <= s@.len(),
            forall|m: int| 0 <= m < i - start ==> is_digit(#[trigger] t[m]),
            val as int == digits_value(t, i - start),
        decreases s@.len() - i,
    {
        let c = s[i];
        let u = c as u32;
        if u < 48 || u > 57 {
            proof {
                assert(!is_digit(t[i - start]));
            }
            return None;
        }
        let d = (u - 48) as usize;
        let overflowed: bool = match val.checked_mul(10) {
            Some(v10) => match v10.checked_add(d) {
                Some(v) => {
                    val = v;
                    false
                },
                None => true,
            },
            None => true,
        };
        if overflowed {
            proof {
                assert(digits_value(t, i + 1 - start) > usize::MAX);
                if all_digits(t) {
                    lemma_digits_mono(t, i + 1 - start, t.len() as int);
                }
            }
            return None;
        }
        i = i + 1;
    }
    Some(val)
}

/// Keeps only the value of `input` when it parses and is allowed; otherwise
/// the default.
pub open spec fn spec_value_with_default(s: Seq<char>, allow_zero: bool, default: usize) -> usize {
    match spec_parse_usize(s) {
        Some(v) => if v > 0 || (allow_zero && v == 0) {
            v
        } else {
            default
        },
        None => default,
    }
}

/// Parses a number, falling back to `default` when the input does not parse
/// or is a disallowed zero.
pub fn value_with_default(input: &Vec<char>, allow_zero: bool, default: usize) -> (r: usize)
    ensures
        r == spec_value_with_default(input@, allow_zero, default),
{
    match parse_usize(input) {
        Some(v) => {
            if v > 0 || allow_zero {
                v
            } else {
                default
            }
        },
        None => default,
    }
}

/// The characters of `s` that lie outside the ideographic range, in order.
pub open spec fn spec_extra_set(s: Seq<char>) -> Seq<char>
    decreases s.len(),
{
    if s.len() == 0 {
        Seq::<char>::empty()
    } else {
        spec_extra_set(s.drop_last()) + (if spec_is_ideograph(s.last()) {
            Seq::<char>::empty()
        } else {
            seq![s.last()]
        })
    }
}

/// A character is in the extra set exactly when the input holds it and the
/// ideographic range does not already cover it.
pub proof fn lemma_extra_contains(s: Seq<char>, c: char)
    ensures
        spec_extra_set(s).contains(c) <==> (s.contains(c) && !spec_is_ideograph(c)),
    decreases s.len(),
{
    if s.len() > 0 {
        lemma_extra_contains(s.drop_last(), c);
        let e = spec_extra_set(s);
        let ed = spec_extra_set(s.drop_last());
        if e.contains(c) {
            let k = choose|k: int| 0 <= k < e.len() && e[k] == c;
            if k < ed.len() {
                assert(ed[k] == c);
                assert(ed.contains(c));
                let j = choose|j: int| 0 <= j < s.drop_last().len() && s.drop_last()[j] == c;
                assert(s[j] == c);
            } else {
                assert(c == s.last());
                assert(s[s.len() - 1] == c);
            }
        }
        if s.contains(c) && !spec_is_ideograph(c) {
            let j = choose|j: int| 0 <= j < s.len() && s[j] == c;
            if j < s.len() - 1 {
                assert(s.drop_last()[j] == c);
                assert(s.drop_last().contains(c));
                let k = choose|k: int| 0 <= k < ed.len() && ed[k] == c;
                assert(e[k] == c);
                assert(e.contains(c));
            } else {
                assert(c == s.last());
                assert(e[e.len() - 1] == c);
                assert(e.contains(c));
            }
        }
    }
}

/// Builds the extra-character set from raw input, discarding every character
/// the ideographic range already accepts.
#[verifier::loop_isolation(false)]
pub fn get_extra(input: &Vec<char>) -> (r: Vec<char>)
    ensures
        r@ == spec_extra_set(input@),
{
    let mut r: Vec<char> = Vec::new();
    let mut i: usize = 0;
    proof {
        assert(r@ =~= spec_extra_set(input@.take(0)));
    }
    while i < input.len()
        invariant
            i <= input@.len(),
            r@ == spec_extra_set(input@.take(i as int)),
        decreases input@.len() - i,
    {
        let c = input[i];
        let u = c as u32;
        proof {
            assert(input@.take(i as int + 1).drop_last() =~= input@.take(i as int));
            assert(input@.take(i as int + 1).last() == input@[i as int]);
        }
        if !(crate::accept::IDEO_LOW < u && u < crate::accept::IDEO_HIGH) {
            r.push(c);
            proof {
                assert(r@ =~= spec_extra_set(input@.take(i as int)) + seq![input@[i as int]]);
            }
        } else {
            proof {
                assert(r@ =~= spec_extra_set(input@.take(i as int)) + Seq::<char>::empty());
            }
        }
        i = i + 1;
    }
    proof {
        assert(input@.take(input@.len() as int) =~= input@);
    }
    r
}

/// Assembles a run's configuration from raw inputs: the group width `n`
/// (positive, default two), the threshold (zero allowed, default one), and
/// the extra-character set.
pub fn get(n_input: &Vec<char>, threshold_input: &Vec<char>, extra_input: &Vec<char>) -> (r: (
    usize,
    usize,
    Vec<char>,
))
    ensures
        r.0 == spec_value_with_default(n_input@, false, 2),
        r.0 >= 1,
        r.1 == spec_value_with_default(threshold_input@, true, 1),
        r.2@ == spec_extra_set(extra_input@),
{
    let n = value_with_default(n_input, false, 2);
    let threshold = value_with_default(threshold_input, true, 1);
    let extra = get_extra(extra_input);
    (n, threshold, extra)
}

} // verus!

//! ASCII decimal digits and the value of a digit run, with the one executable
//! routine that reads such a run out of a byte slice.

use vstd::prelude::*;

verus! {

/// An ASCII decimal digit `'0'..='9'`.
pub open spec fn is_digit(c: u8) -> bool {
    48 <= c <= 57
}

/// The numeric value of one digit byte.
pub open spec fn digit_val(c: u8) -> int {
    c - 48
}

/// The base-10 value of a run of digit bytes, most significant first.
pub open spec fn num_val(s: Seq<u8>) -> int
    decreases s.len(),
{
    if s.len() == 0 {
        0
    } else {
        num_val(s.drop_last()) * 10 + digit_val(s.last())
    }
}

/// Every byte of `s` is a decimal digit.
pub open spec fn all_digits(s: Seq<u8>) -> bool {
    forall|j: int| 0 <= j < s.len() ==> is_digit(#[trigger] s[j])
}

/// Ten to the power `n`.
pub open spec fn pow10(n: nat) -> int
    decreases n,
{
    if n == 0 {
        1
    } else {
        10 * pow10((n - 1) as nat)
    }
}

/// The value of a run of `n` digits lies in `[0, 10^n)`.
pub proof fn lemma_num_val_bounds(s: Seq<u8>)
    requires
        all_digits(s),
    ensures
        0 <= num_val(s) < pow10(s.len()),
    decreases s.len(),
{
    if s.len() > 0 {
        assert(all_digits(s.drop_last()));
        lemma_num_val_bounds(s.drop_last());
    }
}

/// Extending a digit run to the right never decreases its value.
pub proof fn lemma_num_val_prefix_le(s: Seq<u8>, i: int)
    requires
        0 <= i <= s.len(),
        all_digits(s),
    ensures
        num_val(s.take(i)) <= num_val(s),
    decreases s.len() - i,
{
    if i < s.len() {
        assert(s.take(i + 1).drop_last() =~= s.take(i));
        assert(all_digits(s.take(i)));
        lemma_num_val_bounds(s.take(i));
        assert(num_val(s.take(i + 1)) == num_val(s.take(i)) * 10 + digit_val(s[i]));
        lemma_num_val_prefix_le(s, i + 1);
    } else {
        assert(s.take(i) =~= s);
    }
}

/// A non-empty run of digits: the shape of one numeric token.
pub open spec fn valid_token(t: Seq<u8>) -> bool {
    t.len() > 0 && all_digits(t)
}

/// A token that can be carried as a `u64`.
pub open spec fn token_good(t: Seq<u8>) -> bool {
    valid_token(t) && num_val(t) <= u64::MAX
}

/// Reads the decimal number written at `s[start..end]`. Returns its value
/// exactly when that range is a non-empty all-digit run whose value fits in
/// `u64`.
pub fn token_value(s: &[u8], start: usize, end: usize) -> (r: Option<u64>)
    requires
        start <= end <= s@.len(),
    ensures
        r is Some <==> token_good(s@.subrange(start as int, end as int)),
        r is Some ==> r->0 == num_val(s@.subrange(start as int, end as int)),
{
    let ghost t = s@.subrange(start as int, end as int);
    if start == end {
        return None;
    }
    let mut val: u64 = 0;
    let mut k: usize = start;
    while k < end
        invariant
            start <= k <= end <= s@.len(),
            t == s@.subrange(start as int, end as int),
            all_digits(t.take(k - start)),
            val == num_val(t.take(k - start)),
        decreases end - k,
    {
        let c = s[k];
        if c < 48 || c > 57 {
            assert(!is_digit(t[k - start]));
            return None;
        }
        proof {
            assert(t.take(k - start + 1).drop_last() =~= t.take(k - start));
            assert(t.take(k - start + 1).last() == t[k - start]);
        }
        let m = match val.checked_mul(10) {
            Some(m) => m,
            None => {
                proof {
                    lemma_num_val_bounds(t.take(k - start));
                    assert(num_val(t.take(k - start + 1)) > u64::MAX);
                    if all_digits(t) {
                        lemma_num_val_prefix_le(t, k - start + 1);
                    }
                }
                return None;
            },
        };
        let v2 = match m.checked_add((c - 48) as u64) {
            Some(v2) => v2,
            None => {
                proof {
                    assert(num_val(t.take(k - start + 1)) > u64::MAX);
                    if all_digits(t) {
                        lemma_num_val_prefix_le(t, k - start + 1);
                    }
                }
                return None;
            },
        };
        val = v2;
        k = k + 1;
    }
    proof {
        assert(t.take(end - start) =~= t);
    }
    Some(val)
}

} // verus!

//! A trial-division primality scan over machine integers, and the string
//! conversion its console front end leans on.

use vstd::prelude::*;
use vstd::arithmetic::div_mod::{
    lemma_fundamental_div_mod,
    lemma_mod_multiples_vanish,
};
use crate::num::{dec_parse, dec_valid, lemma_dec_parse_complete, parse_sign_mag, signed_val,
    IntParseError};

verus! {

/// Primality in the usual sense.
pub open spec fn spec_is_prime(n: int) -> bool {
    2 <= n && forall|d: int| 2 <= d < n ==> #[trigger] (n % d) != 0
}

/// What the scan answers for every input: true primality from two upward,
/// and the scan's own small-input quirks below — one passes, and a negative
/// or zero input is answered by its parity alone.
pub open spec fn spec_prime_verdict(i: int) -> bool {
    if i == 1 {
        true
    } else if i <= 0 {
        i % 2 != 0
    } else {
        spec_is_prime(i)
    }
}

/// An odd composite has an odd proper divisor below half of it.
proof fn lemma_odd_composite_small_divisor(v: int)
    requires
        3 <= v,
        v % 2 == 1,
        !spec_is_prime(v),
    ensures
        exists|d: int| 3 <= d < v / 2 && #[trigger] (v % d) == 0 && d % 2 == 1,
{
    assert(exists|d: int| 2 <= d < v && #[trigger] (v % d) == 0);
    let d0 = choose|d: int| 2 <= d < v && #[trigger] (v % d) == 0;
    assert(2 <= d0 < v && v % d0 == 0);
    lemma_fundamental_div_mod(v, d0);
    let q = v / d0;
    assert(v == d0 * q);
    // A divisor of an odd number is odd, and so is its cofactor.
    assert(d0 % 2 == 1) by {
        if d0 % 2 == 0 {
            lemma_fundamental_div_mod(d0, 2);
            assert(v == 2 * ((d0 / 2) * q)) by (nonlinear_arith)
                requires
                    v == d0 * q,
                    d0 == 2 * (d0 / 2),
            ;
            lemma_mod_multiples_vanish((d0 / 2) * q, 0, 2);
        }
    }
    assert(q >= 2) by (nonlinear_arith)
        requires
            v == d0 * q,
            2 <= d0 < v,
            3 <= v,
    ;
    assert(q < v) by (nonlinear_arith)
        requires
            v == d0 * q,
            2 <= d0,
            3 <= v,
            q >= 2,
    ;
    assert(q % 2 == 1) by {
        if q % 2 == 0 {
            lemma_fundamental_div_mod(q, 2);
            assert(v == 2 * ((q / 2) * d0)) by (nonlinear_arith)
                requires
                    v == d0 * q,
                    q == 2 * (q / 2),
            ;
            lemma_mod_multiples_vanish((q / 2) * d0, 0, 2);
        }
    }
    // The smaller of the pair is at most the square root, hence below v / 2.
    let e = if d0 <= q {
        d0
    } else {
        q
    };
    assert(v % e == 0) by {
        if d0 <= q {
        } else {
            assert(v == q * d0) by (nonlinear_arith)
                requires
                    v == d0 * q,
            ;
            lemma_fundamental_div_mod(v, q);
            assert(v % q == v - q * (v / q));
            assert(v % q < q);
            assert(v % q == 0) by (nonlinear_arith)
                requires
                    v == q * d0,
                    0 <= v % q < q,
                    v % q == v - q * (v / q),
                    q >= 2,
            ;
        }
    }
    assert(e * e <= v) by (nonlinear_arith)
        requires
            v == d0 * q,
            2 <= d0,
            2 <= q,
            e == if d0 <= q {
                d0
            } else {
                q
            },
    ;
    assert(3 <= e);
    assert(3 * e <= e * e) by (nonlinear_arith)
        requires
            3 <= e,
    ;
    assert(e < v / 2) by {
        assert(2 * e <= v - e);
        assert(v - e <= v - 3);
        lemma_fundamental_div_mod(v, 2);
        assert(2 * (v / 2) == v - 1);
        assert(2 * e <= 2 * (v / 2) - 2);
    }
    assert(3 <= e < v / 2 && v % e == 0 && e % 2 == 1);
}

proof fn lemma_even_divisor(v: int)
    requires
        2 <= v,
        v % 2 == 0,
        v != 2,
    ensures
        !spec_is_prime(v),
{
    assert(2 <= 2 < v);
    assert(v % 2 == 0);
}

/// Trial division. From two upward the result is primality itself; one
/// passes, and a number at zero or below passes exactly when it is odd.
pub fn is_prime(i: &i32) -> (r: bool)
    ensures
        r == spec_prime_verdict(*i as int),
{
    let v = *i;
    let vi = v as i64;
    // Parity through the magnitude, to divide nonnegative numbers only.
    let m: u32 = if v >= 0 {
        v as u32
    } else {
        (-(vi)) as u32
    };
    proof {
        if v < 0 {
            assert(m as int == -(v as int));
            lemma_mod_multiples_vanish(v as int, -(v as int), 2);
            assert((2 * (v as int) + -(v as int)) % 2 == (-(v as int)) % 2);
        }
    }
    let even = m % 2 == 0;
    if even && v != 2 {
        proof {
            if v as int >= 2 {
                lemma_even_divisor(v as int);
            }
        }
        return false;
    }
    if v < 3 {
        // Two passes here; so do one and the odd numbers below one.
        return true;
    }
    // v is odd and at least three.
    let max = v / 2;
    let mut x: i32 = 3;
    while x < max
        invariant
            v == *i,
            3 <= x,
            x % 2 == 1,
            3 <= v,
            v as int % 2 == 1,
            max as int == v as int / 2,
            max <= v,
            forall|d: int| 3 <= d < x && d % 2 == 1 ==> #[trigger] (v as int % d) != 0,
        decreases max + 2 - x,
    {
        let curr = v / x;
        proof {
            assert(curr as int == v as int / x as int);
            lemma_fundamental_div_mod(v as int, x as int);
            assert((v as int % x as int) < (x as int));
            assert((x as int) * (v as int / x as int) <= (v as int));
        }
        if curr * x == v {
            proof {
                assert(v as int % x as int == 0);
                assert(2 <= (x as int) && (x as int) < (v as int));
                assert(!spec_is_prime(v as int));
            }
            return false;
        }
        x += 2;
    }
    proof {
        if !spec_is_prime(v as int) {
            lemma_odd_composite_small_divisor(v as int);
        }
    }
    true
}

/// The scan's verdict for each entry, in order.
pub fn vect_prime_int_to_bool(vec: &Vec<i32>) -> (r: Vec<bool>)
    ensures
        r@.len() == vec@.len(),
        forall|j: int| 0 <= j < vec@.len() ==> r@[j] == spec_prime_verdict(vec@[j] as int),
{
    let mut x: Vec<bool> = Vec::new();
    let n = vec.len();
    let mut k: usize = 0;
    while k < n
        invariant
            0 <= k <= n,
            n == vec@.len(),
            x@.len() == k,
            forall|j: int| 0 <= j < k ==> x@[j] == spec_prime_verdict(vec@[j] as int),
        decreases n - k,
    {
        x.push(is_prime(&vec[k]));
        k += 1;
    }
    x
}

/// Parses a decimal `i32`, accepting exactly what `dec_valid` admits for the
/// type's range and reporting the first offence otherwise.
pub fn convert_to_integer(to_parse: &str) -> (r: Result<i32, IntParseError>)
    ensures
        r is Ok <==> dec_valid(to_parse@, i32::MIN as int, i32::MAX as int),
        r matches Ok(v) ==> v as int == signed_val(to_parse@),
        r matches Err(e) ==> dec_parse(to_parse@, i32::MIN as int, i32::MAX as int) == Err::<
            int,
            IntParseError,
        >(e),
{
    proof {
        lemma_dec_parse_complete(to_parse@, i32::MIN as int, i32::MAX as int);
    }
    match parse_sign_mag(to_parse, 2147483648, 2147483647) {
        Ok((neg, v)) => {
            if neg {
                if v == 2147483648 {
                    Ok(i32::MIN)
                } else {
                    Ok(-(v as i32))
                }
            } else {
                Ok(v as i32)
            }
        },
        Err(e) => Err(e),
    }
}

} // verus!

use vstd::prelude::*;

verus! {

/// The largest number of samples that the statistics and the rank labels are
/// computed for: a rank must fit a coordinate.
pub const MAX_SAMPLES: usize = 0x7fff_ffff;

/// The sum of the values.
pub open spec fn sum(values: Seq<i32>) -> int
    decreases values.len(),
{
    if values.len() == 0 {
        0
    } else {
        sum(values.drop_last()) + values.last()
    }
}

/// The sum of the squares of the values.
pub open spec fn sum_squares(values: Seq<i32>) -> int
    decreases values.len(),
{
    if values.len() == 0 {
        0
    } else {
        sum_squares(values.drop_last()) + values.last() * values.last()
    }
}

/// The variance of the values, multiplied by the square of their number:
/// `n * sum(v^2) - sum(v)^2`. Among sequences of one length it orders as the
/// variance does, and it is an integer.
pub open spec fn scaled_variance(values: Seq<i32>) -> int {
    values.len() * sum_squares(values) - sum(values) * sum(values)
}

/// Computes the scaled variance of `values`.
pub fn variance(values: &Vec<i32>) -> (v: i128)
    requires
        values@.len() <= MAX_SAMPLES,
    ensures
        v == scaled_variance(values@),
{
    let n = values.len();
    let mut s: i128 = 0;
    let mut q: i128 = 0;
    let mut i: usize = 0;
    while i < n
        invariant
            n == values@.len(),
            n <= MAX_SAMPLES,
            i <= n,
            s == sum(values@.take(i as int)),
            q == sum_squares(values@.take(i as int)),
            -(i * 0x8000_0000) <= s <= i * 0x8000_0000,
            0 <= q <= i * 0x4000_0000_0000_0000,
        decreases n - i,
    {
        let x: i128 = values[i] as i128;
        proof {
            assert(values@.take(i as int + 1).drop_last() =~= values@.take(i as int));
            assert(0 <= x * x <= 0x4000_0000_0000_0000) by (nonlinear_arith)
                requires
                    -0x8000_0000 <= x <= 0x8000_0000,
            ;
        }
        s = s + x;
        q = q + x * x;
        i += 1;
    }
    proof {
        assert(values@.take(n as int) =~= values@);
        assert(0 <= n * q <= 0x8000_0000 * 0x2000_0000_0000_0000_0000_0000) by (nonlinear_arith)
            requires
                0 <= n <= 0x8000_0000,
                0 <= q <= n * 0x4000_0000_0000_0000,
        ;
        assert(0 <= s * s <= 0x4000_0000_0000_0000 * 0x4000_0000_0000_0000) by (nonlinear_arith)
            requires
                0 <= n <= 0x8000_0000,
                -(n * 0x8000_0000) <= s <= n * 0x8000_0000,
        ;
    }
    (n as i128) * q - s * s
}

} // verus!

use vstd::prelude::*;

verus! {

/// Whether `n` is the cube of a non-negative integer.
pub open spec fn is_cube(n: int) -> bool {
    exists|k: int| k >= 0 && #[trigger] (k * k * k) == n
}

proof fn lemma_cube_monotone(a: int, b: int)
    requires
        0 <= a < b,
    ensures
        a * a * a < b * b * b,
{
    assert(a * a <= a * b) by (nonlinear_arith)
        requires
            0 <= a < b,
    ;
    assert(a * b < b * b) by (nonlinear_arith)
        requires
            0 <= a < b,
    ;
    assert(a * a * a <= a * a * b) by (nonlinear_arith)
        requires
            0 <= a < b,
    ;
    assert(a * a * b < b * b * b) by (nonlinear_arith)
        requires
            0 <= a < b,
            a * a < b * b,
    ;
}

proof fn lemma_cube_at_least(k: int)
    requires
        k >= 1,
    ensures
        k * k * k >= k,
{
    assert(k * k * k >= k) by (nonlinear_arith)
        requires
            k >= 1,
    ;
}

/// The least integer whose cube exceeds every `i64`.
const CUBE_ROOT_BOUND: i64 = 2097152;

/// Whether `n` is the cube of a non-negative integer, by binary search on the
/// root. Negative numbers are never reported as cubes.
pub fn perfect_cube_binary_search(n: i64) -> (r: bool)
    ensures
        r == is_cube(n as int),
{
    if n < 0 {
        assert forall|k: int| k >= 0 implies #[trigger] (k * k * k) != n by {
            assert(k * k * k >= 0) by (nonlinear_arith)
                requires
                    k >= 0,
            ;
        }
        return false;
    }
    let mut left: i64 = 0;
    let mut right: i64 = if n < CUBE_ROOT_BOUND {
        n
    } else {
        CUBE_ROOT_BOUND
    };
    proof {
        assert forall|k: int| k > right implies #[trigger] (k * k * k) > n by {
            if right == n {
                lemma_cube_at_least(k);
            } else {
                lemma_cube_monotone(CUBE_ROOT_BOUND as int, k);
                assert(2097152int * 2097152int * 2097152int == 0x8000000000000000int);
            }
        }
    }
    while left <= right
        invariant
            0 <= left,
            right <= CUBE_ROOT_BOUND,
            left <= right + 1,
            forall|k: int| 0 <= k < left ==> #[trigger] (k * k * k) < n,
            forall|k: int| k > right ==> #[trigger] (k * k * k) > n,
        decreases right - left + 1,
    {
        let mid = left + (right - left) / 2;
        assert(0 <= mid * mid <= CUBE_ROOT_BOUND * CUBE_ROOT_BOUND) by (nonlinear_arith)
            requires
                0 <= mid <= CUBE_ROOT_BOUND,
        ;
        assert(0 <= mid * mid * mid <= CUBE_ROOT_BOUND * CUBE_ROOT_BOUND * CUBE_ROOT_BOUND)
            by (nonlinear_arith)
            requires
                0 <= mid <= CUBE_ROOT_BOUND,
                0 <= mid * mid <= CUBE_ROOT_BOUND * CUBE_ROOT_BOUND,
        ;
        let wide: i128 = mid as i128;
        let cube: i128 = wide * wide * wide;
        if cube == n as i128 {
            return true;
        } else if cube < n as i128 {
            proof {
                assert forall|k: int| 0 <= k < mid + 1 implies #[trigger] (k * k * k) < n by {
                    if k < mid {
                        lemma_cube_monotone(k, mid as int);
                    }
                }
            }
            left = mid + 1;
        } else {
            proof {
                assert forall|k: int| k > mid - 1 implies #[trigger] (k * k * k) > n by {
                    if k > mid {
                        lemma_cube_monotone(mid as int, k);
                    }
                }
            }
            right = mid - 1;
        }
    }
    assert forall|k: int| k >= 0 implies #[trigger] (k * k * k) != n by {
        if k < left {
        } else {
            assert(k > right);
        }
    }
    false
}

} // verus!

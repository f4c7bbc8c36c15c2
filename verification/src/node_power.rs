//! The node power of the boundary between two adjacent runs: the depth at
//! which the midpoints of the runs part in a balanced merge tree over the
//! whole sequence.

use vstd::prelude::*;
use vstd::arithmetic::div_mod::{
    lemma_div_is_ordered,
    lemma_fundamental_div_mod,
    lemma_fundamental_div_mod_converse,
};
use vstd::arithmetic::power::{
    lemma_pow0,
    lemma_pow_adds,
    lemma_pow_multiplies,
    lemma_pow_positive,
    pow,
};
use vstd::arithmetic::power2::{lemma2_to64, lemma_pow2, pow2};
use core::ops::Range;

verus! {

/// The subtree at `depth` of a `k`-ary tree over `0..n` into which the point
/// `x / 2` falls, counted from the left.
pub open spec fn bucket(k: nat, n: nat, x: nat, depth: nat) -> int {
    (x * pow(k as int, depth)) / (2 * n) as int
}

/// Twice the midpoint of a run.
pub open spec fn twice_midpoint(run: Range<usize>) -> nat {
    (run.start + run.end) as nat
}

/// Two runs that are not empty, the second of which starts where the first
/// ends, in a sequence of `n` elements.
pub open spec fn adjacent_runs(n: nat, run_a: Range<usize>, run_b: Range<usize>) -> bool {
    run_a.start < run_a.end == run_b.start < run_b.end <= n
}

/// `power` is the least depth, from 1 on, at which the points `l2 / 2` and
/// `r2 / 2` fall into different subtrees.
pub open spec fn is_node_power(k: nat, n: nat, l2: nat, r2: nat, power: nat) -> bool {
    &&& power >= 1
    &&& bucket(k, n, l2, power) < bucket(k, n, r2, power)
    &&& forall|q: nat| q < power ==> #[trigger] bucket(k, n, l2, q) == bucket(k, n, r2, q)
}

/// The next depth multiplies by `k`.
pub proof fn lemma_bucket_step(k: nat, n: nat, x: nat, depth: nat)
    ensures
        x * pow(k as int, depth + 1) == (x * pow(k as int, depth)) * k,
        x * pow(k as int, depth) >= 0,
        depth == 0 ==> x * pow(k as int, depth) == x,
{
    reveal(pow);
    lemma_pow0(k as int);
    if k > 0 {
        lemma_pow_positive(k as int, depth);
        assert(x * pow(k as int, depth) >= 0) by (nonlinear_arith)
            requires
                x >= 0,
                pow(k as int, depth) > 0,
        ;
    } else {
        if depth > 0 {
            vstd::arithmetic::power::lemma0_pow(depth);
            assert(x * pow(k as int, depth) == 0) by (nonlinear_arith)
                requires
                    pow(k as int, depth) == 0,
            ;
        }
    }
    assert(pow(k as int, depth + 1) == k * pow(k as int, depth));
    assert(x * (k * pow(k as int, depth)) == (x * pow(k as int, depth)) * k) by (nonlinear_arith);
}

/// A point further right falls into no subtree further left.
pub proof fn lemma_bucket_monotone(k: nat, n: nat, x: nat, y: nat, depth: nat)
    requires
        n > 0,
        k > 0,
        x <= y,
    ensures
        bucket(k, n, x, depth) <= bucket(k, n, y, depth),
{
    lemma_pow_positive(k as int, depth);
    let p = pow(k as int, depth);
    assert(x * p <= y * p) by (nonlinear_arith)
        requires
            x <= y,
            p > 0,
    ;
    lemma_bucket_step(k, n, x, depth);
    lemma_div_is_ordered(x * p, y * p, (2 * n) as int);
}

/// Whole multiples: what lies a subtree apart stays a subtree apart when
/// both are multiplied.
proof fn lemma_scaled_apart(u: int, v: int, d: int, k: int)
    requires
        0 <= u,
        0 <= v,
        d > 0,
        k > 0,
        u / d < v / d,
    ensures
        (u * k) / d < (v * k) / d,
{
    let q = u / d;
    lemma_fundamental_div_mod(u, d);
    lemma_fundamental_div_mod(v, d);
    // u < (q + 1) * d <= v
    assert(v >= (q + 1) * d) by (nonlinear_arith)
        requires
            v == d * (v / d) + v % d,
            v % d >= 0,
            v / d >= q + 1,
            d > 0,
    ;
    assert(u < (q + 1) * d) by (nonlinear_arith)
        requires
            u == d * q + u % d,
            u % d < d,
    ;
    assert(v * k >= ((q + 1) * k) * d) by (nonlinear_arith)
        requires
            v >= (q + 1) * d,
            k > 0,
    ;
    assert(u * k < ((q + 1) * k) * d) by (nonlinear_arith)
        requires
            u < (q + 1) * d,
            k > 0,
    ;
    lemma_fundamental_div_mod(u * k, d);
    lemma_fundamental_div_mod(v * k, d);
    let qu = (u * k) / d;
    let qv = (v * k) / d;
    assert(qu < (q + 1) * k) by (nonlinear_arith)
        requires
            u * k == d * qu + (u * k) % d,
            (u * k) % d >= 0,
            u * k < ((q + 1) * k) * d,
            d > 0,
    ;
    assert(qv >= (q + 1) * k) by (nonlinear_arith)
        requires
            v * k == d * qv + (v * k) % d,
            (v * k) % d < d,
            v * k >= ((q + 1) * k) * d,
            d > 0,
    ;
}

/// Points in different subtrees stay in different subtrees further down.
pub proof fn lemma_bucket_apart(k: nat, n: nat, x: nat, y: nat, depth: nat, deeper: nat)
    requires
        n > 0,
        k > 0,
        depth <= deeper,
        bucket(k, n, x, depth) < bucket(k, n, y, depth),
    ensures
        bucket(k, n, x, deeper) < bucket(k, n, y, deeper),
    decreases deeper - depth,
{
    if depth < deeper {
        lemma_bucket_step(k, n, x, depth);
        lemma_bucket_step(k, n, y, depth);
        lemma_scaled_apart(
            x * pow(k as int, depth),
            y * pow(k as int, depth),
            (2 * n) as int,
            k as int,
        );
        lemma_bucket_apart(k, n, x, y, depth + 1, deeper);
    }
}

/// Points in one subtree are in one subtree further up.
pub proof fn lemma_bucket_together(k: nat, n: nat, x: nat, y: nat, depth: nat, higher: nat)
    requires
        n > 0,
        k > 0,
        x <= y,
        higher <= depth,
        bucket(k, n, x, depth) == bucket(k, n, y, depth),
    ensures
        bucket(k, n, x, higher) == bucket(k, n, y, higher),
{
    lemma_bucket_monotone(k, n, x, y, higher);
    if bucket(k, n, x, higher) < bucket(k, n, y, higher) {
        lemma_bucket_apart(k, n, x, y, higher, depth);
    }
}

/// Two boundaries have one node power: whatever computes it returns the same
/// number.
pub proof fn lemma_node_power_unique(k: nat, n: nat, l2: nat, r2: nat, p: nat, q: nat)
    requires
        is_node_power(k, n, l2, r2, p),
        is_node_power(k, n, l2, r2, q),
    ensures
        p == q,
{
    if p < q {
        assert(bucket(k, n, l2, p) == bucket(k, n, r2, p));
    }
    if q < p {
        assert(bucket(k, n, l2, q) == bucket(k, n, r2, q));
    }
}

/// A depth at which the points part, behind one at which they do not, is
/// the node power.
pub proof fn lemma_node_power_found(k: nat, n: nat, l2: nat, r2: nat, power: nat)
    requires
        n > 0,
        k > 0,
        l2 <= r2,
        power >= 1,
        bucket(k, n, l2, (power - 1) as nat) == bucket(k, n, r2, (power - 1) as nat),
        bucket(k, n, l2, power) != bucket(k, n, r2, power),
    ensures
        is_node_power(k, n, l2, r2, power),
{
    lemma_bucket_monotone(k, n, l2, r2, power);
    assert forall|q: nat| q < power implies #[trigger] bucket(k, n, l2, q) == bucket(
        k,
        n,
        r2,
        q,
    ) by {
        lemma_bucket_together(k, n, l2, r2, (power - 1) as nat, q);
    }
}

/// One level down, a subtree splits into `k` subtrees.
pub proof fn lemma_bucket_children(k: nat, n: nat, x: nat, depth: nat)
    requires
        n > 0,
        k > 0,
    ensures
        k * bucket(k, n, x, depth) <= bucket(k, n, x, depth + 1) <= k * bucket(k, n, x, depth) + k
            - 1,
{
    lemma_bucket_step(k, n, x, depth);
    let y = x * pow(k as int, depth);
    let d = (2 * n) as int;
    let q = y / d;
    let r = y % d;
    lemma_fundamental_div_mod(y, d);
    lemma_fundamental_div_mod(y * k, d);
    let q2 = (y * k) / d;
    let r2 = (y * k) % d;
    assert(y * k == d * (k * q) + k * r) by (nonlinear_arith)
        requires
            y == d * q + r,
    ;
    assert(k * r <= (k - 1) * d + d - k) by (nonlinear_arith)
        requires
            0 <= r <= d - 1,
            k >= 1,
    ;
    assert(q2 >= k * q) by (nonlinear_arith)
        requires
            d * q2 + r2 == d * (k * q) + k * r,
            0 <= r2 < d,
            0 <= k * r,
            d > 0,
    ;
    assert(q2 <= k * q + k - 1) by (nonlinear_arith)
        requires
            d * q2 + r2 == d * (k * q) + k * r,
            0 <= r2 < d,
            k * r <= (k - 1) * d + d - k,
            k >= 1,
            d > 0,
    ;
}

/// Points in one subtree are less than the width of a subtree apart.
proof fn lemma_same_bucket_close(u: int, v: int, d: int)
    requires
        0 <= u <= v,
        d > 0,
        u / d == v / d,
    ensures
        v - u < d,
{
    lemma_fundamental_div_mod(u, d);
    lemma_fundamental_div_mod(v, d);
    assert(v - u == v % d - u % d) by (nonlinear_arith)
        requires
            u == d * (u / d) + u % d,
            v == d * (v / d) + v % d,
            u / d == v / d,
    ;
}

/// The node power is bounded by the logarithm of the length: the runs are
/// at least one element apart at their midpoints, and so the points part
/// before the subtrees are narrower than an element.
pub proof fn lemma_node_power_bound(k: nat, n: nat, l2: nat, r2: nat, power: nat)
    requires
        n > 0,
        k > 0,
        l2 + 2 <= r2,
        is_node_power(k, n, l2, r2, power),
    ensures
        pow(k as int, (power - 1) as nat) < n,
{
    let d = (power - 1) as nat;
    let p = pow(k as int, d);
    lemma_pow_positive(k as int, d);
    lemma_bucket_step(k, n, l2, d);
    lemma_bucket_step(k, n, r2, d);
    assert(bucket(k, n, l2, d) == bucket(k, n, r2, d));
    assert(l2 * p <= r2 * p) by (nonlinear_arith)
        requires
            l2 <= r2,
            p > 0,
    ;
    lemma_same_bucket_close(l2 * p, r2 * p, (2 * n) as int);
    assert(r2 * p - l2 * p >= 2 * p) by (nonlinear_arith)
        requires
            l2 + 2 <= r2,
            p > 0,
    ;
}

/// The boundaries on both sides of a run have different node powers in a
/// binary tree: three points cannot part pairwise at one depth.
pub proof fn lemma_neighbour_powers_differ(
    n: nat,
    x2: nat,
    a2: nat,
    b2: nat,
    p: nat,
    q: nat,
)
    requires
        n > 0,
        x2 <= a2 <= b2,
        is_node_power(2, n, x2, a2, p),
        is_node_power(2, n, a2, b2, q),
    ensures
        p != q,
{
    if p == q {
        let d = (p - 1) as nat;
        assert(bucket(2, n, x2, d) == bucket(2, n, a2, d));
        assert(bucket(2, n, a2, d) == bucket(2, n, b2, d));
        lemma_bucket_children(2, n, x2, d);
        lemma_bucket_children(2, n, a2, d);
        lemma_bucket_children(2, n, b2, d);
    }
}

/// A way to compute node powers in a `K`-ary merge tree.
pub trait NodePowerMethod<const K: usize> {
    /// Whether this method computes the node powers of a sequence of `n`
    /// elements: `K` is one that it handles, and its arithmetic has room.
    /// A method that does not say so computes none.
    open spec fn valid(n: nat) -> bool {
        false
    }

    /// The greatest length for which this method computes node powers, and 0
    /// where it does not handle `K` at all.
    fn max_n() -> (r: usize)
        ensures
            Self::valid(0) ==> forall|n: nat| n <= r ==> Self::valid(n),
            Self::valid(0) && r < usize::MAX ==> !Self::valid((r + 1) as nat),
            !Self::valid(0) ==> r == 0,
    ;

    /// The node power of the boundary between the adjacent runs `run_a` and
    /// `run_b` in a sequence of `n` elements.
    fn node_power(n: usize, run_a: Range<usize>, run_b: Range<usize>) -> (power: usize)
        requires
            Self::valid(n as nat),
            adjacent_runs(n as nat, run_a, run_b),
        ensures
            is_node_power(
                K as nat,
                n as nat,
                twice_midpoint(run_a),
                twice_midpoint(run_b),
                power as nat,
            ),
    ;
}

/// The products of the division loop have room: four times `k` times the
/// square of `n` is a `usize`.
pub open spec fn fits_squared(k: nat, n: nat) -> bool {
    4 * k * n * n <= usize::MAX
}

/// A number from 1 on is not above a quotient by it where its square is not
/// above the dividend, and only there.
proof fn lemma_square_below(c: int, limit: int)
    requires
        c >= 1,
        limit >= 0,
    ensures
        (c <= limit / c) == (c * c <= limit),
{
    lemma_fundamental_div_mod(limit, c);
    let q = limit / c;
    let r = limit % c;
    if c <= q {
        assert(c * c <= limit) by (nonlinear_arith)
            requires
                limit == c * q + r,
                r >= 0,
                c <= q,
                c >= 1,
        ;
    } else {
        assert(c * c > limit) by (nonlinear_arith)
            requires
                limit == c * q + r,
                r < c,
                q + 1 <= c,
                c >= 1,
        ;
    }
}

/// The square root of `limit`, rounded down.
pub fn isqrt(limit: usize) -> (r: usize)
    ensures
        r * r <= limit < (r + 1) * (r + 1),
{
    // a power of two whose square is above the limit
    let mut width: usize = 1;
    while width <= limit / width
        invariant
            width >= 1,
            power_of_two(width as nat),
            width == 1 || (width / 2) * (width / 2) <= limit,
        decreases limit + 1 - width,
    {
        proof {
            lemma_square_below(width as int, limit as int);
            assert(2 * width <= limit || width == 1) by (nonlinear_arith)
                requires
                    width * width <= limit,
                    width >= 1,
            ;
            assert((2 * width) / 2 == width);
        }
        width = 2 * width;
    }
    proof {
        lemma_square_below(width as int, limit as int);
    }
    // the bits of the root, from the first on
    let mut r: usize = 0;
    let ghost top = width;
    while width > 1
        invariant
            width >= 1,
            power_of_two(width as nat),
            r + width <= top,
            r * r <= limit < (r + width) * (r + width),
        decreases width,
    {
        let step: usize = width / 2;
        let candidate: usize = r + step;
        proof {
            lemma_square_below(candidate as int, limit as int);
        }
        if candidate <= limit / candidate {
            r = candidate;
        }
        width = step;
    }
    r
}

/// Node powers by multiplying both midpoints by `K` until they part.
#[derive(Debug, Clone, Copy)]
pub struct DivisionLoop;

impl<const K: usize> NodePowerMethod<K> for DivisionLoop {
    open spec fn valid(n: nat) -> bool {
        K >= 2 && fits_squared(K as nat, n)
    }

    fn max_n() -> (r: usize) {
        if K < 2 {
            return 0;
        }
        let limit: usize = usize::MAX / 4 / K;
        let r: usize = isqrt(limit);
        proof {
            let most = usize::MAX as int;
            let divisor = 4 * K;
            let rest = most % divisor;
            vstd::arithmetic::div_mod::lemma_div_denominator(most, 4, K as int);
            vstd::arithmetic::div_mod::lemma_fundamental_div_mod(most, divisor);
            assert(limit == most / divisor);
            assert forall|n: nat| n <= r implies <Self as NodePowerMethod<K>>::valid(n) by {
                assert(n * n <= r * r) by (nonlinear_arith)
                    requires
                        0 <= n <= r,
                ;
                assert(4 * K * n * n <= most) by (nonlinear_arith)
                    requires
                        n * n <= limit,
                        most == divisor * limit + rest,
                        divisor == 4 * K,
                        rest >= 0,
                        K >= 2,
                ;
            }
            assert(4 * K * (r + 1) * (r + 1) > most) by (nonlinear_arith)
                requires
                    (r + 1) * (r + 1) >= limit + 1,
                    most == divisor * limit + rest,
                    divisor == 4 * K,
                    rest < divisor,
                    K >= 2,
            ;
        }
        r
    }

    fn node_power(n: usize, run_a: Range<usize>, run_b: Range<usize>) -> (power: usize) {
        let ghost l2 = twice_midpoint(run_a);
        let ghost r2 = twice_midpoint(run_b);
        assert(4 * (K * n * n) <= usize::MAX && K * n * n >= n * n && n * n >= n) by (nonlinear_arith)
            requires
                4 * K * n * n <= usize::MAX,
                K >= 2,
                n >= 1,
        ;
        let n2: usize = n * 2;
        let mut a: usize = run_a.start + run_a.end;
        let mut b: usize = run_b.start + run_b.end;
        let mut power: usize = 0;
        proof {
            lemma_bucket_step(K as nat, n as nat, l2, 0);
            lemma_bucket_step(K as nat, n as nat, r2, 0);
            vstd::arithmetic::div_mod::lemma_basic_div(a as int, n2 as int);
            vstd::arithmetic::div_mod::lemma_basic_div(b as int, n2 as int);
        }
        while b - a <= n2 && a / n2 == b / n2
            invariant
                K >= 2,
                n > 0,
                n2 == 2 * n,
                4 * (K * n * n) <= usize::MAX,
                l2 + 2 <= r2 < 2 * n,
                a == l2 * pow(K as int, power as nat),
                b == r2 * pow(K as int, power as nat),
                a <= b,
                power < n2,
                forall|q: nat| q < power ==> #[trigger] bucket(K as nat, n as nat, l2, q) == bucket(
                    K as nat,
                    n as nat,
                    r2,
                    q,
                ),
                power == 0 ==> a / n2 == b / n2,
            decreases
                    (if b - a < n2 {
                        n2 - (b - a)
                    } else {
                        0
                    }),
        {
            let ghost p = pow(K as int, power as nat);
            proof {
                lemma_pow_positive(K as int, power as nat);
                lemma_bucket_step(K as nat, n as nat, l2, power as nat);
                lemma_bucket_step(K as nat, n as nat, r2, power as nat);
                lemma_same_bucket_close(a as int, b as int, n2 as int);
                // the power of `K` is below the width, and so the products have room
                assert(b - a >= 2 * p) by (nonlinear_arith)
                    requires
                        a == l2 * p,
                        b == r2 * p,
                        l2 + 2 <= r2,
                        p > 0,
                ;
                assert(b * K <= 4 * (K * n * n)) by (nonlinear_arith)
                    requires
                        b == r2 * p,
                        r2 < 2 * n,
                        0 < p < n,
                        K >= 2,
                ;
                assert(a * K <= b * K) by (nonlinear_arith)
                    requires
                        a <= b,
                        K >= 2,
                ;
                assert((b - a) * K >= 2 * (b - a)) by (nonlinear_arith)
                    requires
                        b - a >= 0,
                        K >= 2,
                ;
                assert(b * K - a * K == (b - a) * K) by (nonlinear_arith);
                lemma_power_below(K as nat, power as nat);
                assert(bucket(K as nat, n as nat, l2, power as nat) == bucket(
                    K as nat,
                    n as nat,
                    r2,
                    power as nat,
                ));
            }
            power += 1;
            a *= K;
            b *= K;
        }
        proof {
            lemma_bucket_step(K as nat, n as nat, l2, power as nat);
            lemma_bucket_step(K as nat, n as nat, r2, power as nat);
            if a / n2 == b / n2 {
                lemma_same_bucket_close(a as int, b as int, n2 as int);
            }
            assert(bucket(K as nat, n as nat, l2, (power - 1) as nat) == bucket(
                K as nat,
                n as nat,
                r2,
                (power - 1) as nat,
            ));
            lemma_node_power_found(K as nat, n as nat, l2, r2, power as nat);
        }
        power
    }
}

/// An exponent is below the power of a base from 2 on.
pub proof fn lemma_power_below(k: nat, e: nat)
    requires
        k >= 2,
    ensures
        e < pow(k as int, e),
    decreases e,
{
    reveal(pow);
    if e > 0 {
        lemma_power_below(k, (e - 1) as nat);
        assert(k * pow(k as int, (e - 1) as nat) >= 2 * pow(k as int, (e - 1) as nat))
            by (nonlinear_arith)
            requires
                k >= 2,
                pow(k as int, (e - 1) as nat) >= 0,
        ;
    }
}

/// `k` is a power of two.
pub open spec fn power_of_two(k: nat) -> bool
    decreases k,
{
    k == 1 || (k > 1 && k % 2 == 0 && power_of_two(k / 2))
}

/// The exponent of the power of two `k`.
pub open spec fn log2_exact(k: nat) -> nat
    decreases k,
{
    if k <= 1 {
        0
    } else {
        1 + log2_exact(k / 2)
    }
}

/// A power of two is two to the power of its exponent.
pub proof fn lemma_log2_exact(k: nat)
    requires
        power_of_two(k),
    ensures
        pow(2, log2_exact(k)) == k,
        k >= 2 ==> log2_exact(k) >= 1,
    decreases k,
{
    reveal(pow);
    if k > 1 {
        lemma_log2_exact(k / 2);
    }
}

/// Whether `k` is a power of two.
pub fn is_power_of_two(k: usize) -> (r: bool)
    ensures
        r == power_of_two(k as nat),
{
    let mut v: usize = k;
    while v > 1 && v % 2 == 0
        invariant
            power_of_two(v as nat) == power_of_two(k as nat),
        decreases v,
    {
        v = v / 2;
    }
    v == 1
}

/// The exponent of the power of two `k`.
fn exact_log2(k: usize) -> (f: usize)
    requires
        power_of_two(k as nat),
    ensures
        f == log2_exact(k as nat),
{
    let mut v: usize = k;
    let mut f: usize = 0;
    while v > 1
        invariant
            power_of_two(v as nat),
            f + log2_exact(v as nat) == log2_exact(k as nat),
            f + v <= k,
        decreases v,
    {
        v = v / 2;
        f += 1;
    }
    f
}

/// The depth in a tree with `2^f` children at each node, from the depth in
/// the binary tree: every `f` levels of the one make a level of the other.
pub proof fn lemma_node_power_coarser(f: nat, n: nat, l2: nat, r2: nat, power: nat)
    requires
        n > 0,
        f >= 1,
        l2 <= r2,
        is_node_power(2, n, l2, r2, power),
    ensures
        is_node_power(pow(2, f) as nat, n, l2, r2, ((power - 1) / (f as int) + 1) as nat),
{
    let k = pow(2, f) as nat;
    lemma_pow_positive(2, f);
    let fi = f as int;
    let p = ((power - 1) / fi + 1) as nat;
    let below = (p - 1) as nat;
    let rest = (power - 1) % fi;
    lemma_fundamental_div_mod(power - 1, fi);
    assert(f * below <= power - 1 < f * p) by (nonlinear_arith)
        requires
            power - 1 == fi * ((power - 1) / fi) + rest,
            0 <= rest < fi,
            below == (power - 1) / fi,
            p == below + 1,
            fi == f,
    ;
    lemma_pow_multiplies(2, f, p);
    lemma_pow_multiplies(2, f, below);
    assert(bucket(k, n, l2, p) == bucket(2, n, l2, f * p));
    assert(bucket(k, n, r2, p) == bucket(2, n, r2, f * p));
    assert(bucket(k, n, l2, below) == bucket(2, n, l2, f * below));
    assert(bucket(k, n, r2, below) == bucket(2, n, r2, f * below));
    lemma_bucket_apart(2, n, l2, r2, power, f * p);
    assert(bucket(2, n, l2, f * below) == bucket(2, n, r2, f * below));
    lemma_node_power_found(k, n, l2, r2, p);
}

/// One more binary digit of a midpoint: the subtree one level down, and what
/// is left of the point in it.
proof fn lemma_next_digit(n: nat, x: nat, depth: nat, rest: int)
    requires
        n > 0,
        0 <= rest < 2 * n,
        x * pow(2, depth) == bucket(2, n, x, depth) * (2 * n) + rest,
    ensures
        bucket(2, n, x, depth + 1) == 2 * bucket(2, n, x, depth) + (if rest >= n {
            1int
        } else {
            0int
        }),
        x * pow(2, depth + 1) == bucket(2, n, x, depth + 1) * (2 * n) + (if rest >= n {
            2 * (rest - n)
        } else {
            2 * rest
        }),
{
    lemma_bucket_step(2, n, x, depth);
    let digit = if rest >= n {
        1int
    } else {
        0int
    };
    let next = 2 * (rest - digit * n);
    let q = 2 * bucket(2, n, x, depth) + digit;
    assert(x * pow(2, depth + 1) == q * (2 * n) + next) by (nonlinear_arith)
        requires
            x * pow(2, depth + 1) == (x * pow(2, depth)) * 2,
            x * pow(2, depth) == bucket(2, n, x, depth) * (2 * n) + rest,
            q == 2 * bucket(2, n, x, depth) + digit,
            next == 2 * (rest - digit * n),
    ;
    lemma_fundamental_div_mod_converse(x * pow(2, depth + 1), (2 * n) as int, q, next);
}

/// Node powers by comparing the binary digits of both midpoints from the
/// first on. For trees whose number of children is a power of two.
#[derive(Debug, Clone, Copy)]
pub struct BitwiseLoop;

impl<const K: usize> NodePowerMethod<K> for BitwiseLoop {
    open spec fn valid(n: nat) -> bool {
        K >= 2 && power_of_two(K as nat) && 2 * n <= usize::MAX + 1
    }

    fn max_n() -> (r: usize) {
        if K < 2 || !is_power_of_two(K) {
            return 0;
        }
        usize::MAX / 2 + 1
    }

    fn node_power(n: usize, run_a: Range<usize>, run_b: Range<usize>) -> (power: usize) {
        let ghost left = twice_midpoint(run_a);
        let ghost right = twice_midpoint(run_b);
        let factor: usize = exact_log2(K);
        let mut l2: usize = run_a.start + run_a.end;
        let mut r2: usize = run_b.start + run_b.end;
        let mut common_bits: usize = 0;
        let mut digit_a: bool = l2 >= n;
        let mut digit_b: bool = r2 >= n;
        proof {
            lemma_log2_exact(K as nat);
            lemma_bucket_step(2, n as nat, left, 0);
            lemma_bucket_step(2, n as nat, right, 0);
            vstd::arithmetic::div_mod::lemma_basic_div(l2 as int, 2 * n);
            vstd::arithmetic::div_mod::lemma_basic_div(r2 as int, 2 * n);
            assert(left * pow(2, 0) == l2);
            assert(right * pow(2, 0) == r2);
            assert(bucket(2, n as nat, left, 0) == 0);
            assert(bucket(2, n as nat, right, 0) == 0);
            lemma_pow0(2);
        }
        while digit_a == digit_b
            invariant
                n > 0,
                2 * n <= usize::MAX + 1,
                left + 2 <= right,
                0 <= l2 <= r2 < 2 * n,
                digit_a == (l2 >= n),
                digit_b == (r2 >= n),
                left * pow(2, common_bits as nat) == bucket(2, n as nat, left, common_bits as nat)
                    * (2 * n) + l2,
                right * pow(2, common_bits as nat) == bucket(
                    2,
                    n as nat,
                    right,
                    common_bits as nat,
                ) * (2 * n) + r2,
                bucket(2, n as nat, left, common_bits as nat) == bucket(
                    2,
                    n as nat,
                    right,
                    common_bits as nat,
                ),
                r2 - l2 >= 2 * pow(2, common_bits as nat),
                common_bits < n,
                factor >= 1,
            decreases 2 * n - (r2 - l2),
        {
            proof {
                lemma_next_digit(n as nat, left, common_bits as nat, l2 as int);
                lemma_next_digit(n as nat, right, common_bits as nat, r2 as int);
                lemma_power_below(2, (common_bits + 1) as nat);
                reveal(pow);
                assert(pow(2, (common_bits + 1) as nat) == 2 * pow(2, common_bits as nat));
            }
            common_bits += 1;
            if digit_a {
                l2 -= n;
                r2 -= n;
            }
            l2 = 2 * l2;
            r2 = 2 * r2;
            digit_a = l2 >= n;
            digit_b = r2 >= n;
        }
        proof {
            lemma_next_digit(n as nat, left, common_bits as nat, l2 as int);
            lemma_next_digit(n as nat, right, common_bits as nat, r2 as int);
            lemma_node_power_found(2, n as nat, left, right, (common_bits + 1) as nat);
            lemma_node_power_coarser(
                factor as nat,
                n as nat,
                left,
                right,
                (common_bits + 1) as nat,
            );
        }
        common_bits / factor + 1
    }
}

/// Dropping the last `s` binary digits of the subtree at depth 31 gives the
/// subtree at depth `31 - s`.
proof fn lemma_shifted_bucket(n: nat, x: nat, s: nat)
    requires
        n > 0,
        s <= 31,
    ensures
        bucket(2, n, x, 31) / (pow2(s) as int) == bucket(2, n, x, (31 - s) as nat),
{
    let d = (31 - s) as nat;
    let u = x * pow(2, d);
    let m = pow2(s) as int;
    let n2 = (2 * n) as int;
    lemma_pow2(s);
    lemma_pow_positive(2, s);
    lemma_pow_adds(2, d, s);
    lemma_bucket_step(2, n, x, d);
    assert(x * pow(2, 31) == m * u) by (nonlinear_arith)
        requires
            pow(2, 31) == pow(2, d) * m,
            u == x * pow(2, d),
    ;
    vstd::arithmetic::div_mod::lemma_div_denominator(m * u, n2, m);
    vstd::arithmetic::div_mod::lemma_div_multiples_vanish_quotient(m, u, n2);
    assert(n2 * m == m * n2) by (nonlinear_arith);
}

/// Node powers by one division each and the position of the first binary
/// digit in which the results differ. For trees whose number of children is
/// a power of two.
#[derive(Debug, Clone, Copy)]
pub struct MostSignificantSetBit;

impl<const K: usize> NodePowerMethod<K> for MostSignificantSetBit {
    open spec fn valid(n: nat) -> bool {
        K >= 2 && power_of_two(K as nat) && n <= 0x8000_0000
    }

    fn max_n() -> (r: usize) {
        if K < 2 || !is_power_of_two(K) {
            return 0;
        }
        0x8000_0000
    }

    fn node_power(n: usize, run_a: Range<usize>, run_b: Range<usize>) -> (power: usize) {
        let ghost left = twice_midpoint(run_a);
        let ghost right = twice_midpoint(run_b);
        let factor: usize = exact_log2(K);
        let l2: u64 = run_a.start as u64 + run_a.end as u64;
        let r2: u64 = run_b.start as u64 + run_b.end as u64;
        proof {
            lemma_log2_exact(K as nat);
            lemma2_to64();
            lemma_pow2(30);
            lemma_pow2(31);
            vstd::bits::lemma_u64_shl_is_mul(l2, 30);
            vstd::bits::lemma_u64_shl_is_mul(r2, 30);
        }
        let a: u64 = (l2 << 30) / (n as u64);
        let b: u64 = (r2 << 30) / (n as u64);
        proof {
            // both are the subtrees at depth 31
            vstd::arithmetic::div_mod::lemma_div_multiples_vanish_quotient(
                2,
                l2 * 0x4000_0000,
                n as int,
            );
            vstd::arithmetic::div_mod::lemma_div_multiples_vanish_quotient(
                2,
                r2 * 0x4000_0000,
                n as int,
            );
            assert(left * pow(2, 31) == 2 * (l2 * 0x4000_0000)) by (nonlinear_arith)
                requires
                    pow(2, 31) == 0x8000_0000,
                    left == l2,
            ;
            assert(right * pow(2, 31) == 2 * (r2 * 0x4000_0000)) by (nonlinear_arith)
                requires
                    pow(2, 31) == 0x8000_0000,
                    right == r2,
            ;
            assert(a == bucket(2, n as nat, left, 31));
            assert(b == bucket(2, n as nat, right, 31));
            // which are apart, and below 2^31
            lemma_bucket_monotone(2, n as nat, left, right, 31);
            if a == b {
                lemma_same_bucket_close(left * pow(2, 31), right * pow(2, 31), 2 * n);
            }
            vstd::arithmetic::div_mod::lemma_fundamental_div_mod(r2 * 0x4000_0000, n as int);
            assert(b < 0x8000_0000) by (nonlinear_arith)
                requires
                    r2 * 0x4000_0000 == n * b + (r2 * 0x4000_0000) % (n as int),
                    (r2 * 0x4000_0000) % (n as int) >= 0,
                    r2 < 2 * n,
                    n > 0,
            ;
        }
        let x: u64 = a ^ b;
        let zeros: u32 = x.leading_zeros();
        proof {
            vstd::std_specs::bits::axiom_u64_leading_zeros(x);
            assert(a != b ==> a ^ b != 0) by (bit_vector);
            assert(a < 0x8000_0000 && b < 0x8000_0000 ==> a ^ b < 0x8000_0000) by (bit_vector);
        }
        let ghost high: u64 = (63 - zeros) as u64;
        proof {
            assert((x >> high) & 1 != 0);
            assert(high < 64 && (x >> high) & 1 != 0 && x < 0x8000_0000 ==> high < 31)
                by (bit_vector);
        }
        let common: usize = (zeros - 33) as usize;
        proof {
            let above: u64 = (high + 1) as u64;
            assert(x >> above == 0);
            assert(above < 64 && (a ^ b) >> above == 0 ==> a >> above == b >> above)
                by (bit_vector);
            assert(high < 64 && ((a ^ b) >> high) & 1 != 0 ==> a >> high != b >> high)
                by (bit_vector);
            vstd::bits::lemma_u64_shr_is_div(a, high);
            vstd::bits::lemma_u64_shr_is_div(b, high);
            vstd::bits::lemma_u64_shr_is_div(a, above);
            vstd::bits::lemma_u64_shr_is_div(b, above);
            lemma_shifted_bucket(n as nat, left, high as nat);
            lemma_shifted_bucket(n as nat, right, high as nat);
            lemma_shifted_bucket(n as nat, left, above as nat);
            lemma_shifted_bucket(n as nat, right, above as nat);
            assert(common == 30 - high);
            lemma_node_power_found(2, n as nat, left, right, (common + 1) as nat);
            lemma_node_power_coarser(factor as nat, n as nat, left, right, (common + 1) as nat);
        }
        common / factor + 1
    }
}

} // verus!

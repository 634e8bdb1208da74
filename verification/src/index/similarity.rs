//! Cosine similarity of two embeddings, in exact integer arithmetic.
use crate::index::IndexError;
use crate::models::UNIT;
use vstd::math::{abs, min};
use vstd::prelude::*;

verus! {

/// The dot product of two vectors of the same length.
pub open spec fn dot(a: Seq<i32>, b: Seq<i32>) -> int
    recommends
        a.len() == b.len(),
    decreases a.len(),
{
    if a.len() == 0 {
        0
    } else {
        dot(a.drop_last(), b.drop_last()) + a.last() * b.last()
    }
}

/// The squared magnitude of a vector.
pub open spec fn norm_sq(a: Seq<i32>) -> int {
    dot(a, a)
}

/// Whether `root` is the integer part of the square root of `n`.
pub open spec fn is_floor_sqrt(root: nat, n: nat) -> bool {
    root * root <= n < (root + 1) * (root + 1)
}

/// The integer part of the square root of `n`.
pub open spec fn floor_sqrt(n: nat) -> nat {
    choose|root: nat| is_floor_sqrt(root, n)
}

/// The factor by which the product of two squared magnitudes is widened
/// before its root is taken, so that the root keeps as many digits as 128
/// bits allow: the largest power of two `w` for which `p * w * w` still
/// fits 128 bits, and one where `p` is zero.
pub open spec fn widening(p: nat) -> nat
    decreases u128::MAX - p,
{
    if 0 < p && p * 4 <= u128::MAX {
        2 * widening(p * 4)
    } else {
        1
    }
}

/// The similarity of two embeddings, in millionths: the dot product over the
/// product of the magnitudes, rounded toward zero and kept within
/// `-UNIT..=UNIT`; zero where either vector has no magnitude.
///
/// With `p` the product of the squared magnitudes and `w` its widening, the
/// product of the magnitudes is taken as the integer part of the square
/// root of `p * w * w`, over `w`. Vectors of different lengths have no
/// similarity, and neither have vectors so large that `p` leaves 128 bits.
pub open spec fn similarity(a: Seq<i32>, b: Seq<i32>) -> Result<i64, IndexError> {
    if a.len() != b.len() {
        Err(IndexError::DimensionMismatch)
    } else if norm_sq(a) == 0 || norm_sq(b) == 0 {
        Ok(0i64)
    } else if norm_sq(a) * norm_sq(b) > u128::MAX {
        Err(IndexError::Overflow)
    } else {
        let p = (norm_sq(a) * norm_sq(b)) as nat;
        let w = widening(p);
        let ratio = min((abs(dot(a, b)) * UNIT * w) / (floor_sqrt(p * w * w) as int), UNIT as int);
        Ok(
            (if dot(a, b) < 0 {
                -ratio
            } else {
                ratio
            }) as i64,
        )
    }
}

/// A widening is at least one, and what it widens still fits 128 bits, but
/// would not if it were widened once more.
pub proof fn lemma_widening(p: nat)
    ensures
        widening(p) >= 1,
        p <= u128::MAX ==> p * widening(p) * widening(p) <= u128::MAX,
        p >= 1 ==> p * widening(p) * widening(p) >= 1,
        p >= 1 ==> p * widening(p) * widening(p) * 4 > u128::MAX,
    decreases u128::MAX - p,
{
    if 0 < p && p * 4 <= u128::MAX {
        lemma_widening(p * 4);
        let w = widening(p * 4);
        assert(p * (2 * w) * (2 * w) == (p * 4) * w * w) by (nonlinear_arith);
    } else {
        assert(p * 1 * 1 == p);
    }
}

/// A number has one integer square root.
pub proof fn lemma_floor_sqrt_unique(n: nat, root: nat)
    requires
        is_floor_sqrt(root, n),
    ensures
        floor_sqrt(n) == root,
{
    let other = floor_sqrt(n);
    assert(is_floor_sqrt(other, n));
    if other < root {
        assert((other + 1) * (other + 1) <= root * root) by (nonlinear_arith)
            requires
                other + 1 <= root,
        ;
    } else if root < other {
        assert((root + 1) * (root + 1) <= other * other) by (nonlinear_arith)
            requires
                root + 1 <= other,
        ;
    }
}

/// Every number has an integer square root.
pub proof fn lemma_floor_sqrt_exists(n: nat)
    ensures
        is_floor_sqrt(floor_sqrt(n), n),
    decreases n,
{
    if n == 0 {
        assert(0nat * 0nat <= 0 < (0nat + 1) * (0nat + 1)) by (nonlinear_arith);
        assert(is_floor_sqrt(0, 0));
    } else {
        lemma_floor_sqrt_exists((n - 1) as nat);
        let below = floor_sqrt((n - 1) as nat);
        if (below + 1) * (below + 1) <= n {
            assert(n < (below + 2) * (below + 2)) by (nonlinear_arith)
                requires
                    n - 1 < (below + 1) * (below + 1),
            ;
            assert(is_floor_sqrt(below + 1, n));
        } else {
            assert(below * below <= n) by (nonlinear_arith)
                requires
                    below * below <= n - 1,
            ;
            assert(is_floor_sqrt(below, n));
        }
    }
}

/// The dot product of two prefixes grows by one product per component.
pub proof fn lemma_dot_step(a: Seq<i32>, b: Seq<i32>, i: int)
    requires
        0 <= i < a.len(),
        i < b.len(),
    ensures
        dot(a.take(i + 1), b.take(i + 1)) == dot(a.take(i), b.take(i)) + a[i] * b[i],
{
    assert(a.take(i + 1).drop_last() =~= a.take(i));
    assert(b.take(i + 1).drop_last() =~= b.take(i));
}

/// A squared magnitude is never negative, and it is zero exactly for a
/// vector of zeros.
pub proof fn lemma_norm_sq(a: Seq<i32>)
    ensures
        norm_sq(a) >= 0,
        norm_sq(a) == 0 <==> forall|i: int| 0 <= i < a.len() ==> a[i] == 0,
    decreases a.len(),
{
    if a.len() > 0 {
        let init = a.drop_last();
        lemma_norm_sq(init);
        let x = a.last() as int;
        assert(x * x >= 0) by (nonlinear_arith);
        assert(x * x == 0 <==> x == 0) by (nonlinear_arith);
        if norm_sq(a) == 0 {
            assert forall|i: int| 0 <= i < a.len() implies a[i] == 0 by {
                if i < a.len() - 1 {
                    assert(init[i] == a[i]);
                }
            }
        }
        if forall|i: int| 0 <= i < a.len() ==> a[i] == 0 {
            assert forall|i: int| 0 <= i < init.len() implies init[i] == 0 by {
                assert(init[i] == a[i]);
            }
        }
    }
}

/// The dot product does not depend on the order of its two arguments.
pub proof fn lemma_dot_symmetric(a: Seq<i32>, b: Seq<i32>)
    requires
        a.len() == b.len(),
    ensures
        dot(a, b) == dot(b, a),
    decreases a.len(),
{
    if a.len() > 0 {
        lemma_dot_symmetric(a.drop_last(), b.drop_last());
        assert(a.last() * b.last() == b.last() * a.last()) by (nonlinear_arith);
    }
}

/// The integer part of the square root of `n`.
pub fn isqrt(n: u128) -> (root: u128)
    ensures
        root == floor_sqrt(n as nat),
        is_floor_sqrt(root as nat, n as nat),
{
    let mut lo: u128 = 0;
    let mut hi: u128 = 0x1_0000_0000_0000_0000;
    assert(hi * hi > n) by (nonlinear_arith)
        requires
            hi == 0x1_0000_0000_0000_0000,
            n <= u128::MAX,
    ;
    while hi - lo > 1
        invariant
            lo < hi <= 0x1_0000_0000_0000_0000,
            lo * lo <= n < hi * hi,
        decreases hi - lo,
    {
        let mid: u128 = lo + (hi - lo) / 2;
        assert(mid * mid <= u128::MAX) by (nonlinear_arith)
            requires
                mid <= 0xffff_ffff_ffff_ffff,
        ;
        if mid * mid <= n {
            lo = mid;
        } else {
            hi = mid;
        }
    }
    proof {
        lemma_floor_sqrt_unique(n as nat, lo as nat);
    }
    lo
}

/// The dot product of two slices of the same length.
fn dot_product(a: &[i32], b: &[i32]) -> (sum: i128)
    requires
        a@.len() == b@.len(),
    ensures
        sum == dot(a@, b@),
        -(a@.len() * 0x4000_0000_0000_0000) <= sum <= a@.len() * 0x4000_0000_0000_0000,
{
    let n: usize = a.len();
    let mut sum: i128 = 0;
    let mut i: usize = 0;
    while i < n
        invariant
            i <= n,
            n == a@.len(),
            n == b@.len(),
            sum == dot(a@.take(i as int), b@.take(i as int)),
            -(i * 0x4000_0000_0000_0000) <= sum <= i * 0x4000_0000_0000_0000,
        decreases n - i,
    {
        let x: i128 = a[i] as i128;
        let y: i128 = b[i] as i128;
        assert(-0x4000_0000_0000_0000 <= x * y <= 0x4000_0000_0000_0000) by (nonlinear_arith)
            requires
                -0x8000_0000 <= x <= 0x7fff_ffff,
                -0x8000_0000 <= y <= 0x7fff_ffff,
        ;
        assert((i + 1) * 0x4000_0000_0000_0000 == i * 0x4000_0000_0000_0000
            + 0x4000_0000_0000_0000) by (nonlinear_arith);
        assert(i * 0x4000_0000_0000_0000 <= 0xffff_ffff_ffff_ffff * 0x4000_0000_0000_0000)
            by (nonlinear_arith)
            requires
                i <= 0xffff_ffff_ffff_ffff,
        ;
        proof {
            lemma_dot_step(a@, b@, i as int);
        }
        sum = sum + x * y;
        i += 1;
    }
    assert(a@.take(n as int) =~= a@);
    assert(b@.take(n as int) =~= b@);
    sum
}

/// The similarity of two embeddings, see [`similarity`].
pub fn cosine_similarity(a: &[i32], b: &[i32]) -> (score: Result<i64, IndexError>)
    ensures
        score == similarity(a@, b@),
{
    if a.len() != b.len() {
        return Err(IndexError::DimensionMismatch);
    }
    let d: i128 = dot_product(a, b);
    let sa: i128 = dot_product(a, a);
    let sb: i128 = dot_product(b, b);
    proof {
        lemma_norm_sq(a@);
        lemma_norm_sq(b@);
        assert(a@.len() * 0x4000_0000_0000_0000 <= 0xffff_ffff_ffff_ffff * 0x4000_0000_0000_0000)
            by (nonlinear_arith)
            requires
                a@.len() <= 0xffff_ffff_ffff_ffff,
        ;
    }
    if sa == 0 || sb == 0 {
        return Ok(0);
    }
    let na: u128 = sa as u128;
    let nb: u128 = sb as u128;
    let product: u128 = match na.checked_mul(nb) {
        Some(p) => p,
        None => {
            return Err(IndexError::Overflow);
        },
    };
    assert(product >= 1) by (nonlinear_arith)
        requires
            product == na * nb,
            na >= 1,
            nb >= 1,
    ;
    let mut wide: u128 = product;
    let mut factor: u128 = 1;
    assert(product * 1 * 1 == product);
    while wide <= 0x3fff_ffff_ffff_ffff_ffff_ffff_ffff_ffff
        invariant
            wide >= 1,
            factor >= 1,
            wide == product * factor * factor,
            widening(product as nat) == factor * widening(wide as nat),
        decreases u128::MAX - wide,
    {
        assert(factor <= 0x7fff_ffff_ffff_ffff) by (nonlinear_arith)
            requires
                product >= 1,
                factor >= 1,
                product * factor * factor <= 0x3fff_ffff_ffff_ffff_ffff_ffff_ffff_ffff,
        ;
        assert(product * (factor * 2) * (factor * 2) == (product * factor * factor) * 4)
            by (nonlinear_arith);
        assert(factor * (2 * widening((wide * 4) as nat)) == (factor * 2) * widening(
            (wide * 4) as nat,
        )) by (nonlinear_arith);
        wide = wide * 4;
        factor = factor * 2;
    }
    assert(widening(wide as nat) == 1);
    assert(widening(product as nat) == factor) by (nonlinear_arith)
        requires
            widening(product as nat) == factor * widening(wide as nat),
            widening(wide as nat) == 1,
    ;
    let ghost p = (norm_sq(a@) * norm_sq(b@)) as nat;
    let ghost w = widening(p);
    assert(p == product && w == factor && wide == p * w * w);
    let root: u128 = isqrt(wide);
    assert(1 <= root < 0x1_0000_0000_0000_0000) by {
        assert(wide < (root + 1) * (root + 1));
        if root == 0 {
            assert((root + 1) * (root + 1) == 1) by (nonlinear_arith)
                requires
                    root == 0,
            ;
        }
        if root >= 0x1_0000_0000_0000_0000 {
            assert(root * root > u128::MAX) by (nonlinear_arith)
                requires
                    root >= 0x1_0000_0000_0000_0000,
            ;
        }
    }
    let size: u128 = if d < 0 {
        (-d) as u128
    } else {
        d as u128
    };
    let scaled: Option<u128> = match size.checked_mul(1_000_000) {
        Some(s) => s.checked_mul(factor),
        None => None,
    };
    let capped: i64 = match scaled {
        Some(s) => {
            assert(s == abs(d as int) * UNIT * w);
            let ratio: u128 = s / root;
            if ratio > 1_000_000 {
                1_000_000
            } else {
                ratio as i64
            }
        },
        None => {
            proof {
                let exact = abs(d as int) * UNIT * factor;
                assert(exact > u128::MAX) by (nonlinear_arith)
                    requires
                        exact == abs(d as int) * UNIT * factor,
                        factor >= 1,
                        UNIT == 1_000_000,
                        abs(d as int) * 1_000_000 > u128::MAX || abs(d as int) * 1_000_000
                            * factor > u128::MAX,
                ;
                assert(exact / (root as int) >= UNIT) by (nonlinear_arith)
                    requires
                        exact > 0xffff_ffff_ffff_ffff_ffff_ffff_ffff_ffff,
                        1 <= root < 0x1_0000_0000_0000_0000,
                        UNIT == 1_000_000,
                ;
            }
            1_000_000
        },
    };
    assert(capped == min(
        (abs(dot(a@, b@)) * UNIT * w) / (floor_sqrt(p * w * w) as int),
        UNIT as int,
    ));
    if d < 0 {
        Ok(-capped)
    } else {
        Ok(capped)
    }
}

/// A vector with some magnitude is as similar to itself as anything can
/// be: the score is one whole. (A vector whose squared magnitude has no
/// square within 128 bits has no similarity at all.)
pub proof fn lemma_identical_vectors_score_one(a: Seq<i32>)
    requires
        norm_sq(a) != 0,
        norm_sq(a) * norm_sq(a) <= u128::MAX,
    ensures
        similarity(a, a) == Ok::<i64, IndexError>(UNIT),
{
    lemma_norm_sq(a);
    let n = norm_sq(a);
    let p = (n * n) as nat;
    let w = widening(p);
    lemma_widening(p);
    let root = n * w;
    assert(p * w * w == root * root) by (nonlinear_arith)
        requires
            p == n * n,
            root == n * w,
    ;
    assert(is_floor_sqrt(root as nat, p * w * w)) by (nonlinear_arith)
        requires
            p * w * w == root * root,
            root >= 0,
    ;
    lemma_floor_sqrt_unique(p * w * w, root as nat);
    assert((n * UNIT * w) / root == UNIT) by (nonlinear_arith)
        requires
            root == n * w,
            n > 0,
            w > 0,
    ;
}

/// Two vectors of one length at right angles score zero. (Where the
/// product of their squared magnitudes leaves 128 bits they have no
/// similarity at all.)
pub proof fn lemma_orthogonal_vectors_score_zero(a: Seq<i32>, b: Seq<i32>)
    requires
        a.len() == b.len(),
        dot(a, b) == 0,
        norm_sq(a) * norm_sq(b) <= u128::MAX,
    ensures
        similarity(a, b) == Ok::<i64, IndexError>(0),
{
    lemma_norm_sq(a);
    lemma_norm_sq(b);
    if norm_sq(a) != 0 && norm_sq(b) != 0 {
        lemma_root_is_positive(a, b);
        let p = (norm_sq(a) * norm_sq(b)) as nat;
        let w = widening(p);
        let root = floor_sqrt(p * w * w);
        assert(0 * UNIT * w == 0) by (nonlinear_arith);
        assert(0int / (root as int) == 0) by (nonlinear_arith)
            requires
                root > 0,
        ;
    }
}

/// The root that a similarity divides by is not zero.
pub proof fn lemma_root_is_positive(a: Seq<i32>, b: Seq<i32>)
    requires
        norm_sq(a) != 0,
        norm_sq(b) != 0,
    ensures
        floor_sqrt(
            (norm_sq(a) * norm_sq(b)) as nat * widening((norm_sq(a) * norm_sq(b)) as nat)
                * widening((norm_sq(a) * norm_sq(b)) as nat),
        ) >= 1,
{
    lemma_norm_sq(a);
    lemma_norm_sq(b);
    let product = norm_sq(a) * norm_sq(b);
    assert(product >= 1) by (nonlinear_arith)
        requires
            product == norm_sq(a) * norm_sq(b),
            norm_sq(a) >= 1,
            norm_sq(b) >= 1,
    ;
    let p = product as nat;
    let w = widening(p);
    lemma_widening(p);
    lemma_floor_sqrt_exists(p * w * w);
    let root = floor_sqrt(p * w * w);
    if root == 0 {
        assert((root + 1) * (root + 1) == 1) by (nonlinear_arith)
            requires
                root == 0,
        ;
    }
}

/// A vector of zeros scores zero against every vector of its length, on
/// either side.
pub proof fn lemma_zero_vector_scores_zero(zero: Seq<i32>, other: Seq<i32>)
    requires
        zero.len() == other.len(),
        forall|i: int| 0 <= i < zero.len() ==> zero[i] == 0,
    ensures
        similarity(zero, other) == Ok::<i64, IndexError>(0),
        similarity(other, zero) == Ok::<i64, IndexError>(0),
{
    lemma_norm_sq(zero);
}

/// A similarity is a score between minus one and one.
pub proof fn lemma_similarity_bounded(a: Seq<i32>, b: Seq<i32>)
    ensures
        similarity(a, b) matches Ok(score) ==> -UNIT <= score <= UNIT,
{
    if similarity(a, b) is Ok && norm_sq(a) != 0 && norm_sq(b) != 0 {
        lemma_root_is_positive(a, b);
        let p = (norm_sq(a) * norm_sq(b)) as nat;
        let w = widening(p);
        lemma_widening(p);
        let root = floor_sqrt(p * w * w);
        let scaled = abs(dot(a, b)) * UNIT * w;
        assert(scaled >= 0) by (nonlinear_arith)
            requires
                scaled == abs(dot(a, b)) * UNIT * w,
                UNIT == 1_000_000,
                w >= 1,
        ;
        assert(scaled / (root as int) >= 0) by (nonlinear_arith)
            requires
                scaled >= 0,
                root > 0,
        ;
    }
}

/// Similarity does not depend on the order of the two vectors.
pub proof fn lemma_similarity_symmetric(a: Seq<i32>, b: Seq<i32>)
    ensures
        similarity(a, b) == similarity(b, a),
{
    if a.len() == b.len() {
        lemma_dot_symmetric(a, b);
        assert(norm_sq(a) * norm_sq(b) == norm_sq(b) * norm_sq(a)) by (nonlinear_arith);
    }
}

/// How close a similarity is to the quotient it stands for. With `x` the
/// size of the dot product in millionths and `p` the product of the squared
/// magnitudes, the quotient is `x` over the square root of `p`. The score
/// has the sign of the dot product, and its size `r`
///
/// - is not a whole millionth above the quotient: `r - 1` is at most the
///   quotient, and
/// - is not below it, as far as the quotient stays within one whole: every
///   count `q` of millionths up to `UNIT` that is at most the quotient is at
///   most `r`.
///
/// So the score is the quotient rounded down to a millionth, or the next
/// millionth above that, kept within one whole.
pub proof fn lemma_similarity_close_to_quotient(a: Seq<i32>, b: Seq<i32>, q: int)
    requires
        a.len() == b.len(),
        norm_sq(a) != 0,
        norm_sq(b) != 0,
        norm_sq(a) * norm_sq(b) <= u128::MAX,
    ensures
        similarity(a, b) is Ok,
        dot(a, b) >= 0 ==> similarity(a, b)->Ok_0 >= 0,
        dot(a, b) <= 0 ==> similarity(a, b)->Ok_0 <= 0,
        abs(similarity(a, b)->Ok_0 as int) >= 1 ==> (abs(similarity(a, b)->Ok_0 as int) - 1) * (abs(
            similarity(a, b)->Ok_0 as int,
        ) - 1) * (norm_sq(a) * norm_sq(b)) <= (abs(dot(a, b)) * UNIT) * (abs(dot(a, b)) * UNIT),
        0 <= q <= UNIT && q * q * (norm_sq(a) * norm_sq(b)) <= (abs(dot(a, b)) * UNIT) * (abs(
            dot(a, b),
        ) * UNIT) ==> q <= abs(similarity(a, b)->Ok_0 as int),
{
    lemma_norm_sq(a);
    lemma_norm_sq(b);
    lemma_root_is_positive(a, b);
    let p = norm_sq(a) * norm_sq(b);
    let w = widening(p as nat) as int;
    lemma_widening(p as nat);
    let wide = p * w * w;
    lemma_floor_sqrt_exists(wide as nat);
    let root = floor_sqrt(wide as nat) as int;
    let x = abs(dot(a, b)) * UNIT;
    let n = x * w;
    let whole = n / root;
    let r = min(whole, UNIT as int);
    assert(p >= 1) by (nonlinear_arith)
        requires
            p == norm_sq(a) * norm_sq(b),
            norm_sq(a) >= 1,
            norm_sq(b) >= 1,
    ;
    assert(abs(dot(a, b)) * UNIT * w == n);
    assert(p * w * w == wide);
    assert(x >= 0) by (nonlinear_arith)
        requires
            x == abs(dot(a, b)) * UNIT,
            UNIT == 1_000_000,
    ;
    assert(n >= 0) by (nonlinear_arith)
        requires
            n == x * w,
            x >= 0,
            w >= 1,
    ;
    assert(whole >= 0 && whole * root <= n) by (nonlinear_arith)
        requires
            whole == n / root,
            n >= 0,
            root >= 1,
    ;
    assert(abs(similarity(a, b)->Ok_0 as int) == r);
    assert(n * n == x * x * (w * w)) by (nonlinear_arith)
        requires
            n == x * w,
    ;
    assert(root * root <= wide < (root + 1) * (root + 1));
    assert(wide == p * (w * w)) by (nonlinear_arith)
        requires
            wide == p * w * w,
    ;
    if 0 <= q <= UNIT && q * q * p <= x * x {
        assert((q * root) * (q * root) <= n * n) by (nonlinear_arith)
            requires
                q * q * p <= x * x,
                root * root <= p * (w * w),
                n * n == x * x * (w * w),
                q >= 0,
                w >= 1,
        ;
        assert(q * root <= n) by (nonlinear_arith)
            requires
                (q * root) * (q * root) <= n * n,
                q >= 0,
                root >= 1,
                n >= 0,
        ;
        assert(q <= whole) by (nonlinear_arith)
            requires
                q * root <= n,
                whole == n / root,
                root >= 1,
        ;
    }
    if dot(a, b) == 0 {
        assert(n == 0) by (nonlinear_arith)
            requires
                n == x * w,
                x == 0 * UNIT,
        ;
        assert(whole == 0) by (nonlinear_arith)
            requires
                whole == 0int / root,
                root >= 1,
        ;
    }
    if r >= 1 {
        assert((p as nat) * widening(p as nat) * widening(p as nat) * 4 > u128::MAX);
        assert(wide * 4 > 0xffff_ffff_ffff_ffff_ffff_ffff_ffff_ffff);
        assert(wide >= 0x4000_0000_0000_0000_0000_0000_0000_0000);
        assert(root >= 0x7fff_ffff_ffff_ffff) by (nonlinear_arith)
            requires
                wide < (root + 1) * (root + 1),
                wide >= 0x4000_0000_0000_0000_0000_0000_0000_0000,
                root >= 1,
        ;
        let below = (r - 1) * (root + 1);
        assert(r * root <= n) by (nonlinear_arith)
            requires
                whole * root <= n,
                1 <= r <= whole,
                root >= 1,
        ;
        assert(0 <= below <= n) by (nonlinear_arith)
            requires
                below == (r - 1) * (root + 1),
                r * root <= n,
                1 <= r <= 1_000_000,
                root >= 0x7fff_ffff_ffff_ffff,
        ;
        assert(below * below <= n * n) by (nonlinear_arith)
            requires
                0 <= below <= n,
        ;
        assert((r - 1) * (r - 1) * (p * (w * w)) <= below * below) by (nonlinear_arith)
            requires
                below == (r - 1) * (root + 1),
                p * (w * w) < (root + 1) * (root + 1),
                r >= 1,
        ;
        assert((r - 1) * (r - 1) * p <= x * x) by (nonlinear_arith)
            requires
                (r - 1) * (r - 1) * (p * (w * w)) <= n * n,
                n * n == x * x * (w * w),
                w >= 1,
        ;
    }
}

} // verus!

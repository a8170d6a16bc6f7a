use vstd::prelude::*;

verus! {

/// The term `a[j] * b[i - j]` of the `i`-th product coefficient, or zero where
/// either index falls outside its polynomial.
pub open spec fn term(a: Seq<int>, b: Seq<int>, i: int, j: int) -> int {
    if 0 <= j < a.len() && 0 <= i - j < b.len() {
        a[j] * b[i - j]
    } else {
        0
    }
}

/// Sum of the terms of the `i`-th product coefficient with `lo <= j < hi`.
pub open spec fn range_sum(a: Seq<int>, b: Seq<int>, i: int, lo: int, hi: int) -> int
    decreases hi - lo,
{
    if hi <= lo {
        0
    } else {
        range_sum(a, b, i, lo, hi - 1) + term(a, b, i, hi - 1)
    }
}

/// The `i`-th coefficient of the product `a * b`: the sum over every index of `a`.
pub open spec fn conv(a: Seq<int>, b: Seq<int>, i: int) -> int {
    range_sum(a, b, i, 0, a.len() as int)
}

/// The product of two coefficient vectors: the general convolution.
pub open spec fn product(a: Seq<int>, b: Seq<int>) -> Seq<int> {
    Seq::new((a.len() + b.len() - 1) as nat, |i: int| conv(a, b, i))
}

/// Lower end of the triangular index range for the `i`-th coefficient of a
/// product of two degree-`deg` polynomials.
pub open spec fn tri_lo(deg: int, i: int) -> int {
    if i <= deg { 0 } else { i - deg }
}

/// Upper end (inclusive) of the same range.
pub open spec fn tri_hi(deg: int, i: int) -> int {
    if i <= deg { i } else { deg }
}

/// The product of two degree-`deg` polynomials, each coefficient summed over
/// the triangular range that grows up to `deg` and shrinks after it.
pub open spec fn product_equal_deg(a: Seq<int>, b: Seq<int>, deg: int) -> Seq<int> {
    Seq::new((2 * deg + 1) as nat, |i: int| range_sum(a, b, i, tri_lo(deg, i), tri_hi(deg, i) + 1))
}

/// Coefficient-wise sum.
pub open spec fn sum_coeffs(a: Seq<int>, b: Seq<int>) -> Seq<int> {
    Seq::new(a.len(), |i: int| a[i] + b[i])
}

/// Coefficient-wise product with a scalar.
pub open spec fn scale_coeffs(a: Seq<int>, k: int) -> Seq<int> {
    Seq::new(a.len(), |i: int| a[i] * k)
}

/// Coefficient-wise reduction modulo `q`.
pub open spec fn reduce_coeffs(a: Seq<int>, q: int) -> Seq<int> {
    Seq::new(a.len(), |i: int| a[i] % q)
}

/// Sum of a sequence, from its front.
pub open spec fn seq_sum(s: Seq<int>) -> int
    decreases s.len(),
{
    if s.len() == 0 {
        0
    } else {
        seq_sum(s.drop_last()) + s.last()
    }
}

/// Whether every element is non-negative.
pub open spec fn all_nonneg(s: Seq<int>) -> bool {
    forall|k: int| 0 <= k < s.len() ==> s[k] >= 0
}

/// Terms outside both polynomials add nothing.
pub proof fn lemma_range_sum_skip(a: Seq<int>, b: Seq<int>, i: int, lo: int, k1: int, k2: int)
    requires
        lo <= k1 <= k2,
        forall|j: int| k1 <= j < k2 ==> #[trigger] term(a, b, i, j) == 0,
    ensures
        range_sum(a, b, i, lo, k1) == range_sum(a, b, i, lo, k2),
    decreases k2 - k1,
{
    if k1 < k2 {
        lemma_range_sum_skip(a, b, i, lo, k1, k2 - 1);
    }
}

/// A sum from zero splits at any point into its two parts.
pub proof fn lemma_range_sum_split(a: Seq<int>, b: Seq<int>, i: int, m: int, hi: int)
    requires
        0 <= m <= hi,
    ensures
        range_sum(a, b, i, 0, hi) == range_sum(a, b, i, 0, m) + range_sum(a, b, i, m, hi),
    decreases hi - m,
{
    if m < hi {
        lemma_range_sum_split(a, b, i, m, hi - 1);
    }
}

/// With non-negative coefficients a partial sum never exceeds a longer one.
pub proof fn lemma_range_sum_mono(a: Seq<int>, b: Seq<int>, i: int, lo: int, k1: int, k2: int)
    requires
        lo <= k1 <= k2,
        all_nonneg(a),
        all_nonneg(b),
    ensures
        range_sum(a, b, i, lo, k1) <= range_sum(a, b, i, lo, k2),
    decreases k2 - k1,
{
    if k1 < k2 {
        lemma_range_sum_mono(a, b, i, lo, k1, k2 - 1);
        let j = k2 - 1;
        if 0 <= j < a.len() && 0 <= i - j < b.len() {
            let x = a[j];
            let y = b[i - j];
            assert(x * y >= 0) by (nonlinear_arith)
                requires
                    x >= 0,
                    y >= 0,
            ;
        }
    }
}

/// The triangular sum of the equal-degree path is the full convolution.
pub proof fn lemma_tri_is_conv(a: Seq<int>, b: Seq<int>, deg: int, i: int)
    requires
        deg >= 0,
        a.len() == deg + 1,
        b.len() == deg + 1,
        0 <= i <= 2 * deg,
    ensures
        range_sum(a, b, i, tri_lo(deg, i), tri_hi(deg, i) + 1) == conv(a, b, i),
{
    let lo = tri_lo(deg, i);
    let hi = tri_hi(deg, i) + 1;
    lemma_range_sum_split(a, b, i, lo, hi);
    lemma_range_sum_skip(a, b, i, 0, 0, lo);
    lemma_range_sum_skip(a, b, i, 0, hi, a.len() as int);
    lemma_range_sum_split(a, b, i, lo, a.len() as int);
    lemma_range_sum_skip(a, b, i, lo, hi, a.len() as int);
}

/// Multiplying two polynomials of one degree by the triangular path and by the
/// general path gives the same coefficients.
pub proof fn lemma_mul_paths_agree(a: Seq<int>, b: Seq<int>, deg: int)
    requires
        deg >= 0,
        a.len() == deg + 1,
        b.len() == deg + 1,
    ensures
        product_equal_deg(a, b, deg) == product(a, b),
{
    assert forall|i: int| 0 <= i <= 2 * deg implies product_equal_deg(a, b, deg)[i] == product(a, b)[i] by {
        lemma_tri_is_conv(a, b, deg, i);
    }
    assert(product_equal_deg(a, b, deg) =~= product(a, b));
}

/// With the coefficients of `a` at most `bound` and those of `b` zero or one,
/// the first `k` terms of a product coefficient add up to at most `k * bound`.
pub proof fn lemma_range_sum_bound(a: Seq<int>, b: Seq<int>, i: int, k: int, bound: int)
    requires
        0 <= k,
        bound >= 0,
        forall|j: int| 0 <= j < a.len() ==> 0 <= #[trigger] a[j] <= bound,
        forall|j: int| 0 <= j < b.len() ==> 0 <= #[trigger] b[j] <= 1,
    ensures
        range_sum(a, b, i, 0, k) <= k * bound,
    decreases k,
{
    if k > 0 {
        lemma_range_sum_bound(a, b, i, k - 1, bound);
        let j = k - 1;
        if 0 <= j < a.len() && 0 <= i - j < b.len() {
            let x = a[j];
            let y = b[i - j];
            assert(x * y <= bound) by (nonlinear_arith)
                requires
                    0 <= x <= bound,
                    0 <= y <= 1,
            ;
        }
        assert((k - 1) * bound + bound == k * bound) by (nonlinear_arith);
    }
}

/// Reducing coefficients modulo `q` a second time changes nothing.
pub proof fn lemma_reduce_idempotent(a: Seq<int>, q: int)
    requires
        q > 0,
    ensures
        reduce_coeffs(reduce_coeffs(a, q), q) == reduce_coeffs(a, q),
{
    assert forall|i: int| 0 <= i < a.len() implies reduce_coeffs(reduce_coeffs(a, q), q)[i]
        == reduce_coeffs(a, q)[i] by {
        vstd::arithmetic::div_mod::lemma_mod_twice(a[i], q);
    }
    assert(reduce_coeffs(reduce_coeffs(a, q), q) =~= reduce_coeffs(a, q));
}

/// A vector of plain coefficients as integers.
pub open spec fn ints(s: Seq<u64>) -> Seq<int> {
    s.map_values(|x: u64| x as int)
}

/// Whether `quot` and `rem` divide `dividend` by `divisor` with coefficients
/// taken modulo `q`: `quot * divisor + rem` and `dividend` agree modulo `q`,
/// coefficient by coefficient.
pub open spec fn divides_mod(dividend: Seq<int>, divisor: Seq<int>, quot: Seq<int>, rem: Seq<int>, q: int) -> bool {
    reduce_coeffs(sum_coeffs(product(quot, divisor), rem), q) == reduce_coeffs(dividend, q)
}

proof fn lemma_cong_add(x: int, y: int, z: int, q: int)
    requires
        q > 0,
        x % q == y % q,
    ensures
        (x + z) % q == (y + z) % q,
{
    vstd::arithmetic::div_mod::lemma_add_mod_noop(x, z, q);
    vstd::arithmetic::div_mod::lemma_add_mod_noop(y, z, q);
}

/// Subtracting `cv` modulo `q` from a reduced coefficient, with `q` added to
/// keep it non-negative, and adding `cv` back gives the coefficient again.
proof fn lemma_sub_step(r: int, cv: int, q: int)
    requires
        q > 0,
        0 <= r < q,
        cv >= 0,
    ensures
        ((r + q - cv % q) % q + cv) % q == r,
{
    let s = cv % q;
    vstd::arithmetic::div_mod::lemma_mod_bound(cv, q);
    vstd::arithmetic::div_mod::lemma_fundamental_div_mod(cv, q);
    let x = r + q - s;
    vstd::arithmetic::div_mod::lemma_add_mod_noop(x, cv, q);
    vstd::arithmetic::div_mod::lemma_add_mod_noop(x % q, cv, q);
    vstd::arithmetic::div_mod::lemma_mod_twice(x, q);
    let d = cv / q;
    assert(x + cv == q * (d + 1) + r) by (nonlinear_arith)
        requires
            cv == q * d + s,
            x == r + q - s,
    ;
    vstd::arithmetic::div_mod::lemma_mod_multiples_vanish(d + 1, r, q);
    vstd::arithmetic::div_mod::lemma_small_mod(r as nat, q as nat);
}

proof fn lemma_range_sum_push(a: Seq<int>, x: int, b: Seq<int>, i: int, k: int)
    requires
        0 <= k <= a.len(),
    ensures
        range_sum(a.push(x), b, i, 0, k) == range_sum(a, b, i, 0, k),
    decreases k,
{
    if k > 0 {
        lemma_range_sum_push(a, x, b, i, k - 1);
        assert(term(a.push(x), b, i, k - 1) == term(a, b, i, k - 1));
    }
}

proof fn lemma_range_sum_prefix(a1: Seq<int>, a2: Seq<int>, b: Seq<int>, i: int, k: int)
    requires
        a1.len() == a2.len(),
        0 <= k,
        forall|j: int| 0 <= j < k && j < a1.len() ==> a1[j] == a2[j],
    ensures
        range_sum(a1, b, i, 0, k) == range_sum(a2, b, i, 0, k),
    decreases k,
{
    if k > 0 {
        lemma_range_sum_prefix(a1, a2, b, i, k - 1);
        assert(term(a1, b, i, k - 1) == term(a2, b, i, k - 1));
    }
}

proof fn lemma_mod_cancel(s: int, x: int, y: int, q: int)
    requires
        q > 0,
        0 <= x < q,
        0 <= y < q,
        (s + x) % q == (s + y) % q,
    ensures
        x == y,
{
    let m = s % q;
    vstd::arithmetic::div_mod::lemma_mod_bound(s, q);
    vstd::arithmetic::div_mod::lemma_add_mod_noop(s, x, q);
    vstd::arithmetic::div_mod::lemma_add_mod_noop(s, y, q);
    vstd::arithmetic::div_mod::lemma_small_mod(x as nat, q as nat);
    vstd::arithmetic::div_mod::lemma_small_mod(y as nat, q as nat);
    assert((m + x) % q == (m + y) % q);
    if m + x < q {
        vstd::arithmetic::div_mod::lemma_small_mod((m + x) as nat, q as nat);
    } else {
        vstd::arithmetic::div_mod::lemma_mod_add_multiples_vanish(m + x - q, q);
        vstd::arithmetic::div_mod::lemma_small_mod((m + x - q) as nat, q as nat);
    }
    if m + y < q {
        vstd::arithmetic::div_mod::lemma_small_mod((m + y) as nat, q as nat);
    } else {
        vstd::arithmetic::div_mod::lemma_mod_add_multiples_vanish(m + y - q, q);
        vstd::arithmetic::div_mod::lemma_small_mod((m + y - q) as nat, q as nat);
    }
}

/// Whether `r` is a remainder of degree below `dvs_len - 1`, laid out over
/// `nq + dvs_len - 1` coefficients: its leading `nq` are zero, and all lie in `[0, q)`.
pub open spec fn padded_remainder_in_range(r: Seq<int>, nq: int, dvs_len: int, q: int) -> bool {
    &&& r.len() == nq + dvs_len - 1
    &&& forall|t: int| 0 <= t < r.len() ==> 0 <= #[trigger] r[t] < q
    &&& forall|t: int| 0 <= t < nq ==> #[trigger] r[t] == 0
}

proof fn lemma_quotients_agree(
    dividend: Seq<int>,
    divisor: Seq<int>,
    q1: Seq<int>,
    r1: Seq<int>,
    q2: Seq<int>,
    r2: Seq<int>,
    q: int,
    t: int,
)
    requires
        q > 0,
        divisor.len() >= 1,
        divisor[0] == 1,
        q1.len() == q2.len(),
        0 <= t < q1.len(),
        forall|j: int| 0 <= j < q1.len() ==> 0 <= #[trigger] q1[j] < q,
        forall|j: int| 0 <= j < q2.len() ==> 0 <= #[trigger] q2[j] < q,
        padded_remainder_in_range(r1, q1.len() as int, divisor.len() as int, q),
        padded_remainder_in_range(r2, q1.len() as int, divisor.len() as int, q),
        divides_mod(dividend, divisor, q1, r1, q),
        divides_mod(dividend, divisor, q2, r2, q),
    ensures
        forall|j: int| 0 <= j <= t ==> q1[j] == q2[j],
    decreases t,
{
    if t > 0 {
        lemma_quotients_agree(dividend, divisor, q1, r1, q2, r2, q, t - 1);
    }
    let n = q1.len() as int;
    let l1 = reduce_coeffs(sum_coeffs(product(q1, divisor), r1), q);
    let l2 = reduce_coeffs(sum_coeffs(product(q2, divisor), r2), q);
    assert(l1[t] == l2[t]);
    assert forall|j: int| t + 1 <= j < n implies #[trigger] term(q1, divisor, t, j) == 0 by {}
    assert forall|j: int| t + 1 <= j < n implies #[trigger] term(q2, divisor, t, j) == 0 by {}
    lemma_range_sum_skip(q1, divisor, t, 0, t + 1, n);
    lemma_range_sum_skip(q2, divisor, t, 0, t + 1, n);
    lemma_range_sum_prefix(q1, q2, divisor, t, t);
    assert(term(q1, divisor, t, t) == q1[t]);
    assert(term(q2, divisor, t, t) == q2[t]);
    lemma_mod_cancel(range_sum(q1, divisor, t, 0, t), q1[t], q2[t], q);
}

/// Division by a divisor with leading coefficient one has one answer modulo
/// `q`: two quotients with coefficients in `[0, q)` and two remainders of
/// degree below the divisor's, with coefficients in `[0, q)`, that both make
/// `quotient * divisor + remainder` agree with `dividend` modulo `q`, are equal.
pub proof fn lemma_division_unique(
    dividend: Seq<int>,
    divisor: Seq<int>,
    q1: Seq<int>,
    r1: Seq<int>,
    q2: Seq<int>,
    r2: Seq<int>,
    q: int,
)
    requires
        q > 0,
        divisor.len() >= 1,
        divisor[0] == 1,
        q1.len() == q2.len(),
        forall|j: int| 0 <= j < q1.len() ==> 0 <= #[trigger] q1[j] < q,
        forall|j: int| 0 <= j < q2.len() ==> 0 <= #[trigger] q2[j] < q,
        padded_remainder_in_range(r1, q1.len() as int, divisor.len() as int, q),
        padded_remainder_in_range(r2, q1.len() as int, divisor.len() as int, q),
        divides_mod(dividend, divisor, q1, r1, q),
        divides_mod(dividend, divisor, q2, r2, q),
    ensures
        q1 == q2,
        r1 == r2,
{
    if q1.len() > 0 {
        lemma_quotients_agree(dividend, divisor, q1, r1, q2, r2, q, q1.len() - 1);
    }
    assert(q1 =~= q2);
    let l1 = reduce_coeffs(sum_coeffs(product(q1, divisor), r1), q);
    let l2 = reduce_coeffs(sum_coeffs(product(q2, divisor), r2), q);
    assert forall|t: int| 0 <= t < r1.len() implies r1[t] == r2[t] by {
        assert(l1[t] == l2[t]);
        if t >= q1.len() {
            lemma_mod_cancel(conv(q1, divisor, t), r1[t], r2[t], q);
        }
    }
    assert(r1 =~= r2);
}

/// Number of binary digits of `x`, with one digit for zero.
pub open spec fn bits(x: nat) -> nat
    decreases x,
{
    if x < 2 {
        1
    } else {
        1 + bits(x / 2)
    }
}

proof fn lemma_bits_bound(x: nat, k: nat)
    requires
        k >= 1,
        x < vstd::arithmetic::power2::pow2(k),
    ensures
        bits(x) <= k,
    decreases k,
{
    if x >= 2 {
        vstd::arithmetic::power2::lemma_pow2_unfold(k);
        if k == 1 {
            vstd::arithmetic::power2::lemma2_to64();
        } else {
            lemma_bits_bound(x / 2, (k - 1) as nat);
        }
    }
}

/// Every number fits in its binary length.
pub proof fn lemma_bits_fit(x: nat)
    ensures
        x < vstd::arithmetic::power2::pow2(bits(x)),
    decreases x,
{
    vstd::arithmetic::power2::lemma_pow2_unfold(bits(x));
    if x < 2 {
        vstd::arithmetic::power2::lemma2_to64();
    } else {
        lemma_bits_fit(x / 2);
    }
}

/// The binary length of `x`: the number of digits in its base-2 writing.
pub fn bit_length(x: u128) -> (r: usize)
    ensures
        r == bits(x as nat),
        1 <= r <= 128,
{
    proof {
        vstd::arithmetic::power2::lemma2_to64();
        vstd::arithmetic::power2::lemma_pow2_adds(64, 64);
        lemma_bits_bound(x as nat, 128);
    }
    let mut r: usize = 1;
    let mut y: u128 = x;
    while y >= 2
        invariant
            1 <= r,
            r + bits(y as nat) - 1 == bits(x as nat),
            bits(x as nat) <= 128,
        decreases y,
    {
        y = y / 2;
        r = r + 1;
    }
    r
}

/// A remainder of at most `dvs` coefficients, zero-filled at its low end up to
/// `dvs` coefficients and then at its leading end up to `dvd + 1`.
pub open spec fn padded(r: Seq<u64>, dvs: nat, dvd: nat) -> Seq<u64> {
    Seq::new((dvd + 1 - dvs) as nat, |i: int| 0u64) + r + Seq::new((dvs - r.len()) as nat, |i: int| 0u64)
}

/// Pads a remainder for addition to a degree-`dvd` polynomial.
pub fn pad_remainder(r: Vec<u64>, dvs: usize, dvd: usize) -> (p: Vec<u64>)
    requires
        1 <= r.len() <= dvs <= dvd + 1,
    ensures
        p@ == padded(r@, dvs as nat, dvd as nat),
        p.len() == dvd + 1,
{
    let ghost r0 = r@;
    let mut p = r;
    while p.len() - 1 < dvs - 1
        invariant
            r0.len() <= p.len() <= dvs,
            1 <= r0.len(),
            p@ == r0 + Seq::new((p.len() - r0.len()) as nat, |i: int| 0u64),
        decreases dvs - p.len(),
    {
        p.push(0);
        assert(p@ =~= r0 + Seq::new((p.len() - r0.len()) as nat, |i: int| 0u64));
    }
    let ghost low = p@;
    while p.len() - 1 < dvd
        invariant
            1 <= dvs <= p.len() <= dvd + 1,
            low.len() == dvs,
            p@ == Seq::new((p.len() - dvs) as nat, |i: int| 0u64) + low,
        decreases dvd + 1 - p.len(),
    {
        p.insert(0, 0);
        assert(p@ =~= Seq::new((p.len() - dvs) as nat, |i: int| 0u64) + low);
    }
    assert(p@ =~= padded(r0, dvs as nat, dvd as nat));
    p
}

/// Long division of `dividend` by a divisor with leading coefficient one, on
/// coefficients modulo `q`: each step takes the leading coefficient of the
/// running remainder as the next quotient coefficient and subtracts that
/// multiple of the divisor, adding `q` where a coefficient would go negative.
/// The quotient has `dividend.len() - divisor.len() + 1` coefficients, the
/// remainder `divisor.len() - 1`, all in `[0, q)`, and
/// `quotient * divisor + remainder` equals `dividend` modulo `q`.
pub fn div_euclid(dividend: &Vec<u64>, divisor: &Vec<u64>, q: u64) -> (r: (Vec<u64>, Vec<u64>))
    requires
        2 <= divisor.len() <= dividend.len(),
        divisor[0] == 1,
        q != 0,
    ensures
        r.0.len() == dividend.len() - divisor.len() + 1,
        r.1.len() == divisor.len() - 1,
        forall|i: int| 0 <= i < r.0.len() ==> #[trigger] r.0[i] < q,
        forall|i: int| 0 <= i < r.1.len() ==> #[trigger] r.1[i] < q,
        divides_mod(
            ints(dividend@),
            ints(divisor@),
            ints(r.0@),
            ints(padded(r.1@, (divisor.len() - 1) as nat, (dividend.len() - 1) as nat)),
            q as int,
        ),
{
    let ghost dv = ints(dividend@);
    let ghost vv = ints(divisor@);
    let ghost qi = q as int;
    let n = dividend.len();
    let mut rem: Vec<u64> = Vec::new();
    let mut i: usize = 0;
    while i < n
        invariant
            i <= n,
            n == dividend.len(),
            rem.len() == i,
            q != 0,
            forall|k: int| 0 <= k < rem.len() ==> #[trigger] rem[k] == dividend[k] % q,
        decreases n - i,
    {
        rem.push(dividend[i] % q);
        i = i + 1;
    }
    let nq = n - divisor.len() + 1;
    let mut quot: Vec<u64> = Vec::new();
    proof {
        assert forall|t: int| 0 <= t < n implies (rem[t] as int + range_sum(ints(quot@), vv, t, 0, 0)) % qi
            == dv[t] % qi by {
            vstd::arithmetic::div_mod::lemma_mod_twice(dv[t], qi);
        }
    }
    let mut k: usize = 0;
    while k < nq
        invariant
            k <= nq,
            n == dividend.len(),
            nq == n - divisor.len() + 1,
            2 <= divisor.len() <= n,
            divisor[0] == 1,
            dv == ints(dividend@),
            vv == ints(divisor@),
            qi == q as int,
            rem.len() == n,
            quot.len() == k,
            q != 0,
            forall|t: int| 0 <= t < rem.len() ==> #[trigger] rem[t] < q,
            forall|t: int| 0 <= t < quot.len() ==> #[trigger] quot[t] < q,
            forall|t: int| 0 <= t < k ==> #[trigger] rem[t] == 0,
            forall|t: int| 0 <= t < n ==> (#[trigger] rem[t] as int + range_sum(ints(quot@), vv, t, 0, k as int)) % qi
                == dv[t] % qi,
        decreases nq - k,
    {
        let c = rem[k];
        let ghost old_quot = quot@;
        quot.push(c);
        let ghost old_rem = rem@;
        let mut j: usize = 0;
        while j < divisor.len()
            invariant
                j <= divisor.len(),
                k < nq,
                nq == n - divisor.len() + 1,
                rem.len() == n,
                q != 0,
                c < q,
                c == old_rem[k as int],
                old_rem.len() == n,
                forall|t: int| 0 <= t < rem.len() ==> #[trigger] rem[t] < q,
                forall|t: int| 0 <= t < n && !(k <= t < k + j) ==> #[trigger] rem[t] == old_rem[t],
                forall|t: int| k <= t < k + j ==> #[trigger] rem[t] as int == (old_rem[t] as int + q as int
                    - (c as int * divisor[t - k] as int) % (q as int)) % (q as int),
            decreases divisor.len() - j,
        {
            let d = divisor[j];
            assert((c as int) * (d as int) <= u64::MAX * u64::MAX) by (nonlinear_arith)
                requires
                    c <= u64::MAX,
                    d <= u64::MAX,
            ;
            let sub: u128 = (c as u128 * d as u128) % (q as u128);
            let v: u128 = (rem[k + j] as u128 + q as u128 - sub) % (q as u128);
            rem.set(k + j, v as u64);
            j = j + 1;
        }
        proof {
            let qn = ints(quot@);
            assert(qn =~= ints(old_quot).push(c as int));
            assert forall|t: int| 0 <= t < n implies (#[trigger] rem[t] as int + range_sum(qn, vv, t, 0, k + 1)) % qi
                == dv[t] % qi by {
                lemma_range_sum_push(ints(old_quot), c as int, vv, t, k as int);
                let s_old = range_sum(ints(old_quot), vv, t, 0, k as int);
                assert((old_rem[t] as int + s_old) % qi == dv[t] % qi);
                if k <= t < k + divisor.len() {
                    let cv = c as int * divisor[t - k] as int;
                    assert(term(qn, vv, t, k as int) == cv);
                    assert(c as int * divisor[t - k] as int >= 0) by (nonlinear_arith)
                        requires
                            c >= 0,
                            divisor[t - k] >= 0,
                    ;
                    lemma_sub_step(old_rem[t] as int, cv, qi);
                    vstd::arithmetic::div_mod::lemma_small_mod(old_rem[t] as nat, qi as nat);
                    lemma_cong_add(rem[t] as int + cv, old_rem[t] as int, s_old, qi);
                    assert(rem[t] as int + range_sum(qn, vv, t, 0, k + 1) == rem[t] as int + cv + s_old);
                } else {
                    assert(term(qn, vv, t, k as int) == 0);
                }
            }
            assert(rem[k as int] == 0) by {
                assert(divisor[0] == 1);
                vstd::arithmetic::div_mod::lemma_small_mod(c as nat, qi as nat);
                vstd::arithmetic::div_mod::lemma_mod_self_0(qi);
            }
        }
        k = k + 1;
    }
    let mut remainder: Vec<u64> = Vec::new();
    let mut t: usize = nq;
    while t < n
        invariant
            nq <= t <= n,
            n == rem.len(),
            remainder@ == rem@.subrange(nq as int, t as int),
            q != 0,
            forall|u: int| 0 <= u < rem.len() ==> #[trigger] rem[u] < q,
        decreases n - t,
    {
        remainder.push(rem[t]);
        t = t + 1;
        assert(remainder@ =~= rem@.subrange(nq as int, t as int));
    }
    proof {
        let pr = padded(remainder@, (divisor.len() - 1) as nat, (n - 1) as nat);
        assert(pr =~= rem@);
        let lhs = sum_coeffs(product(ints(quot@), vv), ints(pr));
        assert forall|t: int| 0 <= t < n implies #[trigger] reduce_coeffs(lhs, qi)[t] == reduce_coeffs(dv, qi)[t] by {
            assert(rem[t] as int + range_sum(ints(quot@), vv, t, 0, nq as int) == lhs[t]);
        }
        assert(reduce_coeffs(lhs, qi) =~= reduce_coeffs(dv, qi));
    }
    (quot, remainder)
}

} // verus!

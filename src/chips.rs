use vstd::prelude::*;
use crate::circuit::{
    extends, lemma_extends_trans, lemma_tracks_extend, satisfied, tracks, tracks_all, values, Entry, Gate, Session, Wire,
};
use vstd::arithmetic::power2::pow2;
use crate::poly::{
    bit_length, bits, div_euclid, divides_mod, ints, lemma_bits_fit, lemma_range_sum_bound, pad_remainder,
    padded,
    all_nonneg, conv, lemma_mul_paths_agree, lemma_range_sum_mono, lemma_range_sum_skip,
    lemma_tri_is_conv, product, product_equal_deg, range_sum, reduce_coeffs, scale_coeffs,
    seq_sum, sum_coeffs, term, tri_hi, tri_lo,
};

verus! {

proof fn lemma_values_nonneg(s: Seq<Wire>)
    ensures
        all_nonneg(values(s)),
{
}

proof fn lemma_values_push(s: Seq<Wire>, w: Wire)
    ensures
        seq_sum(values(s.push(w))) == seq_sum(values(s)) + w.val(),
{
    assert(values(s.push(w)).drop_last() =~= values(s));
}

proof fn lemma_seq_sum_prefix(s: Seq<int>, k: int)
    requires
        0 <= k < s.len(),
    ensures
        seq_sum(s.take(k + 1)) == seq_sum(s.take(k)) + s[k],
{
    assert(s.take(k + 1).drop_last() =~= s.take(k));
}

proof fn lemma_seq_sum_prefix_le(s: Seq<int>, k: int)
    requires
        0 <= k <= s.len(),
        all_nonneg(s),
    ensures
        seq_sum(s.take(k)) <= seq_sum(s),
    decreases s.len(),
{
    if k < s.len() {
        let t = s.drop_last();
        assert(t.take(k) =~= s.take(k));
        lemma_seq_sum_prefix_le(t, k);
    } else {
        assert(s.take(k) =~= s);
    }
}

/// Sums the terms by successive addition gates, seeded from a zero witness.
fn sum_terms(s: &mut Session, terms: &Vec<Wire>) -> (r: Wire)
    requires
        seq_sum(values(terms@)) <= u128::MAX,
        tracks_all(old(s).log(), terms@),
    ensures
        r.val() == seq_sum(values(terms@)),
        extends(final(s).log(), old(s).log()),
        tracks(final(s).log(), r),
        satisfied(final(s).log()) == satisfied(old(s).log()),
{
    let mut acc = s.witness(0);
    let mut k: usize = 0;
    proof {
        lemma_tracks_extend(old(s).log(), s.log(), terms@);
        lemma_values_nonneg(terms@);
        assert(values(terms@).take(0) =~= Seq::<int>::empty());
    }
    while k < terms.len()
        invariant
            k <= terms.len(),
            acc.val() == seq_sum(values(terms@).take(k as int)),
            seq_sum(values(terms@)) <= u128::MAX,
            all_nonneg(values(terms@)),
            extends(s.log(), old(s).log()),
            tracks(s.log(), acc),
            tracks_all(s.log(), terms@),
            satisfied(s.log()) == satisfied(old(s).log()),
        decreases terms.len() - k,
    {
        proof {
            lemma_seq_sum_prefix(values(terms@), k as int);
            lemma_seq_sum_prefix_le(values(terms@), k + 1);
        }
        let ghost before = s.log();
        acc = s.add(acc, terms[k]);
        proof {
            lemma_tracks_extend(before, s.log(), terms@);
        }
        k = k + 1;
    }
    proof {
        assert(values(terms@).take(terms.len() as int) =~= values(terms@));
    }
    acc
}

/// The coefficient-wise sum of two degree-`DEG` polynomials, one addition
/// gate per coefficient.
pub fn poly_add<const DEG: usize>(s: &mut Session, a: Vec<Wire>, b: Vec<Wire>) -> (c: Vec<Wire>)
    requires
        a.len() == DEG + 1,
        b.len() == DEG + 1,
        forall|i: int| 0 <= i < a.len() ==> a[i].val() + b[i].val() <= u128::MAX,
        tracks_all(old(s).log(), a@),
        tracks_all(old(s).log(), b@),
    ensures
        c.len() == DEG + 1,
        values(c@) == sum_coeffs(values(a@), values(b@)),
        extends(final(s).log(), old(s).log()),
        final(s).log().len() == old(s).log().len() + DEG + 1,
        forall|i: int| 0 <= i <= DEG ==> #[trigger] final(s).log()[old(s).log().len() + i] == (Entry {
            gate: Gate::Add { a: a[i].id(), b: b[i].id() },
            value: c[i].val() as int,
        }),
        forall|i: int| 0 <= i <= DEG ==> #[trigger] c[i].id() == old(s).log().len() + i,
        tracks_all(final(s).log(), c@),
        satisfied(final(s).log()) == satisfied(old(s).log()),
{
    let mut c: Vec<Wire> = Vec::new();
    let mut i: usize = 0;
    while i < a.len()
        invariant
            i <= a.len(),
            a.len() == DEG + 1,
            b.len() == DEG + 1,
            c.len() == i,
            forall|k: int| 0 <= k < a.len() ==> a[k].val() + b[k].val() <= u128::MAX,
            forall|k: int| 0 <= k < i ==> #[trigger] c[k].val() == a[k].val() + b[k].val(),
            extends(s.log(), old(s).log()),
            s.log().len() == old(s).log().len() + i,
            forall|k: int| 0 <= k < i ==> #[trigger] s.log()[old(s).log().len() + k] == (Entry {
                gate: Gate::Add { a: a[k].id(), b: b[k].id() },
                value: c[k].val() as int,
            }),
            forall|k: int| 0 <= k < i ==> #[trigger] c[k].id() == old(s).log().len() + k,
            tracks_all(s.log(), a@),
            tracks_all(s.log(), b@),
            tracks_all(s.log(), c@),
            satisfied(s.log()) == satisfied(old(s).log()),
        decreases a.len() - i,
    {
        let ghost before = s.log();
        let v = s.add(a[i], b[i]);
        proof {
            lemma_tracks_extend(before, s.log(), a@);
            lemma_tracks_extend(before, s.log(), b@);
            lemma_tracks_extend(before, s.log(), c@);
        }
        c.push(v);
        i = i + 1;
    }
    assert(values(c@) =~= sum_coeffs(values(a@), values(b@)));
    c
}

/// The product of a degree-`DEG` polynomial with the scalar `k`, one
/// multiplication gate per coefficient.
pub fn poly_scalar_mul<const DEG: usize>(s: &mut Session, a: Vec<Wire>, k: Wire) -> (c: Vec<Wire>)
    requires
        a.len() == DEG + 1,
        forall|i: int| 0 <= i < a.len() ==> a[i].val() * k.val() <= u128::MAX,
        tracks_all(old(s).log(), a@),
        tracks(old(s).log(), k),
    ensures
        c.len() == DEG + 1,
        values(c@) == scale_coeffs(values(a@), k.val() as int),
        extends(final(s).log(), old(s).log()),
        final(s).log().len() == old(s).log().len() + DEG + 1,
        forall|i: int| 0 <= i <= DEG ==> #[trigger] final(s).log()[old(s).log().len() + i] == (Entry {
            gate: Gate::Mul { a: a[i].id(), b: k.id() },
            value: c[i].val() as int,
        }),
        forall|i: int| 0 <= i <= DEG ==> #[trigger] c[i].id() == old(s).log().len() + i,
        tracks_all(final(s).log(), c@),
        satisfied(final(s).log()) == satisfied(old(s).log()),
{
    let mut c: Vec<Wire> = Vec::new();
    let mut i: usize = 0;
    while i < a.len()
        invariant
            i <= a.len(),
            a.len() == DEG + 1,
            c.len() == i,
            forall|j: int| 0 <= j < a.len() ==> a[j].val() * k.val() <= u128::MAX,
            forall|j: int| 0 <= j < i ==> #[trigger] c[j].val() == a[j].val() * k.val(),
            extends(s.log(), old(s).log()),
            s.log().len() == old(s).log().len() + i,
            forall|j: int| 0 <= j < i ==> #[trigger] s.log()[old(s).log().len() + j] == (Entry {
                gate: Gate::Mul { a: a[j].id(), b: k.id() },
                value: c[j].val() as int,
            }),
            forall|j: int| 0 <= j < i ==> #[trigger] c[j].id() == old(s).log().len() + j,
            tracks_all(s.log(), a@),
            tracks(s.log(), k),
            tracks_all(s.log(), c@),
            satisfied(s.log()) == satisfied(old(s).log()),
        decreases a.len() - i,
    {
        let ghost before = s.log();
        let v = s.mul(a[i], k);
        proof {
            lemma_tracks_extend(before, s.log(), a@);
            lemma_tracks_extend(before, s.log(), c@);
            assert(s.log()[k.id() as int] == before[k.id() as int]);
        }
        c.push(v);
        i = i + 1;
    }
    assert(values(c@) =~= scale_coeffs(values(a@), k.val() as int));
    c
}

/// The product of two degree-`DEG` polynomials: for each output coefficient
/// the products over its triangular index range, then their sum.
pub fn poly_mul_equal_deg<const DEG: usize>(s: &mut Session, a: Vec<Wire>, b: Vec<Wire>) -> (c: Vec<Wire>)
    requires
        a.len() == DEG + 1,
        b.len() == DEG + 1,
        2 * DEG + 1 <= usize::MAX,
        forall|i: int| 0 <= i <= 2 * DEG ==> #[trigger] conv(values(a@), values(b@), i) <= u128::MAX,
        tracks_all(old(s).log(), a@),
        tracks_all(old(s).log(), b@),
    ensures
        c.len() == 2 * DEG + 1,
        values(c@) == product_equal_deg(values(a@), values(b@), DEG as int),
        values(c@) == product(values(a@), values(b@)),
        extends(final(s).log(), old(s).log()),
        tracks_all(final(s).log(), c@),
        satisfied(final(s).log()) == satisfied(old(s).log()),
{
    let ghost av = values(a@);
    let ghost bv = values(b@);
    let mut c: Vec<Wire> = Vec::new();
    let mut i: usize = 0;
    proof {
        lemma_values_nonneg(a@);
        lemma_values_nonneg(b@);
    }
    while i < 2 * DEG + 1
        invariant
            i <= 2 * DEG + 1,
            2 * DEG + 1 <= usize::MAX,
            a.len() == DEG + 1,
            b.len() == DEG + 1,
            av == values(a@),
            bv == values(b@),
            all_nonneg(av),
            all_nonneg(bv),
            c.len() == i,
            forall|k: int| 0 <= k <= 2 * DEG ==> #[trigger] conv(av, bv, k) <= u128::MAX,
            forall|k: int| 0 <= k < i ==> #[trigger] c[k].val() == product_equal_deg(av, bv, DEG as int)[k],
            extends(s.log(), old(s).log()),
            tracks_all(s.log(), a@),
            tracks_all(s.log(), b@),
            tracks_all(s.log(), c@),
            satisfied(s.log()) == satisfied(old(s).log()),
        decreases 2 * DEG + 1 - i,
    {
        let ghost gi = i as int;
        let (lo, hi): (usize, usize) = if i < DEG + 1 { (0, i) } else { (i - DEG, DEG) };
        assert(lo == tri_lo(DEG as int, gi) && hi == tri_hi(DEG as int, gi));
        proof {
            lemma_tri_is_conv(av, bv, DEG as int, gi);
        }
        let mut terms: Vec<Wire> = Vec::new();
        let mut j: usize = lo;
        while j <= hi
            invariant
                lo <= j <= hi + 1,
                hi <= DEG,
                lo <= i,
                i <= lo + DEG,
                hi <= i,
                gi == i,
                a.len() == DEG + 1,
                b.len() == DEG + 1,
                av == values(a@),
                bv == values(b@),
                all_nonneg(av),
                all_nonneg(bv),
                range_sum(av, bv, gi, lo as int, hi + 1) == conv(av, bv, gi),
                conv(av, bv, gi) <= u128::MAX,
                seq_sum(values(terms@)) == range_sum(av, bv, gi, lo as int, j as int),
                extends(s.log(), old(s).log()),
                tracks_all(s.log(), a@),
                tracks_all(s.log(), b@),
                tracks_all(s.log(), c@),
                satisfied(s.log()) == satisfied(old(s).log()),
                tracks_all(s.log(), terms@),
            decreases hi + 1 - j,
        {
            proof {
                lemma_range_sum_mono(av, bv, gi, lo as int, j + 1, hi + 1);
                lemma_range_sum_mono(av, bv, gi, lo as int, lo as int, j as int);
            }
            assert(term(av, bv, gi, j as int) == a[j as int].val() * b[i - j].val());
            let ghost before = s.log();
            let p = s.mul(a[j], b[i - j]);
            proof {
                lemma_tracks_extend(before, s.log(), a@);
                lemma_tracks_extend(before, s.log(), b@);
                lemma_tracks_extend(before, s.log(), c@);
                lemma_tracks_extend(before, s.log(), terms@);
            }
            proof {
                lemma_values_push(terms@, p);
            }
            terms.push(p);
            j = j + 1;
        }
        let ghost before = s.log();
        let v = sum_terms(s, &terms);
        proof {
            lemma_tracks_extend(before, s.log(), a@);
            lemma_tracks_extend(before, s.log(), b@);
            lemma_tracks_extend(before, s.log(), c@);
        }
        c.push(v);
        i = i + 1;
    }
    assert(values(c@) =~= product_equal_deg(av, bv, DEG as int));
    proof {
        lemma_mul_paths_agree(av, bv, DEG as int);
    }
    c
}

/// The product of two polynomials of any degrees: for each output coefficient
/// the products of every pair of indices that fall in both, then their sum.
pub fn poly_mul_diff_deg(s: &mut Session, a: Vec<Wire>, b: Vec<Wire>) -> (c: Vec<Wire>)
    requires
        a.len() >= 1,
        b.len() >= 1,
        a.len() + b.len() - 1 <= usize::MAX,
        forall|i: int| 0 <= i < a.len() + b.len() - 1 ==> #[trigger] conv(values(a@), values(b@), i)
            <= u128::MAX,
        tracks_all(old(s).log(), a@),
        tracks_all(old(s).log(), b@),
    ensures
        c.len() == a.len() + b.len() - 1,
        values(c@) == product(values(a@), values(b@)),
        extends(final(s).log(), old(s).log()),
        tracks_all(final(s).log(), c@),
        satisfied(final(s).log()) == satisfied(old(s).log()),
{
    let ghost av = values(a@);
    let ghost bv = values(b@);
    let a_deg = a.len() - 1;
    let b_deg = b.len() - 1;
    let c_deg = a_deg + b_deg;
    let mut c: Vec<Wire> = Vec::new();
    let mut i: usize = 0;
    proof {
        lemma_values_nonneg(a@);
        lemma_values_nonneg(b@);
    }
    while i <= c_deg
        invariant
            i <= c_deg + 1,
            c_deg + 1 <= usize::MAX,
            a_deg == a.len() - 1,
            b_deg == b.len() - 1,
            c_deg == a_deg + b_deg,
            av == values(a@),
            bv == values(b@),
            all_nonneg(av),
            all_nonneg(bv),
            c.len() == i,
            forall|k: int| 0 <= k <= c_deg ==> #[trigger] conv(av, bv, k) <= u128::MAX,
            forall|k: int| 0 <= k < i ==> #[trigger] c[k].val() == conv(av, bv, k),
            extends(s.log(), old(s).log()),
            tracks_all(s.log(), a@),
            tracks_all(s.log(), b@),
            tracks_all(s.log(), c@),
            satisfied(s.log()) == satisfied(old(s).log()),
        decreases c_deg + 1 - i,
    {
        let ghost gi = i as int;
        let mut terms: Vec<Wire> = Vec::new();
        let mut j: usize = 0;
        assert(conv(av, bv, gi) <= u128::MAX);
        while j <= i
            invariant
                j <= i + 1,
                i <= c_deg,
                c_deg + 1 <= usize::MAX,
                gi == i,
                a_deg == a.len() - 1,
                b_deg == b.len() - 1,
                av == values(a@),
                bv == values(b@),
                all_nonneg(av),
                all_nonneg(bv),
                conv(av, bv, gi) <= u128::MAX,
                seq_sum(values(terms@)) == range_sum(av, bv, gi, 0, j as int),
                extends(s.log(), old(s).log()),
                tracks_all(s.log(), a@),
                tracks_all(s.log(), b@),
                tracks_all(s.log(), c@),
                satisfied(s.log()) == satisfied(old(s).log()),
                tracks_all(s.log(), terms@),
            decreases i + 1 - j,
        {
            if j <= a_deg && (i - j) <= b_deg {
                assert(term(av, bv, gi, j as int) == a[j as int].val() * b[i - j].val());
                proof {
                    lemma_range_sum_mono(av, bv, gi, 0, j + 1, a.len() as int);
                    lemma_range_sum_mono(av, bv, gi, 0, 0, j as int);
                }
                let ghost before = s.log();
            let p = s.mul(a[j], b[i - j]);
            proof {
                lemma_tracks_extend(before, s.log(), a@);
                lemma_tracks_extend(before, s.log(), b@);
                lemma_tracks_extend(before, s.log(), c@);
                lemma_tracks_extend(before, s.log(), terms@);
            }
                proof {
                    lemma_values_push(terms@, p);
                }
                terms.push(p);
            } else {
                assert(term(av, bv, gi, j as int) == 0);
            }
            j = j + 1;
        }
        proof {
            if i + 1 <= a.len() {
                assert forall|k: int| i + 1 <= k < a.len() implies #[trigger] term(av, bv, gi, k) == 0 by {}
                lemma_range_sum_skip(av, bv, gi, 0, i + 1, a.len() as int);
            } else {
                assert forall|k: int| a.len() <= k < i + 1 implies #[trigger] term(av, bv, gi, k) == 0 by {}
                lemma_range_sum_skip(av, bv, gi, 0, a.len() as int, i + 1);
            }
        }
        let ghost before = s.log();
        let v = sum_terms(s, &terms);
        proof {
            lemma_tracks_extend(before, s.log(), a@);
            lemma_tracks_extend(before, s.log(), b@);
            lemma_tracks_extend(before, s.log(), c@);
        }
        c.push(v);
        i = i + 1;
    }
    assert(values(c@) =~= product(av, bv));
    c
}

/// Reduces each coefficient of a degree-`DEG` polynomial modulo `Q`, through
/// the range chip's quotient-and-remainder constraint on inputs of at most
/// `num_bits` bits.
pub fn poly_reduce<const DEG: usize, const Q: u64>(s: &mut Session, input: Vec<Wire>, num_bits: usize) -> (r: Vec<Wire>)
    requires
        input.len() == DEG + 1,
        Q != 0,
        num_bits <= 189,
        forall|i: int| 0 <= i < input.len() ==> #[trigger] input[i].val() < pow2(num_bits as nat),
        tracks_all(old(s).log(), input@),
    ensures
        r.len() == DEG + 1,
        values(r@) == reduce_coeffs(values(input@), Q as int),
        forall|i: int| 0 <= i < r.len() ==> #[trigger] r[i].val() < Q,
        extends(final(s).log(), old(s).log()),
        final(s).log().len() == old(s).log().len() + DEG + 1,
        forall|i: int| 0 <= i <= DEG ==> #[trigger] final(s).log()[old(s).log().len() + i] == (Entry {
            gate: Gate::Rem { a: input[i].id(), m: Q as nat, bits: num_bits as nat },
            value: r[i].val() as int,
        }),
        forall|i: int| 0 <= i <= DEG ==> #[trigger] r[i].id() == old(s).log().len() + i,
        tracks_all(final(s).log(), r@),
        satisfied(final(s).log()) == satisfied(old(s).log()),
{
    let mut r: Vec<Wire> = Vec::new();
    let mut i: usize = 0;
    while i < input.len()
        invariant
            i <= input.len(),
            Q != 0,
            num_bits <= 189,
            input.len() == DEG + 1,
            forall|k: int| 0 <= k < input.len() ==> #[trigger] input[k].val() < pow2(num_bits as nat),
            extends(s.log(), old(s).log()),
            s.log().len() == old(s).log().len() + i,
            forall|k: int| 0 <= k < i ==> #[trigger] s.log()[old(s).log().len() + k] == (Entry {
                gate: Gate::Rem { a: input[k].id(), m: Q as nat, bits: num_bits as nat },
                value: r[k].val() as int,
            }),
            forall|k: int| 0 <= k < i ==> #[trigger] r[k].id() == old(s).log().len() + k,
            tracks_all(s.log(), input@),
            tracks_all(s.log(), r@),
            satisfied(s.log()) == satisfied(old(s).log()),
            r.len() == i,
            forall|k: int| 0 <= k < i ==> #[trigger] r[k].val() == input[k].val() % (Q as u128),
            forall|k: int| 0 <= k < i ==> #[trigger] r[k].val() < Q,
        decreases input.len() - i,
    {
        let ghost before = s.log();
        proof {
            vstd::arithmetic::div_mod::lemma_div_is_ordered(
                input[i as int].val() as int,
                pow2(num_bits as nat) as int,
                Q as int,
            );
        }
        let v = s.rem(input[i], Q, num_bits);
        proof {
            lemma_tracks_extend(before, s.log(), input@);
            lemma_tracks_extend(before, s.log(), r@);
        }
        r.push(v);
        i = i + 1;
    }
    assert(values(r@) =~= reduce_coeffs(values(input@), Q as int));
    r
}

/// The plain integers held by the wires: a one-way read, bound by no constraint.
fn plain_values(p: &Vec<Wire>) -> (r: Vec<u64>)
    requires
        forall|i: int| 0 <= i < p.len() ==> #[trigger] p[i].val() <= u64::MAX,
    ensures
        r.len() == p.len(),
        forall|i: int| 0 <= i < p.len() ==> #[trigger] r[i] == p[i].val(),
{
    let mut r: Vec<u64> = Vec::new();
    let mut i: usize = 0;
    while i < p.len()
        invariant
            i <= p.len(),
            r.len() == i,
            forall|k: int| 0 <= k < p.len() ==> #[trigger] p[k].val() <= u64::MAX,
            forall|k: int| 0 <= k < i ==> #[trigger] r[k] == p[k].val(),
        decreases p.len() - i,
    {
        r.push(p[i].value() as u64);
        i = i + 1;
    }
    r
}

fn copy_wires(p: &Vec<Wire>) -> (r: Vec<Wire>)
    ensures
        r@ == p@,
{
    let mut r: Vec<Wire> = Vec::new();
    let mut i: usize = 0;
    while i < p.len()
        invariant
            i <= p.len(),
            r@ == p@.take(i as int),
        decreases p.len() - i,
    {
        r.push(p[i]);
        i = i + 1;
        assert(r@ =~= p@.take(i as int));
    }
    assert(p@.take(p.len() as int) =~= p@);
    r
}

/// Constrains `p[k] < bound` for every `k` from `from` on, in order.
fn check_all_less_than(s: &mut Session, p: &Vec<Wire>, from: usize, bound: u64)
    requires
        from <= p.len(),
        tracks_all(old(s).log(), p@),
    ensures
        extends(final(s).log(), old(s).log()),
        final(s).log().len() == old(s).log().len() + (p.len() - from),
        forall|k: int| from <= k < p.len() ==> #[trigger] final(s).log()[old(s).log().len() + k - from] == (Entry {
            gate: Gate::LessThan { a: p[k].id(), bound: bound as nat },
            value: 0,
        }),
        satisfied(final(s).log()) == (satisfied(old(s).log()) && forall|k: int| from <= k < p.len()
            ==> #[trigger] p[k].val() < bound),
{
    let mut i: usize = from;
    while i < p.len()
        invariant
            from <= i <= p.len(),
            extends(s.log(), old(s).log()),
            s.log().len() == old(s).log().len() + (i - from),
            forall|k: int| from <= k < i ==> #[trigger] s.log()[old(s).log().len() + k - from] == (Entry {
                gate: Gate::LessThan { a: p[k].id(), bound: bound as nat },
                value: 0,
            }),
            tracks_all(s.log(), p@),
            satisfied(s.log()) == (satisfied(old(s).log()) && forall|k: int| from <= k < i ==> #[trigger] p[k].val()
                < bound),
        decreases p.len() - i,
    {
        let ghost before = s.log();
        s.check_less_than(p[i], bound);
        proof {
            lemma_tracks_extend(before, s.log(), p@);
            assert forall|k: int| from <= k < i + 1 implies #[trigger] s.log()[old(s).log().len() + k - from] == (Entry {
                gate: Gate::LessThan { a: p[k].id(), bound: bound as nat },
                value: 0,
            }) by {
                if k < i {
                    assert(s.log()[old(s).log().len() + k - from] == before[old(s).log().len() + k - from]);
                }
            }
        }
        i = i + 1;
    }
}

/// Constrains `a[k] == b[k]` for every `k`, in order: an equality test whose
/// output is asserted to be one.
fn assert_all_equal(s: &mut Session, a: &Vec<Wire>, b: &Vec<Wire>)
    requires
        a.len() == b.len(),
        tracks_all(old(s).log(), a@),
        tracks_all(old(s).log(), b@),
    ensures
        extends(final(s).log(), old(s).log()),
        final(s).log().len() == old(s).log().len() + 2 * a.len(),
        forall|k: int| 0 <= k < a.len() ==> #[trigger] final(s).log()[old(s).log().len() + 2 * k].gate == (Gate::IsEqual {
            a: a[k].id(),
            b: b[k].id(),
        }) && final(s).log()[old(s).log().len() + 2 * k + 1].gate == (Gate::AssertConst {
            a: (old(s).log().len() + 2 * k) as nat,
            k: 1,
        }),
        satisfied(final(s).log()) == (satisfied(old(s).log()) && values(a@) == values(b@)),
{
    let mut i: usize = 0;
    while i < a.len()
        invariant
            i <= a.len(),
            a.len() == b.len(),
            extends(s.log(), old(s).log()),
            s.log().len() == old(s).log().len() + 2 * i,
            forall|k: int| 0 <= k < i ==> #[trigger] s.log()[old(s).log().len() + 2 * k].gate == (Gate::IsEqual {
                a: a[k].id(),
                b: b[k].id(),
            }) && s.log()[old(s).log().len() + 2 * k + 1].gate == (Gate::AssertConst {
                a: (old(s).log().len() + 2 * k) as nat,
                k: 1,
            }),
            tracks_all(s.log(), a@),
            tracks_all(s.log(), b@),
            satisfied(s.log()) == (satisfied(old(s).log()) && forall|k: int| 0 <= k < i ==> #[trigger] a[k].val()
                == b[k].val()),
        decreases a.len() - i,
    {
        let ghost before = s.log();
        s.assert_equal(a[i], b[i]);
        proof {
            lemma_tracks_extend(before, s.log(), a@);
            lemma_tracks_extend(before, s.log(), b@);
            assert forall|k: int| 0 <= k < i + 1 implies #[trigger] s.log()[old(s).log().len() + 2 * k].gate
                == (Gate::IsEqual { a: a[k].id(), b: b[k].id() }) && s.log()[old(s).log().len() + 2 * k + 1].gate
                == (Gate::AssertConst { a: (old(s).log().len() + 2 * k) as nat, k: 1 }) by {
                if k < i {
                    assert(s.log()[old(s).log().len() + 2 * k] == before[old(s).log().len() + 2 * k]);
                    assert(s.log()[old(s).log().len() + 2 * k + 1] == before[old(s).log().len() + 2 * k + 1]);
                }
            }
        }
        i = i + 1;
    }
    proof {
        if satisfied(s.log()) {
            assert(values(a@) =~= values(b@));
        }
        if values(a@) == values(b@) {
            assert forall|k: int| 0 <= k < a.len() implies #[trigger] a[k].val() == b[k].val() by {
                assert(values(a@)[k] == values(b@)[k]);
            }
        }
    }
}

/// Whether `g` is an equality test whose second operand is entry `b`.
pub open spec fn tests_equality_with(g: Gate, b: nat) -> bool {
    match g {
        Gate::IsEqual { a: _, b: b2 } => b2 == b,
        _ => false,
    }
}

/// Constrains a division of `dividend` by `divisor` modulo `Q` with the given
/// quotient and remainder: rebuilds `quotient * divisor + remainder`, reduces
/// it modulo `Q` with the bit length of its largest possible coefficient, and
/// tests each reduced coefficient for equality with the dividend's, asserting
/// the test's output to be one. For quotient and remainder coefficients in
/// `[0, Q)`, the log stays satisfied exactly when the reduced sum equals the
/// dividend.
pub fn constrain_division<const DEG_DVD: usize, const DEG_DVS: usize, const Q: u64>(
    s: &mut Session,
    dividend: &Vec<Wire>,
    divisor: Vec<Wire>,
    quotient: Vec<Wire>,
    remainder: &Vec<Wire>,
)
    requires
        dividend.len() == DEG_DVD + 1,
        divisor.len() == DEG_DVS + 1,
        quotient.len() == DEG_DVD - DEG_DVS + 1,
        remainder.len() == DEG_DVD + 1,
        DEG_DVS < DEG_DVD,
        Q != 0,
        forall|i: int| 0 <= i < divisor.len() ==> #[trigger] divisor[i].val() <= 1,
        forall|i: int| 0 <= i < quotient.len() ==> #[trigger] quotient[i].val() < Q,
        forall|i: int| 0 <= i < remainder.len() ==> #[trigger] remainder[i].val() < Q,
        tracks_all(old(s).log(), dividend@),
        tracks_all(old(s).log(), divisor@),
        tracks_all(old(s).log(), quotient@),
        tracks_all(old(s).log(), remainder@),
    ensures
        extends(final(s).log(), old(s).log()),
        final(s).log().len() >= old(s).log().len() + 2 * (DEG_DVD + 1),
        forall|k: int| 0 <= k <= DEG_DVD ==> tests_equality_with(
            #[trigger] final(s).log()[final(s).log().len() - 2 * (DEG_DVD + 1) + 2 * k].gate,
            dividend[k].id(),
        ) && final(s).log()[final(s).log().len() - 2 * (DEG_DVD + 1) + 2 * k + 1].gate == (Gate::AssertConst {
            a: (final(s).log().len() - 2 * (DEG_DVD + 1) + 2 * k) as nat,
            k: 1,
        }),
        satisfied(final(s).log()) == (satisfied(old(s).log()) && reduce_coeffs(
            sum_coeffs(product(values(quotient@), values(divisor@)), values(remainder@)),
            Q as int,
        ) == values(dividend@)),
{
    let ghost qv = values(quotient@);
    let ghost dv = values(divisor@);
    let ghost remv = values(remainder@);
    let ghost bound: int = (Q - 1) as int;
    let ghost n = qv.len() as int;
    proof {
        assert forall|j: int| 0 <= j < qv.len() implies 0 <= #[trigger] qv[j] <= bound by {}
        assert forall|j: int| 0 <= j < dv.len() implies 0 <= #[trigger] dv[j] <= 1 by {}
        assert(n * bound + bound <= u128::MAX) by (nonlinear_arith)
            requires
                0 <= n <= u64::MAX,
                0 <= bound <= u64::MAX,
        ;
        assert forall|k: int| 0 <= k < qv.len() + dv.len() - 1 implies #[trigger] conv(qv, dv, k)
            <= n * bound by {
            lemma_range_sum_bound(qv, dv, k, n, bound);
        }
    }
    let ghost l2 = s.log();
    let prod = poly_mul_diff_deg(s, quotient, divisor);
    proof {
        lemma_tracks_extend(l2, s.log(), dividend@);
        lemma_tracks_extend(l2, s.log(), remainder@);
    }
    assert forall|i: int| 0 <= i < prod.len() implies prod[i].val() + remainder[i].val() <= n * bound + bound by {
        assert(values(prod@)[i] == prod[i].val());
    }
    let remainder_copy = copy_wires(remainder);
    let ghost l3 = s.log();
    let sum = poly_add::<DEG_DVD>(s, prod, remainder_copy);
    proof {
        lemma_tracks_extend(l3, s.log(), dividend@);
    }
    assert(((Q - 1) as int) * ((DEG_DVD - DEG_DVS) as int + 1) + (Q - 1) as int <= u128::MAX) by (nonlinear_arith)
        requires
            (Q - 1) as int <= u64::MAX,
            (DEG_DVD - DEG_DVS) as int + 1 <= u64::MAX,
    ;
    let sum_bound: u128 = (Q - 1) as u128 * ((DEG_DVD - DEG_DVS) as u128 + 1) + (Q - 1) as u128;
    let num_bits = bit_length(sum_bound);
    proof {
        assert(n == (DEG_DVD - DEG_DVS) as int + 1);
        assert(sum_bound as int == (Q - 1) as int * ((DEG_DVD - DEG_DVS) as int + 1) + (Q - 1) as int);
        assert(sum_bound as int == n * bound + bound) by (nonlinear_arith)
            requires
                sum_bound as int == (Q - 1) as int * ((DEG_DVD - DEG_DVS) as int + 1) + (Q - 1) as int,
                n == (DEG_DVD - DEG_DVS) as int + 1,
                bound == (Q - 1) as int,
        ;
        lemma_bits_fit(sum_bound as nat);
        assert forall|i: int| 0 <= i < sum.len() implies #[trigger] sum[i].val() < pow2(num_bits as nat) by {
            assert(values(sum@)[i] == sum[i].val());
        }
    }
    let ghost l4 = s.log();
    let sum_mod = poly_reduce::<DEG_DVD, Q>(s, sum, num_bits);
    proof {
        lemma_tracks_extend(l4, s.log(), dividend@);
        assert(values(sum@) =~= sum_coeffs(product(qv, dv), remv));
    }
    let ghost l5 = s.log();
    assert_all_equal(s, &sum_mod, dividend);
    proof {
        lemma_extends_trans(l2, l3, l4);
        lemma_extends_trans(l2, l4, l5);
        lemma_extends_trans(l2, l5, s.log());
    }
}

/// Divides a degree-`DEG_DVD` polynomial by a cyclotomic degree-`DEG_DVS`
/// polynomial in the ring of coefficients modulo `Q`, and returns the
/// remainder padded to degree `DEG_DVD`.
///
/// The quotient and remainder are computed on plain values outside the
/// constraints and introduced as witnesses; the constraints then bound every
/// quotient coefficient and the low `DEG_DVS` remainder coefficients below `Q`,
/// rebuild `quotient * divisor + remainder`, reduce it modulo `Q` and assert it
/// equal, coefficient by coefficient, to the dividend.
pub fn poly_divide_by_cyclo<const DEG_DVD: usize, const DEG_DVS: usize, const Q: u64>(
    s: &mut Session,
    dividend: Vec<Wire>,
    divisor: Vec<Wire>,
) -> (r: Vec<Wire>)
    requires
        dividend.len() == DEG_DVD + 1,
        divisor.len() == DEG_DVS + 1,
        DEG_DVD == 2 * DEG_DVS - 2,
        DEG_DVS < DEG_DVD,
        Q != 0,
        forall|i: int| 0 <= i < dividend.len() ==> #[trigger] dividend[i].val() < Q,
        forall|i: int| 0 <= i < divisor.len() ==> #[trigger] divisor[i].val() <= 1,
        divisor[0].val() == 1,
        tracks_all(old(s).log(), dividend@),
        tracks_all(old(s).log(), divisor@),
    ensures
        extends(final(s).log(), old(s).log()),
        tracks_all(final(s).log(), r@),
        satisfied(final(s).log()) == satisfied(old(s).log()),
        forall|i: int| 0 <= i <= DEG_DVD ==> #[trigger] r[i].id() == old(s).log().len() + (DEG_DVD - DEG_DVS + 1) + i,
        forall|j: int| 0 <= j < DEG_DVD - DEG_DVS + 1 ==> (#[trigger] final(s).log()[old(s).log().len() + j]).gate
            == Gate::Witness && final(s).log()[old(s).log().len() + (DEG_DVD - DEG_DVS + 1) + DEG_DVD + 1 + j].gate
            == (Gate::LessThan { a: (old(s).log().len() + j) as nat, bound: Q as nat }),
        forall|i: int| DEG_DVD + 1 - DEG_DVS <= i <= DEG_DVD ==> (#[trigger] final(s).log()[old(s).log().len() + 2 * (
        DEG_DVD - DEG_DVS + 1) + DEG_DVD + 1 + i - (DEG_DVD + 1 - DEG_DVS)]).gate == (Gate::LessThan {
            a: r[i].id(),
            bound: Q as nat,
        }),
        forall|k: int| 0 <= k <= DEG_DVD ==> tests_equality_with(
            #[trigger] final(s).log()[final(s).log().len() - 2 * (DEG_DVD + 1) + 2 * k].gate,
            dividend[k].id(),
        ) && final(s).log()[final(s).log().len() - 2 * (DEG_DVD + 1) + 2 * k + 1].gate == (Gate::AssertConst {
            a: (final(s).log().len() - 2 * (DEG_DVD + 1) + 2 * k) as nat,
            k: 1,
        }),
        reduce_coeffs(
            sum_coeffs(
                product(
                    Seq::new((DEG_DVD - DEG_DVS + 1) as nat, |j: int| final(s).log()[old(s).log().len() + j].value),
                    values(divisor@),
                ),
                values(r@),
            ),
            Q as int,
        ) == values(dividend@),
        r.len() == DEG_DVD + 1,
        forall|i: int| 0 <= i < DEG_DVD + 1 - DEG_DVS ==> #[trigger] r[i].val() == 0,
        forall|i: int| 0 <= i < r.len() ==> #[trigger] r[i].val() < Q,
        exists|qt: Seq<int>|
            qt.len() == DEG_DVD - DEG_DVS + 1 && (forall|j: int| 0 <= j < qt.len() ==> 0 <= #[trigger] qt[j] < Q)
                && reduce_coeffs(sum_coeffs(product(qt, values(divisor@)), values(r@)), Q as int)
                == values(dividend@),
{
    let dividend_plain = plain_values(&dividend);
    let divisor_plain = plain_values(&divisor);
    let (quotient_plain, remainder_short) = div_euclid(&dividend_plain, &divisor_plain, Q);
    let ghost rs = remainder_short@;
    let remainder_plain = pad_remainder(remainder_short, DEG_DVS, DEG_DVD);
    let ghost rp = remainder_plain@;
    let ghost lead = DEG_DVD + 1 - DEG_DVS;
    assert forall|i: int| 0 <= i < rp.len() implies #[trigger] rp[i] < Q && (i < lead ==> rp[i] == 0) by {
        if i >= lead {
            assert(rp[i] == rs[i - lead]);
        }
    }
    let ghost l0 = s.log();
    let quotient = s.witnesses(&quotient_plain);
    let ghost l1 = s.log();
    let remainder = s.witnesses(&remainder_plain);
    proof {
        lemma_tracks_extend(l0, s.log(), dividend@);
        lemma_tracks_extend(l0, s.log(), divisor@);
        lemma_tracks_extend(l1, s.log(), quotient@);
        let qi = Q as int;
        assert(values(quotient@) =~= ints(quotient_plain@));
        assert(values(remainder@) =~= ints(remainder_plain@));
        assert(values(divisor@) =~= ints(divisor_plain@));
        assert(values(dividend@) =~= ints(dividend_plain@));
        assert forall|t: int| 0 <= t < dividend.len() implies #[trigger] reduce_coeffs(values(dividend@), qi)[t]
            == values(dividend@)[t] by {
            vstd::arithmetic::div_mod::lemma_small_mod(dividend[t].val() as nat, qi as nat);
        }
        assert(reduce_coeffs(values(dividend@), qi) =~= values(dividend@));
        assert(divides_mod(values(dividend@), values(divisor@), values(quotient@), values(remainder@), qi));
        let qt = values(quotient@);
        assert(forall|j: int| 0 <= j < qt.len() ==> 0 <= #[trigger] qt[j] < Q);
    }
    let ghost lq = s.log();
    check_all_less_than(s, &quotient, 0, Q);
    proof {
        lemma_tracks_extend(lq, s.log(), dividend@);
        lemma_tracks_extend(lq, s.log(), divisor@);
        lemma_tracks_extend(lq, s.log(), quotient@);
        lemma_tracks_extend(lq, s.log(), remainder@);
    }
    let ghost lr = s.log();
    check_all_less_than(s, &remainder, DEG_DVD + 1 - DEG_DVS, Q);
    proof {
        lemma_tracks_extend(lr, s.log(), dividend@);
        lemma_tracks_extend(lr, s.log(), divisor@);
        lemma_tracks_extend(lr, s.log(), quotient@);
        lemma_tracks_extend(lr, s.log(), remainder@);
        assert(extends(s.log(), old(s).log())) by {
            lemma_extends_trans(old(s).log(), l0, l1);
            lemma_extends_trans(old(s).log(), l1, lq);
            lemma_extends_trans(old(s).log(), lq, lr);
            lemma_extends_trans(old(s).log(), lr, s.log());
        }
    }
    let ghost qv = values(quotient@);
    let ghost lc = s.log();
    constrain_division::<DEG_DVD, DEG_DVS, Q>(s, &dividend, divisor, quotient, &remainder);
    proof {
        lemma_tracks_extend(lc, s.log(), remainder@);
        lemma_extends_trans(old(s).log(), lc, s.log());
        lemma_extends_trans(lr, lc, s.log());
        lemma_extends_trans(l1, lq, lr);
        lemma_extends_trans(l1, lr, s.log());
        lemma_extends_trans(l0, l1, s.log());
        let nq = (DEG_DVD - DEG_DVS + 1) as int;
        let o = old(s).log().len() as int;
        assert(l1.len() == o + nq);
        assert(lq.len() == o + nq + DEG_DVD + 1);
        assert(lr.len() == o + 2 * nq + DEG_DVD + 1);
        assert forall|j: int| 0 <= j < nq implies #[trigger] s.log()[o + j] == (Entry {
            gate: Gate::Witness,
            value: qv[j],
        }) && s.log()[o + nq + DEG_DVD + 1 + j].gate == (Gate::LessThan { a: (o + j) as nat, bound: Q as nat }) by {
            assert(s.log()[o + j] == l1[o + j]);
            assert(l1[o + j] == Entry { gate: Gate::Witness, value: quotient_plain[j] as int });
            assert(qv[j] == quotient_plain[j]);
            assert(s.log()[o + nq + DEG_DVD + 1 + j] == lr[o + nq + DEG_DVD + 1 + j]);
            assert(lr[lq.len() + j - 0] == (Entry { gate: Gate::LessThan { a: quotient[j].id(), bound: Q as nat }, value: 0 }));
        }
        assert forall|i: int| DEG_DVD + 1 - DEG_DVS <= i <= DEG_DVD implies #[trigger] s.log()[o + 2 * nq + DEG_DVD
            + 1 + i - (DEG_DVD + 1 - DEG_DVS)].gate == (Gate::LessThan { a: remainder[i].id(), bound: Q as nat }) by {
            let p = o + 2 * nq + DEG_DVD + 1 + i - (DEG_DVD + 1 - DEG_DVS);
            assert(s.log()[p] == lc[p]);
        }
        assert(Seq::new(nq as nat, |j: int| s.log()[o + j].value) =~= qv);
    }
    remainder
}

} // verus!

use vstd::prelude::*;
use halo2_base::gates::{GateInstructions, RangeChip, RangeInstructions};
use halo2_base::halo2_proofs::halo2curves::bn256::Fr;
use halo2_base::virtual_region::copy_constraints::SharedCopyConstraintManager;
use halo2_base::virtual_region::lookups::LookupAnyManager;
use halo2_base::{AssignedValue, Context};
use vstd::arithmetic::power2::pow2;

verus! {

/// The halo2 side of a session: the context every gate is appended to, with
/// the range chip that provides the arithmetic and range capabilities.
///
/// The fields are open so that a caller can move a context of a halo2 circuit
/// builder in, build on it, and move it back to prove the circuit.
#[verifier::external_body]
pub struct Halo2Session {
    pub ctx: Context<Fr>,
    pub range: RangeChip<Fr>,
}

/// A cell assigned in the session.
#[verifier::external_body]
#[derive(Copy)]
pub struct Cell {
    inner: AssignedValue<Fr>,
}

impl Clone for Cell {
    /// Relies on `AssignedValue` being `Copy`: the clone is the same cell.
    #[verifier::external_body]
    fn clone(&self) -> (r: Cell) {
        Cell { inner: self.inner }
    }
}

/// What one entry of the session's log records. Indices name earlier entries:
/// the cell an entry assigned is known by the entry's position in the log.
pub enum Gate {
    /// A fresh witness, bound by nothing.
    Witness,
    /// An addition gate on two cells.
    Add { a: nat, b: nat },
    /// A multiplication gate on two cells.
    Mul { a: nat, b: nat },
    /// The remainder of a quotient-and-remainder constraint on `a` divided by
    /// `m`, whose quotient is range-checked below `2^bits / m + 1`.
    Rem { a: nat, m: nat, bits: nat },
    /// A range constraint `a < bound`; it assigns no cell.
    LessThan { a: nat, bound: nat },
    /// An equality test, giving one for equal cells and zero otherwise.
    IsEqual { a: nat, b: nat },
    /// A constraint that `a` holds the constant `k`; it assigns no cell.
    AssertConst { a: nat, k: int },
}

/// A recorded gate with the value of the cell it assigned, zero where it
/// assigns none.
pub struct Entry {
    pub gate: Gate,
    pub value: int,
}

/// A constraint session: the halo2 context and chips, with a ghost log of
/// every gate this session appended to the context, in order.
pub struct Session {
    pub raw: Halo2Session,
    log: Ghost<Seq<Entry>>,
}

impl Session {
    /// The gates this session appended, in order.
    pub closed spec fn log(&self) -> Seq<Entry> {
        self.log@
    }
}

/// A circuit value: its cell, the position in the log of the entry that
/// assigned that cell, and the value the entry recorded for it. The fields
/// are private: only the session's methods pair a cell with its entry.
#[derive(Clone, Copy)]
pub struct Wire {
    cell: Cell,
    id: Ghost<nat>,
    value: u128,
}

impl Wire {
    /// The position in the log of the entry that assigned this wire's cell.
    pub closed spec fn id(&self) -> nat {
        self.id@
    }

    /// The value of this wire's cell.
    pub closed spec fn val(&self) -> u128 {
        self.value
    }

    /// The value of this wire's cell.
    pub fn value(&self) -> (r: u128)
        ensures
            r == self.val(),
    {
        self.value
    }
}

/// The integers held by a sequence of wires.
pub open spec fn values(p: Seq<Wire>) -> Seq<int> {
    p.map_values(|w: Wire| w.val() as int)
}

/// Whether `w` names an entry of `log` whose cell holds `w.val()`.
pub open spec fn tracks(log: Seq<Entry>, w: Wire) -> bool {
    w.id() < log.len() && log[w.id() as int].value == w.val()
}

/// Whether every wire of `p` is tracked by `log`.
pub open spec fn tracks_all(log: Seq<Entry>, p: Seq<Wire>) -> bool {
    forall|i: int| 0 <= i < p.len() ==> #[trigger] tracks(log, p[i])
}

/// Whether `new` keeps `old` as its prefix: a session only appends.
pub open spec fn extends(new: Seq<Entry>, old: Seq<Entry>) -> bool {
    old.len() <= new.len() && forall|k: int| 0 <= k < old.len() ==> #[trigger] new[k] == old[k]
}

/// Whether the constraint of entry `k` holds for the values the log assigned.
/// All values stay below 2^128, far under the field modulus, so the field
/// relations of the gates are these integer relations.
pub open spec fn entry_holds(log: Seq<Entry>, k: int) -> bool {
    let v = log[k].value;
    match log[k].gate {
        Gate::Witness => true,
        Gate::Add { a, b } => a < k && b < k && v == log[a as int].value + log[b as int].value,
        Gate::Mul { a, b } => a < k && b < k && v == log[a as int].value * log[b as int].value,
        Gate::Rem { a, m, bits } => a < k && m > 0 && 0 <= log[a as int].value && log[a as int].value / (m as int)
            < (pow2(bits) as int) / (m as int) + 1 && v == log[a as int].value % (m as int),
        Gate::LessThan { a, bound } => a < k && log[a as int].value < bound,
        Gate::IsEqual { a, b } => a < k && b < k && v == (if log[a as int].value == log[b as int].value {
            1int
        } else {
            0int
        }),
        Gate::AssertConst { a, k: c } => a < k && log[a as int].value == c,
    }
}

/// Whether the values the log assigned satisfy every constraint it recorded.
pub open spec fn satisfied(log: Seq<Entry>) -> bool {
    forall|k: int| 0 <= k < log.len() ==> #[trigger] entry_holds(log, k)
}

/// Appending an entry keeps the log satisfied exactly when the new entry holds.
pub proof fn lemma_satisfied_push(log: Seq<Entry>, e: Entry)
    ensures
        satisfied(log.push(e)) == (satisfied(log) && entry_holds(log.push(e), log.len() as int)),
{
    let l2 = log.push(e);
    assert forall|k: int| 0 <= k < log.len() implies entry_holds(l2, k) == entry_holds(log, k) by {
        assert(l2[k] == log[k]);
        match log[k].gate {
            Gate::Add { a, b } => {
                if a < k && b < k {
                    assert(l2[a as int] == log[a as int] && l2[b as int] == log[b as int]);
                }
            },
            Gate::Mul { a, b } => {
                if a < k && b < k {
                    assert(l2[a as int] == log[a as int] && l2[b as int] == log[b as int]);
                }
            },
            Gate::IsEqual { a, b } => {
                if a < k && b < k {
                    assert(l2[a as int] == log[a as int] && l2[b as int] == log[b as int]);
                }
            },
            Gate::Rem { a, m, bits } => {
                if a < k {
                    assert(l2[a as int] == log[a as int]);
                }
            },
            Gate::LessThan { a, bound } => {
                if a < k {
                    assert(l2[a as int] == log[a as int]);
                }
            },
            Gate::AssertConst { a, k: c } => {
                if a < k {
                    assert(l2[a as int] == log[a as int]);
                }
            },
            Gate::Witness => {},
        }
    }
    if satisfied(l2) {
        assert forall|k: int| 0 <= k < log.len() implies #[trigger] entry_holds(log, k) by {
            assert(entry_holds(l2, k));
        }
    }
    if satisfied(log) && entry_holds(l2, log.len() as int) {
        assert forall|k: int| 0 <= k < l2.len() implies #[trigger] entry_holds(l2, k) by {
            if k < log.len() {
                assert(entry_holds(log, k));
            }
        }
    }
}

/// A log that grew from one that grew from `a` grew from `a`.
pub proof fn lemma_extends_trans(a: Seq<Entry>, b: Seq<Entry>, c: Seq<Entry>)
    requires
        extends(b, a),
        extends(c, b),
    ensures
        extends(c, a),
{
    assert forall|k: int| 0 <= k < a.len() implies #[trigger] c[k] == a[k] by {
        assert(c[k] == b[k]);
    }
}

/// Wires tracked by a log stay tracked as the log grows.
pub proof fn lemma_tracks_extend(old: Seq<Entry>, new: Seq<Entry>, p: Seq<Wire>)
    requires
        tracks_all(old, p),
        extends(new, old),
    ensures
        tracks_all(new, p),
{
    assert forall|i: int| 0 <= i < p.len() implies #[trigger] tracks(new, p[i]) by {
        assert(tracks(old, p[i]));
        assert(new[p[i].id() as int] == old[p[i].id() as int]);
    }
}

/// Relies on halo2-base's `Context::new` and `RangeChip::new`: a fresh context
/// in phase 0 and a range chip with lookup tables of `lookup_bits` bits
/// (`RangeChip::new` shifts `1u64` by `lookup_bits` and divides by it).
#[verifier::external_body]
fn new_session(lookup_bits: usize) -> (r: Halo2Session)
    requires
        1 <= lookup_bits < 64,
{
    let copy_manager = SharedCopyConstraintManager::<Fr>::default();
    let lookups = std::array::from_fn(|_| LookupAnyManager::new(false, copy_manager.clone()));
    Halo2Session {
        ctx: Context::new(false, 0, "poly_chips", 0, copy_manager),
        range: RangeChip::new(lookup_bits, lookups),
    }
}

/// Relies on `Context::load_witness`: assigns `v` as a fresh cell, bound by
/// no constraint.
#[verifier::external_body]
fn load_witness(s: &mut Session, v: u64) -> (r: Cell)
    ensures
        final(s).log() == old(s).log().push(Entry { gate: Gate::Witness, value: v as int }),
{
    Cell { inner: s.raw.ctx.load_witness(Fr::from(v)) }
}

/// Relies on `GateInstructions::add`: a fresh cell constrained to `a + b`.
#[verifier::external_body]
fn gate_add(s: &mut Session, a: &Wire, b: &Wire) -> (r: Cell)
    requires
        tracks(old(s).log(), *a),
        tracks(old(s).log(), *b),
        a.val() + b.val() <= u128::MAX,
    ensures
        final(s).log() == old(s).log().push(
            Entry { gate: Gate::Add { a: a.id(), b: b.id() }, value: a.value + b.value },
        ),
{
    Cell { inner: s.raw.range.gate().add(&mut s.raw.ctx, a.cell.inner, b.cell.inner) }
}

/// Relies on `GateInstructions::mul`: a fresh cell constrained to `a * b`.
#[verifier::external_body]
fn gate_mul(s: &mut Session, a: &Wire, b: &Wire) -> (r: Cell)
    requires
        tracks(old(s).log(), *a),
        tracks(old(s).log(), *b),
        a.val() * b.val() <= u128::MAX,
    ensures
        final(s).log() == old(s).log().push(
            Entry { gate: Gate::Mul { a: a.id(), b: b.id() }, value: a.value * b.value },
        ),
{
    Cell { inner: s.raw.range.gate().mul(&mut s.raw.ctx, a.cell.inner, b.cell.inner) }
}

/// Relies on `GateInstructions::is_equal`: a fresh cell constrained to one
/// when `a == b` and to zero otherwise.
#[verifier::external_body]
fn gate_is_equal(s: &mut Session, a: &Wire, b: &Wire) -> (r: Cell)
    requires
        tracks(old(s).log(), *a),
        tracks(old(s).log(), *b),
    ensures
        final(s).log() == old(s).log().push(
            Entry {
                gate: Gate::IsEqual { a: a.id(), b: b.id() },
                value: if a.val() == b.val() { 1int } else { 0int },
            },
        ),
{
    Cell { inner: s.raw.range.gate().is_equal(&mut s.raw.ctx, a.cell.inner, b.cell.inner) }
}

/// Relies on `GateInstructions::assert_is_const`: constrains `a` to equal `k`.
#[verifier::external_body]
fn gate_assert_is_const(s: &mut Session, a: &Wire, k: u64)
    requires
        a.id() < old(s).log().len(),
    ensures
        final(s).log() == old(s).log().push(
            Entry { gate: Gate::AssertConst { a: a.id(), k: k as int }, value: 0 },
        ),
{
    s.raw.range.gate().assert_is_const(&mut s.raw.ctx, &a.cell.inner, &Fr::from(k))
}

/// Relies on `RangeInstructions::div_mod`, keeping the remainder: a fresh cell
/// constrained with a quotient to `a = quotient * m + remainder`, `remainder < m`,
/// whose witness is the remainder of `a`'s value divided by `m`.
/// `div_mod` asserts `m != 0` and `num_bits` within the field's capacity of 253
/// bits, and range-checks the quotient on `2^num_bits / m + 1`, rounded up to a
/// multiple of the lookup width, which `check_less_than` asserts to be under
/// 253 bits: with a lookup width under 64, `num_bits <= 189` keeps it there.
#[verifier::external_body]
fn range_rem(s: &mut Session, a: &Wire, m: u64, num_bits: usize) -> (r: Cell)
    requires
        tracks(old(s).log(), *a),
        m != 0,
        num_bits <= 189,
    ensures
        final(s).log() == old(s).log().push(
            Entry {
                gate: Gate::Rem { a: a.id(), m: m as nat, bits: num_bits as nat },
                value: (a.val() as int) % (m as int),
            },
        ),
{
    Cell { inner: s.raw.range.div_mod(&mut s.raw.ctx, a.cell.inner, m, num_bits).1 }
}

/// Relies on `RangeInstructions::check_less_than_safe`: constrains `a < bound`.
/// Its range check spans the bit length of `bound` rounded up to the lookup
/// width, which for a 64-bit bound and a lookup width under 64 stays within the
/// field's capacity.
#[verifier::external_body]
fn range_check_less_than(s: &mut Session, a: &Wire, bound: u64)
    requires
        a.id() < old(s).log().len(),
    ensures
        final(s).log() == old(s).log().push(
            Entry { gate: Gate::LessThan { a: a.id(), bound: bound as nat }, value: 0 },
        ),
{
    s.raw.range.check_less_than_safe(&mut s.raw.ctx, a.cell.inner, bound)
}

impl Session {
    /// A fresh session, with an empty log, whose range checks use lookup
    /// tables of `lookup_bits` bits.
    pub fn new(lookup_bits: usize) -> (r: Session)
        requires
            1 <= lookup_bits < 64,
        ensures
            r.log() == Seq::<Entry>::empty(),
    {
        Session { raw: new_session(lookup_bits), log: Ghost(Seq::empty()) }
    }

    /// Introduces `v` as a fresh witness, constrained by nothing yet.
    pub fn witness(&mut self, v: u64) -> (r: Wire)
        ensures
            final(self).log() == old(self).log().push(Entry { gate: Gate::Witness, value: v as int }),
            r.val() == v,
            r.id() == old(self).log().len(),
            tracks(final(self).log(), r),
            satisfied(final(self).log()) == satisfied(old(self).log()),
    {
        let ghost id = self.log().len();
        let cell = load_witness(self, v);
        proof {
            lemma_satisfied_push(old(self).log(), Entry { gate: Gate::Witness, value: v as int });
        }
        Wire { cell, id: Ghost(id), value: v as u128 }
    }

    /// Introduces each of `vs` as a fresh witness, in order.
    pub fn witnesses(&mut self, vs: &Vec<u64>) -> (r: Vec<Wire>)
        ensures
            r.len() == vs.len(),
            forall|i: int| 0 <= i < vs.len() ==> #[trigger] r[i].val() == vs[i],
            forall|i: int| 0 <= i < vs.len() ==> #[trigger] r[i].id() == old(self).log().len() + i,
            forall|i: int| 0 <= i < vs.len() ==> #[trigger] final(self).log()[old(self).log().len() + i] == (Entry {
                gate: Gate::Witness,
                value: vs[i] as int,
            }),
            final(self).log().len() == old(self).log().len() + vs.len(),
            extends(final(self).log(), old(self).log()),
            tracks_all(final(self).log(), r@),
            satisfied(final(self).log()) == satisfied(old(self).log()),
    {
        let mut r: Vec<Wire> = Vec::new();
        let mut i: usize = 0;
        while i < vs.len()
            invariant
                i <= vs.len(),
                r.len() == i,
                self.log().len() == old(self).log().len() + i,
                extends(self.log(), old(self).log()),
                satisfied(self.log()) == satisfied(old(self).log()),
                forall|k: int| 0 <= k < i ==> #[trigger] r[k].val() == vs[k],
                forall|k: int| 0 <= k < i ==> #[trigger] r[k].id() == old(self).log().len() + k,
                forall|k: int| 0 <= k < i ==> #[trigger] self.log()[old(self).log().len() + k] == (Entry {
                    gate: Gate::Witness,
                    value: vs[k] as int,
                }),
                tracks_all(self.log(), r@),
            decreases vs.len() - i,
        {
            let ghost before = self.log();
            let w = self.witness(vs[i]);
            proof {
                lemma_tracks_extend(before, self.log(), r@);
            }
            r.push(w);
            i = i + 1;
        }
        r
    }

    /// Constrains `a + b`.
    pub fn add(&mut self, a: Wire, b: Wire) -> (r: Wire)
        requires
            tracks(old(self).log(), a),
            tracks(old(self).log(), b),
            a.val() + b.val() <= u128::MAX,
        ensures
            final(self).log() == old(self).log().push(
                Entry { gate: Gate::Add { a: a.id(), b: b.id() }, value: r.val() as int },
            ),
            r.val() == a.val() + b.val(),
            r.id() == old(self).log().len(),
            tracks(final(self).log(), r),
            satisfied(final(self).log()) == satisfied(old(self).log()),
    {
        let ghost id = self.log().len();
        let cell = gate_add(self, &a, &b);
        proof {
            lemma_satisfied_push(old(self).log(), self.log().last());
        }
        Wire { cell, id: Ghost(id), value: a.value + b.value }
    }

    /// Constrains `a * b`.
    pub fn mul(&mut self, a: Wire, b: Wire) -> (r: Wire)
        requires
            tracks(old(self).log(), a),
            tracks(old(self).log(), b),
            a.val() * b.val() <= u128::MAX,
        ensures
            final(self).log() == old(self).log().push(
                Entry { gate: Gate::Mul { a: a.id(), b: b.id() }, value: r.val() as int },
            ),
            r.val() == a.val() * b.val(),
            r.id() == old(self).log().len(),
            tracks(final(self).log(), r),
            satisfied(final(self).log()) == satisfied(old(self).log()),
    {
        let ghost id = self.log().len();
        let cell = gate_mul(self, &a, &b);
        proof {
            lemma_satisfied_push(old(self).log(), self.log().last());
        }
        Wire { cell, id: Ghost(id), value: a.value * b.value }
    }

    /// Constrains the remainder of `a` divided by `m`, for `a` of at most
    /// `num_bits` bits; the log stays satisfied exactly when the quotient
    /// passes the range check on `2^num_bits / m + 1`.
    pub fn rem(&mut self, a: Wire, m: u64, num_bits: usize) -> (r: Wire)
        requires
            tracks(old(self).log(), a),
            m != 0,
            num_bits <= 189,
        ensures
            final(self).log() == old(self).log().push(
                Entry { gate: Gate::Rem { a: a.id(), m: m as nat, bits: num_bits as nat }, value: r.val() as int },
            ),
            r.val() == a.val() % (m as u128),
            r.val() < m,
            r.id() == old(self).log().len(),
            tracks(final(self).log(), r),
            satisfied(final(self).log()) == (satisfied(old(self).log()) && (a.val() as int) / (m as int) < (pow2(num_bits as nat) as int) / (m as int) + 1),
    {
        let ghost id = self.log().len();
        let cell = range_rem(self, &a, m, num_bits);
        proof {
            lemma_satisfied_push(old(self).log(), self.log().last());
        }
        Wire { cell, id: Ghost(id), value: a.value % (m as u128) }
    }

    /// Constrains `a < bound`; the log stays satisfied exactly when it holds.
    pub fn check_less_than(&mut self, a: Wire, bound: u64)
        requires
            tracks(old(self).log(), a),
        ensures
            final(self).log() == old(self).log().push(
                Entry { gate: Gate::LessThan { a: a.id(), bound: bound as nat }, value: 0 },
            ),
            satisfied(final(self).log()) == (satisfied(old(self).log()) && a.val() < bound),
    {
        range_check_less_than(self, &a, bound);
        proof {
            lemma_satisfied_push(old(self).log(), self.log().last());
        }
    }

    /// Constrains `a == b`: an equality gate whose output is asserted to be
    /// one. The log stays satisfied exactly when the values are equal.
    pub fn assert_equal(&mut self, a: Wire, b: Wire)
        requires
            tracks(old(self).log(), a),
            tracks(old(self).log(), b),
        ensures
            final(self).log().len() == old(self).log().len() + 2,
            extends(final(self).log(), old(self).log()),
            final(self).log()[old(self).log().len() as int].gate == (Gate::IsEqual { a: a.id(), b: b.id() }),
            final(self).log()[old(self).log().len() + 1int].gate == (Gate::AssertConst {
                a: old(self).log().len() as nat,
                k: 1,
            }),
            satisfied(final(self).log()) == (satisfied(old(self).log()) && a.val() == b.val()),
    {
        let ghost id = self.log().len();
        let cell = gate_is_equal(self, &a, &b);
        let ghost l1 = self.log();
        proof {
            lemma_satisfied_push(old(self).log(), l1.last());
        }
        let eq = Wire { cell, id: Ghost(id), value: if a.value == b.value { 1 } else { 0 } };
        gate_assert_is_const(self, &eq, 1);
        proof {
            lemma_satisfied_push(l1, self.log().last());
        }
    }
}

} // verus!

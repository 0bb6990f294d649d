use vstd::prelude::*;

use crate::handle::Property;

verus! {

/// A binding: how a property's value is computed from other properties.
///
/// Arithmetic wraps around on overflow, as `i64::wrapping_*` does.
pub enum Binding {
    /// A fixed value.
    Constant(i64),
    /// The current value of another property.
    Read(Property),
    Add(Box<Binding>, Box<Binding>),
    Sub(Box<Binding>, Box<Binding>),
    Mul(Box<Binding>, Box<Binding>),
}

/// The value of `b` when every property `p` it reads holds `values[p]`.
pub open spec fn eval_binding(b: Binding, values: Seq<i64>) -> i64
    decreases b,
{
    match b {
        Binding::Constant(c) => c,
        Binding::Read(p) => values[p.inner.0 as int],
        Binding::Add(l, r) => vstd::wrapping::i64_specs::wrapping_add(
            eval_binding(*l, values),
            eval_binding(*r, values),
        ),
        Binding::Sub(l, r) => vstd::wrapping::i64_specs::wrapping_sub(
            eval_binding(*l, values),
            eval_binding(*r, values),
        ),
        Binding::Mul(l, r) => vstd::wrapping::i64_specs::wrapping_mul(
            eval_binding(*l, values),
            eval_binding(*r, values),
        ),
    }
}

/// The handles of the properties that `b` reads.
pub open spec fn reads_of(b: Binding) -> Set<int>
    decreases b,
{
    match b {
        Binding::Constant(_) => Set::empty(),
        Binding::Read(p) => Set::empty().insert(p.inner.0 as int),
        Binding::Add(l, r) => reads_of(*l) + reads_of(*r),
        Binding::Sub(l, r) => reads_of(*l) + reads_of(*r),
        Binding::Mul(l, r) => reads_of(*l) + reads_of(*r),
    }
}

/// The number of nodes of `b`.
pub open spec fn binding_size(b: Binding) -> nat
    decreases b,
{
    match b {
        Binding::Constant(_) => 1,
        Binding::Read(_) => 1,
        Binding::Add(l, r) => 1 + binding_size(*l) + binding_size(*r),
        Binding::Sub(l, r) => 1 + binding_size(*l) + binding_size(*r),
        Binding::Mul(l, r) => 1 + binding_size(*l) + binding_size(*r),
    }
}

/// Two tables of values that agree on what `b` reads give `b` the same value.
pub proof fn lemma_eval_depends_on_reads(b: Binding, v1: Seq<i64>, v2: Seq<i64>)
    requires
        forall|i: int| #[trigger] reads_of(b).contains(i) ==> v1[i] == v2[i],
    ensures
        eval_binding(b, v1) == eval_binding(b, v2),
    decreases b,
{
    match b {
        Binding::Constant(_) => {},
        Binding::Read(p) => {
            assert(reads_of(b).contains(p.inner.0 as int));
        },
        Binding::Add(l, r) | Binding::Sub(l, r) | Binding::Mul(l, r) => {
            assert forall|i: int| #[trigger] reads_of(*l).contains(i) implies v1[i] == v2[i] by {
                assert(reads_of(b).contains(i));
            }
            assert forall|i: int| #[trigger] reads_of(*r).contains(i) implies v1[i] == v2[i] by {
                assert(reads_of(b).contains(i));
            }
            lemma_eval_depends_on_reads(*l, v1, v2);
            lemma_eval_depends_on_reads(*r, v1, v2);
        },
    }
}

impl Binding {
    /// A deep copy of the binding.
    pub fn duplicate(&self) -> (r: Binding)
        ensures
            r == *self,
        decreases self,
    {
        match self {
            Binding::Constant(c) => Binding::Constant(*c),
            Binding::Read(p) => Binding::Read(*p),
            Binding::Add(l, r) => Binding::Add(Box::new(l.duplicate()), Box::new(r.duplicate())),
            Binding::Sub(l, r) => Binding::Sub(Box::new(l.duplicate()), Box::new(r.duplicate())),
            Binding::Mul(l, r) => Binding::Mul(Box::new(l.duplicate()), Box::new(r.duplicate())),
        }
    }
}

} // verus!

//! Properties of sequences of operations, stated over the outcomes that the
//! operations' own contracts promise.
use vstd::prelude::*;

use crate::binding::{eval_binding, lemma_eval_depends_on_reads, reads_of, Binding};
use crate::graph::{settled, BindingError, PropertyGraph};

verus! {

/// After a value is written to a property, reading that property returns
/// the value.
pub proof fn law_write_then_read(
    g0: PropertyGraph,
    g1: PropertyGraph,
    g2: PropertyGraph,
    id: int,
    v: i64,
    r: Result<i64, BindingError>,
)
    requires
        g0.write_outcome(g1, id, v),
        g1.read_outcome(g2, id, r),
    ensures
        r == Ok::<i64, BindingError>(v),
{
}

/// A property that holds a written value keeps it, and stays unbound, when
/// any property is read or when another property is written or bound: only
/// a write or a binding of that property itself replaces the value.
pub proof fn law_written_value_persists(
    g1: PropertyGraph,
    g2: PropertyGraph,
    a: int,
    other: int,
    v: i64,
    b: Binding,
    r: Result<i64, BindingError>,
)
    requires
        g1.wf(),
        0 <= a < g1.len(),
        g1.cell(a).binding is None,
        g1.read_outcome(g2, other, r) || (other != a && (g1.write_outcome(g2, other, v)
            || g1.bind_outcome(g2, other, b))),
    ensures
        g2.cell(a).value == g1.cell(a).value,
        g2.cell(a).binding is None,
{
    if g1.write_outcome(g2, other, v) && other != a {
        let m = choose|m: Set<int>| #[trigger] g1.marks(g2, other, m);
    } else if g1.bind_outcome(g2, other, b) && other != a {
        let m = choose|m: Set<int>| #[trigger] g1.marks(g2, other, m);
    }
}

/// Installing a binding evaluates nothing: the property keeps its value and
/// is dirty until it is read.
pub proof fn law_binding_is_lazy(g0: PropertyGraph, g1: PropertyGraph, id: int, b: Binding)
    requires
        g0.bind_outcome(g1, id, b),
    ensures
        g1.cell(id).value == g0.cell(id).value,
        g1.cell(id).dirty,
        g1.cell(id).binding == Some(b),
{
}

/// With `b` bound to `f` over `a` and `c` bound to `h` over `b`, writing `x`
/// to `a` and then reading `c` succeeds with `h(f(x))`, and leaves `b` and
/// `c` clean, so that a further read of either evaluates nothing.
pub proof fn law_chain_of_three(
    g0: PropertyGraph,
    g1: PropertyGraph,
    g2: PropertyGraph,
    a: int,
    b: int,
    c: int,
    f: Binding,
    h: Binding,
    x: i64,
    r: Result<i64, BindingError>,
)
    requires
        g0.wf(),
        0 <= a < g0.len(),
        0 <= b < g0.len(),
        0 <= c < g0.len(),
        a != b,
        a != c,
        b != c,
        g0.cell(b).binding == Some(f),
        g0.cell(c).binding == Some(h),
        reads_of(f) == Set::<int>::empty().insert(a),
        reads_of(h) == Set::<int>::empty().insert(b),
        g0.write_outcome(g1, a, x),
        g1.read_outcome(g2, c, r),
    ensures
        r is Ok,
        r->Ok_0 == eval_binding(h, g0.values().update(b, eval_binding(f, g0.values().update(a, x)))),
        !g2.cell(b).dirty,
        !g2.cell(c).dirty,
{
    let m = choose|m: Set<int>| #[trigger] g0.marks(g1, a, m);
    assert(g1.cell(b).binding == Some(f));
    assert(g1.cell(c).binding == Some(h));
    let rank = |i: int|
        if i == c {
            2nat
        } else if i == b {
            1nat
        } else {
            0nat
        };
    assert(g1.cell(a).binding is None);
    assert(g1.ranked(rank)) by {
        assert forall|y: int, z: int|
            #![trigger reads_of(g1.cell(y).binding->0).contains(z), rank(y), rank(z)]
            0 <= y < g1.len() && !settled(g1.cell(y)) && rank(y) > 0 && reads_of(
                g1.cell(y).binding->0,
            ).contains(z) && !settled(g1.cell(z)) implies 0 < rank(z) < rank(y) by {
            if y == c {
                assert(z == b);
            } else {
                assert(y == b);
                assert(z == a);
            }
        }
    }
    assert(rank(c) > 0);
    assert(g2.cell(c).binding == Some(h));
    assert(g2.cell(b).binding == Some(f));
    assert(g2.cell(a).value == x);
    assert(reads_of(h).contains(b));
    assert(g2.fresh(c));
    assert(settled(g2.cell(b)));
    assert(g2.fresh(b));
    let vf = eval_binding(f, g0.values().update(a, x));
    assert forall|i: int| #[trigger] reads_of(f).contains(i) implies g2.values()[i] == g0.values().update(
        a,
        x,
    )[i] by {
        assert(i == a);
    }
    lemma_eval_depends_on_reads(f, g2.values(), g0.values().update(a, x));
    assert forall|i: int| #[trigger] reads_of(h).contains(i) implies g2.values()[i] == g0.values().update(
        b,
        vf,
    )[i] by {
        assert(i == b);
    }
    lemma_eval_depends_on_reads(h, g2.values(), g0.values().update(b, vf));
}

/// Once `b` is bound to a constant, reading it gives that constant whatever
/// is written to any other property.
pub proof fn law_constant_binding_ignores_writes(
    g0: PropertyGraph,
    g1: PropertyGraph,
    g2: PropertyGraph,
    g3: PropertyGraph,
    a: int,
    b: int,
    k: i64,
    v: i64,
    r: Result<i64, BindingError>,
)
    requires
        g0.wf(),
        0 <= a < g0.len(),
        0 <= b < g0.len(),
        a != b,
        g0.bind_outcome(g1, b, Binding::Constant(k)),
        g1.write_outcome(g2, a, v),
        g2.read_outcome(g3, b, r),
    ensures
        r == Ok::<i64, BindingError>(k),
{
    let m = choose|m: Set<int>| #[trigger] g1.marks(g2, a, m);
    assert(g2.cell(b).binding == Some(Binding::Constant(k)));
    assert(reads_of(Binding::Constant(k)).is_empty());
    assert(g3.cell(b).binding == Some(Binding::Constant(k)));
}

/// Reading a property twice in a row gives the same result, and the second
/// read evaluates nothing: no value and no dirty flag changes.
pub proof fn law_clean_read_is_idempotent(
    g1: PropertyGraph,
    g2: PropertyGraph,
    g3: PropertyGraph,
    id: int,
    r1: Result<i64, BindingError>,
    r2: Result<i64, BindingError>,
)
    requires
        g1.read_outcome(g2, id, r1),
        g2.read_outcome(g3, id, r2),
        r1 is Ok,
    ensures
        r2 == r1,
        forall|i: int|
            #![trigger g3.cell(i)]
            0 <= i < g2.len() ==> g3.cell(i).value == g2.cell(i).value && g3.cell(i).dirty
                == g2.cell(i).dirty,
{
}

/// A dirty property whose binding reads the property itself fails with
/// `CircularDependency` when read.
pub proof fn law_self_cycle_fails(
    g1: PropertyGraph,
    g2: PropertyGraph,
    id: int,
    r: Result<i64, BindingError>,
)
    requires
        g1.cell(id).binding is Some,
        g1.cell(id).dirty,
        reads_of(g1.cell(id).binding->0).contains(id),
        g1.read_outcome(g2, id, r),
    ensures
        r == Err::<i64, BindingError>(BindingError::CircularDependency),
{
}

} // verus!

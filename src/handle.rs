use vstd::prelude::*;

use crate::binding::Binding;
use crate::context::EvaluationContext;
use crate::graph::{reads_within, BindingError, PropertyGraph};

verus! {

/// A stable handle to a property of a `PropertyGraph`: the index of its slot.
///
/// Slots are never reused, so a handle to a dropped property stays a handle
/// to that dropped property.
#[derive(Clone, Copy, PartialEq, Eq, Structural, Debug)]
pub struct PropertyHandleOpaque(pub usize);

/// A property that can be assigned a value or a binding, and that tracks
/// which bindings depend on it.
#[derive(Clone, Copy, PartialEq, Eq, Structural, Debug)]
pub struct Property {
    pub inner: PropertyHandleOpaque,
}

impl Property {
    pub open spec fn id(&self) -> int {
        self.inner.0 as int
    }

    /// Adds a clean, unbound property holding 0 to `graph`.
    pub fn new(graph: &mut PropertyGraph) -> (r: Property)
        requires
            old(graph).wf(),
            old(graph).len() < usize::MAX,
        ensures
            final(graph).wf(),
            final(graph).stack@ == old(graph).stack@,
            r.id() == old(graph).len(),
            final(graph).cells@ == old(graph).cells@.push(final(graph).cell(r.id())),
            final(graph).cell(r.id()).value == 0,
            final(graph).cell(r.id()).binding is None,
            !final(graph).cell(r.id()).dirty,
            final(graph).cell(r.id()).dependents@.len() == 0,
            final(graph).cell(r.id()).alive,
    {
        Property { inner: sixtyfps_property_init(graph) }
    }

    /// Gets the value of the property, evaluating its binding first if it is
    /// dirty.
    pub fn get(&self, graph: &mut PropertyGraph, context: &EvaluationContext) -> (r: Result<
        i64,
        BindingError,
    >)
        requires
            old(graph).wf(),
            old(graph).consistent(),
            old(graph).idle(),
            self.id() < old(graph).len(),
        ensures
            old(graph).read_outcome(*final(graph), self.id(), r),
    {
        sixtyfps_property_update(graph, self.inner, context)
    }

    /// Assigns a value; every property whose binding depends on this one,
    /// transitively, is marked dirty.
    pub fn set(&self, graph: &mut PropertyGraph, t: i64)
        requires
            old(graph).wf(),
            old(graph).consistent(),
            old(graph).idle(),
            self.id() < old(graph).len(),
            old(graph).cell(self.id()).alive,
        ensures
            old(graph).write_outcome(*final(graph), self.id(), t),
    {
        sixtyfps_property_set_changed(graph, self.inner, t)
    }

    /// Installs a binding, evaluated lazily on the next read; this property
    /// and every property that depends on it, transitively, are marked dirty.
    pub fn set_binding(&self, graph: &mut PropertyGraph, f: Binding)
        requires
            old(graph).wf(),
            old(graph).consistent(),
            old(graph).idle(),
            self.id() < old(graph).len(),
            old(graph).cell(self.id()).alive,
            reads_within(f, old(graph).len()),
        ensures
            old(graph).bind_outcome(*final(graph), self.id(), f),
    {
        sixtyfps_property_set_binding(graph, self.inner, f)
    }
}

/// Adds a clean, unbound property holding 0 to `graph` and returns its handle.
pub fn sixtyfps_property_init(graph: &mut PropertyGraph) -> (r: PropertyHandleOpaque)
    requires
        old(graph).wf(),
        old(graph).len() < usize::MAX,
    ensures
        final(graph).wf(),
        final(graph).stack@ == old(graph).stack@,
        r.0 == old(graph).len(),
        final(graph).cells@ == old(graph).cells@.push(final(graph).cell(r.0 as int)),
        final(graph).cell(r.0 as int).value == 0,
        final(graph).cell(r.0 as int).binding is None,
        !final(graph).cell(r.0 as int).dirty,
        final(graph).cell(r.0 as int).dependents@.len() == 0,
        final(graph).cell(r.0 as int).alive,
{
    PropertyHandleOpaque(graph.add_property())
}

/// Brings the property up to date, evaluating its binding if it is dirty,
/// and returns its value.
pub fn sixtyfps_property_update(
    graph: &mut PropertyGraph,
    handle: PropertyHandleOpaque,
    context: &EvaluationContext,
) -> (r: Result<i64, BindingError>)
    requires
        old(graph).wf(),
        old(graph).consistent(),
        old(graph).idle(),
        handle.0 < old(graph).len(),
    ensures
        old(graph).read_outcome(*final(graph), handle.0 as int, r),
{
    let r = graph.read(handle.0, context);
    proof {
        let id = handle.0 as int;
        if let Err(e) = r {
            assert(e == BindingError::CircularDependency);
            assert(r == Err::<i64, BindingError>(BindingError::CircularDependency));
        }
        if r is Ok && graph.cell(id).binding is Some {
            assert(!graph.cell(id).dirty);
            assert(graph.fresh(id));
        }
    }
    r
}

/// Records that the property now holds `value`: its binding is removed, it
/// is clean, and every property that depends on it, transitively, is dirty.
pub fn sixtyfps_property_set_changed(graph: &mut PropertyGraph, handle: PropertyHandleOpaque, value: i64)
    requires
        old(graph).wf(),
        old(graph).consistent(),
        old(graph).idle(),
        handle.0 < old(graph).len(),
        old(graph).cell(handle.0 as int).alive,
    ensures
        old(graph).write_outcome(*final(graph), handle.0 as int, value),
{
    graph.write(handle.0, value)
}

/// Installs a binding on the property; it and every property that depends
/// on it, transitively, are marked dirty.
pub fn sixtyfps_property_set_binding(graph: &mut PropertyGraph, handle: PropertyHandleOpaque, binding: Binding)
    requires
        old(graph).wf(),
        old(graph).consistent(),
        old(graph).idle(),
        handle.0 < old(graph).len(),
        old(graph).cell(handle.0 as int).alive,
        reads_within(binding, old(graph).len()),
    ensures
        old(graph).bind_outcome(*final(graph), handle.0 as int, binding),
{
    graph.bind(handle.0, binding)
}

/// Releases the property and its binding. Its slot is not reused.
pub fn sixtyfps_property_drop(graph: &mut PropertyGraph, handle: PropertyHandleOpaque)
    requires
        old(graph).wf(),
        old(graph).consistent(),
        old(graph).idle(),
        handle.0 < old(graph).len(),
    ensures
        final(graph).wf(),
        final(graph).consistent(),
        final(graph).idle(),
        final(graph).len() == old(graph).len(),
        !final(graph).cell(handle.0 as int).alive,
        final(graph).cell(handle.0 as int).binding is None,
        final(graph).cell(handle.0 as int).value == old(graph).cell(handle.0 as int).value,
        final(graph).cell(handle.0 as int).dirty == old(graph).cell(handle.0 as int).dirty,
        final(graph).cell(handle.0 as int).dependents@ == old(graph).cell(handle.0 as int).dependents@,
        forall|i: int| 0 <= i < old(graph).len() && i != handle.0 ==> #[trigger] final(graph).cell(i) == old(graph).cell(i),
{
    graph.release(handle.0)
}

} // verus!

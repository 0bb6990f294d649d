use sixtyfps_properties::{
    sixtyfps_property_drop, sixtyfps_property_init, sixtyfps_property_set_binding,
    sixtyfps_property_set_changed, sixtyfps_property_update, Binding, BindingError,
    EvaluationContext, Property, PropertyGraph,
};

fn read(p: Property) -> Binding {
    Binding::Read(p)
}

fn mul(a: Binding, b: Binding) -> Binding {
    Binding::Mul(Box::new(a), Box::new(b))
}

fn add(a: Binding, b: Binding) -> Binding {
    Binding::Add(Box::new(a), Box::new(b))
}

fn sub(a: Binding, b: Binding) -> Binding {
    Binding::Sub(Box::new(a), Box::new(b))
}

#[test]
fn properties_simple_test() {
    let mut g = PropertyGraph::new();
    let width = Property::new(&mut g);
    let height = Property::new(&mut g);
    let area = Property::new(&mut g);
    let dummy_eval_context = EvaluationContext::for_root_component(0);
    area.set_binding(&mut g, mul(read(width), read(height)));
    width.set(&mut g, 4);
    height.set(&mut g, 8);
    assert_eq!(width.get(&mut g, &dummy_eval_context), Ok(4));
    assert_eq!(height.get(&mut g, &dummy_eval_context), Ok(8));
    assert_eq!(area.get(&mut g, &dummy_eval_context), Ok(4 * 8));

    width.set_binding(&mut g, mul(read(height), Binding::Constant(2)));
    assert_eq!(width.get(&mut g, &dummy_eval_context), Ok(8 * 2));
    assert_eq!(height.get(&mut g, &dummy_eval_context), Ok(8));
    assert_eq!(area.get(&mut g, &dummy_eval_context), Ok(8 * 8 * 2));
}

#[test]
fn concrete_scenario_in_written_order() {
    let mut g = PropertyGraph::new();
    let ctx = EvaluationContext::for_root_component(7);
    let width = Property::new(&mut g);
    let height = Property::new(&mut g);
    let area = Property::new(&mut g);
    width.set(&mut g, 4);
    height.set(&mut g, 8);
    area.set_binding(&mut g, mul(read(width), read(height)));
    assert_eq!(area.get(&mut g, &ctx), Ok(32));
    width.set_binding(&mut g, mul(read(height), Binding::Constant(2)));
    assert_eq!(width.get(&mut g, &ctx), Ok(16));
    assert_eq!(height.get(&mut g, &ctx), Ok(8));
    assert_eq!(area.get(&mut g, &ctx), Ok(128));
}

#[test]
fn set_then_get_returns_value() {
    let mut g = PropertyGraph::new();
    let ctx = EvaluationContext::for_root_component(0);
    let a = Property::new(&mut g);
    let b = Property::new(&mut g);
    for v in [0i64, -5, 42, i64::MAX, i64::MIN] {
        a.set(&mut g, v);
        assert_eq!(a.get(&mut g, &ctx), Ok(v));
        b.set(&mut g, 1);
        assert_eq!(a.get(&mut g, &ctx), Ok(v));
    }
}

#[test]
fn fresh_binding_is_not_evaluated_until_read() {
    let mut g = PropertyGraph::new();
    let ctx = EvaluationContext::for_root_component(0);
    let a = Property::new(&mut g);
    let b = Property::new(&mut g);
    a.set(&mut g, 3);
    b.set_binding(&mut g, add(read(a), Binding::Constant(1)));
    assert!(g.cells[b.inner.0].dirty);
    assert_eq!(g.cells[b.inner.0].value, 0);
    assert!(g.cells[a.inner.0].dependents.is_empty());
    assert_eq!(b.get(&mut g, &ctx), Ok(4));
    assert!(!g.cells[b.inner.0].dirty);
    assert_eq!(g.cells[a.inner.0].dependents, vec![b.inner.0]);
}

#[test]
fn chain_of_three_propagates() {
    let mut g = PropertyGraph::new();
    let ctx = EvaluationContext::for_root_component(0);
    let a = Property::new(&mut g);
    let b = Property::new(&mut g);
    let c = Property::new(&mut g);
    a.set(&mut g, 1);
    b.set_binding(&mut g, mul(read(a), Binding::Constant(10)));
    c.set_binding(&mut g, sub(read(b), Binding::Constant(3)));
    assert_eq!(c.get(&mut g, &ctx), Ok(7));
    a.set(&mut g, 5);
    assert!(g.cells[b.inner.0].dirty);
    assert!(g.cells[c.inner.0].dirty);
    assert_eq!(c.get(&mut g, &ctx), Ok(47));
    assert!(!g.cells[b.inner.0].dirty);
    assert_eq!(b.get(&mut g, &ctx), Ok(50));
}

#[test]
fn rebinding_to_constant_drops_old_dependency() {
    let mut g = PropertyGraph::new();
    let ctx = EvaluationContext::for_root_component(0);
    let a = Property::new(&mut g);
    let b = Property::new(&mut g);
    a.set(&mut g, 2);
    b.set_binding(&mut g, add(read(a), read(a)));
    assert_eq!(b.get(&mut g, &ctx), Ok(4));
    b.set_binding(&mut g, Binding::Constant(9));
    assert_eq!(b.get(&mut g, &ctx), Ok(9));
    a.set(&mut g, 100);
    assert_eq!(b.get(&mut g, &ctx), Ok(9));
    a.set(&mut g, -1);
    assert_eq!(b.get(&mut g, &ctx), Ok(9));
}

#[test]
fn clean_read_twice_is_stable() {
    let mut g = PropertyGraph::new();
    let ctx = EvaluationContext::for_root_component(0);
    let a = Property::new(&mut g);
    let b = Property::new(&mut g);
    a.set(&mut g, 6);
    b.set_binding(&mut g, mul(read(a), read(a)));
    let first = b.get(&mut g, &ctx);
    assert!(!g.cells[b.inner.0].dirty);
    let deps_after_first = g.cells[a.inner.0].dependents.clone();
    let second = b.get(&mut g, &ctx);
    assert_eq!(first, Ok(36));
    assert_eq!(first, second);
    assert_eq!(g.cells[a.inner.0].dependents, deps_after_first);
}

#[test]
fn direct_self_cycle_fails() {
    let mut g = PropertyGraph::new();
    let ctx = EvaluationContext::for_root_component(0);
    let a = Property::new(&mut g);
    a.set_binding(&mut g, add(read(a), Binding::Constant(1)));
    assert_eq!(a.get(&mut g, &ctx), Err(BindingError::CircularDependency));
    assert!(g.cells[a.inner.0].dirty);
    assert!(g.stack.is_empty());
}

#[test]
fn mutual_cycle_fails_and_sweep_terminates() {
    let mut g = PropertyGraph::new();
    let ctx = EvaluationContext::for_root_component(0);
    let a = Property::new(&mut g);
    let b = Property::new(&mut g);
    let c = Property::new(&mut g);
    c.set(&mut g, 1);
    a.set_binding(&mut g, add(read(b), read(c)));
    b.set_binding(&mut g, add(read(a), read(c)));
    assert_eq!(a.get(&mut g, &ctx), Err(BindingError::CircularDependency));
    assert_eq!(b.get(&mut g, &ctx), Err(BindingError::CircularDependency));
    c.set(&mut g, 2);
    assert!(g.cells[a.inner.0].dirty);
    assert!(g.cells[b.inner.0].dirty);
}

#[test]
fn wrapping_arithmetic() {
    let mut g = PropertyGraph::new();
    let ctx = EvaluationContext::for_root_component(0);
    let a = Property::new(&mut g);
    let b = Property::new(&mut g);
    a.set(&mut g, i64::MAX);
    b.set_binding(&mut g, add(read(a), Binding::Constant(1)));
    assert_eq!(b.get(&mut g, &ctx), Ok(i64::MIN));
    b.set_binding(&mut g, mul(read(a), Binding::Constant(2)));
    assert_eq!(b.get(&mut g, &ctx), Ok(-2));
}

#[test]
fn opaque_boundary_operations() {
    let mut g = PropertyGraph::new();
    let ctx = EvaluationContext::for_root_component(0);
    let a = sixtyfps_property_init(&mut g);
    let b = sixtyfps_property_init(&mut g);
    assert_eq!(a.0, 0);
    assert_eq!(b.0, 1);
    assert_eq!(sixtyfps_property_update(&mut g, a, &ctx), Ok(0));
    sixtyfps_property_set_changed(&mut g, a, 21);
    sixtyfps_property_set_binding(
        &mut g,
        b,
        mul(Binding::Read(Property { inner: a }), Binding::Constant(2)),
    );
    assert_eq!(sixtyfps_property_update(&mut g, b, &ctx), Ok(42));
    sixtyfps_property_set_changed(&mut g, a, 5);
    assert!(g.cells[b.0].dirty);
    assert_eq!(sixtyfps_property_update(&mut g, b, &ctx), Ok(10));
    sixtyfps_property_drop(&mut g, b);
    assert!(!g.cells[b.0].alive);
    assert!(g.cells[b.0].binding.is_none());
    sixtyfps_property_set_changed(&mut g, a, 6);
    assert!(!g.cells[b.0].dirty);
    assert_eq!(sixtyfps_property_update(&mut g, b, &ctx), Ok(10));
}

#[test]
fn evaluation_context_chain() {
    let root = EvaluationContext::for_root_component(1);
    assert_eq!(root.component, 1);
    assert!(root.parent_context.is_none());
    let child = root.child_context(2);
    assert_eq!(child.component, 2);
    let parent = child.parent_context.as_ref().unwrap();
    assert_eq!(parent.component, 1);
    assert!(parent.parent_context.is_none());
    let grandchild = child.child_context(3);
    let p = grandchild.parent_context.as_ref().unwrap();
    assert_eq!(p.component, 2);
    assert_eq!(p.parent_context.as_ref().unwrap().component, 1);
}

#[test]
fn unrelated_cycle_does_not_block_reads() {
    let mut g = PropertyGraph::new();
    let ctx = EvaluationContext::for_root_component(0);
    let x = Property::new(&mut g);
    let y = Property::new(&mut g);
    let a = Property::new(&mut g);
    let b = Property::new(&mut g);
    x.set_binding(&mut g, read(y));
    y.set_binding(&mut g, read(x));
    a.set(&mut g, 11);
    b.set_binding(&mut g, sub(Binding::Constant(1), read(a)));
    assert_eq!(b.get(&mut g, &ctx), Ok(-10));
    assert_eq!(x.get(&mut g, &ctx), Err(BindingError::CircularDependency));
    a.set(&mut g, 20);
    assert_eq!(b.get(&mut g, &ctx), Ok(-19));
}

#[test]
fn write_marks_transitive_dependents_only() {
    let mut g = PropertyGraph::new();
    let ctx = EvaluationContext::for_root_component(0);
    let a = Property::new(&mut g);
    let b = Property::new(&mut g);
    let c = Property::new(&mut g);
    let d = Property::new(&mut g);
    a.set(&mut g, 1);
    d.set(&mut g, 2);
    b.set_binding(&mut g, read(a));
    c.set_binding(&mut g, add(read(b), read(d)));
    assert_eq!(c.get(&mut g, &ctx), Ok(3));
    d.set(&mut g, 5);
    assert!(!g.cells[b.inner.0].dirty);
    assert!(g.cells[c.inner.0].dirty);
    assert!(g.cells[a.inner.0].dependents.contains(&b.inner.0));
    assert_eq!(c.get(&mut g, &ctx), Ok(6));
    a.set(&mut g, 10);
    assert!(g.cells[b.inner.0].dirty);
    assert!(g.cells[c.inner.0].dirty);
    assert!(g.cells[a.inner.0].dependents.is_empty());
    assert_eq!(c.get(&mut g, &ctx), Ok(15));
}

#[test]
fn unbound_dirty_property_keeps_its_value() {
    let mut g = PropertyGraph::new();
    let ctx = EvaluationContext::for_root_component(0);
    let a = Property::new(&mut g);
    let b = Property::new(&mut g);
    a.set(&mut g, 3);
    b.set_binding(&mut g, read(a));
    assert_eq!(b.get(&mut g, &ctx), Ok(3));
    b.set(&mut g, 8);
    a.set(&mut g, 4);
    assert!(g.cells[b.inner.0].dirty);
    assert_eq!(b.get(&mut g, &ctx), Ok(8));
}

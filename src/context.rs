use vstd::prelude::*;

verus! {

/// The scope a read or a write belongs to: the component instance that holds
/// the property, and the context of the enclosing component, if any.
///
/// The component is an opaque identifier to this engine; bindings written
/// outside it may use the chain to reach properties of ancestor scopes.
pub struct EvaluationContext {
    /// The component which contains the property.
    pub component: usize,
    /// The context of the parent component.
    pub parent_context: Option<Box<EvaluationContext>>,
}

impl EvaluationContext {
    /// Creates a context for a root component: it has no parent.
    pub fn for_root_component(component: usize) -> (r: Self)
        ensures
            r.component == component,
            r.parent_context is None,
    {
        EvaluationContext { component, parent_context: None }
    }

    /// Creates a context for a child component of the component of `self`.
    pub fn child_context(&self, child: usize) -> (r: Self)
        ensures
            r.component == child,
            r.parent_context == Some(Box::new(*self)),
    {
        EvaluationContext { component: child, parent_context: Some(Box::new(self.duplicate())) }
    }

    /// A deep copy of the whole chain.
    fn duplicate(&self) -> (r: Self)
        ensures
            r == *self,
        decreases self,
    {
        let parent_context = match &self.parent_context {
            None => None,
            Some(p) => Some(Box::new(p.duplicate())),
        };
        EvaluationContext { component: self.component, parent_context }
    }
}

} // verus!

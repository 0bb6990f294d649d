//! A demand-driven, dependency-tracking property engine.
//!
//! Properties live in a `PropertyGraph` arena and are addressed by stable
//! integer handles. A property holds a value set directly, or a `Binding`
//! that is evaluated lazily on read. Reads made while a binding evaluates
//! register the evaluating property as a dependent of the property read;
//! writes and rebinds mark every transitive dependent dirty.

mod binding;
mod context;
mod graph;
mod handle;
mod laws;

pub use binding::{eval_binding, reads_of, Binding};
pub use context::EvaluationContext;
pub use laws::{
    law_binding_is_lazy, law_chain_of_three, law_clean_read_is_idempotent,
    law_constant_binding_ignores_writes, law_self_cycle_fails, law_write_then_read,
    law_written_value_persists,
};
pub use graph::{reads_within, settled, BindingError, PropertyGraph, PropertyState};
pub use handle::{
    sixtyfps_property_drop, sixtyfps_property_init, sixtyfps_property_set_binding,
    sixtyfps_property_set_changed, sixtyfps_property_update, Property, PropertyHandleOpaque,
};

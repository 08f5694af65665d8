use vstd::prelude::*;

verus! {

/// The kind of value that a rendered row shows.
#[derive(Debug, Clone, Copy, PartialEq, Eq, Structural)]
pub enum ValueType {
    Null,
    Number,
    Bool,
    String,
    Array,
    Object,
}

/// One row of the rendered document.
#[derive(Debug)]
pub struct RenderedValue {
    pub level: usize,
    pub name: String,
    pub value: String,
    pub value_type: ValueType,
    pub id: usize,
    pub in_filter: bool,
    pub has_key: bool,
}

/// What can be shown as a row.
pub trait ToUI {
    /// The row for this value, with `id` as its row identifier.
    fn to_ui(&self, id: usize) -> RenderedValue;

    /// The kind of the value.
    fn value_type(&self) -> ValueType;
}

} // verus!

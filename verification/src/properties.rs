//! Feature properties: string-keyed values of the JSON kinds that a feature
//! can carry.

use vstd::prelude::*;

verus! {

/// One property value. A number carries the text it is listed under in
/// attribute statistics; a double carries its IEEE-754 bit pattern, which is
/// what a tile stores, and is told apart from other doubles by its text.
#[derive(Debug, Clone)]
pub enum PropertyValue {
    String(String),
    Integer { value: i64, text: String },
    Double { bits: u64, text: String },
    Boolean(bool),
    Null,
    /// An array or an object: carried along, never stored as a payload.
    Other,
}

/// What a `PropertyValue` holds, as mathematical values.
pub enum PropertyValueView {
    String(Seq<char>),
    Integer { value: i64, text: Seq<char> },
    Double { bits: u64, text: Seq<char> },
    Boolean(bool),
    Null,
    Other,
}

impl View for PropertyValue {
    type V = PropertyValueView;

    open spec fn view(&self) -> PropertyValueView {
        match self {
            PropertyValue::String(s) => PropertyValueView::String(s@),
            PropertyValue::Integer { value, text } => PropertyValueView::Integer {
                value: *value,
                text: text@,
            },
            PropertyValue::Double { bits, text } => PropertyValueView::Double {
                bits: *bits,
                text: text@,
            },
            PropertyValue::Boolean(b) => PropertyValueView::Boolean(*b),
            PropertyValue::Null => PropertyValueView::Null,
            PropertyValue::Other => PropertyValueView::Other,
        }
    }
}

/// A property as specifications see it: key and value.
pub type PropertyView = (Seq<char>, PropertyValueView);

/// The views of a property list, in order.
pub open spec fn properties_view(props: Seq<(String, PropertyValue)>) -> Seq<PropertyView> {
    props.map_values(|p: (String, PropertyValue)| (p.0@, p.1@))
}

} // verus!

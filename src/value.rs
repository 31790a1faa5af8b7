use vstd::prelude::*;

verus! {

/// A guest value as the host sees it once it has crossed the boundary.
///
/// Floats are carried by their decimal text, and a table by its sequence
/// part (the values at keys `1, 2, ...` up to the first `nil`).
#[derive(Debug)]
pub enum GuestValue {
    Nil,
    Boolean(bool),
    Integer(i64),
    Number(String),
    Str(String),
    Table(Vec<GuestValue>),
    Function,
    Handle,
}

/// Whether a guest value is textual.
pub open spec fn is_text(v: GuestValue) -> bool {
    v is Str
}

/// The characters of a textual guest value (empty for any other value).
pub open spec fn text_of(v: GuestValue) -> Seq<char> {
    match v {
        GuestValue::Str(s) => s@,
        _ => Seq::empty(),
    }
}

/// The guest-facing name of a value's type.
pub open spec fn kind_text(v: GuestValue) -> Seq<char> {
    match v {
        GuestValue::Nil => "nil"@,
        GuestValue::Boolean(_) => "boolean"@,
        GuestValue::Integer(_) => "integer"@,
        GuestValue::Number(_) => "number"@,
        GuestValue::Str(_) => "string"@,
        GuestValue::Table(_) => "table"@,
        GuestValue::Function => "function"@,
        GuestValue::Handle => "userdata"@,
    }
}

impl GuestValue {
    /// The guest-facing name of this value's type.
    pub fn kind_name(&self) -> (r: &'static str)
        ensures
            r@ == kind_text(*self),
    {
        match self {
            GuestValue::Nil => "nil",
            GuestValue::Boolean(_) => "boolean",
            GuestValue::Integer(_) => "integer",
            GuestValue::Number(_) => "number",
            GuestValue::Str(_) => "string",
            GuestValue::Table(_) => "table",
            GuestValue::Function => "function",
            GuestValue::Handle => "userdata",
        }
    }
}

} // verus!

//! The error type, the classification tags, and the flattened diff entry.

use vstd::prelude::*;

verus! {

/// What stopped a comparison before it ran: a file could not be read, or a
/// document could not be parsed.  Each variant carries the underlying
/// error's message.
#[derive(Debug, PartialEq, Eq)]
pub enum Error {
    IOError(String),
    JSON(String),
}

/// The classification of one flattened diff entry.
#[derive(Debug, Clone, Copy, PartialEq, Eq)]
pub enum DiffType {
    /// The documents differ at the root itself.
    RootMismatch,
    /// Present only in the left document.
    LeftExtra,
    /// Present only in the right document.
    RightExtra,
    /// Present in both documents with differing values.
    Mismatch,
}

impl DiffType {
    /// The display heading for this classification.
    pub fn display_string(&self) -> (r: String)
        ensures
            self is RootMismatch ==> r@ == "Mismatch at root."@,
            self is LeftExtra ==> r@ == "Extra on left"@,
            self is RightExtra ==> r@ == "Extra on right"@,
            self is Mismatch ==> r@ == "Mismatched"@,
    {
        match self {
            DiffType::RootMismatch => String::from_str("Mismatch at root."),
            DiffType::LeftExtra => String::from_str("Extra on left"),
            DiffType::RightExtra => String::from_str("Extra on right"),
            DiffType::Mismatch => String::from_str("Mismatched"),
        }
    }
}

/// One flattened diff entry: either a key path alone (a one-sided
/// difference) or a key path with the two differing rendered values.
#[derive(Debug, PartialEq)]
pub enum ValueType {
    Key(String),
    Value { key: String, value_left: String, value_right: String },
}

/// The mathematical shape of a flattened diff entry.
pub enum ValueTypeV {
    Key(Seq<char>),
    Value { key: Seq<char>, value_left: Seq<char>, value_right: Seq<char> },
}

impl View for ValueType {
    type V = ValueTypeV;

    open spec fn view(&self) -> ValueTypeV {
        match self {
            ValueType::Key(k) => ValueTypeV::Key(k@),
            ValueType::Value { key, value_left, value_right } => ValueTypeV::Value {
                key: key@,
                value_left: value_left@,
                value_right: value_right@,
            },
        }
    }
}

impl ValueType {
    pub fn new_value(key: String, value_left: String, value_right: String) -> (r: Self)
        ensures
            r@ == (ValueTypeV::Value { key: key@, value_left: value_left@, value_right: value_right@ }),
    {
        Self::Value { value_right, value_left, key }
    }

    pub fn new_key(key: String) -> (r: Self)
        ensures
            r@ == ValueTypeV::Key(key@),
    {
        Self::Key(key)
    }

    pub fn get_key(&self) -> (r: &str)
        ensures
            r@ == spec_entry_key(self@),
    {
        match self {
            ValueType::Value { key, .. } => key.as_str(),
            ValueType::Key(key) => key.as_str(),
        }
    }

    /// An identical copy of this entry.
    pub fn clone_entry(&self) -> (r: ValueType)
        ensures
            r@ == self@,
    {
        match self {
            ValueType::Key(k) => ValueType::Key(k.clone()),
            ValueType::Value { key, value_left, value_right } => ValueType::Value {
                key: key.clone(),
                value_left: value_left.clone(),
                value_right: value_right.clone(),
            },
        }
    }

    /// The display text of this entry: the key path alone, or
    /// `path->{left!=right}` for a value mismatch (`{left!=right}` at the
    /// root, where the path is empty).
    pub fn display_string(&self) -> (r: String)
        ensures
            r@ == spec_entry_display(self@),
    {
        match self {
            ValueType::Key(key) => key.clone(),
            ValueType::Value { value_left, key, value_right } => {
                proof {
                    reveal_strlit("->{");
                    reveal_strlit("{");
                    reveal_strlit("!=");
                    reveal_strlit("}");
                }
                let mut out: String = String::new();
                if key.unicode_len() > 0 {
                    out.append(key.as_str());
                    out.append("->{");
                } else {
                    out.append("{");
                }
                out.append(value_left.as_str());
                out.append("!=");
                out.append(value_right.as_str());
                out.append("}");
                proof {
                    assert(out@ =~= spec_entry_display(self@));
                }
                out
            },
        }
    }
}

/// The key path of a flattened diff entry.
pub open spec fn spec_entry_key(e: ValueTypeV) -> Seq<char> {
    match e {
        ValueTypeV::Key(k) => k,
        ValueTypeV::Value { key, .. } => key,
    }
}

/// The display text of a flattened diff entry.
pub open spec fn spec_entry_display(e: ValueTypeV) -> Seq<char> {
    match e {
        ValueTypeV::Key(k) => k,
        ValueTypeV::Value { key, value_left, value_right } => (if key.len() > 0 {
            key + "->{"@
        } else {
            "{"@
        }) + value_left + "!="@ + value_right + "}"@,
    }
}

} // verus!

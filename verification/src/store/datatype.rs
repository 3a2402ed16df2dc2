//! The values of the store.

use crate::parser::decimal::{decimal, write_decimal};
use vstd::prelude::*;

verus! {

/// The text `true`.
pub open spec fn text_true() -> Seq<u8> {
    seq![116u8, 114u8, 117u8, 101u8]
}

/// The text `false`.
pub open spec fn text_false() -> Seq<u8> {
    seq![102u8, 97u8, 108u8, 115u8, 101u8]
}

/// The text of a boolean: `true` or `false`.
pub open spec fn text_of_bool(value: bool) -> Seq<u8> {
    if value {
        text_true()
    } else {
        text_false()
    }
}

/// The text of a boolean: `true` or `false`.
pub fn bool_text(value: bool) -> (text: Vec<u8>)
    ensures
        text@ == text_of_bool(value),
{
    let mut text: Vec<u8> = Vec::new();
    if value {
        text.push(116);
        text.push(114);
        text.push(117);
        text.push(101);
        assert(text@ =~= text_true());
    } else {
        text.push(102);
        text.push(97);
        text.push(108);
        text.push(115);
        text.push(101);
        assert(text@ =~= text_false());
    }
    text
}

/// The canonical decimal text of an integer.
pub fn integer_text(value: i64) -> (text: Vec<u8>)
    ensures
        text@ == decimal(value as int),
{
    let mut text: Vec<u8> = Vec::new();
    write_decimal(&mut text, value);
    assert(text@ =~= decimal(value as int));
    text
}

/// A value of the store. The store treats every value as a string of bytes.
#[derive(Debug, PartialEq, Eq)]
pub enum DataType {
    /// A string of bytes of any content.
    String(Vec<u8>),
}

impl View for DataType {
    type V = Seq<u8>;

    /// The bytes of the value.
    open spec fn view(&self) -> Seq<u8> {
        match self {
            DataType::String(bytes) => bytes@,
        }
    }
}

impl Clone for DataType {
    fn clone(&self) -> (copy: Self)
        ensures
            copy@ == self@,
    {
        match self {
            DataType::String(bytes) => {
                let copy = bytes.clone();
                assert(copy@ =~= bytes@);
                DataType::String(copy)
            },
        }
    }
}

impl DataType {
    /// The bytes of the value.
    pub fn as_bytes(&self) -> (bytes: &[u8])
        ensures
            bytes@ == self@,
    {
        match self {
            DataType::String(bytes) => bytes.as_slice(),
        }
    }

    /// The bytes of the value, as a vector of its own.
    pub fn to_bytes(&self) -> (bytes: Vec<u8>)
        ensures
            bytes@ == self@,
    {
        match self {
            DataType::String(bytes) => {
                let copy = bytes.clone();
                assert(copy@ =~= bytes@);
                copy
            },
        }
    }
}

impl From<Vec<u8>> for DataType {
    /// The value that holds `bytes`.
    fn from(bytes: Vec<u8>) -> (value: Self) {
        DataType::String(bytes)
    }
}

impl vstd::std_specs::convert::FromSpecImpl<Vec<u8>> for DataType {
    open spec fn obeys_from_spec() -> bool {
        true
    }

    open spec fn from_spec(bytes: Vec<u8>) -> Self {
        DataType::String(bytes)
    }
}

impl From<&[u8]> for DataType {
    /// The value that holds a copy of `bytes`.
    fn from(bytes: &[u8]) -> (value: Self)
        ensures
            value@ == bytes@,
    {
        DataType::String(vstd::slice::slice_to_vec(bytes))
    }
}

/// What `from` returns is stated by its `ensures`, over the view: the vector
/// that the value holds is made by `from` and cannot be written down here.
impl vstd::std_specs::convert::FromSpecImpl<&[u8]> for DataType {
    open spec fn obeys_from_spec() -> bool {
        false
    }

    open spec fn from_spec(bytes: &[u8]) -> Self {
        arbitrary()
    }
}

impl From<i64> for DataType {
    /// The value that holds the canonical decimal text of `number`.
    fn from(number: i64) -> (value: Self)
        ensures
            value@ == decimal(number as int),
    {
        DataType::String(integer_text(number))
    }
}

/// What `from` returns is stated by its `ensures`, over the view.
impl vstd::std_specs::convert::FromSpecImpl<i64> for DataType {
    open spec fn obeys_from_spec() -> bool {
        false
    }

    open spec fn from_spec(number: i64) -> Self {
        arbitrary()
    }
}

impl From<bool> for DataType {
    /// The value that holds `true` or `false` as text.
    fn from(truth: bool) -> (value: Self)
        ensures
            value@ == text_of_bool(truth),
    {
        DataType::String(bool_text(truth))
    }
}

/// What `from` returns is stated by its `ensures`, over the view.
impl vstd::std_specs::convert::FromSpecImpl<bool> for DataType {
    open spec fn obeys_from_spec() -> bool {
        false
    }

    open spec fn from_spec(truth: bool) -> Self {
        arbitrary()
    }
}

} // verus!

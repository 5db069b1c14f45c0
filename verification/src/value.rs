//! Classified pixel values and the attribute vectors that group cells.

use vstd::prelude::*;

verus! {

/// A pixel value of one of the numeric classes a band can be read as. The two
/// floating-point classes hold the bit pattern of the number, by which such values are
/// compared and grouped.
#[derive(Clone, Copy, Debug, PartialEq, Eq, Hash, Structural)]
pub enum Value {
    Uint8(u8),
    Uint16(u16),
    Uint32(u32),
    Int16(i16),
    Int32(i32),
    Float32(u32),
    Float64(u64),
}

/// Classifies a raw value by a no-data value: the no-data value itself becomes
/// no-data, every other value is passed on.
pub fn classify_no_data(value: Value, no_data_value: Value) -> (classified: Option<Value>)
    ensures
        classified == if value == no_data_value {
            None
        } else {
            Some(value)
        },
{
    if value == no_data_value {
        None
    } else {
        Some(value)
    }
}

/// One classified value per input band; `None` stands for no-data.
pub type Attributes = Vec<Option<Value>>;

/// The view of an attribute vector.
pub type AttributeSeq = Seq<Option<Value>>;

/// An attribute vector is present where at least one of its values is not no-data.
pub open spec fn is_present(attributes: AttributeSeq) -> bool {
    exists|band: int| 0 <= band < attributes.len() && (#[trigger] attributes[band]) is Some
}

/// Whether two classified values are the same.
pub fn same_value(left: &Option<Value>, right: &Option<Value>) -> (same: bool)
    ensures
        same == (*left == *right),
{
    match (left, right) {
        (None, None) => true,
        (Some(a), Some(b)) => *a == *b,
        _ => false,
    }
}

/// Whether two attribute vectors are equal, position by position.
pub fn same_attributes(left: &Attributes, right: &Attributes) -> (same: bool)
    ensures
        same == (left@ == right@),
{
    if left.len() != right.len() {
        return false;
    }
    let mut band: usize = 0;
    while band < left.len()
        invariant
            band <= left.len(),
            left.len() == right.len(),
            forall|i: int| 0 <= i < band ==> left@[i] == right@[i],
        decreases left.len() - band,
    {
        if !same_value(&left[band], &right[band]) {
            return false;
        }
        band = band + 1;
    }
    assert(left@ =~= right@);
    true
}

/// Whether at least one value of the attribute vector is not no-data.
pub fn has_value(attributes: &Attributes) -> (present: bool)
    ensures
        present == is_present(attributes@),
{
    let mut band: usize = 0;
    while band < attributes.len()
        invariant
            band <= attributes.len(),
            forall|i: int| 0 <= i < band ==> attributes@[i] is None,
        decreases attributes.len() - band,
    {
        if attributes[band].is_some() {
            return true;
        }
        band = band + 1;
    }
    false
}

/// A copy of an attribute vector.
pub fn copy_attributes(attributes: &Attributes) -> (copy: Attributes)
    ensures
        copy@ == attributes@,
{
    let mut copy: Attributes = Vec::new();
    let mut band: usize = 0;
    while band < attributes.len()
        invariant
            band <= attributes.len(),
            copy@ == attributes@.subrange(0, band as int),
        decreases attributes.len() - band,
    {
        copy.push(attributes[band]);
        assert(attributes@.subrange(0, band + 1) =~= attributes@.subrange(0, band as int).push(
            attributes@[band as int],
        ));
        band = band + 1;
    }
    assert(attributes@.subrange(0, attributes@.len() as int) =~= attributes@);
    copy
}

} // verus!

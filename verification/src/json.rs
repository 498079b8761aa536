//! Reading the assignment vector out of one line of JSON, parsed by the
//! `serde_json` crate.
//!
//! A line is an object of the form `{"assignment": [...], "sample": n}`. Only
//! the `assignment` array is read. Its elements are non-negative integers of
//! which the low sixteen bits are the label.

use crate::error::CodecError;
use vstd::prelude::*;

verus! {

/// What `serde_json` reads as the `assignment` array of a line: for each
/// element the number it holds where that is an integer of `0..2^64`. There
/// is none where the line is not valid JSON, is not an object with a member
/// `assignment`, or that member is not an array.
pub uninterp spec fn json_assignment(line: Seq<char>) -> Option<Seq<Option<u64>>>;

/// Parses a line and hands out the elements of its `assignment` array.
///
/// Calls `serde_json::from_str`, indexes the value by `"assignment"`, and calls
/// `Value::as_array` on the member and `Value::as_u64` on each element.
/// Nothing is proved of it. It is taken on trust that the outcome depends on
/// the text of the line alone.
#[verifier::external_body]
fn read_assignment(line: &str) -> (items: Option<Vec<Option<u64>>>)
    ensures
        match items {
            Some(elements) => json_assignment(line@) == Some(elements@),
            None => json_assignment(line@) is None,
        },
{
    let data: serde_json::Value = serde_json::from_str(line).ok()?;
    let elements = data["assignment"].as_array()?;
    Some(elements.iter().map(|element| element.as_u64()).collect())
}

/// The label that an element stands for: its low sixteen bits.
pub open spec fn label_of(element: u64) -> u16 {
    (element % 0x1_0000) as u16
}

/// The labels of the elements of an `assignment` array; none where an
/// element is not a non-negative integer.
pub open spec fn labels_of_items(items: Seq<Option<u64>>) -> Option<Seq<u16>> {
    if forall|i: int| 0 <= i < items.len() ==> (#[trigger] items[i]) is Some {
        Some(Seq::new(items.len(), |i: int| label_of(items[i]->0)))
    } else {
        None
    }
}

/// The assignment vector of a line; none where the line does not hold one.
pub open spec fn line_labels(line: Seq<char>) -> Option<Seq<u16>> {
    match json_assignment(line) {
        None => None,
        Some(items) => labels_of_items(items),
    }
}

/// Turns the elements of an `assignment` array into labels.
pub fn labels_from_items(items: &Vec<Option<u64>>) -> (labels: Option<Vec<u16>>)
    ensures
        match labels {
            Some(assign_vec) => labels_of_items(items@) == Some(assign_vec@),
            None => labels_of_items(items@) is None,
        },
{
    let mut assign_vec: Vec<u16> = Vec::new();
    let mut i: usize = 0;
    while i < items.len()
        invariant
            i <= items.len(),
            assign_vec@.len() == i,
            forall|j: int| 0 <= j < i ==> (#[trigger] items@[j]) is Some,
            forall|j: int| 0 <= j < i ==> assign_vec@[j] == label_of(items@[j]->0),
        decreases items.len() - i,
    {
        match items[i] {
            None => {
                return None;
            },
            Some(element) => {
                let label: u16 = (element & 0xFFFF) as u16;
                proof {
                    assert((element & 0xFFFF) == element % 0x1_0000) by (bit_vector);
                }
                assert(label == label_of(element));
                assert(items@[i as int]->0 == element);
                assign_vec.push(label);
            },
        }
        i += 1;
    }
    proof {
        assert(assign_vec@ =~= Seq::new(items@.len(), |i: int| label_of(items@[i]->0)));
    }
    Some(assign_vec)
}

/// Reads the assignment vector of one line of JSON.
pub fn parse_assignment_line(line: &str) -> (labels: Result<Vec<u16>, CodecError>)
    ensures
        match labels {
            Ok(assign_vec) => line_labels(line@) == Some(assign_vec@),
            Err(e) => e == CodecError::Parse && line_labels(line@) is None,
        },
{
    match read_assignment(line) {
        None => Err(CodecError::Parse),
        Some(items) => match labels_from_items(&items) {
            None => Err(CodecError::Parse),
            Some(assign_vec) => Ok(assign_vec),
        },
    }
}

} // verus!

//! A message that waits for its acknowledgement.

use crate::frame::{copy_text, text_of};
use crate::payload::Payload;
use vstd::prelude::*;

verus! {

#[derive(Debug, PartialEq)]
pub struct Model {
    pub relay_id: String,
    pub destination: String,
    pub sequence: i64,
    pub message_id: String,
    pub payload: Payload,
    pub payload_bytes: i64,
    pub created_at: i64,
    pub target_device_id: Option<String>,
}

/// The value of a row.
#[verifier::ext_equal]
pub struct Row {
    pub relay_id: Seq<char>,
    pub destination: Seq<char>,
    pub sequence: i64,
    pub message_id: Seq<char>,
    pub payload: Seq<u8>,
    pub payload_bytes: i64,
    pub created_at: i64,
    pub target_device_id: Option<Seq<char>>,
}

impl View for Model {
    type V = Row;

    open spec fn view(&self) -> Row {
        Row {
            relay_id: self.relay_id@,
            destination: self.destination@,
            sequence: self.sequence,
            message_id: self.message_id@,
            payload: self.payload@,
            payload_bytes: self.payload_bytes,
            created_at: self.created_at,
            target_device_id: text_of(self.target_device_id),
        }
    }
}

impl Clone for Model {
    fn clone(&self) -> (r: Model)
        ensures
            r@ == self@,
    {
        Model {
            relay_id: self.relay_id.clone(),
            destination: self.destination.clone(),
            sequence: self.sequence,
            message_id: self.message_id.clone(),
            payload: self.payload.clone(),
            payload_bytes: self.payload_bytes,
            created_at: self.created_at,
            target_device_id: copy_text(&self.target_device_id),
        }
    }
}

/// The primary key of a row.
#[derive(Debug, PartialEq)]
pub struct Key {
    pub relay_id: String,
    pub destination: String,
    pub sequence: i64,
}

/// The value of a primary key.
#[verifier::ext_equal]
pub struct KeyView {
    pub relay_id: Seq<char>,
    pub destination: Seq<char>,
    pub sequence: i64,
}

impl View for Key {
    type V = KeyView;

    open spec fn view(&self) -> KeyView {
        KeyView { relay_id: self.relay_id@, destination: self.destination@, sequence: self.sequence }
    }
}

/// The primary key of this row.
pub open spec fn key_of(row: Row) -> KeyView {
    KeyView { relay_id: row.relay_id, destination: row.destination, sequence: row.sequence }
}

impl Model {
    /// The primary key of the row.
    pub fn into_key(self) -> (key: Key)
        ensures
            key@ == key_of(self@),
    {
        Key { relay_id: self.relay_id, destination: self.destination, sequence: self.sequence }
    }
}

/// The row with this primary key.
pub open spec fn keyed(
    relay_id: Seq<char>,
    destination: Seq<char>,
    sequence: i64,
) -> spec_fn(Row) -> bool {
    |row: Row| row.relay_id == relay_id && row.destination == destination && row.sequence == sequence
}

/// The row with the primary key of `row`.
pub open spec fn same_key(row: Row) -> spec_fn(Row) -> bool {
    keyed(row.relay_id, row.destination, row.sequence)
}

/// The rows of one pairing id and direction.
pub open spec fn in_channel(relay_id: Seq<char>, destination: Seq<char>) -> spec_fn(Row) -> bool {
    |row: Row| row.relay_id == relay_id && row.destination == destination
}

/// A message without a target goes to every device, one with a target to that
/// device alone.
pub open spec fn meant_for(row: Row, device_id: Seq<char>) -> bool {
    row.target_device_id is None || row.target_device_id == Some(device_id)
}

} // verus!

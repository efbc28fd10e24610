//! The proof that a message id was stored once, kept after its delivery.

use vstd::prelude::*;

verus! {

#[derive(Debug, PartialEq)]
pub struct Model {
    pub relay_id: String,
    pub source: String,
    pub message_id: String,
    pub destination: String,
    pub sequence: i64,
    pub payload_hash: String,
    pub created_at: i64,
}

/// The value of a row.
#[verifier::ext_equal]
pub struct Row {
    pub relay_id: Seq<char>,
    pub source: Seq<char>,
    pub message_id: Seq<char>,
    pub destination: Seq<char>,
    pub sequence: i64,
    pub payload_hash: Seq<char>,
    pub created_at: i64,
}

impl View for Model {
    type V = Row;

    open spec fn view(&self) -> Row {
        Row {
            relay_id: self.relay_id@,
            source: self.source@,
            message_id: self.message_id@,
            destination: self.destination@,
            sequence: self.sequence,
            payload_hash: self.payload_hash@,
            created_at: self.created_at,
        }
    }
}

impl Clone for Model {
    fn clone(&self) -> (r: Model)
        ensures
            r@ == self@,
    {
        Model {
            relay_id: self.relay_id.clone(),
            source: self.source.clone(),
            message_id: self.message_id.clone(),
            destination: self.destination.clone(),
            sequence: self.sequence,
            payload_hash: self.payload_hash.clone(),
            created_at: self.created_at,
        }
    }
}

/// The primary key of a row.
#[derive(Debug, PartialEq)]
pub struct Key {
    pub relay_id: String,
    pub source: String,
    pub message_id: String,
}

/// The value of a primary key.
#[verifier::ext_equal]
pub struct KeyView {
    pub relay_id: Seq<char>,
    pub source: Seq<char>,
    pub message_id: Seq<char>,
}

impl View for Key {
    type V = KeyView;

    open spec fn view(&self) -> KeyView {
        KeyView { relay_id: self.relay_id@, source: self.source@, message_id: self.message_id@ }
    }
}

/// The primary key of this row.
pub open spec fn key_of(row: Row) -> KeyView {
    KeyView { relay_id: row.relay_id, source: row.source, message_id: row.message_id }
}

impl Model {
    /// The primary key of the row.
    pub fn into_key(self) -> (key: Key)
        ensures
            key@ == key_of(self@),
    {
        Key { relay_id: self.relay_id, source: self.source, message_id: self.message_id }
    }
}

/// The row with this primary key.
pub open spec fn keyed(
    relay_id: Seq<char>,
    source: Seq<char>,
    message_id: Seq<char>,
) -> spec_fn(Row) -> bool {
    |row: Row| row.relay_id == relay_id && row.source == source && row.message_id == message_id
}

/// The row with the primary key of `row`.
pub open spec fn same_key(row: Row) -> spec_fn(Row) -> bool {
    keyed(row.relay_id, row.source, row.message_id)
}

} // verus!

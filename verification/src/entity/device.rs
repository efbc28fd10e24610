//! A device on one endpoint, with its acknowledgement cursor.

use vstd::prelude::*;

verus! {

#[derive(Debug, PartialEq)]
pub struct Model {
    pub relay_id: String,
    pub endpoint: String,
    pub device_id: String,
    pub last_acked_sequence: i64,
    pub last_seen_at: i64,
}

/// The value of a row.
#[verifier::ext_equal]
pub struct Row {
    pub relay_id: Seq<char>,
    pub endpoint: Seq<char>,
    pub device_id: Seq<char>,
    pub last_acked_sequence: i64,
    pub last_seen_at: i64,
}

impl View for Model {
    type V = Row;

    open spec fn view(&self) -> Row {
        Row {
            relay_id: self.relay_id@,
            endpoint: self.endpoint@,
            device_id: self.device_id@,
            last_acked_sequence: self.last_acked_sequence,
            last_seen_at: self.last_seen_at,
        }
    }
}

impl Clone for Model {
    fn clone(&self) -> (r: Model)
        ensures
            r@ == self@,
    {
        Model {
            relay_id: self.relay_id.clone(),
            endpoint: self.endpoint.clone(),
            device_id: self.device_id.clone(),
            last_acked_sequence: self.last_acked_sequence,
            last_seen_at: self.last_seen_at,
        }
    }
}

/// The primary key of a row.
#[derive(Debug, PartialEq)]
pub struct Key {
    pub relay_id: String,
    pub endpoint: String,
    pub device_id: String,
}

/// The value of a primary key.
#[verifier::ext_equal]
pub struct KeyView {
    pub relay_id: Seq<char>,
    pub endpoint: Seq<char>,
    pub device_id: Seq<char>,
}

impl View for Key {
    type V = KeyView;

    open spec fn view(&self) -> KeyView {
        KeyView { relay_id: self.relay_id@, endpoint: self.endpoint@, device_id: self.device_id@ }
    }
}

/// The primary key of this row.
pub open spec fn key_of(row: Row) -> KeyView {
    KeyView { relay_id: row.relay_id, endpoint: row.endpoint, device_id: row.device_id }
}

impl Model {
    /// The primary key of the row.
    pub fn into_key(self) -> (key: Key)
        ensures
            key@ == key_of(self@),
    {
        Key { relay_id: self.relay_id, endpoint: self.endpoint, device_id: self.device_id }
    }
}

/// The row with this primary key.
pub open spec fn keyed(
    relay_id: Seq<char>,
    endpoint: Seq<char>,
    device_id: Seq<char>,
) -> spec_fn(Row) -> bool {
    |row: Row| row.relay_id == relay_id && row.endpoint == endpoint && row.device_id == device_id
}

/// The row with the primary key of `row`.
pub open spec fn same_key(row: Row) -> spec_fn(Row) -> bool {
    keyed(row.relay_id, row.endpoint, row.device_id)
}

/// The rows of the devices on one endpoint that were seen at `cutoff` or later.
pub open spec fn active(
    relay_id: Seq<char>,
    endpoint: Seq<char>,
    cutoff: i64,
) -> spec_fn(Row) -> bool {
    |row: Row| row.relay_id == relay_id && row.endpoint == endpoint && row.last_seen_at >= cutoff
}

} // verus!

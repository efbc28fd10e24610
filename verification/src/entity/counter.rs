//! The last sequence given out for one pairing id and direction.

use vstd::prelude::*;

verus! {

#[derive(Debug, PartialEq)]
pub struct Model {
    pub relay_id: String,
    pub destination: String,
    pub next_sequence: i64,
}

/// The value of a row.
#[verifier::ext_equal]
pub struct Row {
    pub relay_id: Seq<char>,
    pub destination: Seq<char>,
    pub next_sequence: i64,
}

impl View for Model {
    type V = Row;

    open spec fn view(&self) -> Row {
        Row {
            relay_id: self.relay_id@,
            destination: self.destination@,
            next_sequence: self.next_sequence,
        }
    }
}

impl Clone for Model {
    fn clone(&self) -> (r: Model)
        ensures
            r@ == self@,
    {
        Model {
            relay_id: self.relay_id.clone(),
            destination: self.destination.clone(),
            next_sequence: self.next_sequence,
        }
    }
}

/// The row with this primary key.
pub open spec fn keyed(relay_id: Seq<char>, destination: Seq<char>) -> spec_fn(Row) -> bool {
    |row: Row| row.relay_id == relay_id && row.destination == destination
}

/// The row with the primary key of `row`.
pub open spec fn same_key(row: Row) -> spec_fn(Row) -> bool {
    keyed(row.relay_id, row.destination)
}

} // verus!

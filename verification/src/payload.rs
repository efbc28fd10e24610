//! Message payloads: JSON values that the relay carries without looking inside.

use vstd::prelude::*;

verus! {

/// The error of the JSON library. It is carried, never inspected.
#[verifier::external_type_specification]
#[verifier::external_body]
pub struct ExJsonError(serde_json::Error);

/// The compact text that `serde_json` writes for the JSON value it reads from
/// `text`, or `None` where it reads none: where `text` is not one JSON value, or
/// is nested deeper than `serde_json` follows.
pub uninterp spec fn compact_json(text: Seq<u8>) -> Option<Seq<u8>>;

/// Calls `serde_json::to_vec` on the value that `serde_json::from_slice` reads
/// from `text`. Claimed: the outcome depends on `text` alone, and an error
/// comes exactly where `compact_json` has no value.
#[verifier::external_body]
fn json_to_vec(text: &[u8]) -> (r: Result<Vec<u8>, serde_json::Error>)
    ensures
        match r {
            Ok(bytes) => compact_json(text@) == Some(bytes@),
            Err(_) => compact_json(text@) is None,
        },
{
    serde_json::from_slice::<serde_json::Value>(text).and_then(|value| serde_json::to_vec(&value))
}

/// Why a text is no payload.
#[derive(Clone, Copy, Debug, PartialEq, Eq, Structural)]
pub enum PayloadError {
    /// The text is not one JSON value, or is nested too deep.
    InvalidJson,
}

/// One JSON value in its compact serialized form.
#[derive(Debug, PartialEq, Eq)]
pub struct Payload {
    json: Vec<u8>,
}

impl View for Payload {
    type V = Seq<u8>;

    closed spec fn view(&self) -> Seq<u8> {
        self.json@
    }
}

impl Payload {
    /// Reads one JSON value and keeps its compact form.
    pub fn parse(text: &[u8]) -> (r: Result<Payload, PayloadError>)
        ensures
            match r {
                Ok(payload) => compact_json(text@) == Some(payload@),
                Err(e) => e == PayloadError::InvalidJson && compact_json(text@) is None,
            },
    {
        payload_of(json_to_vec(text))
    }

    /// The compact JSON text.
    pub fn as_bytes(&self) -> (bytes: &[u8])
        ensures
            bytes@ == self@,
    {
        self.json.as_slice()
    }

    /// The size of the compact JSON text in bytes.
    pub fn len(&self) -> (n: usize)
        ensures
            n == self@.len(),
    {
        self.json.len()
    }
}

impl Clone for Payload {
    fn clone(&self) -> (r: Payload)
        ensures
            r@ == self@,
    {
        let mut json: Vec<u8> = Vec::new();
        let mut i: usize = 0;
        while i < self.json.len()
            invariant
                i <= self.json@.len(),
                json@ == self.json@.take(i as int),
            decreases self.json@.len() - i,
        {
            json.push(self.json[i]);
            i = i + 1;
            proof {
                assert(self.json@.take(i as int) =~= self.json@.take(i - 1).push(self.json@[i - 1]));
            }
        }
        proof {
            assert(self.json@.take(self.json@.len() as int) =~= self.json@);
        }
        Payload { json }
    }
}

/// The payload for what the serializer returned: its bytes, or the refusal.
pub fn payload_of(serialized: Result<Vec<u8>, serde_json::Error>) -> (r: Result<Payload, PayloadError>)
    ensures
        match serialized {
            Ok(bytes) => r is Ok && r->Ok_0@ == bytes@,
            Err(_) => r == Err::<Payload, PayloadError>(PayloadError::InvalidJson),
        },
{
    match serialized {
        Ok(json) => Ok(Payload { json }),
        Err(_) => Err(PayloadError::InvalidJson),
    }
}

} // verus!

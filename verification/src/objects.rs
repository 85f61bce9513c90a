//! One number for a protocol object, from its client and its own number.
//!
//! Protocol objects are numbered per client, so an object is named by both;
//! the maps that key on objects pack the two into one integer.

use vstd::prelude::*;

verus! {

/// The packed key of an object, named by client and number.
pub open spec fn object_key(object: (u64, u64)) -> u128 {
    (object.0 * 0x1_0000_0000_0000_0000 + object.1) as u128
}

/// The object that a packed key names.
pub open spec fn object_of(key: u128) -> (u64, u64) {
    ((key / 0x1_0000_0000_0000_0000) as u64, (key % 0x1_0000_0000_0000_0000) as u64)
}

/// Keys and objects name each other one to one.
pub proof fn lemma_keys()
    ensures
        forall|object: (u64, u64)| object_of(#[trigger] object_key(object)) == object,
        forall|key: u128| object_key(#[trigger] object_of(key)) == key,
{
}

pub fn key_of(client: u64, number: u64) -> (key: u128)
    ensures
        key == object_key((client, number)),
{
    client as u128 * 0x1_0000_0000_0000_0000 + number as u128
}

} // verus!

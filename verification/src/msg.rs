//! Messages, and the check of a message against the keys it must hold.

use crate::detail::SocketAddress;
use crate::flags::Flags;
use crate::model::{dict_get, Bencode};
use crate::value_ref::ValueRef;
use vstd::prelude::*;
use vstd::string::StringSliceAdditionalSpecFns;

verus! {

/// A decoded message and the endpoint it came from.
pub struct Msg<'a> {
    pub message: &'a ValueRef<'a>,
    pub addr: SocketAddress,
}

/// A key that a message must hold.
pub struct KeyDesc<'a> {
    /// The key.
    pub name: &'a str,
    /// The kind of value that is expected.
    pub kind: usize,
    /// The length that is expected of a byte string, zero for any.
    pub size: usize,
    /// How the key is to be treated.
    pub flags: Flags,
}

/// Whether the dictionary `d` holds every key that `desc` names.
pub open spec fn holds_keys(d: Seq<(Seq<u8>, Bencode)>, desc: Seq<KeyDesc>) -> bool {
    forall|i: int| 0 <= i < desc.len() ==> dict_get(d, desc[i].name.spec_bytes()).is_some()
}

/// Whether the dictionary `d` holds the key at the place `last` of `desc`
/// and every key before it.
pub open spec fn holds_keys_to(d: Seq<(Seq<u8>, Bencode)>, desc: Seq<KeyDesc>, last: int) -> bool {
    forall|i: int| 0 <= i <= last ==> dict_get(d, desc[i].name.spec_bytes()).is_some()
}

/// Puts into `ret` the values that the message `msg` holds under the keys
/// that `desc` names, in the order of `desc`. The check fails where the
/// message is no dictionary, and at the first key that the message lacks;
/// the values of the keys before that one have been put into `ret` then,
/// and the rest of `ret` is as it was.
pub fn verify_message_impl<'a, 'b>(
    msg: &'b ValueRef<'a>,
    desc: &[KeyDesc],
    ret: &mut [&'b ValueRef<'a>],
) -> (r: Result<(), &'static str>)
    requires
        desc@.len() == old(ret)@.len(),
    ensures
        final(ret)@.len() == old(ret)@.len(),
        match msg@ {
            Bencode::Dict(d) => {
                &&& r.is_ok() == holds_keys(d, desc@)
                &&& r matches Err(s) ==> s@ == "Key not found"@
                &&& forall|i: int|
                    0 <= i < desc@.len() ==> if holds_keys_to(d, desc@, i) {
                        Some(final(ret)@[i]@) == dict_get(d, desc@[i].name.spec_bytes())
                    } else {
                        final(ret)@[i] == old(ret)@[i]
                    }
            },
            _ => r matches Err(s) && s@ == "Not a dictionary"@ && final(ret)@ == old(ret)@,
        },
{
    if !msg.is_dict() {
        return Err("Not a dictionary");
    }
    let ghost d = msg@->Dict_0;
    let size: usize = ret.len();
    let mut i: usize = 0;
    while i < size
        invariant
            size == desc@.len(),
            ret@.len() == old(ret)@.len(),
            size == ret@.len(),
            0 <= i <= size,
            msg@ == Bencode::Dict(d),
            forall|j: int| 0 <= j < i ==> dict_get(d, desc@[j].name.spec_bytes()).is_some(),
            forall|j: int|
                0 <= j < i ==> Some(ret@[j]@) == dict_get(d, desc@[j].name.spec_bytes()),
            forall|j: int| i <= j < size ==> ret@[j] == old(ret)@[j],
        decreases size - i,
    {
        match msg.dict_find(desc[i].name) {
            Some(v) => {
                ret[i] = v;
            },
            None => {
                proof {
                    assert(dict_get(d, desc@[i as int].name.spec_bytes()).is_none());
                    assert forall|j: int| i <= j < size implies !holds_keys_to(d, desc@, j) by {}
                }
                return Err("Key not found");
            },
        }
        i += 1;
    }
    Ok(())
}

} // verus!

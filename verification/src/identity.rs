//! Caller identities.
//!
//! An identity is the byte string of a principal: at most 29 bytes. The ledger
//! compares identities byte for byte and reads their textual form when it
//! derives a poll's hash.

use vstd::prelude::*;

verus! {

/// The largest number of bytes an identity can hold.
pub const MAX_IDENTITY_BYTES: usize = 29;

/// The textual form of the principal with the given bytes.
pub uninterp spec fn principal_text(bytes: Seq<u8>) -> Seq<char>;

/// `candid::Principal::from_slice` followed by `Principal::to_text`: the
/// principal's textual form (checksum, base32, groups of five), which depends
/// on the bytes alone. `from_slice` panics on more than 29 bytes, so those are
/// left out. Nothing is claimed of the text beyond its being that form.
#[verifier::external_body]
fn principal_to_text(bytes: &Vec<u8>) -> (text: String)
    requires
        bytes@.len() <= MAX_IDENTITY_BYTES,
    ensures
        text@ == principal_text(bytes@),
{
    candid::Principal::from_slice(bytes.as_slice()).to_text()
}

/// A copy of a byte vector.
pub fn copy_bytes(src: &Vec<u8>) -> (out: Vec<u8>)
    ensures
        out@ == src@,
{
    let mut out: Vec<u8> = Vec::new();
    let mut i: usize = 0;
    while i < src.len()
        invariant
            i <= src.len(),
            out@ == src@.take(i as int),
        decreases src.len() - i,
    {
        out.push(src[i]);
        i += 1;
        assert(src@.take(i as int) == src@.take(i - 1).push(src@[i - 1]));
    }
    assert(src@.take(src@.len() as int) == src@);
    out
}

/// Whether two byte vectors hold the same bytes.
pub fn bytes_equal(a: &Vec<u8>, b: &Vec<u8>) -> (same: bool)
    ensures
        same == (a@ == b@),
{
    if a.len() != b.len() {
        return false;
    }
    let mut i: usize = 0;
    while i < a.len()
        invariant
            i <= a.len(),
            a.len() == b.len(),
            forall|k: int| 0 <= k < i ==> a@[k] == b@[k],
        decreases a.len() - i,
    {
        if a[i] != b[i] {
            return false;
        }
        i += 1;
    }
    assert(a@ =~= b@);
    true
}

/// An opaque caller identity, used as creator and as voter key.
#[derive(Debug)]
pub struct Identity {
    pub bytes: Vec<u8>,
}

impl View for Identity {
    type V = Seq<u8>;

    open spec fn view(&self) -> Seq<u8> {
        self.bytes@
    }
}

impl Clone for Identity {
    fn clone(&self) -> (out: Self)
        ensures
            out@ == self@,
    {
        Identity { bytes: copy_bytes(&self.bytes) }
    }
}

impl Identity {
    /// An identity holds at most 29 bytes.
    pub open spec fn wf(&self) -> bool {
        self.bytes@.len() <= MAX_IDENTITY_BYTES
    }

    /// The identity with the given bytes, if they are at most 29.
    pub fn new(bytes: Vec<u8>) -> (out: Option<Identity>)
        ensures
            out.is_some() == (bytes@.len() <= MAX_IDENTITY_BYTES),
            out.is_some() ==> out.unwrap()@ == bytes@ && out.unwrap().wf(),
    {
        if bytes.len() <= MAX_IDENTITY_BYTES {
            Some(Identity { bytes })
        } else {
            None
        }
    }

    /// Whether both identities are the same principal.
    pub fn same(&self, other: &Identity) -> (same: bool)
        ensures
            same == (self@ == other@),
    {
        bytes_equal(&self.bytes, &other.bytes)
    }

    /// The identity's textual form.
    pub fn to_text(&self) -> (text: String)
        requires
            self.wf(),
        ensures
            text@ == principal_text(self@),
    {
        principal_to_text(&self.bytes)
    }
}

} // verus!

use vstd::prelude::*;
use crate::bytes::same_bytes;

verus! {

/// What `multibase::decode` yields for a text: the decoded bytes, or nothing
/// where the text is not a valid multibase string.
pub uninterp spec fn multibase_decoded(s: Seq<char>) -> Option<Seq<u8>>;

/// What `cid::Cid::read_bytes` followed by `Cid::to_bytes` yields for a byte
/// string: the canonical binary form of the identifier read from its front.
pub uninterp spec fn cid_canonical(b: Seq<u8>) -> Option<Seq<u8>>;

/// Content address of a stored block, held as the binary form of its
/// content identifier (version, codec and multihash).
#[derive(Debug)]
pub struct Address {
    bytes: Vec<u8>,
}

impl View for Address {
    type V = Seq<u8>;

    closed spec fn view(&self) -> Seq<u8> {
        self.bytes@
    }
}

impl Address {
    /// An address from the binary form of a content identifier.
    pub fn from_bytes(bytes: Vec<u8>) -> (r: Address)
        ensures
            r@ == bytes@,
    {
        Address { bytes }
    }

    /// A second address equal to this one.
    pub fn duplicate(&self) -> (r: Address)
        ensures
            r@ == self@,
    {
        Address { bytes: self.bytes.clone() }
    }

    /// The binary form of the identifier.
    pub fn as_bytes(&self) -> (r: &Vec<u8>)
        ensures
            r@ == self@,
    {
        &self.bytes
    }

    /// Whether two addresses name the same content.
    pub fn same(&self, other: &Address) -> (r: bool)
        ensures
            r == (self@ == other@),
    {
        same_bytes(self.bytes.as_slice(), other.bytes.as_slice())
    }
}

/// Why a text could not be read as a content address.
#[derive(Clone, Copy, Debug, PartialEq, Eq)]
pub enum AddressError {
    /// The text is not a multibase string.
    Base,
    /// The decoded bytes do not start with a content identifier.
    Identifier,
}

/// Relies on `multibase::decode`: the bytes that a multibase text stands for.
#[verifier::external_body]
fn multibase_decode(s: &str) -> (r: Option<Vec<u8>>)
    ensures
        match r {
            Some(b) => multibase_decoded(s@) == Some(b@),
            None => multibase_decoded(s@) is None,
        },
{
    multibase::decode(s).ok().map(|(_, bytes)| bytes)
}

/// Relies on `cid::Cid::read_bytes`: reads an identifier from the front of
/// the bytes; the identifier is handed back in its binary form (`Cid::to_bytes`).
#[verifier::external_body]
fn cid_read(b: &Vec<u8>) -> (r: Option<Vec<u8>>)
    ensures
        match r {
            Some(c) => cid_canonical(b@) == Some(c@),
            None => cid_canonical(b@) is None,
        },
{
    cid::Cid::read_bytes(std::io::Cursor::new(b.as_slice())).ok().map(|c| c.to_bytes())
}

/// Reads the text form of a content address: a multibase string whose bytes
/// start with a content identifier.
pub fn parse_cid(s: &str) -> (r: Result<Address, AddressError>)
    ensures
        multibase_decoded(s@) is None ==> r == Err::<Address, AddressError>(AddressError::Base),
        multibase_decoded(s@) matches Some(b) ==> match cid_canonical(b) {
            Some(c) => r matches Ok(a) && a@ == c,
            None => r == Err::<Address, AddressError>(AddressError::Identifier),
        },
{
    match multibase_decode(s) {
        None => Err(AddressError::Base),
        Some(bytes) => match cid_read(&bytes) {
            None => Err(AddressError::Identifier),
            Some(c) => Ok(Address { bytes: c }),
        },
    }
}

} // verus!

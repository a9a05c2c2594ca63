use vstd::prelude::*;

use crate::id::{x25519_of, Identifier, IdentifierV, KEY_LEN};

verus! {

/// The body of a stream announcement as its author writes it: the author's identifier,
/// the key-exchange public key that subscribers encrypt to, and a flags byte.
pub struct ContentWrap {
    pub author_id: Identifier,
    pub ke_pk: Vec<u8>,
    pub flags: u8,
}

impl ContentWrap {
    /// The announcement body of `author_id` with `flags`. Only an Ed25519 identifier whose
    /// key converts to X25519 has a key-exchange key; for any other there is no body.
    pub fn new(author_id: &Identifier, flags: u8) -> (r: Option<ContentWrap>)
        requires
            author_id@.wf(),
        ensures
            author_id@ matches IdentifierV::Ed25519(pk) ==> match x25519_of(pk) {
                Some(k) => r matches Some(c) && c.author_id@ == author_id@ && c.ke_pk@ == k && c.flags == flags,
                None => r is None,
            },
            !(author_id@ is Ed25519) ==> r is None,
    {
        match author_id.ke_pk() {
            Some(ke_pk) => Some(ContentWrap { author_id: author_id.clone(), ke_pk, flags }),
            None => None,
        }
    }
}

/// The body of a stream announcement as a reader fills it in.
pub struct ContentUnwrap {
    pub author_id: Identifier,
    pub ke_pk: Vec<u8>,
    pub flags: u8,
}

impl ContentUnwrap {
    /// A body to read into, expecting `author_id`: a zero key-exchange key and no flags.
    pub fn new(author_id: Identifier) -> (r: ContentUnwrap)
        ensures
            r.author_id@ == author_id@,
            r.ke_pk@ == Seq::new(KEY_LEN as nat, |i: int| 0u8),
            r.flags == 0,
    {
        let ke_pk = crate::address::zeros(KEY_LEN);
        ContentUnwrap { author_id, ke_pk, flags: 0 }
    }
}

impl Default for ContentUnwrap {
    /// A body to read into, expecting the all-zero Ed25519 identifier.
    fn default() -> (r: ContentUnwrap)
        ensures
            r.author_id@ == IdentifierV::Ed25519(Seq::new(KEY_LEN as nat, |i: int| 0u8)),
            r.ke_pk@ == Seq::new(KEY_LEN as nat, |i: int| 0u8),
            r.flags == 0,
    {
        ContentUnwrap::new(Identifier::default())
    }
}

} // verus!

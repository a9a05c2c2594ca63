use vstd::prelude::*;

use crate::address::Address;

verus! {

/// Why a transport could not deliver.
#[derive(Debug, Clone, Copy, PartialEq, Eq, Structural)]
pub enum TransportError {
    /// No message is stored at the address.
    NotFound,
    /// More than one message is stored at the address.
    NotUnique,
    /// The transport failed for a reason of its own.
    Failed,
}

pub open spec fn messages_view(v: Seq<Vec<u8>>) -> Seq<Seq<u8>> {
    v.map_values(|m: Vec<u8>| m@)
}

/// Picks the one message of `msgs`: none is `NotFound`, several are `NotUnique`.
pub fn single_message(msgs: Vec<Vec<u8>>) -> (r: Result<Vec<u8>, TransportError>)
    ensures
        msgs@.len() == 0 ==> r == Err::<Vec<u8>, TransportError>(TransportError::NotFound),
        msgs@.len() > 1 ==> r == Err::<Vec<u8>, TransportError>(TransportError::NotUnique),
        msgs@.len() == 1 ==> (r matches Ok(m) && m@ == msgs@[0]@),
{
    let mut msgs = msgs;
    match msgs.pop() {
        Some(m) => {
            if msgs.len() == 0 {
                Ok(m)
            } else {
                Err(TransportError::NotUnique)
            }
        },
        None => Err(TransportError::NotFound),
    }
}

/// Moves opaque message bytes between addresses and the outside world.
pub trait Transport {
    /// Stores `msg` at `address`.
    fn send_message(&mut self, address: &Address, msg: Vec<u8>) -> Result<(), TransportError>;

    /// The messages stored at `address`.
    fn recv_messages(&mut self, address: &Address) -> Result<Vec<Vec<u8>>, TransportError>;

    /// The message stored at `address`, which must be the only one there.
    fn recv_message(&mut self, address: &Address) -> Result<Vec<u8>, TransportError> {
        received_one(self.recv_messages(address))
    }
}

/// The one message among what `recv_messages` gave: its error is passed on; none is
/// `NotFound`, several are `NotUnique`.
pub fn received_one(got: Result<Vec<Vec<u8>>, TransportError>) -> (r: Result<Vec<u8>, TransportError>)
    ensures
        got matches Err(e) ==> r == Err::<Vec<u8>, TransportError>(e),
        got matches Ok(msgs) ==> (msgs@.len() == 0 ==> r == Err::<Vec<u8>, TransportError>(TransportError::NotFound))
            && (msgs@.len() > 1 ==> r == Err::<Vec<u8>, TransportError>(TransportError::NotUnique))
            && (msgs@.len() == 1 ==> (r matches Ok(m) && m@ == msgs@[0]@)),
{
    match got {
        Ok(msgs) => single_message(msgs),
        Err(e) => Err(e),
    }
}

/// The messages stored at each address, in the order they were sent.
#[verifier::external_body]
pub struct MessageMap {
    inner: hashbrown::HashMap<Address, Vec<Vec<u8>>>,
}

/// What a `MessageMap` holds: the messages at each address.
pub uninterp spec fn message_map_contents(m: MessageMap) -> Map<(Seq<u8>, Seq<u8>), Seq<Seq<u8>>>;

impl View for MessageMap {
    type V = Map<(Seq<u8>, Seq<u8>), Seq<Seq<u8>>>;

    open spec fn view(&self) -> Map<(Seq<u8>, Seq<u8>), Seq<Seq<u8>>> {
        message_map_contents(*self)
    }
}

impl MessageMap {
    /// Relies on hashbrown::HashMap::new: an empty map.
    #[verifier::external_body]
    pub(crate) fn new() -> (r: MessageMap)
        ensures
            r@.dom() == Set::<(Seq<u8>, Seq<u8>)>::empty(),
    {
        MessageMap { inner: hashbrown::HashMap::new() }
    }

    /// A copy of the messages stored under `a`. Relies on hashbrown::HashMap::get, under
    /// `Address`'s `==`, which holds exactly of equal values, and its `Hash`, which equal
    /// values share.
    #[verifier::external_body]
    pub(crate) fn get(&self, a: &Address) -> (r: Option<Vec<Vec<u8>>>)
        ensures
            r matches Some(v) ==> message_map_contents(*self).contains_key(a@) && message_map_contents(*self)[a@]
                == messages_view(v@),
            r is None ==> !message_map_contents(*self).contains_key(a@),
    {
        self.inner.get(a).cloned()
    }

    /// Stores `msgs` under `a`. Relies on hashbrown::HashMap::insert.
    #[verifier::external_body]
    pub(crate) fn insert(&mut self, a: Address, msgs: Vec<Vec<u8>>)
        ensures
            message_map_contents(*final(self)) == message_map_contents(*old(self)).insert(a@, messages_view(msgs@)),
    {
        self.inner.insert(a, msgs);
    }
}

/// The messages stored at address `a` of `m`, in the order they were sent.
pub open spec fn messages_at(m: Map<(Seq<u8>, Seq<u8>), Seq<Seq<u8>>>, a: (Seq<u8>, Seq<u8>)) -> Seq<Seq<u8>> {
    if m.contains_key(a) {
        m[a]
    } else {
        Seq::empty()
    }
}

/// A transport that keeps every message in memory.
pub struct BucketTransport {
    bucket: MessageMap,
}

impl View for BucketTransport {
    type V = Map<(Seq<u8>, Seq<u8>), Seq<Seq<u8>>>;

    /// The messages at each address, in send order.
    closed spec fn view(&self) -> Map<(Seq<u8>, Seq<u8>), Seq<Seq<u8>>> {
        self.bucket@
    }
}

impl BucketTransport {
    pub fn new() -> (r: BucketTransport)
        ensures
            forall|a: (Seq<u8>, Seq<u8>)| #[trigger] messages_at(r@, a).len() == 0,
    {
        BucketTransport { bucket: MessageMap::new() }
    }

    /// Adds `msg` to the messages stored at `address`.
    pub fn store(&mut self, address: &Address, msg: Vec<u8>)
        ensures
            messages_at(final(self)@, address@) == messages_at(old(self)@, address@).push(msg@),
            forall|a: (Seq<u8>, Seq<u8>)| a != address@ ==> #[trigger] messages_at(final(self)@, a) == messages_at(old(self)@, a),
    {
        let mut msgs = match self.bucket.get(address) {
            Some(v) => v,
            None => Vec::new(),
        };
        let ghost before = messages_view(msgs@);
        msgs.push(msg);
        proof {
            assert(messages_view(msgs@) =~= before.push(msgs@[msgs@.len() - 1]@));
            assert(before =~= messages_at(old(self)@, address@));
        }
        self.bucket.insert(address.clone(), msgs);
    }

    /// Copies of the messages stored at `address`, in send order.
    pub fn messages(&self, address: &Address) -> (r: Vec<Vec<u8>>)
        ensures
            messages_view(r@) == messages_at(self@, address@),
    {
        match self.bucket.get(address) {
            Some(v) => v,
            None => {
                let r: Vec<Vec<u8>> = Vec::new();
                assert(messages_view(r@) =~= Seq::<Seq<u8>>::empty());
                r
            },
        }
    }

    /// The one message stored at `address`: none is `NotFound`, several are `NotUnique`.
    /// The bucket is left as it is.
    pub fn recv_one(&self, address: &Address) -> (r: Result<Vec<u8>, TransportError>)
        ensures
            messages_at(self@, address@).len() == 0 ==> r == Err::<Vec<u8>, TransportError>(TransportError::NotFound),
            messages_at(self@, address@).len() > 1 ==> r == Err::<Vec<u8>, TransportError>(TransportError::NotUnique),
            messages_at(self@, address@).len() == 1 ==> (r matches Ok(m) && m@ == messages_at(self@, address@)[0]),
    {
        let msgs = self.messages(address);
        proof {
            assert(messages_view(msgs@).len() == msgs@.len());
            if msgs@.len() > 0 {
                assert(messages_view(msgs@)[0] == msgs@[0]@);
            }
        }
        single_message(msgs)
    }
}

impl Transport for BucketTransport {
    fn send_message(&mut self, address: &Address, msg: Vec<u8>) -> Result<(), TransportError> {
        self.store(address, msg);
        Ok(())
    }

    fn recv_messages(&mut self, address: &Address) -> Result<Vec<Vec<u8>>, TransportError> {
        let msgs = self.messages(address);
        if msgs.len() == 0 {
            Err(TransportError::NotFound)
        } else {
            Ok(msgs)
        }
    }

    fn recv_message(&mut self, address: &Address) -> Result<Vec<u8>, TransportError> {
        self.recv_one(address)
    }
}

} // verus!

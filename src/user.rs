use vstd::prelude::*;

use crate::address::{copy_bytes, Address, MsgId, Topic};
use crate::backup::backup_consistent;
use crate::collections::{ByteMap, IdSet, TopicSet};
use crate::backup::{
    branch_v, branches_v, decode_backup, encode_backup, has_branch, ids_v, keys_distinct, members_distinct, names_branch, pairs_v,
    parse_state, topics_distinct, Backup, BackupV, BranchRecord,
};
use crate::cursor_store::{InnerCursorStore, entries_view, entry_of, ids_unique, insert_effect, seq_entry_of, seq_has_id, seq_ids_unique, CursorStore};
use crate::id::{Identifier, IdentifierV, PermissionDuration, Permissioned, PermissionedV};
use crate::transport::{Transport, TransportError};

verus! {

/// Sequence number of a stream announcement.
pub const ANN_MESSAGE_NUM: usize = 0;

/// Sequence number of a subscription.
pub const SUB_MESSAGE_NUM: usize = 0;

/// First sequence number of a publisher on a branch.
pub const INIT_MESSAGE_NUM: usize = 1;

pub const ANNOUNCEMENT: u8 = 0;
pub const BRANCH_ANNOUNCEMENT: u8 = 1;
pub const SUBSCRIPTION: u8 = 2;
pub const UNSUBSCRIPTION: u8 = 3;
pub const KEYLOAD: u8 = 4;
pub const SIGNED_PACKET: u8 = 5;
pub const TAGGED_PACKET: u8 = 6;

/// Why an operation of a user failed.
#[derive(Debug, Clone, Copy, PartialEq, Eq, Structural)]
pub enum UserError {
    /// The operation needs an identity and the user has none.
    NoIdentity,
    /// The operation needs a stream and the user has joined none.
    NotJoined,
    /// The user already belongs to a stream.
    AlreadyJoined,
    /// The topic names no branch that the user knows.
    UnknownTopic,
    /// The publisher's permission does not allow the operation.
    PermissionDenied,
    /// The publisher has no cursor in the branch.
    MissingCursor,
    /// The branch has no latest message to link to.
    MissingLatestLink,
    /// The sponge state of the message to link to is not stored.
    MissingPredecessor,
    /// The header lacks the address of the message it is linked to.
    MissingLinkedAddress,
    /// A message is already stored at the address.
    DuplicateAddress,
    /// The body could not be read, or is not of the header's type.
    MalformedBody,
    /// The header's type is none of the seven kinds of message.
    UnknownMessageType(u8),
    /// A pre-shared key id names no stored key.
    UnknownPsk,
    /// The next cursor does not fit in a `usize`.
    CursorOverflow,
    /// The author's identifier gives no key-exchange key.
    NoKeyExchangeKey,
    /// The bytes are not the state of a user.
    MalformedBackup,
    /// A branch cannot be announced with the name of the branch it comes from.
    SameBranch,
    /// The transport failed.
    Transport(TransportError),
}

/// The header fields of a received message, as its parser hands them over.
pub struct Header {
    pub message_type: u8,
    pub sequence: usize,
    pub publisher: Identifier,
    /// The branch that the header's topic hash names.
    pub topic: Topic,
    pub linked_msg_address: Option<MsgId>,
}

/// The body of a message, as its codec reads it.
pub enum Content {
    Announcement { author_id: Identifier, topic: Topic },
    BranchAnnouncement { new_topic: Topic },
    Subscription { subscriber: Identifier },
    Unsubscription { subscriber: Identifier },
    Keyload { subscribers: Vec<Permissioned> },
    SignedPacket { public_payload: Vec<u8>, masked_payload: Vec<u8> },
    TaggedPacket { public_payload: Vec<u8>, masked_payload: Vec<u8> },
}

/// What handling a message came to.
#[derive(Debug, Clone, Copy, PartialEq, Eq, Structural)]
pub enum Outcome {
    /// The message was read and its effects applied.
    Handled,
    /// The sponge state of its predecessor is not stored yet; only the header was read.
    Orphan,
}

/// A message made ready to send: its bytes and the sponge state after writing it.
pub struct Wrapped {
    pub bytes: Vec<u8>,
    pub snapshot: Vec<u8>,
}

/// What a new message must be built from: the publisher, the branch, the publisher's next
/// cursor and the message to link to, with the sponge state stored for it.
pub struct SendPlan {
    pub base: Vec<u8>,
    pub publisher: Identifier,
    pub permission: Permissioned,
    pub topic: Topic,
    pub cursor: usize,
    pub link_to: MsgId,
    pub linked_snapshot: Vec<u8>,
}

struct State {
    user_id: Option<Identifier>,
    stream_address: Option<Address>,
    author_identifier: Option<Identifier>,
    cursor_store: CursorStore,
    psk_store: ByteMap,
    subscribers: IdSet,
    spongos_store: ByteMap,
    base_branch: Topic,
    lean: bool,
    topics: TopicSet,
}

/// A participant of a stream: its identity, what it knows of the stream, and its transport.
pub struct User<T> {
    transport: T,
    state: State,
}

pub open spec fn opt_view<V: View>(o: Option<V>) -> Option<V::V> {
    match o {
        Some(v) => Some(v@),
        None => None,
    }
}

impl<T> User<T> {
    pub closed spec fn identity(&self) -> Option<IdentifierV> {
        opt_view(self.state.user_id)
    }

    pub closed spec fn stream(&self) -> Option<(Seq<u8>, Seq<u8>)> {
        opt_view(self.state.stream_address)
    }

    pub closed spec fn author(&self) -> Option<IdentifierV> {
        opt_view(self.state.author_identifier)
    }

    pub closed spec fn store(&self) -> CursorStore {
        self.state.cursor_store
    }

    pub closed spec fn psks(&self) -> Map<Seq<u8>, Seq<u8>> {
        self.state.psk_store@
    }

    pub closed spec fn subscriber_set(&self) -> Set<IdentifierV> {
        self.state.subscribers@
    }

    pub closed spec fn snapshots(&self) -> Map<Seq<u8>, Seq<u8>> {
        self.state.spongos_store@
    }

    pub closed spec fn base(&self) -> Seq<char> {
        self.state.base_branch@
    }

    pub closed spec fn is_lean(&self) -> bool {
        self.state.lean
    }

    pub closed spec fn topic_set(&self) -> Set<Seq<char>> {
        self.state.topics@
    }

    pub closed spec fn transport_of(&self) -> T {
        self.transport
    }

    /// The user's invariant: well-formed stores; a stream, an author and a base branch
    /// come together, the base branch being a known topic; every known topic has a branch.
    pub closed spec fn wf(&self) -> bool {
        &&& self.state.cursor_store.wf()
        &&& (self.stream() is Some <==> self.author() is Some)
        &&& (self.stream() is Some ==> self.store().branch(self.base()) is Some)
        &&& (self.stream() is Some ==> self.topic_set().contains(self.base()))
        &&& forall|t: Seq<char>| #[trigger] self.topic_set().contains(t) ==> self.store().branch(t) is Some
    }

    /// Whether two users hold the same state, whatever their transports.
    pub closed spec fn state_eq(&self, other: &User<T>) -> bool {
        self.state == other.state
    }

    /// The entry of `id` in branch `t`.
    pub open spec fn cursor_entry(&self, t: Seq<char>, id: IdentifierV) -> Option<(PermissionedV, usize)> {
        self.store().entry(t, id)
    }

    /// The parts of the state that a message about a branch leaves alone.
    pub open spec fn same_membership(&self, other: &User<T>) -> bool {
        &&& self.identity() == other.identity()
        &&& self.stream() == other.stream()
        &&& self.author() == other.author()
        &&& self.psks() == other.psks()
        &&& self.base() == other.base()
        &&& self.is_lean() == other.is_lean()
    }

    /// A user with an optional identity, pre-shared keys given as (id, key) pairs, and a
    /// transport. In lean mode only the announcement and the latest sponge states are kept.
    pub fn new(user_id: Option<Identifier>, psks: Vec<(Vec<u8>, Vec<u8>)>, transport: T, lean: bool) -> (r: User<T>)
        ensures
            r.wf(),
            r.identity() == opt_view(user_id),
            r.stream() is None,
            r.author() is None,
            r.subscriber_set() == Set::<IdentifierV>::empty(),
            r.snapshots() == Map::<Seq<u8>, Seq<u8>>::empty(),
            r.topic_set() == Set::<Seq<char>>::empty(),
            r.is_lean() == lean,
            r.transport_of() == transport,
            forall|t: Seq<char>| #[trigger] r.store().branch(t) is None,
            forall|k: Seq<u8>| #[trigger] r.psks().contains_key(k) <==> exists|i: int|
                0 <= i < psks@.len() && psks@[i].0@ == k,
    {
        let mut psk_store = ByteMap::new();
        let mut i: usize = 0;
        while i < psks.len()
            invariant
                0 <= i <= psks@.len(),
                forall|k: Seq<u8>| #[trigger] psk_store@.contains_key(k) <==> exists|j: int|
                    0 <= j < i && psks@[j].0@ == k,
            decreases psks@.len() - i,
        {
            let ghost before = psk_store@;
            psk_store.insert(copy_bytes(&psks[i].0), copy_bytes(&psks[i].1));
            proof {
                assert forall|k: Seq<u8>| #[trigger] psk_store@.contains_key(k) <==> exists|j: int|
                    0 <= j < i + 1 && psks@[j].0@ == k by {
                    if psk_store@.contains_key(k) && k != psks@[i as int].0@ {
                        assert(before.contains_key(k));
                    }
                    if exists|j: int| 0 <= j < i + 1 && psks@[j].0@ == k {
                        let j = choose|j: int| 0 <= j < i + 1 && psks@[j].0@ == k;
                        if j < i {
                            assert(before.contains_key(k));
                        }
                    }
                }
            }
            i = i + 1;
        }
        User {
            transport,
            state: State {
                user_id,
                stream_address: None,
                author_identifier: None,
                cursor_store: CursorStore::new(),
                psk_store,
                subscribers: IdSet::new(),
                spongos_store: ByteMap::new(),
                base_branch: Topic::default(),
                lean,
                topics: TopicSet::new(),
            },
        }
    }

    /// The user's identifier, if it has an identity.
    pub fn identifier(&self) -> (r: Option<&Identifier>)
        ensures
            r matches Some(i) ==> self.identity() == Some(i@),
            r is None ==> self.identity() is None,
    {
        match &self.state.user_id {
            Some(id) => Some(id),
            None => None,
        }
    }

    /// The user's own permission on branch `topic`.
    pub fn permission(&self, topic: &Topic) -> (r: Option<Permissioned>)
        requires
            self.wf(),
        ensures
            self.identity() is None ==> r is None,
            self.identity() matches Some(id) ==> (r matches Some(p) ==> self.cursor_entry(topic@, id)
                matches Some(e) && e.0 == p@) && (r is None ==> self.cursor_entry(topic@, id) is None),
    {
        match &self.state.user_id {
            Some(id) => self.state.cursor_store.get_permission(topic, id),
            None => None,
        }
    }

    /// The user's own cursor on branch `topic`.
    pub fn cursor(&self, topic: &Topic) -> (r: Option<usize>)
        requires
            self.wf(),
        ensures
            self.identity() is None ==> r is None,
            self.identity() matches Some(id) ==> (r matches Some(c) ==> self.cursor_entry(topic@, id)
                matches Some(e) && e.1 == c) && (r is None ==> self.cursor_entry(topic@, id) is None),
    {
        match &self.state.user_id {
            Some(id) => self.state.cursor_store.get_cursor(topic, id),
            None => None,
        }
    }

    /// The cursor that the user's next message on `topic` carries.
    pub fn next_cursor(&self, topic: &Topic) -> (r: Result<usize, UserError>)
        requires
            self.wf(),
        ensures
            self.identity() is None ==> r == Err::<usize, UserError>(UserError::NoIdentity),
            self.identity() matches Some(id) ==> match self.cursor_entry(topic@, id) {
                None => r == Err::<usize, UserError>(UserError::MissingCursor),
                Some(e) => if e.1 < usize::MAX {
                    r == Ok::<usize, UserError>((e.1 + 1) as usize)
                } else {
                    r == Err::<usize, UserError>(UserError::CursorOverflow)
                },
            },
    {
        if self.state.user_id.is_none() {
            return Err(UserError::NoIdentity);
        }
        match self.cursor(topic) {
            Some(c) => if c < usize::MAX {
                Ok(c + 1)
            } else {
                Err(UserError::CursorOverflow)
            },
            None => Err(UserError::MissingCursor),
        }
    }

    pub fn base_branch(&self) -> (r: &Topic)
        ensures
            r@ == self.base(),
    {
        &self.state.base_branch
    }

    pub fn stream_address(&self) -> (r: Option<Address>)
        ensures
            opt_view(r) == self.stream(),
    {
        match &self.state.stream_address {
            Some(a) => Some(a.clone()),
            None => None,
        }
    }

    pub fn author_identifier(&self) -> (r: Option<Identifier>)
        ensures
            opt_view(r) == self.author(),
    {
        match &self.state.author_identifier {
            Some(a) => Some(a.clone()),
            None => None,
        }
    }

    pub fn transport(&self) -> (r: &T)
        ensures
            *r == self.transport_of(),
    {
        &self.transport
    }

    pub fn transport_mut(&mut self) -> (r: &mut T)
        ensures
            *r == old(self).transport_of(),
            final(self).transport_of() == *final(r),
            final(self).state_eq(old(self)),
    {
        &mut self.transport
    }

    /// The known branch topics, each once.
    pub fn topics(&self) -> (r: Vec<Topic>)
        ensures
            crate::collections::topic_seq_set(r@) == self.topic_set(),
    {
        self.state.topics.to_vec()
    }

    /// The known subscribers, each once.
    pub fn subscribers(&self) -> (r: Vec<Identifier>)
        ensures
            crate::collections::id_seq_set(r@) == self.subscriber_set(),
    {
        self.state.subscribers.to_vec()
    }

    pub fn lean(&self) -> (r: bool)
        ensures
            r == self.is_lean(),
    {
        self.state.lean
    }

    /// The entries of branch `topic`.
    pub fn cursors_by_topic(&self, topic: &Topic) -> (r: Result<Vec<(Permissioned, usize)>, UserError>)
        requires
            self.wf(),
        ensures
            r matches Ok(v) ==> self.store().branch(topic@) matches Some(b) && seq_ids_unique(entries_view(v@))
                && forall|id: IdentifierV| #[trigger] seq_entry_of(entries_view(v@), id) == entry_of(b.cursors, id),
            r is Err ==> r == Err::<Vec<(Permissioned, usize)>, UserError>(UserError::UnknownTopic)
                && self.store().branch(topic@) is None,
    {
        match self.state.cursor_store.cursors_by_topic(topic) {
            Some(v) => Ok(v),
            None => Err(UserError::UnknownTopic),
        }
    }

    /// Every cursor entry of the user, with its branch.
    pub fn cursors(&self) -> (r: Vec<(Topic, Permissioned, usize)>)
        requires
            self.wf(),
        ensures
            forall|i: int| 0 <= i < r@.len() ==> #[trigger] self.cursor_entry(r@[i].0@, r@[i].1@.identifier()) == Some(
                (r@[i].1@, r@[i].2),
            ),
            forall|t: Seq<char>, id: IdentifierV| #[trigger] self.cursor_entry(t, id) is Some ==> exists|i: int|
                0 <= i < r@.len() && r@[i].0@ == t && r@[i].1@.identifier() == id,
    {
        self.state.cursor_store.cursors()
    }

    /// The sponge state stored for message `id`.
    pub fn snapshot(&self, id: &MsgId) -> (r: Option<Vec<u8>>)
        requires
            self.wf(),
        ensures
            r matches Some(s) ==> self.snapshots().contains_key(id@) && self.snapshots()[id@] == s@,
            r is None ==> !self.snapshots().contains_key(id@),
    {
        self.state.spongos_store.get(id.as_bytes())
    }

    /// Whether the user should start tracking `subscriber` on `topic`: it may write, and
    /// it does not hold this very permission already.
    pub fn should_store_cursor(&self, topic: &Topic, subscriber: &Permissioned) -> (r: bool)
        requires
            self.wf(),
        ensures
            r == (!subscriber@.is_readonly() && !(self.cursor_entry(topic@, subscriber@.identifier()) matches Some(
                e,
            ) && e.0 == subscriber@)),
    {
        if subscriber.is_readonly() {
            return false;
        }
        match self.state.cursor_store.get_permission(topic, subscriber.identifier()) {
            Some(p) => !p.same(subscriber),
            None => true,
        }
    }

    pub fn add_subscriber(&mut self, subscriber: Identifier) -> (r: bool)
        requires
            old(self).wf(),
        ensures
            final(self).wf(),
            final(self).subscriber_set() == old(self).subscriber_set().insert(subscriber@),
            r == !old(self).subscriber_set().contains(subscriber@),
            final(self).store() == old(self).store(),
            final(self).snapshots() == old(self).snapshots(),
            final(self).topic_set() == old(self).topic_set(),
            final(self).same_membership(old(self)),
    {
        let r = self.state.subscribers.insert(subscriber);
        proof {
            lemma_tracking_kept(old(self), self);
        }
        r
    }

    pub fn remove_subscriber(&mut self, id: &Identifier) -> (r: bool)
        requires
            old(self).wf(),
        ensures
            final(self).wf(),
            final(self).subscriber_set() == old(self).subscriber_set().remove(id@),
            r == old(self).subscriber_set().contains(id@),
            final(self).store() == old(self).store(),
            final(self).snapshots() == old(self).snapshots(),
            final(self).topic_set() == old(self).topic_set(),
            final(self).same_membership(old(self)),
    {
        let r = self.state.subscribers.remove(id);
        proof {
            lemma_tracking_kept(old(self), self);
        }
        r
    }

    /// Stores a pre-shared key under its id; tells whether the id was new.
    pub fn add_psk(&mut self, pskid: Vec<u8>, psk: Vec<u8>) -> (r: bool)
        requires
            old(self).wf(),
        ensures
            final(self).wf(),
            final(self).psks() == old(self).psks().insert(pskid@, psk@),
            r == !old(self).psks().contains_key(pskid@),
    {
        let r = self.state.psk_store.insert(pskid, psk);
        proof {
            lemma_tracking_kept(old(self), self);
        }
        r
    }

    pub fn remove_psk(&mut self, pskid: &Vec<u8>) -> (r: bool)
        requires
            old(self).wf(),
        ensures
            final(self).wf(),
            final(self).psks() == old(self).psks().remove(pskid@),
            r == old(self).psks().contains_key(pskid@),
    {
        let r = self.state.psk_store.remove(pskid.as_slice());
        proof {
            lemma_tracking_kept(old(self), self);
        }
        r
    }

    /// Whether `id` is the stream announcement's message id.
    fn is_stream_message(&self, id: &MsgId) -> (r: bool)
        ensures
            r == (self.stream() matches Some(a) && a.1 == id@),
    {
        match &self.state.stream_address {
            Some(a) => a.relative().same(id),
            None => false,
        }
    }

    /// Stores the sponge state of message `msg`, linked to `linked`. In lean mode the state
    /// of `linked` is dropped first, unless `linked` is the stream announcement.
    fn store_spongos(&mut self, msg: MsgId, snapshot: Vec<u8>, linked: &MsgId)
        requires
            old(self).wf(),
        ensures
            final(self).wf(),
            final(self).snapshots() == spongos_after(old(self).snapshots(), old(self).is_lean(),
                old(self).stream(), msg@, snapshot@, linked@),
            final(self).store() == old(self).store(),
            final(self).subscriber_set() == old(self).subscriber_set(),
            final(self).topic_set() == old(self).topic_set(),
            final(self).same_membership(old(self)),
    {
        if self.state.lean && !self.is_stream_message(linked) {
            self.state.spongos_store.remove(linked.as_bytes());
        }
        self.state.spongos_store.insert(msg.to_vec(), snapshot);
        proof {
            lemma_tracking_kept(old(self), self);
        }
    }
}

/// Known topics keep their branches when neither the topics nor the cursor store change.
proof fn lemma_tracking_kept<T>(a: &User<T>, b: &User<T>)
    requires
        forall|t: Seq<char>| #[trigger] a.topic_set().contains(t) ==> a.store().branch(t) is Some,
        b.topic_set() == a.topic_set(),
        b.store() == a.store(),
    ensures
        forall|t: Seq<char>| #[trigger] b.topic_set().contains(t) ==> b.store().branch(t) is Some,
{
    assert forall|t: Seq<char>| #[trigger] b.topic_set().contains(t) implies b.store().branch(t) is Some by {
        assert(a.topic_set().contains(t));
    }
}

/// The sponge states after storing `snapshot` for `msg`, linked to `linked`.
pub open spec fn spongos_after(
    store: Map<Seq<u8>, Seq<u8>>,
    lean: bool,
    stream: Option<(Seq<u8>, Seq<u8>)>,
    msg: Seq<u8>,
    snapshot: Seq<u8>,
    linked: Seq<u8>,
) -> Map<Seq<u8>, Seq<u8>> {
    let is_stream = stream matches Some(a) && a.1 == linked;
    if lean && !is_stream {
        store.remove(linked).insert(msg, snapshot)
    } else {
        store.insert(msg, snapshot)
    }
}

impl<T> User<T> {
    /// Whether the header's branch is known and its publisher tracked there.
    fn check_publisher(&self, header: &Header) -> (r: Result<(), UserError>)
        requires
            self.wf(),
        ensures
            !self.topic_set().contains(header.topic@) ==> r == Err::<(), UserError>(UserError::UnknownTopic),
            self.topic_set().contains(header.topic@) && self.cursor_entry(header.topic@, header.publisher@)
                is None ==> r == Err::<(), UserError>(UserError::MissingCursor),
            r is Ok <==> (self.topic_set().contains(header.topic@) && self.cursor_entry(header.topic@, header.publisher@) is Some),
    {
        if !self.state.topics.contains(&header.topic) {
            return Err(UserError::UnknownTopic);
        }
        match self.state.cursor_store.get_permission(&header.topic, &header.publisher) {
            Some(_) => Ok(()),
            None => Err(UserError::MissingCursor),
        }
    }

    /// Moves the publisher's cursor on the header's branch to the header's sequence.
    /// From the point of view of cursor tracking a message exists once its header is read,
    /// whether or not its body can be read after.
    fn track_publisher(&mut self, header: &Header) -> (r: Result<(), UserError>)
        requires
            old(self).wf(),
        ensures
            final(self).wf(),
            !old(self).topic_set().contains(header.topic@) ==> r == Err::<(), UserError>(UserError::UnknownTopic)
                && final(self).state_eq(old(self)),
            old(self).topic_set().contains(header.topic@) && old(self).cursor_entry(header.topic@, header.publisher@)
                is None ==> r == Err::<(), UserError>(UserError::MissingCursor) && final(self).state_eq(old(self)),
            r is Ok ==> publisher_tracked(old(self), final(self), header),
            r is Ok <==> (old(self).topic_set().contains(header.topic@) && old(self).cursor_entry(header.topic@, header.publisher@) is Some),
    {
        if !self.state.topics.contains(&header.topic) {
            return Err(UserError::UnknownTopic);
        }
        let perm = match self.state.cursor_store.get_permission(&header.topic, &header.publisher) {
            Some(p) => p,
            None => return Err(UserError::MissingCursor),
        };
        self.state.cursor_store.insert_cursor(&header.topic, perm, header.sequence);
        proof {
            lemma_tracking_kept_store(old(self), self);
        }
        Ok(())
    }

    /// Handles a signed packet whose header is `header`; `body` is what the codec read
    /// from it with the predecessor's sponge state, if it could.
    pub fn handle_signed_packet(&mut self, address: &Address, header: &Header, body: Option<(Content, Vec<u8>)>) -> (r: Result<Outcome, UserError>)
        requires
            old(self).wf(),
        ensures
            final(self).wf(),
            packet_handled(old(self), final(self), address@, header, signed_snapshot(body), r),
    {
        let snapshot = match body {
            Some((Content::SignedPacket { .. }, s)) => Some(s),
            _ => None,
        };
        self.handle_packet(address, header, snapshot)
    }

    /// Handles a tagged packet, as `handle_signed_packet` does a signed one.
    pub fn handle_tagged_packet(&mut self, address: &Address, header: &Header, body: Option<(Content, Vec<u8>)>) -> (r: Result<Outcome, UserError>)
        requires
            old(self).wf(),
        ensures
            final(self).wf(),
            packet_handled(old(self), final(self), address@, header, tagged_snapshot(body), r),
    {
        let snapshot = match body {
            Some((Content::TaggedPacket { .. }, s)) => Some(s),
            _ => None,
        };
        self.handle_packet(address, header, snapshot)
    }

    fn handle_packet(&mut self, address: &Address, header: &Header, snapshot: Option<Vec<u8>>) -> (r: Result<Outcome, UserError>)
        requires
            old(self).wf(),
        ensures
            final(self).wf(),
            packet_handled(old(self), final(self), address@, header, opt_view(snapshot), r),
    {
        match self.check_publisher(header) {
            Ok(()) => {},
            Err(e) => return Err(e),
        }
        let linked = match &header.linked_msg_address {
            Some(l) => l,
            None => return Err(UserError::MissingLinkedAddress),
        };
        if !self.state.spongos_store.contains_key(linked.as_bytes()) {
            return Ok(Outcome::Orphan);
        }
        match self.track_publisher(header) {
            Ok(()) => {},
            Err(e) => return Err(e),
        }
        let ghost mid = *self;
        let snapshot = match snapshot {
            Some(s) => s,
            None => return Err(UserError::MalformedBody),
        };
        self.store_spongos(address.relative(), snapshot, linked);
        self.state.cursor_store.set_latest_link(header.topic.clone(), address.relative());
        proof {
            lemma_tracking_kept_store(&mid, self);
            let t = header.topic@;
            assert forall|other: IdentifierV| #[trigger] self.cursor_entry(t, other) == mid.cursor_entry(t, other) by {}
            assert forall|other: IdentifierV| other != header.publisher@ implies #[trigger] self.cursor_entry(t, other)
                == old(self).cursor_entry(t, other) by {
                assert(self.cursor_entry(t, other) == mid.cursor_entry(t, other));
            }
            assert(self.cursor_entry(t, header.publisher@) == mid.cursor_entry(t, header.publisher@));
        }
        Ok(Outcome::Handled)
    }

    /// Handles a subscription: its subscriber joins the subscriber set. Its sponge state
    /// is not stored and no cursor is recorded.
    pub fn handle_subscription(&mut self, header: &Header, body: Option<(Content, Vec<u8>)>) -> (r: Result<Outcome, UserError>)
        requires
            old(self).wf(),
        ensures
            final(self).wf(),
            subscription_handled(old(self), final(self), header, body, r),
    {
        let linked = match &header.linked_msg_address {
            Some(l) => l,
            None => return Err(UserError::MissingLinkedAddress),
        };
        if !self.state.spongos_store.contains_key(linked.as_bytes()) {
            return Ok(Outcome::Orphan);
        }
        if self.state.user_id.is_none() {
            return Err(UserError::NoIdentity);
        }
        match body {
            Some((Content::Subscription { subscriber }, _)) => {
                self.add_subscriber(subscriber);
                Ok(Outcome::Handled)
            },
            _ => Err(UserError::MalformedBody),
        }
    }

    /// Handles an unsubscription: its subscriber leaves the subscriber set.
    pub fn handle_unsubscription(&mut self, address: &Address, header: &Header, body: Option<(Content, Vec<u8>)>) -> (r: Result<Outcome, UserError>)
        requires
            old(self).wf(),
        ensures
            final(self).wf(),
            unsubscription_handled(old(self), final(self), address@, header, body, r),
    {
        let linked = match &header.linked_msg_address {
            Some(l) => l,
            None => return Err(UserError::MissingLinkedAddress),
        };
        if !self.state.spongos_store.contains_key(linked.as_bytes()) {
            return Ok(Outcome::Orphan);
        }
        match body {
            Some((Content::Unsubscription { subscriber }, snap)) => {
                self.store_spongos(address.relative(), snap, linked);
                self.remove_subscriber(&subscriber);
                Ok(Outcome::Handled)
            },
            _ => Err(UserError::MalformedBody),
        }
    }

    /// Handles a stream announcement: the user joins the stream it announces, whose base
    /// branch has the announcing author as its admin.
    pub fn handle_announcement(&mut self, address: &Address, header: &Header, body: Option<(Content, Vec<u8>)>) -> (r: Result<Outcome, UserError>)
        requires
            old(self).wf(),
        ensures
            final(self).wf(),
            announcement_handled(old(self), final(self), address@, header, body, r),
    {
        let (author_id, topic, snap) = match body {
            Some((Content::Announcement { author_id, topic }, snap)) => (author_id, topic, snap),
            _ => return Err(UserError::MalformedBody),
        };
        let ghost s0 = self.state.cursor_store;
        self.state.cursor_store.new_branch(topic.clone());
        self.state.topics.insert(topic.clone());
        let ghost s1 = self.state.cursor_store;
        self.state.cursor_store.insert_cursor(&topic, Permissioned::Admin(header.publisher.clone()), INIT_MESSAGE_NUM);
        proof {
            let b1 = s1.branch(topic@).unwrap();
            let b2 = self.state.cursor_store.branch(topic@).unwrap();
            assert forall|other: IdentifierV| other != header.publisher@ implies #[trigger] entry_of(b2.cursors, other) is None by {
                assert(entry_of(b2.cursors, other) == entry_of(b1.cursors, other));
            }
        }
        let rel = address.relative();
        self.state.spongos_store.insert(rel.to_vec(), snap);
        self.state.cursor_store.set_latest_link(topic.clone(), rel);
        self.state.author_identifier = Some(author_id);
        self.state.base_branch = topic;
        self.state.stream_address = Some(address.clone());
        proof {
            assert forall|t: Seq<char>| #[trigger] self.topic_set().contains(t) implies self.store().branch(t) is Some by {
                if t != self.base() {
                    assert(old(self).topic_set().contains(t));
                }
            }
        }
        Ok(Outcome::Handled)
    }

    /// Copies every permission of `entries` into the empty branch `to`, each at the first cursor.
    fn clone_permissions(&mut self, entries: &Vec<(Permissioned, usize)>, to: &Topic)
        requires
            old(self).wf(),
            old(self).store().branch(to@) matches Some(b) && b.cursors.dom() == Set::<PermissionedV>::empty(),
            seq_ids_unique(entries_view(entries@)),
        ensures
            final(self).wf(),
            final(self).store().branch(to@) matches Some(b) && b.latest_link == old(self).store().branch(to@).unwrap().latest_link,
            forall|id: IdentifierV| #[trigger] final(self).cursor_entry(to@, id) == at_first_cursor(seq_entry_of(entries_view(entries@), id)),
            forall|t: Seq<char>| t != to@ ==> #[trigger] final(self).store().branch(t) == old(self).store().branch(t),
            final(self).snapshots() == old(self).snapshots(),
            final(self).subscriber_set() == old(self).subscriber_set(),
            final(self).topic_set() == old(self).topic_set(),
            final(self).same_membership(old(self)),
    {
        let ghost s = entries_view(entries@);
        let ghost link0 = self.store().branch(to@).unwrap().latest_link;
        let mut i: usize = 0;
        while i < entries.len()
            invariant
                self.wf(),
                0 <= i <= entries@.len(),
                s == entries_view(entries@),
                seq_ids_unique(s),
                self.store().branch(to@) matches Some(b) && b.latest_link == link0,
                forall|id: IdentifierV| #[trigger] self.cursor_entry(to@, id) == at_first_cursor(seq_entry_of(s.subrange(0, i as int), id)),
                forall|t: Seq<char>| t != to@ ==> #[trigger] self.store().branch(t) == old(self).store().branch(t),
                self.snapshots() == old(self).snapshots(),
                self.subscriber_set() == old(self).subscriber_set(),
                self.topic_set() == old(self).topic_set(),
                self.same_membership(old(self)),
            decreases entries@.len() - i,
        {
            let ghost pre = *self;
            let perm = entries[i].0.clone();
            proof {
                let p = s.subrange(0, i as int);
                assert forall|j: int| 0 <= j < p.len() implies (#[trigger] p[j]).0.identifier() != s[i as int].0.identifier() by {
                    assert(p[j] == s[j]);
                }
                crate::cursor_store::lemma_seq_no_entry(p, s[i as int].0.identifier());
                assert(seq_ids_unique(p));
                assert(s.subrange(0, i + 1) =~= p.push(s[i as int]));
                crate::cursor_store::lemma_seq_push_entry(p, s[i as int]);
            }
            self.state.cursor_store.insert_cursor(to, perm, INIT_MESSAGE_NUM);
            proof {
                lemma_tracking_kept_store(&pre, self);
                let p = s.subrange(0, i as int);
                let x = s[i as int].0.identifier();
                assert(s.subrange(0, i + 1) =~= p.push(s[i as int]));
                assert(pre.cursor_entry(to@, x) == at_first_cursor(seq_entry_of(p, x)));
                assert forall|id: IdentifierV| #[trigger] self.cursor_entry(to@, id) == at_first_cursor(seq_entry_of(s.subrange(0, i + 1), id)) by {
                    if id != x {
                        assert(pre.cursor_entry(to@, id) == at_first_cursor(seq_entry_of(p, id)));
                    }
                }
            }
            i = i + 1;
        }
        assert(s.subrange(0, i as int) =~= s);
    }

    /// Handles a branch announcement: the publisher's cursor on the source branch moves to
    /// the header's sequence; the new branch gets every permission of the source branch,
    /// each at the first cursor, and the announcement as its latest message.
    pub fn handle_branch_announcement(&mut self, address: &Address, header: &Header, body: Option<(Content, Vec<u8>)>) -> (r: Result<Outcome, UserError>)
        requires
            old(self).wf(),
        ensures
            final(self).wf(),
            branch_announcement_handled(old(self), final(self), address@, header, body, r),
    {
        match self.check_publisher(header) {
            Ok(()) => {},
            Err(e) => return Err(e),
        }
        let linked = match &header.linked_msg_address {
            Some(l) => l,
            None => return Err(UserError::MissingLinkedAddress),
        };
        if !self.state.spongos_store.contains_key(linked.as_bytes()) {
            return Ok(Outcome::Orphan);
        }
        match self.track_publisher(header) {
            Ok(()) => {},
            Err(e) => return Err(e),
        }
        let ghost mid = *self;
        let (new_topic, snap) = match body {
            Some((Content::BranchAnnouncement { new_topic }, snap)) => (new_topic, snap),
            _ => return Err(UserError::MalformedBody),
        };
        self.store_spongos(address.relative(), snap, linked);
        let prev = match self.state.cursor_store.cursors_by_topic(&header.topic) {
            Some(v) => v,
            None => Vec::new(),
        };
        let ghost prev_t = header.topic@;
        proof {
            crate::cursor_store::lemma_one_entry_per_identifier(&mid.store(), prev_t);
            assert(seq_ids_unique(entries_view(prev@)));
        }
        self.state.cursor_store.new_branch(new_topic.clone());
        self.state.topics.insert(new_topic.clone());
        proof {
            assert forall|t: Seq<char>| #[trigger] self.topic_set().contains(t) implies self.store().branch(t) is Some by {
                if t != new_topic@ {
                    assert(mid.topic_set().contains(t));
                }
            }
        }
        let ghost pre_clone = *self;
        if !new_topic.same(&header.topic) {
            self.clone_permissions(&prev, &new_topic);
        }
        let ghost pre_link = *self;
        self.state.cursor_store.set_latest_link(new_topic.clone(), address.relative());
        proof {
            lemma_tracking_kept_store(&pre_link, self);
            let nt = new_topic@;
            let p = header.publisher@;
            if nt != prev_t {
                assert forall|id: IdentifierV| #[trigger] self.cursor_entry(nt, id) == at_first_cursor(old(self).cursor_entry(prev_t, id)) by {
                    assert(self.cursor_entry(nt, id) == pre_link.cursor_entry(nt, id));
                    assert(pre_link.cursor_entry(nt, id) == at_first_cursor(seq_entry_of(entries_view(prev@), id)));
                    assert(mid.cursor_entry(prev_t, id) == seq_entry_of(entries_view(prev@), id));
                    if id != p {
                        assert(mid.cursor_entry(prev_t, id) == old(self).cursor_entry(prev_t, id));
                    }
                }
                assert(self.store().branch(prev_t) == pre_link.store().branch(prev_t));
                assert(self.cursor_entry(prev_t, p) == pre_link.cursor_entry(prev_t, p));
                assert(pre_link.store().branch(prev_t) == pre_clone.store().branch(prev_t));
                assert(pre_clone.cursor_entry(prev_t, p) == mid.cursor_entry(prev_t, p));
                assert forall|id: IdentifierV| id != p implies #[trigger] self.cursor_entry(prev_t, id) == old(self).cursor_entry(prev_t, id) by {
                    assert(self.cursor_entry(prev_t, id) == pre_link.cursor_entry(prev_t, id));
                    assert(pre_clone.cursor_entry(prev_t, id) == mid.cursor_entry(prev_t, id));
                }
            }
            assert forall|t2: Seq<char>| t2 != prev_t && t2 != nt implies #[trigger] self.store().branch(t2) == old(self).store().branch(t2) by {
                assert(self.store().branch(t2) == pre_link.store().branch(t2));
                assert(pre_link.store().branch(t2) == pre_clone.store().branch(t2));
                assert(pre_clone.store().branch(t2) == mid.store().branch(t2));
            }
        }
        Ok(Outcome::Handled)
    }
}

/// The entry `e` moved to the first cursor.
pub open spec fn at_first_cursor(e: Option<(PermissionedV, usize)>) -> Option<(PermissionedV, usize)> {
    match e {
        Some(x) => Some((x.0, INIT_MESSAGE_NUM)),
        None => None,
    }
}

/// The effect of `track_publisher`: the publisher's cursor on the header's branch is the
/// header's sequence, and nothing else changed.
pub open spec fn publisher_tracked<T>(old: &User<T>, new: &User<T>, header: &Header) -> bool {
    let t = header.topic@;
    let p = header.publisher@;
    &&& old.cursor_entry(t, p) matches Some(e) && new.cursor_entry(t, p) == Some((e.0, header.sequence))
    &&& forall|other: IdentifierV| other != p ==> #[trigger] new.cursor_entry(t, other) == old.cursor_entry(t, other)
    &&& new.store().branch(t) matches Some(b) && b.latest_link == old.store().branch(t).unwrap().latest_link
    &&& forall|t2: Seq<char>| t2 != t ==> #[trigger] new.store().branch(t2) == old.store().branch(t2)
    &&& new.snapshots() == old.snapshots()
    &&& new.subscriber_set() == old.subscriber_set()
    &&& new.topic_set() == old.topic_set()
    &&& new.same_membership(old)
}

/// The sponge state read with a signed packet's body.
pub open spec fn signed_snapshot(body: Option<(Content, Vec<u8>)>) -> Option<Seq<u8>> {
    match body {
        Some((Content::SignedPacket { .. }, s)) => Some(s@),
        _ => None,
    }
}

/// The sponge state read with a tagged packet's body.
pub open spec fn tagged_snapshot(body: Option<(Content, Vec<u8>)>) -> Option<Seq<u8>> {
    match body {
        Some((Content::TaggedPacket { .. }, s)) => Some(s@),
        _ => None,
    }
}

/// What handling a packet does: with a known branch and publisher, the publisher's cursor
/// moves to the header's sequence; then, if the predecessor's state is stored and the body
/// was read, the packet's state is stored and it becomes the branch's latest message.
pub open spec fn packet_handled<T>(
    old: &User<T>,
    new: &User<T>,
    address: (Seq<u8>, Seq<u8>),
    header: &Header,
    snapshot: Option<Seq<u8>>,
    r: Result<Outcome, UserError>,
) -> bool {
    let t = header.topic@;
    let p = header.publisher@;
    if !old.topic_set().contains(t) {
        r == Err::<Outcome, UserError>(UserError::UnknownTopic) && new.state_eq(old)
    } else if old.cursor_entry(t, p) is None {
        r == Err::<Outcome, UserError>(UserError::MissingCursor) && new.state_eq(old)
    } else {
        match header.linked_msg_address {
            None => r == Err::<Outcome, UserError>(UserError::MissingLinkedAddress) && new.state_eq(old),
            Some(l) => if !old.snapshots().contains_key(l@) {
                r == Ok::<Outcome, UserError>(Outcome::Orphan) && new.state_eq(old)
            } else {
                &&& old.cursor_entry(t, p) matches Some(e) && new.cursor_entry(t, p) == Some((e.0, header.sequence))
                &&& forall|other: IdentifierV| other != p ==> #[trigger] new.cursor_entry(t, other) == old.cursor_entry(t, other)
                &&& forall|t2: Seq<char>| t2 != t ==> #[trigger] new.store().branch(t2) == old.store().branch(t2)
                &&& new.subscriber_set() == old.subscriber_set()
                &&& new.topic_set() == old.topic_set()
                &&& new.same_membership(old)
                &&& match snapshot {
                    None => r == Err::<Outcome, UserError>(UserError::MalformedBody) && new.snapshots() == old.snapshots()
                        && new.store().branch(t).unwrap().latest_link == old.store().branch(t).unwrap().latest_link,
                    Some(s) => r == Ok::<Outcome, UserError>(Outcome::Handled) && new.snapshots() == spongos_after(
                        old.snapshots(),
                        old.is_lean(),
                        old.stream(),
                        address.1,
                        s,
                        l@,
                    ) && (new.store().branch(t) matches Some(b) && b.latest_link == address.1),
                }
            },
        }
    }
}

/// What a handled branch announcement leaves: the new branch is known, holds each
/// permission of the source branch at the first cursor, and links to the announcement.
pub open spec fn branch_announced<T>(
    old: &User<T>,
    new: &User<T>,
    address: (Seq<u8>, Seq<u8>),
    header: &Header,
    body: Option<(Content, Vec<u8>)>,
) -> bool {
    match body {
        Some((Content::BranchAnnouncement { new_topic }, snap)) => {
            &&& header.linked_msg_address matches Some(l) && new.snapshots() == spongos_after(
                old.snapshots(),
                old.is_lean(),
                old.stream(),
                address.1,
                snap@,
                l@,
            )
            &&& new.topic_set() == old.topic_set().insert(new_topic@)
            &&& new.store().branch(new_topic@) matches Some(b) && b.latest_link == address.1
            &&& new_topic@ != header.topic@ ==> forall|id: IdentifierV|
                #[trigger] new.cursor_entry(new_topic@, id) == at_first_cursor(old.cursor_entry(header.topic@, id))
            &&& new_topic@ != header.topic@ ==> (old.cursor_entry(header.topic@, header.publisher@) matches Some(e)
                && new.cursor_entry(header.topic@, header.publisher@) == Some((e.0, header.sequence)))
            &&& new.subscriber_set() == old.subscriber_set()
            &&& new_topic@ != header.topic@ ==> forall|id: IdentifierV| id != header.publisher@ ==> #[trigger] new.cursor_entry(
                header.topic@,
                id,
            ) == old.cursor_entry(header.topic@, id)
            &&& forall|t2: Seq<char>| t2 != header.topic@ && t2 != new_topic@ ==> #[trigger] new.store().branch(t2) == old.store().branch(t2)
            &&& new.same_membership(old)
        },
        _ => false,
    }
}

/// Known topics keep their branches when the topics stay and branches are only added.
proof fn lemma_tracking_kept_store<T>(a: &User<T>, b: &User<T>)
    requires
        forall|t: Seq<char>| #[trigger] a.topic_set().contains(t) ==> a.store().branch(t) is Some,
        b.topic_set() == a.topic_set(),
        forall|t: Seq<char>| #[trigger] a.store().branch(t) is Some ==> b.store().branch(t) is Some,
    ensures
        forall|t: Seq<char>| #[trigger] b.topic_set().contains(t) ==> b.store().branch(t) is Some,
{
    assert forall|t: Seq<char>| #[trigger] b.topic_set().contains(t) implies b.store().branch(t) is Some by {
        assert(a.topic_set().contains(t));
        assert(a.store().branch(t) is Some);
    }
}

impl<T> User<T> {
    /// Handles a keyload from an admin of the header's branch. Every identifier tracked on
    /// the branch that the keyload does not list, but for the author, is demoted to read
    /// access with its cursor kept; every listed writer not tracked with that very
    /// permission is tracked from the first cursor.
    pub fn handle_keyload(&mut self, address: &Address, header: &Header, body: Option<(Content, Vec<u8>)>) -> (r: Result<Outcome, UserError>)
        requires
            old(self).wf(),
        ensures
            final(self).wf(),
            keyload_handled(old(self), final(self), address@, header, body, r),
    {
        let stream_rel = match &self.state.stream_address {
            Some(a) => a.relative(),
            None => return Err(UserError::NotJoined),
        };
        if !self.state.topics.contains(&header.topic) {
            return Err(UserError::UnknownTopic);
        }
        match self.state.cursor_store.get_permission(&header.topic, &header.publisher) {
            Some(p) => if !p.is_admin() {
                return Err(UserError::PermissionDenied);
            },
            None => return Err(UserError::MissingCursor),
        }
        if !self.state.spongos_store.contains_key(stream_rel.as_bytes()) {
            return Ok(Outcome::Orphan);
        }
        self.state.cursor_store.insert_cursor(&header.topic, Permissioned::Admin(header.publisher.clone()), header.sequence);
        proof {
            lemma_tracking_kept_store(old(self), self);
        }
        let ghost bumped = *self;
        let (subscribers, snap) = match body {
            Some((Content::Keyload { subscribers }, snap)) => (subscribers, snap),
            _ => return Err(UserError::MalformedBody),
        };
        self.state.spongos_store.insert(address.relative().to_vec(), snap);
        proof {
            lemma_tracking_kept(&bumped, self);
        }
        let author = match &self.state.author_identifier {
            Some(a) => a.clone(),
            None => return Err(UserError::NotJoined),
        };
        let ghost k = perm_views(subscribers@);
        let ghost t = header.topic@;
        let ghost mid = *self;
        let stored = match self.state.cursor_store.cursors_by_topic(&header.topic) {
            Some(v) => v,
            None => Vec::new(),
        };
        let ghost es = entries_view(stored@);
        proof {
            crate::cursor_store::lemma_one_entry_per_identifier(&mid.store(), t);
            assert(seq_ids_unique(es));
            assert forall|x: IdentifierV| #[trigger] seq_entry_of(es, x) == mid.cursor_entry(t, x) by {
                assert(seq_entry_of(es, x) == entry_of(mid.store().branch(t).unwrap().cursors, x));
            }
            assert forall|j: int| 0 <= j < es.len() implies #[trigger] mid.cursor_entry(t, es[j].0.identifier()) == Some(es[j]) by {
                crate::cursor_store::lemma_seq_entry_at(es, j);
                assert(seq_entry_of(es, es[j].0.identifier()) == mid.cursor_entry(t, es[j].0.identifier()));
            }
        }
        let mut i: usize = 0;
        while i < stored.len()
            invariant
                self.wf(),
                0 <= i <= stored@.len(),
                t == header.topic@,
                es == entries_view(stored@),
                seq_ids_unique(es),
                forall|x: IdentifierV| #[trigger] seq_entry_of(es, x) == mid.cursor_entry(t, x),
                mid.store().branch(t) is Some,
                k == perm_views(subscribers@),
                mid.author() == Some(author@),
                forall|j: int| 0 <= j < es.len() ==> #[trigger] self.cursor_entry(t, es[j].0.identifier())
                    == demoted(es[j], j < i, author@, k),
                forall|id: IdentifierV| !seq_has_id(es, id) ==> #[trigger] self.cursor_entry(t, id) is None,
                self.store().branch(t) matches Some(b) && b.latest_link == mid.store().branch(t).unwrap().latest_link,
                forall|t2: Seq<char>| t2 != t ==> #[trigger] self.store().branch(t2) == mid.store().branch(t2),
                self.snapshots() == mid.snapshots(),
                self.subscriber_set() == mid.subscriber_set(),
                self.topic_set() == mid.topic_set(),
                self.same_membership(&mid),
            decreases stored@.len() - i,
        {
            let id = stored[i].0.identifier();
            let keep = id.same(&author) || lists(&subscribers, id);
            if !keep {
                let ghost pre = *self;
                let ghost x = es[i as int].0.identifier();
                proof {
                    assert(pre.cursor_entry(t, x) == Some(es[i as int]));
                }
                let ins = self.state.cursor_store.insert_cursor(&header.topic, Permissioned::Read(id.clone()), stored[i].1);
                proof {
                    lemma_tracking_kept_store(&pre, self);
                    assert(stored@[i as int].0@ == es[i as int].0);
                    lemma_insert_frame(&pre, self, t, PermissionedV::Read(x), stored@[i as int].1, ins);
                    assert(self.cursor_entry(t, x) == Some((PermissionedV::Read(x), es[i as int].1)));
                    assert forall|t2: Seq<char>| t2 != t implies #[trigger] self.store().branch(t2) == mid.store().branch(t2) by {
                        assert(pre.store().branch(t2) == mid.store().branch(t2));
                    }
                    assert forall|j: int| 0 <= j < es.len() implies #[trigger] self.cursor_entry(t, es[j].0.identifier())
                        == demoted(es[j], j < i + 1, author@, k) by {
                        if j != i {
                            assert(es[j].0.identifier() != x);
                            assert(pre.cursor_entry(t, es[j].0.identifier()) == demoted(es[j], j < i, author@, k));
                        }
                    }
                    assert forall|id2: IdentifierV| !seq_has_id(es, id2) implies #[trigger] self.cursor_entry(t, id2) is None by {
                        assert(es[i as int].0.identifier() == x);
                        assert(pre.cursor_entry(t, id2) is None);
                    }
                }
            }
            i = i + 1;
        }
        let ghost mid3 = *self;
        self.track_writers(&header.topic, &subscribers, &header.publisher);
        let ghost pre_link = *self;
        self.state.cursor_store.set_latest_link(header.topic.clone(), address.relative());
        proof {
            lemma_tracking_kept_store(&pre_link, self);
            let pb = header.publisher@;
            let b0 = pre_link.store().branch(t).unwrap();
            let b1 = self.store().branch(t).unwrap();
            assert forall|id: IdentifierV| #[trigger] self.cursor_entry(t, id) == pre_link.cursor_entry(t, id) by {
                assert(entry_of(b1.cursors, id) == entry_of(b0.cursors, id));
            }
            assert forall|j: int| 0 <= j < k.len() && listed_writer(k, j, pb) implies #[trigger] self.cursor_entry(t, k[j].identifier()) is Some by {
                assert(pre_link.cursor_entry(t, k[j].identifier()) is Some);
            }
            // A listed identifier other than the publisher was neither bumped nor demoted.
            assert forall|id: IdentifierV| id != pb && listed(k, id) implies #[trigger] mid3.cursor_entry(t, id) == old(self).cursor_entry(t, id) by {
                assert(mid.cursor_entry(t, id) == old(self).cursor_entry(t, id));
                if seq_has_id(es, id) {
                    let j = choose|j: int| 0 <= j < es.len() && (#[trigger] es[j]).0.identifier() == id;
                    assert(mid3.cursor_entry(t, es[j].0.identifier()) == demoted(es[j], true, author@, k));
                    assert(mid.cursor_entry(t, es[j].0.identifier()) == Some(es[j]));
                } else {
                    assert(seq_entry_of(es, id) == mid.cursor_entry(t, id));
                }
            }
            if ids_distinct(k) {
                assert forall|j: int| 0 <= j < k.len() && listed_writer(k, j, pb) implies #[trigger] self.cursor_entry(t, k[j].identifier())
                    == Some((k[j], tracked_cursor(old(self).cursor_entry(t, k[j].identifier())))) by {
                    assert(listed(k, k[j].identifier()));
                    assert(mid3.cursor_entry(t, k[j].identifier()) == old(self).cursor_entry(t, k[j].identifier()));
                }
            }
            assert(!touched(k, k.len() as int, pb, pb));
            assert(pre_link.cursor_entry(t, pb) == mid3.cursor_entry(t, pb));
            assert(seq_entry_of(es, pb) == mid.cursor_entry(t, pb));
            assert(seq_has_id(es, pb));
            let jp = choose|j: int| 0 <= j < es.len() && (#[trigger] es[j]).0.identifier() == pb;
            crate::cursor_store::lemma_seq_entry_at(es, jp);
            assert(mid3.cursor_entry(t, es[jp].0.identifier()) == demoted(es[jp], true, author@, k));
            assert forall|id: IdentifierV|
                #[trigger] old(self).cursor_entry(t, id) is Some && id != header.publisher@ && Some(id) != old(self).author()
                && !listed(k, id) implies self.cursor_entry(t, id) == Some(
                (PermissionedV::Read(id), old(self).cursor_entry(t, id).unwrap().1)) by {
                let e = old(self).cursor_entry(t, id).unwrap();
                assert(mid.cursor_entry(t, id) == Some(e));
                assert(seq_entry_of(es, id) == mid.cursor_entry(t, id));
                assert(seq_has_id(es, id));
                let j = choose|j: int| 0 <= j < es.len() && (#[trigger] es[j]).0.identifier() == id;
                crate::cursor_store::lemma_seq_entry_at(es, j);
                assert(mid3.cursor_entry(t, es[j].0.identifier()) == demoted(es[j], true, author@, k));
                assert forall|jj: int| 0 <= jj < k.len() implies (#[trigger] k[jj]).identifier() != id by {}
                assert(!touched(k, k.len() as int, pb, id));
                assert(pre_link.cursor_entry(t, id) == mid3.cursor_entry(t, id));
            }
            assert forall|t2: Seq<char>| t2 != t implies #[trigger] self.store().branch(t2) == old(self).store().branch(t2) by {
                assert(mid3.store().branch(t2) == mid.store().branch(t2));
            }
        }
        Ok(Outcome::Handled)
    }
}

/// Users with the same state agree on every part of it.
proof fn lemma_state_eq<T>(a: &User<T>, b: &User<T>)
    requires
        a.state_eq(b),
        b.wf(),
    ensures
        a.wf(),
        a.store() == b.store(),
        a.snapshots() == b.snapshots(),
        a.topic_set() == b.topic_set(),
        a.subscriber_set() == b.subscriber_set(),
        a.same_membership(b),
        forall|t: Seq<char>, id: IdentifierV| #[trigger] a.cursor_entry(t, id) == b.cursor_entry(t, id),
{
    assert forall|t: Seq<char>| #[trigger] a.topic_set().contains(t) implies a.store().branch(t) is Some by {
        assert(b.topic_set().contains(t));
    }
}

/// Lifts what `insert_cursor` does to a branch's entries to the user's cursor entries.
proof fn lemma_insert_frame<T>(pre: &User<T>, post: &User<T>, t: Seq<char>, perm: PermissionedV, c: usize, r: Option<usize>)
    requires
        pre.store().branch(t) is Some,
        post.store().branch(t) matches Some(b1) && insert_effect(pre.store().branch(t).unwrap().cursors, b1.cursors, perm, c, r),
    ensures
        forall|y: IdentifierV| y != perm.identifier() ==> #[trigger] post.cursor_entry(t, y) == pre.cursor_entry(t, y),
        post.cursor_entry(t, perm.identifier()) == match pre.cursor_entry(t, perm.identifier()) {
            Some(e) => if e.0 == perm { Some((perm, c)) } else { Some((perm, e.1)) },
            None => Some((perm, c)),
        },
        post.cursor_entry(t, perm.identifier()) is Some,
{
    let b0 = pre.store().branch(t).unwrap();
    let b1 = post.store().branch(t).unwrap();
    assert forall|y: IdentifierV| y != perm.identifier() implies #[trigger] post.cursor_entry(t, y) == pre.cursor_entry(t, y) by {
        assert(entry_of(b1.cursors, y) == entry_of(b0.cursors, y));
    }
}

pub open spec fn perm_views(s: Seq<Permissioned>) -> Seq<PermissionedV> {
    s.map_values(|p: Permissioned| p@)
}

/// Whether some permission of `k` belongs to `id`.
pub open spec fn listed(k: Seq<PermissionedV>, id: IdentifierV) -> bool {
    exists|i: int| 0 <= i < k.len() && (#[trigger] k[i]).identifier() == id
}

/// Whether some permission of `subs` belongs to `id`.
pub fn lists(subs: &Vec<Permissioned>, id: &Identifier) -> (r: bool)
    ensures
        r == listed(perm_views(subs@), id@),
{
    let mut i: usize = 0;
    while i < subs.len()
        invariant
            0 <= i <= subs@.len(),
            forall|j: int| 0 <= j < i ==> (#[trigger] perm_views(subs@)[j]).identifier() != id@,
        decreases subs@.len() - i,
    {
        if subs[i].identifier().same(id) {
            assert(perm_views(subs@)[i as int].identifier() == id@);
            return true;
        }
        i = i + 1;
    }
    false
}

/// The entry `e` once a keyload listing `k` has been applied, if `done`: demoted to read
/// access, cursor kept, when it is neither the author nor listed.
pub open spec fn demoted(e: (PermissionedV, usize), done: bool, author: IdentifierV, k: Seq<PermissionedV>) -> Option<(PermissionedV, usize)> {
    if done && e.0.identifier() != author && !listed(k, e.0.identifier()) {
        Some((PermissionedV::Read(e.0.identifier()), e.1))
    } else {
        Some(e)
    }
}

/// What a handled keyload listing `k` leaves on its branch.
pub open spec fn keyload_applied<T>(
    old: &User<T>,
    new: &User<T>,
    address: (Seq<u8>, Seq<u8>),
    header: &Header,
    k: Seq<PermissionedV>,
    snap: Seq<u8>,
) -> bool {
    let t = header.topic@;
    let p = header.publisher@;
    &&& forall|j: int| 0 <= j < k.len() && listed_writer(k, j, p) ==> #[trigger] new.cursor_entry(t, k[j].identifier()) is Some
    &&& ids_distinct(k) ==> forall|j: int| 0 <= j < k.len() && listed_writer(k, j, p) ==> #[trigger] new.cursor_entry(
        t,
        k[j].identifier(),
    ) == Some((k[j], tracked_cursor(old.cursor_entry(t, k[j].identifier()))))
    &&& new.cursor_entry(t, p) matches Some(e) && e.1 == header.sequence
    &&& forall|id: IdentifierV|
        #[trigger] old.cursor_entry(t, id) is Some && id != header.publisher@ && Some(id) != old.author() && !listed(k, id)
            ==> new.cursor_entry(t, id) == Some((PermissionedV::Read(id), old.cursor_entry(t, id).unwrap().1))
    &&& new.snapshots() == old.snapshots().insert(address.1, snap)
    &&& new.store().branch(t) matches Some(b) && b.latest_link == address.1
    &&& forall|t2: Seq<char>| t2 != t ==> #[trigger] new.store().branch(t2) == old.store().branch(t2)
    &&& new.subscriber_set() == old.subscriber_set()
    &&& new.topic_set() == old.topic_set()
    &&& new.same_membership(old)
}

/// Relies on rand::random: 32 bytes drawn from the thread-local generator; nothing is
/// known of their value.
#[verifier::external_body]
fn random_key() -> (r: Vec<u8>)
    ensures
        r@.len() == 32,
{
    rand::random::<[u8; 32]>().to_vec()
}

/// Length in bytes of a keyload's nonce.
pub const NONCE_LEN: usize = 16;

/// A keyload made ready to wrap: the plan of the message, a fresh key and nonce, and the
/// pre-shared keys of the listed ids, as (id, key) pairs.
pub struct KeyloadPlan {
    pub plan: SendPlan,
    pub key: Vec<u8>,
    pub nonce: Vec<u8>,
    pub psks: Vec<(Vec<u8>, Vec<u8>)>,
}

/// What a plan to append to branch `t` after message `link` holds, for a publisher whose
/// entry on `t` is `e`.
pub open spec fn plan_matches<T>(u: &User<T>, plan: &SendPlan, t: Seq<char>, e: (PermissionedV, usize), cursor: usize, link: Seq<u8>) -> bool {
    &&& plan.base@ == u.stream().unwrap().0
    &&& plan.publisher@ == u.identity().unwrap()
    &&& plan.permission@ == e.0
    &&& plan.topic@ == t
    &&& plan.cursor == cursor
    &&& plan.link_to@ == link
    &&& plan.linked_snapshot@ == u.snapshots()[link]
}

/// The latest link of branch `t`.
pub open spec fn latest_of<T>(u: &User<T>, t: Seq<char>) -> Seq<u8> {
    u.store().branch(t).unwrap().latest_link
}

/// The outcome of the checks for a message that a publisher appends to branch `t`: it
/// must be in a stream, have an identity and a write permission on `t`; it links to the
/// branch's latest message, whose sponge state must be stored.
pub open spec fn packet_check<T>(u: &User<T>, t: Seq<char>) -> Result<(), UserError> {
    if u.stream() is None {
        Err(UserError::NotJoined)
    } else if u.identity() is None {
        Err(UserError::NoIdentity)
    } else {
        match u.cursor_entry(t, u.identity().unwrap()) {
            None => Err(UserError::MissingCursor),
            Some(e) => if e.0.is_readonly() {
                Err(UserError::PermissionDenied)
            } else if e.1 == usize::MAX {
                Err(UserError::CursorOverflow)
            } else if !u.snapshots().contains_key(latest_of(u, t)) {
                Err(UserError::MissingPredecessor)
            } else {
                Ok(())
            },
        }
    }
}

impl<T> User<T> {
    /// The plan of a message that the user appends to branch `topic` as a publisher.
    pub fn prepare_packet(&self, topic: &Topic) -> (r: Result<SendPlan, UserError>)
        requires
            self.wf(),
        ensures
            r is Err ==> r == Err::<SendPlan, UserError>(packet_check(self, topic@)->Err_0) && packet_check(self, topic@) is Err,
            r matches Ok(plan) ==> packet_check(self, topic@) is Ok && plan_matches(
                self,
                &plan,
                topic@,
                self.cursor_entry(topic@, self.identity().unwrap()).unwrap(),
                (self.cursor_entry(topic@, self.identity().unwrap()).unwrap().1 + 1) as usize,
                latest_of(self, topic@),
            ),
            packet_check(self, topic@) is Ok ==> r is Ok,
    {
        let base = match &self.state.stream_address {
            Some(a) => copy_range_of(a.base()),
            None => return Err(UserError::NotJoined),
        };
        let id = match &self.state.user_id {
            Some(id) => id,
            None => return Err(UserError::NoIdentity),
        };
        let permission = match self.state.cursor_store.get_permission(topic, id) {
            Some(p) => p,
            None => return Err(UserError::MissingCursor),
        };
        if permission.is_readonly() {
            return Err(UserError::PermissionDenied);
        }
        let link_to = match self.state.cursor_store.get_latest_link(topic) {
            Some(l) => l,
            None => return Err(UserError::MissingLatestLink),
        };
        let cursor = match self.next_cursor(topic) {
            Ok(c) => c,
            Err(e) => return Err(e),
        };
        let linked_snapshot = match self.state.spongos_store.get(link_to.as_bytes()) {
            Some(s) => s,
            None => return Err(UserError::MissingPredecessor),
        };
        Ok(SendPlan { base, publisher: id.clone(), permission, topic: topic.clone(), cursor, link_to, linked_snapshot })
    }
}

fn copy_range_of(b: &[u8]) -> (r: Vec<u8>)
    ensures
        r@ == b@,
{
    crate::address::copy_range(b, 0, b.len())
}

/// What the probe before a send comes to: a message already at the address makes the
/// send a duplicate; no message there lets it go on.
pub fn probe_outcome(p: &Result<Vec<u8>, TransportError>) -> (r: Result<(), UserError>)
    ensures
        p is Ok <==> r == Err::<(), UserError>(UserError::DuplicateAddress),
        p is Err <==> r is Ok,
{
    match p {
        Ok(_) => Err(UserError::DuplicateAddress),
        Err(_) => Ok(()),
    }
}

impl<T: Transport> User<T> {
    /// Fetches the one message stored at `address`. Its header and body are read by the
    /// message codec; `handle_message` then applies them.
    pub fn receive_message(&mut self, address: &Address) -> (r: Result<Vec<u8>, UserError>)
        requires
            old(self).wf(),
        ensures
            final(self).wf(),
            final(self).state_eq(old(self)),
            r is Err ==> r matches Err(UserError::Transport(_)),
    {
        let r = self.transport.recv_message(address);
        proof {
            lemma_state_eq(self, old(self));
        }
        match r {
            Ok(m) => Ok(m),
            Err(e) => Err(UserError::Transport(e)),
        }
    }

    /// Probes the transport for a message at `address`, then sends `bytes` there.
    fn publish(&mut self, address: &Address, bytes: Vec<u8>) -> (r: Result<(), UserError>)
        ensures
            final(self).state_eq(old(self)),
            r is Err ==> r == Err::<(), UserError>(UserError::DuplicateAddress) || r matches Err(UserError::Transport(_)),
    {
        let probe = self.transport.recv_message(address);
        match probe_outcome(&probe) {
            Ok(()) => {},
            Err(e) => return Err(e),
        }
        match self.transport.send_message(address, bytes) {
            Ok(()) => Ok(()),
            Err(e) => Err(UserError::Transport(e)),
        }
    }

    /// Sends a signed packet on `topic`, wrapped from the plan of `prepare_packet`, at
    /// message id `msgid`; then records the user's new cursor, the packet's sponge state,
    /// and the packet as the branch's latest message.
    pub fn send_signed_packet(&mut self, topic: &Topic, msgid: MsgId, message: Wrapped) -> (r: Result<Address, UserError>)
        requires
            old(self).wf(),
        ensures
            final(self).wf(),
            packet_sent(old(self), final(self), topic@, msgid@, message.snapshot@, r),
    {
        self.send_packet(topic, msgid, message)
    }

    /// Sends a tagged packet, as `send_signed_packet` does a signed one.
    pub fn send_tagged_packet(&mut self, topic: &Topic, msgid: MsgId, message: Wrapped) -> (r: Result<Address, UserError>)
        requires
            old(self).wf(),
        ensures
            final(self).wf(),
            packet_sent(old(self), final(self), topic@, msgid@, message.snapshot@, r),
    {
        self.send_packet(topic, msgid, message)
    }

    fn send_packet(&mut self, topic: &Topic, msgid: MsgId, message: Wrapped) -> (r: Result<Address, UserError>)
        requires
            old(self).wf(),
        ensures
            final(self).wf(),
            packet_sent(old(self), final(self), topic@, msgid@, message.snapshot@, r),
    {
        let plan = match self.prepare_packet(topic) {
            Ok(p) => p,
            Err(e) => return Err(e),
        };
        let address = Address::new(plan.base, msgid.clone());
        match self.publish(&address, message.bytes) {
            Ok(()) => {},
            Err(e) => {
                proof {
                    lemma_state_eq(self, old(self));
                }
                return Err(e);
            },
        }
        proof {
            lemma_state_eq(self, old(self));
        }
        let ghost pre = *self;
        let ghost id = self.identity().unwrap();
        let ins = self.state.cursor_store.insert_cursor(topic, plan.permission, plan.cursor);
        proof {
            lemma_tracking_kept_store(&pre, self);
            lemma_insert_frame(&pre, self, topic@, plan.permission@, plan.cursor, ins);
        }
        self.store_spongos(msgid.clone(), message.snapshot, &plan.link_to);
        let ghost pre_link = *self;
        self.state.cursor_store.set_latest_link(topic.clone(), msgid);
        proof {
            lemma_tracking_kept_store(&pre_link, self);
        }
        Ok(address)
    }
}

/// What sending a message on branch `t` at id `msgid` leaves: on success the publisher's
/// cursor has advanced by one, the message's sponge state is stored, and it is the
/// branch's latest message.
pub open spec fn packet_sent<T>(old: &User<T>, new: &User<T>, t: Seq<char>, msgid: Seq<u8>, snap: Seq<u8>, r: Result<Address, UserError>) -> bool {
    &&& packet_check(old, t) is Err ==> r == Err::<Address, UserError>(packet_check(old, t)->Err_0) && new.state_eq(old)
    &&& packet_check(old, t) is Ok && r is Err ==> (r == Err::<Address, UserError>(UserError::DuplicateAddress)
        || r matches Err(UserError::Transport(_))) && new.state_eq(old)
    &&& r matches Ok(a) ==> {
        let id = old.identity().unwrap();
        let e = old.cursor_entry(t, id).unwrap();
        &&& packet_check(old, t) is Ok
        &&& a@ == (old.stream().unwrap().0, msgid)
        &&& new.cursor_entry(t, id) == Some((e.0, (e.1 + 1) as usize))
        &&& new.snapshots() == spongos_after(old.snapshots(), old.is_lean(), old.stream(), msgid, snap, latest_of(old, t))
        &&& new.snapshots().contains_key(msgid) && new.snapshots()[msgid] == snap
        &&& new.store().branch(t) matches Some(b) && b.latest_link == msgid
        &&& new.topic_set() == old.topic_set()
        &&& new.subscriber_set() == old.subscriber_set()
        &&& new.same_membership(old)
    }
}

/// A subscription made ready to wrap: the stream's application address, the subscriber,
/// its sequence number, the base branch, the announcement it links to with its sponge state, the author's
/// key-exchange key, and a fresh key with which the subscriber may later unsubscribe.
pub struct SubscriptionPlan {
    pub base: Vec<u8>,
    pub publisher: Identifier,
    pub sequence: usize,
    pub topic: Topic,
    pub link_to: MsgId,
    pub linked_snapshot: Vec<u8>,
    pub author_ke_pk: Vec<u8>,
    pub unsubscribe_key: Vec<u8>,
}

/// The outcome of the checks for an unsubscription: like a packet on the base branch,
/// but with any permission.
pub open spec fn unsubscribe_check<T>(u: &User<T>) -> Result<(), UserError> {
    if u.stream() is None {
        Err(UserError::NotJoined)
    } else if u.identity() is None {
        Err(UserError::NoIdentity)
    } else {
        match u.cursor_entry(u.base(), u.identity().unwrap()) {
            None => Err(UserError::MissingCursor),
            Some(e) => if e.1 == usize::MAX {
                Err(UserError::CursorOverflow)
            } else if !u.snapshots().contains_key(latest_of(u, u.base())) {
                Err(UserError::MissingPredecessor)
            } else {
                Ok(())
            },
        }
    }
}

impl<T> User<T> {
    /// The plan of a subscription to the stream the user has joined.
    pub fn prepare_subscription(&self) -> (r: Result<SubscriptionPlan, UserError>)
        requires
            self.wf(),
        ensures
            match self.stream() {
                None => r == Err::<SubscriptionPlan, UserError>(UserError::NotJoined),
                Some(a) => if self.identity() is None {
                    r == Err::<SubscriptionPlan, UserError>(UserError::NoIdentity)
                } else if !self.snapshots().contains_key(a.1) {
                    r == Err::<SubscriptionPlan, UserError>(UserError::MissingPredecessor)
                } else if !(self.author().unwrap() is Ed25519 && self.author().unwrap().wf()) {
                    r == Err::<SubscriptionPlan, UserError>(UserError::NoKeyExchangeKey)
                } else {
                    match r {
                        Ok(plan) => {
                            &&& plan.base@ == a.0
                            &&& plan.publisher@ == self.identity().unwrap()
                            &&& plan.sequence == SUB_MESSAGE_NUM
                            &&& plan.topic@ == self.base()
                            &&& plan.link_to@ == a.1
                            &&& plan.linked_snapshot@ == self.snapshots()[a.1]
                            &&& crate::id::x25519_of(self.author().unwrap().bytes()) == Some(plan.author_ke_pk@)
                            &&& plan.unsubscribe_key@.len() == 32
                        },
                        Err(e) => e == UserError::NoKeyExchangeKey && crate::id::x25519_of(self.author().unwrap().bytes()) is None,
                    }
                },
            },
    {
        let stream = match &self.state.stream_address {
            Some(a) => a,
            None => return Err(UserError::NotJoined),
        };
        let id = match &self.state.user_id {
            Some(id) => id,
            None => return Err(UserError::NoIdentity),
        };
        let link_to = stream.relative();
        let linked_snapshot = match self.state.spongos_store.get(link_to.as_bytes()) {
            Some(s) => s,
            None => return Err(UserError::MissingPredecessor),
        };
        let author = match &self.state.author_identifier {
            Some(a) => a,
            None => return Err(UserError::NotJoined),
        };
        if !author.is_ed25519() {
            return Err(UserError::NoKeyExchangeKey);
        }
        let author_ke_pk = match author.public_key() {
            Some(pk) => if pk.len() == crate::id::KEY_LEN {
                match author.ke_pk() {
                    Some(k) => k,
                    None => return Err(UserError::NoKeyExchangeKey),
                }
            } else {
                return Err(UserError::NoKeyExchangeKey);
            },
            None => return Err(UserError::NoKeyExchangeKey),
        };
        Ok(SubscriptionPlan {
            base: copy_range_of(stream.base()),
            publisher: id.clone(),
            sequence: SUB_MESSAGE_NUM,
            topic: self.state.base_branch.clone(),
            link_to,
            linked_snapshot,
            author_ke_pk,
            unsubscribe_key: random_key(),
        })
    }

    /// The plan of an unsubscription: the user's next message on the base branch.
    pub fn prepare_unsubscription(&self) -> (r: Result<SendPlan, UserError>)
        requires
            self.wf(),
        ensures
            r is Err ==> r == Err::<SendPlan, UserError>(unsubscribe_check(self)->Err_0) && unsubscribe_check(self) is Err,
            r matches Ok(plan) ==> unsubscribe_check(self) is Ok && plan_matches(
                self,
                &plan,
                self.base(),
                self.cursor_entry(self.base(), self.identity().unwrap()).unwrap(),
                (self.cursor_entry(self.base(), self.identity().unwrap()).unwrap().1 + 1) as usize,
                latest_of(self, self.base()),
            ),
            unsubscribe_check(self) is Ok ==> r is Ok,
    {
        let base = match &self.state.stream_address {
            Some(a) => copy_range_of(a.base()),
            None => return Err(UserError::NotJoined),
        };
        let id = match &self.state.user_id {
            Some(id) => id,
            None => return Err(UserError::NoIdentity),
        };
        let topic = &self.state.base_branch;
        let permission = match self.state.cursor_store.get_permission(topic, id) {
            Some(p) => p,
            None => return Err(UserError::MissingCursor),
        };
        let link_to = match self.state.cursor_store.get_latest_link(topic) {
            Some(l) => l,
            None => return Err(UserError::MissingLatestLink),
        };
        let cursor = match self.next_cursor(topic) {
            Ok(c) => c,
            Err(e) => return Err(e),
        };
        let linked_snapshot = match self.state.spongos_store.get(link_to.as_bytes()) {
            Some(s) => s,
            None => return Err(UserError::MissingPredecessor),
        };
        Ok(SendPlan { base, publisher: id.clone(), permission, topic: topic.clone(), cursor, link_to, linked_snapshot })
    }
}

impl<T: Transport> User<T> {
    /// Announces a new stream on base branch `topic` at `address`, the author being the
    /// user: the branch is created with the user as its admin at the first cursor, and the
    /// announcement as its latest message.
    pub fn create_stream(&mut self, topic: Topic, address: &Address, message: Wrapped) -> (r: Result<Address, UserError>)
        requires
            old(self).wf(),
        ensures
            final(self).wf(),
            old(self).stream() is Some ==> r == Err::<Address, UserError>(UserError::AlreadyJoined) && final(self).state_eq(old(self)),
            old(self).stream() is None && old(self).identity() is None ==> r == Err::<Address, UserError>(UserError::NoIdentity)
                && final(self).state_eq(old(self)),
            r is Err ==> final(self).state_eq(old(self)),
            old(self).stream() is None && old(self).identity() is Some && r is Err ==> (r == Err::<Address, UserError>(
                UserError::DuplicateAddress) || r matches Err(UserError::Transport(_))),
            r matches Ok(a) ==> {
                let id = old(self).identity().unwrap();
                &&& old(self).stream() is None
                &&& a@ == address@
                &&& final(self).stream() == Some(address@)
                &&& final(self).author() == Some(id)
                &&& final(self).base() == topic@
                &&& final(self).topic_set() == old(self).topic_set().insert(topic@)
                &&& final(self).cursor_entry(topic@, id) == Some((PermissionedV::Admin(id), INIT_MESSAGE_NUM))
                &&& forall|other: IdentifierV| other != id ==> #[trigger] final(self).cursor_entry(topic@, other) is None
                &&& final(self).store().branch(topic@) matches Some(b) && b.latest_link == address@.1
                &&& forall|t: Seq<char>| t != topic@ ==> #[trigger] final(self).store().branch(t) == old(self).store().branch(t)
                &&& final(self).snapshots() == old(self).snapshots().insert(address@.1, message.snapshot@)
                &&& final(self).snapshots()[address@.1] == message.snapshot@
                &&& final(self).subscriber_set() == old(self).subscriber_set()
            },
    {
        if self.state.stream_address.is_some() {
            return Err(UserError::AlreadyJoined);
        }
        let id = match &self.state.user_id {
            Some(id) => id.clone(),
            None => return Err(UserError::NoIdentity),
        };
        match self.publish(address, message.bytes) {
            Ok(()) => {},
            Err(e) => {
                proof {
                    lemma_state_eq(self, old(self));
                }
                return Err(e);
            },
        }
        proof {
            lemma_state_eq(self, old(self));
        }
        let ghost pre = *self;
        self.state.cursor_store.new_branch(topic.clone());
        self.state.topics.insert(topic.clone());
        let ghost s1 = self.state.cursor_store;
        self.state.cursor_store.insert_cursor(&topic, Permissioned::Admin(id.clone()), INIT_MESSAGE_NUM);
        proof {
            let b1 = s1.branch(topic@).unwrap();
            let b2 = self.state.cursor_store.branch(topic@).unwrap();
            assert forall|other: IdentifierV| other != id@ implies #[trigger] entry_of(b2.cursors, other) is None by {
                assert(entry_of(b2.cursors, other) == entry_of(b1.cursors, other));
            }
        }
        let rel = address.relative();
        self.state.spongos_store.insert(rel.to_vec(), message.snapshot);
        self.state.cursor_store.set_latest_link(topic.clone(), rel);
        self.state.author_identifier = Some(id);
        self.state.base_branch = topic;
        self.state.stream_address = Some(address.clone());
        proof {
            assert forall|t: Seq<char>| #[trigger] self.topic_set().contains(t) implies self.store().branch(t) is Some by {
                if t != self.base() {
                    assert(pre.topic_set().contains(t));
                }
            }
        }
        Ok(address.clone())
    }

    /// Sends a subscription wrapped from the plan of `prepare_subscription` at message id
    /// `msgid`. Neither its sponge state nor a cursor is recorded.
    pub fn subscribe(&mut self, msgid: MsgId, message: Wrapped) -> (r: Result<Address, UserError>)
        requires
            old(self).wf(),
        ensures
            final(self).wf(),
            final(self).state_eq(old(self)),
            old(self).stream() is None ==> r == Err::<Address, UserError>(UserError::NotJoined),
            old(self).stream() is Some && old(self).identity() is None ==> r == Err::<Address, UserError>(UserError::NoIdentity),
            old(self).stream() is Some && old(self).identity() is Some && r is Err ==> (r == Err::<Address, UserError>(
                UserError::DuplicateAddress) || r matches Err(UserError::Transport(_))),
            r matches Ok(a) ==> a@ == (old(self).stream().unwrap().0, msgid@),
    {
        let base = match &self.state.stream_address {
            Some(a) => copy_range_of(a.base()),
            None => return Err(UserError::NotJoined),
        };
        if self.state.user_id.is_none() {
            return Err(UserError::NoIdentity);
        }
        let address = Address::new(base, msgid);
        let r = self.publish(&address, message.bytes);
        proof {
            lemma_state_eq(self, old(self));
        }
        match r {
            Ok(()) => Ok(address),
            Err(e) => Err(e),
        }
    }

    /// Sends an unsubscription wrapped from the plan of `prepare_unsubscription` at message
    /// id `msgid`; then the user holds read access on the base branch and its sponge
    /// state is stored.
    pub fn unsubscribe(&mut self, msgid: MsgId, message: Wrapped) -> (r: Result<Address, UserError>)
        requires
            old(self).wf(),
        ensures
            final(self).wf(),
            unsubscribe_check(old(self)) is Err ==> r == Err::<Address, UserError>(unsubscribe_check(old(self))->Err_0)
                && final(self).state_eq(old(self)),
            r is Err ==> final(self).state_eq(old(self)),
            unsubscribe_check(old(self)) is Ok && r is Err ==> (r == Err::<Address, UserError>(UserError::DuplicateAddress)
                || r matches Err(UserError::Transport(_))),
            r matches Ok(a) ==> {
                let id = old(self).identity().unwrap();
                let t = old(self).base();
                let e = old(self).cursor_entry(t, id).unwrap();
                &&& unsubscribe_check(old(self)) is Ok
                &&& a@ == (old(self).stream().unwrap().0, msgid@)
                &&& final(self).cursor_entry(t, id) == Some((PermissionedV::Read(id), (e.1 + 1) as usize))
                &&& forall|other: IdentifierV| other != id ==> #[trigger] final(self).cursor_entry(t, other) == old(self).cursor_entry(t, other)
                &&& final(self).snapshots() == spongos_after(old(self).snapshots(), old(self).is_lean(), old(self).stream(), msgid@,
                    message.snapshot@, latest_of(old(self), t))
                &&& final(self).snapshots()[msgid@] == message.snapshot@
                &&& final(self).topic_set() == old(self).topic_set()
                &&& final(self).same_membership(old(self))
            },
    {
        let plan = match self.prepare_unsubscription() {
            Ok(p) => p,
            Err(e) => return Err(e),
        };
        let address = Address::new(plan.base, msgid.clone());
        match self.publish(&address, message.bytes) {
            Ok(()) => {},
            Err(e) => {
                proof {
                    lemma_state_eq(self, old(self));
                }
                return Err(e);
            },
        }
        proof {
            lemma_state_eq(self, old(self));
        }
        let ghost pre = *self;
        let ghost me = pre.identity().unwrap();
        let ins = self.state.cursor_store.insert_cursor(&plan.topic, Permissioned::Read(plan.publisher.clone()), plan.cursor);
        proof {
            lemma_tracking_kept_store(&pre, self);
            lemma_insert_frame(&pre, self, plan.topic@, PermissionedV::Read(me), plan.cursor, ins);
        }
        // A sender that held another permission was re-bound with its old cursor: move it on.
        let ghost mid = *self;
        let ins2 = self.state.cursor_store.insert_cursor(&plan.topic, Permissioned::Read(plan.publisher), plan.cursor);
        proof {
            lemma_tracking_kept_store(&mid, self);
            lemma_insert_frame(&mid, self, plan.topic@, PermissionedV::Read(me), plan.cursor, ins2);
            assert forall|other: IdentifierV| other != me implies #[trigger] self.cursor_entry(plan.topic@, other) == old(self).cursor_entry(plan.topic@, other) by {
                assert(mid.cursor_entry(plan.topic@, other) == pre.cursor_entry(plan.topic@, other));
            }
        }
        let ghost pre2 = *self;
        self.store_spongos(msgid, message.snapshot, &plan.link_to);
        proof {
            assert(self.store() == pre2.store());
        }
        Ok(address)
    }
}

/// The outcome of the checks for a keyload on branch `t` naming the pre-shared key ids
/// `psk_ids`: the user must be an admin of `t`, and keyloads link their sponge state to
/// the stream announcement, whose state must be stored.
pub open spec fn keyload_check<T>(u: &User<T>, t: Seq<char>, psk_ids: Seq<Seq<u8>>) -> Result<(), UserError> {
    if u.stream() is None {
        Err(UserError::NotJoined)
    } else if u.identity() is None {
        Err(UserError::NoIdentity)
    } else {
        match u.cursor_entry(t, u.identity().unwrap()) {
            None => Err(UserError::MissingCursor),
            Some(e) => if !e.0.is_admin() {
                Err(UserError::PermissionDenied)
            } else if e.1 == usize::MAX {
                Err(UserError::CursorOverflow)
            } else if !u.snapshots().contains_key(u.stream().unwrap().1) {
                Err(UserError::MissingPredecessor)
            } else if exists|i: int| 0 <= i < psk_ids.len() && !u.psks().contains_key(#[trigger] psk_ids[i]) {
                Err(UserError::UnknownPsk)
            } else {
                Ok(())
            },
        }
    }
}

pub open spec fn bytes_views(v: Seq<Vec<u8>>) -> Seq<Seq<u8>> {
    v.map_values(|b: Vec<u8>| b@)
}

impl<T> User<T> {
    /// The plan of a keyload on `topic`, without its fresh key and nonce.
    fn check_keyload(&self, topic: &Topic, psk_ids: &Vec<Vec<u8>>) -> (r: Result<(SendPlan, Vec<(Vec<u8>, Vec<u8>)>), UserError>)
        requires
            self.wf(),
        ensures
            r is Err ==> r == Err::<(SendPlan, Vec<(Vec<u8>, Vec<u8>)>), UserError>(keyload_check(self, topic@, bytes_views(psk_ids@))->Err_0)
                && keyload_check(self, topic@, bytes_views(psk_ids@)) is Err,
            r matches Ok((plan, psks)) ==> keyload_check(self, topic@, bytes_views(psk_ids@)) is Ok && {
                let id = self.identity().unwrap();
                let e = self.cursor_entry(topic@, id).unwrap();
                &&& plan.base@ == self.stream().unwrap().0
                &&& plan.publisher@ == id
                &&& plan.permission@ == e.0
                &&& plan.topic@ == topic@
                &&& plan.cursor == (e.1 + 1) as usize
                &&& plan.link_to@ == latest_of(self, topic@)
                &&& plan.linked_snapshot@ == self.snapshots()[self.stream().unwrap().1]
                &&& psks@.len() == psk_ids@.len()
                &&& forall|i: int| 0 <= i < psks@.len() ==> (#[trigger] psks@[i]).0@ == psk_ids@[i]@
                    && self.psks()[psk_ids@[i]@] == psks@[i].1@
            },
            keyload_check(self, topic@, bytes_views(psk_ids@)) is Ok ==> r is Ok,
    {
        let stream = match &self.state.stream_address {
            Some(a) => a,
            None => return Err(UserError::NotJoined),
        };
        let id = match &self.state.user_id {
            Some(id) => id,
            None => return Err(UserError::NoIdentity),
        };
        let permission = match self.state.cursor_store.get_permission(topic, id) {
            Some(p) => p,
            None => return Err(UserError::MissingCursor),
        };
        if !permission.is_admin() {
            return Err(UserError::PermissionDenied);
        }
        let link_to = match self.state.cursor_store.get_latest_link(topic) {
            Some(l) => l,
            None => return Err(UserError::MissingLatestLink),
        };
        let cursor = match self.next_cursor(topic) {
            Ok(c) => c,
            Err(e) => return Err(e),
        };
        let linked_snapshot = match self.state.spongos_store.get(stream.relative().as_bytes()) {
            Some(s) => s,
            None => return Err(UserError::MissingPredecessor),
        };
        let mut psks: Vec<(Vec<u8>, Vec<u8>)> = Vec::new();
        proof {
            assert(keyload_check(self, topic@, Seq::<Seq<u8>>::empty()) is Ok);
        }
        let mut i: usize = 0;
        while i < psk_ids.len()
            invariant
                self.wf(),
                0 <= i <= psk_ids@.len(),
                psks@.len() == i,
                keyload_check(self, topic@, Seq::<Seq<u8>>::empty()) is Ok,
                forall|j: int| 0 <= j < i ==> (#[trigger] psks@[j]).0@ == psk_ids@[j]@ && self.psks().contains_key(psk_ids@[j]@)
                    && self.psks()[psk_ids@[j]@] == psks@[j].1@,
            decreases psk_ids@.len() - i,
        {
            match self.state.psk_store.get(psk_ids[i].as_slice()) {
                Some(psk) => psks.push((copy_bytes(&psk_ids[i]), psk)),
                None => {
                    proof {
                        assert(bytes_views(psk_ids@)[i as int] == psk_ids@[i as int]@);
                        assert(!self.psks().contains_key(bytes_views(psk_ids@)[i as int]));
                        assert(exists|j: int| 0 <= j < bytes_views(psk_ids@).len() && !self.psks().contains_key(#[trigger] bytes_views(psk_ids@)[j]));
                    }
                    return Err(UserError::UnknownPsk);
                },
            }
            i = i + 1;
        }
        proof {
            assert forall|j: int| 0 <= j < psk_ids@.len() implies self.psks().contains_key(#[trigger] bytes_views(psk_ids@)[j]) by {
                assert(psks@[j].0@ == psk_ids@[j]@);
            }
        }
        Ok((SendPlan { base: copy_range_of(stream.base()), publisher: id.clone(), permission, topic: topic.clone(), cursor, link_to, linked_snapshot }, psks))
    }

    /// The plan of a keyload on `topic` naming the pre-shared key ids `psk_ids`, with a
    /// fresh key and nonce.
    pub fn prepare_keyload(&self, topic: &Topic, psk_ids: &Vec<Vec<u8>>) -> (r: Result<KeyloadPlan, UserError>)
        requires
            self.wf(),
        ensures
            r is Err ==> r == Err::<KeyloadPlan, UserError>(keyload_check(self, topic@, bytes_views(psk_ids@))->Err_0)
                && keyload_check(self, topic@, bytes_views(psk_ids@)) is Err,
            r matches Ok(k) ==> keyload_check(self, topic@, bytes_views(psk_ids@)) is Ok && k.key@.len() == 32
                && k.nonce@.len() == NONCE_LEN && k.plan.cursor == (self.cursor_entry(topic@, self.identity().unwrap()).unwrap().1
                + 1) as usize && k.psks@.len() == psk_ids@.len(),
            keyload_check(self, topic@, bytes_views(psk_ids@)) is Ok ==> r is Ok,
    {
        match self.check_keyload(topic, psk_ids) {
            Ok((plan, psks)) => {
                let key = random_key();
                let nonce = crate::address::copy_range(random_key().as_slice(), 0, NONCE_LEN);
                Ok(KeyloadPlan { plan, key, nonce, psks })
            },
            Err(e) => Err(e),
        }
    }

    /// Recipients of a keyload to every subscriber: the user itself as admin, the others
    /// with read access, or read and write access if `read_write`; and every stored
    /// pre-shared key id.
    pub fn keyload_recipients(&self, topic: &Topic, read_write: bool) -> (r: Result<(Vec<Permissioned>, Vec<Vec<u8>>), UserError>)
        requires
            self.wf(),
        ensures
            self.identity() is None ==> r == Err::<(Vec<Permissioned>, Vec<Vec<u8>>), UserError>(UserError::MissingCursor),
            self.identity() matches Some(me) ==> match self.cursor_entry(topic@, me) {
                None => r == Err::<(Vec<Permissioned>, Vec<Vec<u8>>), UserError>(UserError::MissingCursor),
                Some(e) => if !e.0.is_admin() {
                    r == Err::<(Vec<Permissioned>, Vec<Vec<u8>>), UserError>(UserError::PermissionDenied)
                } else {
                    r is Ok
                },
            },
            r matches Ok((subs, _)) ==> forall|i: int| 0 <= i < subs@.len() ==> #[trigger] subs@[i]@ == recipient(
                subs@[i]@.identifier(),
                self.identity().unwrap(),
                read_write,
            ),
            r matches Ok((subs, _)) ==> forall|x: IdentifierV| self.subscriber_set().contains(x) <==> listed(perm_views(subs@), x),
            r matches Ok((_, psks)) ==> forall|i: int| 0 <= i < psks@.len() ==> self.psks().contains_key(#[trigger] psks@[i]@),
            r matches Ok((_, psks)) ==> forall|k: Seq<u8>| #[trigger] self.psks().contains_key(k) ==> crate::collections::has_bytes(psks@, k),
    {
        let me = match &self.state.user_id {
            Some(id) => id,
            None => return Err(UserError::MissingCursor),
        };
        match self.state.cursor_store.get_permission(topic, me) {
            Some(p) => if !p.is_admin() {
                return Err(UserError::PermissionDenied);
            },
            None => return Err(UserError::MissingCursor),
        }
        let members = self.state.subscribers.to_vec();
        let mut subs: Vec<Permissioned> = Vec::new();
        let mut i: usize = 0;
        while i < members.len()
            invariant
                0 <= i <= members@.len(),
                subs@.len() == i,
                forall|j: int| 0 <= j < i ==> (#[trigger] subs@[j])@ == recipient(members@[j]@, me@, read_write),
            decreases members@.len() - i,
        {
            let s = members[i].clone();
            let p = if s.same(me) {
                Permissioned::Admin(s)
            } else if read_write {
                Permissioned::ReadWrite(s, PermissionDuration::Perpetual)
            } else {
                Permissioned::Read(s)
            };
            subs.push(p);
            i = i + 1;
        }
        proof {
            assert forall|x: IdentifierV| self.subscriber_set().contains(x) <==> listed(perm_views(subs@), x) by {
                if self.subscriber_set().contains(x) {
                    assert(crate::collections::id_seq_set(members@).contains(x));
                    let j = choose|j: int| 0 <= j < members@.len() && (#[trigger] members@[j])@ == x;
                    assert(perm_views(subs@)[j].identifier() == x);
                }
                if listed(perm_views(subs@), x) {
                    let j = choose|j: int| 0 <= j < perm_views(subs@).len() && (#[trigger] perm_views(subs@)[j]).identifier() == x;
                    assert(members@[j]@ == x);
                    assert(crate::collections::id_seq_set(members@).contains(x));
                }
            }
        }
        let psks = self.state.psk_store.keys();
        proof {
            assert forall|k: Seq<u8>| #[trigger] self.psks().contains_key(k) implies crate::collections::has_bytes(psks@, k) by {
                assert(self.state.psk_store@.contains_key(k));
            }
        }
        Ok((subs, psks))
    }
}

/// The permission that a keyload to every subscriber gives `s`, sent by `me`.
pub open spec fn recipient(s: IdentifierV, me: IdentifierV, read_write: bool) -> PermissionedV {
    if s == me {
        PermissionedV::Admin(s)
    } else if read_write {
        PermissionedV::ReadWrite(s, PermissionDuration::Perpetual)
    } else {
        PermissionedV::Read(s)
    }
}

/// What a sent keyload on `t` listing `k` leaves: its sponge state is stored, it is the
/// branch's latest message, every listed writer is tracked, and the sender, if not
/// listed, holds its admin entry at the next cursor.
pub open spec fn keyload_sent<T>(old: &User<T>, new: &User<T>, t: Seq<char>, k: Seq<PermissionedV>, psk_ids: Seq<Seq<u8>>, msgid: Seq<u8>, snap: Seq<u8>, r: Result<Address, UserError>) -> bool {
    &&& keyload_check(old, t, psk_ids) is Err ==> r == Err::<Address, UserError>(keyload_check(old, t, psk_ids)->Err_0) && new.state_eq(old)
    &&& r is Err ==> new.state_eq(old)
    &&& keyload_check(old, t, psk_ids) is Ok && r is Err ==> (r == Err::<Address, UserError>(UserError::DuplicateAddress)
        || r matches Err(UserError::Transport(_)))
    &&& keyload_check(old, t, psk_ids) is Ok && msgid == old.stream().unwrap().1 ==> r == Err::<Address, UserError>(
        UserError::DuplicateAddress,
    ) && new.state_eq(old)
    &&& r matches Ok(a) ==> {
        let me = old.identity().unwrap();
        let e = old.cursor_entry(t, me).unwrap();
        &&& keyload_check(old, t, psk_ids) is Ok
        &&& a@ == (old.stream().unwrap().0, msgid)
        &&& new.snapshots() == spongos_after(old.snapshots(), old.is_lean(), old.stream(), msgid, snap, latest_of(old, t))
        &&& new.snapshots()[msgid] == snap
        &&& msgid != old.stream().unwrap().1
        &&& new.snapshots().contains_key(old.stream().unwrap().1)
        &&& new.snapshots()[old.stream().unwrap().1] == old.snapshots()[old.stream().unwrap().1]
        &&& new.store().branch(t) matches Some(b) && b.latest_link == msgid
        &&& new.cursor_entry(t, me) == Some((e.0, (e.1 + 1) as usize))
        &&& forall|j: int| 0 <= j < k.len() && listed_writer(k, j, me) ==> #[trigger] new.cursor_entry(t, k[j].identifier()) is Some
        &&& ids_distinct(k) ==> forall|j: int| 0 <= j < k.len() && listed_writer(k, j, me) ==> #[trigger] new.cursor_entry(
            t,
            k[j].identifier(),
        ) == Some((k[j], tracked_cursor(old.cursor_entry(t, k[j].identifier()))))
        &&& forall|id: IdentifierV| id != me && !touched(k, k.len() as int, me, id) ==> #[trigger] new.cursor_entry(t, id)
            == old.cursor_entry(t, id)
        &&& forall|t2: Seq<char>| t2 != t ==> #[trigger] new.store().branch(t2) == old.store().branch(t2)
        &&& new.topic_set() == old.topic_set()
        &&& new.subscriber_set() == old.subscriber_set()
        &&& new.same_membership(old)
    }
}

impl<T: Transport> User<T> {
    /// Sends a keyload on `topic` listing `subscribers` and the pre-shared key ids
    /// `psk_ids`, wrapped from the plan of `prepare_keyload`, at message id `msgid`. Then
    /// every listed writer not already holding that permission is tracked from the first
    /// cursor, and the user's own cursor advances.
    pub fn send_keyload(&mut self, topic: &Topic, subscribers: Vec<Permissioned>, psk_ids: Vec<Vec<u8>>, msgid: MsgId, message: Wrapped) -> (r: Result<Address, UserError>)
        requires
            old(self).wf(),
        ensures
            final(self).wf(),
            keyload_sent(old(self), final(self), topic@, perm_views(subscribers@), bytes_views(psk_ids@), msgid@, message.snapshot@, r),
    {
        let (plan, _psks) = match self.check_keyload(topic, &psk_ids) {
            Ok(p) => p,
            Err(e) => return Err(e),
        };
        if self.is_stream_message(&msgid) {
            return Err(UserError::DuplicateAddress);
        }
        let address = Address::new(plan.base, msgid.clone());
        match self.publish(&address, message.bytes) {
            Ok(()) => {},
            Err(e) => {
                proof {
                    lemma_state_eq(self, old(self));
                }
                return Err(e);
            },
        }
        proof {
            lemma_state_eq(self, old(self));
        }
        let ghost k = perm_views(subscribers@);
        let ghost t = topic@;
        let ghost me = self.identity().unwrap();
        let ghost start = *self;
        proof {
            assert(self.store().branch(t) is Some);
        }
        self.track_writers(topic, &subscribers, &plan.publisher);
        let ghost pre = *self;
        let ghost pv = plan.permission@;
        proof {
            assert(!touched(k, k.len() as int, me, me));
            assert(pre.cursor_entry(t, me) == start.cursor_entry(t, me));
        }
        let ins = self.state.cursor_store.insert_cursor(topic, plan.permission, plan.cursor);
        proof {
            lemma_tracking_kept_store(&pre, self);
            lemma_insert_frame(&pre, self, t, pv, plan.cursor, ins);
        }
        let ghost pre_link = *self;
        self.store_spongos(msgid.clone(), message.snapshot, &plan.link_to);
        let ghost pre2 = *self;
        self.state.cursor_store.set_latest_link(topic.clone(), msgid);
        proof {
            lemma_tracking_kept_store(&pre2, self);
            let b0 = pre2.store().branch(t).unwrap();
            let b1 = self.store().branch(t).unwrap();
            assert forall|id: IdentifierV| #[trigger] self.cursor_entry(t, id) == pre2.cursor_entry(t, id) by {
                assert(entry_of(b1.cursors, id) == entry_of(b0.cursors, id));
            }
            assert forall|id: IdentifierV| id != me implies #[trigger] self.cursor_entry(t, id) == pre.cursor_entry(t, id) by {
                assert(pre2.cursor_entry(t, id) == pre_link.cursor_entry(t, id));
            }
            assert(self.cursor_entry(t, me) == pre_link.cursor_entry(t, me));
            assert forall|j: int| 0 <= j < k.len() && listed_writer(k, j, me) implies #[trigger] self.cursor_entry(t, k[j].identifier()) is Some by {
                assert(pre.cursor_entry(t, k[j].identifier()) is Some);
            }
            if ids_distinct(k) {
                assert forall|j: int| 0 <= j < k.len() && listed_writer(k, j, me) implies #[trigger] self.cursor_entry(t, k[j].identifier())
                    == Some((k[j], tracked_cursor(old(self).cursor_entry(t, k[j].identifier())))) by {
                    assert(pre.cursor_entry(t, k[j].identifier()) == Some((k[j], tracked_cursor(start.cursor_entry(t, k[j].identifier())))));
                }
            }
            assert forall|id: IdentifierV| id != me && !touched(k, k.len() as int, me, id) implies #[trigger] self.cursor_entry(t, id)
                == old(self).cursor_entry(t, id) by {
                assert(pre.cursor_entry(t, id) == start.cursor_entry(t, id));
            }
            assert forall|t2: Seq<char>| t2 != t implies #[trigger] self.store().branch(t2) == old(self).store().branch(t2) by {
                assert(pre.store().branch(t2) == start.store().branch(t2));
            }
        }
        Ok(address)
    }

    /// Sends a keyload on `topic` to every subscriber with read access and to every stored
    /// pre-shared key, as `keyload_recipients` lists them.
    pub fn send_keyload_for_all(&mut self, topic: &Topic, msgid: MsgId, message: Wrapped) -> (r: Result<Address, UserError>)
        requires
            old(self).wf(),
        ensures
            final(self).wf(),
            keyload_for_all_sent(old(self), final(self), topic@, false, msgid@, message.snapshot@, r),
    {
        self.send_keyload_to_subscribers(topic, false, msgid, message)
    }

    /// Sends a keyload on `topic` to every subscriber with read and write access and to
    /// every stored pre-shared key; after it every subscriber is tracked on `topic`.
    pub fn send_keyload_for_all_rw(&mut self, topic: &Topic, msgid: MsgId, message: Wrapped) -> (r: Result<Address, UserError>)
        requires
            old(self).wf(),
        ensures
            final(self).wf(),
            keyload_for_all_sent(old(self), final(self), topic@, true, msgid@, message.snapshot@, r),
            r is Ok ==> forall|x: IdentifierV| #[trigger] old(self).subscriber_set().contains(x) ==> final(self).cursor_entry(topic@, x) is Some,
    {
        self.send_keyload_to_subscribers(topic, true, msgid, message)
    }

    fn send_keyload_to_subscribers(&mut self, topic: &Topic, read_write: bool, msgid: MsgId, message: Wrapped) -> (r: Result<Address, UserError>)
        requires
            old(self).wf(),
        ensures
            final(self).wf(),
            keyload_for_all_sent(old(self), final(self), topic@, read_write, msgid@, message.snapshot@, r),
            r is Ok && read_write ==> forall|x: IdentifierV| #[trigger] old(self).subscriber_set().contains(x) ==> final(self).cursor_entry(topic@, x) is Some,
    {
        let (subs, psks) = match self.keyload_recipients(topic, read_write) {
            Ok(p) => p,
            Err(e) => return Err(e),
        };
        let ghost k = perm_views(subs@);
        let ghost pk = bytes_views(psks@);
        let ghost me = old(self).identity().unwrap();
        let ghost members = old(self).subscriber_set();
        proof {
            assert forall|i: int| 0 <= i < pk.len() implies old(self).psks().contains_key(#[trigger] pk[i]) by {
                assert(pk[i] == psks@[i]@);
            }
            assert forall|key: Seq<u8>| #[trigger] old(self).psks().contains_key(key) implies exists|i: int| 0 <= i < pk.len() && pk[i] == key by {
                assert(crate::collections::has_bytes(psks@, key));
                let i = choose|i: int| 0 <= i < psks@.len() && (#[trigger] psks@[i])@ == key;
                assert(pk[i] == key);
            }
            assert(all_psk_ids(old(self), pk));
            assert(recipients_for_all(old(self), me, read_write, k));
        }
        let r = self.send_keyload(topic, subs, psks, msgid, message);
        proof {
            assert(keyload_sent(old(self), self, topic@, k, pk, msgid@, message.snapshot@, r));
            if r is Ok && read_write {
                assert forall|x: IdentifierV| #[trigger] members.contains(x) implies self.cursor_entry(topic@, x) is Some by {
                    assert(listed(k, x));
                    let j = choose|j: int| 0 <= j < k.len() && (#[trigger] k[j]).identifier() == x;
                    if x != me {
                        assert(listed_writer(k, j, me));
                    }
                }
            }
        }
        r
    }

    /// Announces branch `to`, created from branch `from`, at message id `msgid` with a
    /// message wrapped from the plan of `prepare_packet` on `from`. The new branch gets
    /// every permission of `from`, each at the first cursor, and the announcement as its
    /// latest message; the user's cursor on `from` advances.
    pub fn new_branch(&mut self, from: &Topic, to: Topic, msgid: MsgId, message: Wrapped) -> (r: Result<Address, UserError>)
        requires
            old(self).wf(),
        ensures
            final(self).wf(),
            packet_check(old(self), from@) is Err ==> r == Err::<Address, UserError>(packet_check(old(self), from@)->Err_0)
                && final(self).state_eq(old(self)),
            r is Err ==> final(self).state_eq(old(self)),
            packet_check(old(self), from@) is Ok && to@ == from@ ==> r == Err::<Address, UserError>(UserError::SameBranch),
            packet_check(old(self), from@) is Ok && to@ != from@ && r is Err ==> (r == Err::<Address, UserError>(
                UserError::DuplicateAddress) || r matches Err(UserError::Transport(_))),
            r matches Ok(a) ==> {
                let me = old(self).identity().unwrap();
                let e = old(self).cursor_entry(from@, me).unwrap();
                &&& packet_check(old(self), from@) is Ok
                &&& to@ != from@
                &&& a@ == (old(self).stream().unwrap().0, msgid@)
                &&& final(self).topic_set() == old(self).topic_set().insert(to@)
                &&& final(self).snapshots() == old(self).snapshots().insert(msgid@, message.snapshot@)
                &&& final(self).store().branch(to@) matches Some(b) && b.latest_link == msgid@
                &&& forall|id: IdentifierV| id != me ==> #[trigger] final(self).cursor_entry(to@, id)
                    == at_first_cursor(old(self).cursor_entry(from@, id))
                &&& final(self).cursor_entry(to@, me) == Some((e.0, INIT_MESSAGE_NUM))
                &&& final(self).cursor_entry(from@, me) == Some((e.0, (e.1 + 1) as usize))
                &&& forall|id: IdentifierV| id != me ==> #[trigger] final(self).cursor_entry(from@, id)
                    == old(self).cursor_entry(from@, id)
                &&& final(self).subscriber_set() == old(self).subscriber_set()
                &&& final(self).same_membership(old(self))
            },
    {
        let plan = match self.prepare_packet(from) {
            Ok(p) => p,
            Err(e) => return Err(e),
        };
        if to.same(from) {
            return Err(UserError::SameBranch);
        }
        let address = Address::new(plan.base, msgid.clone());
        match self.publish(&address, message.bytes) {
            Ok(()) => {},
            Err(e) => {
                proof {
                    lemma_state_eq(self, old(self));
                }
                return Err(e);
            },
        }
        proof {
            lemma_state_eq(self, old(self));
        }
        let ghost me = self.identity().unwrap();
        let ghost f = from@;
        let ghost start = *self;
        self.state.cursor_store.new_branch(to.clone());
        self.state.topics.insert(to.clone());
        proof {
            assert forall|t: Seq<char>| #[trigger] self.topic_set().contains(t) implies self.store().branch(t) is Some by {
                if t != to@ {
                    assert(start.topic_set().contains(t));
                }
            }
        }
        let ghost pre = *self;
        let ghost pv = plan.permission@;
        let ins = self.state.cursor_store.insert_cursor(from, plan.permission, plan.cursor);
        proof {
            if to@ != f {
                assert(pre.store().branch(f) == start.store().branch(f));
                assert(pre.cursor_entry(f, me) == start.cursor_entry(f, me));
            }
            lemma_tracking_kept_store(&pre, self);
            lemma_insert_frame(&pre, self, f, pv, plan.cursor, ins);
        }
        self.state.spongos_store.insert(msgid.to_vec(), message.snapshot);
        proof {
            lemma_tracking_kept_store(&pre, self);
        }
        let ghost mid = *self;
        if !to.same(from) {
            let prev = match self.state.cursor_store.cursors_by_topic(from) {
                Some(v) => v,
                None => Vec::new(),
            };
            proof {
                crate::cursor_store::lemma_one_entry_per_identifier(&mid.store(), f);
                assert(seq_ids_unique(entries_view(prev@)));
                assert(mid.store().branch(to@) == pre.store().branch(to@));
            }
            self.clone_permissions(&prev, &to);
            proof {
                assert forall|id: IdentifierV| id != me implies #[trigger] self.cursor_entry(to@, id) == at_first_cursor(old(self).cursor_entry(f, id)) by {
                    assert(mid.cursor_entry(f, id) == seq_entry_of(entries_view(prev@), id));
                    assert(mid.cursor_entry(f, id) == pre.cursor_entry(f, id));
                    assert(pre.cursor_entry(f, id) == start.cursor_entry(f, id));
                }
                assert(mid.cursor_entry(f, me) == seq_entry_of(entries_view(prev@), me));
                assert(self.store().branch(f) == mid.store().branch(f));
            }
        }
        let ghost pre_link = *self;
        self.state.cursor_store.set_latest_link(to.clone(), msgid);
        proof {
            lemma_tracking_kept_store(&pre_link, self);
            if to@ != f {
                assert(self.store().branch(f) == pre_link.store().branch(f));
                assert(pre_link.store().branch(f) == mid.store().branch(f));
                assert forall|id: IdentifierV| id != me implies #[trigger] self.cursor_entry(f, id) == old(self).cursor_entry(f, id) by {
                    assert(mid.cursor_entry(f, id) == pre.cursor_entry(f, id));
                    assert(pre.cursor_entry(f, id) == start.cursor_entry(f, id));
                }
                assert(self.cursor_entry(f, me) == mid.cursor_entry(f, me));
            }
            let b0 = pre_link.store().branch(to@).unwrap();
            let b1 = self.store().branch(to@).unwrap();
            assert(b1.cursors == b0.cursors);
            assert forall|id: IdentifierV| #[trigger] self.cursor_entry(to@, id) == pre_link.cursor_entry(to@, id) by {
                assert(entry_of(b1.cursors, id) == entry_of(b0.cursors, id));
            }
        }
        Ok(address)
    }
}

impl<T> User<T> {
    /// Dispatches a received message to the handler of its header's type.
    pub fn handle_message(&mut self, address: &Address, header: &Header, body: Option<(Content, Vec<u8>)>) -> (r: Result<Outcome, UserError>)
        requires
            old(self).wf(),
        ensures
            final(self).wf(),
            header.message_type > TAGGED_PACKET ==> r == Err::<Outcome, UserError>(UserError::UnknownMessageType(header.message_type))
                && final(self).state_eq(old(self)),
            header.message_type == SIGNED_PACKET ==> packet_handled(old(self), final(self), address@, header, signed_snapshot(body), r),
            header.message_type == TAGGED_PACKET ==> packet_handled(old(self), final(self), address@, header, tagged_snapshot(body), r),
            header.message_type == ANNOUNCEMENT ==> announcement_handled(old(self), final(self), address@, header, body, r),
            header.message_type == BRANCH_ANNOUNCEMENT ==> branch_announcement_handled(old(self), final(self), address@, header, body, r),
            header.message_type == SUBSCRIPTION ==> subscription_handled(old(self), final(self), header, body, r),
            header.message_type == UNSUBSCRIPTION ==> unsubscription_handled(old(self), final(self), address@, header, body, r),
            header.message_type == KEYLOAD ==> keyload_handled(old(self), final(self), address@, header, body, r),
    {
        let t = header.message_type;
        if t == ANNOUNCEMENT {
            self.handle_announcement(address, header, body)
        } else if t == BRANCH_ANNOUNCEMENT {
            self.handle_branch_announcement(address, header, body)
        } else if t == SUBSCRIPTION {
            self.handle_subscription(header, body)
        } else if t == UNSUBSCRIPTION {
            self.handle_unsubscription(address, header, body)
        } else if t == KEYLOAD {
            self.handle_keyload(address, header, body)
        } else if t == SIGNED_PACKET {
            self.handle_signed_packet(address, header, body)
        } else if t == TAGGED_PACKET {
            self.handle_tagged_packet(address, header, body)
        } else {
            Err(UserError::UnknownMessageType(t))
        }
    }

    /// The messages to look for next: for each known branch and each identifier that may
    /// write on it, the branch, the identifier and the cursor after its current one.
    pub fn next_candidates(&self) -> (r: Vec<(Topic, Identifier, usize)>)
        requires
            self.wf(),
        ensures
            forall|i: int| 0 <= i < r@.len() ==> #[trigger] is_candidate(self, r@[i].0@, r@[i].1@, r@[i].2),
            forall|t: Seq<char>, id: IdentifierV|
                self.topic_set().contains(t) && #[trigger] pollable(self, t, id)
                    ==> exists|i: int| 0 <= i < r@.len() && r@[i].0@ == t && r@[i].1@ == id,
    {
        let topics = self.state.topics.to_vec();
        let mut r: Vec<(Topic, Identifier, usize)> = Vec::new();
        let mut i: usize = 0;
        while i < topics.len()
            invariant
                self.wf(),
                0 <= i <= topics@.len(),
                crate::collections::topic_seq_set(topics@) == self.topic_set(),
                forall|j: int| 0 <= j < r@.len() ==> #[trigger] is_candidate(self, r@[j].0@, r@[j].1@, r@[j].2),
                forall|j: int, id: IdentifierV|
                    0 <= j < i && #[trigger] pollable(self, topics@[j]@, id)
                        ==> exists|m: int| 0 <= m < r@.len() && r@[m].0@ == topics@[j]@ && r@[m].1@ == id,
            decreases topics@.len() - i,
        {
            let ghost t = topics@[i as int]@;
            proof {
                assert(self.topic_set().contains(t));
            }
            let entries = match self.state.cursor_store.cursors_by_topic(&topics[i]) {
                Some(v) => v,
                None => Vec::new(),
            };
            let ghost r0 = r@;
            let mut j: usize = 0;
            while j < entries.len()
                invariant
                    self.wf(),
                    0 <= j <= entries@.len(),
                    0 <= i < topics@.len(),
                    t == topics@[i as int]@,
                    self.topic_set().contains(t),
                    seq_ids_unique(entries_view(entries@)),
                    forall|x: IdentifierV| #[trigger] seq_entry_of(entries_view(entries@), x) == self.cursor_entry(t, x),
                    r0.len() <= r@.len(),
                    forall|m: int| 0 <= m < r0.len() ==> r@[m] == r0[m],
                    forall|m: int| 0 <= m < r@.len() ==> #[trigger] is_candidate(self, r@[m].0@, r@[m].1@, r@[m].2),
                    forall|m: int|
                        0 <= m < j && !(#[trigger] entries_view(entries@)[m]).0.is_readonly() && entries_view(entries@)[m].1 < usize::MAX
                            ==> exists|n: int| 0 <= n < r@.len() && r@[n].0@ == t && r@[n].1@ == entries_view(entries@)[m].0.identifier(),
                decreases entries@.len() - j,
            {
                let ghost ev = entries_view(entries@);
                proof {
                    crate::cursor_store::lemma_seq_entry_at(ev, j as int);
                    assert(seq_entry_of(ev, ev[j as int].0.identifier()) == self.cursor_entry(t, ev[j as int].0.identifier()));
                }
                let (perm, c) = (&entries[j].0, entries[j].1);
                if !perm.is_readonly() && c < usize::MAX {
                    let ghost before = r@;
                    r.push((topics[i].clone(), perm.identifier().clone(), c + 1));
                    proof {
                        assert(is_candidate(self, r@[before.len() as int].0@, r@[before.len() as int].1@, r@[before.len() as int].2));
                        assert forall|m: int| 0 <= m < r@.len() implies #[trigger] is_candidate(self, r@[m].0@, r@[m].1@, r@[m].2) by {
                            if m < before.len() {
                                assert(r@[m] == before[m]);
                            }
                        }
                        assert forall|m: int|
                            0 <= m < j + 1 && !(#[trigger] ev[m]).0.is_readonly() && ev[m].1 < usize::MAX implies exists|n: int|
                            0 <= n < r@.len() && r@[n].0@ == t && r@[n].1@ == ev[m].0.identifier() by {
                            if m < j {
                                let n = choose|n: int| 0 <= n < before.len() && before[n].0@ == t && before[n].1@ == ev[m].0.identifier();
                                assert(r@[n] == before[n]);
                            } else {
                                assert(r@[before.len() as int].1@ == ev[m].0.identifier());
                            }
                        }
                    }
                }
                j = j + 1;
            }
            proof {
                assert forall|jj: int, id: IdentifierV|
                    0 <= jj < i + 1 && #[trigger] pollable(self, topics@[jj]@, id)
                    implies exists|m: int| 0 <= m < r@.len() && r@[m].0@ == topics@[jj]@ && r@[m].1@ == id by {
                    if jj < i {
                        let m = choose|m: int| 0 <= m < r0.len() && r0[m].0@ == topics@[jj]@ && r0[m].1@ == id;
                        assert(r@[m] == r0[m]);
                    } else {
                        let ev = entries_view(entries@);
                        assert(seq_entry_of(ev, id) == self.cursor_entry(t, id));
                        assert(seq_has_id(ev, id));
                        let m = choose|m: int| 0 <= m < ev.len() && (#[trigger] ev[m]).0.identifier() == id;
                        crate::cursor_store::lemma_seq_entry_at(ev, m);
                    }
                }
            }
            i = i + 1;
        }
        proof {
            assert forall|t: Seq<char>, id: IdentifierV|
                self.topic_set().contains(t) && #[trigger] pollable(self, t, id)
                implies exists|i: int| 0 <= i < r@.len() && r@[i].0@ == t && r@[i].1@ == id by {
                let jj = choose|jj: int| 0 <= jj < topics@.len() && (#[trigger] topics@[jj])@ == t;
                assert(pollable(self, topics@[jj]@, id));
            }
        }
        r
    }
}

/// Across a sync, the messages handled from one publisher on one branch come in strictly
/// increasing sequence: the candidate looked for after handling one follows it.
pub proof fn lemma_sync_sequences_increase<T>(
    u0: &User<T>,
    u1: &User<T>,
    address: (Seq<u8>, Seq<u8>),
    first: &Header,
    snapshot: Option<Seq<u8>>,
    r: Result<Outcome, UserError>,
    next_sequence: usize,
)
    requires
        is_candidate(u0, first.topic@, first.publisher@, first.sequence),
        packet_handled(u0, u1, address, first, snapshot, r),
        r == Ok::<Outcome, UserError>(Outcome::Handled),
        is_candidate(u1, first.topic@, first.publisher@, next_sequence),
    ensures
        next_sequence > first.sequence,
{
    lemma_sync_cursor_increases(u0, u1, address, first, snapshot, r);
}

/// A user never holds two cursor entries for one identifier on one branch.
pub proof fn lemma_user_one_entry_per_identifier<T>(u: &User<T>, t: Seq<char>)
    requires
        u.wf(),
        u.store().branch(t) is Some,
    ensures
        ids_unique(u.store().branch(t).unwrap().cursors),
{
    crate::cursor_store::lemma_one_entry_per_identifier(&u.store(), t);
}

/// Whether `id` may write on branch `t` and its cursor there can still advance.
pub open spec fn pollable<T>(u: &User<T>, t: Seq<char>, id: IdentifierV) -> bool {
    u.cursor_entry(t, id) matches Some(e) && !e.0.is_readonly() && e.1 < usize::MAX
}

/// Whether `(t, id, c)` names the message that follows the cursor of writer `id` on branch `t`.
pub open spec fn is_candidate<T>(u: &User<T>, t: Seq<char>, id: IdentifierV, c: usize) -> bool {
    &&& u.topic_set().contains(t)
    &&& u.cursor_entry(t, id) matches Some(e) && !e.0.is_readonly() && c == e.1 + 1
}

/// Handling the message that follows a publisher's cursor, as a sync looks for it, moves
/// that cursor strictly forward: the cursors of one publisher's handled messages on one
/// branch increase.
pub proof fn lemma_sync_cursor_increases<T>(
    old: &User<T>,
    new: &User<T>,
    address: (Seq<u8>, Seq<u8>),
    header: &Header,
    snapshot: Option<Seq<u8>>,
    r: Result<Outcome, UserError>,
)
    requires
        is_candidate(old, header.topic@, header.publisher@, header.sequence),
        packet_handled(old, new, address, header, snapshot, r),
        r == Ok::<Outcome, UserError>(Outcome::Handled),
    ensures
        new.cursor_entry(header.topic@, header.publisher@) matches Some(e2) && e2.1 > old.cursor_entry(
            header.topic@,
            header.publisher@,
        ).unwrap().1,
        new.cursor_entry(header.topic@, header.publisher@).unwrap().1 == header.sequence,
{
}


/// What handling a subscription does: with the predecessor's sponge state stored and an
/// identity, its subscriber joins the subscriber set; nothing else changes.
pub open spec fn subscription_handled<T>(
    old: &User<T>,
    new: &User<T>,
    header: &Header,
    body: Option<(Content, Vec<u8>)>,
    r: Result<Outcome, UserError>,
) -> bool {
    &&& (match header.linked_msg_address {
        None => r == Err::<Outcome, UserError>(UserError::MissingLinkedAddress) && new.state_eq(old),
        Some(l) => if !old.snapshots().contains_key(l@) {
            r == Ok::<Outcome, UserError>(Outcome::Orphan) && new.state_eq(old)
        } else if old.identity() is None {
            r == Err::<Outcome, UserError>(UserError::NoIdentity) && new.state_eq(old)
        } else {
            match body {
                Some((Content::Subscription { subscriber }, _)) => r == Ok::<Outcome, UserError>(Outcome::Handled)
                    && new.subscriber_set() == old.subscriber_set().insert(subscriber@)
                    && new.store() == old.store() && new.snapshots() == old.snapshots()
                    && new.topic_set() == old.topic_set() && new.same_membership(old),
                _ => r == Err::<Outcome, UserError>(UserError::MalformedBody) && new.state_eq(old),
            }
        },
    })
}

/// What handling an unsubscription does: with the predecessor's sponge state stored, its
/// subscriber leaves the subscriber set and the message's sponge state is stored.
pub open spec fn unsubscription_handled<T>(
    old: &User<T>,
    new: &User<T>,
    address: (Seq<u8>, Seq<u8>),
    header: &Header,
    body: Option<(Content, Vec<u8>)>,
    r: Result<Outcome, UserError>,
) -> bool {
    &&& (match header.linked_msg_address {
        None => r == Err::<Outcome, UserError>(UserError::MissingLinkedAddress) && new.state_eq(old),
        Some(l) => if !old.snapshots().contains_key(l@) {
            r == Ok::<Outcome, UserError>(Outcome::Orphan) && new.state_eq(old)
        } else {
            match body {
                Some((Content::Unsubscription { subscriber }, snap)) => r == Ok::<Outcome, UserError>(
                    Outcome::Handled,
                ) && new.subscriber_set() == old.subscriber_set().remove(subscriber@)
                    && new.snapshots() == spongos_after(old.snapshots(), old.is_lean(),
                    old.stream(), address.1, snap@, l@) && new.store() == old.store()
                    && new.topic_set() == old.topic_set() && new.same_membership(old),
                _ => r == Err::<Outcome, UserError>(UserError::MalformedBody) && new.state_eq(old),
            }
        },
    })
}

/// What handling a stream announcement does: the user joins the announced stream, whose
/// base branch has the announcing author as its admin at the first cursor.
pub open spec fn announcement_handled<T>(
    old: &User<T>,
    new: &User<T>,
    address: (Seq<u8>, Seq<u8>),
    header: &Header,
    body: Option<(Content, Vec<u8>)>,
    r: Result<Outcome, UserError>,
) -> bool {
    &&& (match body {
        Some((Content::Announcement { author_id, topic }, snap)) => {
            &&& r == Ok::<Outcome, UserError>(Outcome::Handled)
            &&& new.stream() == Some(address)
            &&& new.author() == Some(author_id@)
            &&& new.base() == topic@
            &&& new.topic_set() == old.topic_set().insert(topic@)
            &&& new.cursor_entry(topic@, header.publisher@) == Some(
                (PermissionedV::Admin(header.publisher@), INIT_MESSAGE_NUM),
            )
            &&& forall|other: IdentifierV|
                other != header.publisher@ ==> #[trigger] new.cursor_entry(topic@, other) is None
            &&& new.store().branch(topic@) matches Some(b) && b.latest_link == address.1
            &&& forall|t: Seq<char>| t != topic@ ==> #[trigger] new.store().branch(t) == old.store().branch(t)
            &&& new.snapshots() == old.snapshots().insert(address.1, snap@)
            &&& new.subscriber_set() == old.subscriber_set()
            &&& new.identity() == old.identity()
        },
        _ => r == Err::<Outcome, UserError>(UserError::MalformedBody) && new.state_eq(old),
    })
}

/// What handling a branch announcement does, error by error, and what a handled one leaves.
pub open spec fn branch_announcement_handled<T>(
    old: &User<T>,
    new: &User<T>,
    address: (Seq<u8>, Seq<u8>),
    header: &Header,
    body: Option<(Content, Vec<u8>)>,
    r: Result<Outcome, UserError>,
) -> bool {
    &&& (!old.topic_set().contains(header.topic@) ==> r == Err::<Outcome, UserError>(UserError::UnknownTopic)
        && new.state_eq(old))
    &&& (old.topic_set().contains(header.topic@) && old.cursor_entry(header.topic@, header.publisher@)
        is None ==> r == Err::<Outcome, UserError>(UserError::MissingCursor) && new.state_eq(old))
    &&& (old.topic_set().contains(header.topic@) && old.cursor_entry(header.topic@, header.publisher@) is Some ==> match header.linked_msg_address {
        None => r == Err::<Outcome, UserError>(UserError::MissingLinkedAddress) && new.state_eq(old),
        Some(l) => if !old.snapshots().contains_key(l@) {
            r == Ok::<Outcome, UserError>(Outcome::Orphan) && new.state_eq(old)
        } else if body matches Some((Content::BranchAnnouncement { .. }, _)) {
            r == Ok::<Outcome, UserError>(Outcome::Handled) && branch_announced(old, new, address, header, body)
        } else {
            r == Err::<Outcome, UserError>(UserError::MalformedBody) && publisher_tracked(old, new, header)
        },
    })
}

/// What handling a keyload does, error by error, and what a handled one leaves.
pub open spec fn keyload_handled<T>(
    old: &User<T>,
    new: &User<T>,
    address: (Seq<u8>, Seq<u8>),
    header: &Header,
    body: Option<(Content, Vec<u8>)>,
    r: Result<Outcome, UserError>,
) -> bool {
    &&& (old.stream() is None ==> r == Err::<Outcome, UserError>(UserError::NotJoined) && new.state_eq(old))
    &&& (old.stream() is Some ==> if !old.topic_set().contains(header.topic@) {
        r == Err::<Outcome, UserError>(UserError::UnknownTopic) && new.state_eq(old)
    } else {
        match old.cursor_entry(header.topic@, header.publisher@) {
            None => r == Err::<Outcome, UserError>(UserError::MissingCursor) && new.state_eq(old),
            Some(e) => if !e.0.is_admin() {
                r == Err::<Outcome, UserError>(UserError::PermissionDenied) && new.state_eq(old)
            } else if !old.snapshots().contains_key(old.stream().unwrap().1) {
                r == Ok::<Outcome, UserError>(Outcome::Orphan) && new.state_eq(old)
            } else {
                match body {
                    Some((Content::Keyload { subscribers }, snap)) => r == Ok::<Outcome, UserError>(Outcome::Handled)
                        && keyload_applied(old, new, address, header, perm_views(subscribers@), snap@),
                    _ => r == Err::<Outcome, UserError>(UserError::MalformedBody) && publisher_tracked(old, new, header),
                }
            },
        }
    })
}


impl<T> User<T> {
    /// Starts tracking each listed writer of `subs`, but `skip`, that does not already hold
    /// that very permission: from the first cursor if it is new, keeping its cursor if it
    /// held another permission.
    fn track_writers(&mut self, topic: &Topic, subs: &Vec<Permissioned>, skip: &Identifier)
        requires
            old(self).wf(),
            old(self).store().branch(topic@) is Some,
        ensures
            final(self).wf(),
            forall|j: int| 0 <= j < subs@.len() && listed_writer(perm_views(subs@), j, skip@) ==> #[trigger] final(self).cursor_entry(
                topic@,
                perm_views(subs@)[j].identifier(),
            ) is Some,
            ids_distinct(perm_views(subs@)) ==> forall|j: int| 0 <= j < subs@.len() && listed_writer(perm_views(subs@), j, skip@)
                ==> #[trigger] final(self).cursor_entry(topic@, perm_views(subs@)[j].identifier()) == Some(
                (perm_views(subs@)[j], tracked_cursor(old(self).cursor_entry(topic@, perm_views(subs@)[j].identifier()))),
            ),
            forall|id: IdentifierV| !touched(perm_views(subs@), subs@.len() as int, skip@, id) ==> #[trigger] final(self).cursor_entry(topic@, id)
                == old(self).cursor_entry(topic@, id),
            final(self).store().branch(topic@) matches Some(b) && b.latest_link == old(self).store().branch(topic@).unwrap().latest_link,
            forall|t2: Seq<char>| t2 != topic@ ==> #[trigger] final(self).store().branch(t2) == old(self).store().branch(t2),
            final(self).snapshots() == old(self).snapshots(),
            final(self).subscriber_set() == old(self).subscriber_set(),
            final(self).topic_set() == old(self).topic_set(),
            final(self).same_membership(old(self)),
    {
        let ghost k = perm_views(subs@);
        let ghost t = topic@;
        let mut i: usize = 0;
        while i < subs.len()
            invariant
                self.wf(),
                t == topic@,
                0 <= i <= subs@.len(),
                k == perm_views(subs@),
                old(self).store().branch(t) is Some,
                forall|j: int| 0 <= j < i && listed_writer(k, j, skip@) ==> #[trigger] self.cursor_entry(t, k[j].identifier()) is Some,
                ids_distinct(k) ==> forall|j: int| 0 <= j < i && listed_writer(k, j, skip@) ==> #[trigger] self.cursor_entry(t, k[j].identifier())
                    == Some((k[j], tracked_cursor(old(self).cursor_entry(t, k[j].identifier())))),
                forall|id: IdentifierV| !touched(k, i as int, skip@, id) ==> #[trigger] self.cursor_entry(t, id) == old(self).cursor_entry(t, id),
                self.store().branch(t) matches Some(b) && b.latest_link == old(self).store().branch(t).unwrap().latest_link,
                forall|t2: Seq<char>| t2 != t ==> #[trigger] self.store().branch(t2) == old(self).store().branch(t2),
                self.snapshots() == old(self).snapshots(),
                self.subscriber_set() == old(self).subscriber_set(),
                self.topic_set() == old(self).topic_set(),
                self.same_membership(old(self)),
            decreases subs@.len() - i,
        {
            let ghost pre = *self;
            let ghost x = k[i as int].identifier();
            proof {
                assert(k[i as int] == subs@[i as int]@);
                if ids_distinct(k) {
                    assert(!touched(k, i as int, skip@, x));
                }
            }
            if !subs[i].identifier().same(skip) && self.should_store_cursor(topic, &subs[i]) {
                let ins = self.state.cursor_store.insert_cursor(topic, subs[i].clone(), INIT_MESSAGE_NUM);
                proof {
                    lemma_tracking_kept_store(&pre, self);
                    lemma_insert_frame(&pre, self, t, k[i as int], INIT_MESSAGE_NUM, ins);
                    assert forall|t2: Seq<char>| t2 != t implies #[trigger] self.store().branch(t2) == old(self).store().branch(t2) by {
                        assert(pre.store().branch(t2) == old(self).store().branch(t2));
                    }
                }
            }
            proof {
                assert forall|j: int| 0 <= j < i + 1 && listed_writer(k, j, skip@) implies #[trigger] self.cursor_entry(t, k[j].identifier()) is Some by {
                    if j < i && k[j].identifier() != x {
                        assert(pre.cursor_entry(t, k[j].identifier()) is Some);
                    }
                }
                if ids_distinct(k) {
                    assert forall|j: int| 0 <= j < i + 1 && listed_writer(k, j, skip@) implies #[trigger] self.cursor_entry(t, k[j].identifier())
                        == Some((k[j], tracked_cursor(old(self).cursor_entry(t, k[j].identifier())))) by {
                        if j < i {
                            assert(k[j].identifier() != x);
                            assert(pre.cursor_entry(t, k[j].identifier()) == Some((k[j], tracked_cursor(old(self).cursor_entry(t, k[j].identifier())))));
                        } else {
                            assert(pre.cursor_entry(t, x) == old(self).cursor_entry(t, x));
                        }
                    }
                }
                assert forall|id: IdentifierV| !touched(k, i + 1, skip@, id) implies #[trigger] self.cursor_entry(t, id) == old(self).cursor_entry(t, id) by {
                    assert(!touched(k, i as int, skip@, id));
                    if id == x {
                        assert(!listed_writer(k, i as int, skip@));
                    }
                }
            }
            i = i + 1;
        }
    }
}

/// Whether the `j`-th permission of `k` is one that may write and does not belong to `skip`.
pub open spec fn listed_writer(k: Seq<PermissionedV>, j: int, skip: IdentifierV) -> bool {
    !k[j].is_readonly() && k[j].identifier() != skip
}

/// Whether one of the first `n` permissions of `k` is a listed writer that belongs to `id`.
pub open spec fn touched(k: Seq<PermissionedV>, n: int, skip: IdentifierV, id: IdentifierV) -> bool {
    exists|j: int| 0 <= j < n && (#[trigger] k[j]).identifier() == id && listed_writer(k, j, skip)
}

/// No two permissions of `k` belong to the same identifier.
pub open spec fn ids_distinct(k: Seq<PermissionedV>) -> bool {
    forall|i: int, j: int| #![trigger k[i], k[j]] 0 <= i < k.len() && 0 <= j < k.len() && i != j ==> k[i].identifier() != k[j].identifier()
}

/// The cursor a writer keeps when it is given a permission: its old one, or the first.
pub open spec fn tracked_cursor(e: Option<(PermissionedV, usize)>) -> usize {
    match e {
        Some(x) => x.1,
        None => INIT_MESSAGE_NUM,
    }
}


/// What a keyload to every subscriber does: the errors of `keyload_recipients`, or else
/// exactly what `send_keyload` does with the recipients it lists and every stored
/// pre-shared key id.
pub open spec fn keyload_for_all_sent<T>(
    old: &User<T>,
    new: &User<T>,
    t: Seq<char>,
    read_write: bool,
    msgid: Seq<u8>,
    snap: Seq<u8>,
    r: Result<Address, UserError>,
) -> bool {
    match old.identity() {
        None => r == Err::<Address, UserError>(UserError::MissingCursor) && new.state_eq(old),
        Some(me) => match old.cursor_entry(t, me) {
            None => r == Err::<Address, UserError>(UserError::MissingCursor) && new.state_eq(old),
            Some(e) => if !e.0.is_admin() {
                r == Err::<Address, UserError>(UserError::PermissionDenied) && new.state_eq(old)
            } else {
                exists|k: Seq<PermissionedV>, p: Seq<Seq<u8>>|
                    #[trigger] keyload_sent(old, new, t, k, p, msgid, snap, r) && recipients_for_all(old, me, read_write, k)
                        && all_psk_ids(old, p)
            },
        },
    }
}

/// `k` gives each subscriber of `u` the permission that a keyload to all gives it, and
/// lists nobody else.
pub open spec fn recipients_for_all<T>(u: &User<T>, me: IdentifierV, read_write: bool, k: Seq<PermissionedV>) -> bool {
    &&& forall|i: int| 0 <= i < k.len() ==> #[trigger] k[i] == recipient(k[i].identifier(), me, read_write)
    &&& forall|x: IdentifierV| u.subscriber_set().contains(x) <==> listed(k, x)
}

/// `p` names every stored pre-shared key id of `u`, and no other.
pub open spec fn all_psk_ids<T>(u: &User<T>, p: Seq<Seq<u8>>) -> bool {
    &&& forall|i: int| 0 <= i < p.len() ==> u.psks().contains_key(#[trigger] p[i])
    &&& forall|key: Seq<u8>| #[trigger] u.psks().contains_key(key) ==> exists|i: int| 0 <= i < p.len() && p[i] == key
}


/// `s` lists each key of `m` once, with its value, and nothing else.
pub open spec fn lists_map(s: Seq<(Seq<u8>, Seq<u8>)>, m: Map<Seq<u8>, Seq<u8>>) -> bool {
    &&& forall|i: int| 0 <= i < s.len() ==> m.contains_key(#[trigger] s[i].0) && m[s[i].0] == s[i].1
    &&& forall|k: Seq<u8>| #[trigger] m.contains_key(k) ==> exists|i: int| 0 <= i < s.len() && s[i].0 == k
    &&& crate::backup::keys_distinct(s)
}

/// `s` lists each member of `m` once, and nothing else.
pub open spec fn lists_members(s: Seq<IdentifierV>, m: Set<IdentifierV>) -> bool {
    &&& forall|i: int| 0 <= i < s.len() ==> m.contains(#[trigger] s[i])
    &&& forall|x: IdentifierV| #[trigger] m.contains(x) ==> exists|i: int| 0 <= i < s.len() && s[i] == x
    &&& crate::backup::members_distinct(s)
}

/// The store holds branch `r`: its latest link and exactly its entries.
pub open spec fn held_in(st: CursorStore, r: BranchRecord) -> bool {
    st.branch(r.topic) matches Some(br) && br.latest_link == r.latest_link && crate::cursor_store::lists(r.entries, br.cursors)
}

/// The backup `b` describes the state of `u`: every field, each sponge state, pre-shared
/// key and subscriber once, and each known topic's branch once.
pub open spec fn represents<T>(b: BackupV, u: &User<T>) -> bool {
    &&& b.user_id == u.identity()
    &&& b.stream == u.stream()
    &&& b.author == u.author()
    &&& b.base == u.base()
    &&& b.lean == u.is_lean()
    &&& lists_map(b.snapshots, u.snapshots())
    &&& lists_map(b.psks, u.psks())
    &&& lists_members(b.subscribers, u.subscriber_set())
    &&& topics_distinct(b.branches)
    &&& forall|t: Seq<char>| #[trigger] u.topic_set().contains(t) <==> has_branch(b, t)
    &&& forall|i: int| 0 <= i < b.branches.len() ==> #[trigger] held_in(u.store(), b.branches[i])
}

/// The bytes `s` hold the state of `u`.
pub open spec fn restored_from<T>(s: Seq<u8>, u: &User<T>) -> bool {
    parse_state(s) matches Some(b) && represents(b, u)
}

/// What a backup keeps of a user: two users that agree here are the same user for every
/// operation on a known branch.
pub open spec fn same_backed_up<T>(u1: &User<T>, u2: &User<T>) -> bool {
    &&& u1.identity() == u2.identity()
    &&& u1.stream() == u2.stream()
    &&& u1.author() == u2.author()
    &&& u1.base() == u2.base()
    &&& u1.is_lean() == u2.is_lean()
    &&& u1.snapshots() == u2.snapshots()
    &&& u1.psks() == u2.psks()
    &&& u1.subscriber_set() == u2.subscriber_set()
    &&& u1.topic_set() == u2.topic_set()
    &&& forall|t: Seq<char>| #[trigger] u1.topic_set().contains(t) ==> u1.store().branch(t) == u2.store().branch(t)
}

/// A backup of a well-formed user describes a user.
proof fn lemma_backup_consistent<T>(b: BackupV, u: &User<T>)
    requires
        represents(b, u),
        u.wf(),
    ensures
        backup_consistent(b),
{
    assert forall|i: int| 0 <= i < b.branches.len() implies seq_ids_unique(#[trigger] b.branches[i].entries) by {
        assert(held_in(u.store(), b.branches[i]));
        crate::cursor_store::lemma_one_entry_per_identifier(&u.store(), b.branches[i].topic);
        crate::cursor_store::lemma_listing(b.branches[i].entries, u.store().branch(b.branches[i].topic).unwrap().cursors);
    }
    if b.stream is Some {
        assert(u.topic_set().contains(u.base()));
    }
}

/// Two maps listed by the same list are equal.
proof fn lemma_same_map(s: Seq<(Seq<u8>, Seq<u8>)>, m1: Map<Seq<u8>, Seq<u8>>, m2: Map<Seq<u8>, Seq<u8>>)
    requires
        lists_map(s, m1),
        lists_map(s, m2),
    ensures
        m1 == m2,
{
    assert forall|k: Seq<u8>| #[trigger] m1.contains_key(k) == m2.contains_key(k) && (m1.contains_key(k) ==> m1[k] == m2[k]) by {
        if m1.contains_key(k) {
            let i = choose|i: int| 0 <= i < s.len() && s[i].0 == k;
            assert(m2.contains_key(s[i].0));
        }
        if m2.contains_key(k) {
            let i = choose|i: int| 0 <= i < s.len() && s[i].0 == k;
            assert(m1.contains_key(s[i].0));
        }
    }
    assert(m1 =~= m2);
}

/// Two branches listed by the same list hold the same entries.
proof fn lemma_same_entries(s: Seq<(PermissionedV, usize)>, m1: Map<PermissionedV, usize>, m2: Map<PermissionedV, usize>)
    requires
        crate::cursor_store::lists(s, m1),
        crate::cursor_store::lists(s, m2),
    ensures
        m1 == m2,
{
    assert forall|k: PermissionedV| #[trigger] m1.contains_key(k) == m2.contains_key(k) && (m1.contains_key(k) ==> m1[k] == m2[k]) by {
        if m1.contains_key(k) {
            let i = choose|i: int| 0 <= i < s.len() && s[i].0 == k;
            assert(m2.contains_key(s[i].0));
        }
        if m2.contains_key(k) {
            let i = choose|i: int| 0 <= i < s.len() && s[i].0 == k;
            assert(m1.contains_key(s[i].0));
        }
    }
    assert(m1 =~= m2);
}

/// Restoring the bytes that a backup of `u1` wrote gives a user `u2` that is the same as
/// `u1` in everything a backup keeps.
pub proof fn lemma_backup_round_trip<T>(u1: &User<T>, u2: &User<T>, bytes: Seq<u8>)
    requires
        restored_from(bytes, u1),
        restored_from(bytes, u2),
    ensures
        same_backed_up(u1, u2),
{
    let b = parse_state(bytes).unwrap();
    lemma_same_map(b.snapshots, u1.snapshots(), u2.snapshots());
    lemma_same_map(b.psks, u1.psks(), u2.psks());
    assert forall|x: IdentifierV| #[trigger] u1.subscriber_set().contains(x) == u2.subscriber_set().contains(x) by {
        if u1.subscriber_set().contains(x) {
            let i = choose|i: int| 0 <= i < b.subscribers.len() && b.subscribers[i] == x;
            assert(u2.subscriber_set().contains(b.subscribers[i]));
        }
        if u2.subscriber_set().contains(x) {
            let i = choose|i: int| 0 <= i < b.subscribers.len() && b.subscribers[i] == x;
            assert(u1.subscriber_set().contains(b.subscribers[i]));
        }
    }
    assert(u1.subscriber_set() =~= u2.subscriber_set());
    assert forall|t: Seq<char>| #[trigger] u1.topic_set().contains(t) == u2.topic_set().contains(t) by {
        assert(u1.topic_set().contains(t) == has_branch(b, t));
        assert(u2.topic_set().contains(t) == has_branch(b, t));
    }
    assert(u1.topic_set() =~= u2.topic_set());
    assert forall|t: Seq<char>| #[trigger] u1.topic_set().contains(t) implies u1.store().branch(t) == u2.store().branch(t) by {
        assert(has_branch(b, t));
        let i = choose|i: int| 0 <= i < b.branches.len() && (#[trigger] b.branches[i]).topic == t;
        assert(held_in(u1.store(), b.branches[i]));
        assert(held_in(u2.store(), b.branches[i]));
        let b1 = u1.store().branch(t).unwrap();
        let b2 = u2.store().branch(t).unwrap();
        lemma_same_entries(b.branches[i].entries, b1.cursors, b2.cursors);
    }
}

/// A list of the entries of `m`, each once.
fn list_map(m: &ByteMap) -> (r: Vec<(Vec<u8>, Vec<u8>)>)
    ensures
        lists_map(pairs_v(r@), m@),
{
    let keys = m.keys();
    let mut r: Vec<(Vec<u8>, Vec<u8>)> = Vec::new();
    let mut i: usize = 0;
    while i < keys.len()
        invariant
            0 <= i <= keys@.len(),
            r@.len() == i,
            forall|j: int| 0 <= j < keys@.len() ==> m@.contains_key(#[trigger] keys@[j]@),
            forall|j: int, k: int| 0 <= j < keys@.len() && 0 <= k < keys@.len() && j != k ==> #[trigger] keys@[j]@ != #[trigger] keys@[k]@,
            forall|j: int| 0 <= j < i ==> #[trigger] pairs_v(r@)[j] == (keys@[j]@, m@[keys@[j]@]),
        decreases keys@.len() - i,
    {
        let v = match m.get(keys[i].as_slice()) {
            Some(v) => v,
            None => Vec::new(),
        };
        let ghost before = r@;
        let k = copy_bytes(&keys[i]);
        proof {
            assert(m@.contains_key(keys@[i as int]@));
        }
        r.push((k, v));
        proof {
            assert(pairs_v(r@) =~= pairs_v(before).push((keys@[i as int]@, m@[keys@[i as int]@])));
        }
        i = i + 1;
    }
    proof {
        let s = pairs_v(r@);
        assert forall|k: Seq<u8>| #[trigger] m@.contains_key(k) implies exists|j: int| 0 <= j < s.len() && s[j].0 == k by {
            assert(crate::collections::has_bytes(keys@, k));
            let j = choose|j: int| 0 <= j < keys@.len() && (#[trigger] keys@[j])@ == k;
            assert(s[j].0 == k);
        }
        assert forall|j: int, k: int| #![trigger s[j], s[k]] 0 <= j < s.len() && 0 <= k < s.len() && j != k implies s[j].0 != s[k].0 by {
            assert(s[j].0 == keys@[j]@ && s[k].0 == keys@[k]@);
        }
    }
    r
}

/// The map of the entries of `v`; `None` if a key repeats.
fn fill_map(v: &Vec<(Vec<u8>, Vec<u8>)>) -> (r: Option<ByteMap>)
    ensures
        r matches Some(m) ==> lists_map(pairs_v(v@), m@),
        r is None ==> !keys_distinct(pairs_v(v@)),
{
    let ghost s = pairs_v(v@);
    let mut m = ByteMap::new();
    let mut i: usize = 0;
    while i < v.len()
        invariant
            0 <= i <= v@.len(),
            s == pairs_v(v@),
            forall|j: int| 0 <= j < i ==> m@.contains_key(#[trigger] s[j].0) && m@[s[j].0] == s[j].1,
            forall|k: Seq<u8>| #[trigger] m@.contains_key(k) ==> exists|j: int| 0 <= j < i && s[j].0 == k,
            keys_distinct(s.subrange(0, i as int)),
        decreases v@.len() - i,
    {
        let ghost before = m@;
        let fresh = m.insert(copy_bytes(&v[i].0), copy_bytes(&v[i].1));
        if !fresh {
            proof {
                let j = choose|j: int| 0 <= j < i && s[j].0 == s[i as int].0;
                assert(s[j].0 == s[i as int].0);
            }
            return None;
        }
        proof {
            assert forall|j: int| 0 <= j < i + 1 implies m@.contains_key(#[trigger] s[j].0) && m@[s[j].0] == s[j].1 by {
                if j < i {
                    assert(before.contains_key(s[j].0));
                    assert(s[j].0 != s[i as int].0);
                }
            }
            assert forall|k: Seq<u8>| #[trigger] m@.contains_key(k) implies exists|j: int| 0 <= j < i + 1 && s[j].0 == k by {
                if k != s[i as int].0 {
                    assert(before.contains_key(k));
                }
            }
            let p = s.subrange(0, i + 1);
            assert forall|a: int, b: int| #![trigger p[a], p[b]] 0 <= a < p.len() && 0 <= b < p.len() && a != b implies p[a].0 != p[b].0 by {
                if a < i && b < i {
                    assert(s.subrange(0, i as int)[a] == p[a] && s.subrange(0, i as int)[b] == p[b]);
                } else if a < i {
                    assert(before.contains_key(p[a].0));
                } else {
                    assert(before.contains_key(p[b].0));
                }
            }
        }
        i = i + 1;
    }
    assert(s.subrange(0, i as int) =~= s);
    Some(m)
}

/// The set of the members of `v`; `None` if one repeats.
fn fill_ids(v: &Vec<Identifier>) -> (r: Option<IdSet>)
    ensures
        r matches Some(m) ==> lists_members(crate::backup::ids_v(v@), m@),
        r is None ==> !members_distinct(crate::backup::ids_v(v@)),
{
    let ghost s = crate::backup::ids_v(v@);
    let mut m = IdSet::new();
    let mut i: usize = 0;
    while i < v.len()
        invariant
            0 <= i <= v@.len(),
            s == crate::backup::ids_v(v@),
            forall|j: int| 0 <= j < i ==> m@.contains(#[trigger] s[j]),
            forall|x: IdentifierV| #[trigger] m@.contains(x) ==> exists|j: int| 0 <= j < i && s[j] == x,
            members_distinct(s.subrange(0, i as int)),
        decreases v@.len() - i,
    {
        let ghost before = m@;
        let fresh = m.insert(v[i].clone());
        if !fresh {
            proof {
                let j = choose|j: int| 0 <= j < i && s[j] == s[i as int];
                assert(s[j] == s[i as int]);
            }
            return None;
        }
        proof {
            assert forall|x: IdentifierV| #[trigger] m@.contains(x) implies exists|j: int| 0 <= j < i + 1 && s[j] == x by {
                if x != s[i as int] {
                    assert(before.contains(x));
                }
            }
            let p = s.subrange(0, i + 1);
            assert forall|a: int, b: int| #![trigger p[a], p[b]] 0 <= a < p.len() && 0 <= b < p.len() && a != b implies p[a] != p[b] by {
                if a < i && b < i {
                    assert(s.subrange(0, i as int)[a] == p[a] && s.subrange(0, i as int)[b] == p[b]);
                } else if a < i {
                    assert(before.contains(p[a]));
                } else {
                    assert(before.contains(p[b]));
                }
            }
        }
        i = i + 1;
    }
    assert(s.subrange(0, i as int) =~= s);
    Some(m)
}

/// The cursor store and topics of the branches `v`; `None` if a topic, or an identifier
/// within a branch, repeats.
fn fill_branches(v: &Vec<(Topic, Vec<u8>, Vec<(Permissioned, usize)>)>) -> (r: Option<(CursorStore, TopicSet)>)
    ensures
        r matches Some((st, ts)) ==> {
            &&& st.wf()
            &&& topics_distinct(branches_v(v@))
            &&& forall|t: Seq<char>| #[trigger] ts@.contains(t) <==> names_branch(branches_v(v@), t)
            &&& forall|i: int| 0 <= i < v@.len() ==> #[trigger] held_in(st, branches_v(v@)[i])
            &&& forall|t: Seq<char>| #[trigger] st.branch(t) is Some ==> ts@.contains(t)
        },
        r is None ==> !topics_distinct(branches_v(v@)) || exists|i: int| 0 <= i < v@.len() && !seq_ids_unique(
            #[trigger] branches_v(v@)[i].entries,
        ),
{
    let ghost s = branches_v(v@);
    let mut st = CursorStore::new();
    let mut ts = TopicSet::new();
    let mut i: usize = 0;
    while i < v.len()
        invariant
            st.wf(),
            0 <= i <= v@.len(),
            s == branches_v(v@),
            topics_distinct(s.subrange(0, i as int)),
            forall|t: Seq<char>| #[trigger] ts@.contains(t) <==> names_branch(s.subrange(0, i as int), t),
            forall|j: int| 0 <= j < i ==> #[trigger] held_in(st, s[j]),
            forall|t: Seq<char>| #[trigger] st.branch(t) is Some ==> ts@.contains(t),
        decreases v@.len() - i,
    {
        let ghost p = s.subrange(0, i as int);
        let ghost x = s[i as int];
        proof {
            assert(x == branch_v(v@[i as int]));
        }
        let ghost ts_old = ts@;
        let fresh = ts.insert(v[i].0.clone());
        if !fresh {
            proof {
                assert(ts_old.contains(x.topic));
                assert(names_branch(p, x.topic));
                let j = choose|j: int| 0 <= j < p.len() && (#[trigger] p[j]).topic == x.topic;
                assert(s[j] == p[j]);
                assert(s[j].topic == s[i as int].topic);
            }
            return None;
        }
        let b = match InnerCursorStore::from_entries(MsgId::from_vec(copy_bytes(&v[i].1)), &v[i].2) {
            Some(b) => b,
            None => {
                proof {
                    assert(!seq_ids_unique(s[i as int].entries));
                }
                return None;
            },
        };
        let ghost pre = st;
        st.put_branch(v[i].0.clone(), b);
        proof {
            assert(!ts_old.contains(x.topic));
            assert(!names_branch(p, x.topic));
            assert forall|j: int| 0 <= j < i + 1 implies #[trigger] held_in(st, s[j]) by {
                if j < i {
                    assert(p[j] == s[j]);
                    assert(s[j].topic != x.topic);
                    assert(held_in(pre, s[j]));
                }
            }
            let q = s.subrange(0, i + 1);
            assert forall|t: Seq<char>| #[trigger] ts@.contains(t) <==> names_branch(q, t) by {
                assert(ts@.contains(t) == (ts_old.contains(t) || t == x.topic));
                assert(ts_old.contains(t) == names_branch(p, t));
                if names_branch(p, t) {
                    let j = choose|j: int| 0 <= j < p.len() && (#[trigger] p[j]).topic == t;
                    assert(q[j] == p[j]);
                }
                if names_branch(q, t) {
                    let j = choose|j: int| 0 <= j < q.len() && (#[trigger] q[j]).topic == t;
                    if j < i {
                        assert(q[j] == p[j]);
                    }
                }
                if t == x.topic {
                    assert(q[i as int] == x);
                }
            }
            assert forall|a: int, c: int| #![trigger q[a], q[c]] 0 <= a < q.len() && 0 <= c < q.len() && a != c implies q[a].topic != q[c].topic by {
                if a < i && c < i {
                    assert(q[a] == p[a] && q[c] == p[c]);
                } else if a < i {
                    assert(q[a] == p[a]);
                    assert(names_branch(p, q[a].topic));
                } else {
                    assert(q[c] == p[c]);
                    assert(names_branch(p, q[c].topic));
                }
            }
            assert forall|t: Seq<char>| #[trigger] st.branch(t) is Some implies ts@.contains(t) by {
                if t != x.topic {
                    assert(pre.branch(t) is Some);
                }
            }
        }
        i = i + 1;
    }
    assert(s.subrange(0, i as int) =~= s);
    Some((st, ts))
}

impl<T> User<T> {
    /// The user's state as a backup: each known topic's branch, each sponge state,
    /// pre-shared key and subscriber once, in no particular order.
    pub fn to_backup(&self) -> (r: Backup)
        requires
            self.wf(),
        ensures
            represents(r@, self),
    {
        let snapshots = list_map(&self.state.spongos_store);
        let psks = list_map(&self.state.psk_store);
        let subscribers = self.state.subscribers.to_vec();
        let topics = self.state.topics.to_vec();
        let mut branches: Vec<(Topic, Vec<u8>, Vec<(Permissioned, usize)>)> = Vec::new();
        let mut i: usize = 0;
        while i < topics.len()
            invariant
                self.wf(),
                0 <= i <= topics@.len(),
                branches@.len() == i,
                crate::collections::topic_seq_set(topics@) == self.topic_set(),
                forall|j: int| 0 <= j < i ==> (#[trigger] branches_v(branches@)[j]).topic == topics@[j]@,
                forall|j: int| 0 <= j < i ==> #[trigger] held_in(self.store(), branches_v(branches@)[j]),
            decreases topics@.len() - i,
        {
            proof {
                assert(self.topic_set().contains(topics@[i as int]@));
            }
            let link = match self.state.cursor_store.get_latest_link(&topics[i]) {
                Some(l) => l,
                None => MsgId::default(),
            };
            let entries = match self.state.cursor_store.cursors_by_topic(&topics[i]) {
                Some(v) => v,
                None => Vec::new(),
            };
            let ghost before = branches@;
            let t = topics[i].clone();
            let l = link.to_vec();
            let ghost rec = branch_v((t, l, entries));
            proof {
                assert(rec.topic == topics@[i as int]@);
                assert(held_in(self.store(), rec));
            }
            branches.push((t, l, entries));
            proof {
                assert(branches_v(branches@) =~= branches_v(before).push(rec));
                assert forall|j: int| 0 <= j < i + 1 implies (#[trigger] branches_v(branches@)[j]).topic == topics@[j]@
                    && held_in(self.store(), branches_v(branches@)[j]) by {
                    if j < i {
                        assert(branches@[j] == before[j]);
                    }
                }
            }
            i = i + 1;
        }
        let b = Backup {
            user_id: match &self.state.user_id {
                Some(id) => Some(id.clone()),
                None => None,
            },
            stream: self.stream_address(),
            author: self.author_identifier(),
            base: self.state.base_branch.clone(),
            snapshots,
            branches,
            subscribers,
            psks,
            lean: self.state.lean,
        };
        proof {
            let bv = b@;
            assert(bv.user_id == self.identity());
            let ss = ids_v(b.subscribers@);
            assert forall|x: IdentifierV| #[trigger] self.subscriber_set().contains(x) implies exists|j: int| 0 <= j < ss.len() && ss[j] == x by {
                assert(crate::collections::id_seq_set(b.subscribers@).contains(x));
                let j = choose|j: int| 0 <= j < b.subscribers@.len() && (#[trigger] b.subscribers@[j])@ == x;
                assert(ss[j] == x);
            }
            assert forall|j: int| 0 <= j < ss.len() implies self.subscriber_set().contains(#[trigger] ss[j]) by {
                assert(crate::collections::id_seq_set(b.subscribers@).contains(b.subscribers@[j]@));
            }
            assert forall|j: int, k: int| #![trigger ss[j], ss[k]] 0 <= j < ss.len() && 0 <= k < ss.len() && j != k implies ss[j] != ss[k] by {
                assert(ss[j] == b.subscribers@[j]@ && ss[k] == b.subscribers@[k]@);
            }
            let bs = branches_v(b.branches@);
            assert forall|t: Seq<char>| #[trigger] self.topic_set().contains(t) <==> has_branch(bv, t) by {
                if self.topic_set().contains(t) {
                    assert(crate::collections::topic_seq_set(topics@).contains(t));
                    let j = choose|j: int| 0 <= j < topics@.len() && (#[trigger] topics@[j])@ == t;
                    assert(bs[j].topic == t);
                }
                if has_branch(bv, t) {
                    let j = choose|j: int| 0 <= j < bs.len() && (#[trigger] bs[j]).topic == t;
                    assert(crate::collections::topic_seq_set(topics@).contains(topics@[j]@));
                }
            }
            assert forall|j: int, k: int| #![trigger bs[j], bs[k]] 0 <= j < bs.len() && 0 <= k < bs.len() && j != k implies bs[j].topic != bs[k].topic by {
                assert(bs[j].topic == topics@[j]@ && bs[k].topic == topics@[k]@);
            }
        }
        b
    }

    /// The bytes of the user's state, to be sealed. They hold exactly the user's state;
    /// branches of unknown topics are left out.
    pub fn backup_state(&self) -> (r: Vec<u8>)
        requires
            self.wf(),
        ensures
            restored_from(r@, self),
    {
        let b = self.to_backup();
        let r = encode_backup(&b);
        proof {
            lemma_backup_consistent(b@, self);
        }
        r
    }

    /// The user whose state the backup `b` holds, with `transport`; an error if `b` does
    /// not describe a user.
    pub fn from_backup(b: Backup, transport: T) -> (r: Result<User<T>, UserError>)
        ensures
            r matches Ok(u) ==> u.wf() && represents(b@, &u) && u.transport_of() == transport,
            r is Err ==> r == Err::<User<T>, UserError>(UserError::MalformedBackup) && !backup_consistent(b@),
            backup_consistent(b@) ==> r is Ok,
            r is Ok ==> backup_consistent(b@),
    {
        let ghost bv = b@;
        if b.stream.is_some() != b.author.is_some() {
            proof {
                assert((bv.stream is Some) != (bv.author is Some));
            }
            return Err(UserError::MalformedBackup);
        }
        let spongos_store = match fill_map(&b.snapshots) {
            Some(m) => m,
            None => return Err(UserError::MalformedBackup),
        };
        let psk_store = match fill_map(&b.psks) {
            Some(m) => m,
            None => return Err(UserError::MalformedBackup),
        };
        let subscribers = match fill_ids(&b.subscribers) {
            Some(m) => m,
            None => return Err(UserError::MalformedBackup),
        };
        let (cursor_store, topics) = match fill_branches(&b.branches) {
            Some(x) => x,
            None => return Err(UserError::MalformedBackup),
        };
        if b.stream.is_some() && !topics.contains(&b.base) {
            proof {
                assert(!topics@.contains(b.base@));
                assert(!names_branch(branches_v(b.branches@), b.base@));
                assert(!has_branch(bv, bv.base));
                assert(bv.stream is Some);
            }
            return Err(UserError::MalformedBackup);
        }
        let u = User {
            transport,
            state: State {
                user_id: b.user_id,
                stream_address: b.stream,
                author_identifier: b.author,
                cursor_store,
                psk_store,
                subscribers,
                spongos_store,
                base_branch: b.base,
                lean: b.lean,
                topics,
            },
        };
        proof {
            assert(u.identity() == bv.user_id);
            assert(u.stream() == bv.stream);
            assert(u.author() == bv.author);
            assert forall|t: Seq<char>| #[trigger] u.topic_set().contains(t) implies u.store().branch(t) is Some by {
                let j = choose|j: int| 0 <= j < bv.branches.len() && (#[trigger] bv.branches[j]).topic == t;
                assert(held_in(u.store(), bv.branches[j]));
            }
            if u.stream() is Some {
                assert(u.topic_set().contains(u.base()));
            }
            lemma_backup_consistent(bv, &u);
        }
        Ok(u)
    }

    /// The user whose state the bytes `bytes` hold, unsealed, with `transport`.
    pub fn restore_state(bytes: &[u8], transport: T) -> (r: Result<User<T>, UserError>)
        ensures
            r matches Ok(u) ==> u.wf() && u.transport_of() == transport && restored_from(bytes@, &u),
            parse_state(bytes@) is None ==> r == Err::<User<T>, UserError>(UserError::MalformedBackup),
            parse_state(bytes@) is Some ==> r is Ok,
    {
        match decode_backup(bytes) {
            Some(b) => {
                let ghost bv = b@;
                let r = User::from_backup(b, transport);
                proof {
                    if backup_consistent(bv) {
                        assert(parse_state(bytes@) == Some(bv));
                    } else {
                        assert(parse_state(bytes@) is None);
                    }
                }
                r
            },
            None => {
                proof {
                    assert(parse_state(bytes@) is None);
                }
                Err(UserError::MalformedBackup)
            },
        }
    }
}

} // verus!

use vstd::prelude::*;

verus! {

/// Length in bytes of a message identifier.
pub const MSGID_LEN: usize = 12;

/// Compares two byte strings.
pub fn bytes_eq(a: &[u8], b: &[u8]) -> (r: bool)
    ensures
        r == (a@ == b@),
{
    if a.len() != b.len() {
        return false;
    }
    let mut i: usize = 0;
    while i < a.len()
        invariant
            a@.len() == b@.len(),
            0 <= i <= a@.len(),
            forall|j: int| 0 <= j < i ==> a@[j] == b@[j],
        decreases a@.len() - i,
    {
        if a[i] != b[i] {
            return false;
        }
        i = i + 1;
    }
    assert(a@ =~= b@);
    true
}

/// Copies a byte string.
pub fn copy_bytes(a: &Vec<u8>) -> (r: Vec<u8>)
    ensures
        r@ == a@,
{
    let mut r: Vec<u8> = Vec::new();
    let mut i: usize = 0;
    while i < a.len()
        invariant
            0 <= i <= a@.len(),
            r@ == a@.subrange(0, i as int),
        decreases a@.len() - i,
    {
        r.push(a[i]);
        i = i + 1;
        assert(r@ =~= a@.subrange(0, i as int));
    }
    assert(a@.subrange(0, a@.len() as int) =~= a@);
    r
}

/// `n` zero bytes.
pub fn zeros(n: usize) -> (r: Vec<u8>)
    ensures
        r@ == Seq::new(n as nat, |i: int| 0u8),
{
    let mut r: Vec<u8> = Vec::new();
    let mut i: usize = 0;
    while i < n
        invariant
            0 <= i <= n,
            r@ == Seq::new(i as nat, |j: int| 0u8),
        decreases n - i,
    {
        r.push(0u8);
        i = i + 1;
        assert(r@ =~= Seq::new(i as nat, |j: int| 0u8));
    }
    r
}

/// Copies the bytes of `a` from `start` up to `end`.
pub fn copy_range(a: &[u8], start: usize, end: usize) -> (r: Vec<u8>)
    requires
        start <= end <= a@.len(),
    ensures
        r@ == a@.subrange(start as int, end as int),
{
    let mut r: Vec<u8> = Vec::new();
    let mut i: usize = start;
    while i < end
        invariant
            start <= i <= end <= a@.len(),
            r@ == a@.subrange(start as int, i as int),
        decreases end - i,
    {
        r.push(a[i]);
        i = i + 1;
        assert(r@ =~= a@.subrange(start as int, i as int));
    }
    r
}

/// Name of a branch of a stream.
#[derive(Hash, Eq)]
pub struct Topic {
    name: String,
}

impl View for Topic {
    type V = Seq<char>;

    closed spec fn view(&self) -> Seq<char> {
        self.name@
    }
}

impl Topic {
    pub fn new(name: String) -> (r: Topic)
        ensures
            r@ == name@,
    {
        Topic { name }
    }

    pub fn as_str(&self) -> (r: &str)
        ensures
            r@ == self@,
    {
        self.name.as_str()
    }

    pub fn same(&self, other: &Topic) -> (r: bool)
        ensures
            r == (self@ == other@),
    {
        self.name == other.name
    }
}

impl Clone for Topic {
    fn clone(&self) -> (r: Topic)
        ensures
            r@ == self@,
    {
        Topic { name: self.name.clone() }
    }
}

impl PartialEq for Topic {
    fn eq(&self, other: &Topic) -> (r: bool) {
        self.name == other.name
    }
}

impl vstd::std_specs::cmp::PartialEqSpecImpl for Topic {
    open spec fn obeys_eq_spec() -> bool {
        true
    }

    open spec fn eq_spec(&self, other: &Topic) -> bool {
        self@ == other@
    }
}

impl Default for Topic {
    fn default() -> (r: Topic)
        ensures
            r@ == Seq::<char>::empty(),
    {
        Topic { name: String::new() }
    }
}

/// Identifier of a message relative to the stream's application address.
#[derive(Hash, Eq)]
pub struct MsgId {
    bytes: Vec<u8>,
}

impl View for MsgId {
    type V = Seq<u8>;

    closed spec fn view(&self) -> Seq<u8> {
        self.bytes@
    }
}

impl MsgId {
    /// Builds a message identifier from its bytes.
    pub fn from_bytes(bytes: Vec<u8>) -> (r: MsgId)
        requires
            bytes@.len() == MSGID_LEN,
        ensures
            r@ == bytes@,
    {
        MsgId { bytes }
    }

    pub fn as_bytes(&self) -> (r: &[u8])
        ensures
            r@ == self@,
    {
        self.bytes.as_slice()
    }

    /// A copy of the identifier's bytes.
    pub fn to_vec(&self) -> (r: Vec<u8>)
        ensures
            r@ == self@,
    {
        copy_bytes(&self.bytes)
    }

    /// A message identifier read back from a backup, whatever its length.
    pub(crate) fn from_vec(bytes: Vec<u8>) -> (r: MsgId)
        ensures
            r@ == bytes@,
    {
        MsgId { bytes }
    }

    pub fn same(&self, other: &MsgId) -> (r: bool)
        ensures
            r == (self@ == other@),
    {
        bytes_eq(self.bytes.as_slice(), other.bytes.as_slice())
    }
}

impl Clone for MsgId {
    fn clone(&self) -> (r: MsgId)
        ensures
            r@ == self@,
    {
        MsgId { bytes: copy_bytes(&self.bytes) }
    }
}

impl PartialEq for MsgId {
    fn eq(&self, other: &MsgId) -> (r: bool) {
        self.same(other)
    }
}

impl vstd::std_specs::cmp::PartialEqSpecImpl for MsgId {
    open spec fn obeys_eq_spec() -> bool {
        true
    }

    open spec fn eq_spec(&self, other: &MsgId) -> bool {
        self@ == other@
    }
}

impl Default for MsgId {
    /// The all-zero message identifier.
    fn default() -> (r: MsgId)
        ensures
            r@ == Seq::new(MSGID_LEN as nat, |i: int| 0u8),
    {
        MsgId { bytes: zeros(MSGID_LEN) }
    }
}

/// Full address of a message: the stream's application address and the message's identifier.
#[derive(Hash, Eq)]
pub struct Address {
    base: Vec<u8>,
    relative: MsgId,
}

impl View for Address {
    type V = (Seq<u8>, Seq<u8>);

    closed spec fn view(&self) -> (Seq<u8>, Seq<u8>) {
        (self.base@, self.relative@)
    }
}

impl Address {
    pub fn new(base: Vec<u8>, relative: MsgId) -> (r: Address)
        ensures
            r@ == (base@, relative@),
    {
        Address { base, relative }
    }

    /// The application address, shared by every message of a stream.
    pub fn base(&self) -> (r: &[u8])
        ensures
            r@ == self@.0,
    {
        self.base.as_slice()
    }

    /// The message identifier within the stream.
    pub fn relative(&self) -> (r: MsgId)
        ensures
            r@ == self@.1,
    {
        self.relative.clone()
    }

    pub fn same(&self, other: &Address) -> (r: bool)
        ensures
            r == (self@ == other@),
    {
        bytes_eq(self.base.as_slice(), other.base.as_slice()) && self.relative.same(&other.relative)
    }
}

impl Clone for Address {
    fn clone(&self) -> (r: Address)
        ensures
            r@ == self@,
    {
        Address { base: copy_bytes(&self.base), relative: self.relative.clone() }
    }
}

impl PartialEq for Address {
    fn eq(&self, other: &Address) -> (r: bool) {
        self.same(other)
    }
}

impl vstd::std_specs::cmp::PartialEqSpecImpl for Address {
    open spec fn obeys_eq_spec() -> bool {
        true
    }

    open spec fn eq_spec(&self, other: &Address) -> bool {
        self@ == other@
    }
}

} // verus!

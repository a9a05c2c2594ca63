use vstd::prelude::*;

use crate::address::{bytes_eq, copy_bytes, copy_range};
use crypto::keys::x25519;
use crypto::signatures::ed25519;

verus! {

/// Length in bytes of an Ed25519 public key, of a pre-shared key and of its identifier.
pub const KEY_LEN: usize = 32;

/// Wire tag of an Ed25519 identifier.
pub const TAG_ED25519: u8 = 0;

/// Wire tag of a pre-shared key identifier.
pub const TAG_PSKID: u8 = 1;

/// Wire tag of a DID method identifier.
pub const TAG_DID: u8 = 2;

/// Longest DID method identifier that the one-byte length prefix can carry.
pub const MAX_DID_LEN: usize = 255;

/// The public identity of a participant of a stream.
#[derive(Hash, Eq)]
pub enum Identifier {
    Ed25519(Vec<u8>),
    PskId(Vec<u8>),
    Did(Vec<u8>),
}

/// Mathematical value of an [`Identifier`].
pub enum IdentifierV {
    Ed25519(Seq<u8>),
    PskId(Seq<u8>),
    Did(Seq<u8>),
}

impl IdentifierV {
    /// The raw bytes that the identifier carries, without its tag.
    pub open spec fn bytes(self) -> Seq<u8> {
        match self {
            IdentifierV::Ed25519(b) => b,
            IdentifierV::PskId(b) => b,
            IdentifierV::Did(b) => b,
        }
    }

    pub open spec fn tag(self) -> u8 {
        match self {
            IdentifierV::Ed25519(_) => TAG_ED25519,
            IdentifierV::PskId(_) => TAG_PSKID,
            IdentifierV::Did(_) => TAG_DID,
        }
    }

    /// Keys are exactly `KEY_LEN` bytes; a DID method id fits its length prefix.
    pub open spec fn wf(self) -> bool {
        match self {
            IdentifierV::Ed25519(b) => b.len() == KEY_LEN,
            IdentifierV::PskId(b) => b.len() == KEY_LEN,
            IdentifierV::Did(b) => b.len() <= MAX_DID_LEN,
        }
    }

    /// Wire form: one tag byte, a length byte for a DID, then the payload.
    pub open spec fn encoding(self) -> Seq<u8> {
        match self {
            IdentifierV::Ed25519(b) => seq![TAG_ED25519] + b,
            IdentifierV::PskId(b) => seq![TAG_PSKID] + b,
            IdentifierV::Did(b) => seq![TAG_DID, b.len() as u8] + b,
        }
    }
}

/// Reads one identifier from the front of `s`: the identifier and the number of bytes it took.
pub open spec fn parse_identifier(s: Seq<u8>) -> Option<(IdentifierV, nat)> {
    if s.len() == 0 {
        None
    } else if s[0] == TAG_ED25519 {
        if s.len() >= 1 + KEY_LEN {
            Some((IdentifierV::Ed25519(s.subrange(1, 1 + KEY_LEN)), (1 + KEY_LEN) as nat))
        } else {
            None
        }
    } else if s[0] == TAG_PSKID {
        if s.len() >= 1 + KEY_LEN {
            Some((IdentifierV::PskId(s.subrange(1, 1 + KEY_LEN)), (1 + KEY_LEN) as nat))
        } else {
            None
        }
    } else if s[0] == TAG_DID {
        if s.len() >= 2 && s.len() >= 2 + s[1] {
            Some((IdentifierV::Did(s.subrange(2, 2 + s[1])), (2 + s[1]) as nat))
        } else {
            None
        }
    } else {
        None
    }
}

/// Reading back the wire form of a well-formed identifier gives the identifier, whatever follows it.
pub proof fn lemma_identifier_round_trip(v: IdentifierV, rest: Seq<u8>)
    requires
        v.wf(),
    ensures
        parse_identifier(v.encoding() + rest) == Some((v, v.encoding().len())),
{
    let s = v.encoding() + rest;
    match v {
        IdentifierV::Ed25519(b) => {
            assert(s.subrange(1, 1 + KEY_LEN) =~= b);
        },
        IdentifierV::PskId(b) => {
            assert(s.subrange(1, 1 + KEY_LEN) =~= b);
        },
        IdentifierV::Did(b) => {
            assert(s[1] == b.len() as u8);
            assert(s.subrange(2, 2 + s[1]) =~= b);
        },
    }
}

/// Why bytes could not be read as an identifier.
#[derive(Debug, Clone, Copy, PartialEq, Eq, Structural)]
pub enum IdentifierError {
    /// The input ends before the identifier does.
    Truncated,
    /// The tag byte names no kind of identifier.
    UnknownTag(u8),
    /// A key is not `KEY_LEN` bytes long.
    BadKeyLength,
}

/// Lowercase hexadecimal digit of a value below 16.
pub open spec fn hex_digit(d: u8) -> char {
    if d < 10 {
        (('0' as u8) + d) as char
    } else {
        (('a' as u8) + d - 10) as char
    }
}

/// Lowercase hexadecimal text of a byte string, two digits per byte, high digit first.
pub open spec fn hex_of(b: Seq<u8>) -> Seq<char>
    decreases b.len(),
{
    if b.len() == 0 {
        Seq::empty()
    } else {
        seq![hex_digit(b[0] / 16), hex_digit(b[0] % 16)] + hex_of(b.drop_first())
    }
}

/// Relies on hex::encode: lowercase hexadecimal, two digits per byte in order.
#[verifier::external_body]
fn encode_hex(b: &[u8]) -> (r: String)
    ensures
        r@ == hex_of(b@),
{
    hex::encode(b)
}

/// The X25519 public key that an Ed25519 public key converts to, if the bytes are a valid key.
pub uninterp spec fn x25519_of(ed25519_pk: Seq<u8>) -> Option<Seq<u8>>;

/// Relies on ed25519::PublicKey::try_from_bytes and the conversion
/// `x25519::PublicKey::try_from(&ed25519::PublicKey)` of iota-crypto, which both
/// depend on the key bytes alone and give a 32-byte key.
#[verifier::external_body]
fn ed25519_to_x25519(pk: &Vec<u8>) -> (r: Option<Vec<u8>>)
    requires
        pk@.len() == KEY_LEN,
    ensures
        r matches Some(k) ==> x25519_of(pk@) == Some(k@) && k@.len() == KEY_LEN,
        r is None ==> x25519_of(pk@) is None,
{
    let bytes: [u8; 32] = pk.as_slice().try_into().ok()?;
    let ed = ed25519::PublicKey::try_from_bytes(bytes).ok()?;
    let x = x25519::PublicKey::try_from(&ed).ok()?;
    Some(x.to_bytes().to_vec())
}

/// Whether `sig` is a valid Ed25519 signature of `msg` under the public key `pk`.
pub uninterp spec fn ed25519_verifies(pk: Seq<u8>, sig: Seq<u8>, msg: Seq<u8>) -> bool;

/// Relies on ed25519::PublicKey::try_from_bytes and PublicKey::verify of iota-crypto: the
/// outcome depends on the key, signature and message bytes alone.
#[verifier::external_body]
fn ed25519_verify(pk: &Vec<u8>, sig: &Vec<u8>, msg: &Vec<u8>) -> (r: bool)
    requires
        pk@.len() == KEY_LEN,
        sig@.len() == SIGNATURE_LEN,
    ensures
        r == ed25519_verifies(pk@, sig@, msg@),
{
    let pk_bytes: [u8; 32] = pk.as_slice().try_into().unwrap_or([0u8; 32]);
    let sig_bytes: [u8; 64] = sig.as_slice().try_into().unwrap_or([0u8; 64]);
    match ed25519::PublicKey::try_from_bytes(pk_bytes) {
        Ok(key) => key.verify(&ed25519::Signature::from_bytes(sig_bytes), msg.as_slice()),
        Err(_) => false,
    }
}

/// Length in bytes of an Ed25519 signature.
pub const SIGNATURE_LEN: usize = 64;

/// Why a signature was not accepted.
#[derive(Debug, Clone, Copy, PartialEq, Eq, Structural)]
pub enum VerifyError {
    /// The signature's tag names no kind of signature.
    UnknownTag(u8),
    /// The verifier's identifier is not of the kind the tag names.
    WrongIdentifierKind,
    /// The signature does not verify.
    Invalid,
}

/// Checks the signature, tagged with `tag`, that `verifier` made over the squeezed `hash`
/// of a message: tag 0 is an Ed25519 signature, which only an Ed25519 identifier makes.
pub fn verify_signature(tag: u8, verifier: &Identifier, hash: &Vec<u8>, sig: &Vec<u8>) -> (r: Result<(), VerifyError>)
    ensures
        tag != TAG_ED25519 ==> r == Err::<(), VerifyError>(VerifyError::UnknownTag(tag)),
        tag == TAG_ED25519 && !(verifier@ is Ed25519) ==> r == Err::<(), VerifyError>(VerifyError::WrongIdentifierKind),
        tag == TAG_ED25519 && verifier@ is Ed25519 ==> (r is Ok <==> (verifier@.bytes().len() == KEY_LEN
            && sig@.len() == SIGNATURE_LEN && ed25519_verifies(verifier@.bytes(), sig@, hash@))),
        tag == TAG_ED25519 && verifier@ is Ed25519 && r is Err ==> r == Err::<(), VerifyError>(VerifyError::Invalid),
{
    if tag != TAG_ED25519 {
        return Err(VerifyError::UnknownTag(tag));
    }
    match verifier {
        Identifier::Ed25519(pk) => {
            if pk.len() == KEY_LEN && sig.len() == SIGNATURE_LEN && ed25519_verify(pk, sig, hash) {
                Ok(())
            } else {
                Err(VerifyError::Invalid)
            }
        },
        _ => Err(VerifyError::WrongIdentifierKind),
    }
}

impl View for Identifier {
    type V = IdentifierV;

    open spec fn view(&self) -> IdentifierV {
        match self {
            Identifier::Ed25519(b) => IdentifierV::Ed25519(b@),
            Identifier::PskId(b) => IdentifierV::PskId(b@),
            Identifier::Did(b) => IdentifierV::Did(b@),
        }
    }
}

impl Identifier {
    /// An Ed25519 identifier from a public key.
    pub fn from_ed25519(pk: Vec<u8>) -> (r: Identifier)
        requires
            pk@.len() == KEY_LEN,
        ensures
            r@ == IdentifierV::Ed25519(pk@),
            r@.wf(),
    {
        Identifier::Ed25519(pk)
    }

    /// A pre-shared key identifier.
    pub fn from_pskid(id: Vec<u8>) -> (r: Identifier)
        requires
            id@.len() == KEY_LEN,
        ensures
            r@ == IdentifierV::PskId(id@),
            r@.wf(),
    {
        Identifier::PskId(id)
    }

    /// The raw bytes of the identifier, without its tag.
    pub fn as_bytes(&self) -> (r: &[u8])
        ensures
            r@ == self@.bytes(),
    {
        match self {
            Identifier::Ed25519(b) => b.as_slice(),
            Identifier::PskId(b) => b.as_slice(),
            Identifier::Did(b) => b.as_slice(),
        }
    }

    /// An owned copy of the raw bytes of the identifier.
    pub fn to_bytes(&self) -> (r: Vec<u8>)
        ensures
            r@ == self@.bytes(),
    {
        match self {
            Identifier::Ed25519(b) => copy_bytes(b),
            Identifier::PskId(b) => copy_bytes(b),
            Identifier::Did(b) => copy_bytes(b),
        }
    }

    /// The Ed25519 public key, for an Ed25519 identifier.
    pub fn public_key(&self) -> (r: Option<&Vec<u8>>)
        ensures
            r matches Some(k) ==> self@ == IdentifierV::Ed25519(k@),
            r is None ==> !(self@ is Ed25519),
    {
        match self {
            Identifier::Ed25519(b) => Some(b),
            _ => None,
        }
    }

    /// The key-exchange public key of an Ed25519 identifier: its X25519 conversion.
    pub fn ke_pk(&self) -> (r: Option<Vec<u8>>)
        requires
            self@.wf(),
        ensures
            self@ matches IdentifierV::Ed25519(pk) ==> (r matches Some(k) ==> x25519_of(pk) == Some(k@))
                && (r is None ==> x25519_of(pk) is None),
            !(self@ is Ed25519) ==> r is None,
    {
        match self {
            Identifier::Ed25519(pk) => ed25519_to_x25519(pk),
            _ => None,
        }
    }

    pub fn is_ed25519(&self) -> (r: bool)
        ensures
            r == (self@ is Ed25519),
    {
        match self {
            Identifier::Ed25519(_) => true,
            _ => false,
        }
    }

    pub fn is_psk(&self) -> (r: bool)
        ensures
            r == (self@ is PskId),
    {
        match self {
            Identifier::PskId(_) => true,
            _ => false,
        }
    }

    /// Lowercase hexadecimal text of the identifier's raw bytes.
    pub fn to_hex(&self) -> (r: String)
        ensures
            r@ == hex_of(self@.bytes()),
    {
        encode_hex(self.as_bytes())
    }

    pub fn same(&self, other: &Identifier) -> (r: bool)
        ensures
            r == (self@ == other@),
    {
        match (self, other) {
            (Identifier::Ed25519(a), Identifier::Ed25519(b)) => bytes_eq(a.as_slice(), b.as_slice()),
            (Identifier::PskId(a), Identifier::PskId(b)) => bytes_eq(a.as_slice(), b.as_slice()),
            (Identifier::Did(a), Identifier::Did(b)) => bytes_eq(a.as_slice(), b.as_slice()),
            _ => false,
        }
    }

    /// Number of bytes of the wire form.
    pub fn encoded_len(&self) -> (r: usize)
        requires
            self@.wf(),
        ensures
            r == self@.encoding().len(),
    {
        match self {
            Identifier::Did(b) => 2 + b.len(),
            _ => 1 + KEY_LEN,
        }
    }

    /// Appends the wire form of the identifier to `out`.
    pub fn encode_into(&self, out: &mut Vec<u8>)
        requires
            self@.wf(),
        ensures
            final(out)@ == old(out)@ + self@.encoding(),
    {
        let ghost start = out@;
        match self {
            Identifier::Ed25519(b) => {
                out.push(TAG_ED25519);
                append_bytes(out, b);
            },
            Identifier::PskId(b) => {
                out.push(TAG_PSKID);
                append_bytes(out, b);
            },
            Identifier::Did(b) => {
                out.push(TAG_DID);
                out.push(b.len() as u8);
                append_bytes(out, b);
            },
        }
        assert(out@ =~= start + self@.encoding());
    }

    /// The wire form of the identifier.
    pub fn encode(&self) -> (r: Vec<u8>)
        requires
            self@.wf(),
        ensures
            r@ == self@.encoding(),
    {
        let mut out: Vec<u8> = Vec::new();
        self.encode_into(&mut out);
        assert(out@ =~= self@.encoding());
        out
    }

    /// Reads one identifier from the front of `buf`; returns it with the number of bytes read.
    pub fn decode(buf: &[u8]) -> (r: Result<(Identifier, usize), IdentifierError>)
        ensures
            r matches Ok((id, n)) ==> parse_identifier(buf@) == Some((id@, n as nat)) && id@.wf(),
            r is Err ==> parse_identifier(buf@) is None,
            r == Err::<(Identifier, usize), IdentifierError>(IdentifierError::Truncated) <==> (
            buf@.len() == 0 || (buf@[0] <= TAG_DID && parse_identifier(buf@) is None)),
            (buf@.len() > 0 && buf@[0] > TAG_DID) <==> r == Err::<(Identifier, usize), IdentifierError>(
                IdentifierError::UnknownTag(buf@[0])),
    {
        if buf.len() == 0 {
            return Err(IdentifierError::Truncated);
        }
        let tag = buf[0];
        if tag == TAG_ED25519 || tag == TAG_PSKID {
            if buf.len() < 1 + KEY_LEN {
                return Err(IdentifierError::Truncated);
            }
            let b = copy_range(buf, 1, 1 + KEY_LEN);
            if tag == TAG_ED25519 {
                Ok((Identifier::Ed25519(b), 1 + KEY_LEN))
            } else {
                Ok((Identifier::PskId(b), 1 + KEY_LEN))
            }
        } else if tag == TAG_DID {
            if buf.len() < 2 || buf.len() - 2 < buf[1] as usize {
                return Err(IdentifierError::Truncated);
            }
            let n = buf[1] as usize;
            let b = copy_range(buf, 2, 2 + n);
            Ok((Identifier::Did(b), 2 + n))
        } else {
            Err(IdentifierError::UnknownTag(tag))
        }
    }
}

/// How a keyload hands its key to one recipient.
pub enum KeyExchange {
    /// Absorbed with the recipient's pre-shared key.
    Psk(Vec<u8>),
    /// Sent to the recipient's X25519 public key.
    X25519(Vec<u8>),
}

/// The key exchange for `recipient` with its exchange key: the pre-shared key of a
/// pre-shared key id, the X25519 key of any other identifier. Both are `KEY_LEN` bytes.
pub fn key_exchange_for(recipient: &Identifier, exchange_key: &[u8]) -> (r: Result<KeyExchange, IdentifierError>)
    ensures
        exchange_key@.len() != KEY_LEN ==> r matches Err(IdentifierError::BadKeyLength),
        exchange_key@.len() == KEY_LEN && recipient@ is PskId ==> (r matches Ok(KeyExchange::Psk(k)) && k@ == exchange_key@),
        exchange_key@.len() == KEY_LEN && !(recipient@ is PskId) ==> (r matches Ok(KeyExchange::X25519(k)) && k@ == exchange_key@),
{
    if exchange_key.len() != KEY_LEN {
        return Err(IdentifierError::BadKeyLength);
    }
    let k = copy_range(exchange_key, 0, KEY_LEN);
    proof {
        assert(exchange_key@.subrange(0, KEY_LEN as int) =~= exchange_key@);
    }
    if recipient.is_psk() {
        Ok(KeyExchange::Psk(k))
    } else {
        Ok(KeyExchange::X25519(k))
    }
}

/// Appends the bytes of `b` to `out`.
pub fn append_bytes(out: &mut Vec<u8>, b: &Vec<u8>)
    ensures
        final(out)@ == old(out)@ + b@,
{
    let ghost start = out@;
    let mut i: usize = 0;
    while i < b.len()
        invariant
            0 <= i <= b@.len(),
            out@ == start + b@.subrange(0, i as int),
        decreases b@.len() - i,
    {
        out.push(b[i]);
        i = i + 1;
        assert(out@ =~= start + b@.subrange(0, i as int));
    }
    assert(b@.subrange(0, b@.len() as int) =~= b@);
}

impl Clone for Identifier {
    fn clone(&self) -> (r: Identifier)
        ensures
            r@ == self@,
    {
        match self {
            Identifier::Ed25519(b) => Identifier::Ed25519(copy_bytes(b)),
            Identifier::PskId(b) => Identifier::PskId(copy_bytes(b)),
            Identifier::Did(b) => Identifier::Did(copy_bytes(b)),
        }
    }
}

impl PartialEq for Identifier {
    fn eq(&self, other: &Identifier) -> (r: bool) {
        self.same(other)
    }
}

impl vstd::std_specs::cmp::PartialEqSpecImpl for Identifier {
    open spec fn obeys_eq_spec() -> bool {
        true
    }

    open spec fn eq_spec(&self, other: &Identifier) -> bool {
        self@ == other@
    }
}

impl Default for Identifier {
    /// The all-zero Ed25519 identifier.
    fn default() -> (r: Identifier)
        ensures
            r@ == IdentifierV::Ed25519(Seq::new(KEY_LEN as nat, |i: int| 0u8)),
    {
        Identifier::Ed25519(crate::address::zeros(KEY_LEN))
    }
}

/// How long a write permission is meant to last. The engine records it and echoes it,
/// and never revokes a permission on its own.
#[derive(Debug, Clone, Copy, PartialEq, Eq, Hash, Structural)]
pub enum PermissionDuration {
    Perpetual,
    UntilSequence(u64),
}

/// An identifier together with the rights it holds on a branch.
#[derive(Hash, Eq)]
pub enum Permissioned {
    Read(Identifier),
    ReadWrite(Identifier, PermissionDuration),
    Admin(Identifier),
}

/// Mathematical value of a [`Permissioned`].
pub enum PermissionedV {
    Read(IdentifierV),
    ReadWrite(IdentifierV, PermissionDuration),
    Admin(IdentifierV),
}

impl PermissionedV {
    pub open spec fn identifier(self) -> IdentifierV {
        match self {
            PermissionedV::Read(id) => id,
            PermissionedV::ReadWrite(id, _) => id,
            PermissionedV::Admin(id) => id,
        }
    }

    pub open spec fn is_readonly(self) -> bool {
        self is Read
    }

    pub open spec fn is_admin(self) -> bool {
        self is Admin
    }
}

impl View for Permissioned {
    type V = PermissionedV;

    open spec fn view(&self) -> PermissionedV {
        match self {
            Permissioned::Read(id) => PermissionedV::Read(id@),
            Permissioned::ReadWrite(id, d) => PermissionedV::ReadWrite(id@, *d),
            Permissioned::Admin(id) => PermissionedV::Admin(id@),
        }
    }
}

impl Permissioned {
    /// The identifier that holds the permission.
    pub fn identifier(&self) -> (r: &Identifier)
        ensures
            r@ == self@.identifier(),
    {
        match self {
            Permissioned::Read(id) => id,
            Permissioned::ReadWrite(id, _) => id,
            Permissioned::Admin(id) => id,
        }
    }

    pub fn is_readonly(&self) -> (r: bool)
        ensures
            r == self@.is_readonly(),
    {
        match self {
            Permissioned::Read(_) => true,
            _ => false,
        }
    }

    pub fn is_admin(&self) -> (r: bool)
        ensures
            r == self@.is_admin(),
    {
        match self {
            Permissioned::Admin(_) => true,
            _ => false,
        }
    }

    /// Equality of tag, identifier and duration.
    pub fn same(&self, other: &Permissioned) -> (r: bool)
        ensures
            r == (self@ == other@),
    {
        match (self, other) {
            (Permissioned::Read(a), Permissioned::Read(b)) => a.same(b),
            (Permissioned::ReadWrite(a, da), Permissioned::ReadWrite(b, db)) => *da == *db && a.same(b),
            (Permissioned::Admin(a), Permissioned::Admin(b)) => a.same(b),
            _ => false,
        }
    }
}

impl Clone for Permissioned {
    fn clone(&self) -> (r: Permissioned)
        ensures
            r@ == self@,
    {
        match self {
            Permissioned::Read(id) => Permissioned::Read(id.clone()),
            Permissioned::ReadWrite(id, d) => Permissioned::ReadWrite(id.clone(), *d),
            Permissioned::Admin(id) => Permissioned::Admin(id.clone()),
        }
    }
}

impl PartialEq for Permissioned {
    fn eq(&self, other: &Permissioned) -> (r: bool) {
        self.same(other)
    }
}

impl vstd::std_specs::cmp::PartialEqSpecImpl for Permissioned {
    open spec fn obeys_eq_spec() -> bool {
        true
    }

    open spec fn eq_spec(&self, other: &Permissioned) -> bool {
        self@ == other@
    }
}

} // verus!

use vstd::prelude::*;
use vstd::bytes::{spec_u64_from_le_bytes, spec_u64_to_le_bytes, u64_from_le_bytes, u64_to_le_bytes};
use vstd::utf8::*;

use crate::address::{copy_range, Address, MsgId, Topic};
use crate::cursor_store::{entries_view, seq_ids_unique};
use crate::id::{Identifier, IdentifierV, PermissionDuration, Permissioned, PermissionedV, TAG_DID, TAG_ED25519, TAG_PSKID};

verus! {

/// What a backup holds, as plain values, in the order it is written: the user's identity,
/// the stream's address and author, the base branch, the sponge states by message id, the
/// branches (topic, latest link, and the cursor of each permission), the subscribers, the
/// pre-shared keys by id, and the lean flag.
pub struct BackupV {
    pub user_id: Option<IdentifierV>,
    pub stream: Option<(Seq<u8>, Seq<u8>)>,
    pub author: Option<IdentifierV>,
    pub base: Seq<char>,
    pub snapshots: Seq<(Seq<u8>, Seq<u8>)>,
    pub branches: Seq<BranchRecord>,
    pub subscribers: Seq<IdentifierV>,
    pub psks: Seq<(Seq<u8>, Seq<u8>)>,
    pub lean: bool,
}

/// One branch of a backup: its topic, its latest link and its entries.
pub struct BranchRecord {
    pub topic: Seq<char>,
    pub latest_link: Seq<u8>,
    pub entries: Seq<(PermissionedV, usize)>,
}

/// Eight bytes, least significant first.
pub open spec fn enc_u64(x: u64) -> Seq<u8> {
    spec_u64_to_le_bytes(x)
}

pub open spec fn parse_u64(s: Seq<u8>) -> Option<(u64, Seq<u8>)> {
    if s.len() >= 8 {
        Some((spec_u64_from_le_bytes(s.subrange(0, 8)), s.subrange(8, s.len() as int)))
    } else {
        None
    }
}

pub proof fn lemma_u64(x: u64, rest: Seq<u8>)
    ensures
        parse_u64(enc_u64(x) + rest) == Some((x, rest)),
        enc_u64(x).len() == 8,
{
    vstd::bytes::lemma_auto_spec_u64_to_from_le_bytes();
    let s = enc_u64(x) + rest;
    assert(s.subrange(0, 8) =~= enc_u64(x));
    assert(s.subrange(8, s.len() as int) =~= rest);
}

/// A byte string: its length, then its bytes.
pub open spec fn enc_chunk(b: Seq<u8>) -> Seq<u8> {
    enc_u64(b.len() as u64) + b
}

pub open spec fn parse_chunk(s: Seq<u8>) -> Option<(Seq<u8>, Seq<u8>)> {
    match parse_u64(s) {
        Some((n, r)) => if n <= r.len() {
            Some((r.subrange(0, n as int), r.subrange(n as int, r.len() as int)))
        } else {
            None
        },
        None => None,
    }
}

pub proof fn lemma_chunk(b: Seq<u8>, rest: Seq<u8>)
    requires
        b.len() <= u64::MAX,
    ensures
        parse_chunk(enc_chunk(b) + rest) == Some((b, rest)),
{
    lemma_u64(b.len() as u64, b + rest);
    assert(enc_chunk(b) + rest =~= enc_u64(b.len() as u64) + (b + rest));
    assert((b + rest).subrange(0, b.len() as int) =~= b);
    assert((b + rest).subrange(b.len() as int, (b + rest).len() as int) =~= rest);
}

pub open spec fn parse_byte(s: Seq<u8>) -> Option<(u8, Seq<u8>)> {
    if s.len() >= 1 {
        Some((s[0], s.drop_first()))
    } else {
        None
    }
}

pub proof fn lemma_byte(b: u8, rest: Seq<u8>)
    ensures
        parse_byte(seq![b] + rest) == Some((b, rest)),
{
    assert((seq![b] + rest).drop_first() =~= rest);
}

/// An identifier: its tag, then its raw bytes as a byte string.
pub open spec fn enc_idb(v: IdentifierV) -> Seq<u8> {
    seq![v.tag()] + enc_chunk(v.bytes())
}

pub open spec fn parse_idb(s: Seq<u8>) -> Option<(IdentifierV, Seq<u8>)> {
    match parse_byte(s) {
        Some((t, r)) => match parse_chunk(r) {
            Some((b, r2)) => if t == 0 {
                Some((IdentifierV::Ed25519(b), r2))
            } else if t == 1 {
                Some((IdentifierV::PskId(b), r2))
            } else if t == 2 {
                Some((IdentifierV::Did(b), r2))
            } else {
                None
            },
            None => None,
        },
        None => None,
    }
}

pub open spec fn fits_idb(v: IdentifierV) -> bool {
    v.bytes().len() <= u64::MAX
}

pub proof fn lemma_idb(v: IdentifierV, rest: Seq<u8>)
    requires
        fits_idb(v),
    ensures
        parse_idb(enc_idb(v) + rest) == Some((v, rest)),
{
    lemma_chunk(v.bytes(), rest);
    assert(enc_idb(v) + rest =~= seq![v.tag()] + (enc_chunk(v.bytes()) + rest));
    lemma_byte(v.tag(), enc_chunk(v.bytes()) + rest);
}

pub open spec fn enc_opt_id(o: Option<IdentifierV>) -> Seq<u8> {
    match o {
        None => seq![0u8],
        Some(v) => seq![1u8] + enc_idb(v),
    }
}

pub open spec fn parse_opt_id(s: Seq<u8>) -> Option<(Option<IdentifierV>, Seq<u8>)> {
    match parse_byte(s) {
        Some((f, r)) => if f == 0 {
            Some((None, r))
        } else if f == 1 {
            match parse_idb(r) {
                Some((v, r2)) => Some((Some(v), r2)),
                None => None,
            }
        } else {
            None
        },
        None => None,
    }
}

pub proof fn lemma_opt_id(o: Option<IdentifierV>, rest: Seq<u8>)
    requires
        o matches Some(v) ==> fits_idb(v),
    ensures
        parse_opt_id(enc_opt_id(o) + rest) == Some((o, rest)),
{
    match o {
        None => lemma_byte(0u8, rest),
        Some(v) => {
            lemma_idb(v, rest);
            assert(enc_opt_id(o) + rest =~= seq![1u8] + (enc_idb(v) + rest));
            lemma_byte(1u8, enc_idb(v) + rest);
        },
    }
}

pub open spec fn enc_opt_addr(o: Option<(Seq<u8>, Seq<u8>)>) -> Seq<u8> {
    match o {
        None => seq![0u8],
        Some(a) => seq![1u8] + enc_chunk(a.0) + enc_chunk(a.1),
    }
}

pub open spec fn parse_opt_addr(s: Seq<u8>) -> Option<(Option<(Seq<u8>, Seq<u8>)>, Seq<u8>)> {
    match parse_byte(s) {
        Some((f, r)) => if f == 0 {
            Some((None, r))
        } else if f == 1 {
            match parse_chunk(r) {
                Some((base, r2)) => match parse_chunk(r2) {
                    Some((rel, r3)) => Some((Some((base, rel)), r3)),
                    None => None,
                },
                None => None,
            }
        } else {
            None
        },
        None => None,
    }
}

pub proof fn lemma_opt_addr(o: Option<(Seq<u8>, Seq<u8>)>, rest: Seq<u8>)
    requires
        o matches Some(a) ==> a.0.len() <= u64::MAX && a.1.len() <= u64::MAX,
    ensures
        parse_opt_addr(enc_opt_addr(o) + rest) == Some((o, rest)),
{
    match o {
        None => lemma_byte(0u8, rest),
        Some(a) => {
            lemma_chunk(a.1, rest);
            lemma_chunk(a.0, enc_chunk(a.1) + rest);
            assert(enc_opt_addr(o) + rest =~= seq![1u8] + (enc_chunk(a.0) + (enc_chunk(a.1) + rest)));
            lemma_byte(1u8, enc_chunk(a.0) + (enc_chunk(a.1) + rest));
        },
    }
}

/// A topic: its UTF-8 bytes as a byte string.
pub open spec fn enc_topic(t: Seq<char>) -> Seq<u8> {
    enc_chunk(encode_utf8(t))
}

pub open spec fn parse_topic(s: Seq<u8>) -> Option<(Seq<char>, Seq<u8>)> {
    match parse_chunk(s) {
        Some((b, r)) => if valid_utf8(b) {
            Some((decode_utf8(b), r))
        } else {
            None
        },
        None => None,
    }
}

pub proof fn lemma_topic(t: Seq<char>, rest: Seq<u8>)
    requires
        encode_utf8(t).len() <= u64::MAX,
    ensures
        parse_topic(enc_topic(t) + rest) == Some((t, rest)),
{
    lemma_chunk(encode_utf8(t), rest);
    encode_utf8_valid_utf8(t);
    encode_utf8_decode_utf8(t);
}

pub open spec fn enc_perm(p: PermissionedV) -> Seq<u8> {
    match p {
        PermissionedV::Read(id) => seq![0u8] + enc_idb(id),
        PermissionedV::ReadWrite(id, d) => seq![1u8] + enc_idb(id) + match d {
            PermissionDuration::Perpetual => seq![0u8],
            PermissionDuration::UntilSequence(n) => seq![1u8] + enc_u64(n),
        },
        PermissionedV::Admin(id) => seq![2u8] + enc_idb(id),
    }
}

pub open spec fn parse_duration(s: Seq<u8>) -> Option<(PermissionDuration, Seq<u8>)> {
    match parse_byte(s) {
        Some((f, r)) => if f == 0 {
            Some((PermissionDuration::Perpetual, r))
        } else if f == 1 {
            match parse_u64(r) {
                Some((n, r2)) => Some((PermissionDuration::UntilSequence(n), r2)),
                None => None,
            }
        } else {
            None
        },
        None => None,
    }
}

pub open spec fn parse_perm(s: Seq<u8>) -> Option<(PermissionedV, Seq<u8>)> {
    match parse_byte(s) {
        Some((t, r)) => match parse_idb(r) {
            Some((id, r2)) => if t == 0 {
                Some((PermissionedV::Read(id), r2))
            } else if t == 1 {
                match parse_duration(r2) {
                    Some((d, r3)) => Some((PermissionedV::ReadWrite(id, d), r3)),
                    None => None,
                }
            } else if t == 2 {
                Some((PermissionedV::Admin(id), r2))
            } else {
                None
            },
            None => None,
        },
        None => None,
    }
}

pub proof fn lemma_perm(p: PermissionedV, rest: Seq<u8>)
    requires
        fits_idb(p.identifier()),
    ensures
        parse_perm(enc_perm(p) + rest) == Some((p, rest)),
{
    match p {
        PermissionedV::Read(id) => {
            lemma_idb(id, rest);
            assert(enc_perm(p) + rest =~= seq![0u8] + (enc_idb(id) + rest));
            lemma_byte(0u8, enc_idb(id) + rest);
        },
        PermissionedV::Admin(id) => {
            lemma_idb(id, rest);
            assert(enc_perm(p) + rest =~= seq![2u8] + (enc_idb(id) + rest));
            lemma_byte(2u8, enc_idb(id) + rest);
        },
        PermissionedV::ReadWrite(id, d) => {
            let de = match d {
                PermissionDuration::Perpetual => seq![0u8],
                PermissionDuration::UntilSequence(n) => seq![1u8] + enc_u64(n),
            };
            match d {
                PermissionDuration::Perpetual => lemma_byte(0u8, rest),
                PermissionDuration::UntilSequence(n) => {
                    lemma_u64(n, rest);
                    assert(de + rest =~= seq![1u8] + (enc_u64(n) + rest));
                    lemma_byte(1u8, enc_u64(n) + rest);
                },
            }
            lemma_idb(id, de + rest);
            assert(enc_perm(p) + rest =~= seq![1u8] + (enc_idb(id) + (de + rest)));
            lemma_byte(1u8, enc_idb(id) + (de + rest));
        },
    }
}

/// A permission and its cursor.
pub open spec fn enc_entry(e: (PermissionedV, usize)) -> Seq<u8> {
    enc_perm(e.0) + enc_u64(e.1 as u64)
}

pub open spec fn parse_entry(s: Seq<u8>) -> Option<((PermissionedV, usize), Seq<u8>)> {
    match parse_perm(s) {
        Some((p, r)) => match parse_u64(r) {
            Some((c, r2)) => if c <= usize::MAX {
                Some(((p, c as usize), r2))
            } else {
                None
            },
            None => None,
        },
        None => None,
    }
}

pub proof fn lemma_entry(e: (PermissionedV, usize), rest: Seq<u8>)
    requires
        fits_idb(e.0.identifier()),
    ensures
        parse_entry(enc_entry(e) + rest) == Some((e, rest)),
{
    lemma_u64(e.1 as u64, rest);
    lemma_perm(e.0, enc_u64(e.1 as u64) + rest);
    assert(enc_entry(e) + rest =~= enc_perm(e.0) + (enc_u64(e.1 as u64) + rest));
}

/// A sponge state or a pre-shared key under its id.
pub open spec fn enc_pair(e: (Seq<u8>, Seq<u8>)) -> Seq<u8> {
    enc_chunk(e.0) + enc_chunk(e.1)
}

pub open spec fn parse_pair(s: Seq<u8>) -> Option<((Seq<u8>, Seq<u8>), Seq<u8>)> {
    match parse_chunk(s) {
        Some((k, r)) => match parse_chunk(r) {
            Some((v, r2)) => Some(((k, v), r2)),
            None => None,
        },
        None => None,
    }
}

pub proof fn lemma_pair(e: (Seq<u8>, Seq<u8>), rest: Seq<u8>)
    requires
        e.0.len() <= u64::MAX,
        e.1.len() <= u64::MAX,
    ensures
        parse_pair(enc_pair(e) + rest) == Some((e, rest)),
{
    lemma_chunk(e.1, rest);
    lemma_chunk(e.0, enc_chunk(e.1) + rest);
    assert(enc_pair(e) + rest =~= enc_chunk(e.0) + (enc_chunk(e.1) + rest));
}

/// A branch: its topic, its latest link, the number of its entries, and the entries.
pub open spec fn enc_branch(b: BranchRecord) -> Seq<u8> {
    enc_topic(b.topic) + enc_chunk(b.latest_link) + enc_u64(b.entries.len() as u64) + enc_entries(b.entries)
}

pub open spec fn parse_branch(s: Seq<u8>) -> Option<(BranchRecord, Seq<u8>)> {
    match parse_topic(s) {
        Some((t, r)) => match parse_chunk(r) {
            Some((l, r2)) => match parse_u64(r2) {
                Some((n, r3)) => match parse_entries(r3, n as nat) {
                    Some((es, r4)) => Some((BranchRecord { topic: t, latest_link: l, entries: es }, r4)),
                    None => None,
                },
                None => None,
            },
            None => None,
        },
        None => None,
    }
}

pub open spec fn fits_branch(b: BranchRecord) -> bool {
    &&& encode_utf8(b.topic).len() <= u64::MAX
    &&& b.latest_link.len() <= u64::MAX
    &&& b.entries.len() <= u64::MAX
    &&& forall|i: int| 0 <= i < b.entries.len() ==> fits_idb(#[trigger] b.entries[i].0.identifier())
}

pub proof fn lemma_branch(b: BranchRecord, rest: Seq<u8>)
    requires
        fits_branch(b),
    ensures
        parse_branch(enc_branch(b) + rest) == Some((b, rest)),
{
    assert forall|i: int| 0 <= i < b.entries.len() implies fits_entry(#[trigger] b.entries[i]) by {}
    lemma_entries(b.entries, rest);
    lemma_u64(b.entries.len() as u64, enc_entries(b.entries) + rest);
    lemma_chunk(b.latest_link, enc_u64(b.entries.len() as u64) + (enc_entries(b.entries) + rest));
    lemma_topic(b.topic, enc_chunk(b.latest_link) + (enc_u64(b.entries.len() as u64) + (enc_entries(b.entries) + rest)));
    assert(enc_branch(b) + rest =~= enc_topic(b.topic) + (enc_chunk(b.latest_link) + (enc_u64(b.entries.len() as u64) + (
    enc_entries(b.entries) + rest))));
}

pub open spec fn fits_pair(e: (Seq<u8>, Seq<u8>)) -> bool {
    e.0.len() <= u64::MAX && e.1.len() <= u64::MAX
}

pub open spec fn fits_entry(e: (PermissionedV, usize)) -> bool {
    fits_idb(e.0.identifier())
}

/// A list of pairs, each after the other.
pub open spec fn enc_pairs(xs: Seq<(Seq<u8>, Seq<u8>)>) -> Seq<u8>
    decreases xs.len(),
{
    if xs.len() == 0 {
        Seq::empty()
    } else {
        enc_pairs(xs.drop_last()) + enc_pair(xs.last())
    }
}

/// Reads `n` pairs, one after the other.
pub open spec fn parse_pairs(s: Seq<u8>, n: nat) -> Option<(Seq<(Seq<u8>, Seq<u8>)>, Seq<u8>)>
    decreases n,
{
    if n == 0 {
        Some((Seq::empty(), s))
    } else {
        match parse_pair(s) {
            Some((x, r)) => match parse_pairs(r, (n - 1) as nat) {
                Some((xs, r2)) => Some((seq![x] + xs, r2)),
                None => None,
            },
            None => None,
        }
    }
}

proof fn lemma_enc_pairs_first(xs: Seq<(Seq<u8>, Seq<u8>)>)
    requires
        xs.len() > 0,
    ensures
        enc_pairs(xs) == enc_pair(xs[0]) + enc_pairs(xs.drop_first()),
    decreases xs.len(),
{
    if xs.len() > 1 {
        lemma_enc_pairs_first(xs.drop_last());
        assert(xs.drop_last().drop_first() =~= xs.drop_first().drop_last());
        assert(xs.drop_first().last() == xs.last());
        assert(enc_pairs(xs) =~= enc_pair(xs[0]) + enc_pairs(xs.drop_first()));
    } else {
        assert(xs.drop_last().len() == 0);
        assert(xs.drop_first().len() == 0);
        assert(enc_pairs(xs.drop_first()) =~= Seq::<u8>::empty());
        assert(enc_pairs(xs.drop_last()) =~= Seq::<u8>::empty());
        assert(xs.last() == xs[0]);
        assert(enc_pairs(xs) =~= enc_pair(xs[0]) + enc_pairs(xs.drop_first()));
    }
}

pub proof fn lemma_pairs(xs: Seq<(Seq<u8>, Seq<u8>)>, rest: Seq<u8>)
    requires
        forall|i: int| 0 <= i < xs.len() ==> fits_pair(#[trigger] xs[i]),
    ensures
        parse_pairs(enc_pairs(xs) + rest, xs.len()) == Some((xs, rest)),
    decreases xs.len(),
{
    if xs.len() == 0 {
        assert(enc_pairs(xs) + rest =~= rest);
        assert(xs =~= Seq::<(Seq<u8>, Seq<u8>)>::empty());
    } else {
        lemma_enc_pairs_first(xs);
        let tail = xs.drop_first();
        assert forall|i: int| 0 <= i < tail.len() implies fits_pair(#[trigger] tail[i]) by {
            assert(tail[i] == xs[i + 1]);
        }
        lemma_pairs(tail, rest);
        assert(fits_pair(xs[0]));
        lemma_pair(xs[0], enc_pairs(tail) + rest);
        assert(enc_pairs(xs) + rest =~= enc_pair(xs[0]) + (enc_pairs(tail) + rest));
        assert(seq![xs[0]] + tail =~= xs);
    }
}

/// A list of entries, each after the other.
pub open spec fn enc_entries(xs: Seq<(PermissionedV, usize)>) -> Seq<u8>
    decreases xs.len(),
{
    if xs.len() == 0 {
        Seq::empty()
    } else {
        enc_entries(xs.drop_last()) + enc_entry(xs.last())
    }
}

/// Reads `n` entries, one after the other.
pub open spec fn parse_entries(s: Seq<u8>, n: nat) -> Option<(Seq<(PermissionedV, usize)>, Seq<u8>)>
    decreases n,
{
    if n == 0 {
        Some((Seq::empty(), s))
    } else {
        match parse_entry(s) {
            Some((x, r)) => match parse_entries(r, (n - 1) as nat) {
                Some((xs, r2)) => Some((seq![x] + xs, r2)),
                None => None,
            },
            None => None,
        }
    }
}

proof fn lemma_enc_entries_first(xs: Seq<(PermissionedV, usize)>)
    requires
        xs.len() > 0,
    ensures
        enc_entries(xs) == enc_entry(xs[0]) + enc_entries(xs.drop_first()),
    decreases xs.len(),
{
    if xs.len() > 1 {
        lemma_enc_entries_first(xs.drop_last());
        assert(xs.drop_last().drop_first() =~= xs.drop_first().drop_last());
        assert(xs.drop_first().last() == xs.last());
        assert(enc_entries(xs) =~= enc_entry(xs[0]) + enc_entries(xs.drop_first()));
    } else {
        assert(xs.drop_last().len() == 0);
        assert(xs.drop_first().len() == 0);
        assert(enc_entries(xs.drop_first()) =~= Seq::<u8>::empty());
        assert(enc_entries(xs.drop_last()) =~= Seq::<u8>::empty());
        assert(xs.last() == xs[0]);
        assert(enc_entries(xs) =~= enc_entry(xs[0]) + enc_entries(xs.drop_first()));
    }
}

pub proof fn lemma_entries(xs: Seq<(PermissionedV, usize)>, rest: Seq<u8>)
    requires
        forall|i: int| 0 <= i < xs.len() ==> fits_entry(#[trigger] xs[i]),
    ensures
        parse_entries(enc_entries(xs) + rest, xs.len()) == Some((xs, rest)),
    decreases xs.len(),
{
    if xs.len() == 0 {
        assert(enc_entries(xs) + rest =~= rest);
        assert(xs =~= Seq::<(PermissionedV, usize)>::empty());
    } else {
        lemma_enc_entries_first(xs);
        let tail = xs.drop_first();
        assert forall|i: int| 0 <= i < tail.len() implies fits_entry(#[trigger] tail[i]) by {
            assert(tail[i] == xs[i + 1]);
        }
        lemma_entries(tail, rest);
        assert(fits_entry(xs[0]));
        lemma_entry(xs[0], enc_entries(tail) + rest);
        assert(enc_entries(xs) + rest =~= enc_entry(xs[0]) + (enc_entries(tail) + rest));
        assert(seq![xs[0]] + tail =~= xs);
    }
}

/// A list of branches, each after the other.
pub open spec fn enc_branches(xs: Seq<BranchRecord>) -> Seq<u8>
    decreases xs.len(),
{
    if xs.len() == 0 {
        Seq::empty()
    } else {
        enc_branches(xs.drop_last()) + enc_branch(xs.last())
    }
}

/// Reads `n` branches, one after the other.
pub open spec fn parse_branches(s: Seq<u8>, n: nat) -> Option<(Seq<BranchRecord>, Seq<u8>)>
    decreases n,
{
    if n == 0 {
        Some((Seq::empty(), s))
    } else {
        match parse_branch(s) {
            Some((x, r)) => match parse_branches(r, (n - 1) as nat) {
                Some((xs, r2)) => Some((seq![x] + xs, r2)),
                None => None,
            },
            None => None,
        }
    }
}

proof fn lemma_enc_branches_first(xs: Seq<BranchRecord>)
    requires
        xs.len() > 0,
    ensures
        enc_branches(xs) == enc_branch(xs[0]) + enc_branches(xs.drop_first()),
    decreases xs.len(),
{
    if xs.len() > 1 {
        lemma_enc_branches_first(xs.drop_last());
        assert(xs.drop_last().drop_first() =~= xs.drop_first().drop_last());
        assert(xs.drop_first().last() == xs.last());
        assert(enc_branches(xs) =~= enc_branch(xs[0]) + enc_branches(xs.drop_first()));
    } else {
        assert(xs.drop_last().len() == 0);
        assert(xs.drop_first().len() == 0);
        assert(enc_branches(xs.drop_first()) =~= Seq::<u8>::empty());
        assert(enc_branches(xs.drop_last()) =~= Seq::<u8>::empty());
        assert(xs.last() == xs[0]);
        assert(enc_branches(xs) =~= enc_branch(xs[0]) + enc_branches(xs.drop_first()));
    }
}

#[verifier::rlimit(60)]
pub proof fn lemma_branches(xs: Seq<BranchRecord>, rest: Seq<u8>)
    requires
        forall|i: int| 0 <= i < xs.len() ==> fits_branch(#[trigger] xs[i]),
    ensures
        parse_branches(enc_branches(xs) + rest, xs.len()) == Some((xs, rest)),
    decreases xs.len(),
{
    if xs.len() == 0 {
        assert(enc_branches(xs) + rest =~= rest);
        assert(xs =~= Seq::<BranchRecord>::empty());
    } else {
        lemma_enc_branches_first(xs);
        let tail = xs.drop_first();
        assert forall|i: int| 0 <= i < tail.len() implies fits_branch(#[trigger] tail[i]) by {
            assert(tail[i] == xs[i + 1]);
        }
        lemma_branches(tail, rest);
        assert(fits_branch(xs[0]));
        lemma_branch(xs[0], enc_branches(tail) + rest);
        assert(enc_branches(xs) + rest =~= enc_branch(xs[0]) + (enc_branches(tail) + rest));
        assert(seq![xs[0]] + tail =~= xs);
    }
}

/// A list of ids, each after the other.
pub open spec fn enc_ids(xs: Seq<IdentifierV>) -> Seq<u8>
    decreases xs.len(),
{
    if xs.len() == 0 {
        Seq::empty()
    } else {
        enc_ids(xs.drop_last()) + enc_idb(xs.last())
    }
}

/// Reads `n` ids, one after the other.
pub open spec fn parse_ids(s: Seq<u8>, n: nat) -> Option<(Seq<IdentifierV>, Seq<u8>)>
    decreases n,
{
    if n == 0 {
        Some((Seq::empty(), s))
    } else {
        match parse_idb(s) {
            Some((x, r)) => match parse_ids(r, (n - 1) as nat) {
                Some((xs, r2)) => Some((seq![x] + xs, r2)),
                None => None,
            },
            None => None,
        }
    }
}

proof fn lemma_enc_ids_first(xs: Seq<IdentifierV>)
    requires
        xs.len() > 0,
    ensures
        enc_ids(xs) == enc_idb(xs[0]) + enc_ids(xs.drop_first()),
    decreases xs.len(),
{
    if xs.len() > 1 {
        lemma_enc_ids_first(xs.drop_last());
        assert(xs.drop_last().drop_first() =~= xs.drop_first().drop_last());
        assert(xs.drop_first().last() == xs.last());
        assert(enc_ids(xs) =~= enc_idb(xs[0]) + enc_ids(xs.drop_first()));
    } else {
        assert(xs.drop_last().len() == 0);
        assert(xs.drop_first().len() == 0);
        assert(enc_ids(xs.drop_first()) =~= Seq::<u8>::empty());
        assert(enc_ids(xs.drop_last()) =~= Seq::<u8>::empty());
        assert(xs.last() == xs[0]);
        assert(enc_ids(xs) =~= enc_idb(xs[0]) + enc_ids(xs.drop_first()));
    }
}

pub proof fn lemma_ids(xs: Seq<IdentifierV>, rest: Seq<u8>)
    requires
        forall|i: int| 0 <= i < xs.len() ==> fits_idb(#[trigger] xs[i]),
    ensures
        parse_ids(enc_ids(xs) + rest, xs.len()) == Some((xs, rest)),
    decreases xs.len(),
{
    if xs.len() == 0 {
        assert(enc_ids(xs) + rest =~= rest);
        assert(xs =~= Seq::<IdentifierV>::empty());
    } else {
        lemma_enc_ids_first(xs);
        let tail = xs.drop_first();
        assert forall|i: int| 0 <= i < tail.len() implies fits_idb(#[trigger] tail[i]) by {
            assert(tail[i] == xs[i + 1]);
        }
        lemma_ids(tail, rest);
        assert(fits_idb(xs[0]));
        lemma_idb(xs[0], enc_ids(tail) + rest);
        assert(enc_ids(xs) + rest =~= enc_idb(xs[0]) + (enc_ids(tail) + rest));
        assert(seq![xs[0]] + tail =~= xs);
    }
}


/// Relies on String::from_utf8, which succeeds exactly on valid UTF-8 and then holds the
/// text those bytes encode.
#[verifier::external_body]
fn utf8_text(b: &[u8]) -> (r: Option<String>)
    ensures
        r matches Some(t) ==> valid_utf8(b@) && t@ == decode_utf8(b@),
        r is None ==> !valid_utf8(b@),
{
    String::from_utf8(b.to_vec()).ok()
}

/// Appends the bytes of `b` to `out`.
pub fn put_slice(out: &mut Vec<u8>, b: &[u8])
    ensures
        final(out)@ == old(out)@ + b@,
{
    let ghost start = out@;
    let mut i: usize = 0;
    while i < b.len()
        invariant
            0 <= i <= b@.len(),
            out@ == start + b@.subrange(0, i as int),
        decreases b@.len() - i,
    {
        out.push(b[i]);
        i = i + 1;
        assert(out@ =~= start + b@.subrange(0, i as int));
    }
    assert(b@.subrange(0, b@.len() as int) =~= b@);
}

pub fn put_u64(out: &mut Vec<u8>, x: u64)
    ensures
        final(out)@ == old(out)@ + enc_u64(x),
{
    let b = u64_to_le_bytes(x);
    put_slice(out, b.as_slice());
}

pub fn put_byte(out: &mut Vec<u8>, x: u8)
    ensures
        final(out)@ == old(out)@ + seq![x],
{
    let ghost start = out@;
    out.push(x);
    assert(out@ =~= start + seq![x]);
}

pub fn put_chunk(out: &mut Vec<u8>, b: &[u8])
    ensures
        final(out)@ == old(out)@ + enc_chunk(b@),
        b@.len() <= u64::MAX,
{
    let ghost start = out@;
    put_u64(out, b.len() as u64);
    put_slice(out, b);
    assert(out@ =~= start + enc_chunk(b@));
}

pub fn put_idb(out: &mut Vec<u8>, id: &Identifier)
    ensures
        final(out)@ == old(out)@ + enc_idb(id@),
        fits_idb(id@),
{
    let ghost start = out@;
    let tag = match id {
        Identifier::Ed25519(_) => TAG_ED25519,
        Identifier::PskId(_) => TAG_PSKID,
        Identifier::Did(_) => TAG_DID,
    };
    put_byte(out, tag);
    put_chunk(out, id.as_bytes());
    assert(out@ =~= start + enc_idb(id@));
}

pub fn put_opt_id(out: &mut Vec<u8>, o: &Option<Identifier>)
    ensures
        final(out)@ == old(out)@ + enc_opt_id(opt_id_view(*o)),
        o matches Some(v) ==> fits_idb(v@),
{
    let ghost start = out@;
    match o {
        None => put_byte(out, 0u8),
        Some(id) => {
            put_byte(out, 1u8);
            put_idb(out, id);
        },
    }
    assert(out@ =~= start + enc_opt_id(opt_id_view(*o)));
}

pub open spec fn opt_id_view(o: Option<Identifier>) -> Option<IdentifierV> {
    match o {
        Some(v) => Some(v@),
        None => None,
    }
}

pub open spec fn opt_addr_view(o: Option<Address>) -> Option<(Seq<u8>, Seq<u8>)> {
    match o {
        Some(v) => Some(v@),
        None => None,
    }
}

pub fn put_opt_addr(out: &mut Vec<u8>, o: &Option<Address>)
    ensures
        final(out)@ == old(out)@ + enc_opt_addr(opt_addr_view(*o)),
        o matches Some(a) ==> a@.0.len() <= u64::MAX && a@.1.len() <= u64::MAX,
{
    let ghost start = out@;
    match o {
        None => put_byte(out, 0u8),
        Some(a) => {
            put_byte(out, 1u8);
            put_chunk(out, a.base());
            let rel = a.relative();
            put_chunk(out, rel.as_bytes());
        },
    }
    assert(out@ =~= start + enc_opt_addr(opt_addr_view(*o)));
}

pub fn put_topic(out: &mut Vec<u8>, t: &Topic)
    ensures
        final(out)@ == old(out)@ + enc_topic(t@),
        encode_utf8(t@).len() <= u64::MAX,
{
    put_chunk(out, t.as_str().as_bytes());
}

pub fn put_perm(out: &mut Vec<u8>, p: &Permissioned)
    ensures
        final(out)@ == old(out)@ + enc_perm(p@),
        fits_idb(p@.identifier()),
{
    let ghost start = out@;
    match p {
        Permissioned::Read(id) => {
            put_byte(out, 0u8);
            put_idb(out, id);
        },
        Permissioned::ReadWrite(id, d) => {
            put_byte(out, 1u8);
            put_idb(out, id);
            match d {
                PermissionDuration::Perpetual => put_byte(out, 0u8),
                PermissionDuration::UntilSequence(n) => {
                    put_byte(out, 1u8);
                    put_u64(out, *n);
                },
            }
        },
        Permissioned::Admin(id) => {
            put_byte(out, 2u8);
            put_idb(out, id);
        },
    }
    assert(out@ =~= start + enc_perm(p@));
}

pub fn put_entry(out: &mut Vec<u8>, p: &Permissioned, c: usize)
    ensures
        final(out)@ == old(out)@ + enc_entry((p@, c)),
        fits_entry((p@, c)),
{
    let ghost start = out@;
    put_perm(out, p);
    put_u64(out, c as u64);
    assert(out@ =~= start + enc_entry((p@, c)));
}

pub fn put_pair(out: &mut Vec<u8>, k: &[u8], v: &[u8])
    ensures
        final(out)@ == old(out)@ + enc_pair((k@, v@)),
        fits_pair((k@, v@)),
{
    let ghost start = out@;
    put_chunk(out, k);
    put_chunk(out, v);
    assert(out@ =~= start + enc_pair((k@, v@)));
}

/// The bytes of `buf` from `pos` on.
pub open spec fn from(buf: Seq<u8>, pos: int) -> Seq<u8> {
    buf.subrange(pos, buf.len() as int)
}

pub fn get_u64(buf: &[u8], pos: usize) -> (r: Option<(u64, usize)>)
    requires
        pos <= buf@.len(),
    ensures
        r matches Some((x, p)) ==> pos <= p <= buf@.len() && parse_u64(from(buf@, pos as int)) == Some((x, from(buf@, p as int))),
        r is None ==> parse_u64(from(buf@, pos as int)) is None,
{
    if buf.len() - pos < 8 {
        return None;
    }
    let b = copy_range(buf, pos, pos + 8);
    let x = u64_from_le_bytes(b.as_slice());
    proof {
        let s = from(buf@, pos as int);
        assert(s.subrange(0, 8) =~= b@);
        assert(s.subrange(8, s.len() as int) =~= from(buf@, pos + 8));
    }
    Some((x, pos + 8))
}

pub fn get_byte(buf: &[u8], pos: usize) -> (r: Option<(u8, usize)>)
    requires
        pos <= buf@.len(),
    ensures
        r matches Some((x, p)) ==> pos <= p <= buf@.len() && parse_byte(from(buf@, pos as int)) == Some((x, from(buf@, p as int))),
        r is None ==> parse_byte(from(buf@, pos as int)) is None,
{
    if pos >= buf.len() {
        return None;
    }
    proof {
        let s = from(buf@, pos as int);
        assert(s.drop_first() =~= from(buf@, pos + 1));
    }
    Some((buf[pos], pos + 1))
}

pub fn get_chunk(buf: &[u8], pos: usize) -> (r: Option<(Vec<u8>, usize)>)
    requires
        pos <= buf@.len(),
    ensures
        r matches Some((x, p)) ==> pos <= p <= buf@.len() && parse_chunk(from(buf@, pos as int)) == Some((x@, from(buf@, p as int))),
        r is None ==> parse_chunk(from(buf@, pos as int)) is None,
{
    let (n, p) = match get_u64(buf, pos) {
        Some(x) => x,
        None => return None,
    };
    if n > (buf.len() - p) as u64 {
        return None;
    }
    let e = p + n as usize;
    let b = copy_range(buf, p, e);
    proof {
        let r = from(buf@, p as int);
        assert(r.subrange(0, n as int) =~= b@);
        assert(r.subrange(n as int, r.len() as int) =~= from(buf@, e as int));
    }
    Some((b, e))
}

pub fn get_idb(buf: &[u8], pos: usize) -> (r: Option<(Identifier, usize)>)
    requires
        pos <= buf@.len(),
    ensures
        r matches Some((x, p)) ==> pos <= p <= buf@.len() && parse_idb(from(buf@, pos as int)) == Some((x@, from(buf@, p as int))),
        r is None ==> parse_idb(from(buf@, pos as int)) is None,
{
    let (t, p) = match get_byte(buf, pos) {
        Some(x) => x,
        None => return None,
    };
    let (b, at2) = match get_chunk(buf, p) {
        Some(x) => x,
        None => return None,
    };
    if t == 0 {
        Some((Identifier::Ed25519(b), at2))
    } else if t == 1 {
        Some((Identifier::PskId(b), at2))
    } else if t == 2 {
        Some((Identifier::Did(b), at2))
    } else {
        None
    }
}

pub fn get_opt_id(buf: &[u8], pos: usize) -> (r: Option<(Option<Identifier>, usize)>)
    requires
        pos <= buf@.len(),
    ensures
        r matches Some((x, p)) ==> pos <= p <= buf@.len() && parse_opt_id(from(buf@, pos as int)) == Some((opt_id_view(x), from(buf@, p as int))),
        r is None ==> parse_opt_id(from(buf@, pos as int)) is None,
{
    let (f, p) = match get_byte(buf, pos) {
        Some(x) => x,
        None => return None,
    };
    if f == 0 {
        Some((None, p))
    } else if f == 1 {
        match get_idb(buf, p) {
            Some((id, at2)) => Some((Some(id), at2)),
            None => None,
        }
    } else {
        None
    }
}

pub fn get_opt_addr(buf: &[u8], pos: usize) -> (r: Option<(Option<Address>, usize)>)
    requires
        pos <= buf@.len(),
    ensures
        r matches Some((x, p)) ==> pos <= p <= buf@.len() && parse_opt_addr(from(buf@, pos as int)) == Some((opt_addr_view(x), from(buf@, p as int))),
        r is None ==> parse_opt_addr(from(buf@, pos as int)) is None,
{
    let (f, p) = match get_byte(buf, pos) {
        Some(x) => x,
        None => return None,
    };
    if f == 0 {
        Some((None, p))
    } else if f == 1 {
        let (base, at2) = match get_chunk(buf, p) {
            Some(x) => x,
            None => return None,
        };
        let (rel, at3) = match get_chunk(buf, at2) {
            Some(x) => x,
            None => return None,
        };
        Some((Some(Address::new(base, MsgId::from_vec(rel))), at3))
    } else {
        None
    }
}

pub fn get_topic(buf: &[u8], pos: usize) -> (r: Option<(Topic, usize)>)
    requires
        pos <= buf@.len(),
    ensures
        r matches Some((x, p)) ==> pos <= p <= buf@.len() && parse_topic(from(buf@, pos as int)) == Some((x@, from(buf@, p as int))),
        r is None ==> parse_topic(from(buf@, pos as int)) is None,
{
    let (b, p) = match get_chunk(buf, pos) {
        Some(x) => x,
        None => return None,
    };
    match utf8_text(b.as_slice()) {
        Some(t) => Some((Topic::new(t), p)),
        None => None,
    }
}

pub fn get_perm(buf: &[u8], pos: usize) -> (r: Option<(Permissioned, usize)>)
    requires
        pos <= buf@.len(),
    ensures
        r matches Some((x, p)) ==> pos <= p <= buf@.len() && parse_perm(from(buf@, pos as int)) == Some((x@, from(buf@, p as int))),
        r is None ==> parse_perm(from(buf@, pos as int)) is None,
{
    let (t, p) = match get_byte(buf, pos) {
        Some(x) => x,
        None => return None,
    };
    let (id, at2) = match get_idb(buf, p) {
        Some(x) => x,
        None => return None,
    };
    if t == 0 {
        Some((Permissioned::Read(id), at2))
    } else if t == 2 {
        Some((Permissioned::Admin(id), at2))
    } else if t == 1 {
        let (f, at3) = match get_byte(buf, at2) {
            Some(x) => x,
            None => return None,
        };
        if f == 0 {
            Some((Permissioned::ReadWrite(id, PermissionDuration::Perpetual), at3))
        } else if f == 1 {
            match get_u64(buf, at3) {
                Some((n, at4)) => Some((Permissioned::ReadWrite(id, PermissionDuration::UntilSequence(n)), at4)),
                None => None,
            }
        } else {
            None
        }
    } else {
        None
    }
}

pub fn get_entry(buf: &[u8], pos: usize) -> (r: Option<((Permissioned, usize), usize)>)
    requires
        pos <= buf@.len(),
    ensures
        r matches Some((x, p)) ==> pos <= p <= buf@.len() && parse_entry(from(buf@, pos as int)) == Some(((x.0@, x.1), from(buf@, p as int))),
        r is None ==> parse_entry(from(buf@, pos as int)) is None,
{
    let (perm, p) = match get_perm(buf, pos) {
        Some(x) => x,
        None => return None,
    };
    let (c, at2) = match get_u64(buf, p) {
        Some(x) => x,
        None => return None,
    };
    if c > usize::MAX as u64 {
        return None;
    }
    Some(((perm, c as usize), at2))
}

pub fn get_pair(buf: &[u8], pos: usize) -> (r: Option<((Vec<u8>, Vec<u8>), usize)>)
    requires
        pos <= buf@.len(),
    ensures
        r matches Some((x, p)) ==> pos <= p <= buf@.len() && parse_pair(from(buf@, pos as int)) == Some(((x.0@, x.1@), from(buf@, p as int))),
        r is None ==> parse_pair(from(buf@, pos as int)) is None,
{
    let (k, p) = match get_chunk(buf, pos) {
        Some(x) => x,
        None => return None,
    };
    let (v, at2) = match get_chunk(buf, p) {
        Some(x) => x,
        None => return None,
    };
    Some(((k, v), at2))
}


pub open spec fn lean_byte(lean: bool) -> u8 {
    if lean {
        1u8
    } else {
        0u8
    }
}

/// A counted list: the number of elements, then the elements.
pub open spec fn enc_cpairs(xs: Seq<(Seq<u8>, Seq<u8>)>) -> Seq<u8> {
    enc_u64(xs.len() as u64) + enc_pairs(xs)
}

pub open spec fn parse_cpairs(s: Seq<u8>) -> Option<(Seq<(Seq<u8>, Seq<u8>)>, Seq<u8>)> {
    match parse_u64(s) {
        Some((n, r)) => parse_pairs(r, n as nat),
        None => None,
    }
}

pub open spec fn parse_centries(s: Seq<u8>) -> Option<(Seq<(PermissionedV, usize)>, Seq<u8>)> {
    match parse_u64(s) {
        Some((n, r)) => parse_entries(r, n as nat),
        None => None,
    }
}

pub open spec fn enc_cbranches(xs: Seq<BranchRecord>) -> Seq<u8> {
    enc_u64(xs.len() as u64) + enc_branches(xs)
}

pub open spec fn parse_cbranches(s: Seq<u8>) -> Option<(Seq<BranchRecord>, Seq<u8>)> {
    match parse_u64(s) {
        Some((n, r)) => parse_branches(r, n as nat),
        None => None,
    }
}

pub open spec fn enc_cids(xs: Seq<IdentifierV>) -> Seq<u8> {
    enc_u64(xs.len() as u64) + enc_ids(xs)
}

pub open spec fn parse_cids(s: Seq<u8>) -> Option<(Seq<IdentifierV>, Seq<u8>)> {
    match parse_u64(s) {
        Some((n, r)) => parse_ids(r, n as nat),
        None => None,
    }
}

pub proof fn lemma_cpairs(xs: Seq<(Seq<u8>, Seq<u8>)>, rest: Seq<u8>)
    requires
        xs.len() <= u64::MAX,
        forall|i: int| 0 <= i < xs.len() ==> fits_pair(#[trigger] xs[i]),
    ensures
        parse_cpairs(enc_cpairs(xs) + rest) == Some((xs, rest)),
{
    lemma_pairs(xs, rest);
    lemma_u64(xs.len() as u64, enc_pairs(xs) + rest);
    assert(enc_cpairs(xs) + rest =~= enc_u64(xs.len() as u64) + (enc_pairs(xs) + rest));
}

pub proof fn lemma_cbranches(xs: Seq<BranchRecord>, rest: Seq<u8>)
    requires
        xs.len() <= u64::MAX,
        forall|i: int| 0 <= i < xs.len() ==> fits_branch(#[trigger] xs[i]),
    ensures
        parse_cbranches(enc_cbranches(xs) + rest) == Some((xs, rest)),
{
    lemma_branches(xs, rest);
    lemma_u64(xs.len() as u64, enc_branches(xs) + rest);
    assert(enc_cbranches(xs) + rest =~= enc_u64(xs.len() as u64) + (enc_branches(xs) + rest));
}

pub proof fn lemma_cids(xs: Seq<IdentifierV>, rest: Seq<u8>)
    requires
        xs.len() <= u64::MAX,
        forall|i: int| 0 <= i < xs.len() ==> fits_idb(#[trigger] xs[i]),
    ensures
        parse_cids(enc_cids(xs) + rest) == Some((xs, rest)),
{
    lemma_ids(xs, rest);
    lemma_u64(xs.len() as u64, enc_ids(xs) + rest);
    assert(enc_cids(xs) + rest =~= enc_u64(xs.len() as u64) + (enc_ids(xs) + rest));
}


/// What follows the base branch in a backup.
pub struct TailV {
    pub snapshots: Seq<(Seq<u8>, Seq<u8>)>,
    pub branches: Seq<BranchRecord>,
    pub subscribers: Seq<IdentifierV>,
    pub psks: Seq<(Seq<u8>, Seq<u8>)>,
    pub lean: bool,
}

#[verifier::opaque]
pub open spec fn enc_tail(t: TailV) -> Seq<u8> {
    enc_cpairs(t.snapshots) + enc_cbranches(t.branches) + enc_cids(t.subscribers) + enc_cpairs(t.psks) + seq![
        lean_byte(t.lean),
    ]
}

/// Reads the counted lists and the lean flag that end a backup; all of `s` must be used.
#[verifier::opaque]
pub open spec fn parse_tail(s: Seq<u8>) -> Option<TailV> {
    match parse_cpairs(s) {
        None => None,
        Some((snapshots, r1)) => match parse_cbranches(r1) {
            None => None,
            Some((branches, r2)) => match parse_cids(r2) {
                None => None,
                Some((subscribers, r3)) => match parse_cpairs(r3) {
                    None => None,
                    Some((psks, r4)) => match parse_byte(r4) {
                        None => None,
                        Some((l, r5)) => if r5.len() == 0 {
                            Some(TailV { snapshots, branches, subscribers, psks, lean: l == 1 })
                        } else {
                            None
                        },
                    },
                },
            },
        },
    }
}

/// The bytes of a backup: identity, stream address, author, base branch, then the counted
/// sponge states, branches, subscribers and pre-shared keys, then the lean flag.
#[verifier::opaque]
pub open spec fn enc_state(b: BackupV) -> Seq<u8> {
    enc_opt_id(b.user_id) + (enc_opt_addr(b.stream) + (enc_opt_id(b.author) + (enc_topic(b.base) + enc_tail(
        tail_of(b),
    ))))
}

pub open spec fn tail_of(b: BackupV) -> TailV {
    TailV { snapshots: b.snapshots, branches: b.branches, subscribers: b.subscribers, psks: b.psks, lean: b.lean }
}

/// Reads the layout of a backup; all of `s` must be used.
#[verifier::opaque]
pub open spec fn parse_layout(s: Seq<u8>) -> Option<BackupV> {
    match parse_opt_id(s) {
        None => None,
        Some((user_id, r1)) => match parse_opt_addr(r1) {
            None => None,
            Some((stream, r2)) => match parse_opt_id(r2) {
                None => None,
                Some((author, r3)) => match parse_topic(r3) {
                    None => None,
                    Some((base, r4)) => match parse_tail(r4) {
                        None => None,
                        Some(t) => Some(
                            BackupV {
                                user_id,
                                stream,
                                author,
                                base,
                                snapshots: t.snapshots,
                                branches: t.branches,
                                subscribers: t.subscribers,
                                psks: t.psks,
                                lean: t.lean,
                            },
                        ),
                    },
                },
            },
        },
    }
}

pub open spec fn keys_distinct(s: Seq<(Seq<u8>, Seq<u8>)>) -> bool {
    forall|i: int, j: int| #![trigger s[i], s[j]] 0 <= i < s.len() && 0 <= j < s.len() && i != j ==> s[i].0 != s[j].0
}

pub open spec fn topics_distinct(s: Seq<BranchRecord>) -> bool {
    forall|i: int, j: int| #![trigger s[i], s[j]] 0 <= i < s.len() && 0 <= j < s.len() && i != j ==> s[i].topic != s[j].topic
}

pub open spec fn members_distinct(s: Seq<IdentifierV>) -> bool {
    forall|i: int, j: int| #![trigger s[i], s[j]] 0 <= i < s.len() && 0 <= j < s.len() && i != j ==> s[i] != s[j]
}

/// Whether some branch of `s` is named `t`.
pub open spec fn names_branch(s: Seq<BranchRecord>, t: Seq<char>) -> bool {
    exists|i: int| 0 <= i < s.len() && (#[trigger] s[i]).topic == t
}

/// Whether some branch of `b` is named `t`.
pub open spec fn has_branch(b: BackupV, t: Seq<char>) -> bool {
    names_branch(b.branches, t)
}

/// A backup that describes a user: no key, topic, identifier or subscriber twice; a stream
/// comes with its author, and its base branch is among the branches.
pub open spec fn backup_consistent(b: BackupV) -> bool {
    &&& keys_distinct(b.snapshots)
    &&& keys_distinct(b.psks)
    &&& topics_distinct(b.branches)
    &&& forall|i: int| 0 <= i < b.branches.len() ==> seq_ids_unique(#[trigger] b.branches[i].entries)
    &&& members_distinct(b.subscribers)
    &&& (b.stream is Some <==> b.author is Some)
    &&& (b.stream is Some ==> has_branch(b, b.base))
}

/// The state that the bytes `s` of a backup hold, if they hold one.
pub open spec fn parse_state(s: Seq<u8>) -> Option<BackupV> {
    match parse_layout(s) {
        Some(b) => if backup_consistent(b) {
            Some(b)
        } else {
            None
        },
        None => None,
    }
}

pub open spec fn fits_state(b: BackupV) -> bool {
    &&& b.user_id matches Some(v) ==> fits_idb(v)
    &&& b.author matches Some(v) ==> fits_idb(v)
    &&& b.stream matches Some(a) ==> a.0.len() <= u64::MAX && a.1.len() <= u64::MAX
    &&& encode_utf8(b.base).len() <= u64::MAX
    &&& b.snapshots.len() <= u64::MAX && b.branches.len() <= u64::MAX
    &&& b.subscribers.len() <= u64::MAX && b.psks.len() <= u64::MAX
    &&& forall|i: int| 0 <= i < b.snapshots.len() ==> fits_pair(#[trigger] b.snapshots[i])
    &&& forall|i: int| 0 <= i < b.branches.len() ==> fits_branch(#[trigger] b.branches[i])
    &&& forall|i: int| 0 <= i < b.subscribers.len() ==> fits_idb(#[trigger] b.subscribers[i])
    &&& forall|i: int| 0 <= i < b.psks.len() ==> fits_pair(#[trigger] b.psks[i])
}

pub proof fn lemma_tail(t: TailV)
    requires
        t.snapshots.len() <= u64::MAX && t.branches.len() <= u64::MAX,
        t.subscribers.len() <= u64::MAX && t.psks.len() <= u64::MAX,
        forall|i: int| 0 <= i < t.snapshots.len() ==> fits_pair(#[trigger] t.snapshots[i]),
        forall|i: int| 0 <= i < t.branches.len() ==> fits_branch(#[trigger] t.branches[i]),
        forall|i: int| 0 <= i < t.subscribers.len() ==> fits_idb(#[trigger] t.subscribers[i]),
        forall|i: int| 0 <= i < t.psks.len() ==> fits_pair(#[trigger] t.psks[i]),
    ensures
        parse_tail(enc_tail(t)) == Some(t),
{
    reveal(enc_tail);
    reveal(parse_tail);
    let l = seq![lean_byte(t.lean)];
    lemma_byte(lean_byte(t.lean), Seq::empty());
    assert(l + Seq::<u8>::empty() =~= l);
    lemma_cpairs(t.psks, l);
    let r3 = enc_cpairs(t.psks) + l;
    lemma_cids(t.subscribers, r3);
    let r2 = enc_cids(t.subscribers) + r3;
    lemma_cbranches(t.branches, r2);
    let r1 = enc_cbranches(t.branches) + r2;
    lemma_cpairs(t.snapshots, r1);
    assert(enc_tail(t) =~= enc_cpairs(t.snapshots) + r1);
    assert((lean_byte(t.lean) == 1) == t.lean);
}

/// Reading back the bytes of a backup gives the backup.
#[verifier::rlimit(40)]
pub proof fn lemma_state(b: BackupV)
    requires
        fits_state(b),
    ensures
        parse_layout(enc_state(b)) == Some(b),
{
    reveal(parse_layout);
    reveal(enc_state);
    let t = tail_of(b);
    assert(t.snapshots.len() <= u64::MAX && t.branches.len() <= u64::MAX);
    lemma_tail(t);
    let t4 = enc_tail(t);
    lemma_topic(b.base, t4);
    let t3 = enc_topic(b.base) + t4;
    lemma_opt_id(b.author, t3);
    let t2 = enc_opt_id(b.author) + t3;
    lemma_opt_addr(b.stream, t2);
    let t1 = enc_opt_addr(b.stream) + t2;
    lemma_opt_id(b.user_id, t1);
    assert(parse_opt_id(enc_state(b)) == Some((b.user_id, t1)));
    assert(parse_opt_addr(t1) == Some((b.stream, t2)));
    assert(parse_opt_id(t2) == Some((b.author, t3)));
    assert(parse_topic(t3) == Some((b.base, t4)));
    assert(parse_tail(t4) == Some(t));
}

/// A backup as plain values in lists, ready to write or just read.
pub struct Backup {
    pub user_id: Option<Identifier>,
    pub stream: Option<Address>,
    pub author: Option<Identifier>,
    pub base: Topic,
    pub snapshots: Vec<(Vec<u8>, Vec<u8>)>,
    pub branches: Vec<(Topic, Vec<u8>, Vec<(Permissioned, usize)>)>,
    pub subscribers: Vec<Identifier>,
    pub psks: Vec<(Vec<u8>, Vec<u8>)>,
    pub lean: bool,
}

pub open spec fn pairs_v(v: Seq<(Vec<u8>, Vec<u8>)>) -> Seq<(Seq<u8>, Seq<u8>)> {
    v.map_values(|e: (Vec<u8>, Vec<u8>)| (e.0@, e.1@))
}

pub open spec fn branch_v(e: (Topic, Vec<u8>, Vec<(Permissioned, usize)>)) -> BranchRecord {
    BranchRecord { topic: e.0@, latest_link: e.1@, entries: entries_view(e.2@) }
}

pub open spec fn branches_v(v: Seq<(Topic, Vec<u8>, Vec<(Permissioned, usize)>)>) -> Seq<BranchRecord> {
    v.map_values(|e: (Topic, Vec<u8>, Vec<(Permissioned, usize)>)| branch_v(e))
}

pub open spec fn ids_v(v: Seq<Identifier>) -> Seq<IdentifierV> {
    v.map_values(|e: Identifier| e@)
}

impl View for Backup {
    type V = BackupV;

    open spec fn view(&self) -> BackupV {
        BackupV {
            user_id: opt_id_view(self.user_id),
            stream: opt_addr_view(self.stream),
            author: opt_id_view(self.author),
            base: self.base@,
            snapshots: pairs_v(self.snapshots@),
            branches: branches_v(self.branches@),
            subscribers: ids_v(self.subscribers@),
            psks: pairs_v(self.psks@),
            lean: self.lean,
        }
    }
}

fn put_pairs(out: &mut Vec<u8>, v: &Vec<(Vec<u8>, Vec<u8>)>)
    ensures
        final(out)@ == old(out)@ + enc_cpairs(pairs_v(v@)),
        v@.len() <= u64::MAX,
        forall|i: int| 0 <= i < v@.len() ==> fits_pair(#[trigger] pairs_v(v@)[i]),
{
    let ghost start = out@;
    put_u64(out, v.len() as u64);
    let ghost mid = out@;
    let mut i: usize = 0;
    while i < v.len()
        invariant
            0 <= i <= v@.len(),
            out@ == mid + enc_pairs(pairs_v(v@).subrange(0, i as int)),
            forall|j: int| 0 <= j < i ==> fits_pair(#[trigger] pairs_v(v@)[j]),
        decreases v@.len() - i,
    {
        put_pair(out, v[i].0.as_slice(), v[i].1.as_slice());
        proof {
            let xs = pairs_v(v@).subrange(0, i + 1);
            assert(xs.drop_last() =~= pairs_v(v@).subrange(0, i as int));
            assert(xs.last() == pairs_v(v@)[i as int]);
        }
        i = i + 1;
    }
    assert(pairs_v(v@).subrange(0, i as int) =~= pairs_v(v@));
    assert(out@ =~= old(out)@ + enc_u64(v@.len() as u64) + enc_pairs(pairs_v(v@)));
}

fn put_entries(out: &mut Vec<u8>, v: &Vec<(Permissioned, usize)>)
    ensures
        final(out)@ == old(out)@ + enc_u64(v@.len() as u64) + enc_entries(entries_view(v@)),
        v@.len() <= u64::MAX,
        forall|i: int| 0 <= i < v@.len() ==> fits_entry(#[trigger] entries_view(v@)[i]),
{
    put_u64(out, v.len() as u64);
    let ghost mid = out@;
    let mut i: usize = 0;
    while i < v.len()
        invariant
            0 <= i <= v@.len(),
            out@ == mid + enc_entries(entries_view(v@).subrange(0, i as int)),
            forall|j: int| 0 <= j < i ==> fits_entry(#[trigger] entries_view(v@)[j]),
        decreases v@.len() - i,
    {
        put_entry(out, &v[i].0, v[i].1);
        proof {
            let xs = entries_view(v@).subrange(0, i + 1);
            assert(xs.drop_last() =~= entries_view(v@).subrange(0, i as int));
            assert(xs.last() == entries_view(v@)[i as int]);
        }
        i = i + 1;
    }
    assert(entries_view(v@).subrange(0, i as int) =~= entries_view(v@));
}

fn put_branches(out: &mut Vec<u8>, v: &Vec<(Topic, Vec<u8>, Vec<(Permissioned, usize)>)>)
    ensures
        final(out)@ == old(out)@ + enc_cbranches(branches_v(v@)),
        v@.len() <= u64::MAX,
        forall|i: int| 0 <= i < v@.len() ==> fits_branch(#[trigger] branches_v(v@)[i]),
{
    put_u64(out, v.len() as u64);
    let ghost mid = out@;
    let mut i: usize = 0;
    while i < v.len()
        invariant
            0 <= i <= v@.len(),
            out@ == mid + enc_branches(branches_v(v@).subrange(0, i as int)),
            forall|j: int| 0 <= j < i ==> fits_branch(#[trigger] branches_v(v@)[j]),
        decreases v@.len() - i,
    {
        let ghost before = out@;
        put_topic(out, &v[i].0);
        put_chunk(out, v[i].1.as_slice());
        put_entries(out, &v[i].2);
        proof {
            let b = branches_v(v@)[i as int];
            assert(b == branch_v(v@[i as int]));
            assert(out@ =~= before + enc_branch(b));
            assert forall|j: int| 0 <= j < b.entries.len() implies fits_idb(#[trigger] b.entries[j].0.identifier()) by {
                assert(fits_entry(entries_view(v@[i as int].2@)[j]));
            }
            assert(fits_branch(b));
            let xs = branches_v(v@).subrange(0, i + 1);
            assert(xs.drop_last() =~= branches_v(v@).subrange(0, i as int));
            assert(xs.last() == b);
        }
        i = i + 1;
    }
    assert(branches_v(v@).subrange(0, i as int) =~= branches_v(v@));
    assert(out@ =~= old(out)@ + enc_u64(v@.len() as u64) + enc_branches(branches_v(v@)));
}

fn put_ids(out: &mut Vec<u8>, v: &Vec<Identifier>)
    ensures
        final(out)@ == old(out)@ + enc_cids(ids_v(v@)),
        v@.len() <= u64::MAX,
        forall|i: int| 0 <= i < v@.len() ==> fits_idb(#[trigger] ids_v(v@)[i]),
{
    put_u64(out, v.len() as u64);
    let ghost mid = out@;
    let mut i: usize = 0;
    while i < v.len()
        invariant
            0 <= i <= v@.len(),
            out@ == mid + enc_ids(ids_v(v@).subrange(0, i as int)),
            forall|j: int| 0 <= j < i ==> fits_idb(#[trigger] ids_v(v@)[j]),
        decreases v@.len() - i,
    {
        put_idb(out, &v[i]);
        proof {
            let xs = ids_v(v@).subrange(0, i + 1);
            assert(xs.drop_last() =~= ids_v(v@).subrange(0, i as int));
            assert(xs.last() == ids_v(v@)[i as int]);
        }
        i = i + 1;
    }
    assert(ids_v(v@).subrange(0, i as int) =~= ids_v(v@));
    assert(out@ =~= old(out)@ + enc_u64(v@.len() as u64) + enc_ids(ids_v(v@)));
}

/// The bytes that end a backup: its counted lists and its lean flag.
fn encode_tail(b: &Backup) -> (r: Vec<u8>)
    ensures
        r@ == enc_tail(tail_of(b@)),
        b@.snapshots.len() <= u64::MAX && b@.branches.len() <= u64::MAX,
        b@.subscribers.len() <= u64::MAX && b@.psks.len() <= u64::MAX,
        forall|i: int| 0 <= i < b@.snapshots.len() ==> fits_pair(#[trigger] b@.snapshots[i]),
        forall|i: int| 0 <= i < b@.branches.len() ==> fits_branch(#[trigger] b@.branches[i]),
        forall|i: int| 0 <= i < b@.subscribers.len() ==> fits_idb(#[trigger] b@.subscribers[i]),
        forall|i: int| 0 <= i < b@.psks.len() ==> fits_pair(#[trigger] b@.psks[i]),
{
    let mut out: Vec<u8> = Vec::new();
    put_pairs(&mut out, &b.snapshots);
    put_branches(&mut out, &b.branches);
    put_ids(&mut out, &b.subscribers);
    put_pairs(&mut out, &b.psks);
    put_byte(&mut out, if b.lean { 1u8 } else { 0u8 });
    proof {
        reveal(enc_tail);
        assert(out@ =~= enc_tail(tail_of(b@)));
    }
    out
}

/// The bytes of a backup.
pub fn encode_backup(b: &Backup) -> (r: Vec<u8>)
    ensures
        r@ == enc_state(b@),
        parse_layout(r@) == Some(b@),
{
    let tail = encode_tail(b);
    let mut out: Vec<u8> = Vec::new();
    put_opt_id(&mut out, &b.user_id);
    let ghost h1 = out@;
    put_opt_addr(&mut out, &b.stream);
    let ghost h2 = out@;
    put_opt_id(&mut out, &b.author);
    let ghost h3 = out@;
    put_topic(&mut out, &b.base);
    let ghost h4 = out@;
    put_slice(&mut out, tail.as_slice());
    proof {
        reveal(enc_state);
        let e1 = enc_opt_id(b@.user_id);
        let e2 = enc_opt_addr(b@.stream);
        let e3 = enc_opt_id(b@.author);
        let e4 = enc_topic(b@.base);
        let t = enc_tail(tail_of(b@));
        assert(h1 =~= e1);
        assert(h4 =~= e1 + e2 + e3 + e4);
        assert(e1 + e2 + e3 + e4 + t =~= e1 + (e2 + (e3 + (e4 + t))));
        assert(out@ =~= enc_state(b@));
        assert(fits_state(b@));
        lemma_state(b@);
    }
    out
}


fn get_cpairs(buf: &[u8], pos: usize) -> (r: Option<(Vec<(Vec<u8>, Vec<u8>)>, usize)>)
    requires
        pos <= buf@.len(),
    ensures
        r matches Some((x, p)) ==> pos <= p <= buf@.len() && parse_cpairs(from(buf@, pos as int)) == Some((pairs_v(x@), from(buf@, p as int))),
        r is None ==> parse_cpairs(from(buf@, pos as int)) is None,
{
    let (n, at0) = match get_u64(buf, pos) {
        Some(x) => x,
        None => return None,
    };
    let mut acc: Vec<(Vec<u8>, Vec<u8>)> = Vec::new();
    let mut p: usize = at0;
    let mut i: u64 = 0;
    proof {
        match parse_pairs(from(buf@, p as int), n as nat) {
            Some((ys, r)) => {
                assert(pairs_v(acc@) + ys =~= ys);
            },
            None => {},
        }
    }
    while i < n
        invariant
            pos <= at0 <= p <= buf@.len(),
            i <= n,
            parse_u64(from(buf@, pos as int)) == Some((n, from(buf@, at0 as int))),
            parse_pairs(from(buf@, at0 as int), n as nat) == match parse_pairs(from(buf@, p as int), (n - i) as nat) {
                Some((ys, r)) => Some((pairs_v(acc@) + ys, r)),
                None => None,
            },
        decreases n - i,
    {
        match get_pair(buf, p) {
            Some((x, at2)) => {
                let ghost old_acc = acc@;
                let ghost k = (n - i) as nat;
                let ghost xv = (x.0@, x.1@);
                acc.push(x);
                proof {
                    assert(pairs_v(acc@) =~= pairs_v(old_acc).push(xv));
                    match parse_pairs(from(buf@, at2 as int), (k - 1) as nat) {
                        Some((ys, r)) => {
                            assert(pairs_v(old_acc) + (seq![xv] + ys) =~= pairs_v(acc@) + ys);
                        },
                        None => {},
                    }
                }
                p = at2;
                i = i + 1;
            },
            None => {
                return None;
            },
        }
    }
    proof {
        assert(pairs_v(acc@) + Seq::empty() =~= pairs_v(acc@));
    }
    Some((acc, p))
}

fn get_centries(buf: &[u8], pos: usize) -> (r: Option<(Vec<(Permissioned, usize)>, usize)>)
    requires
        pos <= buf@.len(),
    ensures
        r matches Some((x, p)) ==> pos <= p <= buf@.len() && parse_centries(from(buf@, pos as int)) == Some((entries_view(x@), from(buf@, p as int))),
        r is None ==> parse_centries(from(buf@, pos as int)) is None,
{
    let (n, at0) = match get_u64(buf, pos) {
        Some(x) => x,
        None => return None,
    };
    let mut acc: Vec<(Permissioned, usize)> = Vec::new();
    let mut p: usize = at0;
    let mut i: u64 = 0;
    proof {
        match parse_entries(from(buf@, p as int), n as nat) {
            Some((ys, r)) => {
                assert(entries_view(acc@) + ys =~= ys);
            },
            None => {},
        }
    }
    while i < n
        invariant
            pos <= at0 <= p <= buf@.len(),
            i <= n,
            parse_u64(from(buf@, pos as int)) == Some((n, from(buf@, at0 as int))),
            parse_entries(from(buf@, at0 as int), n as nat) == match parse_entries(from(buf@, p as int), (n - i) as nat) {
                Some((ys, r)) => Some((entries_view(acc@) + ys, r)),
                None => None,
            },
        decreases n - i,
    {
        match get_entry(buf, p) {
            Some((x, at2)) => {
                let ghost old_acc = acc@;
                let ghost k = (n - i) as nat;
                let ghost xv = (x.0@, x.1);
                acc.push(x);
                proof {
                    assert(entries_view(acc@) =~= entries_view(old_acc).push(xv));
                    match parse_entries(from(buf@, at2 as int), (k - 1) as nat) {
                        Some((ys, r)) => {
                            assert(entries_view(old_acc) + (seq![xv] + ys) =~= entries_view(acc@) + ys);
                        },
                        None => {},
                    }
                }
                p = at2;
                i = i + 1;
            },
            None => {
                return None;
            },
        }
    }
    proof {
        assert(entries_view(acc@) + Seq::empty() =~= entries_view(acc@));
    }
    Some((acc, p))
}

fn get_cids(buf: &[u8], pos: usize) -> (r: Option<(Vec<Identifier>, usize)>)
    requires
        pos <= buf@.len(),
    ensures
        r matches Some((x, p)) ==> pos <= p <= buf@.len() && parse_cids(from(buf@, pos as int)) == Some((ids_v(x@), from(buf@, p as int))),
        r is None ==> parse_cids(from(buf@, pos as int)) is None,
{
    let (n, at0) = match get_u64(buf, pos) {
        Some(x) => x,
        None => return None,
    };
    let mut acc: Vec<Identifier> = Vec::new();
    let mut p: usize = at0;
    let mut i: u64 = 0;
    proof {
        match parse_ids(from(buf@, p as int), n as nat) {
            Some((ys, r)) => {
                assert(ids_v(acc@) + ys =~= ys);
            },
            None => {},
        }
    }
    while i < n
        invariant
            pos <= at0 <= p <= buf@.len(),
            i <= n,
            parse_u64(from(buf@, pos as int)) == Some((n, from(buf@, at0 as int))),
            parse_ids(from(buf@, at0 as int), n as nat) == match parse_ids(from(buf@, p as int), (n - i) as nat) {
                Some((ys, r)) => Some((ids_v(acc@) + ys, r)),
                None => None,
            },
        decreases n - i,
    {
        match get_idb(buf, p) {
            Some((x, at2)) => {
                let ghost old_acc = acc@;
                let ghost k = (n - i) as nat;
                let ghost xv = x@;
                acc.push(x);
                proof {
                    assert(ids_v(acc@) =~= ids_v(old_acc).push(xv));
                    match parse_ids(from(buf@, at2 as int), (k - 1) as nat) {
                        Some((ys, r)) => {
                            assert(ids_v(old_acc) + (seq![xv] + ys) =~= ids_v(acc@) + ys);
                        },
                        None => {},
                    }
                }
                p = at2;
                i = i + 1;
            },
            None => {
                return None;
            },
        }
    }
    proof {
        assert(ids_v(acc@) + Seq::empty() =~= ids_v(acc@));
    }
    Some((acc, p))
}

fn get_branch(buf: &[u8], pos: usize) -> (r: Option<((Topic, Vec<u8>, Vec<(Permissioned, usize)>), usize)>)
    requires
        pos <= buf@.len(),
    ensures
        r matches Some((x, p)) ==> pos <= p <= buf@.len() && parse_branch(from(buf@, pos as int)) == Some((branch_v(x), from(buf@, p as int))),
        r is None ==> parse_branch(from(buf@, pos as int)) is None,
{
    let (t, at1) = match get_topic(buf, pos) {
        Some(x) => x,
        None => return None,
    };
    let (l, at2) = match get_chunk(buf, at1) {
        Some(x) => x,
        None => return None,
    };
    let (es, at3) = match get_centries(buf, at2) {
        Some(x) => x,
        None => return None,
    };
    Some(((t, l, es), at3))
}

fn get_cbranches(buf: &[u8], pos: usize) -> (r: Option<(Vec<(Topic, Vec<u8>, Vec<(Permissioned, usize)>)>, usize)>)
    requires
        pos <= buf@.len(),
    ensures
        r matches Some((x, p)) ==> pos <= p <= buf@.len() && parse_cbranches(from(buf@, pos as int)) == Some((branches_v(x@), from(buf@, p as int))),
        r is None ==> parse_cbranches(from(buf@, pos as int)) is None,
{
    let (n, at0) = match get_u64(buf, pos) {
        Some(x) => x,
        None => return None,
    };
    let mut acc: Vec<(Topic, Vec<u8>, Vec<(Permissioned, usize)>)> = Vec::new();
    let mut p: usize = at0;
    let mut i: u64 = 0;
    proof {
        match parse_branches(from(buf@, p as int), n as nat) {
            Some((ys, r)) => {
                assert(branches_v(acc@) + ys =~= ys);
            },
            None => {},
        }
    }
    while i < n
        invariant
            pos <= at0 <= p <= buf@.len(),
            i <= n,
            parse_u64(from(buf@, pos as int)) == Some((n, from(buf@, at0 as int))),
            parse_branches(from(buf@, at0 as int), n as nat) == match parse_branches(from(buf@, p as int), (n - i) as nat) {
                Some((ys, r)) => Some((branches_v(acc@) + ys, r)),
                None => None,
            },
        decreases n - i,
    {
        match get_branch(buf, p) {
            Some((x, at2)) => {
                let ghost old_acc = acc@;
                let ghost k = (n - i) as nat;
                let ghost xv = branch_v(x);
                acc.push(x);
                proof {
                    assert(branches_v(acc@) =~= branches_v(old_acc).push(xv));
                    match parse_branches(from(buf@, at2 as int), (k - 1) as nat) {
                        Some((ys, r)) => {
                            assert(branches_v(old_acc) + (seq![xv] + ys) =~= branches_v(acc@) + ys);
                        },
                        None => {},
                    }
                }
                p = at2;
                i = i + 1;
            },
            None => {
                return None;
            },
        }
    }
    proof {
        assert(branches_v(acc@) + Seq::empty() =~= branches_v(acc@));
    }
    Some((acc, p))
}

/// Reads a backup's layout from `buf`; `None` exactly when the bytes do not follow it.
pub fn decode_backup(buf: &[u8]) -> (r: Option<Backup>)
    ensures
        r matches Some(b) ==> parse_layout(buf@) == Some(b@),
        r is None ==> parse_layout(buf@) is None,
{
    proof {
        assert(from(buf@, 0) =~= buf@);
        reveal(parse_tail);
        reveal(parse_layout);
    }
    let (user_id, at1) = match get_opt_id(buf, 0) {
        Some(x) => x,
        None => return None,
    };
    let (stream, at2) = match get_opt_addr(buf, at1) {
        Some(x) => x,
        None => return None,
    };
    let (author, at3) = match get_opt_id(buf, at2) {
        Some(x) => x,
        None => return None,
    };
    let (base, at4) = match get_topic(buf, at3) {
        Some(x) => x,
        None => return None,
    };
    let (snapshots, at5) = match get_cpairs(buf, at4) {
        Some(x) => x,
        None => return None,
    };
    let (branches, at6) = match get_cbranches(buf, at5) {
        Some(x) => x,
        None => return None,
    };
    let (subscribers, at7) = match get_cids(buf, at6) {
        Some(x) => x,
        None => return None,
    };
    let (psks, at8) = match get_cpairs(buf, at7) {
        Some(x) => x,
        None => return None,
    };
    let (l, at9) = match get_byte(buf, at8) {
        Some(x) => x,
        None => return None,
    };
    if at9 != buf.len() {
        return None;
    }
    let b = Backup { user_id, stream, author, base, snapshots, branches, subscribers, psks, lean: l == 1 };
    Some(b)
}

} // verus!

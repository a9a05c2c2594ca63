use vstd::prelude::*;

use crate::address::{MsgId, Topic, MSGID_LEN};
use crate::id::{Identifier, IdentifierV, Permissioned, PermissionedV};

verus! {

/// Mathematical value of one branch: the cursor of each permission and the latest link.
pub struct BranchV {
    pub cursors: Map<PermissionedV, usize>,
    pub latest_link: Seq<u8>,
}

/// No two permissions of a branch belong to the same identifier.
pub open spec fn ids_unique(m: Map<PermissionedV, usize>) -> bool {
    forall|p: PermissionedV, q: PermissionedV|
        #[trigger] m.contains_key(p) && #[trigger] m.contains_key(q) && p.identifier() == q.identifier() ==> p == q
}

/// Whether some permission of `m` belongs to `id`.
pub open spec fn has_id(m: Map<PermissionedV, usize>, id: IdentifierV) -> bool {
    exists|p: PermissionedV| #[trigger] m.contains_key(p) && p.identifier() == id
}

/// The permission of `m` that belongs to `id`, with its cursor, if any.
pub open spec fn entry_of(m: Map<PermissionedV, usize>, id: IdentifierV) -> Option<(PermissionedV, usize)> {
    if has_id(m, id) {
        let p = choose|p: PermissionedV| #[trigger] m.contains_key(p) && p.identifier() == id;
        Some((p, m[p]))
    } else {
        None
    }
}

/// With unique identifiers, a permission held in `m` is the entry of its identifier.
pub proof fn lemma_entry_at(m: Map<PermissionedV, usize>, p: PermissionedV)
    requires
        ids_unique(m),
        m.contains_key(p),
    ensures
        entry_of(m, p.identifier()) == Some((p, m[p])),
{
    assert(has_id(m, p.identifier()));
}

/// Binding an identifier to a permission other than the one it holds keeps its cursor,
/// whatever cursor the binding names.
pub proof fn lemma_rebind_keeps_cursor(
    m0: Map<PermissionedV, usize>,
    m1: Map<PermissionedV, usize>,
    perm: PermissionedV,
    cursor: usize,
    r: Option<usize>,
)
    requires
        insert_effect(m0, m1, perm, cursor, r),
        entry_of(m0, perm.identifier()) is Some,
        entry_of(m0, perm.identifier()).unwrap().0 != perm,
    ensures
        entry_of(m1, perm.identifier()) == Some((perm, entry_of(m0, perm.identifier()).unwrap().1)),
        r is None,
{
}

/// No two entries of a list belong to the same identifier.
pub open spec fn seq_ids_unique(s: Seq<(PermissionedV, usize)>) -> bool {
    forall|i: int, j: int|
        #![trigger s[i], s[j]]
        0 <= i < s.len() && 0 <= j < s.len() && i != j ==> s[i].0.identifier() != s[j].0.identifier()
}

/// Whether some entry of the list `s` belongs to `id`.
pub open spec fn seq_has_id(s: Seq<(PermissionedV, usize)>, id: IdentifierV) -> bool {
    exists|i: int| 0 <= i < s.len() && (#[trigger] s[i]).0.identifier() == id
}

/// The entry of the list `s` that belongs to `id`, if any.
pub open spec fn seq_entry_of(s: Seq<(PermissionedV, usize)>, id: IdentifierV) -> Option<(PermissionedV, usize)> {
    if seq_has_id(s, id) {
        Some(s[choose|i: int| 0 <= i < s.len() && (#[trigger] s[i]).0.identifier() == id])
    } else {
        None
    }
}

pub proof fn lemma_seq_entry_at(s: Seq<(PermissionedV, usize)>, k: int)
    requires
        seq_ids_unique(s),
        0 <= k < s.len(),
    ensures
        seq_entry_of(s, s[k].0.identifier()) == Some(s[k]),
{
    let id = s[k].0.identifier();
    assert(seq_has_id(s, id));
    let c = choose|i: int| 0 <= i < s.len() && (#[trigger] s[i]).0.identifier() == id;
    assert(c == k);
}

pub proof fn lemma_seq_no_entry(s: Seq<(PermissionedV, usize)>, id: IdentifierV)
    requires
        forall|i: int| 0 <= i < s.len() ==> (#[trigger] s[i]).0.identifier() != id,
    ensures
        seq_entry_of(s, id) is None,
{
}

pub proof fn lemma_seq_push_entry(s0: Seq<(PermissionedV, usize)>, e: (PermissionedV, usize))
    requires
        seq_ids_unique(s0),
        !seq_has_id(s0, e.0.identifier()),
    ensures
        seq_ids_unique(s0.push(e)),
        seq_entry_of(s0.push(e), e.0.identifier()) == Some(e),
        forall|other: IdentifierV|
            other != e.0.identifier() ==> #[trigger] seq_entry_of(s0.push(e), other) == seq_entry_of(s0, other),
{
    let s1 = s0.push(e);
    assert forall|i: int, j: int|
        #![trigger s1[i], s1[j]]
        0 <= i < s1.len() && 0 <= j < s1.len() && i != j implies s1[i].0.identifier()
        != s1[j].0.identifier() by {
        if i < s0.len() {
            assert(s1[i] == s0[i]);
        }
        if j < s0.len() {
            assert(s1[j] == s0[j]);
        }
    }
    lemma_seq_entry_at(s1, s0.len() as int);
    assert forall|other: IdentifierV| other != e.0.identifier() implies #[trigger] seq_entry_of(s1, other)
        == seq_entry_of(s0, other) by {
        if seq_has_id(s0, other) {
            let j = choose|i: int| 0 <= i < s0.len() && (#[trigger] s0[i]).0.identifier() == other;
            lemma_seq_entry_at(s0, j);
            assert(s1[j] == s0[j]);
            lemma_seq_entry_at(s1, j);
        } else {
            assert forall|i: int| 0 <= i < s1.len() implies (#[trigger] s1[i]).0.identifier() != other by {
                if i < s0.len() {
                    assert(s1[i] == s0[i]);
                }
            }
        }
    }
}

/// The list `s` names each entry of `m` once, and nothing else.
pub open spec fn lists(s: Seq<(PermissionedV, usize)>, m: Map<PermissionedV, usize>) -> bool {
    &&& forall|i: int| 0 <= i < s.len() ==> m.contains_key(#[trigger] s[i].0) && m[s[i].0] == s[i].1
    &&& forall|p: PermissionedV| #[trigger] m.contains_key(p) ==> exists|i: int| 0 <= i < s.len() && s[i].0 == p
    &&& forall|i: int, j: int| #![trigger s[i], s[j]] 0 <= i < s.len() && 0 <= j < s.len() && i != j ==> s[i].0 != s[j].0
}

/// A list and a branch that find the same entry for each identifier list the same entries.
pub proof fn lemma_lists_from_entries(s: Seq<(PermissionedV, usize)>, m: Map<PermissionedV, usize>)
    requires
        ids_unique(m),
        seq_ids_unique(s),
        forall|id: IdentifierV| #[trigger] entry_of(m, id) == seq_entry_of(s, id),
    ensures
        lists(s, m),
{
    assert forall|i: int| 0 <= i < s.len() implies m.contains_key(#[trigger] s[i].0) && m[s[i].0] == s[i].1 by {
        lemma_seq_entry_at(s, i);
        assert(entry_of(m, s[i].0.identifier()) == Some(s[i]));
    }
    assert forall|p: PermissionedV| #[trigger] m.contains_key(p) implies exists|i: int| 0 <= i < s.len() && s[i].0 == p by {
        lemma_entry_at(m, p);
        assert(seq_entry_of(s, p.identifier()) == Some((p, m[p])));
        let i = choose|i: int| 0 <= i < s.len() && (#[trigger] s[i]).0.identifier() == p.identifier();
        assert(s[i].0 == p);
    }
    assert forall|i: int, j: int| #![trigger s[i], s[j]] 0 <= i < s.len() && 0 <= j < s.len() && i != j implies s[i].0 != s[j].0 by {
        assert(s[i].0.identifier() != s[j].0.identifier());
    }
}

/// A list of the entries of a branch finds the same entry for each identifier.
pub proof fn lemma_listing(s: Seq<(PermissionedV, usize)>, m: Map<PermissionedV, usize>)
    requires
        lists(s, m),
        ids_unique(m),
    ensures
        seq_ids_unique(s),
        forall|id: IdentifierV| #[trigger] seq_entry_of(s, id) == entry_of(m, id),
{
    assert forall|i: int, j: int|
        #![trigger s[i], s[j]]
        0 <= i < s.len() && 0 <= j < s.len() && i != j implies s[i].0.identifier() != s[j].0.identifier() by {
        assert(m.contains_key(s[i].0) && m.contains_key(s[j].0));
    }
    assert forall|id: IdentifierV| #[trigger] seq_entry_of(s, id) == entry_of(m, id) by {
        if seq_has_id(s, id) {
            let i = choose|i: int| 0 <= i < s.len() && (#[trigger] s[i]).0.identifier() == id;
            lemma_seq_entry_at(s, i);
            assert(m.contains_key(s[i].0));
            lemma_entry_at(m, s[i].0);
        } else {
            assert forall|p: PermissionedV| #[trigger] m.contains_key(p) implies p.identifier() != id by {
                let i = choose|i: int| 0 <= i < s.len() && s[i].0 == p;
                assert(s[i].0.identifier() == p.identifier());
            }
        }
    }
}

pub open spec fn entries_view(v: Seq<(Permissioned, usize)>) -> Seq<(PermissionedV, usize)> {
    v.map_values(|e: (Permissioned, usize)| (e.0@, e.1))
}

/// The cursor of each permission of one branch.
#[verifier::external_body]
pub struct PermMap {
    inner: hashbrown::HashMap<Permissioned, usize>,
}

/// What a `PermMap` holds.
pub uninterp spec fn perm_map_contents(m: PermMap) -> Map<PermissionedV, usize>;

impl View for PermMap {
    type V = Map<PermissionedV, usize>;

    open spec fn view(&self) -> Map<PermissionedV, usize> {
        perm_map_contents(*self)
    }
}

impl PermMap {
    /// Relies on hashbrown::HashMap::new: an empty map.
    #[verifier::external_body]
    pub(crate) fn new() -> (r: PermMap)
        ensures
            r@.dom() == Set::<PermissionedV>::empty(),
    {
        PermMap { inner: hashbrown::HashMap::new() }
    }

    /// A copy. Relies on hashbrown's `Clone` for its maps, which clones each key and
    /// value, and on `Permissioned::clone`, which keeps the value.
    #[verifier::external_body]
    pub(crate) fn copy(&self) -> (r: PermMap)
        ensures
            r@ == perm_map_contents(*self),
    {
        PermMap { inner: self.inner.clone() }
    }

    /// Sets the cursor of `p`, returning the one it had. Relies on hashbrown::HashMap::insert,
    /// under `Permissioned`'s `==`, which holds exactly of equal values, and its `Hash`,
    /// which equal values share.
    #[verifier::external_body]
    pub(crate) fn insert(&mut self, p: Permissioned, c: usize) -> (r: Option<usize>)
        ensures
            perm_map_contents(*final(self)) == perm_map_contents(*old(self)).insert(p@, c),
            perm_map_contents(*old(self)).contains_key(p@) ==> r == Some(perm_map_contents(*old(self))[p@]),
            !perm_map_contents(*old(self)).contains_key(p@) ==> r is None,
    {
        self.inner.insert(p, c)
    }

    /// Removes `p`, returning its cursor. Relies on hashbrown::HashMap::remove.
    #[verifier::external_body]
    pub(crate) fn remove(&mut self, p: &Permissioned) -> (r: Option<usize>)
        ensures
            perm_map_contents(*final(self)) == perm_map_contents(*old(self)).remove(p@),
            perm_map_contents(*old(self)).contains_key(p@) ==> r == Some(perm_map_contents(*old(self))[p@]),
            !perm_map_contents(*old(self)).contains_key(p@) ==> r is None,
    {
        self.inner.remove(p)
    }

    /// Copies of the entries, each once, in the map's own order. Relies on
    /// hashbrown::HashMap::iter, which visits each entry once, and on `Permissioned::clone`.
    #[verifier::external_body]
    pub(crate) fn entries(&self) -> (r: Vec<(Permissioned, usize)>)
        ensures
            lists(entries_view(r@), perm_map_contents(*self)),
    {
        self.inner.iter().map(|(p, c)| (p.clone(), *c)).collect()
    }
}

/// The state of one branch: the cursor of each permissioned identifier and the branch's latest message.
pub struct InnerCursorStore {
    cursors: PermMap,
    latest_link: MsgId,
}

impl View for InnerCursorStore {
    type V = BranchV;

    closed spec fn view(&self) -> BranchV {
        BranchV { cursors: self.cursors@, latest_link: self.latest_link@ }
    }
}

impl Clone for InnerCursorStore {
    fn clone(&self) -> (r: InnerCursorStore)
        ensures
            r@ == self@,
    {
        InnerCursorStore { cursors: self.cursors.copy(), latest_link: self.latest_link.clone() }
    }
}

impl InnerCursorStore {
    pub open spec fn wf(&self) -> bool {
        ids_unique(self@.cursors)
    }

    /// A branch linked to `latest_link` that holds the entries of `es`, none of whose
    /// identifiers may repeat.
    pub fn from_entries(latest_link: MsgId, es: &Vec<(Permissioned, usize)>) -> (r: Option<InnerCursorStore>)
        ensures
            r matches Some(b) ==> b.wf() && b@.latest_link == latest_link@ && lists(entries_view(es@), b@.cursors)
                && seq_ids_unique(entries_view(es@)),
            r is None ==> !seq_ids_unique(entries_view(es@)),
    {
        let ghost s = entries_view(es@);
        let mut b = InnerCursorStore::new(latest_link);
        let mut i: usize = 0;
        while i < es.len()
            invariant
                b.wf(),
                0 <= i <= es@.len(),
                s == entries_view(es@),
                b@.latest_link == latest_link@,
                seq_ids_unique(s.subrange(0, i as int)),
                forall|id: IdentifierV| #[trigger] entry_of(b@.cursors, id) == seq_entry_of(s.subrange(0, i as int), id),
            decreases es@.len() - i,
        {
            let ghost p = s.subrange(0, i as int);
            let ghost x = s[i as int];
            proof {
                assert(x == (es@[i as int].0@, es@[i as int].1));
            }
            if b.get_permission(es[i].0.identifier()).is_some() {
                proof {
                    assert(seq_has_id(p, x.0.identifier()));
                    let j = choose|j: int| 0 <= j < p.len() && (#[trigger] p[j]).0.identifier() == x.0.identifier();
                    assert(s[j] == p[j] && j != i);
                }
                return None;
            }
            let ghost before = b@.cursors;
            let ins = b.insert_cursor(es[i].0.clone(), es[i].1);
            proof {
                assert(!seq_has_id(p, x.0.identifier()));
                lemma_seq_push_entry(p, x);
                assert(s.subrange(0, i + 1) =~= p.push(x));
            }
            i = i + 1;
        }
        proof {
            assert(s.subrange(0, i as int) =~= s);
            lemma_lists_from_entries(s, b@.cursors);
        }
        Some(b)
    }

    /// An empty branch whose latest link is `latest_link`.
    pub fn new(latest_link: MsgId) -> (r: InnerCursorStore)
        ensures
            r.wf(),
            r@.cursors.dom() == Set::<PermissionedV>::empty(),
            r@.latest_link == latest_link@,
    {
        InnerCursorStore { cursors: PermMap::new(), latest_link }
    }

    /// The entry that belongs to `id`.
    fn find(&self, id: &Identifier) -> (r: Option<(Permissioned, usize)>)
        requires
            self.wf(),
        ensures
            r matches Some(e) ==> entry_of(self@.cursors, id@) == Some((e.0@, e.1)),
            r is None ==> entry_of(self@.cursors, id@) is None,
    {
        let entries = self.cursors.entries();
        proof {
            lemma_listing(entries_view(entries@), self@.cursors);
        }
        let ghost s = entries_view(entries@);
        let mut i: usize = 0;
        while i < entries.len()
            invariant
                0 <= i <= entries@.len(),
                s == entries_view(entries@),
                seq_ids_unique(s),
                forall|x: IdentifierV| #[trigger] seq_entry_of(s, x) == entry_of(self@.cursors, x),
                forall|j: int| 0 <= j < i ==> (#[trigger] s[j]).0.identifier() != id@,
            decreases entries@.len() - i,
        {
            if entries[i].0.identifier().same(id) {
                proof {
                    lemma_seq_entry_at(s, i as int);
                }
                return Some((entries[i].0.clone(), entries[i].1));
            }
            i = i + 1;
        }
        proof {
            lemma_seq_no_entry(s, id@);
        }
        None
    }

    pub fn get_permission(&self, id: &Identifier) -> (r: Option<Permissioned>)
        requires
            self.wf(),
        ensures
            r matches Some(p) ==> entry_of(self@.cursors, id@) matches Some(e) && e.0 == p@,
            r is None ==> entry_of(self@.cursors, id@) is None,
    {
        match self.find(id) {
            Some((p, _)) => Some(p),
            None => None,
        }
    }

    pub fn get_cursor(&self, id: &Identifier) -> (r: Option<usize>)
        requires
            self.wf(),
        ensures
            r matches Some(c) ==> entry_of(self@.cursors, id@) matches Some(e) && e.1 == c,
            r is None ==> entry_of(self@.cursors, id@) is None,
    {
        match self.find(id) {
            Some((_, c)) => Some(c),
            None => None,
        }
    }

    /// Binds `perm` to a cursor. A new identifier gets `cursor`. An identifier already bound
    /// to `perm` moves to `cursor` and the old cursor is returned. An identifier bound to
    /// another permission is re-bound to `perm` and keeps its old cursor.
    pub fn insert_cursor(&mut self, perm: Permissioned, cursor: usize) -> (r: Option<usize>)
        requires
            old(self).wf(),
        ensures
            final(self).wf(),
            final(self)@.latest_link == old(self)@.latest_link,
            insert_effect(old(self)@.cursors, final(self)@.cursors, perm@, cursor, r),
    {
        let ghost m0 = self@.cursors;
        let ghost pv = perm@;
        match self.find(perm.identifier()) {
            Some((p, c)) => {
                let ghost pold = p@;
                proof {
                    let q = choose|q: PermissionedV| #[trigger] m0.contains_key(q) && q.identifier() == pv.identifier();
                    assert(q == pold && m0.contains_key(pold));
                }
                if p.same(&perm) {
                    self.cursors.insert(perm, cursor);
                    proof {
                        assert(self@.cursors =~= m0.remove(pold).insert(pv, cursor));
                        lemma_rebind(m0, pold, pv, cursor);
                    }
                    Some(c)
                } else {
                    self.cursors.remove(&p);
                    self.cursors.insert(perm, c);
                    proof {
                        lemma_rebind(m0, pold, pv, c);
                    }
                    None
                }
            },
            None => {
                self.cursors.insert(perm, cursor);
                proof {
                    lemma_add(m0, pv, cursor);
                }
                None
            },
        }
    }

    /// Removes the entry of `id`; tells whether there was one.
    pub fn remove(&mut self, id: &Identifier) -> (r: bool)
        requires
            old(self).wf(),
        ensures
            final(self).wf(),
            final(self)@.latest_link == old(self)@.latest_link,
            r == (entry_of(old(self)@.cursors, id@) is Some),
            entry_of(final(self)@.cursors, id@) is None,
            forall|other: IdentifierV|
                other != id@ ==> #[trigger] entry_of(final(self)@.cursors, other) == entry_of(
                    old(self)@.cursors,
                    other,
                ),
    {
        let ghost m0 = self@.cursors;
        match self.find(id) {
            Some((p, _)) => {
                proof {
                    let q = choose|q: PermissionedV| #[trigger] m0.contains_key(q) && q.identifier() == id@;
                    assert(q == p@ && m0.contains_key(p@));
                }
                self.cursors.remove(&p);
                proof {
                    lemma_drop(m0, p@);
                }
                true
            },
            None => false,
        }
    }

    pub fn set_latest_link(&mut self, latest_link: MsgId)
        ensures
            final(self)@.latest_link == latest_link@,
            final(self)@.cursors == old(self)@.cursors,
    {
        self.latest_link = latest_link;
    }

    pub fn latest_link(&self) -> (r: MsgId)
        ensures
            r@ == self@.latest_link,
    {
        self.latest_link.clone()
    }

    /// A copy of the branch's entries, each once, in no particular order.
    pub fn entries(&self) -> (r: Vec<(Permissioned, usize)>)
        requires
            self.wf(),
        ensures
            lists(entries_view(r@), self@.cursors),
            seq_ids_unique(entries_view(r@)),
            forall|id: IdentifierV| #[trigger] seq_entry_of(entries_view(r@), id) == entry_of(self@.cursors, id),
    {
        let r = self.cursors.entries();
        proof {
            lemma_listing(entries_view(r@), self@.cursors);
        }
        r
    }
}

/// What `insert_cursor` does to a branch's entries and what it returns.
pub open spec fn insert_effect(
    m0: Map<PermissionedV, usize>,
    m1: Map<PermissionedV, usize>,
    perm: PermissionedV,
    cursor: usize,
    r: Option<usize>,
) -> bool {
    let id = perm.identifier();
    &&& match entry_of(m0, id) {
        Some(e) => if e.0 == perm {
            entry_of(m1, id) == Some((perm, cursor)) && r == Some(e.1)
        } else {
            entry_of(m1, id) == Some((perm, e.1)) && r is None
        },
        None => entry_of(m1, id) == Some((perm, cursor)) && r is None,
    }
    &&& forall|other: IdentifierV| other != id ==> #[trigger] entry_of(m1, other) == entry_of(m0, other)
}

/// Replacing the permission `old_p` by `p` of the same identifier, at cursor `c`.
proof fn lemma_rebind(m0: Map<PermissionedV, usize>, old_p: PermissionedV, p: PermissionedV, c: usize)
    requires
        ids_unique(m0),
        m0.contains_key(old_p),
        old_p.identifier() == p.identifier(),
    ensures
        ids_unique(m0.remove(old_p).insert(p, c)),
        entry_of(m0.remove(old_p).insert(p, c), p.identifier()) == Some((p, c)),
        forall|other: IdentifierV|
            other != p.identifier() ==> #[trigger] entry_of(m0.remove(old_p).insert(p, c), other) == entry_of(m0, other),
{
    let m1 = m0.remove(old_p).insert(p, c);
    assert forall|a: PermissionedV, b: PermissionedV|
        #[trigger] m1.contains_key(a) && #[trigger] m1.contains_key(b) && a.identifier() == b.identifier() implies a == b by {
        if a != p && b != p {
            assert(m0.contains_key(a) && m0.contains_key(b));
        } else if a != p {
            assert(m0.contains_key(a) && a.identifier() == old_p.identifier());
            assert(a == old_p);
        } else if b != p {
            assert(m0.contains_key(b) && b.identifier() == old_p.identifier());
            assert(b == old_p);
        }
    }
    lemma_entry_at(m1, p);
    assert forall|other: IdentifierV| other != p.identifier() implies #[trigger] entry_of(m1, other) == entry_of(m0, other) by {
        if has_id(m0, other) {
            let q = choose|q: PermissionedV| #[trigger] m0.contains_key(q) && q.identifier() == other;
            lemma_entry_at(m0, q);
            assert(q != old_p && q != p);
            assert(m1.contains_key(q) && m1[q] == m0[q]);
            lemma_entry_at(m1, q);
        } else {
            assert forall|q: PermissionedV| #[trigger] m1.contains_key(q) implies q.identifier() != other by {
                if q != p {
                    assert(m0.contains_key(q));
                }
            }
        }
    }
}

/// Adding permission `p`, whose identifier has no entry, at cursor `c`.
proof fn lemma_add(m0: Map<PermissionedV, usize>, p: PermissionedV, c: usize)
    requires
        ids_unique(m0),
        entry_of(m0, p.identifier()) is None,
    ensures
        ids_unique(m0.insert(p, c)),
        entry_of(m0.insert(p, c), p.identifier()) == Some((p, c)),
        forall|other: IdentifierV| other != p.identifier() ==> #[trigger] entry_of(m0.insert(p, c), other) == entry_of(m0, other),
{
    let m1 = m0.insert(p, c);
    assert(!m0.contains_key(p));
    assert forall|a: PermissionedV, b: PermissionedV|
        #[trigger] m1.contains_key(a) && #[trigger] m1.contains_key(b) && a.identifier() == b.identifier() implies a == b by {
        if a != p && b != p {
            assert(m0.contains_key(a) && m0.contains_key(b));
        } else if a != p {
            assert(m0.contains_key(a));
        } else if b != p {
            assert(m0.contains_key(b));
        }
    }
    lemma_entry_at(m1, p);
    assert forall|other: IdentifierV| other != p.identifier() implies #[trigger] entry_of(m1, other) == entry_of(m0, other) by {
        if has_id(m0, other) {
            let q = choose|q: PermissionedV| #[trigger] m0.contains_key(q) && q.identifier() == other;
            lemma_entry_at(m0, q);
            assert(m1.contains_key(q) && m1[q] == m0[q]);
            lemma_entry_at(m1, q);
        } else {
            assert forall|q: PermissionedV| #[trigger] m1.contains_key(q) implies q.identifier() != other by {
                if q != p {
                    assert(m0.contains_key(q));
                }
            }
        }
    }
}

/// Dropping permission `p` from the branch.
proof fn lemma_drop(m0: Map<PermissionedV, usize>, p: PermissionedV)
    requires
        ids_unique(m0),
        m0.contains_key(p),
    ensures
        ids_unique(m0.remove(p)),
        entry_of(m0.remove(p), p.identifier()) is None,
        forall|other: IdentifierV| other != p.identifier() ==> #[trigger] entry_of(m0.remove(p), other) == entry_of(m0, other),
{
    let m1 = m0.remove(p);
    assert forall|a: PermissionedV, b: PermissionedV|
        #[trigger] m1.contains_key(a) && #[trigger] m1.contains_key(b) && a.identifier() == b.identifier() implies a == b by {
        assert(m0.contains_key(a) && m0.contains_key(b));
    }
    assert forall|q: PermissionedV| #[trigger] m1.contains_key(q) implies q.identifier() != p.identifier() by {
        assert(m0.contains_key(q));
    }
    assert forall|other: IdentifierV| other != p.identifier() implies #[trigger] entry_of(m1, other) == entry_of(m0, other) by {
        if has_id(m0, other) {
            let q = choose|q: PermissionedV| #[trigger] m0.contains_key(q) && q.identifier() == other;
            lemma_entry_at(m0, q);
            assert(m1.contains_key(q) && m1[q] == m0[q]);
            lemma_entry_at(m1, q);
        } else {
            assert forall|q: PermissionedV| #[trigger] m1.contains_key(q) implies q.identifier() != other by {
                assert(m0.contains_key(q));
            }
        }
    }
}

/// The branch named `t` in `m`, if any.
pub open spec fn branch_of(m: Map<Seq<char>, BranchV>, t: Seq<char>) -> Option<BranchV> {
    if m.contains_key(t) {
        Some(m[t])
    } else {
        None
    }
}

/// The entry of `id` in branch `t` of `m`.
pub open spec fn store_entry(m: Map<Seq<char>, BranchV>, t: Seq<char>, id: IdentifierV) -> Option<(PermissionedV, usize)> {
    match branch_of(m, t) {
        Some(b) => entry_of(b.cursors, id),
        None => None,
    }
}

/// Branches by topic.
#[verifier::external_body]
pub struct BranchMap {
    inner: hashbrown::HashMap<Topic, InnerCursorStore>,
}

/// What a `BranchMap` holds: the value of each branch by topic.
pub uninterp spec fn branch_map_contents(m: BranchMap) -> Map<Seq<char>, BranchV>;

impl View for BranchMap {
    type V = Map<Seq<char>, BranchV>;

    open spec fn view(&self) -> Map<Seq<char>, BranchV> {
        branch_map_contents(*self)
    }
}

impl BranchMap {
    /// Relies on hashbrown::HashMap::new: an empty map.
    #[verifier::external_body]
    pub(crate) fn new() -> (r: BranchMap)
        ensures
            r@.dom() == Set::<Seq<char>>::empty(),
    {
        BranchMap { inner: hashbrown::HashMap::new() }
    }

    /// A copy of the branch named `t`. Relies on hashbrown::HashMap::get, under `Topic`'s
    /// `==` and `Hash`, which both go by the name, and on `InnerCursorStore::clone`.
    #[verifier::external_body]
    pub(crate) fn get(&self, t: &Topic) -> (r: Option<InnerCursorStore>)
        ensures
            r matches Some(b) ==> branch_map_contents(*self).contains_key(t@) && branch_map_contents(*self)[t@] == b@,
            r is None ==> !branch_map_contents(*self).contains_key(t@),
    {
        self.inner.get(t).cloned()
    }

    /// Stores branch `b` under `t`; tells whether the topic was new. Relies on
    /// hashbrown::HashMap::insert, which returns `None` exactly when the key was absent.
    #[verifier::external_body]
    pub(crate) fn insert(&mut self, t: Topic, b: InnerCursorStore) -> (r: bool)
        ensures
            branch_map_contents(*final(self)) == branch_map_contents(*old(self)).insert(t@, b@),
            r == !branch_map_contents(*old(self)).contains_key(t@),
    {
        self.inner.insert(t, b).is_none()
    }

    /// Copies of the topics, each once, in the map's own order. Relies on
    /// hashbrown::HashMap::keys, which visits each key once, and on `Topic::clone`.
    #[verifier::external_body]
    pub(crate) fn keys(&self) -> (r: Vec<Topic>)
        ensures
            forall|i: int| 0 <= i < r@.len() ==> branch_map_contents(*self).contains_key(#[trigger] r@[i]@),
            forall|t: Seq<char>| #[trigger] branch_map_contents(*self).contains_key(t) ==> names_topic(r@, t),
            forall|i: int, j: int| 0 <= i < r@.len() && 0 <= j < r@.len() && i != j ==> #[trigger] r@[i]@ != #[trigger] r@[j]@,
    {
        self.inner.keys().cloned().collect()
    }
}

/// Whether one of the topics of `v` is named `t`.
pub open spec fn names_topic(v: Seq<Topic>, t: Seq<char>) -> bool {
    exists|i: int| 0 <= i < v.len() && (#[trigger] v[i])@ == t
}

/// Whether one of the first `n` topics of `v` is named `t`.
pub open spec fn seen(v: Seq<Topic>, n: int, t: Seq<char>) -> bool {
    exists|i: int| 0 <= i < n && (#[trigger] v[i])@ == t
}

/// Branches by topic, each holding the cursors of the identifiers that may publish on it.
pub struct CursorStore {
    branches: BranchMap,
}

impl View for CursorStore {
    type V = Map<Seq<char>, BranchV>;

    closed spec fn view(&self) -> Map<Seq<char>, BranchV> {
        self.branches@
    }
}

/// A well-formed store holds at most one entry per identifier on each branch.
pub proof fn lemma_one_entry_per_identifier(store: &CursorStore, t: Seq<char>)
    requires
        store.wf(),
        store.branch(t) is Some,
    ensures
        ids_unique(store.branch(t).unwrap().cursors),
{
}

impl CursorStore {
    /// No branch holds two entries for one identifier.
    pub open spec fn wf(&self) -> bool {
        forall|t: Seq<char>| #[trigger] self@.contains_key(t) ==> ids_unique(self@[t].cursors)
    }

    pub open spec fn branch(&self, t: Seq<char>) -> Option<BranchV> {
        branch_of(self@, t)
    }

    pub open spec fn entry(&self, t: Seq<char>, id: IdentifierV) -> Option<(PermissionedV, usize)> {
        store_entry(self@, t, id)
    }

    pub fn new() -> (r: CursorStore)
        ensures
            r.wf(),
            forall|t: Seq<char>| #[trigger] r.branch(t) is None,
    {
        CursorStore { branches: BranchMap::new() }
    }

    /// A copy of branch `topic`.
    fn get_branch(&self, topic: &Topic) -> (r: Option<InnerCursorStore>)
        requires
            self.wf(),
        ensures
            r matches Some(b) ==> self.branch(topic@) == Some(b@) && b.wf(),
            r is None ==> self.branch(topic@) is None,
    {
        self.branches.get(topic)
    }

    /// Stores branch `b` under `topic`.
    pub(crate) fn put_branch(&mut self, topic: Topic, b: InnerCursorStore)
        requires
            old(self).wf(),
            b.wf(),
        ensures
            final(self).wf(),
            final(self)@ == old(self)@.insert(topic@, b@),
            final(self).branch(topic@) == Some(b@),
            forall|t: Seq<char>| t != topic@ ==> #[trigger] final(self).branch(t) == old(self).branch(t),
    {
        let ghost tv = topic@;
        let ghost bv = b@;
        self.branches.insert(topic, b);
        assert(self@ == old(self)@.insert(tv, bv));
    }

    /// Sets branch `topic` to an empty branch; tells whether the topic was new.
    pub fn new_branch(&mut self, topic: Topic) -> (r: bool)
        requires
            old(self).wf(),
        ensures
            final(self).wf(),
            r == (old(self).branch(topic@) is None),
            final(self).branch(topic@) matches Some(b) && b.cursors.dom() == Set::<PermissionedV>::empty() && b.latest_link
                == Seq::new(MSGID_LEN as nat, |i: int| 0u8),
            forall|t: Seq<char>| t != topic@ ==> #[trigger] final(self).branch(t) == old(self).branch(t),
    {
        let r = self.branches.get(&topic).is_none();
        self.put_branch(topic, InnerCursorStore::new(MsgId::default()));
        r
    }

    pub fn get_permission(&self, topic: &Topic, id: &Identifier) -> (r: Option<Permissioned>)
        requires
            self.wf(),
        ensures
            r matches Some(p) ==> self.entry(topic@, id@) matches Some(e) && e.0 == p@,
            r is None ==> self.entry(topic@, id@) is None,
    {
        match self.get_branch(topic) {
            Some(b) => match b.get_permission(id) {
                Some(p) => Some(p.clone()),
                None => None,
            },
            None => None,
        }
    }

    pub fn get_cursor(&self, topic: &Topic, id: &Identifier) -> (r: Option<usize>)
        requires
            self.wf(),
        ensures
            r matches Some(c) ==> self.entry(topic@, id@) matches Some(e) && e.1 == c,
            r is None ==> self.entry(topic@, id@) is None,
    {
        match self.get_branch(topic) {
            Some(b) => b.get_cursor(id),
            None => None,
        }
    }

    /// Binds `perm` to a cursor in branch `topic`, as `InnerCursorStore::insert_cursor` does.
    /// Without such a branch nothing changes.
    pub fn insert_cursor(&mut self, topic: &Topic, perm: Permissioned, cursor: usize) -> (r: Option<usize>)
        requires
            old(self).wf(),
        ensures
            final(self).wf(),
            old(self).branch(topic@) is None ==> final(self)@ == old(self)@ && r is None,
            old(self).branch(topic@) matches Some(b0) ==> final(self).branch(topic@) matches Some(b1)
                && b1.latest_link == b0.latest_link && insert_effect(b0.cursors, b1.cursors, perm@, cursor, r),
            forall|t: Seq<char>| t != topic@ ==> #[trigger] final(self).branch(t) == old(self).branch(t),
    {
        match self.get_branch(topic) {
            Some(b) => {
                let mut b = b;
                let r = b.insert_cursor(perm, cursor);
                self.put_branch(topic.clone(), b);
                r
            },
            None => None,
        }
    }

    /// Removes the entries of `id` from every branch; tells whether any was removed.
    pub fn remove(&mut self, id: &Identifier) -> (r: bool)
        requires
            old(self).wf(),
        ensures
            final(self).wf(),
            r == exists|t: Seq<char>| #[trigger] store_entry(old(self)@, t, id@) is Some,
            forall|t: Seq<char>| #[trigger] store_entry(final(self)@, t, id@) is None,
            forall|t: Seq<char>, other: IdentifierV|
                other != id@ ==> #[trigger] store_entry(final(self)@, t, other) == store_entry(old(self)@, t, other),
            forall|t: Seq<char>| (#[trigger] final(self).branch(t) is Some) == (old(self).branch(t) is Some),
            forall|t: Seq<char>|
                #[trigger] final(self).branch(t) matches Some(b) ==> b.latest_link == old(
                    self,
                ).branch(t).unwrap().latest_link,
    {
        let ghost m0 = self@;
        let keys = self.branches.keys();
        let mut found = false;
        let mut i: usize = 0;
        while i < keys.len()
            invariant
                self.wf(),
                0 <= i <= keys@.len(),
                self@.dom() == m0.dom(),
                forall|j: int| 0 <= j < keys@.len() ==> m0.contains_key(#[trigger] keys@[j]@),
                forall|t: Seq<char>| #[trigger] m0.contains_key(t) ==> names_topic(keys@, t),
                forall|a: int, b: int| 0 <= a < keys@.len() && 0 <= b < keys@.len() && a != b ==> #[trigger] keys@[a]@ != #[trigger] keys@[b]@,
                forall|t: Seq<char>| #[trigger] m0.contains_key(t) && !seen(keys@, i as int, t) ==> self@[t] == m0[t],
                forall|t: Seq<char>| #[trigger] m0.contains_key(t) && seen(keys@, i as int, t) ==> {
                    &&& self@[t].latest_link == m0[t].latest_link
                    &&& entry_of(self@[t].cursors, id@) is None
                    &&& forall|other: IdentifierV| other != id@ ==> #[trigger] entry_of(self@[t].cursors, other) == entry_of(m0[t].cursors, other)
                },
                found == exists|t: Seq<char>| #[trigger] m0.contains_key(t) && seen(keys@, i as int, t) && entry_of(m0[t].cursors, id@) is Some,
            decreases keys@.len() - i,
        {
            let ghost t = keys@[i as int]@;
            proof {
                assert(m0.contains_key(t));
                assert forall|j: int| 0 <= j < i implies (#[trigger] keys@[j])@ != t by {}
                assert(!seen(keys@, i as int, t));
            }
            let ghost before = self@;
            let mut b = match self.get_branch(&keys[i]) {
                Some(b) => b,
                None => {
                    i = i + 1;
                    continue;
                },
            };
            let removed = b.remove(id);
            self.put_branch(keys[i].clone(), b);
            proof {
                assert forall|t2: Seq<char>| #[trigger] m0.contains_key(t2) && !seen(keys@, i + 1, t2) implies self@[t2] == m0[t2] by {
                    assert(t2 != t);
                    assert(!seen(keys@, i as int, t2));
                }
                assert forall|t2: Seq<char>| #[trigger] m0.contains_key(t2) && seen(keys@, i + 1, t2) implies {
                    &&& self@[t2].latest_link == m0[t2].latest_link
                    &&& entry_of(self@[t2].cursors, id@) is None
                    &&& forall|other: IdentifierV| other != id@ ==> #[trigger] entry_of(self@[t2].cursors, other) == entry_of(m0[t2].cursors, other)
                } by {
                    if t2 != t {
                        let j = choose|j: int| 0 <= j < i + 1 && (#[trigger] keys@[j])@ == t2;
                        assert(seen(keys@, i as int, t2));
                        assert(self@[t2] == before[t2]);
                    }
                }
                if removed {
                    assert(m0.contains_key(t) && seen(keys@, i + 1, t) && entry_of(m0[t].cursors, id@) is Some);
                }
                if found {
                    let t3 = choose|t3: Seq<char>| #[trigger] m0.contains_key(t3) && seen(keys@, i as int, t3) && entry_of(m0[t3].cursors, id@) is Some;
                    let j = choose|j: int| 0 <= j < i && (#[trigger] keys@[j])@ == t3;
                    assert(seen(keys@, i + 1, t3));
                }
                if !found && !removed {
                    assert forall|t3: Seq<char>| #[trigger] m0.contains_key(t3) && seen(keys@, i + 1, t3) implies entry_of(m0[t3].cursors, id@) is None by {
                        if t3 != t {
                            let j = choose|j: int| 0 <= j < i + 1 && (#[trigger] keys@[j])@ == t3;
                            assert(seen(keys@, i as int, t3));
                        }
                    }
                }
            }
            found = found || removed;
            i = i + 1;
        }
        proof {
            assert forall|t: Seq<char>| #[trigger] m0.contains_key(t) implies seen(keys@, i as int, t) by {
                assert(names_topic(keys@, t));
            }
            assert forall|t: Seq<char>, other: IdentifierV| other != id@ implies #[trigger] store_entry(self@, t, other)
                == store_entry(m0, t, other) by {
                if m0.contains_key(t) {
                    assert(seen(keys@, i as int, t));
                }
            }
            assert forall|t: Seq<char>| #[trigger] store_entry(self@, t, id@) is None by {
                if m0.contains_key(t) {
                    assert(seen(keys@, i as int, t));
                }
            }
            if found {
                let t = choose|t: Seq<char>| #[trigger] m0.contains_key(t) && seen(keys@, i as int, t) && entry_of(m0[t].cursors, id@) is Some;
                assert(store_entry(m0, t, id@) is Some);
            } else {
                assert forall|t: Seq<char>| !(#[trigger] store_entry(m0, t, id@) is Some) by {
                    if m0.contains_key(t) {
                        assert(seen(keys@, i as int, t));
                    }
                }
            }
        }
        found
    }

    /// Sets the latest link of branch `topic`, creating the branch without entries if it is new.
    pub fn set_latest_link(&mut self, topic: Topic, latest_link: MsgId)
        requires
            old(self).wf(),
        ensures
            final(self).wf(),
            final(self).branch(topic@) matches Some(b) && b.latest_link == latest_link@ && (old(self).branch(
                topic@,
            ) matches Some(b0) ==> b.cursors == b0.cursors) && (old(self).branch(topic@) is None
                ==> b.cursors.dom() == Set::<PermissionedV>::empty()),
            forall|t: Seq<char>| t != topic@ ==> #[trigger] final(self).branch(t) == old(self).branch(t),
    {
        match self.get_branch(&topic) {
            Some(b) => {
                let mut b = b;
                b.set_latest_link(latest_link);
                self.put_branch(topic, b);
            },
            None => {
                self.put_branch(topic, InnerCursorStore::new(latest_link));
            },
        }
    }

    pub fn get_latest_link(&self, topic: &Topic) -> (r: Option<MsgId>)
        requires
            self.wf(),
        ensures
            r matches Some(l) ==> self.branch(topic@) matches Some(b) && b.latest_link == l@,
            r is None ==> self.branch(topic@) is None,
    {
        match self.get_branch(topic) {
            Some(b) => Some(b.latest_link()),
            None => None,
        }
    }

    /// The entries of branch `topic`, each once, in no particular order.
    pub fn cursors_by_topic(&self, topic: &Topic) -> (r: Option<Vec<(Permissioned, usize)>>)
        requires
            self.wf(),
        ensures
            r matches Some(v) ==> self.branch(topic@) matches Some(b) && lists(entries_view(v@), b.cursors)
                && seq_ids_unique(entries_view(v@)) && forall|id: IdentifierV| #[trigger] seq_entry_of(entries_view(v@), id) == entry_of(b.cursors, id),
            r is None ==> self.branch(topic@) is None,
    {
        match self.get_branch(topic) {
            Some(b) => Some(b.entries()),
            None => None,
        }
    }

    /// Every entry of every branch, with its topic.
    pub fn cursors(&self) -> (r: Vec<(Topic, Permissioned, usize)>)
        requires
            self.wf(),
        ensures
            forall|i: int| 0 <= i < r@.len() ==> #[trigger] store_entry(self@, r@[i].0@, r@[i].1@.identifier()) == Some(
                (r@[i].1@, r@[i].2),
            ),
            forall|t: Seq<char>, id: IdentifierV| #[trigger] store_entry(self@, t, id) is Some ==> exists|i: int|
                0 <= i < r@.len() && r@[i].0@ == t && r@[i].1@.identifier() == id,
    {
        let keys = self.branches.keys();
        let mut r: Vec<(Topic, Permissioned, usize)> = Vec::new();
        let mut i: usize = 0;
        while i < keys.len()
            invariant
                self.wf(),
                0 <= i <= keys@.len(),
                forall|j: int| 0 <= j < keys@.len() ==> self@.contains_key(#[trigger] keys@[j]@),
                forall|t: Seq<char>| #[trigger] self@.contains_key(t) ==> names_topic(keys@, t),
                forall|m: int| 0 <= m < r@.len() ==> #[trigger] store_entry(self@, r@[m].0@, r@[m].1@.identifier()) == Some(
                    (r@[m].1@, r@[m].2),
                ),
                forall|j: int, id: IdentifierV| 0 <= j < i && #[trigger] entry_of(self@[keys@[j]@].cursors, id) is Some ==> exists|m: int|
                    0 <= m < r@.len() && r@[m].0@ == keys@[j]@ && r@[m].1@.identifier() == id,
            decreases keys@.len() - i,
        {
            let ghost t = keys@[i as int]@;
            proof {
                assert(self@.contains_key(t));
            }
            let entries = match self.cursors_by_topic(&keys[i]) {
                Some(v) => v,
                None => Vec::new(),
            };
            let ghost ev = entries_view(entries@);
            let ghost r0 = r@;
            let mut j: usize = 0;
            while j < entries.len()
                invariant
                    self.wf(),
                    0 <= i < keys@.len(),
                    t == keys@[i as int]@,
                    self@.contains_key(t),
                    0 <= j <= entries@.len(),
                    ev == entries_view(entries@),
                    seq_ids_unique(ev),
                    forall|id: IdentifierV| #[trigger] seq_entry_of(ev, id) == entry_of(self@[t].cursors, id),
                    r0.len() <= r@.len(),
                    forall|m: int| 0 <= m < r0.len() ==> r@[m] == r0[m],
                    forall|m: int| 0 <= m < r@.len() ==> #[trigger] store_entry(self@, r@[m].0@, r@[m].1@.identifier()) == Some(
                        (r@[m].1@, r@[m].2),
                    ),
                    forall|m: int| 0 <= m < j ==> exists|n: int|
                        0 <= n < r@.len() && r@[n].0@ == t && r@[n].1@.identifier() == (#[trigger] ev[m]).0.identifier(),
                decreases entries@.len() - j,
            {
                proof {
                    lemma_seq_entry_at(ev, j as int);
                    assert(entry_of(self@[t].cursors, ev[j as int].0.identifier()) == Some(ev[j as int]));
                }
                let ghost before = r@;
                r.push((keys[i].clone(), entries[j].0.clone(), entries[j].1));
                proof {
                    assert forall|m: int| 0 <= m < r@.len() implies #[trigger] store_entry(self@, r@[m].0@, r@[m].1@.identifier())
                        == Some((r@[m].1@, r@[m].2)) by {
                        if m < before.len() {
                            assert(r@[m] == before[m]);
                        }
                    }
                    assert forall|m: int| 0 <= m < j + 1 implies exists|n: int|
                        0 <= n < r@.len() && r@[n].0@ == t && r@[n].1@.identifier() == (#[trigger] ev[m]).0.identifier() by {
                        if m < j {
                            let n = choose|n: int|
                                0 <= n < before.len() && before[n].0@ == t && before[n].1@.identifier() == ev[m].0.identifier();
                            assert(r@[n] == before[n]);
                        } else {
                            assert(r@[before.len() as int].1@.identifier() == ev[m].0.identifier());
                        }
                    }
                }
                j = j + 1;
            }
            proof {
                assert forall|jj: int, id: IdentifierV| 0 <= jj < i + 1 && #[trigger] entry_of(self@[keys@[jj]@].cursors, id) is Some implies exists|m: int|
                    0 <= m < r@.len() && r@[m].0@ == keys@[jj]@ && r@[m].1@.identifier() == id by {
                    if jj < i {
                        let m = choose|m: int| 0 <= m < r0.len() && r0[m].0@ == keys@[jj]@ && r0[m].1@.identifier() == id;
                        assert(r@[m] == r0[m]);
                    } else {
                        assert(seq_entry_of(ev, id) is Some);
                        let k = choose|k: int| 0 <= k < ev.len() && (#[trigger] ev[k]).0.identifier() == id;
                        assert(ev[k].0.identifier() == id);
                    }
                }
            }
            i = i + 1;
        }
        proof {
            assert forall|t: Seq<char>, id: IdentifierV| #[trigger] store_entry(self@, t, id) is Some implies exists|m: int|
                0 <= m < r@.len() && r@[m].0@ == t && r@[m].1@.identifier() == id by {
                assert(names_topic(keys@, t));
                let jj = choose|jj: int| 0 <= jj < keys@.len() && (#[trigger] keys@[jj])@ == t;
                assert(entry_of(self@[keys@[jj]@].cursors, id) is Some);
            }
        }
        r
    }

    /// The topics of all branches, each once.
    pub fn topics(&self) -> (r: Vec<Topic>)
        ensures
            forall|i: int| 0 <= i < r@.len() ==> self@.contains_key(#[trigger] r@[i]@),
            forall|t: Seq<char>| #[trigger] self@.contains_key(t) ==> names_topic(r@, t),
    {
        self.branches.keys()
    }
}

} // verus!

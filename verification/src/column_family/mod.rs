//! Column families: several logically isolated keyspaces inside one database.
//!
//! A column family is a key-prefix namespace on top of the single engine:
//! every user key is wrapped in a 4-byte big-endian `cf_id` prefix before the
//! engine sees it. Distinct ids produce disjoint ranges of keys, so the
//! families are isolated, and writes that touch several are atomic because
//! they are one batch of one engine.
//!
//! The reserved [`META_CF_ID`] holds the registry (see [`meta`]); the default
//! user-facing family is [`DEFAULT_CF_ID`].

pub mod meta;

use crate::bytes::append_bytes;
use crate::bytes::be32;
use crate::bytes::lemma_be32_order;
use crate::bytes::lemma_lex_common_prefix;
use crate::bytes::lemma_lex_decided_at;
use crate::bytes::lemma_lex_order;
use crate::bytes::lemma_lex_prefix_le;
use crate::bytes::lemma_lex_prepend;
use crate::bytes::lex_le;
use crate::bytes::lex_lt;
use crate::bytes::put_be32;
use vstd::prelude::*;

verus! {

/// Reserved id of the family that stores the registry. Users cannot create a
/// family with this id.
pub const META_CF_ID: u32 = 0;

/// Id of the default user-facing family.
pub const DEFAULT_CF_ID: u32 = 1;

/// Name of the default family.
pub const DEFAULT_CF_NAME: &'static str = "default";

/// A handle to a column family: its name and its id. Handles compare by id.
#[derive(Debug)]
pub struct ColumnFamilyHandle {
    pub name: String,
    pub id: u32,
}

impl ColumnFamilyHandle {
    /// The family's display name.
    pub fn name(&self) -> (r: &str)
        ensures
            r@ == self.name@,
    {
        self.name.as_str()
    }

    /// The id that the key prefix is made of.
    pub fn id(&self) -> (r: u32)
        ensures
            r == self.id,
    {
        self.id
    }
}

impl Clone for ColumnFamilyHandle {
    fn clone(&self) -> (r: Self)
        ensures
            r.name@ == self.name@,
            r.id == self.id,
    {
        ColumnFamilyHandle { name: self.name.clone(), id: self.id }
    }
}

impl PartialEq for ColumnFamilyHandle {
    fn eq(&self, other: &Self) -> (r: bool) {
        self.id == other.id
    }
}

impl vstd::std_specs::cmp::PartialEqSpecImpl for ColumnFamilyHandle {
    open spec fn obeys_eq_spec() -> bool {
        true
    }

    open spec fn eq_spec(&self, other: &Self) -> bool {
        self.id == other.id
    }
}

impl Eq for ColumnFamilyHandle {

}

// ── Keys ─────────────────────────────────────────────────────────

/// The engine's key for a user key of a family.
pub open spec fn prefixed(cf_id: u32, key: Seq<u8>) -> Seq<u8> {
    be32(cf_id) + key
}

/// Encode a user key for a family: `cf_id_be(4) || user_key`.
pub fn prefix_key(cf_id: u32, key: &[u8]) -> (r: Vec<u8>)
    ensures
        r@ == prefixed(cf_id, key@),
{
    let mut out: Vec<u8> = Vec::new();
    put_be32(&mut out, cf_id);
    append_bytes(&mut out, key);
    assert(out@ =~= prefixed(cf_id, key@));
    out
}

/// A byte string after every key of the family and at or before every key of
/// the next.
pub fn cf_upper_bound(cf_id: u32) -> (r: Vec<u8>)
    requires
        cf_id < u32::MAX,
    ensures
        r@ == be32((cf_id + 1) as u32),
{
    let mut out: Vec<u8> = Vec::new();
    put_be32(&mut out, cf_id + 1);
    assert(out@ =~= be32((cf_id + 1) as u32));
    out
}

/// Lower bound (inclusive) of the family's keys.
pub fn cf_lower_bound(cf_id: u32) -> (r: Vec<u8>)
    ensures
        r@ == be32(cf_id),
{
    let mut out: Vec<u8> = Vec::new();
    put_be32(&mut out, cf_id);
    assert(out@ =~= be32(cf_id));
    out
}

/// All keys of one family come before all keys of a family with a greater id.
pub proof fn lemma_families_disjoint(a: u32, ka: Seq<u8>, b: u32, kb: Seq<u8>)
    requires
        a < b,
    ensures
        lex_lt(prefixed(a, ka), prefixed(b, kb)),
        prefixed(a, ka) != prefixed(b, kb),
{
    lemma_be32_order(a, b);
    lemma_prefix_decides(be32(a), ka, be32(b), kb);
    lemma_lex_order(prefixed(a, ka), prefixed(b, kb), prefixed(b, kb));
}

/// Different strings of one length decide the order whatever follows them.
proof fn lemma_prefix_decides(p: Seq<u8>, a: Seq<u8>, q: Seq<u8>, b: Seq<u8>)
    requires
        p.len() == q.len(),
        lex_lt(p, q),
    ensures
        lex_lt(p + a, q + b),
    decreases p.len(),
{
    if p[0] != q[0] {
        lemma_lex_decided_at(p, q, 0);
        lemma_lex_decided_at(p + a, q + b, 0);
    } else {
        lemma_prefix_decides(p.skip(1), a, q.skip(1), b);
        assert((p + a).skip(1) =~= p.skip(1) + a);
        assert((q + b).skip(1) =~= q.skip(1) + b);
        lemma_lex_common_prefix(p + a, q + b, 1);
    }
}

/// Within a family the engine's keys are in the order of the user keys, and
/// different user keys have different engine keys.
pub proof fn lemma_family_order(cf_id: u32, a: Seq<u8>, b: Seq<u8>)
    ensures
        lex_lt(prefixed(cf_id, a), prefixed(cf_id, b)) == lex_lt(a, b),
        prefixed(cf_id, a) == prefixed(cf_id, b) ==> a == b,
{
    lemma_lex_prepend(be32(cf_id), a, b);
    if prefixed(cf_id, a) == prefixed(cf_id, b) {
        assert(prefixed(cf_id, a).skip(4) =~= a);
        assert(prefixed(cf_id, b).skip(4) =~= b);
    }
}

/// The bounds of a family hold its keys and no key of another family.
pub proof fn lemma_family_bounds(cf_id: u32, other: u32, key: Seq<u8>)
    requires
        cf_id < u32::MAX,
    ensures
        (lex_le(be32(cf_id), prefixed(other, key)) && lex_lt(
            prefixed(other, key),
            be32((cf_id + 1) as u32),
        )) <==> other == cf_id,
{
    let lo = be32(cf_id);
    let hi = be32((cf_id + 1) as u32);
    let k = prefixed(other, key);
    let empty = Seq::<u8>::empty();
    assert(prefixed(cf_id, empty) =~= lo);
    assert(prefixed((cf_id + 1) as u32, empty) =~= hi);
    if other < cf_id {
        lemma_families_disjoint(other, key, cf_id, empty);
        lemma_lex_order(k, lo, k);
    } else if other == cf_id {
        lemma_lex_prefix_le(lo, key);
        lemma_families_disjoint(cf_id, key, (cf_id + 1) as u32, empty);
    } else if other == cf_id + 1 {
        lemma_lex_prefix_le(hi, key);
        lemma_lex_order(hi, k, hi);
    } else {
        lemma_families_disjoint((cf_id + 1) as u32, empty, other, key);
        lemma_lex_order(hi, k, hi);
    }
}

// ── Registry ─────────────────────────────────────────────────────

/// In-memory cache of the registry: which families there are, and the next id
/// to hand out.
pub struct CfRegistry {
    next_id: u32,
    by_name: Vec<(String, u32)>,
}

/// The id that the list gives to a name.
pub open spec fn id_of(list: Seq<(String, u32)>, name: Seq<char>) -> Option<u32>
    decreases list.len(),
{
    if list.len() == 0 {
        None
    } else if list.last().0@ == name {
        Some(list.last().1)
    } else {
        id_of(list.drop_last(), name)
    }
}

/// No name stands twice in the list.
pub open spec fn distinct_names(list: Seq<(String, u32)>) -> bool {
    forall|i: int, j: int|
        0 <= i < j < list.len() ==> (#[trigger] list[i]).0@ != (#[trigger] list[j]).0@
}

proof fn lemma_id_of_at(list: Seq<(String, u32)>, i: int)
    requires
        distinct_names(list),
        0 <= i < list.len(),
    ensures
        id_of(list, list[i].0@) == Some(list[i].1),
    decreases list.len(),
{
    if i < list.len() - 1 {
        assert(list.drop_last()[i] == list[i]);
        lemma_id_of_at(list.drop_last(), i);
    }
}

proof fn lemma_id_of_absent(list: Seq<(String, u32)>, name: Seq<char>)
    requires
        forall|i: int| 0 <= i < list.len() ==> (#[trigger] list[i]).0@ != name,
    ensures
        id_of(list, name) is None,
    decreases list.len(),
{
    if list.len() > 0 {
        assert(list.last() == list[list.len() - 1]);
        assert forall|i: int| 0 <= i < list.drop_last().len() implies (
        #[trigger] list.drop_last()[i]).0@ != name by {
            assert(list.drop_last()[i] == list[i]);
        }
        lemma_id_of_absent(list.drop_last(), name);
    }
}

proof fn lemma_id_of_found(list: Seq<(String, u32)>, name: Seq<char>)
    requires
        id_of(list, name) is Some,
    ensures
        exists|i: int| 0 <= i < list.len() && (#[trigger] list[i]).0@ == name,
    decreases list.len(),
{
    if list.last().0@ == name {
        assert(list[list.len() - 1].0@ == name);
    } else {
        lemma_id_of_found(list.drop_last(), name);
        let i = choose|i: int|
            0 <= i < list.drop_last().len() && (#[trigger] list.drop_last()[i]).0@ == name;
        assert(list[i].0@ == name);
    }
}

impl CfRegistry {
    /// The id of the family of a name.
    pub closed spec fn lookup(&self, name: Seq<char>) -> Option<u32> {
        id_of(self.by_name@, name)
    }

    /// The next id to hand out.
    pub closed spec fn upcoming(&self) -> u32 {
        self.next_id
    }

    /// Each name is registered once.
    pub closed spec fn wf(&self) -> bool {
        distinct_names(self.by_name@)
    }

    /// An empty registry. The ids below the first one handed out are those of
    /// the registry's own and of the default family.
    pub fn new() -> (r: Self)
        ensures
            r.wf(),
            r.upcoming() == DEFAULT_CF_ID + 1,
            forall|n: Seq<char>| #[trigger] r.lookup(n) is None,
    {
        CfRegistry { next_id: DEFAULT_CF_ID + 1, by_name: Vec::new() }
    }

    /// Replace the registry by the given families. Where a name stands twice
    /// the later entry counts.
    pub fn load(&mut self, entries: Vec<(String, u32)>, next_id: u32)
        ensures
            final(self).wf(),
            final(self).upcoming() == next_id,
            forall|n: Seq<char>| #[trigger] final(self).lookup(n) == id_of(entries@, n),
    {
        self.next_id = next_id;
        self.by_name = Vec::new();
        let mut i: usize = 0;
        while i < entries.len()
            invariant
                i <= entries@.len(),
                self.wf(),
                self.next_id == next_id,
                forall|n: Seq<char>| #[trigger]
                    self.lookup(n) == id_of(entries@.take(i as int), n),
            decreases entries@.len() - i,
        {
            let ghost before = *self;
            self.put(entries[i].0.as_str(), entries[i].1);
            proof {
                let t = entries@.take(i + 1);
                assert(t.drop_last() =~= entries@.take(i as int));
                assert forall|n: Seq<char>| #[trigger] self.lookup(n) == id_of(t, n) by {
                    assert(before.lookup(n) == id_of(entries@.take(i as int), n));
                }
            }
            i += 1;
        }
        assert(entries@.take(i as int) =~= entries@);
    }

    /// Register `name` under `id`, in place of what it was registered under.
    fn put(&mut self, name: &str, id: u32)
        requires
            old(self).wf(),
        ensures
            final(self).wf(),
            final(self).next_id == old(self).next_id,
            forall|n: Seq<char>| #[trigger]
                final(self).lookup(n) == if n == name@ {
                    Some(id)
                } else {
                    old(self).lookup(n)
                },
    {
        let ghost before = *self;
        self.remove(name);
        let ghost after = *self;
        let ghost mid = self.by_name@;
        self.by_name.push((name.to_owned(), id));
        proof {
            assert(self.by_name@.drop_last() =~= mid);
            assert(after.lookup(name@) is None);
            assert forall|n: Seq<char>| #[trigger] self.lookup(n) == if n == name@ {
                Some(id)
            } else {
                before.lookup(n)
            } by {
                assert(after.lookup(n) == if n == name@ {
                    None
                } else {
                    before.lookup(n)
                });
            }
            assert forall|i: int, j: int| 0 <= i < j < self.by_name@.len() implies (
            #[trigger] self.by_name@[i]).0@ != (#[trigger] self.by_name@[j]).0@ by {
                if j == mid.len() {
                    if mid[i].0@ == name@ {
                        lemma_id_of_at(mid, i);
                    }
                } else {
                    assert(mid[i].0@ != mid[j].0@);
                }
            }
        }
    }

    /// Where `name` stands in the list.
    fn position(&self, name: &str) -> (r: Option<usize>)
        requires
            self.wf(),
        ensures
            r is Some <==> self.lookup(name@) is Some,
            r matches Some(i) ==> i < self.by_name@.len() && self.by_name@[i as int].0@ == name@
                && self.lookup(name@) == Some(self.by_name@[i as int].1),
    {
        let wanted = name.to_owned();
        let mut i: usize = 0;
        while i < self.by_name.len()
            invariant
                self.wf(),
                i <= self.by_name@.len(),
                wanted@ == name@,
                forall|j: int| 0 <= j < i ==> (#[trigger] self.by_name@[j]).0@ != name@,
            decreases self.by_name@.len() - i,
        {
            if self.by_name[i].0 == wanted {
                proof {
                    lemma_id_of_at(self.by_name@, i as int);
                }
                return Some(i);
            }
            i += 1;
        }
        proof {
            lemma_id_of_absent(self.by_name@, name@);
        }
        None
    }

    /// The handle of the family of a name.
    pub fn get(&self, name: &str) -> (r: Option<ColumnFamilyHandle>)
        requires
            self.wf(),
        ensures
            r is Some <==> self.lookup(name@) is Some,
            r matches Some(h) ==> h.name@ == name@ && self.lookup(name@) == Some(h.id),
    {
        match self.position(name) {
            Some(i) => Some(
                ColumnFamilyHandle { name: name.to_owned(), id: self.by_name[i].1 },
            ),
            None => None,
        }
    }

    /// Allocate a fresh id for `name`. Returns the handle and the next id
    /// after it, both of which the caller persists before handing the handle
    /// out.
    pub fn allocate(&mut self, name: &str) -> (r: (ColumnFamilyHandle, u32))
        requires
            old(self).wf(),
            old(self).upcoming() < u32::MAX,
        ensures
            final(self).wf(),
            r.0.name@ == name@,
            r.1 == old(self).upcoming() + 1,
            allocated(*old(self), *final(self), name@, r.0.id),
    {
        let id: u32 = self.next_id;
        self.next_id = self.next_id + 1;
        let ghost before = *self;
        assert(before.by_name == old(self).by_name);
        assert forall|n: Seq<char>| #[trigger] before.lookup(n) == old(self).lookup(n) by {}
        self.put(name, id);
        (ColumnFamilyHandle { name: name.to_owned(), id }, self.next_id)
    }

    /// Remove a family from the registry. The caller deletes its registry
    /// entry and its range of keys.
    pub fn remove(&mut self, name: &str)
        requires
            old(self).wf(),
        ensures
            final(self).wf(),
            removed(*old(self), *final(self), name@),
    {
        let ghost list = self.by_name@;
        match self.position(name) {
            Some(i) => {
                let _ = self.by_name.remove(i);
                proof {
                    let cut = self.by_name@;
                    assert(cut =~= list.remove(i as int));
                    lemma_removed(list, i as int);
                }
            },
            None => {},
        }
    }

    /// Every registered name, in no particular order.
    pub fn names(&self) -> (r: Vec<String>)
        requires
            self.wf(),
        ensures
            forall|i: int, j: int|
                0 <= i < j < r@.len() ==> (#[trigger] r@[i])@ != (#[trigger] r@[j])@,
            forall|i: int| 0 <= i < r@.len() ==> self.lookup((#[trigger] r@[i])@) is Some,
            forall|n: Seq<char>| #[trigger]
                self.lookup(n) is Some ==> exists|i: int|
                    0 <= i < r@.len() && (#[trigger] r@[i])@ == n,
    {
        let mut r: Vec<String> = Vec::new();
        let mut i: usize = 0;
        while i < self.by_name.len()
            invariant
                i <= self.by_name@.len(),
                r@.len() == i,
                forall|j: int| 0 <= j < i ==> (#[trigger] r@[j])@ == self.by_name@[j].0@,
            decreases self.by_name@.len() - i,
        {
            r.push(self.by_name[i].0.clone());
            i += 1;
        }
        proof {
            let list = self.by_name@;
            assert forall|a: int, b: int| 0 <= a < b < r@.len() implies (#[trigger] r@[a])@ != (
            #[trigger] r@[b])@ by {
                assert(list[a].0@ != list[b].0@);
            }
            assert forall|a: int| 0 <= a < r@.len() implies self.lookup((#[trigger] r@[a])@)
                is Some by {
                lemma_id_of_at(list, a);
            }
            assert forall|n: Seq<char>| #[trigger] self.lookup(n) is Some implies exists|a: int|
                0 <= a < r@.len() && (#[trigger] r@[a])@ == n by {
                lemma_id_of_found(list, n);
                let a = choose|a: int| 0 <= a < list.len() && (#[trigger] list[a]).0@ == n;
                assert(r@[a]@ == n);
            }
        }
        r
    }
}

/// Removing an entry removes its name and keeps the others.
proof fn lemma_removed(list: Seq<(String, u32)>, i: int)
    requires
        distinct_names(list),
        0 <= i < list.len(),
    ensures
        distinct_names(list.remove(i)),
        forall|n: Seq<char>| #[trigger]
            id_of(list.remove(i), n) == if n == list[i].0@ {
                None
            } else {
                id_of(list, n)
            },
{
    let cut = list.remove(i);
    assert forall|a: int, b: int| 0 <= a < b < cut.len() implies (#[trigger] cut[a]).0@ != (
    #[trigger] cut[b]).0@ by {
        let a0 = if a < i { a } else { a + 1 };
        let b0 = if b < i { b } else { b + 1 };
        assert(cut[a] == list[a0] && cut[b] == list[b0]);
    }
    assert forall|n: Seq<char>| #[trigger] id_of(cut, n) == if n == list[i].0@ {
        None
    } else {
        id_of(list, n)
    } by {
        if n == list[i].0@ {
            assert forall|a: int| 0 <= a < cut.len() implies (#[trigger] cut[a]).0@ != n by {
                let a0 = if a < i { a } else { a + 1 };
                assert(cut[a] == list[a0]);
            }
            lemma_id_of_absent(cut, n);
        } else if id_of(list, n) is Some {
            lemma_id_of_found(list, n);
            let a = choose|a: int| 0 <= a < list.len() && (#[trigger] list[a]).0@ == n;
            lemma_id_of_at(list, a);
            let c = if a < i { a } else { a - 1 };
            assert(cut[c] == list[a]);
            lemma_id_of_at(cut, c);
        } else {
            if id_of(cut, n) is Some {
                lemma_id_of_found(cut, n);
                let c = choose|c: int| 0 <= c < cut.len() && (#[trigger] cut[c]).0@ == n;
                let a = if c < i { c } else { c + 1 };
                assert(cut[c] == list[a]);
                lemma_id_of_at(list, a);
            }
        }
    }
}

// ── What the registry promises ───────────────────────────────────

/// `b` is `a` after `name` was given the id.
pub open spec fn allocated(a: CfRegistry, b: CfRegistry, name: Seq<char>, id: u32) -> bool {
    &&& id == a.upcoming()
    &&& b.upcoming() == id + 1
    &&& forall|n: Seq<char>| #[trigger]
        b.lookup(n) == if n == name {
            Some(id)
        } else {
            a.lookup(n)
        }
}

/// `b` is `a` after `name` was removed.
pub open spec fn removed(a: CfRegistry, b: CfRegistry, name: Seq<char>) -> bool {
    &&& b.upcoming() == a.upcoming()
    &&& forall|n: Seq<char>| #[trigger]
        b.lookup(n) == if n == name {
            None
        } else {
            a.lookup(n)
        }
}

/// The ids of the families were given out, and no two families share one.
pub open spec fn ids_apart(r: CfRegistry) -> bool {
    &&& forall|n: Seq<char>| (#[trigger] r.lookup(n)) matches Some(id) ==> id < r.upcoming()
    &&& forall|n: Seq<char>, m: Seq<char>|
        n != m && (#[trigger] r.lookup(n)) is Some ==> r.lookup(n) != #[trigger] r.lookup(m)
}

/// A new family gets an id that no family has or ever had, so that it finds no
/// keys of another; removing a family leaves the others, and gives its id to
/// nobody.
pub proof fn lemma_ids_are_given_out_once(
    a: CfRegistry,
    b: CfRegistry,
    name: Seq<char>,
    id: u32,
    other: Seq<char>,
)
    requires
        ids_apart(a),
        other != name,
    ensures
        allocated(a, b, name, id) ==> {
            &&& ids_apart(b)
            &&& b.lookup(name) == Some(id)
            &&& a.lookup(other) != Some(id)
            &&& b.lookup(other) == a.lookup(other)
            &&& id >= a.upcoming() && b.upcoming() > id
        },
        removed(a, b, name) ==> {
            &&& ids_apart(b)
            &&& b.lookup(name) is None
            &&& b.lookup(other) == a.lookup(other)
            &&& b.upcoming() >= a.upcoming()
        },
{
    if allocated(a, b, name, id) {
        assert forall|n: Seq<char>, m: Seq<char>|
            n != m && (#[trigger] b.lookup(n)) is Some implies b.lookup(n) != #[trigger] b.lookup(
            m,
        ) by {
            assert(a.lookup(n) matches Some(x) ==> x < a.upcoming());
            assert(a.lookup(m) matches Some(x) ==> x < a.upcoming());
        }
        assert forall|n: Seq<char>| (#[trigger] b.lookup(n)) is Some implies b.lookup(n)->0
            < b.upcoming() by {
            assert(a.lookup(n) matches Some(y) ==> y < a.upcoming());
        }
        assert(a.lookup(other) matches Some(y) ==> y < a.upcoming());
    }
    if removed(a, b, name) {
        assert forall|n: Seq<char>, m: Seq<char>|
            n != m && (#[trigger] b.lookup(n)) is Some implies b.lookup(n) != #[trigger] b.lookup(
            m,
        ) by {
            assert(a.lookup(n) != a.lookup(m));
        }
        assert forall|n: Seq<char>| (#[trigger] b.lookup(n)) is Some implies b.lookup(n)->0
            < b.upcoming() by {
            assert(a.lookup(n) matches Some(y) ==> y < a.upcoming());
        }
    }
}

/// Of the entries for a name the last counts, and entries for other names do
/// not.
pub proof fn lemma_the_last_entry_counts(
    list: Seq<(String, u32)>,
    entry: (String, u32),
    name: Seq<char>,
)
    ensures
        id_of(list.push(entry), name) == if entry.0@ == name {
            Some(entry.1)
        } else {
            id_of(list, name)
        },
        id_of(Seq::empty(), name) is None,
{
    assert(list.push(entry).drop_last() =~= list);
}

} // verus!

//! Ordered account-storage backends.
//!
//! [`AccountsDbAsMap`] is the memory-resident ordered map; [`AccountsDb`] is
//! the closed set of interchangeable backends the migration proxy can own.
//! Every backend exposes the same capability set — point get, insert, remove,
//! ordered traversal, count — with contracts over the entry sequence and the
//! map it represents.

use vstd::prelude::*;

use crate::account::copy_key;
use crate::account::copy_record;
use crate::account::AccountRecord;
use crate::account::AccountSpec;
use crate::keys::in_key_bounds;
use crate::keys::key_eq;
use crate::keys::key_le;
use crate::keys::key_lt;
use crate::keys::opt_key_view;
use crate::keys::lemma_lex_lt_total;
use crate::keys::lex_lt;
use crate::kv::entries_map;
use crate::kv::entries_sorted;
use crate::kv::lemma_entries_map_characterization;
use crate::kv::lemma_entries_map_insert;
use crate::kv::lemma_entries_map_remove;
use crate::kv::lemma_sorted_key_absent;
use crate::kv::lemma_sorted_push;

verus! {

/// The view of an executable entry vector as a sequence of spec-level pairs.
pub open spec fn entry_views(v: Seq<(Vec<u8>, AccountRecord)>) -> Seq<(Seq<u8>, AccountSpec)> {
    v.map(|i: int, e: (Vec<u8>, AccountRecord)| (e.0@, e.1@))
}

proof fn lemma_entry_views_remove(v: Seq<(Vec<u8>, AccountRecord)>, i: int)
    requires
        0 <= i < v.len(),
    ensures
        entry_views(v.remove(i)) == entry_views(v).remove(i),
{
    v.remove_ensures(i);
    entry_views(v).remove_ensures(i);
    assert(entry_views(v.remove(i)) =~= entry_views(v).remove(i));
}

proof fn lemma_entry_views_insert(v: Seq<(Vec<u8>, AccountRecord)>, i: int, e: (Vec<u8>, AccountRecord))
    requires
        0 <= i <= v.len(),
    ensures
        entry_views(v.insert(i, e)) == entry_views(v).insert(i, (e.0@, e.1@)),
{
    v.insert_ensures(i, e);
    entry_views(v).insert_ensures(i, (e.0@, e.1@));
    assert(entry_views(v.insert(i, e)) =~= entry_views(v).insert(i, (e.0@, e.1@)));
}

proof fn lemma_entry_views_push(v: Seq<(Vec<u8>, AccountRecord)>, e: (Vec<u8>, AccountRecord))
    ensures
        entry_views(v.push(e)) == entry_views(v).push((e.0@, e.1@)),
{
    assert(entry_views(v.push(e)) =~= entry_views(v).push((e.0@, e.1@)));
}

/// Label identifying which backend implementation a store runs on.
#[derive(Clone, Copy, PartialEq, Eq, Structural, Debug)]
pub enum SchemaLabel {
    InMemoryMap,
}

/// Memory-resident ordered map backend: account records in a vector kept in
/// strictly ascending key order.
pub struct AccountsDbAsMap {
    entries: Vec<(Vec<u8>, AccountRecord)>,
}

impl AccountsDbAsMap {
    /// The stored entries, in ascending key order.
    pub closed spec fn entries_spec(&self) -> Seq<(Seq<u8>, AccountSpec)> {
        entry_views(self.entries@)
    }

    /// Well-formedness: the entries are strictly sorted by key.
    pub open spec fn wf(&self) -> bool {
        entries_sorted(self.entries_spec())
    }

    /// The key-to-record map this store represents.
    pub open spec fn contents(&self) -> Map<Seq<u8>, AccountSpec> {
        entries_map(self.entries_spec())
    }

    pub fn new() -> (s: Self)
        ensures
            s.wf(),
            s.entries_spec() == Seq::<(Seq<u8>, AccountSpec)>::empty(),
    {
        let s = AccountsDbAsMap { entries: Vec::new() };
        proof {
            assert(s.entries_spec() =~= Seq::<(Seq<u8>, AccountSpec)>::empty());
        }
        s
    }

    /// Position of `key` in the entry order: the index of the first entry
    /// whose key is not below `key`, and whether that entry carries `key`.
    fn find_index(&self, key: &Vec<u8>) -> (r: (usize, bool))
        requires
            self.wf(),
        ensures
            r.0 <= self.entries_spec().len(),
            forall|j: int| 0 <= j < r.0 ==> lex_lt(#[trigger] self.entries_spec()[j].0, key@),
            r.1 ==> r.0 < self.entries_spec().len() && self.entries_spec()[r.0 as int].0 == key@,
            !r.1 ==> r.0 == self.entries_spec().len()
                || lex_lt(key@, self.entries_spec()[r.0 as int].0),
    {
        let n = self.entries.len();
        let mut i: usize = 0;
        while i < n
            invariant
                i <= n,
                n == self.entries@.len(),
                self.entries_spec().len() == n,
                forall|j: int| 0 <= j < i ==> lex_lt(#[trigger] self.entries_spec()[j].0, key@),
            decreases n - i,
        {
            proof {
                assert(self.entries_spec()[i as int]
                    == (self.entries@[i as int].0@, self.entries@[i as int].1@));
            }
            let ek = &self.entries[i].0;
            if key_lt(ek, key) {
                i += 1;
            } else if key_eq(ek, key) {
                return (i, true);
            } else {
                proof {
                    lemma_lex_lt_total(key@, ek@);
                }
                return (i, false);
            }
        }
        (i, false)
    }

    /// Point read: the record stored under `key`, if any.
    pub fn get_account(&self, key: &Vec<u8>) -> (r: Option<AccountRecord>)
        requires
            self.wf(),
        ensures
            (match r {
                Some(a) => self.contents().contains_key(key@) && a@ == self.contents()[key@],
                None => !self.contents().contains_key(key@),
            }),
    {
        let (i, found) = self.find_index(key);
        proof {
            lemma_entries_map_characterization(self.entries_spec());
        }
        if found {
            proof {
                assert(self.entries_spec()[i as int]
                    == (self.entries@[i as int].0@, self.entries@[i as int].1@));
            }
            let a = copy_record(&self.entries[i].1);
            Some(a)
        } else {
            proof {
                lemma_sorted_key_absent(self.entries_spec(), key@, i as int);
            }
            None
        }
    }

    /// Inserts a record, overwriting any record already stored under `key`.
    pub fn insert_account(&mut self, key: Vec<u8>, account: AccountRecord)
        requires
            old(self).wf(),
        ensures
            final(self).wf(),
            final(self).contents() == old(self).contents().insert(key@, account@),
            final(self).entries_spec().len() == old(self).entries_spec().len()
                + (if old(self).contents().contains_key(key@) { 0int } else { 1int }),
    {
        let ghost kview = key@;
        let ghost aview = account@;
        let ghost e0: (Vec<u8>, AccountRecord) = (key, account);
        let ghost s0 = self.entries_spec();
        let ghost v0 = self.entries@;
        let (i, found) = self.find_index(&key);
        proof {
            lemma_entries_map_characterization(s0);
        }
        if found {
            let _ = self.entries.remove(i);
            proof {
                lemma_entry_views_remove(v0, i as int);
                lemma_entries_map_remove(s0, i as int);
                s0.remove_ensures(i as int);
            }
            let ghost s1 = self.entries_spec();
            let ghost v1 = self.entries@;
            self.entries.insert(i, (key, account));
            proof {
                assert(s1 == s0.remove(i as int));
                assert forall|j: int| 0 <= j < i implies lex_lt(#[trigger] s1[j].0, kview) by {
                    assert(s1[j] == s0[j]);
                }
                if (i as int) < s1.len() {
                    assert(s1[i as int] == s0[i as int + 1]);
                    assert(lex_lt(s0[i as int].0, s0[i as int + 1].0));
                }
                lemma_entry_views_insert(v1, i as int, e0);
                lemma_entries_map_insert(s1, i as int, kview, aview);
                assert(entries_map(self.entries_spec())
                    == entries_map(s0).remove(kview).insert(kview, aview));
                assert(entries_map(s0).remove(kview).insert(kview, aview)
                    =~= entries_map(s0).insert(kview, aview));
            }
        } else {
            proof {
                lemma_sorted_key_absent(s0, kview, i as int);
            }
            self.entries.insert(i, (key, account));
            proof {
                lemma_entry_views_insert(v0, i as int, e0);
                lemma_entries_map_insert(s0, i as int, kview, aview);
            }
        }
    }

    /// Removes the record stored under `key`; reports whether one existed.
    pub fn remove_account(&mut self, key: &Vec<u8>) -> (r: bool)
        requires
            old(self).wf(),
        ensures
            final(self).wf(),
            final(self).contents() == old(self).contents().remove(key@),
            r == old(self).contents().contains_key(key@),
            final(self).entries_spec().len() == old(self).entries_spec().len()
                - (if r { 1int } else { 0int }),
    {
        let ghost s0 = self.entries_spec();
        let ghost v0 = self.entries@;
        let (i, found) = self.find_index(key);
        proof {
            lemma_entries_map_characterization(s0);
        }
        if found {
            let _ = self.entries.remove(i);
            proof {
                lemma_entry_views_remove(v0, i as int);
                lemma_entries_map_remove(s0, i as int);
            }
            true
        } else {
            proof {
                lemma_sorted_key_absent(s0, key@, i as int);
                assert(self.contents().remove(key@) =~= self.contents());
            }
            false
        }
    }

    /// Number of stored records.
    pub fn db_accounts_len(&self) -> (n: u64)
        requires
            self.wf(),
        ensures
            n as int == self.entries_spec().len(),
            n as int == self.contents().len(),
    {
        proof {
            lemma_entries_map_characterization(self.entries_spec());
        }
        self.entries.len() as u64
    }

    pub fn is_empty(&self) -> (r: bool)
        ensures
            r == (self.entries_spec().len() == 0),
    {
        self.entries.len() == 0
    }

    /// Takes out the entry with the smallest key, if any.
    pub fn pop_first(&mut self) -> (r: Option<(Vec<u8>, AccountRecord)>)
        requires
            old(self).wf(),
        ensures
            final(self).wf(),
            old(self).entries_spec().len() == 0 ==> r is None && *final(self) == *old(self),
            old(self).entries_spec().len() > 0 ==> (match r {
                Some(e) => (e.0@, e.1@) == old(self).entries_spec()[0]
                    && final(self).entries_spec() == old(self).entries_spec().skip(1),
                None => false,
            }),
    {
        if self.entries.len() == 0 {
            return None;
        }
        let ghost s0 = self.entries_spec();
        let ghost v0 = self.entries@;
        let e = self.entries.remove(0);
        proof {
            lemma_entry_views_remove(v0, 0);
            lemma_entries_map_remove(s0, 0);
            s0.remove_ensures(0);
            assert(s0.remove(0) =~= s0.skip(1));
            assert(s0[0] == (v0[0].0@, v0[0].1@));
        }
        Some(e)
    }

    /// Appends an entry whose key exceeds every key already stored.
    pub fn push_last(&mut self, key: Vec<u8>, account: AccountRecord)
        requires
            old(self).wf(),
            forall|j: int|
                0 <= j < old(self).entries_spec().len()
                    ==> lex_lt(#[trigger] old(self).entries_spec()[j].0, key@),
        ensures
            final(self).wf(),
            final(self).entries_spec() == old(self).entries_spec().push((key@, account@)),
    {
        let ghost kview = key@;
        let ghost aview = account@;
        let ghost e0: (Vec<u8>, AccountRecord) = (key, account);
        let ghost s0 = self.entries_spec();
        let ghost v0 = self.entries@;
        self.entries.push((key, account));
        proof {
            lemma_entry_views_push(v0, e0);
            lemma_sorted_push(s0, kview, aview);
        }
    }

    /// All entries, in ascending key order, as owned copies.
    pub fn range(&self) -> (r: Vec<(Vec<u8>, AccountRecord)>)
        ensures
            entry_views(r@) == self.entries_spec(),
    {
        let n = self.entries.len();
        let mut r: Vec<(Vec<u8>, AccountRecord)> = Vec::new();
        let mut i: usize = 0;
        while i < n
            invariant
                i <= n,
                n == self.entries@.len(),
                r@.len() == i,
                forall|j: int|
                    0 <= j < i ==> (#[trigger] r@[j]).0@ == self.entries@[j].0@
                        && r@[j].1@ == self.entries@[j].1@,
            decreases n - i,
        {
            let k = copy_key(&self.entries[i].0);
            let a = copy_record(&self.entries[i].1);
            r.push((k, a));
            i += 1;
        }
        proof {
            assert(entry_views(r@) =~= self.entries_spec());
        }
        r
    }
}

impl AccountsDbAsMap {
    /// The entries whose keys lie within the given inclusive bounds, in
    /// ascending key order, as owned copies.
    pub fn range_between(&self, lower: Option<&Vec<u8>>, upper: Option<&Vec<u8>>) -> (r: Vec<
        (Vec<u8>, AccountRecord),
    >)
        ensures
            entry_views(r@) == self.entries_spec().filter(
                (|e: (Seq<u8>, AccountSpec)|
                    in_key_bounds(e.0, opt_key_view(lower), opt_key_view(upper))),
            ),
    {
        let ghost pred = (|e: (Seq<u8>, AccountSpec)|
            in_key_bounds(e.0, opt_key_view(lower), opt_key_view(upper)));
        let n = self.entries.len();
        let mut r: Vec<(Vec<u8>, AccountRecord)> = Vec::new();
        let mut i: usize = 0;
        proof {
            assert(self.entries_spec().take(0) =~= Seq::<(Seq<u8>, AccountSpec)>::empty());
            assert(entry_views(r@) =~= self.entries_spec().take(0).filter(pred));
        }
        while i < n
            invariant
                i <= n,
                n == self.entries@.len(),
                n == self.entries_spec().len(),
                entry_views(r@) == self.entries_spec().take(i as int).filter(pred),
                pred == (|e: (Seq<u8>, AccountSpec)|
                    in_key_bounds(e.0, opt_key_view(lower), opt_key_view(upper))),
            decreases n - i,
        {
            proof {
                assert(self.entries_spec()[i as int]
                    == (self.entries@[i as int].0@, self.entries@[i as int].1@));
            }
            let key = &self.entries[i].0;
            let within_lower = match lower {
                Some(l) => key_le(l, key),
                None => true,
            };
            let within_upper = match upper {
                Some(u) => key_le(key, u),
                None => true,
            };
            let ghost r0 = r@;
            if within_lower && within_upper {
                let k = copy_key(key);
                let a = copy_record(&self.entries[i].1);
                r.push((k, a));
            }
            i += 1;
            proof {
                let s = self.entries_spec();
                let e = s[i as int - 1];
                assert(s.take(i as int) =~= s.take(i as int - 1) + seq![e]);
                Seq::filter_distributes_over_add(s.take(i as int - 1), seq![e], pred);
                reveal_with_fuel(Seq::filter, 3);
                assert(seq![e].drop_last() =~= Seq::<(Seq<u8>, AccountSpec)>::empty());
                if within_lower && within_upper {
                    assert(pred(e));
                    assert(seq![e].filter(pred) =~= seq![e]);
                    assert(entry_views(r@) =~= entry_views(r0).push(e));
                    assert(entry_views(r@) =~= s.take(i as int - 1).filter(pred) + seq![e]);
                } else {
                    assert(!pred(e));
                    assert(seq![e].filter(pred) =~= Seq::<(Seq<u8>, AccountSpec)>::empty());
                    assert(entry_views(r@) =~= s.take(i as int - 1).filter(pred) + seq![
                        e,
                    ].filter(pred));
                }
                assert(entry_views(r@) =~= s.take(i as int).filter(pred));
            }
        }
        proof {
            assert(self.entries_spec().take(n as int) =~= self.entries_spec());
        }
        r
    }
}

impl Default for AccountsDbAsMap {
    fn default() -> (s: Self)
        ensures
            s.wf(),
            s.entries_spec().len() == 0,
    {
        AccountsDbAsMap::new()
    }
}

/// The closed set of interchangeable storage backends.
pub enum AccountsDb {
    InMemoryMap(AccountsDbAsMap),
}

impl AccountsDb {
    pub open spec fn entries_spec(&self) -> Seq<(Seq<u8>, AccountSpec)> {
        match self {
            AccountsDb::InMemoryMap(m) => m.entries_spec(),
        }
    }

    pub open spec fn wf(&self) -> bool {
        match self {
            AccountsDb::InMemoryMap(m) => m.wf(),
        }
    }

    pub open spec fn contents(&self) -> Map<Seq<u8>, AccountSpec> {
        entries_map(self.entries_spec())
    }

    /// The label of this backend's implementation.
    pub open spec fn label_spec(&self) -> SchemaLabel {
        match self {
            AccountsDb::InMemoryMap(_) => SchemaLabel::InMemoryMap,
        }
    }

    pub fn schema_label(&self) -> (l: SchemaLabel)
        ensures
            l == self.label_spec(),
    {
        match self {
            AccountsDb::InMemoryMap(_) => SchemaLabel::InMemoryMap,
        }
    }

    pub fn get_account(&self, key: &Vec<u8>) -> (r: Option<AccountRecord>)
        requires
            self.wf(),
        ensures
            (match r {
                Some(a) => self.contents().contains_key(key@) && a@ == self.contents()[key@],
                None => !self.contents().contains_key(key@),
            }),
    {
        match self {
            AccountsDb::InMemoryMap(m) => m.get_account(key),
        }
    }

    pub fn insert_account(&mut self, key: Vec<u8>, account: AccountRecord)
        requires
            old(self).wf(),
        ensures
            final(self).wf(),
            final(self).contents() == old(self).contents().insert(key@, account@),
            final(self).entries_spec().len() == old(self).entries_spec().len()
                + (if old(self).contents().contains_key(key@) { 0int } else { 1int }),
            final(self).label_spec() == old(self).label_spec(),
    {
        match self {
            AccountsDb::InMemoryMap(m) => m.insert_account(key, account),
        }
    }

    pub fn remove_account(&mut self, key: &Vec<u8>) -> (r: bool)
        requires
            old(self).wf(),
        ensures
            final(self).wf(),
            final(self).contents() == old(self).contents().remove(key@),
            r == old(self).contents().contains_key(key@),
            final(self).entries_spec().len() == old(self).entries_spec().len()
                - (if r { 1int } else { 0int }),
            final(self).label_spec() == old(self).label_spec(),
    {
        match self {
            AccountsDb::InMemoryMap(m) => m.remove_account(key),
        }
    }

    pub fn db_accounts_len(&self) -> (n: u64)
        requires
            self.wf(),
        ensures
            n as int == self.entries_spec().len(),
            n as int == self.contents().len(),
    {
        match self {
            AccountsDb::InMemoryMap(m) => m.db_accounts_len(),
        }
    }

    pub fn is_empty(&self) -> (r: bool)
        ensures
            r == (self.entries_spec().len() == 0),
    {
        match self {
            AccountsDb::InMemoryMap(m) => m.is_empty(),
        }
    }

    pub fn pop_first(&mut self) -> (r: Option<(Vec<u8>, AccountRecord)>)
        requires
            old(self).wf(),
        ensures
            final(self).wf(),
            old(self).entries_spec().len() == 0 ==> r is None && *final(self) == *old(self),
            old(self).entries_spec().len() > 0 ==> (match r {
                Some(e) => (e.0@, e.1@) == old(self).entries_spec()[0]
                    && final(self).entries_spec() == old(self).entries_spec().skip(1),
                None => false,
            }),
            final(self).label_spec() == old(self).label_spec(),
    {
        match self {
            AccountsDb::InMemoryMap(m) => m.pop_first(),
        }
    }

    pub fn push_last(&mut self, key: Vec<u8>, account: AccountRecord)
        requires
            old(self).wf(),
            forall|j: int|
                0 <= j < old(self).entries_spec().len()
                    ==> lex_lt(#[trigger] old(self).entries_spec()[j].0, key@),
        ensures
            final(self).wf(),
            final(self).entries_spec() == old(self).entries_spec().push((key@, account@)),
            final(self).label_spec() == old(self).label_spec(),
    {
        match self {
            AccountsDb::InMemoryMap(m) => {
                proof {
                    assert forall|j: int| 0 <= j < m.entries_spec().len()
                        implies lex_lt(#[trigger] m.entries_spec()[j].0, key@) by {
                        assert(m.entries_spec()[j] == old(self).entries_spec()[j]);
                    }
                }
                m.push_last(key, account)
            }
        }
    }

    pub fn range(&self) -> (r: Vec<(Vec<u8>, AccountRecord)>)
        ensures
            entry_views(r@) == self.entries_spec(),
    {
        match self {
            AccountsDb::InMemoryMap(m) => m.range(),
        }
    }

    pub fn range_between(&self, lower: Option<&Vec<u8>>, upper: Option<&Vec<u8>>) -> (r: Vec<
        (Vec<u8>, AccountRecord),
    >)
        ensures
            entry_views(r@) == self.entries_spec().filter(
                (|e: (Seq<u8>, AccountSpec)|
                    in_key_bounds(e.0, opt_key_view(lower), opt_key_view(upper))),
            ),
    {
        match self {
            AccountsDb::InMemoryMap(m) => m.range_between(lower, upper),
        }
    }
}

impl Default for AccountsDb {
    fn default() -> (s: Self)
        ensures
            s.wf(),
            s.entries_spec().len() == 0,
            s.label_spec() == SchemaLabel::InMemoryMap,
    {
        AccountsDb::InMemoryMap(AccountsDbAsMap::new())
    }
}

} // verus!

//! The storage-migration proxy.
//!
//! [`AccountsDbAsProxy`] owns the current backend plus, while a migration is
//! in flight, the target backend and a progress cursor. Every read and write
//! routes by one key-to-cursor comparison: keys at or below the cursor live in
//! the target, keys above it live in the current backend. The cursor strictly
//! partitions the keyspace, so the observable contents — stated here as one
//! map over both backends — never change across a migration step.

use vstd::prelude::*;

use crate::account::copy_key;
use crate::account::AccountRecord;
use crate::account::AccountSpec;
use crate::keys::in_key_bounds;
use crate::keys::key_le;
use crate::keys::opt_key_view;
use crate::keys::lemma_lex_le_asym;
use crate::keys::lemma_lex_le_lt_trans;
use crate::keys::lemma_lex_lt_total;
use crate::keys::lex_le;
use crate::keys::lex_lt;
use crate::kv::entries_map;
use crate::kv::entries_sorted;
use crate::kv::has_key;
use crate::kv::lemma_entries_map_characterization;
use crate::kv::lemma_entries_map_concat;
use crate::map_store::entry_views;
use crate::map_store::AccountsDb;
use crate::map_store::SchemaLabel;

verus! {

/// Number of accounts moved by one call to `step_migration`.
pub const MIGRATION_STEP_SIZE: u32 = 1000;

/// Steps a fresh migration over `n` accounts needs before it completes: one
/// per full or partial chunk of `MIGRATION_STEP_SIZE`, plus the final step
/// that swaps the backends.
pub open spec fn migration_countdown_spec(n: int) -> int {
    n / (MIGRATION_STEP_SIZE as int) + if n % (MIGRATION_STEP_SIZE as int) == 0 {
        1int
    } else {
        2int
    }
}

/// Why a request to start a migration was rejected.
#[derive(Clone, Copy, PartialEq, Eq, Structural, Debug)]
pub enum MigrationError {
    MigrationAlreadyInProgress,
    TargetNotEmpty,
}

/// An in-flight migration: the target backend, the progress cursor (greatest
/// key already moved; `None` before any key has moved), and the remaining
/// step count.
pub struct Migration {
    pub db: AccountsDb,
    pub cursor: Option<Vec<u8>>,
    pub countdown: u64,
}

/// Proxy over the account-storage backends; all account traffic passes
/// through it, migrating or not.
pub struct AccountsDbAsProxy {
    pub current: AccountsDb,
    pub migration: Option<Migration>,
}

impl AccountsDbAsProxy {
    /// All entries, in ascending key order: the migrated part followed by the
    /// part still in the current backend.
    pub open spec fn entries_spec(&self) -> Seq<(Seq<u8>, AccountSpec)> {
        match self.migration {
            Some(m) => m.db.entries_spec() + self.current.entries_spec(),
            None => self.current.entries_spec(),
        }
    }

    /// The observable key-to-record map.
    pub open spec fn contents(&self) -> Map<Seq<u8>, AccountSpec> {
        entries_map(self.entries_spec())
    }

    /// Well-formedness: both backends are sorted, and the cursor strictly
    /// partitions the keyspace — every migrated key is at or below it, every
    /// key still in the current backend is above it.
    pub open spec fn wf(&self) -> bool {
        &&& self.current.wf()
        &&& self.entries_spec().len() <= u64::MAX
        &&& match self.migration {
            Some(m) => {
                &&& m.db.wf()
                &&& match m.cursor {
                    None => m.db.entries_spec().len() == 0,
                    Some(c) => {
                        &&& forall|i: int|
                            0 <= i < m.db.entries_spec().len()
                                ==> lex_le((#[trigger] m.db.entries_spec()[i]).0, c@)
                        &&& forall|i: int|
                            0 <= i < self.current.entries_spec().len()
                                ==> lex_lt(c@, (#[trigger] self.current.entries_spec()[i]).0)
                    },
                }
            },
            None => true,
        }
    }
}

/// While a migration is in flight the observable map is the disjoint union of
/// the two backends' maps.
proof fn lemma_proxy_split(p: AccountsDbAsProxy, m: Migration)
    requires
        p.wf(),
        p.migration == Some(m),
    ensures
        entries_sorted(p.entries_spec()),
        p.contents() == m.db.contents().union_prefer_right(p.current.contents()),
        p.contents().len() == m.db.entries_spec().len() + p.current.entries_spec().len(),
        m.db.contents().len() == m.db.entries_spec().len(),
        p.current.contents().len() == p.current.entries_spec().len(),
        forall|k: Seq<u8>|
            #[trigger] m.db.contents().contains_key(k)
                ==> (m.cursor matches Some(cur) && lex_le(k, cur@)),
        forall|k: Seq<u8>|
            #[trigger] p.current.contents().contains_key(k)
                ==> (m.cursor matches Some(cur) ==> lex_lt(cur@, k)),
{
    let t = m.db.entries_spec();
    let c = p.current.entries_spec();
    lemma_entries_map_characterization(t);
    lemma_entries_map_characterization(c);
    assert(p.entries_spec() == t + c);
    assert forall|a: int, b: int| 0 <= a < b < (t + c).len() implies lex_lt(
        (t + c)[a].0,
        (t + c)[b].0,
    ) by {
        if b < t.len() {
            assert((t + c)[a] == t[a] && (t + c)[b] == t[b]);
        } else if a >= t.len() {
            assert((t + c)[a] == c[a - t.len()] && (t + c)[b] == c[b - t.len()]);
        } else {
            assert((t + c)[a] == t[a] && (t + c)[b] == c[b - t.len()]);
            match m.cursor {
                Some(cur) => {
                    lemma_lex_le_lt_trans(t[a].0, cur@, c[b - t.len()].0);
                },
                None => {
                    assert(false);
                },
            }
        }
    }
    lemma_entries_map_concat(t, c);
    lemma_entries_map_characterization(t + c);
    assert forall|k: Seq<u8>| #[trigger] m.db.contents().contains_key(k) implies (m.cursor
        matches Some(cur) && lex_le(k, cur@)) by {
        let i = choose|i: int| 0 <= i < t.len() && (t[i]).0 == k;
        match m.cursor {
            Some(cur) => {},
            None => {
                assert(false);
            },
        }
    }
    assert forall|k: Seq<u8>| #[trigger] p.current.contents().contains_key(k) implies (m.cursor
        matches Some(cur) ==> lex_lt(cur@, k)) by {
        let i = choose|i: int| 0 <= i < c.len() && (c[i]).0 == k;
    }
}

proof fn lemma_union_insert_right(
    m1: Map<Seq<u8>, AccountSpec>,
    m2: Map<Seq<u8>, AccountSpec>,
    k: Seq<u8>,
    v: AccountSpec,
)
    ensures
        m1.union_prefer_right(m2.insert(k, v)) == m1.union_prefer_right(m2).insert(k, v),
{
    assert(m1.union_prefer_right(m2.insert(k, v)) =~= m1.union_prefer_right(m2).insert(k, v));
}

proof fn lemma_union_insert_left(
    m1: Map<Seq<u8>, AccountSpec>,
    m2: Map<Seq<u8>, AccountSpec>,
    k: Seq<u8>,
    v: AccountSpec,
)
    requires
        !m2.contains_key(k),
    ensures
        m1.insert(k, v).union_prefer_right(m2) == m1.union_prefer_right(m2).insert(k, v),
{
    assert(m1.insert(k, v).union_prefer_right(m2) =~= m1.union_prefer_right(m2).insert(k, v));
}

proof fn lemma_union_remove_left(
    m1: Map<Seq<u8>, AccountSpec>,
    m2: Map<Seq<u8>, AccountSpec>,
    k: Seq<u8>,
)
    requires
        !m2.contains_key(k),
    ensures
        m1.remove(k).union_prefer_right(m2) == m1.union_prefer_right(m2).remove(k),
{
    assert(m1.remove(k).union_prefer_right(m2) =~= m1.union_prefer_right(m2).remove(k));
}

proof fn lemma_union_remove_right(
    m1: Map<Seq<u8>, AccountSpec>,
    m2: Map<Seq<u8>, AccountSpec>,
    k: Seq<u8>,
)
    requires
        !m1.contains_key(k),
    ensures
        m1.union_prefer_right(m2.remove(k)) == m1.union_prefer_right(m2).remove(k),
{
    assert(m1.union_prefer_right(m2.remove(k)) =~= m1.union_prefer_right(m2).remove(k));
}

/// After a map-level insert, every key of the new entry sequence is the
/// inserted key or a key of the old one.
proof fn lemma_map_keys_after_insert(
    t_old: Seq<(Seq<u8>, AccountSpec)>,
    t_new: Seq<(Seq<u8>, AccountSpec)>,
    k: Seq<u8>,
    v: AccountSpec,
)
    requires
        entries_sorted(t_old),
        entries_sorted(t_new),
        entries_map(t_new) == entries_map(t_old).insert(k, v),
    ensures
        forall|i: int|
            0 <= i < t_new.len() ==> ((#[trigger] t_new[i]).0 == k || has_key(t_old, t_new[i].0)),
{
    lemma_entries_map_characterization(t_old);
    lemma_entries_map_characterization(t_new);
    assert forall|i: int| 0 <= i < t_new.len() implies ((t_new[i]).0 == k || has_key(
        t_old,
        t_new[i].0,
    )) by {
        assert(has_key(t_new, t_new[i].0));
    }
}

/// After a map-level remove, every key of the new entry sequence is a key of
/// the old one.
proof fn lemma_map_keys_after_remove(
    t_old: Seq<(Seq<u8>, AccountSpec)>,
    t_new: Seq<(Seq<u8>, AccountSpec)>,
    k: Seq<u8>,
)
    requires
        entries_sorted(t_old),
        entries_sorted(t_new),
        entries_map(t_new) == entries_map(t_old).remove(k),
    ensures
        forall|i: int| 0 <= i < t_new.len() ==> has_key(t_old, (#[trigger] t_new[i]).0),
{
    lemma_entries_map_characterization(t_old);
    lemma_entries_map_characterization(t_new);
    assert forall|i: int| 0 <= i < t_new.len() implies has_key(t_old, (t_new[i]).0) by {
        assert(has_key(t_new, t_new[i].0));
    }
}

impl AccountsDbAsProxy {
    /// Point read. Routes to the migration target exactly when the key is at
    /// or below the cursor; never reads both backends.
    pub fn db_get_account(&self, key: &Vec<u8>) -> (r: Option<AccountRecord>)
        requires
            self.wf(),
        ensures
            (match r {
                Some(a) => self.contents().contains_key(key@) && a@ == self.contents()[key@],
                None => !self.contents().contains_key(key@),
            }),
    {
        match &self.migration {
            Some(m) => {
                proof {
                    lemma_proxy_split(*self, *m);
                }
                match &m.cursor {
                    Some(c) => {
                        if key_le(key, c) {
                            let r = m.db.get_account(key);
                            proof {
                                if self.current.contents().contains_key(key@) {
                                    lemma_lex_le_asym(key@, c@);
                                }
                            }
                            r
                        } else {
                            let r = self.current.get_account(key);
                            proof {
                                lemma_lex_lt_total(key@, c@);
                                if m.db.contents().contains_key(key@) {
                                    lemma_lex_le_asym(key@, c@);
                                }
                            }
                            r
                        }
                    },
                    None => {
                        let r = self.current.get_account(key);
                        proof {
                            assert(m.db.contents().len() == 0);
                            assert(!m.db.contents().contains_key(key@));
                        }
                        r
                    },
                }
            },
            None => self.current.get_account(key),
        }
    }

    /// Insert or overwrite, routed exactly as reads are.
    pub fn db_insert_account(&mut self, key: Vec<u8>, account: AccountRecord)
        requires
            old(self).wf(),
            old(self).contents().len() < u64::MAX,
        ensures
            final(self).wf(),
            final(self).contents() == old(self).contents().insert(key@, account@),
            (final(self).migration is Some) == (old(self).migration is Some),
            old(self).migration matches Some(m) ==> (final(self).migration matches Some(m2)
                && m2.cursor == m.cursor && m2.countdown == m.countdown
                && m2.db.label_spec() == m.db.label_spec()),
            final(self).current.label_spec() == old(self).current.label_spec(),
    {
        let ghost kview = key@;
        let ghost aview = account@;
        let to_target: bool = match &self.migration {
            Some(m) => match &m.cursor {
                Some(c) => key_le(&key, c),
                None => false,
            },
            None => false,
        };
        proof {
            if old(self).migration is Some {
                lemma_proxy_split(*old(self), old(self).migration.unwrap());
            }
        }
        if to_target {
            match &mut self.migration {
                Some(m) => {
                    let ghost t0 = m.db.entries_spec();
                    m.db.insert_account(key, account);
                    proof {
                        let mm = old(self).migration.unwrap();
                        let cur = mm.cursor.unwrap()@;
                        if self.current.contents().contains_key(kview) {
                            lemma_lex_le_asym(kview, cur);
                        }
                        lemma_union_insert_left(
                            entries_map(t0),
                            self.current.contents(),
                            kview,
                            aview,
                        );
                        lemma_map_keys_after_insert(t0, m.db.entries_spec(), kview, aview);
                        assert forall|i: int| 0 <= i < m.db.entries_spec().len() implies lex_le(
                            (m.db.entries_spec()[i]).0,
                            cur,
                        ) by {
                            if m.db.entries_spec()[i].0 != kview {
                                lemma_entries_map_characterization(t0);
                                let j = choose|j: int|
                                    0 <= j < t0.len() && (t0[j]).0 == m.db.entries_spec()[i].0;
                            }
                        }
                        lemma_proxy_split(*self, self.migration.unwrap());
                    }
                },
                None => {
                    proof {
                        assert(false);
                    }
                },
            }
        } else {
            self.current.insert_account(key, account);
            proof {
                match old(self).migration {
                    Some(mm) => {
                        let t0 = mm.db.entries_spec();
                        lemma_union_insert_right(
                            entries_map(t0),
                            entries_map(old(self).current.entries_spec()),
                            kview,
                            aview,
                        );
                        match mm.cursor {
                            Some(c) => {
                                lemma_lex_lt_total(kview, c@);
                                assert(lex_lt(c@, kview));
                                lemma_map_keys_after_insert(
                                    old(self).current.entries_spec(),
                                    self.current.entries_spec(),
                                    kview,
                                    aview,
                                );
                                assert forall|i: int|
                                    0 <= i < self.current.entries_spec().len() implies lex_lt(
                                    c@,
                                    (self.current.entries_spec()[i]).0,
                                ) by {
                                    if self.current.entries_spec()[i].0 != kview {
                                        lemma_entries_map_characterization(
                                            old(self).current.entries_spec(),
                                        );
                                        let j = choose|j: int|
                                            0 <= j < old(self).current.entries_spec().len()
                                                && (old(self).current.entries_spec()[j]).0
                                                == self.current.entries_spec()[i].0;
                                    }
                                }
                            },
                            None => {
                                assert(mm.db.entries_spec().len() == 0);
                            },
                        }
                        lemma_proxy_split(*self, self.migration.unwrap());
                    },
                    None => {
                        lemma_entries_map_characterization(old(self).current.entries_spec());
                    },
                }
            }
        }
    }

    /// Remove, routed exactly as reads are; reports whether the key existed.
    pub fn db_remove_account(&mut self, key: &Vec<u8>) -> (r: bool)
        requires
            old(self).wf(),
        ensures
            final(self).wf(),
            final(self).contents() == old(self).contents().remove(key@),
            r == old(self).contents().contains_key(key@),
            (final(self).migration is Some) == (old(self).migration is Some),
            old(self).migration matches Some(m) ==> (final(self).migration matches Some(m2)
                && m2.cursor == m.cursor && m2.countdown == m.countdown
                && m2.db.label_spec() == m.db.label_spec()),
            final(self).current.label_spec() == old(self).current.label_spec(),
    {
        let ghost kview = key@;
        let to_target: bool = match &self.migration {
            Some(m) => match &m.cursor {
                Some(c) => key_le(key, c),
                None => false,
            },
            None => false,
        };
        proof {
            if old(self).migration is Some {
                lemma_proxy_split(*old(self), old(self).migration.unwrap());
            }
        }
        if to_target {
            match &mut self.migration {
                Some(m) => {
                    let ghost t0 = m.db.entries_spec();
                    let r = m.db.remove_account(key);
                    proof {
                        let mm = old(self).migration.unwrap();
                        let cur = mm.cursor.unwrap()@;
                        if self.current.contents().contains_key(kview) {
                            lemma_lex_le_asym(kview, cur);
                        }
                        lemma_union_remove_left(entries_map(t0), self.current.contents(), kview);
                        lemma_map_keys_after_remove(t0, m.db.entries_spec(), kview);
                        assert forall|i: int| 0 <= i < m.db.entries_spec().len() implies lex_le(
                            (m.db.entries_spec()[i]).0,
                            cur,
                        ) by {
                            lemma_entries_map_characterization(t0);
                            let j = choose|j: int|
                                0 <= j < t0.len() && (t0[j]).0 == m.db.entries_spec()[i].0;
                        }
                        lemma_proxy_split(*self, self.migration.unwrap());
                    }
                    r
                },
                None => {
                    proof {
                        assert(false);
                    }
                    false
                },
            }
        } else {
            let r = self.current.remove_account(key);
            proof {
                match old(self).migration {
                    Some(mm) => {
                        let t0 = mm.db.entries_spec();
                        match mm.cursor {
                            Some(c) => {
                                lemma_lex_lt_total(kview, c@);
                                assert(lex_lt(c@, kview));
                                if entries_map(t0).contains_key(kview) {
                                    lemma_lex_le_asym(kview, c@);
                                }
                                lemma_map_keys_after_remove(
                                    old(self).current.entries_spec(),
                                    self.current.entries_spec(),
                                    kview,
                                );
                                assert forall|i: int|
                                    0 <= i < self.current.entries_spec().len() implies lex_lt(
                                    c@,
                                    (self.current.entries_spec()[i]).0,
                                ) by {
                                    lemma_entries_map_characterization(
                                        old(self).current.entries_spec(),
                                    );
                                    let j = choose|j: int|
                                        0 <= j < old(self).current.entries_spec().len()
                                            && (old(self).current.entries_spec()[j]).0
                                            == self.current.entries_spec()[i].0;
                                }
                            },
                            None => {
                                assert(mm.db.entries_spec().len() == 0);
                            },
                        }
                        assert(!entries_map(t0).contains_key(kview) || mm.cursor is Some);
                        lemma_union_remove_right(
                            entries_map(t0),
                            entries_map(old(self).current.entries_spec()),
                            kview,
                        );
                        lemma_proxy_split(*self, self.migration.unwrap());
                    },
                    None => {},
                }
            }
            r
        }
    }

    /// Number of stored accounts, over both backends while migrating.
    pub fn db_accounts_len(&self) -> (n: u64)
        requires
            self.wf(),
        ensures
            n as int == self.contents().len(),
            n as int == self.entries_spec().len(),
    {
        match &self.migration {
            Some(m) => {
                proof {
                    lemma_proxy_split(*self, *m);
                }
                m.db.db_accounts_len() + self.current.db_accounts_len()
            },
            None => {
                proof {
                    lemma_entries_map_characterization(self.current.entries_spec());
                }
                self.current.db_accounts_len()
            },
        }
    }

    /// All accounts in ascending key order: the ordered merge of the migrated
    /// part and the part still in the current backend.
    pub fn range(&self) -> (r: Vec<(Vec<u8>, AccountRecord)>)
        requires
            self.wf(),
        ensures
            entry_views(r@) == self.entries_spec(),
    {
        match &self.migration {
            Some(m) => {
                let mut r = m.db.range();
                let mut tail = self.current.range();
                let ghost rv = r@;
                let ghost tv = tail@;
                r.append(&mut tail);
                proof {
                    assert(entry_views(rv + tv) =~= entry_views(rv) + entry_views(tv));
                }
                r
            },
            None => self.current.range(),
        }
    }

    /// The accounts within the given inclusive key bounds, in ascending key
    /// order: while migrating, the ordered merge of the target's in-bounds
    /// entries (all at or below the cursor) and the current backend's (all
    /// above it); while idle, the current backend's alone.
    pub fn range_between(&self, lower: Option<&Vec<u8>>, upper: Option<&Vec<u8>>) -> (r: Vec<
        (Vec<u8>, AccountRecord),
    >)
        requires
            self.wf(),
        ensures
            entry_views(r@) == self.entries_spec().filter(
                (|e: (Seq<u8>, AccountSpec)|
                    in_key_bounds(e.0, opt_key_view(lower), opt_key_view(upper))),
            ),
    {
        let ghost pred = (|e: (Seq<u8>, AccountSpec)|
            in_key_bounds(e.0, opt_key_view(lower), opt_key_view(upper)));
        match &self.migration {
            Some(m) => {
                let mut r = m.db.range_between(lower, upper);
                let mut tail = self.current.range_between(lower, upper);
                let ghost rv = r@;
                let ghost tv = tail@;
                r.append(&mut tail);
                proof {
                    Seq::filter_distributes_over_add(
                        m.db.entries_spec(),
                        self.current.entries_spec(),
                        pred,
                    );
                    assert(entry_views(rv + tv) =~= entry_views(rv) + entry_views(tv));
                }
                r
            },
            None => self.current.range_between(lower, upper),
        }
    }

    /// The label of the current backend; it flips only when a migration
    /// finalizes.
    pub fn schema_label(&self) -> (l: SchemaLabel)
        ensures
            l == self.current.label_spec(),
    {
        self.current.schema_label()
    }

    /// Whether a migration is in flight.
    pub fn migration_in_progress(&self) -> (b: bool)
        ensures
            b == (self.migration is Some),
    {
        self.migration.is_some()
    }

    /// Number of `step_migration` calls still required to reach completion;
    /// zero once no migration is active.
    pub fn migration_countdown(&self) -> (n: u64)
        ensures
            n == (match self.migration {
                Some(m) => m.countdown,
                None => 0u64,
            }),
    {
        match &self.migration {
            Some(m) => m.countdown,
            None => 0,
        }
    }
}

/// The smaller of two integers.
pub open spec fn min_int(a: int, b: int) -> int {
    if a <= b {
        a
    } else {
        b
    }
}

impl AccountsDbAsProxy {
    /// Starts migrating all accounts to `accounts_db`. Rejected when a
    /// migration is already active or the target is not empty; the proxy is
    /// left untouched in either case.
    pub fn start_migrating_accounts_to(&mut self, accounts_db: AccountsDb) -> (r: Result<
        (),
        MigrationError,
    >)
        requires
            old(self).wf(),
            accounts_db.wf(),
        ensures
            final(self).wf(),
            final(self).entries_spec() == old(self).entries_spec(),
            final(self).contents() == old(self).contents(),
            final(self).current == old(self).current,
            old(self).migration is Some ==> (r == Err::<(), MigrationError>(
                MigrationError::MigrationAlreadyInProgress,
            ) && *final(self) == *old(self)),
            (old(self).migration is None && accounts_db.entries_spec().len() != 0) ==> (r
                == Err::<(), MigrationError>(MigrationError::TargetNotEmpty) && *final(self)
                == *old(self)),
            (old(self).migration is None && accounts_db.entries_spec().len() == 0) ==> (r is Ok
                && (final(self).migration matches Some(m) && m.db == accounts_db && m.cursor
                is None && m.countdown == migration_countdown_spec(
                old(self).entries_spec().len() as int,
            ))),
    {
        if self.migration.is_some() {
            return Err(MigrationError::MigrationAlreadyInProgress);
        }
        if !accounts_db.is_empty() {
            return Err(MigrationError::TargetNotEmpty);
        }
        let ghost tview = accounts_db.entries_spec();
        let n = self.current.db_accounts_len();
        proof {
            assert((n as int) / 1000 + 2 <= u64::MAX as int) by (nonlinear_arith)
                requires
                    0 <= n <= u64::MAX,
            ;
        }
        let countdown = n / (MIGRATION_STEP_SIZE as u64) + (if n % (MIGRATION_STEP_SIZE as u64)
            == 0 {
            1
        } else {
            2
        });
        self.migration = Some(Migration { db: accounts_db, cursor: None, countdown });
        proof {
            assert(self.entries_spec() =~= self.current.entries_spec());
        }
        Ok(())
    }

    /// One migration step. A no-op when no migration is active. Otherwise it
    /// moves up to `MIGRATION_STEP_SIZE` smallest remaining entries from the
    /// current backend to the target and advances the cursor; the step that
    /// finds the current backend empty instead swaps the backends and ends
    /// the migration. The observable contents never change.
    pub fn step_migration(&mut self)
        requires
            old(self).wf(),
        ensures
            final(self).wf(),
            final(self).entries_spec() == old(self).entries_spec(),
            final(self).contents() == old(self).contents(),
            old(self).migration is None ==> *final(self) == *old(self),
            old(self).migration matches Some(m) ==> (old(self).current.entries_spec().len()
                == 0 ==> (final(self).migration is None && final(self).current == m.db)),
            old(self).migration matches Some(m) ==> (old(self).current.entries_spec().len() > 0
                ==> (final(self).migration matches Some(m2) && ({
                let moved = min_int(
                    MIGRATION_STEP_SIZE as int,
                    old(self).current.entries_spec().len() as int,
                );
                &&& m2.db.entries_spec() == m.db.entries_spec()
                    + old(self).current.entries_spec().take(moved)
                &&& final(self).current.entries_spec() == old(self).current.entries_spec().skip(
                    moved,
                )
                &&& (m2.cursor matches Some(ck) && ck@ == old(self).current.entries_spec()[moved
                    - 1].0)
                &&& m2.countdown == (if m.countdown > 0 {
                    (m.countdown - 1) as u64
                } else {
                    0u64
                })
                &&& m2.db.label_spec() == m.db.label_spec()
                &&& final(self).current.label_spec() == old(self).current.label_spec()
            }))),
    {
        match self.migration.take() {
            None => {},
            Some(mut mig) => {
                if self.current.is_empty() {
                    proof {
                        assert(old(self).entries_spec() =~= mig.db.entries_spec());
                    }
                    self.current = mig.db;
                } else {
                    let ghost t0 = mig.db.entries_spec();
                    let ghost c0 = self.current.entries_spec();
                    let ghost cur0 = mig.cursor;
                    let ghost cd0 = mig.countdown;
                    let mut copied: u32 = 0;
                    let mut more = true;
                    while more && copied < MIGRATION_STEP_SIZE
                        invariant
                            old(self).wf(),
                            old(self).migration matches Some(mm) && mm.db.entries_spec() == t0
                                && mm.cursor == cur0,
                            old(self).current.entries_spec() == c0,
                            mig.db.wf(),
                            self.current.wf(),
                            self.migration is None,
                            copied <= MIGRATION_STEP_SIZE,
                            copied as int <= c0.len(),
                            c0.len() > 0,
                            mig.db.entries_spec() == t0 + c0.take(copied as int),
                            self.current.entries_spec() == c0.skip(copied as int),
                            more == (self.current.entries_spec().len() > 0),
                            copied == 0 ==> mig.cursor == cur0,
                            copied > 0 ==> (mig.cursor matches Some(ck) && ck@ == c0[copied
                                as int - 1].0),
                            mig.countdown == cd0,
                            mig.db.label_spec() == old(self).migration.unwrap().db.label_spec(),
                            self.current.label_spec() == old(self).current.label_spec(),
                        decreases MIGRATION_STEP_SIZE - copied,
                    {
                        let popped = self.current.pop_first();
                        match popped {
                            Some((k, v)) => {
                                let ck = copy_key(&k);
                                proof {
                                    assert((k@, v@) == c0[copied as int]);
                                    let s = mig.db.entries_spec();
                                    assert forall|j: int| 0 <= j < s.len() implies lex_lt(
                                        (#[trigger] s[j]).0,
                                        k@,
                                    ) by {
                                        if j < t0.len() {
                                            assert(s[j] == t0[j]);
                                            match cur0 {
                                                Some(cv) => {
                                                    lemma_lex_le_lt_trans(
                                                        t0[j].0,
                                                        cv@,
                                                        c0[copied as int].0,
                                                    );
                                                },
                                                None => {
                                                    assert(false);
                                                },
                                            }
                                        } else {
                                            assert(s[j] == c0.take(copied as int)[j - t0.len()]);
                                            assert(c0.take(copied as int)[j - t0.len()] == c0[j
                                                - t0.len()]);
                                        }
                                    }
                                }
                                mig.db.push_last(k, v);
                                mig.cursor = Some(ck);
                                copied += 1;
                                proof {
                                    assert(mig.db.entries_spec() =~= t0 + c0.take(copied as int));
                                    assert(self.current.entries_spec() =~= c0.skip(copied as int));
                                }
                                more = !self.current.is_empty();
                            },
                            None => {
                                proof {
                                    assert(false);
                                }
                            },
                        }
                    }
                    let ghost moved = copied as int;
                    proof {
                        if copied < MIGRATION_STEP_SIZE {
                            assert(c0.skip(moved).len() == 0);
                            assert(moved == c0.len());
                        }
                        assert(moved == min_int(MIGRATION_STEP_SIZE as int, c0.len() as int));
                        assert(moved >= 1);
                    }
                    mig.countdown = if mig.countdown > 0 {
                        mig.countdown - 1
                    } else {
                        0
                    };
                    self.migration = Some(mig);
                    proof {
                        let ckv = self.migration.unwrap().cursor.unwrap()@;
                        assert(ckv == c0[moved - 1].0);
                        let t1 = t0 + c0.take(moved);
                        assert forall|i: int| 0 <= i < t1.len() implies lex_le(
                            (#[trigger] t1[i]).0,
                            ckv,
                        ) by {
                            if i < t0.len() {
                                assert(t1[i] == t0[i]);
                                match cur0 {
                                    Some(cv) => {
                                        lemma_lex_le_lt_trans(t0[i].0, cv@, c0[moved - 1].0);
                                    },
                                    None => {
                                        assert(false);
                                    },
                                }
                            } else {
                                assert(t1[i] == c0[i - t0.len()]);
                                if i - t0.len() < moved - 1 {
                                    assert(lex_lt(c0[i - t0.len()].0, c0[moved - 1].0));
                                }
                            }
                        }
                        assert forall|i: int|
                            0 <= i < self.current.entries_spec().len() implies lex_lt(
                            ckv,
                            (#[trigger] self.current.entries_spec()[i]).0,
                        ) by {
                            assert(self.current.entries_spec()[i] == c0[moved + i]);
                            assert(lex_lt(c0[moved - 1].0, c0[moved + i].0));
                        }
                        assert(self.entries_spec() =~= old(self).entries_spec());
                    }
                }
            },
        }
    }
}

impl AccountsDbAsProxy {
    /// Runs a whole migration to `new_accounts_db`, stepping until it
    /// completes, and proves the migration laws along the way:
    ///
    /// * the observable contents are unchanged at every step;
    /// * with no concurrent writes, migrating `n` accounts takes exactly
    ///   `n / MIGRATION_STEP_SIZE` full-chunk steps, one more for a partial
    ///   chunk, plus the final swap step — the returned step count equals
    ///   `migration_countdown_spec(n)`, and after `k` steps the target holds
    ///   the smallest `min(k * MIGRATION_STEP_SIZE, n)` keys;
    /// * the migration is only over once everything has moved and the swap
    ///   has run, and one extra `step_migration` afterwards changes nothing.
    pub fn migration_steps_should_work(
        accounts_db: &mut AccountsDbAsProxy,
        new_accounts_db: AccountsDb,
    ) -> (steps: u64)
        requires
            old(accounts_db).wf(),
            old(accounts_db).migration is None,
            new_accounts_db.wf(),
            new_accounts_db.entries_spec().len() == 0,
        ensures
            final(accounts_db).wf(),
            final(accounts_db).migration is None,
            final(accounts_db).entries_spec() == old(accounts_db).entries_spec(),
            final(accounts_db).contents() == old(accounts_db).contents(),
            final(accounts_db).current.label_spec() == new_accounts_db.label_spec(),
            steps == migration_countdown_spec(old(accounts_db).entries_spec().len() as int),
    {
        let ghost orig = accounts_db.entries_spec();
        let ghost n = orig.len() as int;
        let ghost newlabel = new_accounts_db.label_spec();
        let r = accounts_db.start_migrating_accounts_to(new_accounts_db);
        let mut steps: u64 = 0;
        let mut active = true;
        proof {
            vstd::arithmetic::div_mod::lemma_fundamental_div_mod(n, MIGRATION_STEP_SIZE as int);
            vstd::arithmetic::div_mod::lemma_mod_bound(n, MIGRATION_STEP_SIZE as int);
            vstd::arithmetic::div_mod::lemma_div_pos_is_pos(n, MIGRATION_STEP_SIZE as int);
            assert(accounts_db.migration.unwrap().db.entries_spec() =~= orig.take(0));
            assert(accounts_db.current.entries_spec() =~= orig.skip(0));
        }
        while active
            invariant
                accounts_db.wf(),
                accounts_db.entries_spec() == orig,
                n == orig.len(),
                active == (accounts_db.migration is Some),
                steps <= migration_countdown_spec(n),
                accounts_db.migration matches Some(m) ==> ({
                    &&& steps as int <= migration_countdown_spec(n) - 1
                    &&& m.countdown == migration_countdown_spec(n) - steps
                    &&& m.db.entries_spec() == orig.take(
                        min_int(steps as int * (MIGRATION_STEP_SIZE as int), n),
                    )
                    &&& accounts_db.current.entries_spec() == orig.skip(
                        min_int(steps as int * (MIGRATION_STEP_SIZE as int), n),
                    )
                    &&& m.db.label_spec() == newlabel
                }),
                accounts_db.migration is None ==> (steps == migration_countdown_spec(n)
                    && accounts_db.current.entries_spec() == orig
                    && accounts_db.current.label_spec() == newlabel),
            decreases migration_countdown_spec(n) - steps,
        {
            let ghost pre = *accounts_db;
            accounts_db.step_migration();
            steps += 1;
            active = accounts_db.migration_in_progress();
            proof {
                vstd::arithmetic::div_mod::lemma_fundamental_div_mod(
                    n,
                    MIGRATION_STEP_SIZE as int,
                );
                vstd::arithmetic::div_mod::lemma_mod_bound(n, MIGRATION_STEP_SIZE as int);
                let s_int = MIGRATION_STEP_SIZE as int;
                let q = n / s_int;
                let rr = n % s_int;
                let k = steps as int - 1;
                let migrated = min_int(k * s_int, n);
                assert(pre.current.entries_spec().len() == n - migrated);
                if n - migrated == 0 {
                    assert(migrated == n);
                    assert(k * s_int >= n);
                    if rr == 0 {
                        assert(k * s_int >= q * s_int);
                        assert(k >= q);
                    } else {
                        assert(k * s_int > q * s_int);
                        assert(k > q);
                    }
                    assert(k == migration_countdown_spec(n) - 1);
                    assert(orig.take(n) =~= orig);
                    assert(accounts_db.current.entries_spec() == orig.take(n));
                } else {
                    assert(k * s_int < n);
                    assert(migrated == k * s_int);
                    let moved = min_int(s_int, n - migrated);
                    let m2 = accounts_db.migration.unwrap();
                    assert(min_int(steps as int * s_int, n) == migrated + moved);
                    assert(m2.db.entries_spec() =~= orig.take(migrated + moved)) by {
                        assert(m2.db.entries_spec() == orig.take(migrated) + orig.skip(
                            migrated,
                        ).take(moved));
                    }
                    assert(accounts_db.current.entries_spec() =~= orig.skip(migrated + moved))
                        by {
                        assert(accounts_db.current.entries_spec() == orig.skip(migrated).skip(
                            moved,
                        ));
                    }
                    if rr == 0 {
                        assert(k * s_int < q * s_int);
                        assert(k < q);
                    } else {
                        assert(k * s_int < (q + 1) * s_int);
                        assert(k < q + 1);
                    }
                    assert(steps as int <= migration_countdown_spec(n) - 1);
                }
            }
        }
        // Idempotent tail: once the migration is over, another step is a
        // no-op and leaves the contents untouched.
        accounts_db.step_migration();
        steps
    }
}

impl Default for AccountsDbAsProxy {
    fn default() -> (s: Self)
        ensures
            s.wf(),
            s.migration is None,
            s.entries_spec().len() == 0,
            s.current.label_spec() == SchemaLabel::InMemoryMap,
    {
        AccountsDbAsProxy { current: AccountsDb::default(), migration: None }
    }
}

} // verus!

//! An in-memory map from accounts to lists of accounts, the shape in which
//! the calendar keeps both of its indexes.
use vstd::prelude::*;

use crate::account::AccountId;

verus! {

/// Copies a list of accounts.
pub fn copy_accounts(v: &Vec<AccountId>) -> (r: Vec<AccountId>)
    ensures
        r@ == v@,
{
    let mut r: Vec<AccountId> = Vec::new();
    let mut i: usize = 0;
    while i < v.len()
        invariant
            0 <= i <= v.len(),
            r@ == v@.take(i as int),
        decreases v.len() - i,
    {
        let a = v[i];
        r.push(a);
        assert(v@.take(i as int).push(a) =~= v@.take(i + 1));
        i = i + 1;
    }
    assert(v@.take(v.len() as int) =~= v@);
    r
}

/// Whether `v` holds the account `a`.
pub fn contains_account(v: &Vec<AccountId>, a: &AccountId) -> (r: bool)
    ensures
        r == v@.contains(*a),
{
    let mut i: usize = 0;
    while i < v.len()
        invariant
            0 <= i <= v.len(),
            forall|j: int| 0 <= j < i ==> v@[j] != *a,
        decreases v.len() - i,
    {
        if v[i] == *a {
            assert(v@[i as int] == *a);
            return true;
        }
        i = i + 1;
    }
    false
}

/// The abstract value of a list of entries.
pub open spec fn pairs_view(entries: Seq<(AccountId, Vec<AccountId>)>) -> Seq<(AccountId, Seq<AccountId>)> {
    entries.map_values(|e: (AccountId, Vec<AccountId>)| (e.0, e.1@))
}

/// The map that storing each of `pairs` in turn builds from the empty map:
/// a later entry for a key replaces an earlier one.
pub open spec fn map_of(pairs: Seq<(AccountId, Seq<AccountId>)>) -> Map<AccountId, Seq<AccountId>>
    decreases pairs.len(),
{
    if pairs.len() == 0 {
        Map::empty()
    } else {
        map_of(pairs.drop_last()).insert(pairs.last().0, pairs.last().1)
    }
}

/// A map whose keys are accounts and whose values are lists of accounts.
pub struct AccountListMap {
    entries: Vec<(AccountId, Vec<AccountId>)>,
}

/// The keys of a list of entries, in order.
pub open spec fn entry_keys(entries: Seq<(AccountId, Vec<AccountId>)>) -> Seq<AccountId> {
    entries.map_values(|e: (AccountId, Vec<AccountId>)| e.0)
}

/// The map that a list of entries with distinct keys stands for.
pub open spec fn entries_map(entries: Seq<(AccountId, Vec<AccountId>)>) -> Map<AccountId, Seq<AccountId>> {
    let keys = entry_keys(entries);
    Map::new(|k: AccountId| keys.contains(k), |k: AccountId| entries[keys.index_of(k)].1@)
}

impl View for AccountListMap {
    type V = Map<AccountId, Seq<AccountId>>;

    closed spec fn view(&self) -> Map<AccountId, Seq<AccountId>> {
        entries_map(self.entries@)
    }
}

impl AccountListMap {
    /// No key is stored twice.
    #[verifier::type_invariant]
    closed spec fn keys_unique(&self) -> bool {
        entry_keys(self.entries@).no_duplicates()
    }

    /// With no key twice, storing the entries in turn builds the map they
    /// stand for.
    proof fn lemma_map_of_entries(entries: Seq<(AccountId, Vec<AccountId>)>)
        requires
            entry_keys(entries).no_duplicates(),
        ensures
            map_of(pairs_view(entries)) == entries_map(entries),
        decreases entries.len(),
    {
        let keys = entry_keys(entries);
        if entries.len() == 0 {
            assert(map_of(pairs_view(entries)) =~= entries_map(entries));
        } else {
            let d = entries.drop_last();
            let e = entries.last();
            let dkeys = entry_keys(d);
            assert(dkeys =~= keys.drop_last());
            assert(dkeys.no_duplicates()) by {
                assert forall|a: int, b: int| 0 <= a < dkeys.len() && 0 <= b < dkeys.len() && a != b
                    implies dkeys[a] != dkeys[b] by {
                    assert(dkeys[a] == keys[a] && dkeys[b] == keys[b]);
                }
            }
            Self::lemma_map_of_entries(d);
            assert(pairs_view(entries).drop_last() =~= pairs_view(d));
            let m = entries_map(entries);
            let md = entries_map(d);
            let last = keys.len() - 1;
            assert(keys[last] == e.0);
            assert forall|x: AccountId| #[trigger] m.contains_key(x) <==> md.insert(e.0, e.1@).contains_key(x) by {
                if keys.contains(x) && x != e.0 {
                    let j = choose|j: int| 0 <= j < keys.len() && keys[j] == x;
                    assert(j != last);
                    assert(dkeys[j] == x);
                }
                if dkeys.contains(x) {
                    let j = choose|j: int| 0 <= j < dkeys.len() && dkeys[j] == x;
                    assert(keys[j] == x);
                }
            }
            assert forall|x: AccountId| #[trigger] m.contains_key(x) implies m[x] == md.insert(e.0, e.1@)[x] by {
                let j = keys.index_of(x);
                assert(keys[j] == x);
                if x == e.0 {
                    assert(j == last);
                } else {
                    assert(j != last);
                    assert(dkeys[j] == x);
                    assert(dkeys.contains(x));
                    let jd = dkeys.index_of(x);
                    assert(dkeys[jd] == x);
                    assert(keys[jd] == x);
                    assert(jd == j);
                }
            }
            assert(m =~= md.insert(e.0, e.1@));
        }
    }

    /// The entries of the map, each key once; storing them in turn into an
    /// empty map builds this map again.
    pub fn to_entries(&self) -> (r: Vec<(AccountId, Vec<AccountId>)>)
        ensures
            map_of(pairs_view(r@)) == self@,
            entry_keys(r@).no_duplicates(),
    {
        proof {
            use_type_invariant(self);
        }
        let mut r: Vec<(AccountId, Vec<AccountId>)> = Vec::new();
        let mut i: usize = 0;
        while i < self.entries.len()
            invariant
                0 <= i <= self.entries@.len(),
                r@.len() == i,
                pairs_view(r@) == pairs_view(self.entries@).take(i as int),
                entry_keys(r@) == entry_keys(self.entries@).take(i as int),
            decreases self.entries.len() - i,
        {
            let e = &self.entries[i];
            let copied = (e.0, copy_accounts(&e.1));
            let ghost before = r@;
            r.push(copied);
            assert forall|k: int| 0 <= k < i + 1 implies #[trigger] pairs_view(r@)[k] == pairs_view(self.entries@).take(i + 1)[k]
                && entry_keys(r@)[k] == entry_keys(self.entries@).take(i + 1)[k] by {
                if k < i {
                    assert(r@[k] == before[k]);
                    assert(pairs_view(before)[k] == pairs_view(self.entries@).take(i as int)[k]);
                    assert(entry_keys(before)[k] == entry_keys(self.entries@).take(i as int)[k]);
                }
            }
            assert(pairs_view(r@) =~= pairs_view(self.entries@).take(i + 1));
            assert(entry_keys(r@) =~= entry_keys(self.entries@).take(i + 1));
            i = i + 1;
        }
        assert(pairs_view(self.entries@).take(self.entries.len() as int) =~= pairs_view(self.entries@));
        assert(entry_keys(self.entries@).take(self.entries.len() as int) =~= entry_keys(self.entries@));
        proof {
            Self::lemma_map_of_entries(self.entries@);
            assert(entries_map(self.entries@) == self@);
        }
        r
    }

    /// The map built by storing each of `entries` in turn.
    pub fn from_entries(entries: Vec<(AccountId, Vec<AccountId>)>) -> (r: AccountListMap)
        ensures
            r@ == map_of(pairs_view(entries@)),
    {
        let mut r = AccountListMap::new();
        let mut i: usize = 0;
        while i < entries.len()
            invariant
                0 <= i <= entries@.len(),
                r@ == map_of(pairs_view(entries@).take(i as int)),
            decreases entries.len() - i,
        {
            assert(pairs_view(entries@).take(i + 1).drop_last() =~= pairs_view(entries@).take(i as int));
            let e = &entries[i];
            r.insert(e.0, copy_accounts(&e.1));
            i = i + 1;
        }
        assert(pairs_view(entries@).take(entries.len() as int) =~= pairs_view(entries@));
        r
    }

    /// An empty map.
    pub fn new() -> (r: AccountListMap)
        ensures
            r@ == Map::<AccountId, Seq<AccountId>>::empty(),
    {
        let r = AccountListMap { entries: Vec::new() };
        assert(r@ =~= Map::<AccountId, Seq<AccountId>>::empty());
        r
    }

    fn find(&self, k: &AccountId) -> (r: Option<usize>)
        ensures
            match r {
                Some(i) => i < self.entries@.len() && self.entries@[i as int].0 == *k && entry_keys(
                    self.entries@,
                ).contains(*k) && entry_keys(self.entries@).index_of(*k) == i,
                None => !entry_keys(self.entries@).contains(*k),
            },
    {
        proof {
            use_type_invariant(self);
        }
        let ghost keys = entry_keys(self.entries@);
        let mut i: usize = 0;
        while i < self.entries.len()
            invariant
                keys == entry_keys(self.entries@),
                keys.no_duplicates(),
                0 <= i <= self.entries@.len(),
                forall|j: int| 0 <= j < i ==> keys[j] != *k,
            decreases self.entries.len() - i,
        {
            if self.entries[i].0 == *k {
                assert(keys[i as int] == *k);
                let ghost j = keys.index_of(*k);
                assert(keys[j] == *k);
                return Some(i);
            }
            i = i + 1;
        }
        None
    }

    /// The list stored under `k`, if any.
    pub fn get(&self, k: &AccountId) -> (r: Option<Vec<AccountId>>)
        ensures
            match r {
                Some(v) => self@.contains_key(*k) && v@ == self@[*k],
                None => !self@.contains_key(*k),
            },
    {
        match self.find(k) {
            Some(i) => Some(copy_accounts(&self.entries[i].1)),
            None => None,
        }
    }

    /// Stores `v` under `k`, in place of what was there.
    pub fn insert(&mut self, k: AccountId, v: Vec<AccountId>)
        ensures
            final(self)@ == old(self)@.insert(k, v@),
    {
        proof {
            use_type_invariant(&*self);
        }
        let ghost old_view = self@;
        let ghost old_keys = entry_keys(self.entries@);
        let ghost vv = v@;
        let found = self.find(&k);
        let mut entries: Vec<(AccountId, Vec<AccountId>)> = Vec::new();
        std::mem::swap(&mut entries, &mut self.entries);
        match found {
            Some(i) => {
                proof {
                    assert(entry_keys(entries@.update(i as int, (k, v))) =~= old_keys);
                }
                entries.set(i, (k, v));
                self.entries = entries;
                let ghost keys = entry_keys(self.entries@);
                assert(keys =~= old_keys);
                assert(keys.index_of(k) == i);
                assert(self.entries@[i as int].1@ == vv);
                assert(self@.contains_key(k));
                assert(self@[k] == vv);
                assert forall|x: AccountId| #[trigger] self@.contains_key(x) implies self@[x]
                    == old_view.insert(k, vv)[x] by {
                    if x != k {
                        let j = keys.index_of(x);
                        assert(keys[j] == x);
                        assert(j != i);
                    }
                }
                assert(self@ =~= old_view.insert(k, vv));
            },
            None => {
                proof {
                    assert(entry_keys(entries@.push((k, v))) =~= old_keys.push(k));
                }
                entries.push((k, v));
                assert(entry_keys(entries@) =~= old_keys.push(k));
                assert(old_keys.push(k).no_duplicates()) by {
                    assert forall|a: int, b: int|
                        0 <= a < old_keys.push(k).len() && 0 <= b < old_keys.push(k).len() && a != b
                        implies old_keys.push(k)[a] != old_keys.push(k)[b] by {
                        if a == old_keys.len() {
                            assert(old_keys[b] != k);
                        } else if b == old_keys.len() {
                            assert(old_keys[a] != k);
                        }
                    }
                }
                self.entries = entries;
                let ghost keys = entry_keys(self.entries@);
                assert(keys =~= old_keys.push(k));
                assert forall|x: AccountId| #[trigger] self@.contains_key(x) implies self@[x]
                    == old_view.insert(k, vv)[x] by {
                    let j = keys.index_of(x);
                    assert(keys[j] == x);
                    if x != k {
                        assert(old_keys.contains(x));
                        let j0 = old_keys.index_of(x);
                        assert(old_keys[j0] == x);
                        assert(keys[j0] == x);
                        assert(j == j0);
                    } else {
                        assert(j == old_keys.len());
                    }
                }
                assert forall|x: AccountId| #[trigger] self@.contains_key(x) <==> old_view.insert(
                    k,
                    vv,
                ).contains_key(x) by {
                    if x != k && keys.contains(x) {
                        let j = choose|j: int| 0 <= j < keys.len() && keys[j] == x;
                        assert(old_keys[j] == x);
                    }
                    if old_keys.contains(x) {
                        let j = choose|j: int| 0 <= j < old_keys.len() && old_keys[j] == x;
                        assert(keys[j] == x);
                    }
                    if x == k {
                        assert(keys[old_keys.len() as int] == k);
                    }
                }
                assert(self@ =~= old_view.insert(k, vv));
            },
        }
    }
}

} // verus!

//! The entries of a tree, found by key.

use crate::dirwalker::{PathEntry, PathEntryView};
use crate::error::Error;
use crate::key::PathKey;
use crate::path::{FilePath, PathView};
use vstd::hash_map::StringHashMap;
use vstd::prelude::*;

verus! {

/// What a snapshot says: keys and entries, in the order in which the keys came.
pub type SnapshotView = Seq<(Seq<char>, PathEntryView)>;

/// Whether item `i` has the key.
pub open spec fn is_at(s: SnapshotView, key: Seq<char>, i: int) -> bool {
    0 <= i < s.len() && s[i].0 == key
}

/// Whether some item has the key.
pub open spec fn has_key(s: SnapshotView, key: Seq<char>) -> bool {
    exists|i: int| is_at(s, key, i)
}

/// Where the item with the key stands.
pub open spec fn position(s: SnapshotView, key: Seq<char>) -> int {
    choose|i: int| is_at(s, key, i)
}

/// The entry with the key.
pub open spec fn entry_for(s: SnapshotView, key: Seq<char>) -> Option<PathEntryView> {
    if has_key(s, key) {
        Some(s[position(s, key)].1)
    } else {
        None
    }
}

/// Whether no key occurs twice.
pub open spec fn distinct_keys(s: SnapshotView) -> bool {
    forall|i: int, j: int|
        #![trigger s[i], s[j]]
        0 <= i < s.len() && 0 <= j < s.len() && s[i].0 == s[j].0 ==> i == j
}

/// The snapshot with the entry under the key; it takes the place of an earlier one.
pub open spec fn inserted(s: SnapshotView, key: Seq<char>, entry: PathEntryView) -> SnapshotView {
    if has_key(s, key) {
        s.update(position(s, key), (key, entry))
    } else {
        s.push((key, entry))
    }
}

/// The snapshot of a tree below `root` of which the first `n` entries are known.
pub open spec fn collected(root: PathView, entries: Seq<PathEntryView>, n: nat) -> Result<
    SnapshotView,
    crate::error::ErrorView,
>
    decreases n,
{
    if n == 0 {
        Ok(Seq::empty())
    } else {
        match collected(root, entries, (n - 1) as nat) {
            Err(e) => Err(e),
            Ok(s) => match crate::path::stripped(
                crate::path::parsed(entries[n - 1].location()),
                crate::path::parsed(root),
            ) {
                None => Err(crate::error::ErrorView::StripPrefix),
                Some(rest) => Ok(inserted(s, crate::key::key_of(rest), entries[n - 1])),
            },
        }
    }
}

/// What a list of entries says.
pub open spec fn entry_views(entries: Seq<PathEntry>) -> Seq<PathEntryView> {
    Seq::new(entries.len(), |i: int| entries[i]@)
}

/// What a list of keys and entries says.
pub open spec fn pair_views(pairs: Seq<(PathKey, PathEntry)>) -> SnapshotView {
    Seq::new(pairs.len(), |i: int| (pairs[i].0@, pairs[i].1@))
}

/// The snapshot that holds the first `n` of the pairs.
pub open spec fn gathered(pairs: SnapshotView, n: nat) -> SnapshotView
    decreases n,
{
    if n == 0 {
        Seq::empty()
    } else {
        inserted(gathered(pairs, (n - 1) as nat), pairs[n - 1].0, pairs[n - 1].1)
    }
}

/// The entries of a tree, each under its key.
pub struct Snapshot {
    entries: Vec<(PathKey, PathEntry)>,
    index: StringHashMap<usize>,
}

impl View for Snapshot {
    type V = SnapshotView;

    closed spec fn view(&self) -> SnapshotView {
        pair_views(self.entries@)
    }
}

/// The items of a list, last first.
pub fn reversed<T>(items: Vec<T>) -> (r: Vec<T>)
    ensures
        r@ == items@.reverse(),
{
    let ghost all = items@;
    let mut items = items;
    let mut r: Vec<T> = Vec::new();
    while items.len() > 0
        invariant
            items@.len() <= all.len(),
            items@ == all.take(items@.len() as int),
            r@ == all.skip(items@.len() as int).reverse(),
        decreases items@.len(),
    {
        let ghost n = items@.len() as int;
        match items.pop() {
            Some(item) => {
                r.push(item);
                proof {
                    assert(items@ =~= all.take(n - 1));
                    assert(item == all[n - 1]);
                    assert(r@ =~= all.skip(n - 1).reverse());
                }
            },
            None => {},
        }
    }
    assert(all.skip(0) =~= all);
    r
}

/// With distinct keys, an item is found where it stands.
pub proof fn lemma_entry_at(s: SnapshotView, i: int)
    requires
        distinct_keys(s),
        0 <= i < s.len(),
    ensures
        has_key(s, s[i].0),
        position(s, s[i].0) == i,
        entry_for(s, s[i].0) == Some(s[i].1),
{
    assert(is_at(s, s[i].0, i));
    let p = position(s, s[i].0);
    assert(is_at(s, s[i].0, p));
    assert(s[p].0 == s[i].0);
}

/// Inserting keeps the keys distinct, puts the entry under its key and leaves the
/// entries under other keys alone.
pub proof fn lemma_inserted(s: SnapshotView, key: Seq<char>, entry: PathEntryView)
    requires
        distinct_keys(s),
    ensures
        distinct_keys(inserted(s, key, entry)),
        entry_for(inserted(s, key, entry), key) == Some(entry),
        forall|other: Seq<char>|
            other != key ==> #[trigger] entry_for(inserted(s, key, entry), other) == entry_for(
                s,
                other,
            ),
{
    let t = inserted(s, key, entry);
    let p = if has_key(s, key) {
        position(s, key)
    } else {
        s.len() as int
    };
    if has_key(s, key) {
        assert(is_at(s, key, p));
    }
    assert(distinct_keys(t)) by {
        assert forall|i: int, j: int|
            #![trigger t[i], t[j]]
            0 <= i < t.len() && 0 <= j < t.len() && t[i].0 == t[j].0 implies i == j by {
            if i < s.len() && j < s.len() {
                assert(s[i].0 == t[i].0);
                assert(s[j].0 == t[j].0);
            } else if i < s.len() {
                assert(is_at(s, key, i));
            } else if j < s.len() {
                assert(is_at(s, key, j));
            }
        }
    }
    assert(t[p] == (key, entry));
    lemma_entry_at(t, p);
    assert forall|other: Seq<char>| other != key implies #[trigger] entry_for(t, other)
        == entry_for(s, other) by {
        if has_key(s, other) {
            let i = position(s, other);
            assert(is_at(s, other, i));
            assert(t[i] == s[i]);
            lemma_entry_at(t, i);
            lemma_entry_at(s, i);
        } else if has_key(t, other) {
            let i = position(t, other);
            assert(is_at(t, other, i));
            assert(is_at(s, other, i));
        }
    }
}

impl Snapshot {
    #[verifier::type_invariant]
    closed spec fn is_indexed(self) -> bool {
        &&& forall|i: int|
            #![trigger self.entries@[i]]
            0 <= i < self.entries@.len() ==> {
                &&& self.index@.contains_key(self.entries@[i].0@)
                &&& self.index@[self.entries@[i].0@] == i
            }
        &&& forall|k: Seq<char>| #[trigger]
            self.index@.contains_key(k) ==> {
                &&& self.index@[k] < self.entries@.len()
                &&& self.entries@[self.index@[k] as int].0@ == k
            }
    }

    /// A snapshot without entries.
    pub fn new() -> (r: Snapshot)
        ensures
            r@ == SnapshotView::empty(),
    {
        let r = Snapshot { entries: Vec::new(), index: StringHashMap::new() };
        assert(r@ =~= SnapshotView::empty());
        r
    }

    /// How many entries there are.
    pub fn len(&self) -> (r: usize)
        ensures
            r == self@.len(),
    {
        self.entries.len()
    }

    /// The item at a place.
    pub fn item(&self, i: usize) -> (r: (&PathKey, &PathEntry))
        requires
            i < self@.len(),
        ensures
            self@[i as int] == (r.0@, r.1@),
            distinct_keys(self@),
    {
        proof {
            use_type_invariant(self);
            self.lemma_distinct();
        }
        let pair = &self.entries[i];
        (&pair.0, &pair.1)
    }

    proof fn lemma_distinct(&self)
        requires
            self.is_indexed(),
        ensures
            distinct_keys(self@),
    {
        assert forall|i: int, j: int|
            #![trigger self@[i], self@[j]]
            0 <= i < self@.len() && 0 <= j < self@.len() && self@[i].0 == self@[j].0 implies i
            == j by {
            assert(self.entries@[i].0@ == self.entries@[j].0@);
        }
    }

    /// The entry under a key.
    pub fn get(&self, key: &PathKey) -> (r: Option<&PathEntry>)
        ensures
            match r {
                Some(e) => {
                    &&& entry_for(self@, key@) == Some(e@)
                    &&& exists|i: int|
                        #![trigger self@[i]]
                        0 <= i < self@.len() && self@[i] == (key@, e@)
                },
                None => {
                    &&& entry_for(self@, key@) is None
                    &&& forall|i: int|
                        #![trigger self@[i]]
                        0 <= i < self@.len() ==> self@[i].0 != key@
                },
            },
            distinct_keys(self@),
    {
        proof {
            use_type_invariant(self);
            self.lemma_distinct();
        }
        match self.index.get(key.as_str()) {
            Some(i) => {
                proof {
                    lemma_entry_at(self@, *i as int);
                }
                Some(&self.entries[*i].1)
            },
            None => {
                proof {
                    if has_key(self@, key@) {
                        let i = position(self@, key@);
                        assert(is_at(self@, key@, i));
                        assert(self.entries@[i].0@ == key@);
                    }
                }
                None
            },
        }
    }

    /// The snapshot with the entry under the key; it takes the place of an earlier one.
    pub fn insert(self, key: PathKey, entry: PathEntry) -> (r: Snapshot)
        ensures
            r@ == inserted(self@, key@, entry@),
            distinct_keys(r@),
    {
        proof {
            use_type_invariant(&self);
            self.lemma_distinct();
            lemma_inserted(self@, key@, entry@);
        }
        let ghost before = self@;
        let Snapshot { mut entries, mut index } = self;
        let ghost old_entries = entries@;
        let found: Option<usize> = match index.get(key.as_str()) {
            Some(i) => Some(*i),
            None => None,
        };
        let ghost k = key@;
        match found {
            Some(i) => {
                proof {
                    lemma_entry_at(before, i as int);
                }
                let pair = (key, entry);
                let ghost new_pair = pair;
                entries.set(i, pair);
                assert(pair_views(entries@) =~= before.update(i as int, (k, new_pair.1@)));
                assert forall|j: int| #![trigger entries@[j]] 0 <= j < entries@.len() implies {
                    &&& index@.contains_key(entries@[j].0@)
                    &&& index@[entries@[j].0@] == j
                } by {
                    if j != i {
                        assert(entries@[j] == old_entries[j]);
                    }
                }
            },
            None => {
                proof {
                    if has_key(before, k) {
                        let j = position(before, k);
                        assert(is_at(before, k, j));
                        assert(old_entries[j].0@ == k);
                    }
                }
                let text = key.clone();
                let pair = (key, entry);
                let ghost new_pair = pair;
                let place: usize = entries.len();
                index.insert(text.into_text(), place);
                entries.push(pair);
                assert(pair_views(entries@) =~= before.push((k, new_pair.1@)));
                assert forall|j: int| #![trigger entries@[j]] 0 <= j < entries@.len() implies {
                    &&& index@.contains_key(entries@[j].0@)
                    &&& index@[entries@[j].0@] == j
                } by {
                    if j < place {
                        assert(entries@[j] == old_entries[j]);
                    }
                }
            },
        }
        Snapshot { entries, index }
    }

    /// The snapshot of a tree that was walked: every entry under the key of its
    /// place below `root`. An entry that does not lie below `root` is an error.
    pub fn collect(root: &FilePath, entries: Vec<PathEntry>) -> (r: Result<Snapshot, Error>)
        ensures
            match r {
                Ok(s) => {
                    &&& collected(root@, entry_views(entries@), entries@.len()) == Ok::<
                        SnapshotView,
                        crate::error::ErrorView,
                    >(s@)
                    &&& distinct_keys(s@)
                },
                Err(e) => collected(root@, entry_views(entries@), entries@.len()) == Err::<
                    SnapshotView,
                    crate::error::ErrorView,
                >(e@),
            },
    {
        let ghost all = entry_views(entries@);
        let ghost source = entries@;
        let mut left = reversed(entries);
        let mut s = Snapshot::new();
        while left.len() > 0
            invariant
                left@.len() <= source.len(),
                source == entries@,
                all == entry_views(source),
                left@ == source.skip(source.len() - left@.len()).reverse(),
                collected(root@, all, (source.len() - left@.len()) as nat) == Ok::<
                    SnapshotView,
                    crate::error::ErrorView,
                >(s@),
                distinct_keys(s@),
            decreases left@.len(),
        {
            let ghost n = (source.len() - left@.len()) as nat;
            match left.pop() {
                Some(entry) => {
                    proof {
                        assert(source.skip(n as int).reverse().last() == source[n as int]);
                        assert(entry@ == all[n as int]);
                        assert(left@ =~= source.skip(n as int + 1).reverse());
                    }
                    match PathKey::from_pathentry(root, &entry) {
                        Ok(key) => {
                            s = s.insert(key, entry);
                        },
                        Err(e) => {
                            proof {
                                lemma_collected_error(root@, all, n + 1, all.len());
                            }
                            return Err(e);
                        },
                    }
                },
                None => {},
            }
        }
        Ok(s)
    }

    /// The snapshot that holds the pairs; of two under one key the later one stays.
    pub fn from_pairs(pairs: Vec<(PathKey, PathEntry)>) -> (r: Snapshot)
        ensures
            r@ == gathered(pair_views(pairs@), pairs@.len()),
            distinct_keys(r@),
            distinct_keys(pair_views(pairs@)) ==> r@ == pair_views(pairs@),
    {
        let ghost all = pair_views(pairs@);
        let ghost source = pairs@;
        let mut left = reversed(pairs);
        let mut s = Snapshot::new();
        while left.len() > 0
            invariant
                left@.len() <= source.len(),
                all == pair_views(source),
                left@ == source.skip(source.len() - left@.len()).reverse(),
                gathered(all, (source.len() - left@.len()) as nat) == s@,
                distinct_keys(s@),
            decreases left@.len(),
        {
            let ghost n = (source.len() - left@.len()) as nat;
            match left.pop() {
                Some(pair) => {
                    proof {
                        assert(source.skip(n as int).reverse().last() == source[n as int]);
                        assert(left@ =~= source.skip(n as int + 1).reverse());
                        assert(all[n as int] == (pair.0@, pair.1@));
                    }
                    let (key, entry) = pair;
                    s = s.insert(key, entry);
                },
                None => {},
            }
        }
        proof {
            if distinct_keys(all) {
                lemma_gathered_distinct(all, all.len());
                assert(all.take(all.len() as int) =~= all);
            }
        }
        s
    }

    /// The keys and the entries.
    pub fn into_pairs(self) -> (r: Vec<(PathKey, PathEntry)>)
        ensures
            pair_views(r@) == self@,
            distinct_keys(self@),
    {
        proof {
            use_type_invariant(&self);
            self.lemma_distinct();
        }
        self.entries
    }
}

/// An error among the first entries is the error of them all.
proof fn lemma_collected_error(root: PathView, entries: Seq<PathEntryView>, n: nat, m: nat)
    requires
        n <= m,
        collected(root, entries, n) is Err,
    ensures
        collected(root, entries, m) == collected(root, entries, n),
    decreases m - n,
{
    if n < m {
        lemma_collected_error(root, entries, n, (m - 1) as nat);
    }
}

/// A snapshot cannot be collected only because an entry lies elsewhere.
pub proof fn lemma_collected_fails(root: PathView, entries: Seq<PathEntryView>, n: nat)
    ensures
        match collected(root, entries, n) {
            Ok(s) => true,
            Err(e) => e == crate::error::ErrorView::StripPrefix,
        },
    decreases n,
{
    if n > 0 {
        lemma_collected_fails(root, entries, (n - 1) as nat);
    }
}

/// The entry with a key is one that stands under it; there is none only if none does.
pub proof fn lemma_entry_for(s: SnapshotView, key: Seq<char>)
    ensures
        match entry_for(s, key) {
            Some(e) => exists|i: int| #![trigger s[i]] 0 <= i < s.len() && s[i] == (key, e),
            None => forall|i: int| #![trigger s[i]] 0 <= i < s.len() ==> s[i].0 != key,
        },
{
    if has_key(s, key) {
        let i = position(s, key);
        assert(is_at(s, key, i));
        assert(s[i] == (key, s[i].1));
    } else {
        assert forall|i: int| #![trigger s[i]] 0 <= i < s.len() implies s[i].0 != key by {
            assert(!is_at(s, key, i));
        }
    }
}

/// Inserting under a new key adds the item at the end; under a key that is there it
/// changes the entry of that item alone.
pub proof fn lemma_inserted_in_place(s: SnapshotView, key: Seq<char>, entry: PathEntryView)
    requires
        distinct_keys(s),
    ensures
        (forall|i: int| #![trigger s[i]] 0 <= i < s.len() ==> s[i].0 != key) ==> inserted(
            s,
            key,
            entry,
        ) == s.push((key, entry)),
        forall|i: int|
            #![trigger s[i]]
            0 <= i < s.len() && s[i].0 == key ==> inserted(s, key, entry) == s.update(
                i,
                (key, entry),
            ),
{
    lemma_entry_for(s, key);
    assert forall|i: int| #![trigger s[i]] 0 <= i < s.len() && s[i].0 == key implies inserted(
        s,
        key,
        entry,
    ) == s.update(i, (key, entry)) by {
        lemma_entry_at(s, i);
    }
    if forall|i: int| #![trigger s[i]] 0 <= i < s.len() ==> s[i].0 != key {
        assert(!has_key(s, key));
    }
}

/// A snapshot of pairs with distinct keys is those pairs: each key has the entry that it
/// was paired with, in the order of the pairs, and there are no others.
pub proof fn lemma_gathered_distinct(pairs: SnapshotView, n: nat)
    requires
        distinct_keys(pairs),
        n <= pairs.len(),
    ensures
        gathered(pairs, n) == pairs.take(n as int),
    decreases n,
{
    if n == 0 {
        assert(pairs.take(0) =~= Seq::empty());
    } else {
        let m = n - 1;
        let before = pairs.take(m);
        lemma_gathered_distinct(pairs, m as nat);
        assert forall|i: int| #![trigger before[i]] 0 <= i < before.len() implies before[i].0
            != pairs[m].0 by {
            assert(before[i] == pairs[i]);
        }
        assert(distinct_keys(before)) by {
            assert forall|i: int, j: int|
                #![trigger before[i], before[j]]
                0 <= i < before.len() && 0 <= j < before.len() && before[i].0
                    == before[j].0 implies i == j by {
                assert(before[i] == pairs[i] && before[j] == pairs[j]);
            }
        }
        lemma_inserted_in_place(before, pairs[m].0, pairs[m].1);
        assert(pairs.take(n as int) =~= before.push((pairs[m].0, pairs[m].1)));
    }
}

/// Of pairs under one key the last one stays, as it is; every item is one of the pairs.
pub proof fn lemma_gathered(pairs: SnapshotView, n: nat)
    requires
        n <= pairs.len(),
    ensures
        distinct_keys(gathered(pairs, n)),
        forall|i: int|
            #![trigger pairs[i]]
            0 <= i < n && (forall|j: int|
                #![trigger pairs[j]]
                i < j < n ==> pairs[j].0 != pairs[i].0) ==> entry_for(
                gathered(pairs, n),
                pairs[i].0,
            ) == Some(pairs[i].1),
        forall|k: int|
            #![trigger gathered(pairs, n)[k]]
            0 <= k < gathered(pairs, n).len() ==> exists|i: int|
                #![trigger pairs[i]]
                0 <= i < n && pairs[i] == gathered(pairs, n)[k],
    decreases n,
{
    if n > 0 {
        let m = n - 1;
        let before = gathered(pairs, m as nat);
        let after = gathered(pairs, n);
        let (key, entry) = pairs[m];
        lemma_gathered(pairs, m as nat);
        lemma_inserted(before, key, entry);
        assert forall|i: int|
            #![trigger pairs[i]]
            0 <= i < n && (forall|j: int|
                #![trigger pairs[j]]
                i < j < n ==> pairs[j].0 != pairs[i].0) implies entry_for(after, pairs[i].0)
            == Some(pairs[i].1) by {
            if i < m {
                assert(pairs[m].0 != pairs[i].0);
                assert(entry_for(after, pairs[i].0) == entry_for(before, pairs[i].0));
            }
        }
        assert forall|k: int| #![trigger after[k]] 0 <= k < after.len() implies exists|i: int|
            #![trigger pairs[i]]
            0 <= i < n && pairs[i] == after[k] by {
            if after[k] == (key, entry) {
                assert(pairs[m] == after[k]);
            } else {
                if has_key(before, key) {
                    assert(is_at(before, key, position(before, key)));
                }
                assert(after[k] == before[k]);
                let i = choose|i: int|
                    #![trigger pairs[i]]
                    0 <= i < m && pairs[i] == before[k];
                assert(pairs[i] == after[k]);
            }
        }
    }
}

/// The entries of a walk, each under the key of its place below the root.
pub open spec fn keyed_pairs(root: PathView, entries: Seq<PathEntryView>) -> SnapshotView {
    Seq::new(
        entries.len(),
        |i: int|
            (
                crate::key::key_of(
                    crate::path::parsed(entries[i].location()).skip(
                        crate::path::parsed(root).len() as int,
                    ),
                ),
                entries[i],
            ),
    )
}

/// A snapshot is collected if and only if every entry lies below the root. It then holds
/// the entries as they are, under the keys of their places there; else the error is
/// that of a path that lies elsewhere.
pub proof fn lemma_collected(root: PathView, entries: Seq<PathEntryView>, n: nat)
    requires
        n <= entries.len(),
    ensures
        (forall|i: int|
            #![trigger entries[i]]
            0 <= i < n ==> crate::path::parsed(root).is_prefix_of(
                crate::path::parsed(entries[i].location()),
            )) ==> collected(root, entries, n) == Ok::<SnapshotView, crate::error::ErrorView>(
            gathered(keyed_pairs(root, entries), n),
        ),
        forall|i: int|
            #![trigger entries[i]]
            0 <= i < n && !crate::path::parsed(root).is_prefix_of(
                crate::path::parsed(entries[i].location()),
            ) ==> collected(root, entries, n) == Err::<SnapshotView, crate::error::ErrorView>(
                crate::error::ErrorView::StripPrefix,
            ),
        forall|i: int|
            #![trigger keyed_pairs(root, entries)[i]]
            0 <= i < n ==> keyed_pairs(root, entries)[i].1 == entries[i],
    decreases n,
{
    lemma_collected_fails(root, entries, n);
    if n > 0 {
        lemma_collected(root, entries, (n - 1) as nat);
    }
}

/// The views of lists show each item, in its place.
pub proof fn lemma_list_views(entries: Seq<PathEntry>, pairs: Seq<(PathKey, PathEntry)>)
    ensures
        entry_views(entries).len() == entries.len(),
        forall|i: int|
            #![trigger entry_views(entries)[i]]
            0 <= i < entries.len() ==> entry_views(entries)[i] == entries[i]@,
        pair_views(pairs).len() == pairs.len(),
        forall|i: int|
            #![trigger pair_views(pairs)[i]]
            0 <= i < pairs.len() ==> pair_views(pairs)[i] == (pairs[i].0@, pairs[i].1@),
{
}

} // verus!

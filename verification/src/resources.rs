//! The wavetable bank: single-cycle waveforms and their names, kept side by side.

use std::sync::Arc;
use vstd::prelude::*;

verus! {

/// Number of samples every wavetable is resampled to.
pub const TABLE_SIZE: usize = 2048;

/// Loaded wavetables, generic over the sample type of a table.
///
/// `tables[i]` is the waveform whose name is `names[i]`.
pub struct WavetableBank<S> {
    pub tables: Vec<Arc<Vec<S>>>,
    pub names: Vec<String>,
}

/// A loaded wavetable as (brightness, name, samples).
pub type KeyedTable<S> = (u64, Seq<char>, Seq<S>);

/// The tables that loaded, each with its brightness and name, in the order
/// they were found.
pub open spec fn loaded_entries<S>(candidates: Seq<(String, Option<(u64, Vec<S>)>)>) -> Seq<KeyedTable<S>>
    decreases candidates.len(),
{
    if candidates.len() == 0 {
        Seq::empty()
    } else {
        let rest = loaded_entries(candidates.drop_last());
        match candidates.last().1 {
            Some(loaded) => rest.push((loaded.0, candidates.last().0@, loaded.1@)),
            None => rest,
        }
    }
}

/// Where a table of brightness `key` goes in `sorted`: after every table that
/// is not brighter.
pub open spec fn brightness_position<S>(sorted: Seq<KeyedTable<S>>, key: u64) -> int
    decreases sorted.len(),
{
    if sorted.len() == 0 {
        0
    } else if sorted[0].0 > key {
        0
    } else {
        1 + brightness_position(sorted.drop_first(), key)
    }
}

/// The tables ordered by brightness, darkest first; tables of equal
/// brightness keep the order in which they were found.
pub open spec fn sort_by_brightness<S>(tables: Seq<KeyedTable<S>>) -> Seq<KeyedTable<S>>
    decreases tables.len(),
{
    if tables.len() == 0 {
        Seq::empty()
    } else {
        let sorted = sort_by_brightness(tables.drop_last());
        sorted.insert(brightness_position(sorted, tables.last().0), tables.last())
    }
}

/// Brightness never decreases along the sequence.
pub open spec fn brightness_sorted<S>(tables: Seq<KeyedTable<S>>) -> bool {
    forall|i: int, j: int| 0 <= i <= j < tables.len() ==> #[trigger] tables[i].0 <= #[trigger] tables[j].0
}

/// The (name, samples) pairs of keyed tables.
pub open spec fn without_brightness<S>(tables: Seq<KeyedTable<S>>) -> Seq<(Seq<char>, Seq<S>)> {
    Seq::new(tables.len(), |i: int| (tables[i].1, tables[i].2))
}

/// In a sorted sequence, the tables before a brightness position are not
/// brighter than `key` and those from it on are brighter.
pub proof fn lemma_brightness_position<S>(sorted: Seq<KeyedTable<S>>, key: u64)
    requires
        brightness_sorted(sorted),
    ensures
        0 <= brightness_position(sorted, key) <= sorted.len(),
        forall|i: int| 0 <= i < brightness_position(sorted, key) ==> #[trigger] sorted[i].0 <= key,
        forall|i: int| brightness_position(sorted, key) <= i < sorted.len() ==> #[trigger] sorted[i].0 > key,
    decreases sorted.len(),
{
    if sorted.len() > 0 && sorted[0].0 <= key {
        let rest = sorted.drop_first();
        assert forall|i: int, j: int| 0 <= i <= j < rest.len() implies #[trigger] rest[i].0 <= #[trigger] rest[j].0 by {
            assert(sorted[i + 1].0 <= sorted[j + 1].0);
        }
        lemma_brightness_position(rest, key);
        assert forall|i: int| 0 <= i < brightness_position(sorted, key) implies #[trigger] sorted[i].0 <= key by {
            if i > 0 {
                assert(sorted[i] == rest[i - 1]);
            }
        }
        assert forall|i: int| brightness_position(sorted, key) <= i < sorted.len() implies #[trigger] sorted[i].0 > key by {
            assert(sorted[i] == rest[i - 1]);
        }
    } else if sorted.len() > 0 {
        assert forall|i: int| 0 <= i < sorted.len() implies #[trigger] sorted[i].0 > key by {
            assert(sorted[0].0 <= sorted[i].0);
        }
    }
}

/// Sorting by brightness orders the tables by brightness and loses or adds
/// none: it is a permutation, with each name kept beside its samples.
pub proof fn lemma_sort_by_brightness<S>(tables: Seq<KeyedTable<S>>)
    ensures
        brightness_sorted(sort_by_brightness(tables)),
        sort_by_brightness(tables).to_multiset() == tables.to_multiset(),
        sort_by_brightness(tables).len() == tables.len(),
    decreases tables.len(),
{
    broadcast use vstd::seq_lib::group_to_multiset_ensures;
    if tables.len() == 0 {
        assert(tables.to_multiset() =~= vstd::multiset::Multiset::empty());
        assert(sort_by_brightness(tables).to_multiset() =~= vstd::multiset::Multiset::empty());
    } else {
        let init = tables.drop_last();
        let x = tables.last();
        let sorted = sort_by_brightness(init);
        lemma_sort_by_brightness(init);
        let p = brightness_position(sorted, x.0);
        lemma_brightness_position(sorted, x.0);
        let result = sorted.insert(p, x);
        sorted.insert_ensures(p, x);
        assert forall|i: int, j: int| 0 <= i <= j < result.len() implies #[trigger] result[i].0 <= #[trigger] result[j].0 by {
            if i < p {
                assert(result[i] == sorted[i]);
                if j < p {
                    assert(result[j] == sorted[j]);
                } else if j > p {
                    assert(result[j] == sorted[j - 1]);
                }
            } else if i == p {
                if j > p {
                    assert(result[j] == sorted[j - 1]);
                }
            } else {
                assert(result[i] == sorted[i - 1]);
                assert(result[j] == sorted[j - 1]);
            }
        }
        assert(init.push(x) =~= tables);
    }
}

/// `Arc::clone`: a second handle to the same shared table.
#[verifier::external_body]
fn share_table<S>(table: &Arc<Vec<S>>) -> (shared: Arc<Vec<S>>)
    ensures
        shared@ == table@,
{
    Arc::clone(table)
}

/// The position at which a table of brightness `key` goes into the bank whose
/// brightness keys are `keys`.
fn brightness_slot<S>(keys: &Vec<u64>, key: u64, Ghost(sorted): Ghost<Seq<KeyedTable<S>>>) -> (pos: usize)
    requires
        keys@.len() == sorted.len(),
        forall|i: int| 0 <= i < sorted.len() ==> #[trigger] sorted[i].0 == keys@[i],
    ensures
        pos == brightness_position(sorted, key),
        pos <= keys@.len(),
        forall|i: int| 0 <= i < pos ==> #[trigger] keys@[i] <= key,
        pos < keys@.len() ==> keys@[pos as int] > key,
{
    let mut j: usize = 0;
    assert(sorted.skip(0) =~= sorted);
    while j < keys.len() && keys[j] <= key
        invariant
            j <= keys@.len(),
            forall|i: int| 0 <= i < j ==> #[trigger] keys@[i] <= key,
            keys@.len() == sorted.len(),
            forall|i: int| 0 <= i < sorted.len() ==> #[trigger] sorted[i].0 == keys@[i],
            brightness_position(sorted, key) == j + brightness_position(sorted.skip(j as int), key),
        decreases keys@.len() - j,
    {
        assert(sorted.skip(j as int)[0] == sorted[j as int]);
        assert(sorted.skip(j as int).drop_first() =~= sorted.skip(j as int + 1));
        j = j + 1;
    }
    if j < keys.len() {
        assert(sorted.skip(j as int)[0] == sorted[j as int]);
    } else {
        assert(sorted.skip(j as int).len() == 0);
    }
    j
}

/// Brightness keys that never decrease.
spec fn keys_sorted(keys: Seq<u64>) -> bool {
    forall|i: int, j: int| 0 <= i < j < keys.len() ==> #[trigger] keys[i] <= #[trigger] keys[j]
}

/// Entries of equal brightness appear in the order of the candidates they
/// came from.
spec fn keys_stable(keys: Seq<u64>, origin: Seq<int>) -> bool {
    forall|i: int, j: int| 0 <= i < j < keys.len() && #[trigger] keys[i] == #[trigger] keys[j] ==> origin[i] < origin[j]
}

/// Entry `i` of the bank under construction (key, name, table) is loaded
/// candidate `origin[i]`, one of the first `bound` candidates.
spec fn traced<S>(
    all: Seq<(String, Option<(u64, Vec<S>)>)>,
    origin: Seq<int>,
    keys: Seq<u64>,
    names: Seq<String>,
    tables: Seq<Arc<Vec<S>>>,
    bound: int,
) -> bool {
    &&& origin.len() == keys.len()
    &&& names.len() == keys.len()
    &&& tables.len() == keys.len()
    &&& forall|i: int| 0 <= i < origin.len() ==> {
        &&& 0 <= #[trigger] origin[i] < bound
        &&& all[origin[i]].1 is Some
        &&& keys[i] == (all[origin[i]].1->0).0
        &&& names[i]@ == all[origin[i]].0@
        &&& tables[i]@ == (all[origin[i]].1->0).1@
    }
}

/// Inserting a key at its brightness position keeps the keys sorted and
/// stable.
proof fn lemma_insert_ordered(keys: Seq<u64>, origin: Seq<int>, key: u64, idx: int, pos: int)
    requires
        keys.len() == origin.len(),
        0 <= pos <= keys.len(),
        keys_sorted(keys),
        keys_stable(keys, origin),
        forall|i: int| 0 <= i < origin.len() ==> #[trigger] origin[i] < idx,
        forall|i: int| 0 <= i < pos ==> #[trigger] keys[i] <= key,
        pos < keys.len() ==> keys[pos] > key,
    ensures
        keys_sorted(keys.insert(pos, key)),
        keys_stable(keys.insert(pos, key), origin.insert(pos, idx)),
{
    let nk = keys.insert(pos, key);
    let no = origin.insert(pos, idx);
    keys.insert_ensures(pos, key);
    origin.insert_ensures(pos, idx);
    assert forall|i: int| pos <= i < keys.len() implies #[trigger] keys[i] > key by {
        assert(keys[pos] <= keys[i]);
    }
    assert forall|i: int, j: int| 0 <= i < j < nk.len() implies #[trigger] nk[i] <= #[trigger] nk[j] by {
        if i < pos {
            if j < pos {
                assert(keys[i] <= keys[j]);
            } else if j > pos {
                assert(nk[j] == keys[j - 1]);
            }
        } else if i == pos {
            assert(nk[j] == keys[j - 1]);
        } else {
            assert(keys[i - 1] <= keys[j - 1]);
        }
    }
    assert forall|i: int, j: int| 0 <= i < j < nk.len() && #[trigger] nk[i] == #[trigger] nk[j] implies no[i] < no[j] by {
        if i < pos {
            if j < pos {
                assert(keys[i] == keys[j]);
            } else if j > pos {
                assert(nk[j] == keys[j - 1]);
                assert(keys[j - 1] > key);
            } else {
                assert(no[i] == origin[i]);
            }
        } else if i == pos {
            assert(nk[j] == keys[j - 1]);
        } else {
            assert(keys[i - 1] == keys[j - 1]);
        }
    }
}

/// Inserting loaded candidate `idx` at the same position in every column keeps
/// every entry traced to its candidate.
proof fn lemma_insert_traced<S>(
    all: Seq<(String, Option<(u64, Vec<S>)>)>,
    origin: Seq<int>,
    keys: Seq<u64>,
    names: Seq<String>,
    tables: Seq<Arc<Vec<S>>>,
    idx: int,
    pos: int,
    name: String,
    table: Arc<Vec<S>>,
    key: u64,
)
    requires
        traced(all, origin, keys, names, tables, idx),
        0 <= idx < all.len(),
        0 <= pos <= keys.len(),
        all[idx].1 is Some,
        key == (all[idx].1->0).0,
        name@ == all[idx].0@,
        table@ == (all[idx].1->0).1@,
    ensures
        traced(all, origin.insert(pos, idx), keys.insert(pos, key), names.insert(pos, name), tables.insert(pos, table), idx + 1),
{
    origin.insert_ensures(pos, idx);
    keys.insert_ensures(pos, key);
    names.insert_ensures(pos, name);
    tables.insert_ensures(pos, table);
    let no = origin.insert(pos, idx);
    assert forall|i: int| 0 <= i < no.len() implies {
        &&& 0 <= #[trigger] no[i] < idx + 1
        &&& all[no[i]].1 is Some
        &&& keys.insert(pos, key)[i] == (all[no[i]].1->0).0
        &&& names.insert(pos, name)[i]@ == all[no[i]].0@
        &&& tables.insert(pos, table)[i]@ == (all[no[i]].1->0).1@
    } by {
        if i < pos {
            assert(no[i] == origin[i]);
        } else if i > pos {
            assert(no[i] == origin[i - 1]);
        }
    }
}

impl<S> WavetableBank<S> {
    /// Every table has a name and every name a table.
    pub open spec fn wf(&self) -> bool {
        self.tables@.len() == self.names@.len()
    }

    /// The bank as (name, table) pairs.
    pub open spec fn entries(&self) -> Seq<(Seq<char>, Seq<S>)>
        recommends
            self.wf(),
    {
        Seq::new(self.tables@.len(), |i: int| (self.names@[i]@, self.tables@[i]@))
    }

    /// The table that `get(index)` hands out: indices wrap around the bank.
    pub open spec fn table_at(&self, index: int) -> Seq<S>
        recommends
            self.tables@.len() > 0,
    {
        self.tables@[index % (self.tables@.len() as int)]@
    }

    /// Indices wrap around the bank: `get` repeats every `len` indices, and an
    /// index below `len` names its own table.
    pub proof fn lemma_get_wraps(&self, index: int)
        requires
            self.tables@.len() > 0,
            index >= 0,
        ensures
            self.table_at(index + self.tables@.len()) == self.table_at(index),
            index < self.tables@.len() ==> self.table_at(index) == self.tables@[index]@,
    {
        let n = self.tables@.len() as int;
        vstd::arithmetic::div_mod::lemma_mod_add_multiples_vanish(index, n);
        if index < n {
            vstd::arithmetic::div_mod::lemma_small_mod(index as nat, n as nat);
        }
    }

    /// An empty bank.
    pub fn new() -> (bank: Self)
        ensures
            bank.wf(),
            bank.tables@.len() == 0,
    {
        WavetableBank { tables: Vec::new(), names: Vec::new() }
    }

    /// The table at `index`, wrapping around the number of tables.
    pub fn get(&self, index: usize) -> (table: Arc<Vec<S>>)
        requires
            self.tables@.len() > 0,
        ensures
            table@ == self.table_at(index as int),
    {
        let n = self.tables.len();
        share_table(&self.tables[index % n])
    }

    /// The bank with the brightness of each table beside it.
    spec fn keyed_entries(&self, keys: Seq<u64>) -> Seq<KeyedTable<S>> {
        Seq::new(self.tables@.len(), |i: int| (keys[i], self.names@[i]@, self.tables@[i]@))
    }

    /// Assembles a bank from the wavetable files that were found, each with its
    /// name and, where it loaded, its brightness and table. Files that failed
    /// to load are left out, and the tables are ordered by brightness, darkest
    /// first, each name kept beside its table; tables of equal brightness keep
    /// the order in which they were found. When none loaded, the bank holds
    /// `fallback` under the name `fallback_saw`.
    pub fn from_loaded(candidates: Vec<(String, Option<(u64, Vec<S>)>)>, fallback: Vec<S>) -> (bank: Self)
        ensures
            bank.wf(),
            bank.tables@.len() > 0,
            loaded_entries(candidates@).len() > 0 ==> bank.entries() == without_brightness(
                sort_by_brightness(loaded_entries(candidates@)),
            ),
            loaded_entries(candidates@).len() == 0 ==> bank.entries() == seq![("fallback_saw"@, fallback@)],
            // When no candidate loaded: the fallback alone.
            (forall|c: int| 0 <= c < candidates@.len() ==> #[trigger] candidates@[c].1 is None) ==> {
                &&& bank.tables@.len() == 1
                &&& bank.names@[0]@ == "fallback_saw"@
                &&& bank.tables@[0]@ == fallback@
            },
            // Otherwise every table is the table of a distinct loaded candidate,
            // under that candidate's name, every loaded candidate is in the bank,
            // the candidates' brightness keys never decrease along the bank, and
            // candidates of equal brightness keep the order they came in.
            (exists|c: int| 0 <= c < candidates@.len() && #[trigger] candidates@[c].1 is Some) ==> exists|origin: Seq<int>| {
                &&& origin.len() == bank.tables@.len()
                &&& forall|i: int| 0 <= i < origin.len() ==> {
                    &&& 0 <= #[trigger] origin[i] < candidates@.len()
                    &&& candidates@[origin[i]].1 is Some
                    &&& bank.names@[i]@ == candidates@[origin[i]].0@
                    &&& bank.tables@[i]@ == (candidates@[origin[i]].1->0).1@
                }
                &&& forall|i: int, j: int| 0 <= i < j < origin.len() ==>
                    (candidates@[#[trigger] origin[i]].1->0).0 <= (candidates@[#[trigger] origin[j]].1->0).0
                &&& forall|i: int, j: int| 0 <= i < j < origin.len()
                    && (candidates@[#[trigger] origin[i]].1->0).0 == (candidates@[#[trigger] origin[j]].1->0).0
                    ==> origin[i] < origin[j]
                &&& forall|c: int| 0 <= c < candidates@.len() && #[trigger] candidates@[c].1 is Some
                    ==> exists|i: int| 0 <= i < origin.len() && origin[i] == c
            },
    {
        let ghost all = candidates@;
        let mut bank = Self::new();
        let mut keys: Vec<u64> = Vec::new();
        let ghost mut origin: Seq<int> = Seq::empty();
        for entry in it: candidates.into_iter()
            invariant
                it.seq() == all,
                bank.wf(),
                keys@.len() == bank.tables@.len(),
                bank.keyed_entries(keys@) == sort_by_brightness(loaded_entries(all.take(it.index() as int))),
                traced(all, origin, keys@, bank.names@, bank.tables@, it.index() as int),
                keys_sorted(keys@),
                keys_stable(keys@, origin),
                forall|c: int| 0 <= c < it.index() && #[trigger] all[c].1 is Some
                    ==> exists|i: int| 0 <= i < origin.len() && origin[i] == c,
        {
            let (name, loaded) = entry;
            let ghost before = all.take(it.index() as int);
            let ghost after = all.take(it.index() as int + 1);
            proof {
                assert(after.drop_last() == before);
            }
            match loaded {
                Some((key, table)) => {
                    let ghost prev = bank.keyed_entries(keys@);
                    let ghost added: KeyedTable<S> = (key, name@, table@);
                    assert(loaded_entries(after) == loaded_entries(before).push(added));
                    assert(loaded_entries(after).drop_last() == loaded_entries(before));
                    let pos = brightness_slot::<S>(&keys, key, Ghost(prev));
                    let ghost idx = it.index() as int;
                    let ghost old_keys = keys@;
                    let ghost old_origin = origin;
                    let ghost old_names = bank.names@;
                    let ghost old_tables = bank.tables@;
                    assert(all[idx] == entry);
                    keys.insert(pos, key);
                    bank.tables.insert(pos, Arc::new(table));
                    bank.names.insert(pos, name);
                    proof {
                        lemma_insert_ordered(old_keys, old_origin, key, idx, pos as int);
                        lemma_insert_traced(all, old_origin, old_keys, old_names, old_tables, idx, pos as int, bank.names@[pos as int], bank.tables@[pos as int], key);
                        assert(keys@ == old_keys.insert(pos as int, key));
                        assert(bank.names@ == old_names.insert(pos as int, bank.names@[pos as int]));
                        assert(bank.tables@ == old_tables.insert(pos as int, bank.tables@[pos as int]));
                        origin = origin.insert(pos as int, idx);
                        old_origin.insert_ensures(pos as int, idx);
                        assert forall|c: int| 0 <= c < idx + 1 && #[trigger] all[c].1 is Some
                            implies exists|i: int| 0 <= i < origin.len() && origin[i] == c by {
                            if c == idx {
                                assert(origin[pos as int] == c);
                            } else {
                                let i = choose|i: int| 0 <= i < old_origin.len() && old_origin[i] == c;
                                if i < pos {
                                    assert(origin[i] == c);
                                } else {
                                    assert(origin[i + 1] == c);
                                }
                            }
                        }
                    }
                    assert(bank.keyed_entries(keys@) =~= prev.insert(pos as int, added));
                },
                None => {
                    assert(loaded_entries(after) == loaded_entries(before));
                    assert(all[it.index() as int] == entry);
                },
            }
        }
        assert(all.take(all.len() as int) == all);
        proof {
            lemma_sort_by_brightness(loaded_entries(all));
        }
        if bank.tables.len() == 0 {
            bank.tables.push(Arc::new(fallback));
            bank.names.push("fallback_saw".to_owned());
            assert(bank.entries() == seq![("fallback_saw"@, fallback@)]);
            assert forall|c: int| 0 <= c < all.len() implies !(#[trigger] all[c].1 is Some) by {
                if all[c].1 is Some {
                    let i = choose|i: int| 0 <= i < origin.len() && origin[i] == c;
                }
            }
        } else {
            assert(origin.len() > 0);
            assert(bank.entries() =~= without_brightness(bank.keyed_entries(keys@)));
            assert(all[origin[0]].1 is Some);
        }
        bank
    }

    /// Number of tables in the bank.
    pub fn len(&self) -> (n: usize)
        ensures
            n == self.tables@.len(),
    {
        self.tables.len()
    }
}

} // verus!

//! The open-addressing table: a backing array of cells probed linearly from
//! each key's home cell, grown to `2 * capacity + 1` cells before it can fill.

use vstd::prelude::*;
use crate::hashing::Hashable;

verus! {

/// Number of cells of a new table.
pub const INITIAL_CAPACITY: usize = 11;

/// One cell of the backing array: empty, or holding a key and its value.
pub enum HashCell<K, V> {
    Empty,
    Taken(K, V),
}

impl<K: View, V> HashCell<K, V> {
    /// The cell holds an entry whose key has view `k`.
    pub open spec fn holds(self, k: K::V) -> bool {
        match self {
            HashCell::Taken(key, _) => key@ == k,
            HashCell::Empty => false,
        }
    }

    /// The key of a taken cell.
    pub open spec fn key(self) -> K
        recommends
            self is Taken,
    {
        match self {
            HashCell::Taken(k, _) => k,
            HashCell::Empty => arbitrary(),
        }
    }

    /// The value of a taken cell.
    pub open spec fn value(self) -> V
        recommends
            self is Taken,
    {
        match self {
            HashCell::Taken(_, v) => v,
            HashCell::Empty => arbitrary(),
        }
    }

    pub fn is_taken(&self) -> (r: bool)
        ensures
            r == (*self is Taken),
    {
        match self {
            HashCell::Taken(_, _) => true,
            HashCell::Empty => false,
        }
    }
}

/// The cell reached after `d` steps of linear probing from cell `h`, in an
/// array of `cap` cells (for `h` and `d` below `cap`).
pub open spec fn probe(h: int, d: int, cap: int) -> int {
    if h + d < cap {
        h + d
    } else {
        h + d - cap
    }
}

/// The number of probing steps from cell `h` to cell `i`.
pub open spec fn distance(h: int, i: int, cap: int) -> int {
    if h <= i {
        i - h
    } else {
        i + cap - h
    }
}

/// The cell where probing for key `k` starts.
pub open spec fn home<K: Hashable>(k: K::V, cap: int) -> int {
    K::spec_hash(k) as int % cap
}

/// Number of taken cells.
pub open spec fn taken_count<K, V>(s: Seq<HashCell<K, V>>) -> nat
    decreases s.len(),
{
    if s.len() == 0 {
        0
    } else {
        taken_count(s.drop_last()) + if s.last() is Taken {
            1nat
        } else {
            0nat
        }
    }
}

/// No two taken cells hold keys with the same view.
pub open spec fn keys_distinct<K: View, V>(s: Seq<HashCell<K, V>>) -> bool {
    forall|i: int, j: int, k: K::V|
        0 <= i < s.len() && 0 <= j < s.len() && #[trigger] s[i].holds(k) && #[trigger] s[j].holds(k)
            ==> i == j
}

/// The first `n` cells probed from `h` are all taken.
pub open spec fn run_taken<K, V>(s: Seq<HashCell<K, V>>, h: int, n: int) -> bool {
    forall|d: int| 0 <= d < n ==> #[trigger] s[probe(h, d, s.len() as int)] is Taken
}

/// Cell `i` is the first empty cell met when probing from cell `h`.
pub open spec fn is_first_free<K, V>(s: Seq<HashCell<K, V>>, h: int, i: int) -> bool {
    exists|d: int|
        0 <= d < s.len() && i == probe(h, d, s.len() as int) && s[i] is Empty && #[trigger] run_taken(
            s,
            h,
            d,
        )
}

/// Every entry is reached from its key's home cell by probing over taken cells
/// only, so a lookup that stops at the first empty cell cannot miss it.
pub open spec fn probes_reach<K: Hashable, V>(s: Seq<HashCell<K, V>>) -> bool {
    forall|i: int, k: K::V|
        0 <= i < s.len() && #[trigger] s[i].holds(k) ==> run_taken(
            s,
            home::<K>(k, s.len() as int),
            distance(home::<K>(k, s.len() as int), i, s.len() as int),
        )
}

/// The map from key views to values that the cells hold.
pub open spec fn cells_map<K: View, V>(s: Seq<HashCell<K, V>>) -> Map<K::V, V> {
    Map::new(
        |k: K::V| exists|i: int| 0 <= i < s.len() && #[trigger] s[i].holds(k),
        |k: K::V| s[choose|i: int| 0 <= i < s.len() && #[trigger] s[i].holds(k)].value(),
    )
}

proof fn lemma_cells_map_at<K: View, V>(s: Seq<HashCell<K, V>>, i: int, k: K::V)
    requires
        keys_distinct(s),
        0 <= i < s.len(),
        s[i].holds(k),
    ensures
        cells_map(s).contains_key(k),
        cells_map(s)[k] == s[i].value(),
{
    let j = choose|j: int| 0 <= j < s.len() && #[trigger] s[j].holds(k);
    assert(s[j].holds(k));
}

proof fn lemma_taken_count_bound<K, V>(s: Seq<HashCell<K, V>>)
    ensures
        taken_count(s) <= s.len(),
        taken_count(s) < s.len() ==> exists|i: int| 0 <= i < s.len() && s[i] is Empty,
    decreases s.len(),
{
    if s.len() > 0 {
        lemma_taken_count_bound(s.drop_last());
        if taken_count(s) < s.len() && s.last() is Taken {
            let i = choose|i: int| 0 <= i < s.drop_last().len() && s.drop_last()[i] is Empty;
            assert(s[i] is Empty);
        }
    }
}

proof fn lemma_taken_count_update<K, V>(s: Seq<HashCell<K, V>>, i: int, c: HashCell<K, V>)
    requires
        0 <= i < s.len(),
        c is Taken,
    ensures
        taken_count(s.update(i, c)) == taken_count(s) + if s[i] is Empty {
            1nat
        } else {
            0nat
        },
    decreases s.len(),
{
    let t = s.update(i, c);
    if i == s.len() - 1 {
        assert(t.drop_last() =~= s.drop_last());
    } else {
        assert(t.drop_last() =~= s.drop_last().update(i, c));
        lemma_taken_count_update(s.drop_last(), i, c);
    }
}

/// A hash table with open addressing and linear probing.
pub struct HashTable<K, V> {
    cells: Vec<HashCell<K, V>>,
    taken_count: usize,
}

impl<K: Hashable, V> View for HashTable<K, V> {
    type V = Map<K::V, V>;

    closed spec fn view(&self) -> Map<K::V, V> {
        cells_map(self.cells@)
    }
}

impl<K: Hashable, V> HashTable<K, V> {
    /// Number of cells of the backing array.
    pub closed spec fn spec_capacity(&self) -> nat {
        self.cells@.len()
    }

    /// Number of entries.
    pub closed spec fn spec_len(&self) -> nat {
        self.taken_count as nat
    }

    /// The cells of the backing array, in index order.
    pub closed spec fn slots(&self) -> Seq<HashCell<K, V>> {
        self.cells@
    }

    /// The table's invariant: the entry count is that of the taken cells and
    /// of the keys in the view, and stays below the capacity; keys are
    /// distinct, and every entry is reachable by probing from its home cell.
    pub closed spec fn wf(&self) -> bool {
        &&& self.cells@.len() > 0
        &&& self.taken_count < self.cells@.len()
        &&& self.taken_count == taken_count(self.cells@)
        &&& keys_distinct(self.cells@)
        &&& probes_reach(self.cells@)
        &&& cells_map(self.cells@).dom().finite()
        &&& cells_map(self.cells@).dom().len() == self.taken_count
    }

    /// A well-formed table has as many entries as keys, and fewer entries
    /// than cells, so some cell is always empty and probing always ends.
    pub proof fn lemma_len_below_capacity(&self)
        requires
            self.wf(),
        ensures
            self.spec_len() == self@.dom().len(),
            self.spec_len() < self.spec_capacity(),
    {
    }

    fn with_capacity(cap: usize) -> (r: Self)
        requires
            cap > 0,
        ensures
            r.wf(),
            r@ == Map::<K::V, V>::empty(),
            r.spec_len() == 0,
            r.spec_capacity() == cap,
    {
        let mut cells: Vec<HashCell<K, V>> = Vec::new();
        let mut i: usize = 0;
        while i < cap
            invariant
                i <= cap,
                cells@.len() == i,
                forall|j: int| 0 <= j < i ==> #[trigger] cells@[j] is Empty,
                taken_count(cells@) == 0,
            decreases cap - i,
        {
            let ghost before = cells@;
            cells.push(HashCell::Empty);
            assert(cells@.drop_last() =~= before);
            i = i + 1;
        }
        let r = HashTable { cells, taken_count: 0 };
        assert(r@ =~= Map::<K::V, V>::empty());
        r
    }

    /// An empty table of `INITIAL_CAPACITY` cells.
    pub fn new() -> (r: Self)
        ensures
            r.wf(),
            r@ == Map::<K::V, V>::empty(),
            r.spec_len() == 0,
            r.spec_capacity() == INITIAL_CAPACITY,
    {
        Self::with_capacity(INITIAL_CAPACITY)
    }

    /// Number of cells of the backing array.
    pub fn capacity(&self) -> (r: usize)
        ensures
            r == self.spec_capacity(),
    {
        self.cells.len()
    }

    /// Number of entries.
    pub fn len(&self) -> (r: usize)
        ensures
            r == self.spec_len(),
    {
        self.taken_count
    }

    /// The index of the cell that holds `key`, found by probing from its home
    /// cell up to the first empty cell.
    pub fn get_index(&self, key: &K) -> (r: Option<usize>)
        requires
            self.wf(),
        ensures
            match r {
                Some(i) => i < self.spec_capacity() && self.slots()[i as int].holds(key@)
                    && self@.contains_key(key@) && self@[key@] == self.slots()[i as int].value(),
                None => !self@.contains_key(key@),
            },
    {
        let cap = self.cells.len();
        let h = key.hash() % cap;
        let ghost s = self.cells@;
        let mut index = h;
        let mut j: usize = 0;
        while j < cap
            invariant
                self.wf(),
                s == self.cells@,
                cap == s.len(),
                h == home::<K>(key@, cap as int),
                j <= cap,
                j < cap ==> index == probe(h as int, j as int, cap as int),
                forall|d: int|
                    0 <= d < j ==> #[trigger] s[probe(h as int, d, cap as int)] is Taken && !s[probe(
                        h as int,
                        d,
                        cap as int,
                    )].holds(key@),
            decreases cap - j,
        {
            match &self.cells[index] {
                HashCell::Empty => {
                    proof {
                        self.lemma_absent_when_probe_stops(key@, j as int);
                    }
                    return None;
                },
                HashCell::Taken(k, _) => {
                    if k.key_eq(key) {
                        proof {
                            lemma_cells_map_at(s, index as int, key@);
                        }
                        return Some(index);
                    }
                },
            }
            index = if index + 1 == cap {
                0
            } else {
                index + 1
            };
            j = j + 1;
        }
        proof {
            self.lemma_absent_when_probe_stops(key@, cap as int);
        }
        None
    }

    /// A key is absent when the first `j` cells probed from its home are taken
    /// by other keys and the probe then meets an empty cell or has seen every cell.
    proof fn lemma_absent_when_probe_stops(&self, k: K::V, j: int)
        requires
            self.wf(),
            0 <= j <= self.cells@.len(),
            j < self.cells@.len() ==> self.cells@[probe(
                home::<K>(k, self.cells@.len() as int),
                j,
                self.cells@.len() as int,
            )] is Empty,
            forall|d: int|
                0 <= d < j ==> !#[trigger] self.cells@[probe(
                    home::<K>(k, self.cells@.len() as int),
                    d,
                    self.cells@.len() as int,
                )].holds(k),
        ensures
            !self@.contains_key(k),
    {
        let s = self.cells@;
        let cap = s.len() as int;
        let h = home::<K>(k, cap);
        if self@.contains_key(k) {
            let i = choose|i: int| 0 <= i < s.len() && #[trigger] s[i].holds(k);
            assert(s[i].holds(k));
            let di = distance(h, i, cap);
            assert(probe(h, di, cap) == i);
            assert(run_taken(s, h, di));
            if di < j {
                assert(!s[probe(h, di, cap)].holds(k));
            } else if di > j {
                assert(s[probe(h, j, cap)] is Taken);
            }
        }
    }

    /// Puts a key that the table does not hold into the first empty cell
    /// probed from its home cell.
    fn place(&mut self, key: K, value: V)
        requires
            old(self).wf(),
            !old(self)@.contains_key(key@),
            old(self).spec_len() + 1 < old(self).spec_capacity(),
        ensures
            final(self).wf(),
            final(self)@ == old(self)@.insert(key@, value),
            final(self).spec_len() == old(self).spec_len() + 1,
            final(self).spec_capacity() == old(self).spec_capacity(),
            exists|i: int|
                #[trigger] is_first_free(
                    old(self).slots(),
                    home::<K>(key@, old(self).spec_capacity() as int),
                    i,
                ) && final(self).slots() == old(self).slots().update(i, HashCell::Taken(key, value)),
    {
        let cap = self.cells.len();
        let h = key.hash() % cap;
        let ghost s = self.cells@;
        proof {
            lemma_taken_count_bound(s);
        }
        let ghost e = choose|e: int| 0 <= e < s.len() && s[e] is Empty;
        let ghost de = distance(h as int, e, cap as int);
        assert(probe(h as int, de, cap as int) == e);
        let mut index = h;
        let mut j: usize = 0;
        while self.cells[index].is_taken()
            invariant
                self.wf(),
                s == self.cells@,
                cap == s.len(),
                h == home::<K>(key@, cap as int),
                0 <= de < cap,
                probe(h as int, de, cap as int) == e,
                s[e] is Empty,
                j <= de,
                index == probe(h as int, j as int, cap as int),
                run_taken(s, h as int, j as int),
            decreases cap - j,
        {
            index = if index + 1 == cap {
                0
            } else {
                index + 1
            };
            j = j + 1;
        }
        let ghost c = HashCell::Taken(key, value);
        self.cells.set(index, HashCell::Taken(key, value));
        self.taken_count = self.taken_count + 1;
        proof {
            let t = self.cells@;
            let i = index as int;
            assert(t == s.update(i, c));
            assert(run_taken(s, h as int, j as int));
            assert(is_first_free(s, h as int, i));
            lemma_taken_count_update(s, i, c);
            assert(distance(h as int, i, cap as int) == j);
            assert forall|a: int, b: int, k: K::V|
                0 <= a < t.len() && 0 <= b < t.len() && #[trigger] t[a].holds(k) && #[trigger] t[b].holds(
                    k,
                ) implies a == b by {
                if a != i && b != i {
                    assert(s[a].holds(k) && s[b].holds(k));
                } else if a != i || b != i {
                    let o = if a != i { a } else { b };
                    assert(s[o].holds(key@));
                    lemma_cells_map_at(s, o, key@);
                }
            }
            assert forall|a: int, k: K::V| 0 <= a < t.len() && #[trigger] t[a].holds(k) implies run_taken(
                t,
                home::<K>(k, t.len() as int),
                distance(home::<K>(k, t.len() as int), a, t.len() as int),
            ) by {
                let hk = home::<K>(k, cap as int);
                if a != i {
                    assert(s[a].holds(k));
                    assert(run_taken(s, hk, distance(hk, a, cap as int)));
                }
                assert forall|d: int| 0 <= d < distance(hk, a, cap as int) implies #[trigger] t[probe(
                    hk,
                    d,
                    cap as int,
                )] is Taken by {
                    if a != i {
                        assert(s[probe(hk, d, cap as int)] is Taken);
                    } else {
                        assert(s[probe(h as int, d, cap as int)] is Taken);
                    }
                }
            }
            assert forall|k: K::V| #[trigger] self@.contains_key(k) == old(self)@.insert(key@, value).contains_key(k) by {
                if k == key@ {
                    assert(t[i].holds(k));
                } else if old(self)@.contains_key(k) {
                    let o = choose|o: int| 0 <= o < s.len() && #[trigger] s[o].holds(k);
                    assert(t[o].holds(k));
                } else if self@.contains_key(k) {
                    let o = choose|o: int| 0 <= o < t.len() && #[trigger] t[o].holds(k);
                    assert(s[o].holds(k));
                }
            }
            assert forall|k: K::V| #[trigger] self@.contains_key(k) implies self@[k] == old(self)@.insert(key@, value)[k] by {
                if k == key@ {
                    assert(t[i].holds(k));
                    lemma_cells_map_at(t, i, k);
                } else {
                    let o = choose|o: int| 0 <= o < t.len() && #[trigger] t[o].holds(k);
                    assert(s[o].holds(k));
                    lemma_cells_map_at(t, o, k);
                    lemma_cells_map_at(s, o, k);
                }
            }
            assert(self@ =~= old(self)@.insert(key@, value));
            assert(old(self).slots() == s);
            assert(is_first_free(old(self).slots(), home::<K>(key@, cap as int), i));
        }
    }

    /// Inserting `k` must first grow the table: `k` is new and one more entry
    /// would bring the count up to the capacity.
    pub open spec fn grows_on_insert(&self, k: K::V) -> bool {
        !self@.contains_key(k) && self.spec_len() + 1 >= self.spec_capacity()
    }

    /// Inserting `k` fits in memory addresses: a growth that it needs brings
    /// the capacity to a `usize`.
    pub open spec fn can_insert(&self, k: K::V) -> bool {
        self.grows_on_insert(k) ==> self.spec_capacity() * 2 + 1 <= usize::MAX
    }

    /// `after` is this table with `value` stored under key `k`: still
    /// well-formed, one entry more when `k` is new, and grown to
    /// `2 * capacity + 1` cells when the insertion needed it.
    pub open spec fn insert_result(&self, k: K::V, value: V, after: Self) -> bool {
        &&& after.wf()
        &&& after@ == self@.insert(k, value)
        &&& after.spec_len() == self.spec_len() + if self@.contains_key(k) {
            0nat
        } else {
            1nat
        }
        &&& after.spec_capacity() == if self.grows_on_insert(k) {
            self.spec_capacity() * 2 + 1
        } else {
            self.spec_capacity()
        }
        &&& self@.contains_key(k) ==> exists|i: int|
            0 <= i < self.spec_capacity() && #[trigger] self.slots()[i].holds(k) && after.slots()
                == self.slots().update(i, HashCell::Taken(self.slots()[i].key(), value))
        &&& !self@.contains_key(k) && !self.grows_on_insert(k) ==> exists|i: int|
            #[trigger] is_first_free(self.slots(), home::<K>(k, self.spec_capacity() as int), i)
                && after.slots()[i].holds(k) && after.slots()[i].value() == value && after.slots()
                == self.slots().update(i, after.slots()[i])
    }

    /// Grows the backing array to `2 * capacity + 1` cells and re-inserts
    /// every entry, each at its place under the new capacity.
    pub fn extend(&mut self)
        requires
            old(self).wf(),
            old(self).spec_capacity() * 2 + 1 <= usize::MAX,
        ensures
            final(self).wf(),
            final(self)@ == old(self)@,
            final(self).spec_len() == old(self).spec_len(),
            final(self).spec_capacity() == old(self).spec_capacity() * 2 + 1,
    {
        let new_cap = self.cells.len() * 2 + 1;
        let mut prev = Self::with_capacity(new_cap);
        std::mem::swap(self, &mut prev);
        let ghost orig = prev.cells@;
        let old_cap = prev.cells.len();
        let mut i: usize = 0;
        assert(orig.subrange(0, 0) =~= Seq::<HashCell<K, V>>::empty());
        while i < old_cap
            invariant
                self.wf(),
                self.spec_capacity() == new_cap,
                new_cap == old_cap * 2 + 1,
                old_cap == orig.len(),
                i <= old_cap,
                prev.cells@.len() == old_cap,
                forall|j: int| i <= j < old_cap ==> #[trigger] prev.cells@[j] == orig[j],
                keys_distinct(orig),
                self.spec_len() == taken_count(orig.subrange(0, i as int)),
                forall|k: K::V|
                    #[trigger] self@.contains_key(k) <==> exists|j: int|
                        0 <= j < i && #[trigger] orig[j].holds(k),
                forall|j: int, k: K::V|
                    0 <= j < i && #[trigger] orig[j].holds(k) ==> self@[k] == orig[j].value(),
            decreases old_cap - i,
        {
            let ghost n = i as int;
            assert(orig.subrange(0, n + 1).drop_last() =~= orig.subrange(0, n));
            proof {
                lemma_taken_count_bound(orig.subrange(0, n));
            }
            let mut cell = HashCell::Empty;
            std::mem::swap(&mut prev.cells[i], &mut cell);
            assert(cell == orig[n]);
            match cell {
                HashCell::Taken(k, v) => {
                    proof {
                        assert(orig[n].holds(k@));
                        if self@.contains_key(k@) {
                            let o = choose|o: int| 0 <= o < n && #[trigger] orig[o].holds(k@);
                            assert(orig[o].holds(k@));
                        }
                    }
                    let ghost before = self@;
                    self.place(k, v);
                    assert forall|k2: K::V|
                        #[trigger] self@.contains_key(k2) <==> exists|j: int|
                            0 <= j < n + 1 && #[trigger] orig[j].holds(k2) by {
                        if k2 != k@ && self@.contains_key(k2) {
                            assert(before.contains_key(k2));
                        }
                        if exists|j: int| 0 <= j < n + 1 && #[trigger] orig[j].holds(k2) {
                            let o = choose|o: int| 0 <= o < n + 1 && #[trigger] orig[o].holds(k2);
                            if o != n {
                                assert(before.contains_key(k2));
                            }
                        }
                    }
                    assert forall|j: int, k2: K::V|
                        0 <= j < n + 1 && #[trigger] orig[j].holds(k2) implies self@[k2]
                            == orig[j].value() by {
                        if j != n {
                            assert(orig[j].holds(k2));
                            if k2 == k@ {
                                assert(orig[n].holds(k2));
                            }
                        }
                    }
                },
                HashCell::Empty => {
                    assert forall|k2: K::V|
                        #[trigger] self@.contains_key(k2) <==> exists|j: int|
                            0 <= j < n + 1 && #[trigger] orig[j].holds(k2) by {
                        if exists|j: int| 0 <= j < n + 1 && #[trigger] orig[j].holds(k2) {
                            let o = choose|o: int| 0 <= o < n + 1 && #[trigger] orig[o].holds(k2);
                            assert(o != n);
                        }
                    }
                },
            }
            i = i + 1;
        }
        assert(orig.subrange(0, old_cap as int) =~= orig);
        assert forall|k: K::V| #[trigger] self@.contains_key(k) == cells_map(orig).contains_key(k) by {}
        assert forall|k: K::V| #[trigger] self@.contains_key(k) implies self@[k] == cells_map(orig)[k] by {
            let o = choose|o: int| 0 <= o < orig.len() && #[trigger] orig[o].holds(k);
            assert(orig[o].holds(k));
            lemma_cells_map_at(orig, o, k);
        }
        assert(self@ =~= cells_map(orig));
    }

    /// Stores `value` under `key`. A key already present keeps its cell and
    /// gets the new value; a new key first grows the table when it would
    /// otherwise bring the entry count up to the capacity, then takes the
    /// first empty cell probed from its home cell.
    pub fn insert(&mut self, key: K, value: V)
        requires
            old(self).wf(),
            old(self).can_insert(key@),
        ensures
            old(self).insert_result(key@, value, *final(self)),
    {
        match self.get_mut(&key) {
            Some(slot) => {
                *slot = value;
            },
            None => {
                let cap = self.cells.len();
                if self.taken_count + 1 >= cap {
                    self.extend();
                }
                self.place(key, value);
            },
        }
    }

    /// The value stored under `key`, if any.
    pub fn get(&self, key: &K) -> (r: Option<&V>)
        requires
            self.wf(),
        ensures
            match r {
                Some(v) => self@.contains_key(key@) && *v == self@[key@],
                None => !self@.contains_key(key@),
            },
    {
        match self.get_index(key) {
            Some(i) => match &self.cells[i] {
                HashCell::Taken(_, v) => Some(v),
                HashCell::Empty => None,
            },
            None => None,
        }
    }
    /// Replacing the value of a taken cell keeps the invariant and changes the
    /// map at that cell's key only.
    proof fn lemma_overwrite(&self, i: int, k: K::V)
        requires
            self.wf(),
            0 <= i < self.cells@.len(),
            self.cells@[i].holds(k),
        ensures
            forall|c: HashCell<K, V>|
                c is Taken && c.key() == self.cells@[i].key() ==> {
                    let t = #[trigger] self.cells@.update(i, c);
                    &&& taken_count(t) == taken_count(self.cells@)
                    &&& keys_distinct(t)
                    &&& probes_reach(t)
                    &&& cells_map(t) == self@.insert(k, c.value())
                },
    {
        let s = self.cells@;
        assert forall|c: HashCell<K, V>| c is Taken && c.key() == s[i].key() implies {
            let t = #[trigger] s.update(i, c);
            &&& taken_count(t) == taken_count(s)
            &&& keys_distinct(t)
            &&& probes_reach(t)
            &&& cells_map(t) == self@.insert(k, c.value())
        } by {
            let t = s.update(i, c);
            let w = c.value();
            lemma_taken_count_update(s, i, c);
            assert forall|a: int, k2: K::V| 0 <= a < t.len() implies #[trigger] t[a].holds(k2) == s[a].holds(
                k2,
            ) by {}
            assert forall|a: int, k2: K::V| 0 <= a < t.len() && #[trigger] t[a].holds(k2) implies run_taken(
                t,
                home::<K>(k2, t.len() as int),
                distance(home::<K>(k2, t.len() as int), a, t.len() as int),
            ) by {
                let hk = home::<K>(k2, s.len() as int);
                assert(s[a].holds(k2));
                assert(run_taken(s, hk, distance(hk, a, s.len() as int)));
                assert forall|d: int| 0 <= d < distance(hk, a, s.len() as int) implies #[trigger] t[probe(
                    hk,
                    d,
                    s.len() as int,
                )] is Taken by {
                    assert(s[probe(hk, d, s.len() as int)] is Taken);
                }
            }
            assert forall|k2: K::V| #[trigger] cells_map(t).contains_key(k2) == self@.insert(k, w).contains_key(k2) by {
                if cells_map(t).contains_key(k2) {
                    let o = choose|o: int| 0 <= o < t.len() && #[trigger] t[o].holds(k2);
                    assert(s[o].holds(k2));
                } else if self@.contains_key(k2) {
                    let o = choose|o: int| 0 <= o < s.len() && #[trigger] s[o].holds(k2);
                    assert(t[o].holds(k2));
                } else if k2 == k {
                    assert(t[i].holds(k2));
                }
            }
            assert forall|k2: K::V| #[trigger] cells_map(t).contains_key(k2) implies cells_map(t)[k2] == self@.insert(k, w)[k2] by {
                let o = choose|o: int| 0 <= o < t.len() && #[trigger] t[o].holds(k2);
                assert(s[o].holds(k2));
                lemma_cells_map_at(t, o, k2);
                lemma_cells_map_at(s, o, k2);
            }
            assert(cells_map(t) =~= self@.insert(k, w));
        }
    }

    /// A mutable reference to the value stored under `key`, if any. Writing
    /// through it replaces that value and changes nothing else.
    pub fn get_mut(&mut self, key: &K) -> (r: Option<&mut V>)
        requires
            old(self).wf(),
        ensures
            match r {
                Some(v) => {
                    &&& old(self)@.contains_key(key@)
                    &&& *v == old(self)@[key@]
                    &&& final(self).wf()
                    &&& final(self)@ == old(self)@.insert(key@, *final(v))
                    &&& final(self).spec_len() == old(self).spec_len()
                    &&& final(self).spec_capacity() == old(self).spec_capacity()
                    &&& exists|i: int|
                        0 <= i < old(self).spec_capacity() && #[trigger] old(self).slots()[i].holds(
                            key@,
                        ) && final(self).slots() == old(self).slots().update(
                            i,
                            HashCell::Taken(old(self).slots()[i].key(), *final(v)),
                        )
                },
                None => {
                    &&& !old(self)@.contains_key(key@)
                    &&& *final(self) == *old(self)
                },
            },
    {
        match self.get_index(key) {
            Some(i) => {
                proof {
                    self.lemma_overwrite(i as int, key@);
                }
                match &mut self.cells[i] {
                    HashCell::Taken(_, v) => Some(v),
                    HashCell::Empty => None,
                }
            },
            None => None,
        }
    }

    /// The entry held by cell `i`, if any; going through the cells in index
    /// order shows the table's physical layout.
    pub fn slot(&self, i: usize) -> (r: Option<(&K, &V)>)
        requires
            self.wf(),
            i < self.spec_capacity(),
        ensures
            match r {
                Some((k, v)) => {
                    &&& self.slots()[i as int] == HashCell::Taken(*k, *v)
                    &&& self@.contains_key(k@)
                    &&& self@[k@] == *v
                },
                None => self.slots()[i as int] is Empty,
            },
    {
        match &self.cells[i] {
            HashCell::Taken(k, v) => {
                proof {
                    lemma_cells_map_at(self.cells@, i as int, k@);
                }
                Some((k, v))
            },
            HashCell::Empty => None,
        }
    }

}

} // verus!

use vstd::prelude::*;

use crate::hashable::Hashable;

verus! {

/// The capacity of a table built by `HashTable::new`.
pub const DEFAULT_CAPACITY: usize = 61;

/// The slot reached `d` steps after slot `start` in a cyclic array of `n` slots.
spec fn probe_slot(start: int, d: int, n: int) -> int {
    if start + d < n {
        start + d
    } else {
        start + d - n
    }
}

/// The number of steps from slot `start` forward to slot `i` in a cyclic array of
/// `n` slots.
spec fn probe_distance(start: int, i: int, n: int) -> int {
    if i >= start {
        i - start
    } else {
        i + n - start
    }
}

/// Slot `i` of `s` is occupied by a key whose abstract value is `k`.
spec fn holds_key<K: View, V>(s: Seq<HashCell<K, V>>, i: int, k: K::V) -> bool {
    &&& 0 <= i < s.len()
    &&& s[i] is Taken
    &&& s[i]->key@ == k
}

/// No two occupied slots of `s` hold equal keys.
spec fn keys_unique<K: View, V>(s: Seq<HashCell<K, V>>) -> bool {
    forall|i: int, j: int, k: K::V|
        #[trigger] holds_key(s, i, k) && #[trigger] holds_key(s, j, k) ==> i == j
}

/// The number of occupied slots of `s`.
spec fn count_taken<K, V>(s: Seq<HashCell<K, V>>) -> nat
    decreases s.len(),
{
    if s.len() == 0 {
        0
    } else {
        count_taken(s.drop_last()) + if s.last() is Taken {
            1nat
        } else {
            0nat
        }
    }
}

/// The mapping that the occupied slots of `s` hold, from the abstract value of each
/// key to its value.
spec fn cells_map<K: View, V>(s: Seq<HashCell<K, V>>) -> Map<K::V, V>
    decreases s.len(),
{
    if s.len() == 0 {
        Map::empty()
    } else {
        let m = cells_map(s.drop_last());
        match s.last() {
            HashCell::Taken { key, value } => m.insert(key@, value),
            HashCell::Empty => m,
        }
    }
}

/// A key is in the mapping exactly when some slot holds it.
proof fn lemma_cells_map_contains<K: View, V>(s: Seq<HashCell<K, V>>, k: K::V)
    ensures
        cells_map(s).contains_key(k) <==> exists|i: int| holds_key(s, i, k),
    decreases s.len(),
{
    if s.len() > 0 {
        let p = s.drop_last();
        lemma_cells_map_contains(p, k);
        if cells_map(p).contains_key(k) {
            let i = choose|i: int| holds_key(p, i, k);
            assert(holds_key(s, i, k));
        }
        if s.last() is Taken && s.last()->key@ == k {
            assert(holds_key(s, s.len() - 1, k));
        }
        if exists|i: int| holds_key(s, i, k) {
            let i = choose|i: int| holds_key(s, i, k);
            if i < s.len() - 1 {
                assert(holds_key(p, i, k));
            }
        }
    }
}

/// Where keys are unique, the mapping gives each key the value of the slot that
/// holds it.
proof fn lemma_cells_map_value<K: View, V>(s: Seq<HashCell<K, V>>, i: int, k: K::V)
    requires
        keys_unique(s),
        holds_key(s, i, k),
    ensures
        cells_map(s).contains_key(k),
        cells_map(s)[k] == s[i]->value,
    decreases s.len(),
{
    lemma_cells_map_contains(s, k);
    let p = s.drop_last();
    if i < s.len() - 1 {
        assert(keys_unique(p)) by {
            assert forall|a: int, b: int, k2: K::V|
                #[trigger] holds_key(p, a, k2) && #[trigger] holds_key(p, b, k2) implies a == b by {
                assert(holds_key(s, a, k2) && holds_key(s, b, k2));
            }
        }
        assert(holds_key(p, i, k));
        lemma_cells_map_value(p, i, k);
        if s.last() is Taken {
            if s.last()->key@ == k {
                assert(holds_key(s, s.len() - 1, k));
            }
        }
    }
}

/// Where keys are unique, the mapping has one key for each occupied slot.
proof fn lemma_cells_map_len<K: View, V>(s: Seq<HashCell<K, V>>)
    requires
        keys_unique(s),
    ensures
        cells_map(s).dom().finite(),
        cells_map(s).len() == count_taken(s),
    decreases s.len(),
{
    if s.len() > 0 {
        let p = s.drop_last();
        assert(keys_unique(p)) by {
            assert forall|a: int, b: int, k2: K::V|
                #[trigger] holds_key(p, a, k2) && #[trigger] holds_key(p, b, k2) implies a == b by {
                assert(holds_key(s, a, k2) && holds_key(s, b, k2));
            }
        }
        lemma_cells_map_len(p);
        if s.last() is Taken {
            let k = s.last()->key@;
            lemma_cells_map_contains(p, k);
            if cells_map(p).contains_key(k) {
                let i = choose|i: int| holds_key(p, i, k);
                assert(holds_key(s, i, k));
                assert(holds_key(s, s.len() - 1, k));
            }
        }
    }
}

/// At most every slot is occupied, and where not all are, some slot is empty.
proof fn lemma_count_taken<K, V>(s: Seq<HashCell<K, V>>)
    ensures
        count_taken(s) <= s.len(),
        count_taken(s) < s.len() ==> exists|e: int| 0 <= e < s.len() && s[e] is Empty,
    decreases s.len(),
{
    if s.len() > 0 {
        let p = s.drop_last();
        lemma_count_taken(p);
        if count_taken(s) < s.len() && s.last() is Taken {
            let e = choose|e: int| 0 <= e < p.len() && p[e] is Empty;
            assert(s[e] is Empty);
        }
    }
}

/// The slot where the probe for a key starts, in a table of `n` slots.
spec fn home<K: Hashable>(k: K::V, n: int) -> int {
    K::digest(k) as int % n
}

/// Every slot on the probe path from the home of the key in slot `i` up to `i` is
/// occupied.
spec fn probe_path_full<K: Hashable, V>(s: Seq<HashCell<K, V>>, i: int) -> bool {
    let n = s.len() as int;
    let h = home::<K>(s[i]->key@, n);
    forall|d: int|
        0 <= d < probe_distance(h, i, n) ==> (#[trigger] s[probe_slot(h, d, n)]) is Taken
}

/// Each occupied slot can be reached from its key's home without crossing an empty
/// slot.
spec fn probe_paths_full<K: Hashable, V>(s: Seq<HashCell<K, V>>) -> bool {
    forall|i: int| 0 <= i < s.len() && (#[trigger] s[i]) is Taken ==> probe_path_full(s, i)
}

/// Writing key `key` with value `value` into slot `i`, where that slot is empty and
/// no slot holds the key, or where that slot already holds it, keeps keys unique and
/// maps the key to the value.
proof fn lemma_cells_map_update<K: View, V>(s: Seq<HashCell<K, V>>, i: int, key: K, value: V)
    requires
        keys_unique(s),
        0 <= i < s.len(),
        (s[i] is Empty && !cells_map(s).contains_key(key@)) || holds_key(s, i, key@),
    ensures
        keys_unique(s.update(i, HashCell::Taken { key, value })),
        cells_map(s.update(i, HashCell::Taken { key, value })) == cells_map(s).insert(key@, value),
        count_taken(s.update(i, HashCell::Taken { key, value })) == count_taken(s) + if s[i] is Empty {
            1nat
        } else {
            0nat
        },
{
    let t = s.update(i, HashCell::Taken { key, value });
    lemma_cells_map_contains(s, key@);
    assert forall|a: int, b: int, k2: K::V|
        #[trigger] holds_key(t, a, k2) && #[trigger] holds_key(t, b, k2) implies a == b by {
        if a != i && b != i {
            assert(holds_key(s, a, k2) && holds_key(s, b, k2));
        } else if a != i {
            assert(holds_key(s, a, k2));
        } else if b != i {
            assert(holds_key(s, b, k2));
        }
    }
    let m = cells_map(s).insert(key@, value);
    assert forall|k2: K::V| #[trigger] cells_map(t).contains_key(k2) <==> m.contains_key(k2) by {
        lemma_cells_map_contains(s, k2);
        lemma_cells_map_contains(t, k2);
        if cells_map(s).contains_key(k2) {
            let j = choose|j: int| holds_key(s, j, k2);
            if j != i {
                assert(holds_key(t, j, k2));
            }
        }
        if k2 == key@ {
            assert(holds_key(t, i, k2));
        }
        if cells_map(t).contains_key(k2) {
            let j = choose|j: int| holds_key(t, j, k2);
            if j != i {
                assert(holds_key(s, j, k2));
            }
        }
    }
    assert forall|k2: K::V| #[trigger] cells_map(t).contains_key(k2) implies cells_map(t)[k2]
        == m[k2] by {
        lemma_cells_map_contains(t, k2);
        let j = choose|j: int| holds_key(t, j, k2);
        lemma_cells_map_value(t, j, k2);
        if j != i {
            assert(holds_key(s, j, k2));
            lemma_cells_map_value(s, j, k2);
        }
    }
    assert(cells_map(t) =~= m);
    lemma_cells_map_len(s);
    lemma_cells_map_len(t);
}

/// Filling a slot keeps every probe path full, provided the path to the filled slot
/// is full too.
proof fn lemma_probe_paths_update<K: Hashable, V>(s: Seq<HashCell<K, V>>, i: int, key: K, value: V)
    requires
        probe_paths_full(s),
        0 <= i < s.len(),
        (s[i] is Empty && probe_path_full(s.update(i, HashCell::Taken { key, value }), i))
            || holds_key(s, i, key@),
    ensures
        probe_paths_full(s.update(i, HashCell::Taken { key, value })),
{
    let t = s.update(i, HashCell::Taken { key, value });
    let n = s.len() as int;
    assert forall|j: int| 0 <= j < t.len() && (#[trigger] t[j]) is Taken implies probe_path_full(
        t,
        j,
    ) by {
        if j != i || s[i] is Taken {
            assert(s[j] is Taken);
            assert(probe_path_full(s, j));
            let h = home::<K>(t[j]->key@, n);
            assert forall|d: int| 0 <= d < probe_distance(h, j, n) implies (#[trigger] t[probe_slot(
                h,
                d,
                n,
            )]) is Taken by {
                assert(s[probe_slot(h, d, n)] is Taken);
            }
        }
    }
}

/// Where the probe for `k` from its home meets only other keys for `t` steps and
/// then an empty slot, or goes round the whole table, no slot holds `k`.
proof fn lemma_probe_absent<K: Hashable, V>(s: Seq<HashCell<K, V>>, k: K::V, t: int)
    requires
        s.len() > 0,
        probe_paths_full(s),
        0 <= t <= s.len(),
        forall|d: int|
            0 <= d < t ==> (#[trigger] s[probe_slot(home::<K>(k, s.len() as int), d, s.len() as int)])
                is Taken && s[probe_slot(home::<K>(k, s.len() as int), d, s.len() as int)]->key@ != k,
        t == s.len() || s[probe_slot(home::<K>(k, s.len() as int), t, s.len() as int)] is Empty,
    ensures
        !cells_map(s).contains_key(k),
{
    let n = s.len() as int;
    let h = home::<K>(k, n);
    lemma_cells_map_contains(s, k);
    if exists|i: int| holds_key(s, i, k) {
        let i = choose|i: int| holds_key(s, i, k);
        let dd = probe_distance(h, i, n);
        assert(probe_slot(h, dd, n) == i);
        if dd < t {
            assert(s[probe_slot(h, dd, n)] is Taken);
        } else {
            assert(probe_path_full(s, i));
            if dd > t {
                assert(s[probe_slot(h, t, n)] is Taken);
            }
        }
    }
}

/// One slot of the table: empty, or holding a key and its value.
enum HashCell<K, V> {
    Empty,
    Taken { key: K, value: V },
}

/// An open-addressing hash table with linear probing.
pub struct HashTable<K, V> {
    cells: Vec<HashCell<K, V>>,
    taken_count: usize,
}

impl<K: Hashable, V> HashTable<K, V> {
    /// The mapping that the table holds.
    pub closed spec fn view(&self) -> Map<K::V, V> {
        cells_map(self.cells@)
    }

    /// The number of slots.
    pub closed spec fn spec_capacity(&self) -> nat {
        self.cells@.len()
    }

    /// The table is well formed: it has a slot, its count of keys is right, no key
    /// is held twice, and every key can be found by probing from its home.
    pub closed spec fn wf(&self) -> bool {
        &&& self.cells@.len() > 0
        &&& self.taken_count == count_taken(self.cells@)
        &&& keys_unique(self.cells@)
        &&& probe_paths_full(self.cells@)
    }

    /// A table of `DEFAULT_CAPACITY` empty slots.
    pub fn new() -> (r: Self)
        ensures
            r.wf(),
            r@ == Map::<K::V, V>::empty(),
            r.spec_capacity() == DEFAULT_CAPACITY,
    {
        Self::with_capacity(DEFAULT_CAPACITY)
    }

    /// A table of `capacity` empty slots.
    pub fn with_capacity(capacity: usize) -> (r: Self)
        requires
            capacity > 0,
        ensures
            r.wf(),
            r@ == Map::<K::V, V>::empty(),
            r.spec_capacity() == capacity,
    {
        let mut cells: Vec<HashCell<K, V>> = Vec::with_capacity(capacity);
        let mut i: usize = 0;
        while i < capacity
            invariant
                i <= capacity,
                cells@.len() == i,
                forall|j: int| 0 <= j < i ==> (#[trigger] cells@[j]) is Empty,
            decreases capacity - i,
        {
            cells.push(HashCell::Empty);
            i = i + 1;
        }
        let r = HashTable { cells, taken_count: 0 };
        proof {
            lemma_none_cells(r.cells@);
            assert(r@ == Map::<K::V, V>::empty()) by {
                assert forall|k: K::V| !r@.contains_key(k) by {
                    lemma_cells_map_contains(r.cells@, k);
                }
                assert(r@.dom() =~= Set::empty());
            }
        }
        r
    }
}

impl<K: Hashable, V> HashTable<K, V> {
    /// The slot that holds `key`, if any, found by probing from its home.
    fn get_index(&self, key: &K) -> (r: Option<usize>)
        requires
            self.wf(),
        ensures
            match r {
                Some(i) => holds_key(self.cells@, i as int, key@),
                None => !self@.contains_key(key@),
            },
    {
        let n = self.cells.len();
        let h = key.hash() % n;
        let mut idx = h;
        let mut t: usize = 0;
        while t < n
            invariant
                self.wf(),
                n == self.cells@.len(),
                h == home::<K>(key@, n as int),
                t <= n,
                idx == probe_slot(h as int, t as int, n as int),
                forall|d: int|
                    0 <= d < t ==> (#[trigger] self.cells@[probe_slot(h as int, d, n as int)]) is Taken
                        && self.cells@[probe_slot(h as int, d, n as int)]->key@ != key@,
            decreases n - t,
        {
            match &self.cells[idx] {
                HashCell::Empty => {
                    proof {
                        lemma_probe_absent(self.cells@, key@, t as int);
                    }
                    return None;
                },
                HashCell::Taken { key: k, .. } => {
                    if k.same_key(key) {
                        return Some(idx);
                    }
                },
            }
            idx = if idx + 1 == n {
                0
            } else {
                idx + 1
            };
            t = t + 1;
        }
        proof {
            lemma_probe_absent(self.cells@, key@, n as int);
        }
        None
    }

    /// Writes a key that the table does not hold into the first empty slot on its
    /// probe path.
    fn place(&mut self, key: K, value: V)
        requires
            old(self).wf(),
            !old(self)@.contains_key(key@),
            old(self).taken_count < old(self).cells@.len(),
        ensures
            final(self).wf(),
            final(self)@ == old(self)@.insert(key@, value),
            final(self).cells@.len() == old(self).cells@.len(),
            final(self).taken_count == old(self).taken_count + 1,
    {
        let n = self.cells.len();
        let h = key.hash() % n;
        let mut idx = h;
        let ghost e: int;
        proof {
            lemma_count_taken(self.cells@);
            e = choose|e: int| 0 <= e < n && self.cells@[e] is Empty;
        }
        let ghost mut t: int = 0;
        loop
            invariant
                *self == *old(self),
                self.wf(),
                !self@.contains_key(key@),
                self.taken_count < n,
                n == self.cells@.len(),
                h == home::<K>(key@, n as int),
                0 <= t < n,
                idx == probe_slot(h as int, t, n as int),
                0 <= e < n,
                self.cells@[e] is Empty,
                t <= probe_distance(h as int, e, n as int),
                forall|d: int|
                    0 <= d < t ==> (#[trigger] self.cells@[probe_slot(h as int, d, n as int)]) is Taken,
            ensures
                *self == *old(self),
                self.wf(),
                !self@.contains_key(key@),
                n == self.cells@.len(),
                h == home::<K>(key@, n as int),
                0 <= t < n,
                idx == probe_slot(h as int, t, n as int),
                self.cells@[idx as int] is Empty,
                forall|d: int|
                    0 <= d < t ==> (#[trigger] self.cells@[probe_slot(h as int, d, n as int)]) is Taken,
            decreases probe_distance(h as int, e, n as int) - t,
        {
            match &self.cells[idx] {
                HashCell::Empty => break,
                HashCell::Taken { .. } => {},
            }
            proof {
                // The empty slot `e` lies further along the path than this taken one.
                assert(probe_slot(h as int, probe_distance(h as int, e, n as int), n as int) == e);
                t = t + 1;
            }
            idx = if idx + 1 == n {
                0
            } else {
                idx + 1
            };
        }
        let ghost s = self.cells@;
        proof {
            let filled = s.update(idx as int, HashCell::Taken { key, value });
            assert(probe_distance(h as int, idx as int, n as int) == t);
            assert forall|d: int| 0 <= d < probe_distance(h as int, idx as int, n as int) implies (
            #[trigger] filled[probe_slot(h as int, d, n as int)]) is Taken by {
                assert(s[probe_slot(h as int, d, n as int)] is Taken);
            }
            assert(probe_path_full(filled, idx as int));
            lemma_cells_map_update(s, idx as int, key, value);
            lemma_probe_paths_update(s, idx as int, key, value);
        }
        self.cells[idx] = HashCell::Taken { key, value };
        self.taken_count = self.taken_count + 1;
    }

    /// Moves every pair into a new array of `2 * capacity + 1` slots.
    fn extend(&mut self)
        requires
            old(self).wf(),
            old(self).taken_count == old(self).cells@.len(),
            old(self).cells@.len() < usize::MAX / 2,
        ensures
            final(self).wf(),
            final(self)@ == old(self)@,
            final(self).cells@.len() == 2 * old(self).cells@.len() + 1,
            final(self).taken_count == old(self).taken_count,
    {
        let n = self.cells.len();
        let mut grown = Self::with_capacity(n * 2 + 1);
        std::mem::swap(self, &mut grown);
        let ghost src = grown.cells@;
        proof {
            assert(src.subrange(0, 0) =~= Seq::<HashCell<K, V>>::empty());
            lemma_cells_map_len(self.cells@);
        }
        let mut i: usize = 0;
        while i < n
            invariant
                src == old(self).cells@,
                n == src.len(),
                i <= n,
                keys_unique(src),
                grown.cells@.len() == n,
                forall|j: int| i <= j < n ==> grown.cells@[j] == #[trigger] src[j],
                self.wf(),
                self.cells@.len() == 2 * n + 1,
                self@ == cells_map(src.subrange(0, i as int)),
                self.taken_count == count_taken(src.subrange(0, i as int)),
            decreases n - i,
        {
            let ghost before = src.subrange(0, i as int);
            let ghost after = src.subrange(0, i as int + 1);
            proof {
                assert(after.drop_last() == before);
                lemma_count_taken(before);
            }
            let mut cell = HashCell::Empty;
            std::mem::swap(&mut cell, &mut grown.cells[i]);
            match cell {
                HashCell::Taken { key, value } => {
                    proof {
                        lemma_cells_map_contains(before, key@);
                        if cells_map(before).contains_key(key@) {
                            let j = choose|j: int| holds_key(before, j, key@);
                            assert(holds_key(src, j, key@));
                            assert(holds_key(src, i as int, key@));
                        }
                    }
                    self.place(key, value);
                },
                HashCell::Empty => {},
            }
            i = i + 1;
        }
        proof {
            assert(src.subrange(0, n as int) == src);
        }
    }

    /// A mutable reference to the value stored under `key`, if any.
    pub fn get_mut(&mut self, key: &K) -> (r: Option<&mut V>)
        requires
            old(self).wf(),
        ensures
            match r {
                Some(v) => {
                    &&& old(self)@.contains_key(key@)
                    &&& *v == old(self)@[key@]
                    &&& final(self).wf()
                    &&& final(self)@ == old(self)@.insert(key@, *final(v))
                    &&& final(self).spec_capacity() == old(self).spec_capacity()
                },
                None => !old(self)@.contains_key(key@) && *final(self) == *old(self),
            },
    {
        match self.get_index(key) {
            Some(idx) => {
                proof {
                    lemma_cells_map_value(self.cells@, idx as int, key@);
                }
                let ghost s = self.cells@;
                match &mut self.cells[idx] {
                    HashCell::Taken { key: k, value } => {
                        proof {
                            lemma_cells_map_update(s, idx as int, *k, *final(value));
                            lemma_probe_paths_update(s, idx as int, *k, *final(value));
                        }
                        Some(value)
                    },
                    HashCell::Empty => None,
                }
            },
            None => None,
        }
    }

    /// Stores `value` under `key`. A key already present keeps its slot and gets the
    /// new value; a new key goes to the first empty slot on its probe path, after the
    /// table has grown to `2 * capacity + 1` slots if every slot was occupied.
    pub fn insert(&mut self, key: K, value: V)
        requires
            old(self).wf(),
            old(self)@.len() < usize::MAX / 2,
        ensures
            final(self).wf(),
            final(self)@ == old(self)@.insert(key@, value),
            final(self).spec_capacity() == if !old(self)@.contains_key(key@) && old(self)@.len()
                == old(self).spec_capacity() {
                2 * old(self).spec_capacity() + 1
            } else {
                old(self).spec_capacity()
            },
    {
        proof {
            lemma_cells_map_len(self.cells@);
            lemma_count_taken(self.cells@);
        }
        if let Some(old_val) = self.get_mut(&key) {
            *old_val = value;
            return;
        }
        if self.taken_count == self.cells.len() {
            self.extend();
        }
        self.place(key, value);
    }

    /// The value stored under `key`, if any.
    pub fn get(&self, key: &K) -> (r: Option<&V>)
        requires
            self.wf(),
        ensures
            match r {
                Some(v) => self@.contains_key(key@) && *v == self@[key@],
                None => !self@.contains_key(key@),
            },
    {
        match self.get_index(key) {
            Some(idx) => {
                proof {
                    lemma_cells_map_value(self.cells@, idx as int, key@);
                }
                match &self.cells[idx] {
                    HashCell::Taken { value, .. } => Some(value),
                    HashCell::Empty => None,
                }
            },
            None => None,
        }
    }
}

impl<K: Hashable, V> HashTable<K, V> {
    /// What slot `i` holds: a key and its value, or nothing.
    pub closed spec fn slot_contents(&self, i: int) -> Option<(K, V)> {
        match self.cells@[i] {
            HashCell::Taken { key, value } => Some((key, value)),
            HashCell::Empty => None,
        }
    }

    /// A well-formed table holds finitely many keys, at most one for each slot.
    pub proof fn lemma_view_finite(&self)
        requires
            self.wf(),
        ensures
            self@.dom().finite(),
            self@.len() <= self.spec_capacity(),
    {
        lemma_cells_map_len(self.cells@);
        lemma_count_taken(self.cells@);
    }

    /// The number of keys held.
    pub fn len(&self) -> (r: usize)
        requires
            self.wf(),
        ensures
            r == self@.len(),
    {
        proof {
            lemma_cells_map_len(self.cells@);
        }
        self.taken_count
    }

    /// The number of slots.
    pub fn capacity(&self) -> (r: usize)
        ensures
            r == self.spec_capacity(),
    {
        self.cells.len()
    }

    /// The key and value in slot `i`, or `None` where the slot is empty.
    pub fn slot(&self, i: usize) -> (r: Option<(&K, &V)>)
        requires
            self.wf(),
            i < self.spec_capacity(),
        ensures
            match r {
                Some((k, v)) => {
                    &&& self.slot_contents(i as int) == Some((*k, *v))
                    &&& self@.contains_key(k@)
                    &&& self@[k@] == *v
                },
                None => self.slot_contents(i as int) is None,
            },
    {
        match &self.cells[i] {
            HashCell::Taken { key, value } => {
                proof {
                    lemma_cells_map_value(self.cells@, i as int, key@);
                }
                Some((key, value))
            },
            HashCell::Empty => None,
        }
    }
}

/// Slots that are all empty hold no key and count none.
proof fn lemma_none_cells<K: View, V>(s: Seq<HashCell<K, V>>)
    requires
        forall|j: int| 0 <= j < s.len() ==> (#[trigger] s[j]) is Empty,
    ensures
        count_taken(s) == 0,
        keys_unique(s),
        forall|i: int, k: K::V| !holds_key(s, i, k),
    decreases s.len(),
{
    if s.len() > 0 {
        lemma_none_cells(s.drop_last());
    }
}

} // verus!

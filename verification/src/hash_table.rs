//! Fixed-capacity open-addressing hash table with universal hashing and
//! linear probing; deleted entries leave tombstones so probe chains stay
//! intact.

use crate::keys::TableKey;
use vstd::prelude::*;
use vstd::relations::injective_on;
use vstd::set_lib::lemma_int_range;
use vstd::set_lib::lemma_len_subset;
use vstd::set_lib::lemma_map_size;
use vstd::set_lib::set_int_range;
use vstd::wrapping::u64_specs;

verus! {

#[derive(Debug, PartialEq, Eq)]
pub enum HashTableError {
    TableFull,
    KeyNotFound,
}

enum Slot<K, V> {
    Empty,
    Tombstone,
    Occupied(K, V),
}

/// The slot `t` steps after home slot `h`, probing linearly modulo `m`.
/// Meaningful for `0 <= h < m` and `0 <= t < m`.
spec fn probe_idx(h: int, t: int, m: int) -> int {
    if h + t < m {
        h + t
    } else {
        h + t - m
    }
}

/// How many probe steps lead from home slot `h` to slot `i`, modulo `m`.
spec fn probe_dist(h: int, i: int, m: int) -> int {
    if i >= h {
        i - h
    } else {
        i + m - h
    }
}

/// The table contents after a sequence of inserts into an empty table, as
/// the contracts of `new` and `insert` describe them.
pub open spec fn table_after_inserts<A, V>(ps: Seq<(A, V)>) -> Map<A, V>
    decreases ps.len(),
{
    if ps.len() == 0 {
        Map::empty()
    } else {
        table_after_inserts(ps.drop_last()).insert(ps.last().0, ps.last().1)
    }
}

/// The value most recently written for a key.
pub open spec fn last_write<A, V>(ps: Seq<(A, V)>, k: A) -> V
    recommends
        exists|i: int| 0 <= i < ps.len() && ps[i].0 == k,
    decreases ps.len(),
{
    if ps.len() == 0 {
        arbitrary()
    } else if ps.last().0 == k {
        ps.last().1
    } else {
        last_write(ps.drop_last(), k)
    }
}

/// Round-trip law: after any sequence of inserts into an empty table, every
/// inserted key is present with its most recently written value, a key never
/// inserted is absent, and no more keys are present than inserts were made —
/// so a sequence of distinct-key inserts that does not exceed the capacity
/// keeps succeeding.
pub proof fn lemma_insert_round_trip<A, V>(ps: Seq<(A, V)>, k: A)
    ensures
        (exists|i: int| 0 <= i < ps.len() && ps[i].0 == k) ==> table_after_inserts(
            ps,
        ).dom().contains(k) && table_after_inserts(ps)[k] == last_write(ps, k),
        !(exists|i: int| 0 <= i < ps.len() && ps[i].0 == k) ==> !table_after_inserts(
            ps,
        ).dom().contains(k),
        table_after_inserts(ps).dom().finite(),
        table_after_inserts(ps).dom().len() <= ps.len(),
    decreases ps.len(),
{
    if ps.len() == 0 {
        assert(table_after_inserts(ps).dom() =~= Set::<A>::empty());
    } else {
        lemma_insert_round_trip(ps.drop_last(), k);
        if exists|i: int| 0 <= i < ps.len() && ps[i].0 == k {
            let i = choose|i: int| 0 <= i < ps.len() && ps[i].0 == k;
            if ps.last().0 != k {
                assert(i < ps.len() - 1);
                assert(ps.drop_last()[i] == ps[i]);
            }
        } else {
            assert(forall|i: int| 0 <= i < ps.len() - 1 ==> ps.drop_last()[i] == ps[i]);
        }
        assert(table_after_inserts(ps).dom() =~= table_after_inserts(
            ps.drop_last(),
        ).dom().insert(ps.last().0));
    }
}

/// Tombstone law: removing a key and inserting it again yields the new
/// value, and after a removal alone the key is absent, as the contracts of
/// `remove`, `insert` and `get` describe the table.
pub proof fn lemma_remove_then_insert<A, V>(m: Map<A, V>, k: A, v2: V)
    ensures
        !m.remove(k).dom().contains(k),
        m.remove(k).insert(k, v2).dom().contains(k),
        m.remove(k).insert(k, v2)[k] == v2,
{
}

/// Random hash parameters are drawn once per table.
///
/// Relies on `rand::Rng::gen_range` with the thread-local generator of
/// `rand::thread_rng`: for a non-empty half-open range it returns a value of
/// that range and panics only when the range is empty, which the
/// precondition rules out.
#[verifier::external_body]
fn random_in_range(lo: u64, hi: u64) -> (r: u64)
    requires
        lo < hi,
    ensures
        lo <= r < hi,
{
    rand::Rng::gen_range(&mut rand::thread_rng(), lo..hi)
}

#[verifier::reject_recursive_types(K)]
#[verifier::reject_recursive_types(V)]
pub struct HashTable<K: TableKey, V> {
    slots: Vec<Slot<K, V>>,
    a: u64,
    b: u64,
    p: u64,
    m: usize,
    len: usize,
}

impl<K: TableKey, V> View for HashTable<K, V> {
    type V = Map<K::V, V>;

    /// The table abstracts to the map from the views of the occupied keys to
    /// their values.
    closed spec fn view(&self) -> Map<K::V, V> {
        HashTable::<K, V>::view_s(self.slots@)
    }
}

impl<K: TableKey, V> HashTable<K, V> {
    /// The fixed number of slots of the table.
    pub closed spec fn capacity(&self) -> int {
        self.m as int
    }

    spec fn occ_s(s: Seq<Slot<K, V>>, i: int) -> bool {
        &&& 0 <= i < s.len()
        &&& s[i] is Occupied
    }

    spec fn key_s(s: Seq<Slot<K, V>>, i: int) -> K::V {
        match s[i] {
            Slot::Occupied(k, _) => k@,
            _ => arbitrary(),
        }
    }

    spec fn key_exec_s(s: Seq<Slot<K, V>>, i: int) -> K {
        match s[i] {
            Slot::Occupied(k, _) => k,
            _ => arbitrary(),
        }
    }

    spec fn val_s(s: Seq<Slot<K, V>>, i: int) -> V {
        match s[i] {
            Slot::Occupied(_, v) => v,
            _ => arbitrary(),
        }
    }

    spec fn view_s(s: Seq<Slot<K, V>>) -> Map<K::V, V> {
        Map::new(
            |kv: K::V| exists|i: int| Self::occ_s(s, i) && Self::key_s(s, i) == kv,
            |kv: K::V| Self::val_s(s, choose|i: int| Self::occ_s(s, i) && Self::key_s(s, i) == kv),
        )
    }

    #[verifier::inline]
    spec fn occ(&self, i: int) -> bool {
        Self::occ_s(self.slots@, i)
    }

    #[verifier::inline]
    spec fn key_at(&self, i: int) -> K::V {
        Self::key_s(self.slots@, i)
    }

    #[verifier::inline]
    spec fn val_at(&self, i: int) -> V {
        Self::val_s(self.slots@, i)
    }

    spec fn occ_set_s(s: Seq<Slot<K, V>>, m: int) -> Set<int> {
        set_int_range(0, m).filter(|i: int| Self::occ_s(s, i))
    }

    #[verifier::inline]
    spec fn occ_set(&self) -> Set<int> {
        Self::occ_set_s(self.slots@, self.m as int)
    }

    /// The home slot of a key: the universal hash
    /// `((a * hash64(key) + b) mod p) mod m`, with the product and sum taken
    /// in wrapping 64-bit arithmetic.
    spec fn home_s(a: u64, b: u64, p: u64, m: int, kv: K::V) -> int {
        ((u64_specs::wrapping_add(u64_specs::wrapping_mul(a, K::hash_of(kv)), b)
            % p) as usize as int) % m
    }

    #[verifier::inline]
    spec fn home_of(&self, kv: K::V) -> int {
        Self::home_s(self.a, self.b, self.p, self.m as int, kv)
    }

    /// Well-formedness over the raw parts: the slot sequence matches the
    /// fixed parameters, the entry count equals the number of occupied
    /// slots, occupied keys are distinct, and every occupied slot is
    /// reachable from its key's home slot without crossing an empty slot.
    spec fn wf_s(s: Seq<Slot<K, V>>, a: u64, b: u64, p: u64, m: int, len: int) -> bool {
        &&& s.len() == m
        &&& 2 <= p
        &&& 1 <= a < p
        &&& b < p
        &&& len == Self::occ_set_s(s, m).len()
        &&& forall|i: int, j: int|
            #[trigger] Self::occ_s(s, i) && #[trigger] Self::occ_s(s, j) && i != j ==> Self::key_s(
                s,
                i,
            ) != Self::key_s(s, j)
        &&& forall|i: int, j: int|
            #[trigger] Self::occ_s(s, i) && 0 <= j < m && #[trigger] probe_dist(
                Self::home_s(a, b, p, m, Self::key_s(s, i)),
                j,
                m,
            ) < probe_dist(Self::home_s(a, b, p, m, Self::key_s(s, i)), i, m) ==> !(s[j] is Empty)
    }

    /// Well-formedness of the table.
    pub closed spec fn wf(&self) -> bool {
        Self::wf_s(self.slots@, self.a, self.b, self.p, self.m as int, self.len as int)
    }

    /// The occupied slots are in bijection with the entries of the view.
    proof fn lemma_dom_size(&self)
        requires
            self.wf(),
        ensures
            self@.dom().finite(),
            self@.dom().len() == self.len as int,
    {
        let g = |i: int| self.key_at(i);
        let os = self.occ_set();
        lemma_int_range(0, self.m as int);
        set_int_range(0, self.m as int).lemma_len_filter(|i: int| self.occ(i));
        assert forall|x1: int, x2: int|
            os.contains(x1) && os.contains(x2) && #[trigger] g(x1) == #[trigger] g(
                x2,
            ) implies x1 == x2 by {
            if x1 != x2 {
                assert(self.occ(x1) && self.occ(x2));
                assert(self.key_at(x1) != self.key_at(x2));
            }
        }
        assert(injective_on(g, os));
        let img = os.map(g);
        lemma_map_size(os, img, g);
        assert forall|kv: K::V| #[trigger] img.contains(kv) implies self@.dom().contains(kv) by {
            let i = choose|i: int| os.contains(i) && g(i) == kv;
            assert(Self::occ_s(self.slots@, i) && Self::key_s(self.slots@, i) == kv);
        }
        assert forall|kv: K::V| #[trigger] self@.dom().contains(kv) implies img.contains(kv) by {
            let i = choose|i: int|
                Self::occ_s(self.slots@, i) && Self::key_s(self.slots@, i) == kv;
            assert(os.contains(i));
            assert(g(i) == kv);
        }
        assert(img =~= self@.dom());
    }

    /// An occupied slot's key and value form an entry of the view.
    proof fn lemma_occ_pair(&self, i: int)
        requires
            self.wf(),
            self.occ(i),
        ensures
            self@.contains_pair(self.key_at(i), self.val_at(i)),
    {
        let kv = self.key_at(i);
        assert(self@.dom().contains(kv));
        let j = choose|j: int| self.occ(j) && self.key_at(j) == kv;
        assert(j == i);
    }

    /// With a non-occupied slot left, the table holds fewer entries than its
    /// capacity.
    proof fn lemma_below_capacity(&self, w: int)
        requires
            self.wf(),
            0 <= w < self.m as int,
            !self.occ(w),
        ensures
            self.len < self.m,
    {
        lemma_int_range(0, self.m as int);
        set_int_range(0, self.m as int).lemma_len_filter(|i: int| self.occ(i));
        let os = self.occ_set();
        let range = set_int_range(0, self.m as int).remove(w);
        assert(os.subset_of(range));
        lemma_len_subset(os, range);
        assert(set_int_range(0, self.m as int).contains(w));
        assert(range.len() == self.m as int - 1);
    }

    /// With every slot occupied, the table holds as many entries as its
    /// capacity.
    proof fn lemma_at_capacity(&self)
        requires
            self.wf(),
            forall|i: int| 0 <= i < self.m as int ==> self.occ(i),
        ensures
            self.len == self.m,
    {
        lemma_int_range(0, self.m as int);
        set_int_range(0, self.m as int).lemma_len_filter(|i: int| self.occ(i));
        assert(self.occ_set() =~= set_int_range(0, self.m as int));
    }

    /// Writing an entry into slot `w` preserves well-formedness and adds the
    /// entry to the view, provided the written key occurs in no other
    /// occupied slot, the probe chain from its home slot to `w` crosses no
    /// empty slot, and the entry count was adjusted.
    proof fn lemma_write_wf_s(
        s0: Seq<Slot<K, V>>,
        s1: Seq<Slot<K, V>>,
        a: u64,
        b: u64,
        p: u64,
        m: int,
        len0: int,
        len1: int,
        w: int,
    )
        requires
            Self::wf_s(s0, a, b, p, m, len0),
            0 <= w < m,
            s1 == s0.update(w, s1[w]),
            Self::occ_s(s1, w),
            Self::occ_s(s0, w) ==> Self::key_s(s0, w) == Self::key_s(s1, w),
            forall|i: int|
                #[trigger] Self::occ_s(s0, i) && i != w ==> Self::key_s(s0, i) != Self::key_s(
                    s1,
                    w,
                ),
            forall|j: int|
                0 <= j < m && #[trigger] probe_dist(
                    Self::home_s(a, b, p, m, Self::key_s(s1, w)),
                    j,
                    m,
                ) < probe_dist(Self::home_s(a, b, p, m, Self::key_s(s1, w)), w, m) ==> !(s0[j]
                    is Empty),
            len1 == len0 + (if Self::occ_s(s0, w) {
                0int
            } else {
                1int
            }),
        ensures
            Self::wf_s(s1, a, b, p, m, len1),
            Self::view_s(s1) == Self::view_s(s0).insert(Self::key_s(s1, w), Self::val_s(s1, w)),
    {
        let kw = Self::key_s(s1, w);
        let vw = Self::val_s(s1, w);
        assert(forall|i: int| 0 <= i < s1.len() && i != w ==> s1[i] == s0[i]);
        // the occupied index set gains exactly `w`
        assert(Self::occ_set_s(s1, m) =~= Self::occ_set_s(s0, m).insert(w));
        if Self::occ_s(s0, w) {
            assert(Self::occ_set_s(s0, m).contains(w));
            assert(Self::occ_set_s(s0, m).insert(w) =~= Self::occ_set_s(s0, m));
        } else {
            lemma_int_range(0, m);
            set_int_range(0, m).lemma_len_filter(|i: int| Self::occ_s(s0, i));
            assert(!Self::occ_set_s(s0, m).contains(w));
        }
        // distinct keys
        assert forall|i: int, j: int|
            #[trigger] Self::occ_s(s1, i) && #[trigger] Self::occ_s(s1, j) && i != j implies Self::key_s(
            s1,
            i,
        ) != Self::key_s(s1, j) by {
            if i != w && j != w {
                assert(Self::occ_s(s0, i) && Self::occ_s(s0, j));
            } else if i == w {
                assert(Self::occ_s(s0, j));
            } else {
                assert(Self::occ_s(s0, i));
            }
        }
        // probe reachability
        assert forall|i: int, j: int|
            #[trigger] Self::occ_s(s1, i) && 0 <= j < m && #[trigger] probe_dist(
                Self::home_s(a, b, p, m, Self::key_s(s1, i)),
                j,
                m,
            ) < probe_dist(Self::home_s(a, b, p, m, Self::key_s(s1, i)), i, m) implies !(s1[j]
            is Empty) by {
            if j == w {
            } else if i == w {
                assert(!(s0[j] is Empty));
            } else {
                assert(Self::occ_s(s0, i));
                assert(Self::key_s(s0, i) == Self::key_s(s1, i));
                assert(!(s0[j] is Empty));
            }
        }
        // the view gains exactly the written entry
        let v0 = Self::view_s(s0);
        let v1 = Self::view_s(s1);
        assert forall|kv: K::V| #[trigger] v1.dom().contains(kv) implies v0.insert(
            kw,
            vw,
        ).dom().contains(kv) && v1[kv] == v0.insert(kw, vw)[kv] by {
            let i = choose|i: int| Self::occ_s(s1, i) && Self::key_s(s1, i) == kv;
            if i == w {
                assert(v1[kv] == Self::val_s(s1, i));
            } else {
                assert(Self::occ_s(s0, i) && Self::key_s(s0, i) == kv);
                assert(kv != kw);
                assert(v0.dom().contains(kv));
                let j = choose|j: int| Self::occ_s(s0, j) && Self::key_s(s0, j) == kv;
                assert(j == i);
                let j2 = choose|j2: int| Self::occ_s(s1, j2) && Self::key_s(s1, j2) == kv;
                assert(j2 == i);
                assert(v1[kv] == Self::val_s(s1, i) && v0[kv] == Self::val_s(s0, i));
            }
        }
        assert forall|kv: K::V| #[trigger] v0.insert(kw, vw).dom().contains(kv) implies v1
            .dom().contains(kv) by {
            if kv == kw {
                assert(Self::occ_s(s1, w) && Self::key_s(s1, w) == kv);
            } else {
                let i = choose|i: int| Self::occ_s(s0, i) && Self::key_s(s0, i) == kv;
                assert(i != w);
                assert(Self::occ_s(s1, i) && Self::key_s(s1, i) == kv);
            }
        }
        assert(v1 =~= v0.insert(kw, vw));
    }

    /// The form of the write lemma over two whole tables.
    proof fn lemma_write_wf(pre: Self, post: Self, w: int)
        requires
            pre.wf(),
            0 <= w < pre.m as int,
            post.m == pre.m,
            post.a == pre.a,
            post.b == pre.b,
            post.p == pre.p,
            post.slots@ == pre.slots@.update(w, post.slots@[w]),
            post.occ(w),
            pre.occ(w) ==> pre.key_at(w) == post.key_at(w),
            forall|i: int| #[trigger] pre.occ(i) && i != w ==> pre.key_at(i) != post.key_at(w),
            forall|j: int|
                0 <= j < pre.m as int && #[trigger] probe_dist(
                    post.home_of(post.key_at(w)),
                    j,
                    pre.m as int,
                ) < probe_dist(post.home_of(post.key_at(w)), w, pre.m as int) ==> !(pre.slots@[j]
                    is Empty),
            post.len as int == pre.len as int + (if pre.occ(w) {
                0int
            } else {
                1int
            }),
        ensures
            post.wf(),
            post@ == pre@.insert(post.key_at(w), post.val_at(w)),
    {
        Self::lemma_write_wf_s(
            pre.slots@,
            post.slots@,
            pre.a,
            pre.b,
            pre.p,
            pre.m as int,
            pre.len as int,
            post.len as int,
            w,
        );
    }

    /// Creates an empty table with the given number of slots; the hash
    /// parameters `a` and `b` are drawn at random from `[1, p)` and `[0, p)`
    /// for the prime modulus `p = 2^61 - 1`.
    pub fn with_capacity(capacity: usize) -> (r: Self)
        ensures
            r.wf(),
            r@ == Map::<K::V, V>::empty(),
            r.capacity() == capacity,
    {
        let p: u64 = 2305843009213693951;
        let a = random_in_range(1, p);
        let b = random_in_range(0, p);
        let mut slots: Vec<Slot<K, V>> = Vec::new();
        let mut i: usize = 0;
        while i < capacity
            invariant
                0 <= i <= capacity,
                slots@.len() == i,
                forall|j: int| 0 <= j < i ==> slots@[j] is Empty,
            decreases capacity - i,
        {
            slots.push(Slot::Empty);
            i = i + 1;
        }
        let r = HashTable { slots, a, b, p, m: capacity, len: 0 };
        proof {
            lemma_int_range(0, r.m as int);
            set_int_range(0, r.m as int).lemma_len_filter(|i: int| r.occ(i));
            assert(r.occ_set() =~= Set::<int>::empty());
            assert(r@ =~= Map::<K::V, V>::empty());
        }
        r
    }

    /// Creates an empty table with the default capacity of 101 slots.
    pub fn new() -> (r: Self)
        ensures
            r.wf(),
            r@ == Map::<K::V, V>::empty(),
            r.capacity() == 101,
    {
        Self::with_capacity(101)
    }

    /// The number of entries of the table.
    pub fn len(&self) -> (r: usize)
        requires
            self.wf(),
        ensures
            r == self@.dom().len(),
            self@.dom().finite(),
    {
        proof {
            self.lemma_dom_size();
        }
        self.len
    }

    /// Whether the table holds no entry.
    pub fn is_empty(&self) -> (r: bool)
        requires
            self.wf(),
        ensures
            r == (self@.dom().len() == 0),
    {
        proof {
            self.lemma_dom_size();
        }
        self.len == 0
    }

    /// Computes the home slot of a key.
    fn universal_hash(&self, key: &K) -> (h: usize)
        requires
            self.wf(),
            self.m >= 1,
        ensures
            h as int == self.home_of(key@),
            h < self.m,
    {
        let hk = key.hash64();
        let t = self.a.wrapping_mul(hk).wrapping_add(self.b) % self.p;
        (t as usize) % self.m
    }

    /// Finds the slot holding the key, probing linearly from its home slot,
    /// skipping tombstones, and stopping at an empty slot or after a full
    /// cycle.
    fn find_index(&self, key: &K) -> (r: Option<usize>)
        requires
            self.wf(),
        ensures
            match r {
                Some(i) => self.occ(i as int) && self.key_at(i as int) == key@
                    && self@.contains_pair(key@, self.val_at(i as int)),
                None => !self@.contains_key(key@),
            },
    {
        if self.m == 0 {
            proof {
                if self@.contains_key(key@) {
                    let i = choose|i: int| self.occ(i) && self.key_at(i) == key@;
                    assert(false);
                }
            }
            return None;
        }
        let h = self.universal_hash(key);
        let ghost hh = h as int;
        let ghost mm = self.m as int;
        let ghost kv = key@;
        let mut cur = h;
        let mut t: usize = 0;
        loop
            invariant
                self.wf(),
                1 <= self.m,
                hh == self.home_of(kv),
                0 <= hh < mm,
                mm == self.m as int,
                kv == key@,
                0 <= t <= mm,
                cur as int == probe_idx(hh, t as int, mm),
                0 <= cur < self.m,
                forall|s: int|
                    0 <= s < t ==> !(self.slots@[#[trigger] probe_idx(hh, s, mm)] is Empty) && (
                    self.occ(probe_idx(hh, s, mm)) ==> self.key_at(probe_idx(hh, s, mm)) != kv),
            decreases mm - t,
        {
            if t == self.m {
                // A full cycle visited every slot without a match.
                proof {
                    if self@.contains_key(kv) {
                        let i = choose|i: int| self.occ(i) && self.key_at(i) == kv;
                        let d = probe_dist(hh, i, mm);
                        assert(probe_idx(hh, d, mm) == i);
                        assert(0 <= d < t);
                    }
                }
                return None;
            }
            match &self.slots[cur] {
                Slot::Occupied(k, _) => {
                    if k.key_eq(key) {
                        proof {
                            assert(self.occ(cur as int));
                            self.lemma_occ_pair(cur as int);
                        }
                        return Some(cur);
                    }
                },
                Slot::Tombstone => {},
                Slot::Empty => {
                    // An empty slot ends every probe chain through it, so the
                    // key is absent.
                    proof {
                        if self@.contains_key(kv) {
                            let i = choose|i: int| self.occ(i) && self.key_at(i) == kv;
                            let d = probe_dist(hh, i, mm);
                            assert(probe_idx(hh, d, mm) == i);
                            assert(self.home_of(self.key_at(i)) == hh);
                            if d < t {
                                assert(!(self.slots@[probe_idx(hh, d, mm)] is Empty));
                                assert(false);
                            } else if d == t {
                                assert(cur as int == i);
                                assert(false);
                            } else {
                                assert(probe_dist(hh, cur as int, mm) == t as int);
                                assert(!(self.slots@[cur as int] is Empty));
                                assert(false);
                            }
                        }
                    }
                    return None;
                },
            }
            proof {
                assert(self.occ(probe_idx(hh, t as int, mm)) ==> self.key_at(
                    probe_idx(hh, t as int, mm),
                ) != kv);
            }
            t = t + 1;
            cur = if cur + 1 == self.m {
                0
            } else {
                cur + 1
            };
        }
    }

    /// Inserts the key with the given value.  Probing from the key's home
    /// slot, an occupied slot with an equal key is overwritten in place;
    /// otherwise the first empty or tombstone slot of the probe sequence
    /// receives the entry.  Fails with `TableFull` exactly when the key is
    /// absent and no free slot is left.
    pub fn insert(&mut self, key: K, value: V) -> (r: Result<(), HashTableError>)
        requires
            old(self).wf(),
        ensures
            final(self).wf(),
            final(self).capacity() == old(self).capacity(),
            match r {
                Ok(()) => final(self)@ == old(self)@.insert(key@, value),
                Err(e) => e == HashTableError::TableFull && final(self)@ == old(self)@ && !old(
                    self,
                )@.contains_key(key@) && old(self)@.dom().len() == old(self).capacity(),
            },
            r is Ok <==> (old(self)@.contains_key(key@) || old(self)@.dom().len() < old(
                self,
            ).capacity()),
    {
        let ghost kv = key@;
        proof {
            self.lemma_dom_size();
        }
        if self.m == 0 {
            proof {
                if self@.contains_key(kv) {
                    let i = choose|i: int| self.occ(i) && self.key_at(i) == kv;
                    assert(false);
                }
                lemma_int_range(0, 0);
                set_int_range(0, 0).lemma_len_filter(|i: int| self.occ(i));
                assert(self.occ_set() =~= Set::<int>::empty());
            }
            return Err(HashTableError::TableFull);
        }
        let h = self.universal_hash(&key);
        let ghost hh = h as int;
        let ghost mm = self.m as int;
        let mut cur = h;
        let mut t: usize = 0;
        let mut ff: Option<usize> = None;
        let ghost mut ffs: int = 0;
        loop
            invariant
                self.wf(),
                *self == *old(self),
                1 <= self.m,
                hh == self.home_of(kv),
                0 <= hh < mm,
                mm == self.m as int,
                kv == key@,
                0 <= t <= mm,
                cur as int == probe_idx(hh, t as int, mm),
                0 <= cur < self.m,
                forall|s: int|
                    0 <= s < t ==> !(self.slots@[#[trigger] probe_idx(hh, s, mm)] is Empty) && (
                    self.occ(probe_idx(hh, s, mm)) ==> self.key_at(probe_idx(hh, s, mm)) != kv),
                match ff {
                    Option::None => forall|s: int|
                        0 <= s < t ==> self.occ(#[trigger] probe_idx(hh, s, mm)),
                    Option::Some(f) => {
                        &&& 0 <= ffs < t
                        &&& f as int == probe_idx(hh, ffs, mm)
                        &&& 0 <= f < self.m
                        &&& !self.occ(f as int)
                        &&& forall|s: int|
                            0 <= s < ffs ==> self.occ(#[trigger] probe_idx(hh, s, mm))
                    },
                },
            decreases mm - t,
        {
            if t == self.m {
                // A full cycle found no matching key.
                proof {
                    if self@.contains_key(kv) {
                        let i = choose|i: int| self.occ(i) && self.key_at(i) == kv;
                        let d = probe_dist(hh, i, mm);
                        assert(probe_idx(hh, d, mm) == i);
                        assert(0 <= d < t);
                        assert(false);
                    }
                }
                match ff {
                    Option::Some(f) => {
                        proof {
                            self.lemma_below_capacity(f as int);
                            self.lemma_dom_size();
                        }
                        let ghost pre = *self;
                        self.slots[f] = Slot::Occupied(key, value);
                        self.len = self.len + 1;
                        proof {
                            assert(self.occ(f as int));
                            assert(self.key_at(f as int) == kv);
                            assert(self.val_at(f as int) == value);
                            assert forall|i: int| #[trigger] pre.occ(i) && i != f as int
                                implies pre.key_at(i) != kv by {}
                            assert(self.home_of(kv) == hh);
                            assert(probe_dist(hh, f as int, mm) == ffs);
                            assert forall|j: int|
                                0 <= j < mm && #[trigger] probe_dist(hh, j, mm) < ffs implies !(
                            pre.slots@[j] is Empty) by {
                                let s = probe_dist(hh, j, mm);
                                assert(probe_idx(hh, s, mm) == j);
                                assert(pre.occ(probe_idx(hh, s, mm)));
                            }
                            Self::lemma_write_wf(pre, *self, f as int);
                        }
                        return Ok(());
                    },
                    Option::None => {
                        // Every slot is occupied by another key.
                        proof {
                            assert forall|i: int| 0 <= i < mm implies self.occ(i) by {
                                let d = probe_dist(hh, i, mm);
                                assert(probe_idx(hh, d, mm) == i);
                                assert(0 <= d < t);
                            }
                            self.lemma_at_capacity();
                            self.lemma_dom_size();
                        }
                        return Err(HashTableError::TableFull);
                    },
                }
            }
            match &self.slots[cur] {
                Slot::Occupied(k, _) => {
                    if k.key_eq(&key) {
                        // Equal key found first: overwrite in place.
                        proof {
                            assert(self.occ(cur as int));
                            self.lemma_occ_pair(cur as int);
                        }
                        let ghost pre = *self;
                        self.slots[cur] = Slot::Occupied(key, value);
                        proof {
                            assert(self.occ(cur as int));
                            assert(self.key_at(cur as int) == kv);
                            assert(self.val_at(cur as int) == value);
                            assert forall|i: int| #[trigger] pre.occ(i) && i != cur as int
                                implies pre.key_at(i) != kv by {}
                            assert(self.home_of(kv) == hh);
                            assert(probe_dist(hh, cur as int, mm) == t as int);
                            assert forall|j: int|
                                0 <= j < mm && #[trigger] probe_dist(hh, j, mm) < t as int
                                implies !(pre.slots@[j] is Empty) by {
                                let s = probe_dist(hh, j, mm);
                                assert(probe_idx(hh, s, mm) == j);
                            }
                            Self::lemma_write_wf(pre, *self, cur as int);
                        }
                        return Ok(());
                    }
                },
                Slot::Tombstone => {
                    if ff.is_none() {
                        ff = Some(cur);
                        proof {
                            ffs = t as int;
                        }
                    }
                },
                Slot::Empty => {
                    // An empty slot ends the probe chain: the key is absent,
                    // and the first free slot of the chain takes the entry.
                    proof {
                        if self@.contains_key(kv) {
                            let i = choose|i: int| self.occ(i) && self.key_at(i) == kv;
                            let d = probe_dist(hh, i, mm);
                            assert(probe_idx(hh, d, mm) == i);
                            assert(self.home_of(self.key_at(i)) == hh);
                            if d < t {
                                assert(false);
                            } else if d == t {
                                assert(cur as int == i);
                                assert(false);
                            } else {
                                assert(probe_dist(hh, cur as int, mm) == t as int);
                                assert(!(self.slots@[cur as int] is Empty));
                                assert(false);
                            }
                        }
                    }
                    let w = match ff {
                        Option::Some(f) => f,
                        Option::None => cur,
                    };
                    let ghost ws: int = if ff is Some {
                        ffs
                    } else {
                        t as int
                    };
                    proof {
                        assert(!self.occ(w as int));
                        self.lemma_below_capacity(w as int);
                        self.lemma_dom_size();
                    }
                    let ghost pre = *self;
                    self.slots[w] = Slot::Occupied(key, value);
                    self.len = self.len + 1;
                    proof {
                        assert(self.occ(w as int));
                        assert(self.key_at(w as int) == kv);
                        assert(self.val_at(w as int) == value);
                        assert forall|i: int| #[trigger] pre.occ(i) && i != w as int
                            implies pre.key_at(i) != kv by {}
                        assert(self.home_of(kv) == hh);
                        assert(probe_dist(hh, w as int, mm) == ws);
                        assert forall|j: int| 0 <= j < mm && #[trigger] probe_dist(hh, j, mm) < ws
                            implies !(pre.slots@[j] is Empty) by {
                            let s = probe_dist(hh, j, mm);
                            assert(probe_idx(hh, s, mm) == j);
                            assert(pre.occ(probe_idx(hh, s, mm)));
                        }
                        Self::lemma_write_wf(pre, *self, w as int);
                    }
                    return Ok(());
                },
            }
            proof {
                assert(self.occ(probe_idx(hh, t as int, mm)) ==> self.key_at(
                    probe_idx(hh, t as int, mm),
                ) != kv);
            }
            t = t + 1;
            cur = if cur + 1 == self.m {
                0
            } else {
                cur + 1
            };
        }
    }

    /// Looks the key up and returns a reference to its value.
    pub fn get(&self, key: &K) -> (r: Result<&V, HashTableError>)
        requires
            self.wf(),
        ensures
            match r {
                Ok(v) => self@.contains_key(key@) && *v == self@[key@],
                Err(e) => e == HashTableError::KeyNotFound && !self@.contains_key(key@),
            },
    {
        match self.find_index(key) {
            Some(i) => match &self.slots[i] {
                Slot::Occupied(_, v) => Ok(v),
                _ => unreached(),
            },
            None => Err(HashTableError::KeyNotFound),
        }
    }

    /// Whether the key is present.
    pub fn contains(&self, key: &K) -> (r: bool)
        requires
            self.wf(),
        ensures
            r == self@.contains_key(key@),
    {
        match self.find_index(key) {
            Some(_) => true,
            None => false,
        }
    }

    /// Removes the key, leaving a tombstone in its slot so that probe chains
    /// of other keys stay intact.
    pub fn remove(&mut self, key: &K) -> (r: Result<(), HashTableError>)
        requires
            old(self).wf(),
        ensures
            final(self).wf(),
            final(self).capacity() == old(self).capacity(),
            match r {
                Ok(()) => final(self)@ == old(self)@.remove(key@),
                Err(e) => e == HashTableError::KeyNotFound && final(self)@ == old(self)@,
            },
            r is Ok <==> old(self)@.contains_key(key@),
    {
        let ghost kv = key@;
        match self.find_index(key) {
            Some(i) => {
                let ghost pre = *self;
                self.slots[i] = Slot::Tombstone;
                proof {
                    lemma_int_range(0, pre.m as int);
                    set_int_range(0, pre.m as int).lemma_len_filter(|j: int| pre.occ(j));
                    assert(pre.occ_set().contains(i as int));
                    assert(self.occ_set() =~= pre.occ_set().remove(i as int));
                    assert(pre.occ_set().len() >= 1);
                }
                self.len = self.len - 1;
                proof {
                    assert(forall|j: int|
                        0 <= j < self.slots@.len() && j != i as int ==> self.slots@[j]
                            == pre.slots@[j]);
                    assert forall|j: int, l: int|
                        #[trigger] self.occ(j) && #[trigger] self.occ(l) && j != l implies self
                        .key_at(j) != self.key_at(l) by {
                        assert(pre.occ(j) && pre.occ(l));
                    }
                    assert forall|j: int, l: int|
                        #[trigger] self.occ(j) && 0 <= l < self.m && #[trigger] probe_dist(
                            self.home_of(self.key_at(j)),
                            l,
                            self.m as int,
                        ) < probe_dist(self.home_of(self.key_at(j)), j, self.m as int) implies !(
                    self.slots@[l] is Empty) by {
                        assert(pre.occ(j));
                        assert(pre.home_of(pre.key_at(j)) == self.home_of(self.key_at(j)));
                        assert(!(pre.slots@[l] is Empty));
                    }
                    // the view loses exactly the removed entry
                    assert forall|kx: K::V| #[trigger]
                        self@.dom().contains(kx) implies pre@.remove(kv).dom().contains(kx)
                        && self@[kx] == pre@.remove(kv)[kx] by {
                        let j = choose|j: int| self.occ(j) && self.key_at(j) == kx;
                        assert(pre.occ(j) && pre.key_at(j) == kx);
                        assert(j != i as int);
                        assert(kx != kv);
                        let j1 = choose|j1: int| pre.occ(j1) && pre.key_at(j1) == kx;
                        assert(j1 == j);
                        let j2 = choose|j2: int| self.occ(j2) && self.key_at(j2) == kx;
                        assert(j2 == j);
                    }
                    assert forall|kx: K::V| #[trigger]
                        pre@.remove(kv).dom().contains(kx) implies self@.dom().contains(kx) by {
                        let j = choose|j: int| pre.occ(j) && pre.key_at(j) == kx;
                        assert(j != i as int);
                        assert(self.occ(j) && self.key_at(j) == kx);
                    }
                    assert(self@ =~= pre@.remove(kv));
                }
                Ok(())
            },
            None => Err(HashTableError::KeyNotFound),
        }
    }

    /// Looks the key up and returns a mutable reference to its value.
    pub fn get_mut(&mut self, key: &K) -> (r: Result<&mut V, HashTableError>)
        requires
            old(self).wf(),
        ensures
            final(self).wf(),
            final(self).capacity() == old(self).capacity(),
            r matches Ok(v) ==> old(self)@.contains_key(key@) && *v == old(self)@[key@]
                && final(self)@ == old(self)@.insert(key@, *final(v)),
            r matches Err(e) ==> e == HashTableError::KeyNotFound && !old(self)@.contains_key(key@)
                && final(self)@ == old(self)@,
    {
        let ghost kv = key@;
        match self.find_index(key) {
            Some(i) => {
                let ghost pre = *self;
                proof {
                    let s0 = pre.slots@;
                    let k0 = Self::key_exec_s(s0, i as int);
                    // Whatever value the caller leaves behind the returned
                    // reference, the updated table is well formed and its
                    // view gains exactly that entry.
                    assert forall|vn: V|
                        #![trigger s0.update(i as int, Slot::Occupied(k0, vn))]
                        Self::wf_s(
                            s0.update(i as int, Slot::Occupied(k0, vn)),
                            pre.a,
                            pre.b,
                            pre.p,
                            pre.m as int,
                            pre.len as int,
                        ) && Self::view_s(s0.update(i as int, Slot::Occupied(k0, vn)))
                        == Self::view_s(s0).insert(kv, vn) by {
                        let s1 = s0.update(i as int, Slot::Occupied(k0, vn));
                        assert(Self::occ_s(s1, i as int));
                        assert(Self::key_s(s1, i as int) == kv);
                        assert(Self::val_s(s1, i as int) == vn);
                        assert forall|j: int| #[trigger] Self::occ_s(s0, j) && j != i as int
                            implies Self::key_s(s0, j) != kv by {
                            assert(Self::occ_s(s0, i as int));
                        }
                        assert forall|j: int|
                            0 <= j < pre.m as int && #[trigger] probe_dist(
                                Self::home_s(pre.a, pre.b, pre.p, pre.m as int, kv),
                                j,
                                pre.m as int,
                            ) < probe_dist(
                                Self::home_s(pre.a, pre.b, pre.p, pre.m as int, kv),
                                i as int,
                                pre.m as int,
                            ) implies !(s0[j] is Empty) by {
                            assert(Self::occ_s(s0, i as int));
                            assert(Self::key_s(s0, i as int) == kv);
                        }
                        Self::lemma_write_wf_s(
                            s0,
                            s1,
                            pre.a,
                            pre.b,
                            pre.p,
                            pre.m as int,
                            pre.len as int,
                            pre.len as int,
                            i as int,
                        );
                    }
                }
                let slot = &mut self.slots[i];
                match slot {
                    Slot::Occupied(_, v) => Ok(v),
                    _ => unreached(),
                }
            },
            None => Err(HashTableError::KeyNotFound),
        }
    }
}

} // verus!

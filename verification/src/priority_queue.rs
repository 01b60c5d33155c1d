//! Priority queue backed by a binary min-heap stored in a contiguous
//! sequence: the parent of index `i` is `(i - 1) / 2`, its children are
//! `2 * i + 1` and `2 * i + 2`, and every parent's key is at most its
//! children's.

use vstd::multiset::Multiset;
use vstd::prelude::*;

verus! {

broadcast use vstd::seq_lib::group_to_multiset_ensures;

/// An element of the min-heap, ordered by an integer key.
pub trait HeapItem: Sized {
    /// The ordering key.
    spec fn pkey(&self) -> int;

    /// Whether this element's key is strictly below the other's.
    fn lt_item(&self, other: &Self) -> (r: bool)
        ensures
            r == (self.pkey() < other.pkey()),
    ;

    /// A copy equal to this element.
    fn dup(&self) -> (r: Self)
        ensures
            r == *self,
    ;
}

impl HeapItem for u32 {
    open spec fn pkey(&self) -> int {
        *self as int
    }

    fn lt_item(&self, other: &Self) -> (r: bool) {
        *self < *other
    }

    fn dup(&self) -> (r: Self) {
        *self
    }
}

/// Whether index `j` lies on the ancestor path of index `k`: it is `k`
/// itself or one of the parents above it.
pub open spec fn on_ancestor_path(j: int, k: int) -> bool
    decreases k,
{
    if k <= 0 {
        j == k
    } else {
        j == k || on_ancestor_path(j, (k - 1) / 2)
    }
}

/// The ancestor path is closed under taking parents.
proof fn lemma_ancestor_parent(j: int, k: int)
    requires
        0 < j,
        on_ancestor_path(j, k),
    ensures
        on_ancestor_path((j - 1) / 2, k),
    decreases k,
{
    if j == k {
        assert(on_ancestor_path((j - 1) / 2, (j - 1) / 2));
    } else {
        lemma_ancestor_parent(j, (k - 1) / 2);
    }
}

/// The min-heap ordering over a backing sequence: each parent's key is at
/// most its child's.
pub open spec fn heap_ordered<T: HeapItem>(s: Seq<T>) -> bool {
    forall|i: int| 1 <= i < s.len() ==> s[(i - 1) / 2].pkey() <= (#[trigger] s[i]).pkey()
}

/// In a heap-ordered sequence the root's key is at most every element's.
proof fn lemma_root_min<T: HeapItem>(s: Seq<T>, i: int)
    requires
        heap_ordered(s),
        0 <= i < s.len(),
    ensures
        s[0].pkey() <= s[i].pkey(),
    decreases i,
{
    if i > 0 {
        lemma_root_min(s, (i - 1) / 2);
    }
}

/// Ordering law: elements leave the heap in non-decreasing key order.  A
/// popped element's key is at most every remaining element's key, so it is
/// also at most the key of whatever a later `pop` returns.
pub proof fn lemma_pop_monotonic<T: HeapItem>(ms: Multiset<T>, x: T, y: T)
    requires
        forall|z: T| ms.count(z) > 0 ==> x.pkey() <= z.pkey(),
        ms.remove(x).count(y) > 0,
    ensures
        x.pkey() <= y.pkey(),
{
    assert(ms.count(y) >= ms.remove(x).count(y));
}

/// In a heap-ordered sequence the root's key is at most the key of every
/// element of the multiset.
proof fn lemma_all_ge_root<T: HeapItem>(s: Seq<T>)
    requires
        heap_ordered(s),
        s.len() >= 1,
    ensures
        forall|y: T| s.to_multiset().count(y) > 0 ==> s[0].pkey() <= y.pkey(),
{
    assert forall|y: T| s.to_multiset().count(y) > 0 implies s[0].pkey() <= y.pkey() by {
        assert(s.contains(y));
        let i = choose|i: int| 0 <= i < s.len() && s[i] == y;
        lemma_root_min(s, i);
    }
}

/// Swapping the root with the last element and then dropping the last
/// element removes exactly the root from the multiset.
proof fn lemma_pop_multiset<T>(s: Seq<T>)
    requires
        s.len() >= 1,
    ensures
        ({
            let last = s.len() - 1;
            s.update(0, s[last]).update(last, s[0]).drop_last().to_multiset()
                == s.to_multiset().remove(s[0])
        }),
{
    let last = s.len() - 1;
    let s1 = s.update(0, s[last]).update(last, s[0]);
    lemma_swap_multiset(s, 0, last);
    vstd::seq_lib::to_multiset_remove(s1, last);
    assert(s1.remove(last) =~= s1.drop_last());
    assert(s1[last] == s[0]);
}

/// Swapping two elements of a sequence keeps its multiset.
proof fn lemma_swap_multiset<T>(s: Seq<T>, i: int, j: int)
    requires
        0 <= i < s.len(),
        0 <= j < s.len(),
    ensures
        s.update(i, s[j]).update(j, s[i]).to_multiset() == s.to_multiset(),
{
    let s1 = s.update(i, s[j]);
    let s2 = s1.update(j, s[i]);
    if i == j {
        assert(s2 =~= s);
    } else {
        vstd::seq_lib::to_multiset_update(s, i, s[j]);
        vstd::seq_lib::to_multiset_update(s1, j, s[i]);
        assert(s1[j] == s[j]);
        assert(s2.to_multiset() =~= s.to_multiset());
    }
}

pub struct MinHeap<T: HeapItem> {
    data: Vec<T>,
}

impl<T: HeapItem> View for MinHeap<T> {
    type V = Multiset<T>;

    /// The heap abstracts to the multiset of its elements.
    closed spec fn view(&self) -> Multiset<T> {
        self.data@.to_multiset()
    }
}

impl<T: HeapItem> MinHeap<T> {
    /// Well-formedness: the backing sequence satisfies the min-heap order.
    pub closed spec fn wf(&self) -> bool {
        heap_ordered(self.data@)
    }

    /// Creates an empty min-heap.
    pub fn new() -> (r: Self)
        ensures
            r.wf(),
            r@ == Multiset::<T>::empty(),
    {
        let r = MinHeap { data: Vec::new() };
        proof {
            assert(r.data@.to_multiset() =~= Multiset::<T>::empty());
        }
        r
    }

    /// The number of elements of the heap.
    pub fn len(&self) -> (r: usize)
        ensures
            r == self@.len(),
    {
        self.data.len()
    }

    /// Whether the heap holds no element.
    pub fn is_empty(&self) -> (r: bool)
        ensures
            r == (self@.len() == 0),
    {
        self.data.len() == 0
    }

    /// A reference to a minimal element, without mutation.
    pub fn peek(&self) -> (r: Option<&T>)
        requires
            self.wf(),
        ensures
            match r {
                Some(x) => self@.count(*x) > 0 && forall|y: T|
                    self@.count(y) > 0 ==> x.pkey() <= y.pkey(),
                None => self@.len() == 0,
            },
    {
        if self.data.len() == 0 {
            None
        } else {
            let x = &self.data[0];
            proof {
                assert(self.data@.contains(self.data@[0]));
                assert forall|y: T| self@.count(y) > 0 implies x.pkey() <= y.pkey() by {
                    assert(self.data@.contains(y));
                    let i = choose|i: int| 0 <= i < self.data@.len() && self.data@[i] == y;
                    lemma_root_min(self.data@, i);
                }
            }
            Some(x)
        }
    }

    /// Appends the element and sifts it up to its place.
    pub fn push(&mut self, value: T)
        requires
            old(self).wf(),
        ensures
            final(self).wf(),
            final(self)@ == old(self)@.insert(value),
            final(self)@.len() == old(self)@.len() + 1,
    {
        self.data.push(value);
        self.bubble_up();
    }

    /// Removes and returns a minimal element: the root is swapped with the
    /// last element, the last element is removed, and the new root is sifted
    /// down to its place.
    #[verifier::rlimit(50)]
    pub fn pop(&mut self) -> (r: Option<T>)
        requires
            old(self).wf(),
        ensures
            final(self).wf(),
            match r {
                Some(x) => {
                    &&& old(self)@.count(x) > 0
                    &&& final(self)@ == old(self)@.remove(x)
                    &&& final(self)@.len() == old(self)@.len() - 1
                    &&& forall|y: T| final(self)@.count(y) > 0 ==> x.pkey() <= y.pkey()
                },
                None => old(self)@.len() == 0 && final(self)@ == old(self)@,
            },
    {
        let n = self.data.len();
        if n == 0 {
            return None;
        }
        let ghost s = self.data@;
        let last = n - 1;
        // swap the root with the last element
        let a = self.data[0].dup();
        let b = self.data[last].dup();
        self.data[0] = b;
        self.data[last] = a;
        let ghost s1 = self.data@;
        let min = match self.data.pop() {
            Some(x) => x,
            None => unreached(),
        };
        proof {
            assert(s1 =~= s.update(0, s[last as int]).update(last as int, s[0]));
            lemma_pop_multiset(s);
            assert(self.data@ == s1.drop_last());
            assert(min == s[0]);
            assert(self@ == old(self)@.remove(min));
            lemma_all_ge_root(s);
            assert forall|y: T| self@.count(y) > 0 implies min.pkey() <= y.pkey() by {
                assert(old(self)@.count(y) > 0);
            }
            // the tail of the swapped sequence is heap-ordered except at the
            // root
            assert(forall|j: int| 1 <= j < last ==> self.data@[j] == s[j]);
        }
        if !self.data.is_empty() {
            self.bubble_down();
        }
        Some(min)
    }

    /// Sifts the last element up until its parent's key is not above it.
    fn bubble_up(&mut self)
        requires
            old(self).data@.len() >= 1,
            forall|j: int|
                1 <= j < old(self).data@.len() - 1 ==> old(self).data@[(j - 1) / 2].pkey() <= (
                #[trigger] old(self).data@[j]).pkey(),
        ensures
            final(self).wf(),
            final(self).data@.to_multiset() == old(self).data@.to_multiset(),
            final(self).data@.len() == old(self).data@.len(),
            forall|j: int|
                0 <= j < old(self).data@.len() && !on_ancestor_path(
                    j,
                    old(self).data@.len() - 1,
                ) ==> final(self).data@[j] == old(self).data@[j],
    {
        let ghost n = self.data@.len() as int;
        let mut i = self.data.len() - 1;
        loop
            invariant
                self.data@.len() == n,
                0 <= i < n,
                on_ancestor_path(i as int, n - 1),
                forall|j: int|
                    0 <= j < n && !on_ancestor_path(j, n - 1) ==> self.data@[j] == old(
                        self,
                    ).data@[j],
                self.data@.to_multiset() == old(self).data@.to_multiset(),
                forall|j: int|
                    1 <= j < n && j != i ==> self.data@[(j - 1) / 2].pkey() <= (
                    #[trigger] self.data@[j]).pkey(),
                forall|j: int|
                    1 <= j < n && (j - 1) / 2 == i && i >= 1 ==> self.data@[(i - 1) / 2].pkey()
                        <= (#[trigger] self.data@[j]).pkey(),
            ensures
                self.data@.len() == n,
                self.data@.to_multiset() == old(self).data@.to_multiset(),
                heap_ordered(self.data@),
            decreases i,
        {
            if i == 0 {
                break ;
            }
            let parent = (i - 1) / 2;
            if self.data[i].lt_item(&self.data[parent]) {
                let ghost s = self.data@;
                let xi = self.data[i].dup();
                let xp = self.data[parent].dup();
                self.data[i] = xp;
                self.data[parent] = xi;
                proof {
                    lemma_ancestor_parent(i as int, n - 1);
                    lemma_swap_multiset(s, i as int, parent as int);
                    assert(self.data@ =~= s.update(i as int, s[parent as int]).update(
                        parent as int,
                        s[i as int],
                    ));
                }
                i = parent;
            } else {
                break ;
            }
        }
    }

    /// Sifts the root down, swapping with the smaller child, until no child's
    /// key is below it.
    fn bubble_down(&mut self)
        requires
            old(self).data@.len() >= 1,
            forall|j: int|
                1 <= j < old(self).data@.len() && (j - 1) / 2 != 0 ==> old(self).data@[(j - 1)
                    / 2].pkey() <= (#[trigger] old(self).data@[j]).pkey(),
        ensures
            final(self).wf(),
            final(self).data@.to_multiset() == old(self).data@.to_multiset(),
            final(self).data@.len() == old(self).data@.len(),
    {
        let n = self.data.len();
        let mut i: usize = 0;
        loop
            invariant
                self.data@.len() == n,
                1 <= n,
                0 <= i < n,
                self.data@.to_multiset() == old(self).data@.to_multiset(),
                forall|j: int|
                    1 <= j < n && (j - 1) / 2 != i ==> self.data@[(j - 1) / 2].pkey() <= (
                    #[trigger] self.data@[j]).pkey(),
                forall|j: int|
                    1 <= j < n && (j - 1) / 2 == i && i >= 1 ==> self.data@[(i - 1) / 2].pkey()
                        <= (#[trigger] self.data@[j]).pkey(),
            ensures
                self.data@.len() == n,
                self.data@.to_multiset() == old(self).data@.to_multiset(),
                heap_ordered(self.data@),
            decreases n - i,
        {
            if i >= n / 2 {
                // no child is in range
                proof {
                    assert forall|j: int| 1 <= j < n implies self.data@[(j - 1) / 2].pkey() <= (
                    #[trigger] self.data@[j]).pkey() by {
                        assert((j - 1) / 2 != i);
                    }
                }
                break ;
            }
            let left = 2 * i + 1;
            let right = 2 * i + 2;
            let mut smallest = i;
            if self.data[left].lt_item(&self.data[smallest]) {
                smallest = left;
            }
            if right < n && self.data[right].lt_item(&self.data[smallest]) {
                smallest = right;
            }
            if smallest == i {
                break ;
            }
            let ghost s = self.data@;
            let xi = self.data[i].dup();
            let xs = self.data[smallest].dup();
            self.data[i] = xs;
            self.data[smallest] = xi;
            proof {
                lemma_swap_multiset(s, i as int, smallest as int);
                assert(self.data@ =~= s.update(i as int, s[smallest as int]).update(
                    smallest as int,
                    s[i as int],
                ));
            }
            i = smallest;
        }
    }
}

pub struct PriorityQueue<T: HeapItem> {
    heap: MinHeap<T>,
}

impl<T: HeapItem> View for PriorityQueue<T> {
    type V = Multiset<T>;

    /// The queue abstracts to the multiset of its elements.
    closed spec fn view(&self) -> Multiset<T> {
        self.heap@
    }
}

impl<T: HeapItem> PriorityQueue<T> {
    /// Well-formedness of the backing heap.
    pub closed spec fn wf(&self) -> bool {
        self.heap.wf()
    }

    /// Creates an empty priority queue.
    pub fn new() -> (r: Self)
        ensures
            r.wf(),
            r@ == Multiset::<T>::empty(),
    {
        PriorityQueue { heap: MinHeap::new() }
    }

    /// The number of elements of the queue.
    pub fn len(&self) -> (r: usize)
        ensures
            r == self@.len(),
    {
        self.heap.len()
    }

    /// Whether the queue holds no element.
    pub fn is_empty(&self) -> (r: bool)
        ensures
            r == (self@.len() == 0),
    {
        self.heap.is_empty()
    }

    /// Adds the value to the queue.
    pub fn push(&mut self, value: T)
        requires
            old(self).wf(),
        ensures
            final(self).wf(),
            final(self)@ == old(self)@.insert(value),
            final(self)@.len() == old(self)@.len() + 1,
    {
        self.heap.push(value)
    }

    /// Removes and returns a minimal element of the queue.
    pub fn pop(&mut self) -> (r: Option<T>)
        requires
            old(self).wf(),
        ensures
            final(self).wf(),
            match r {
                Some(x) => {
                    &&& old(self)@.count(x) > 0
                    &&& final(self)@ == old(self)@.remove(x)
                    &&& final(self)@.len() == old(self)@.len() - 1
                    &&& forall|y: T| final(self)@.count(y) > 0 ==> x.pkey() <= y.pkey()
                },
                None => old(self)@.len() == 0 && final(self)@ == old(self)@,
            },
    {
        self.heap.pop()
    }

    /// A reference to a minimal element of the queue.
    pub fn peek(&self) -> (r: Option<&T>)
        requires
            self.wf(),
        ensures
            match r {
                Some(x) => self@.count(*x) > 0 && forall|y: T|
                    self@.count(y) > 0 ==> x.pkey() <= y.pkey(),
                None => self@.len() == 0,
            },
    {
        self.heap.peek()
    }
}

} // verus!

use std::collections::VecDeque;
use vstd::prelude::*;

verus! {

/// The order in which a priority queue hands out its elements.
pub trait QueueOrder: Sized + Copy {
    /// `self` comes out of a priority queue before `other`.
    spec fn spec_outranks(&self, other: &Self) -> bool;

    fn outranks(&self, other: &Self) -> (r: bool)
        ensures
            r == self.spec_outranks(other),
    ;

    /// Ranking is a strict weak order: irreflexive and transitive, and whenever `a` outranks
    /// `c`, every `b` is outranked by `a` or outranks `c`.
    proof fn lemma_strict_order(a: &Self, b: &Self, c: &Self)
        ensures
            !a.spec_outranks(a),
            a.spec_outranks(b) && b.spec_outranks(c) ==> a.spec_outranks(c),
            a.spec_outranks(c) ==> a.spec_outranks(b) || b.spec_outranks(c),
    ;
}

impl QueueOrder for u32 {
    /// As in a maximum heap: the larger number comes out first.
    open spec fn spec_outranks(&self, other: &Self) -> bool {
        *self > *other
    }

    fn outranks(&self, other: &Self) -> (r: bool) {
        *self > *other
    }

    proof fn lemma_strict_order(a: &Self, b: &Self, c: &Self) {
    }
}

/// The element at `j` is not outranked by the element at `k`.
pub open spec fn ranks_not_below<T: QueueOrder>(s: Seq<T>, j: int, k: int) -> bool {
    !s[k].spec_outranks(&s[j])
}

/// The element at `i` does not outrank its parent in the heap (the element at `(i - 1) / 2`).
pub open spec fn edge_ok<T: QueueOrder>(s: Seq<T>, i: int) -> bool {
    ranks_not_below(s, (i - 1) / 2, i)
}

/// A binary heap: no element outranks its parent (the element at `(i - 1) / 2`).
pub open spec fn is_heap<T: QueueOrder>(s: Seq<T>) -> bool {
    forall|i: int| 0 < i < s.len() ==> #[trigger] edge_ok(s, i)
}

/// The root of a heap is outranked by no element.
proof fn lemma_heap_root_top<T: QueueOrder>(s: Seq<T>, k: int)
    requires
        is_heap(s),
        0 <= k < s.len(),
    ensures
        !s[k].spec_outranks(&s[0]),
    decreases k,
{
    if k > 0 {
        let p = (k - 1) / 2;
        lemma_heap_root_top(s, p);
        assert(edge_ok(s, k));
        T::lemma_strict_order(&s[k], &s[p], &s[0]);
    } else {
        T::lemma_strict_order(&s[0], &s[0], &s[0]);
    }
}

/// The elements at `i` and `j` exchanged.
pub open spec fn swapped<T>(s: Seq<T>, i: int, j: int) -> Seq<T> {
    s.update(i, s[j]).update(j, s[i])
}

/// Exchanging two elements keeps the multiset of elements.
proof fn lemma_swap_multiset<T>(s: Seq<T>, i: int, j: int)
    requires
        0 <= i < s.len(),
        0 <= j < s.len(),
    ensures
        swapped(s, i, j).to_multiset() == s.to_multiset(),
        swapped(s, i, j).len() == s.len(),
{
    broadcast use vstd::seq_lib::to_multiset_update, vstd::seq_lib::to_multiset_contains, vstd::multiset::group_multiset_axioms;

    let a = s[i];
    let b = s[j];
    let m = s.update(i, b);
    let ms0 = s.to_multiset();
    assert(s.contains(a));
    assert(ms0.count(a) > 0);
    assert(m.to_multiset() == ms0.insert(b).remove(a));
    if i == j {
        assert(swapped(s, i, j) =~= s);
    } else {
        assert(m[j] == b);
        let m1 = ms0.insert(b).remove(a);
        assert(m1.count(b) > 0);
        assert(m.update(j, a).to_multiset() == m1.insert(a).remove(b));
        assert forall|y: T| #[trigger] m1.insert(a).remove(b).count(y) == ms0.count(y) by {}
        assert(m1.insert(a).remove(b) =~= ms0);
    }
}

/// Exchanges the elements at `i` and `j`.
fn swap_at<T: QueueOrder>(v: &mut Vec<T>, i: usize, j: usize)
    requires
        i < old(v)@.len(),
        j < old(v)@.len(),
    ensures
        final(v)@ == swapped(old(v)@, i as int, j as int),
        final(v)@.to_multiset() == old(v)@.to_multiset(),
{
    proof {
        lemma_swap_multiset(old(v)@, i as int, j as int);
    }
    let a = v[i];
    let b = v[j];
    v[i] = b;
    v[j] = a;
}

/// Puts `elem` into the heap: at the end, then moved up past every parent it outranks.
fn heap_push<T: QueueOrder>(v: &mut Vec<T>, elem: T)
    requires
        is_heap(old(v)@),
    ensures
        is_heap(final(v)@),
        final(v)@.to_multiset() == old(v)@.to_multiset().insert(elem),
        final(v)@.len() == old(v)@.len() + 1,
{
    broadcast use vstd::seq_lib::to_multiset_build;

    let ghost v0 = v@;
    v.push(elem);
    proof {
        assert forall|j: int| 0 < j < v@.len() - 1 implies #[trigger] edge_ok(v@, j) by {
            assert(edge_ok(v0, j));
        }
    }
    let mut i = v.len() - 1;
    while i > 0 && v[i].outranks(&v[(i - 1) / 2])
        invariant
            0 <= i < v@.len(),
            v@.len() == v0.len() + 1,
            v@.to_multiset() == v0.to_multiset().insert(elem),
            forall|j: int| 0 < j < v@.len() && j != i ==> #[trigger] edge_ok(v@, j),
            i > 0 ==> forall|c: int| 0 < c < v@.len() && (c - 1) / 2 == i ==> !(#[trigger] v@[c]).spec_outranks(&v@[(i - 1) / 2]),
        decreases i,
    {
        let p = (i - 1) / 2;
        let ghost w = v@;
        swap_at(v, i, p);
        proof {
            let a = w[i as int];
            let b = w[p as int];
            T::lemma_strict_order(&b, &a, &b);
            assert forall|j: int| 0 < j < v@.len() && j != p implies #[trigger] edge_ok(v@, j) by {
                let q = (j - 1) / 2;
                if j == i {
                    T::lemma_strict_order(&b, &a, &b);
                } else if q == i {
                    assert(!w[j].spec_outranks(&w[(i - 1) / 2]));
                } else if q == p {
                    assert(edge_ok(w, j));
                    T::lemma_strict_order(&w[j], &a, &b);
                } else {
                    assert(edge_ok(w, j));
                }
            }
            if p > 0 {
                let g = (p - 1) / 2;
                assert forall|c: int| 0 < c < v@.len() && (c - 1) / 2 == p implies !(#[trigger] v@[c]).spec_outranks(&v@[(p - 1) / 2]) by {
                    assert(edge_ok(w, p as int));
                    if c == i {
                    } else {
                        assert(edge_ok(w, c));
                        T::lemma_strict_order(&w[c], &b, &w[g]);
                    }
                }
            }
        }
        i = p;
    }
    proof {
        assert forall|j: int| 0 < j < v@.len() implies #[trigger] edge_ok(v@, j) by {
            if j == i {
            }
        }
    }
}

/// Takes the root out of the heap: the last element takes its place and moves down past
/// every child that outranks it.
fn heap_pop<T: QueueOrder>(v: &mut Vec<T>) -> (x: T)
    requires
        is_heap(old(v)@),
        old(v)@.len() > 0,
    ensures
        x == old(v)@[0],
        forall|k: int| 0 <= k < old(v)@.len() ==> !(#[trigger] old(v)@[k]).spec_outranks(&x),
        is_heap(final(v)@),
        final(v)@.to_multiset() == old(v)@.to_multiset().remove(x),
        final(v)@.len() == old(v)@.len() - 1,
{
    broadcast use vstd::seq_lib::to_multiset_build, vstd::seq_lib::to_multiset_update, vstd::multiset::group_multiset_axioms;

    let ghost v0 = v@;
    proof {
        assert forall|k: int| 0 <= k < v0.len() implies !(#[trigger] v0[k]).spec_outranks(&v0[0]) by {
            lemma_heap_root_top(v0, k);
        }
    }
    let x = v[0];
    let last = match v.pop() {
        Some(e) => e,
        None => {
            return x;
        },
    };
    proof {
        assert(v0 =~= v@.push(last));
        assert(v@.to_multiset() == v0.to_multiset().remove(last));
    }
    if v.len() == 0 {
        return x;
    }
    let ghost v1 = v@;
    v[0] = last;
    proof {
        assert(v@ == v1.update(0, last));
        assert(v@.to_multiset() == v0.to_multiset().remove(x));
        assert forall|j: int| 0 < j < v@.len() && (j - 1) / 2 != 0 implies #[trigger] edge_ok(v@, j) by {
            assert(edge_ok(v0, j));
        }
    }
    let n = v.len();
    let mut i: usize = 0;
    loop
        invariant_except_break
            i < v@.len(),
            v@.len() == n,
            n == v0.len() - 1,
            v@.to_multiset() == v0.to_multiset().remove(x),
            forall|j: int| 0 < j < v@.len() && (j - 1) / 2 != i ==> #[trigger] edge_ok(v@, j),
            i > 0 ==> forall|c: int| 0 < c < v@.len() && (c - 1) / 2 == i ==> !(#[trigger] v@[c]).spec_outranks(&v@[(i - 1) / 2]),
        ensures
            v@.len() == n,
            v@.to_multiset() == v0.to_multiset().remove(x),
            is_heap(v@),
        decreases n - i,
    {
        if i >= n / 2 {
            proof {
                assert forall|j: int| 0 < j < v@.len() implies #[trigger] edge_ok(v@, j) by {
                    if (j - 1) / 2 == i {
                        assert(j >= 2 * i + 1);
                    }
                }
            }
            break;
        }
        let l = 2 * i + 1;
        let r = l + 1;
        let m = if r < n && v[r].outranks(&v[l]) { r } else { l };
        if !v[m].outranks(&v[i]) {
            proof {
                assert forall|j: int| 0 < j < v@.len() implies #[trigger] edge_ok(v@, j) by {
                    if (j - 1) / 2 == i as int {
                        assert(j == l || j == r);
                        if j != m {
                            if m == r {
                                T::lemma_strict_order(&v@[r as int], &v@[l as int], &v@[i as int]);
                            } else {
                                T::lemma_strict_order(&v@[r as int], &v@[l as int], &v@[i as int]);
                            }
                        }
                    }
                }
            }
            break;
        }
        let ghost w = v@;
        swap_at(v, i, m);
        proof {
            let a = w[m as int];
            let b = w[i as int];
            let o = if m == l { r as int } else { l as int };
            T::lemma_strict_order(&b, &a, &b);
            assert forall|j: int| 0 < j < v@.len() && (j - 1) / 2 != m implies #[trigger] edge_ok(v@, j) by {
                let q = (j - 1) / 2;
                if j == m {
                    T::lemma_strict_order(&b, &a, &b);
                } else if q == i {
                    assert(j == o);
                    if m == r {
                        T::lemma_strict_order(&w[o], &a, &w[o]);
                    } else {
                        T::lemma_strict_order(&w[r as int], &w[l as int], &w[r as int]);
                    }
                } else if j == i {
                    assert(!w[m as int].spec_outranks(&w[(i - 1) / 2]));
                } else {
                    assert(edge_ok(w, j));
                }
            }
            assert forall|c: int| 0 < c < v@.len() && (c - 1) / 2 == m implies !(#[trigger] v@[c]).spec_outranks(&v@[(m - 1) / 2]) by {
                assert(edge_ok(w, c));
            }
        }
        i = m;
    }
    x
}

/// Number of `true` entries among the first `n`.
pub open spec fn count_true(s: Seq<bool>, n: int) -> nat
    decreases n,
{
    if n <= 0 {
        0
    } else {
        count_true(s, n - 1) + if s[n - 1] { 1nat } else { 0nat }
    }
}

/// A queue's lengths along its history, as `push` and `pop` give them: `pushed[i]` says
/// whether call `i` was a push; a push adds one element, a pop hands one out (and removes it)
/// exactly when the queue is not empty.
pub open spec fn length_history<T>(views: Seq<Seq<T>>, pushed: Seq<bool>) -> bool {
    &&& views.len() == pushed.len() + 1
    &&& forall|i: int| 0 <= i < pushed.len() ==> views[i + 1].len() == if #[trigger] pushed[i] {
        views[i].len() + 1int
    } else if views[i].len() > 0 {
        views[i].len() - 1
    } else {
        0int
    }
}

/// The calls of a history that are pops handing out an element.
pub open spec fn successful_pops<T>(views: Seq<Seq<T>>, pushed: Seq<bool>) -> Seq<bool> {
    Seq::new(pushed.len(), |i: int| !pushed[i] && views[i].len() > 0)
}

/// A queue that starts empty holds as many elements as it got pushed, less the pops that
/// handed one out; so no more pops hand out an element than there were pushes.
pub proof fn lemma_length_counts<T>(views: Seq<Seq<T>>, pushed: Seq<bool>, n: int)
    requires
        length_history(views, pushed),
        views[0].len() == 0,
        0 <= n <= pushed.len(),
    ensures
        views[n].len() + count_true(successful_pops(views, pushed), n) == count_true(pushed, n),
        count_true(successful_pops(views, pushed), n) <= count_true(pushed, n),
    decreases n,
{
    if n > 0 {
        lemma_length_counts(views, pushed, n - 1);
        assert(pushed[n - 1] == pushed[n - 1]);
    }
}

/// Different type of queues for graph-traversal algorithms.
/// This is used as a convenience, essentially a renaming wrapper
/// so that all operations have the same name.
pub enum QueueType<T> {
    /// Regular queue
    Regular(VecDeque<T>),
    /// Stack (reversed queue)
    Stack(VecDeque<T>),
    /// Priority queue allowing heuristics to enter the picture; a binary heap.
    Priority(Vec<T>),
}

/// Wrapper type over the enum to allow the commonly named methods.
pub struct SolverQueue<T> {
    /// The queue enum variant.
    queue: QueueType<T>,
    /// For a priority queue, its elements in the order they were pushed (less those popped).
    pending: Ghost<Seq<T>>,
}

/// The element at `j` is outranked by no element of `s`.
pub open spec fn is_top<T: QueueOrder>(s: Seq<T>, j: int) -> bool {
    &&& 0 <= j < s.len()
    &&& forall|k: int| 0 <= k < s.len() ==> !(#[trigger] s[k]).spec_outranks(&s[j])
}

impl<T> View for SolverQueue<T> {
    type V = Seq<T>;

    /// The elements; for a regular queue and a stack, in the order they come out.
    closed spec fn view(&self) -> Seq<T> {
        match self.queue {
            QueueType::Regular(q) => q@,
            QueueType::Stack(q) => q@,
            QueueType::Priority(_) => self.pending@,
        }
    }
}

impl<T> SolverQueue<T> {
    /// First in, first out.
    pub closed spec fn is_regular(&self) -> bool {
        self.queue is Regular
    }

    /// Last in, first out.
    pub closed spec fn is_stack(&self) -> bool {
        self.queue is Stack
    }

    /// Highest rank out first.
    pub closed spec fn is_priority(&self) -> bool {
        self.queue is Priority
    }

    /// Every queue is of exactly one of the three kinds.
    pub proof fn lemma_one_kind(&self)
        ensures
            self.is_regular() || self.is_stack() || self.is_priority(),
            !(self.is_regular() && self.is_stack()),
            !(self.is_regular() && self.is_priority()),
            !(self.is_stack() && self.is_priority()),
    {
    }
}

impl<T: QueueOrder> SolverQueue<T> {
    /// A priority queue's heap holds the pending elements.
    pub closed spec fn wf(&self) -> bool {
        self.queue matches QueueType::Priority(v) ==> is_heap(v@) && v@.to_multiset() == self.pending@.to_multiset()
    }

    /// Constructs the type for the regular queue.
    pub fn regular() -> (q: Self)
        ensures
            q.is_regular(),
            q.wf(),
            q@ == Seq::<T>::empty(),
    {
        SolverQueue { queue: QueueType::Regular(VecDeque::new()), pending: Ghost(Seq::empty()) }
    }

    /// Constructs the type for the stack.
    pub fn stack() -> (q: Self)
        ensures
            q.is_stack(),
            q.wf(),
            q@ == Seq::<T>::empty(),
    {
        SolverQueue { queue: QueueType::Stack(VecDeque::new()), pending: Ghost(Seq::empty()) }
    }

    /// Constructs the type for the priority queue.
    pub fn priority() -> (q: Self)
        ensures
            q.is_priority(),
            q.wf(),
            q@ == Seq::<T>::empty(),
    {
        SolverQueue { queue: QueueType::Priority(Vec::new()), pending: Ghost(Seq::empty()) }
    }

    /// General push method. A regular queue and a priority queue take the element
    /// at the back, a stack at the front.
    pub fn push(&mut self, elem: T)
        requires
            old(self).wf(),
        ensures
            final(self).wf(),
            final(self).is_regular() == old(self).is_regular(),
            final(self).is_stack() == old(self).is_stack(),
            final(self).is_priority() == old(self).is_priority(),
            final(self)@.len() == old(self)@.len() + 1,
            final(self)@.to_multiset() == old(self)@.to_multiset().insert(elem),
            old(self).is_stack() ==> final(self)@ == seq![elem] + old(self)@,
            (old(self).is_regular() || old(self).is_priority()) ==> final(self)@ == old(self)@.push(elem),
    {
        match self.queue {
            QueueType::Priority(ref mut queue) => {
                heap_push(queue, elem);
                self.pending = Ghost(self.pending@.push(elem));
                proof {
                    vstd::seq_lib::to_multiset_build(old(self).pending@, elem);
                }
            },
            QueueType::Stack(ref mut queue) => {
                queue.push_front(elem);
                assert(queue@ =~= seq![elem] + old(self)@);
                proof {
                    vstd::seq_lib::lemma_seq_union_to_multiset_commutative(seq![elem], old(self)@);
                    assert(old(self)@ + seq![elem] =~= old(self)@.push(elem));
                    vstd::seq_lib::to_multiset_build(old(self)@, elem);
                }
            },
            QueueType::Regular(ref mut queue) => {
                queue.push_back(elem);
                proof {
                    vstd::seq_lib::to_multiset_build(old(self)@, elem);
                }
            },
        }
    }

    /// General pop method. A regular queue and a stack give their front element,
    /// a priority queue its highest ranked element.
    pub fn pop(&mut self) -> (r: Option<T>)
        requires
            old(self).wf(),
        ensures
            final(self).wf(),
            final(self).is_regular() == old(self).is_regular(),
            final(self).is_stack() == old(self).is_stack(),
            final(self).is_priority() == old(self).is_priority(),
            old(self)@.len() == 0 <==> r is None,
            old(self)@.len() == 0 ==> final(self)@ == old(self)@,
            old(self)@.len() > 0 ==> final(self)@.len() == old(self)@.len() - 1,
            (old(self).is_regular() || old(self).is_stack()) && old(self)@.len() > 0 ==> {
                &&& r == Some(old(self)@[0])
                &&& final(self)@ == old(self)@.drop_first()
            },
            old(self).is_priority() && old(self)@.len() > 0 ==> exists|j: int| {
                &&& is_top(old(self)@, j)
                &&& r == Some(old(self)@[j])
                &&& final(self)@ == old(self)@.remove(j)
            },
    {
        match self.queue {
            QueueType::Regular(ref mut queue) => queue.pop_front(),
            QueueType::Stack(ref mut queue) => queue.pop_front(),
            QueueType::Priority(ref mut queue) => {
                if queue.len() == 0 {
                    proof {
                        vstd::seq_lib::to_multiset_len(self.pending@);
                        vstd::seq_lib::to_multiset_len(queue@);
                    }
                    return None;
                }
                let ghost h0 = queue@;
                let ghost p0 = self.pending@;
                let x = heap_pop(queue);
                proof {
                    broadcast use vstd::seq_lib::to_multiset_contains;

                    assert(h0[0] == x);
                    assert(h0.contains(x));
                    assert(p0.to_multiset().count(x) > 0);
                    assert(p0.contains(x));
                }
                let ghost j = choose|j: int| 0 <= j < p0.len() && p0[j] == x;
                proof {
                    broadcast use vstd::seq_lib::to_multiset_contains, vstd::seq_lib::to_multiset_remove;

                    assert forall|k: int| 0 <= k < p0.len() implies !(#[trigger] p0[k]).spec_outranks(&p0[j]) by {
                        assert(p0.contains(p0[k]));
                        assert(h0.to_multiset().count(p0[k]) > 0);
                        assert(h0.contains(p0[k]));
                        let t = choose|t: int| 0 <= t < h0.len() && h0[t] == p0[k];
                        assert(!h0[t].spec_outranks(&x));
                    }
                    assert(is_top(p0, j));
                    assert(p0.remove(j).to_multiset() == p0.to_multiset().remove(x));
                }
                self.pending = Ghost(p0.remove(j));
                Some(x)
            },
        }
    }

    /// Len is the same, but it is more convenient to have it this way.
    pub fn len(&self) -> (r: usize)
        requires
            self.wf(),
        ensures
            r == self@.len(),
    {
        proof {
            if let QueueType::Priority(v) = &self.queue {
                vstd::seq_lib::to_multiset_len(v@);
                vstd::seq_lib::to_multiset_len(self.pending@);
            }
        }
        match &self.queue {
            QueueType::Regular(queue) => queue.len(),
            QueueType::Stack(queue) => queue.len(),
            QueueType::Priority(queue) => queue.len(),
        }
    }

    /// Emptiness is the same, but it is more convenient to have it this way.
    pub fn is_empty(&self) -> (r: bool)
        requires
            self.wf(),
        ensures
            r == (self@.len() == 0),
    {
        self.len() == 0
    }
}

} // verus!

//! Output sinks that receive the elements of an intersection in order.
use vstd::prelude::*;

verus! {

/// Lane `i` of a bit mask is selected.
pub open spec fn lane_on(mask: u64, i: int) -> bool {
    (mask >> (i as u64)) & 1u64 == 1u64
}

/// The lanes of `v` selected by `mask`, in ascending lane order.
pub open spec fn compress(v: Seq<i32>, mask: u64) -> Seq<i32>
    decreases v.len(),
{
    if v.len() == 0 {
        Seq::empty()
    } else {
        let rest = compress(v.drop_last(), mask);
        if lane_on(mask, v.len() - 1) {
            rest.push(v.last())
        } else {
            rest
        }
    }
}

/// An element consumer. `seen` is everything it was handed, in order;
/// `room` is how many more elements it can take.
pub trait Visitor {
    spec fn inv(&self) -> bool;

    spec fn seen(&self) -> Seq<i32>;

    spec fn room(&self) -> nat;

    fn visit(&mut self, x: i32)
        requires
            old(self).inv(),
            old(self).room() > 0,
        ensures
            final(self).inv(),
            final(self).seen() == old(self).seen().push(x),
            final(self).room() == old(self).room() - 1,
    ;
}

pub proof fn lemma_compress_take(v: Seq<i32>, mask: u64, i: int)
    requires
        0 <= i < v.len(),
    ensures
        compress(v.take(i + 1), mask) == (if lane_on(mask, i) {
            compress(v.take(i), mask).push(v[i])
        } else {
            compress(v.take(i), mask)
        }),
        compress(v.take(i), mask).len() <= compress(v, mask).len(),
    decreases v.len(),
{
    assert(v.take(i + 1).drop_last() =~= v.take(i));
    if i < v.len() - 1 {
        lemma_compress_take(v.drop_last(), mask, i);
        assert(v.drop_last().take(i) =~= v.take(i));
    } else {
        assert(v.drop_last() =~= v.take(i));
    }
}

/// Hands the lanes of `lanes` selected by `mask` to the visitor, lowest lane
/// first: the compressed store of a vector under a match mask.
pub fn visit_vector<V: Visitor>(visitor: &mut V, lanes: &[i32], mask: u64)
    requires
        old(visitor).inv(),
        lanes@.len() <= 64,
        compress(lanes@, mask).len() <= old(visitor).room(),
    ensures
        final(visitor).inv(),
        final(visitor).seen() == old(visitor).seen() + compress(lanes@, mask),
        final(visitor).room() == old(visitor).room() - compress(lanes@, mask).len(),
{
    let mut i: usize = 0;
    while i < lanes.len()
        invariant
            i <= lanes@.len() <= 64,
            visitor.inv(),
            visitor.seen() == old(visitor).seen() + compress(lanes@.take(i as int), mask),
            visitor.room() == old(visitor).room() - compress(lanes@.take(i as int), mask).len(),
            compress(lanes@, mask).len() <= old(visitor).room(),
        decreases lanes@.len() - i,
    {
        proof {
            lemma_compress_take(lanes@, mask, i as int);
            if i + 1 < lanes@.len() {
                lemma_compress_take(lanes@, mask, i as int + 1);
            } else {
                assert(lanes@.take(i as int + 1) =~= lanes@);
            }
        }
        if (mask >> (i as u64)) & 1u64 == 1u64 {
            visitor.visit(lanes[i]);
        }
        i = i + 1;
        proof {
            assert(old(visitor).seen() + compress(lanes@.take(i - 1), mask).push(lanes@[i - 1])
                =~= (old(visitor).seen() + compress(lanes@.take(i - 1), mask)).push(lanes@[i - 1]));
        }
    }
    proof {
        assert(lanes@.take(i as int) =~= lanes@);
    }
}

/// A growable buffer that appends every element it is handed.
pub struct VecWriter {
    pub items: Vec<i32>,
}

impl VecWriter {
    pub fn new() -> (r: VecWriter)
        ensures
            r.seen() == Seq::<i32>::empty(),
    {
        VecWriter { items: Vec::new() }
    }

    pub fn with_capacity(capacity: usize) -> (r: VecWriter)
        ensures
            r.seen() == Seq::<i32>::empty(),
    {
        VecWriter { items: Vec::with_capacity(capacity) }
    }

    /// Truncates the output to its first `n` elements.
    pub fn clear_from(&mut self, n: usize)
        ensures
            final(self).seen() == (if n <= old(self).seen().len() {
                old(self).seen().take(n as int)
            } else {
                old(self).seen()
            }),
    {
        self.items.truncate(n);
    }

    pub fn into_vec(self) -> (r: Vec<i32>)
        ensures
            r@ == self.seen(),
    {
        self.items
    }
}

impl Visitor for VecWriter {
    open spec fn inv(&self) -> bool {
        true
    }

    open spec fn seen(&self) -> Seq<i32> {
        self.items@
    }

    open spec fn room(&self) -> nat {
        if self.items@.len() <= usize::MAX {
            (usize::MAX - self.items@.len()) as nat
        } else {
            0
        }
    }

    fn visit(&mut self, x: i32) {
        self.items.push(x);
    }
}

/// A writer into a region of fixed capacity: `buf` is the region, `len` the
/// number of elements written so far.
pub struct SliceWriter {
    pub buf: Vec<i32>,
    pub len: usize,
}

impl SliceWriter {
    /// A writer that fills `buf` from its start.
    pub fn from_vec(buf: Vec<i32>) -> (r: SliceWriter)
        ensures
            r.inv(),
            r.seen() == Seq::<i32>::empty(),
            r.room() == buf@.len(),
            r.buf@ == buf@,
    {
        let capacity = buf.len();
        assert(capacity == buf@.len());
        SliceWriter { buf, len: 0 }
    }
}

impl Visitor for SliceWriter {
    open spec fn inv(&self) -> bool {
        self.len <= self.buf@.len() <= usize::MAX
    }

    open spec fn seen(&self) -> Seq<i32> {
        self.buf@.take(self.len as int)
    }

    open spec fn room(&self) -> nat {
        (self.buf@.len() - self.len) as nat
    }

    fn visit(&mut self, x: i32) {
        let ghost before = self.buf@;
        self.buf.set(self.len, x);
        self.len = self.len + 1;
        proof {
            assert(self.buf@.take(self.len as int) =~= before.take(self.len - 1).push(x));
        }
    }
}

/// A sink that only counts what it is handed.
pub struct Counter {
    pub count: usize,
    pub elements: Ghost<Seq<i32>>,
}

impl Counter {
    pub fn new() -> (r: Counter)
        ensures
            r.inv(),
            r.seen() == Seq::<i32>::empty(),
    {
        Counter { count: 0, elements: Ghost(Seq::empty()) }
    }

    pub fn total(&self) -> (r: usize)
        requires
            self.inv(),
        ensures
            r == self.seen().len(),
    {
        self.count
    }
}

impl Visitor for Counter {
    open spec fn inv(&self) -> bool {
        self.count == self.elements@.len()
    }

    open spec fn seen(&self) -> Seq<i32> {
        self.elements@
    }

    open spec fn room(&self) -> nat {
        (usize::MAX - self.count) as nat
    }

    fn visit(&mut self, x: i32) {
        self.count = self.count + 1;
        self.elements = Ghost(self.elements@.push(x));
    }
}

} // verus!

//! The heap: blocks of values in an arena, handles into it, a root set, and
//! the mark-and-sweep collector.

use vstd::prelude::*;

use crate::value::{Allocation, Array, Kind, Number, Payload, UpcastValue};

verus! {

/// Collector metadata attached to every block.
#[derive(Debug)]
pub struct Header {
    pub marked: bool,
}

impl Default for Header {
    /// A header as it is right after allocation: not marked.
    fn default() -> (h: Header)
        ensures
            !h.marked,
    {
        Header { marked: false }
    }
}

/// The unit of allocation: a header and the value it describes.
#[derive(Debug)]
pub struct Block<T> {
    pub header: Header,
    pub data: T,
}

/// A typed handle to a block whose value has type `T`. It does not own the
/// block; it stays usable while the block is in the heap, and a handle to a
/// block that was swept is reported as such, never dereferenced.
pub struct HeapRef<T> {
    slot: usize,
    marker: std::marker::PhantomData<T>,
}

impl<T> Clone for HeapRef<T> {
    fn clone(&self) -> (r: Self)
        ensures
            r == *self,
    {
        HeapRef { slot: self.slot, marker: self.marker }
    }
}

impl<T> Copy for HeapRef<T> {
}

impl<T> HeapRef<T> {
    /// The index of the block this handle addresses.
    pub closed spec fn block(self) -> nat {
        self.slot as nat
    }

    /// The handle to block `b`.
    pub closed spec fn at(b: nat) -> HeapRef<T> {
        HeapRef { slot: b as usize, marker: std::marker::PhantomData }
    }

    /// Every handle addresses a block index that fits in a `usize`.
    pub proof fn lemma_block_bound(self)
        ensures
            self.block() <= usize::MAX,
    {
    }

    /// A handle is the handle to its own block.
    pub proof fn lemma_at_block(r: HeapRef<T>)
        ensures
            HeapRef::<T>::at(r.block()) == r,
    {
    }

    /// The handle to a block that a handle can address addresses it.
    pub proof fn lemma_at_block_of(b: nat)
        requires
            b <= usize::MAX,
        ensures
            HeapRef::<T>::at(b).block() == b,
    {
    }
}

/// A type-erased handle: the block it addresses and the kind of value stored
/// there, which is what a downcast checks.
#[derive(Clone, Copy, Debug, PartialEq, Eq, Structural)]
pub struct ManagedValue {
    slot: usize,
    kind: Kind,
}

impl ManagedValue {
    pub closed spec fn block(self) -> nat {
        self.slot as nat
    }

    /// Every handle addresses a block index that fits in a `usize`.
    pub proof fn lemma_block_bound(self)
        ensures
            self.block() <= usize::MAX,
    {
    }

    pub closed spec fn kind_spec(self) -> Kind {
        self.kind
    }

    pub fn kind(&self) -> (k: Kind)
        ensures
            k == self.kind_spec(),
    {
        self.kind
    }

    /// What `downcast::<T>` returns.
    pub open spec fn downcast_spec<T: Allocation>(self) -> Result<HeapRef<T>, ManagedValue> {
        if self.kind_spec() == T::tag() {
            Ok(HeapRef::<T>::at(self.block()))
        } else {
            Err(self)
        }
    }

    /// Recovers the typed handle if the block holds a value of type `T`;
    /// otherwise hands back this handle unchanged.
    pub fn downcast<T: Allocation>(self) -> (r: Result<HeapRef<T>, ManagedValue>)
        ensures
            r == self.downcast_spec::<T>(),
            r is Ok <==> self.kind_spec() == T::tag(),
            r is Ok ==> r->Ok_0.block() == self.block(),
            r is Err ==> r->Err_0 == self,
    {
        proof {
            self.lemma_block_bound();
            HeapRef::<T>::lemma_at_block_of(self.block());
        }
        if self.kind == T::kind() {
            Ok(HeapRef { slot: self.slot, marker: std::marker::PhantomData })
        } else {
            Err(self)
        }
    }

    /// The typed handle for the kind this handle carries.
    pub open spec fn classify_spec(self) -> Value {
        match self.kind_spec() {
            Kind::Number => Value::Number(HeapRef::at(self.block())),
            Kind::Text => Value::String(HeapRef::at(self.block())),
            Kind::Array => Value::Array(HeapRef::at(self.block())),
        }
    }

    pub fn classify(self) -> (v: Value)
        ensures
            v == self.classify_spec(),
    {
        match self.kind {
            Kind::Number => Value::Number(HeapRef { slot: self.slot, marker: std::marker::PhantomData }),
            Kind::Text => Value::String(HeapRef { slot: self.slot, marker: std::marker::PhantomData }),
            Kind::Array => Value::Array(HeapRef { slot: self.slot, marker: std::marker::PhantomData }),
        }
    }

    /// The handle to block `b` whose value has kind `kind`.
    pub closed spec fn at(b: nat, kind: Kind) -> ManagedValue {
        ManagedValue { slot: b as usize, kind }
    }

    /// What a handle built by `at` addresses and says it holds.
    pub proof fn lemma_at(b: nat, kind: Kind)
        requires
            b <= usize::MAX,
        ensures
            ManagedValue::at(b, kind).block() == b,
            ManagedValue::at(b, kind).kind_spec() == kind,
    {
    }
}

impl<T: Allocation> HeapRef<T> {
    /// The type-erased handle to the same block.
    pub open spec fn erase_spec(self) -> ManagedValue {
        ManagedValue::at(self.block(), T::tag())
    }

    /// Forgets the static type; the result addresses the same block.
    pub fn erase(self) -> (m: ManagedValue)
        ensures
            m == self.erase_spec(),
            m.block() == self.block(),
            m.kind_spec() == T::tag(),
    {
        ManagedValue { slot: self.slot, kind: T::kind() }
    }

    /// The value this handle addresses, or `None` if its block was swept.
    pub fn dereference<'a>(&self, heap: &'a Heap) -> (r: Option<&'a T>)
        ensures
            r is Some <==> heap.value_of::<T>(self.block()) is Some,
            r is Some ==> heap.value_of::<T>(self.block()) == Some(*r->0),
    {
        if self.slot < heap.blocks.len() {
            match &heap.blocks[self.slot] {
                Some(b) => T::downcast_ref(&b.data),
                None => None,
            }
        } else {
            None
        }
    }

    /// Replaces the value this handle addresses. Fails, and hands the value
    /// back, if the block was swept.
    pub fn assign(&self, heap: &mut Heap, value: T) -> (r: Result<(), T>)
        requires
            old(heap).wf(),
        ensures
            final(heap).wf(),
            final(heap).roots() == old(heap).roots(),
            final(heap).allocated() == old(heap).allocated(),
            r is Ok <==> old(heap).value_of::<T>(self.block()) is Some,
            r is Ok ==> final(heap).objects() == old(heap).objects().insert(
                self.block(),
                value.upcast_spec(),
            ),
            r is Err ==> final(heap).objects() == old(heap).objects() && r == Err::<(), T>(value),
    {
        if self.dereference(heap).is_none() {
            return Err(value);
        }
        let block = Block { header: Header::default(), data: value.upcast() };
        heap.blocks.set(self.slot, Some(block));
        proof {
            assert(final(heap).objects() =~= old(heap).objects().insert(self.block(), value.upcast_spec()));
        }
        Ok(())
    }

    /// Compares the values two handles address, not the handles: `None` if
    /// either block was swept.
    pub fn same_value(&self, other: &HeapRef<T>, heap: &Heap) -> (r: Option<bool>)
        ensures
            r is Some <==> (heap.value_of::<T>(self.block()) is Some && heap.value_of::<T>(
                other.block(),
            ) is Some),
            r is Some ==> r == Some(
                heap.objects()[self.block()].equal_spec(&heap.objects()[other.block()]),
            ),
    {
        if self.dereference(heap).is_none() || other.dereference(heap).is_none() {
            return None;
        }
        match (&heap.blocks[self.slot], &heap.blocks[other.slot]) {
            (Some(a), Some(b)) => Some(a.data.equals(&b.data)),
            _ => None,
        }
    }
}

/// A handle with its concrete type recovered, for callers that branch on
/// the kind of value.
#[derive(Clone, Copy)]
pub enum Value {
    Number(HeapRef<Number>),
    String(HeapRef<String>),
    Array(HeapRef<Array>),
}

impl Value {
    /// The type-erased handle to the same block.
    pub open spec fn erase_spec(self) -> ManagedValue {
        match self {
            Value::Number(r) => r.erase_spec(),
            Value::String(r) => r.erase_spec(),
            Value::Array(r) => r.erase_spec(),
        }
    }

    pub fn erase(self) -> (m: ManagedValue)
        ensures
            m == self.erase_spec(),
    {
        match self {
            Value::Number(r) => r.erase(),
            Value::String(r) => r.erase(),
            Value::Array(r) => r.erase(),
        }
    }
}

impl<T: Allocation> From<HeapRef<T>> for ManagedValue {
    fn from(r: HeapRef<T>) -> (m: ManagedValue)
        ensures
            m == r.erase_spec(),
    {
        r.erase()
    }
}

impl<T: Allocation> vstd::std_specs::convert::FromSpecImpl<HeapRef<T>> for ManagedValue {
    open spec fn obeys_from_spec() -> bool {
        true
    }

    open spec fn from_spec(r: HeapRef<T>) -> ManagedValue {
        r.erase_spec()
    }
}

/// Block `i` holds a handle to block `j`, and both are in the heap.
pub open spec fn points_to(objs: Map<nat, Payload>, i: nat, j: nat) -> bool {
    &&& objs.contains_key(i)
    &&& objs.contains_key(j)
    &&& exists|k: int| 0 <= k < objs[i].children().len() && #[trigger] objs[i].children()[k].block() == j
}

/// A non-empty walk through blocks of the heap along held handles.
pub open spec fn is_path(objs: Map<nat, Payload>, p: Seq<nat>) -> bool {
    &&& p.len() > 0
    &&& objs.contains_key(p[0])
    &&& forall|k: int| 0 <= k < p.len() - 1 ==> #[trigger] points_to(objs, p[k], p[k + 1])
}

/// Block `j` can be reached from one of `roots` by following held handles.
pub open spec fn reachable(objs: Map<nat, Payload>, roots: Set<nat>, j: nat) -> bool {
    exists|p: Seq<nat>| #[trigger] is_path(objs, p) && roots.contains(p[0]) && p.last() == j
}

/// The blocks that survive a collection: those reachable from `roots`.
pub open spec fn collected(objs: Map<nat, Payload>, roots: Set<nat>) -> Map<nat, Payload> {
    objs.restrict(Set::new(|j: nat| reachable(objs, roots, j)))
}

/// A set of blocks that holds every root in the heap and is closed under
/// held handles holds every reachable block.
proof fn lemma_closed_set_holds_reachable(
    objs: Map<nat, Payload>,
    roots: Set<nat>,
    m: Set<nat>,
    p: Seq<nat>,
)
    requires
        is_path(objs, p),
        roots.contains(p[0]),
        forall|r: nat| roots.contains(r) && objs.contains_key(r) ==> #[trigger] m.contains(r),
        forall|i: nat, j: nat| #[trigger] points_to(objs, i, j) && m.contains(i) ==> m.contains(j),
    ensures
        m.contains(p.last()),
    decreases p.len(),
{
    if p.len() > 1 {
        let q = p.drop_last();
        assert forall|k: int| 0 <= k < q.len() - 1 implies #[trigger] points_to(objs, q[k], q[k + 1]) by {
            assert(points_to(objs, p[k], p[k + 1]));
        }
        lemma_closed_set_holds_reachable(objs, roots, m, q);
        let k = p.len() - 2;
        assert(points_to(objs, p[k], p[k + 1]));
        assert(q.last() == p[k]);
    }
}

/// Extending a path by one held handle gives a path.
pub proof fn lemma_path_extend(objs: Map<nat, Payload>, p: Seq<nat>, j: nat)
    requires
        is_path(objs, p),
        points_to(objs, p.last(), j),
    ensures
        is_path(objs, p.push(j)),
        p.push(j)[0] == p[0],
        p.push(j).last() == j,
{
    let q = p.push(j);
    assert forall|k: int| 0 <= k < q.len() - 1 implies #[trigger] points_to(objs, q[k], q[k + 1]) by {
        if k < p.len() - 1 {
            assert(points_to(objs, p[k], p[k + 1]));
        }
    }
}

/// How many blocks of `s` are in the heap and not marked.
spec fn unmarked_count(s: Seq<Option<Block<Payload>>>) -> nat
    decreases s.len(),
{
    if s.len() == 0 {
        0
    } else {
        unmarked_count(s.drop_last()) + if s.last() is Some && !s.last()->0.header.marked {
            1nat
        } else {
            0nat
        }
    }
}

proof fn lemma_mark_one(s: Seq<Option<Block<Payload>>>, t: Seq<Option<Block<Payload>>>, j: int)
    requires
        0 <= j < s.len(),
        t.len() == s.len(),
        s[j] is Some && !s[j]->0.header.marked,
        t[j] is Some && t[j]->0.header.marked,
        forall|q: int| 0 <= q < s.len() && q != j ==> t[q] == s[q],
    ensures
        unmarked_count(t) + 1 == unmarked_count(s),
    decreases s.len(),
{
    if j == s.len() - 1 {
        assert(t.drop_last() =~= s.drop_last());
    } else {
        lemma_mark_one(s.drop_last(), t.drop_last(), j);
    }
}

/// A handle for a registered root, used to remove it again.
#[derive(Clone, Copy, Debug, PartialEq, Eq, Structural)]
pub struct RootId {
    index: usize,
}

impl RootId {
    pub closed spec fn id(self) -> nat {
        self.index as nat
    }
}

/// The arena of blocks together with the root set.
///
/// Block indices are handed out in order and never reused, so a handle to a
/// swept block can never alias a later allocation.
pub struct Heap {
    blocks: Vec<Option<Block<Payload>>>,
    roots: Vec<Option<ManagedValue>>,
}

impl Heap {
    /// The blocks in the heap, by index, and the value each holds.
    pub closed spec fn objects(&self) -> Map<nat, Payload> {
        Map::new(
            |i: nat| i < self.blocks@.len() && self.blocks@[i as int] is Some,
            |i: nat| self.blocks@[i as int]->0.data,
        )
    }

    /// The registered roots, by root id.
    pub closed spec fn roots(&self) -> Map<nat, ManagedValue> {
        Map::new(
            |id: nat| id < self.roots@.len() && self.roots@[id as int] is Some,
            |id: nat| self.roots@[id as int]->0,
        )
    }

    /// How many blocks were ever allocated; the index the next one gets.
    pub closed spec fn allocated(&self) -> nat {
        self.blocks@.len()
    }

    pub closed spec fn marked(&self, i: nat) -> bool {
        i < self.blocks@.len() && self.blocks@[i as int] is Some
            && self.blocks@[i as int]->0.header.marked
    }

    /// Outside a collection no block is marked.
    pub closed spec fn wf(&self) -> bool {
        forall|i: int|
            0 <= i < self.blocks@.len() && #[trigger] self.blocks@[i] is Some
                ==> !self.blocks@[i]->0.header.marked
    }

    /// The blocks that the root set designates.
    pub open spec fn root_blocks(&self) -> Set<nat> {
        Set::new(|b: nat| exists|id: nat| #[trigger] self.roots().contains_key(id) && self.roots()[id].block() == b)
    }

    /// The value of type `T` in block `b`, if that block is in the heap and
    /// holds one.
    pub open spec fn value_of<T: Allocation>(&self, b: nat) -> Option<T> {
        if self.objects().contains_key(b) {
            T::downcast_spec(self.objects()[b])
        } else {
            None
        }
    }

    /// An empty heap with no roots.
    pub fn new() -> (h: Heap)
        ensures
            h.wf(),
            h.objects() == Map::<nat, Payload>::empty(),
            h.roots() == Map::<nat, ManagedValue>::empty(),
            h.allocated() == 0,
    {
        let h = Heap { blocks: Vec::new(), roots: Vec::new() };
        assert(h.objects() =~= Map::<nat, Payload>::empty());
        assert(h.roots() =~= Map::<nat, ManagedValue>::empty());
        h
    }

    /// Stores `data` in a fresh block and returns a typed handle to it.
    pub fn allocate<T: Allocation>(&mut self, data: T) -> (r: HeapRef<T>)
        requires
            old(self).wf(),
        ensures
            final(self).wf(),
            r.block() == old(self).allocated(),
            !old(self).objects().contains_key(r.block()),
            final(self).objects() == old(self).objects().insert(r.block(), data.upcast_spec()),
            final(self).roots() == old(self).roots(),
            final(self).allocated() == old(self).allocated() + 1,
    {
        let slot = self.blocks.len();
        let block = Block { header: Header::default(), data: data.upcast() };
        self.blocks.push(Some(block));
        let r = HeapRef { slot, marker: std::marker::PhantomData };
        proof {
            assert(final(self).objects() =~= old(self).objects().insert(r.block(), data.upcast_spec()));
            assert(final(self).roots() =~= old(self).roots());
            assert forall|i: int|
                0 <= i < final(self).blocks@.len() && #[trigger] final(self).blocks@[i] is Some
                    implies !final(self).blocks@[i]->0.header.marked by {
                if i < slot {
                    assert(final(self).blocks@[i] == old(self).blocks@[i]);
                }
            }
        }
        r
    }

    /// Adds `value` to the root set; the returned id removes it again.
    pub fn register_root(&mut self, value: ManagedValue) -> (id: RootId)
        requires
            old(self).wf(),
        ensures
            final(self).wf(),
            !old(self).roots().contains_key(id.id()),
            final(self).roots() == old(self).roots().insert(id.id(), value),
            final(self).objects() == old(self).objects(),
            final(self).allocated() == old(self).allocated(),
    {
        let index = self.roots.len();
        self.roots.push(Some(value));
        let id = RootId { index };
        proof {
            assert(final(self).roots() =~= old(self).roots().insert(id.id(), value));
            assert(final(self).objects() =~= old(self).objects());
        }
        id
    }

    /// Removes a root; nothing happens if it was already removed.
    pub fn unregister_root(&mut self, id: RootId)
        requires
            old(self).wf(),
        ensures
            final(self).wf(),
            final(self).roots() == old(self).roots().remove(id.id()),
            final(self).objects() == old(self).objects(),
            final(self).allocated() == old(self).allocated(),
    {
        if id.index < self.roots.len() {
            self.roots.set(id.index, None);
        }
        proof {
            assert(final(self).roots() =~= old(self).roots().remove(id.id()));
            assert(final(self).objects() =~= old(self).objects());
        }
    }
    /// Runs one full mark-and-sweep pass: afterwards the heap holds exactly
    /// the blocks that were reachable from the root set when it started.
    pub fn collect(&mut self)
        requires
            old(self).wf(),
        ensures
            final(self).wf(),
            final(self).objects() == collected(old(self).objects(), old(self).root_blocks()),
            final(self).roots() == old(self).roots(),
            final(self).allocated() == old(self).allocated(),
    {
        self.mark();
        self.sweep();
        proof {
            assert(final(self).objects() =~= collected(old(self).objects(), old(self).root_blocks()));
            assert(final(self).roots() =~= old(self).roots());
        }
    }

    fn is_unmarked(&self, j: usize) -> (r: bool)
        ensures
            r == (self.objects().contains_key(j as nat) && !self.marked(j as nat)),
    {
        if j < self.blocks.len() {
            match &self.blocks[j] {
                Some(b) => !b.header.marked,
                None => false,
            }
        } else {
            false
        }
    }

    fn set_mark(&mut self, j: usize, mark: bool)
        requires
            j < old(self).blocks@.len(),
            old(self).blocks@[j as int] is Some,
        ensures
            final(self).roots == old(self).roots,
            final(self).objects() == old(self).objects(),
            forall|i: nat|
                #[trigger] final(self).marked(i) == if i == j as nat {
                    mark
                } else {
                    old(self).marked(i)
                },
            final(self).blocks@ == old(self).blocks@.update(
                j as int,
                Some(Block { header: Header { marked: mark }, data: old(self).blocks@[j as int]->0.data }),
            ),
    {
        match &mut self.blocks[j] {
            Some(b) => {
                b.header.marked = mark;
            },
            None => {},
        }
        proof {
            assert(final(self).objects() =~= old(self).objects());
        }
    }

    /// The number of handles block `i` holds.
    fn child_count(&self, i: usize) -> (n: usize)
        requires
            self.objects().contains_key(i as nat),
        ensures
            n == self.objects()[i as nat].children().len(),
    {
        match &self.blocks[i] {
            Some(b) => match &b.data {
                Payload::Array(a) => a.len(),
                _ => 0,
            },
            None => 0,
        }
    }

    /// The `k`-th handle that block `i` holds, if there is one.
    fn child(&self, i: usize, k: usize) -> (c: Option<ManagedValue>)
        requires
            self.objects().contains_key(i as nat),
        ensures
            c == if k < self.objects()[i as nat].children().len() {
                Some(self.objects()[i as nat].children()[k as int])
            } else {
                None::<ManagedValue>
            },
    {
        match &self.blocks[i] {
            Some(b) => match &b.data {
                Payload::Array(a) => if k < a.len() {
                    Some(a[k])
                } else {
                    None
                },
                _ => None,
            },
            None => None,
        }
    }

    /// Marks exactly the blocks reachable from the root set.
    fn mark(&mut self)
        requires
            old(self).wf(),
        ensures
            final(self).roots == old(self).roots,
            final(self).objects() == old(self).objects(),
            final(self).blocks@.len() == old(self).blocks@.len(),
            forall|i: nat|
                #[trigger] final(self).marked(i) <==> reachable(
                    old(self).objects(),
                    old(self).root_blocks(),
                    i,
                ),
    {
        let ghost objs = self.objects();
        let ghost roots = self.root_blocks();
        let total = self.blocks.len();
        let mut work: Vec<usize> = Vec::new();
        let mut q: usize = 0;
        while q < self.roots.len()
            invariant
                self.roots == old(self).roots,
                objs == old(self).objects(),
                roots == old(self).root_blocks(),
                self.objects() == objs,
                self.blocks@.len() == old(self).blocks@.len(),
                self.blocks@.len() == total,
                0 <= q <= self.roots@.len(),
                forall|i: nat| #[trigger] self.marked(i) ==> reachable(objs, roots, i),
                forall|i: nat| #[trigger] self.marked(i) ==> work@.contains(i as usize),
                forall|k: int|
                    0 <= k < work@.len() ==> #[trigger] work@[k] < self.blocks@.len() && self.marked(
                        work@[k] as nat,
                    ),
                forall|id: int|
                    0 <= id < q && #[trigger] self.roots@[id] is Some && objs.contains_key(
                        self.roots@[id]->0.block(),
                    ) ==> self.marked(self.roots@[id]->0.block()),
            decreases self.roots@.len() - q,
        {
            if let Some(m) = self.roots[q] {
                if self.is_unmarked(m.slot) {
                    proof {
                        let p = seq![m.block()];
                        assert(self.roots().contains_key(q as nat));
                        assert(roots.contains(m.block()));
                        assert(is_path(objs, p));
                        assert(reachable(objs, roots, m.block()));
                    }
                    let ghost h0 = *self;
                    let ghost w0 = work@;
                    self.set_mark(m.slot, true);
                    work.push(m.slot);
                    proof {
                        assert forall|i: nat| #[trigger] self.marked(i) implies work@.contains(i as usize) by {
                            if i != m.block() {
                                assert(h0.marked(i));
                                assert(w0.contains(i as usize));
                                let k = choose|k: int| 0 <= k < w0.len() && w0[k] == i as usize;
                                assert(work@[k] == i as usize);
                            } else {
                                assert(work@[work@.len() - 1] == i as usize);
                            }
                        }
                    }
                }
            }
            q += 1;
        }
        proof {
            assert forall|r: nat| roots.contains(r) && objs.contains_key(r) implies #[trigger] self.marked(r) by {
                let id = choose|id: nat| #[trigger] self.roots().contains_key(id) && self.roots()[id].block() == r;
                assert(self.roots@[id as int] is Some);
            }
        }
        while work.len() > 0
            invariant
                self.roots == old(self).roots,
                objs == old(self).objects(),
                roots == old(self).root_blocks(),
                self.objects() == objs,
                self.blocks@.len() == old(self).blocks@.len(),
                self.blocks@.len() == total,
                forall|i: nat| #[trigger] self.marked(i) ==> reachable(objs, roots, i),
                forall|k: int|
                    0 <= k < work@.len() ==> #[trigger] work@[k] < self.blocks@.len() && self.marked(
                        work@[k] as nat,
                    ),
                forall|r: nat| roots.contains(r) && objs.contains_key(r) ==> #[trigger] self.marked(r),
                forall|i: nat, j: nat|
                    #[trigger] points_to(objs, i, j) && self.marked(i) && !work@.contains(i as usize)
                        ==> self.marked(j),
            decreases 2 * unmarked_count(self.blocks@) + work@.len(),
        {
            let ghost before_pop = work@;
            let i = work.pop().unwrap();
            let ghost measure = 2 * unmarked_count(self.blocks@) + work@.len();
            proof {
                assert(before_pop =~= work@.push(i));
                assert(before_pop[before_pop.len() - 1] == i);
                assert(self.marked(i as nat));
                assert forall|a: nat, j: nat|
                    #[trigger] points_to(objs, a, j) && self.marked(a) && !work@.contains(a as usize)
                        && a != i implies self.marked(j) by {
                    if before_pop.contains(a as usize) {
                        let k = choose|k: int| 0 <= k < before_pop.len() && before_pop[k] == a as usize;
                        assert(a < self.blocks@.len());
                        if k < work@.len() {
                            assert(work@[k] == a as usize);
                            assert(work@.contains(a as usize));
                        } else {
                            assert(a as usize == i);
                        }
                    }
                }
            }
            let n = self.child_count(i);
            let mut k: usize = 0;
            while k < n
                invariant
                    self.roots == old(self).roots,
                    objs == old(self).objects(),
                    roots == old(self).root_blocks(),
                    self.objects() == objs,
                    self.blocks@.len() == old(self).blocks@.len(),
                    self.blocks@.len() == total,
                    forall|i: nat| #[trigger] self.marked(i) ==> reachable(objs, roots, i),
                    forall|k: int|
                        0 <= k < work@.len() ==> #[trigger] work@[k] < self.blocks@.len()
                            && self.marked(work@[k] as nat),
                    forall|r: nat| roots.contains(r) && objs.contains_key(r) ==> #[trigger] self.marked(r),
                    forall|a: nat, j: nat|
                        #[trigger] points_to(objs, a, j) && self.marked(a) && !work@.contains(a as usize)
                            && a != i ==> self.marked(j),
                    self.marked(i as nat),
                    objs.contains_key(i as nat),
                    n == objs[i as nat].children().len(),
                    k <= n,
                    forall|c: int|
                        0 <= c < k && objs.contains_key(#[trigger] objs[i as nat].children()[c].block())
                            ==> self.marked(objs[i as nat].children()[c].block()),
                    2 * unmarked_count(self.blocks@) + work@.len() <= measure,
                decreases n - k,
            {
                if let Some(c) = self.child(i, k) {
                    if self.is_unmarked(c.slot) {
                        proof {
                            let p = choose|p: Seq<nat>|
                                #[trigger] is_path(objs, p) && roots.contains(p[0]) && p.last() == i as nat;
                            assert(objs[i as nat].children()[k as int].block() == c.block());
                            assert(points_to(objs, i as nat, c.block()));
                            lemma_path_extend(objs, p, c.block());
                            assert(reachable(objs, roots, c.block()));
                        }
                        let ghost before_mark = self.blocks@;
                        let ghost h0 = *self;
                        let ghost w0 = work@;
                        self.set_mark(c.slot, true);
                        proof {
                            lemma_mark_one(before_mark, self.blocks@, c.slot as int);
                        }
                        work.push(c.slot);
                        proof {
                            assert forall|a: nat, j: nat|
                                #[trigger] points_to(objs, a, j) && self.marked(a) && !work@.contains(a as usize)
                                    && a != i implies self.marked(j) by {
                                assert(work@[work@.len() - 1] == c.slot);
                                if a != c.block() {
                                    assert(h0.marked(a));
                                    if w0.contains(a as usize) {
                                        let k = choose|k: int| 0 <= k < w0.len() && w0[k] == a as usize;
                                        assert(work@[k] == a as usize);
                                    }
                                    assert(h0.marked(j));
                                }
                            }
                        }
                    }
                }
                k += 1;
            }
        }
        proof {
            let m = Set::new(|i: nat| self.marked(i));
            assert forall|i: nat| #[trigger] self.marked(i) <==> reachable(objs, roots, i) by {
                if reachable(objs, roots, i) {
                    let p = choose|p: Seq<nat>| #[trigger] is_path(objs, p) && roots.contains(p[0]) && p.last() == i;
                    lemma_closed_set_holds_reachable(objs, roots, m, p);
                }
            }
        }
    }

    /// Frees every unmarked block and clears the mark of every other one.
    fn sweep(&mut self)
        ensures
            final(self).roots == old(self).roots,
            final(self).blocks@.len() == old(self).blocks@.len(),
            final(self).wf(),
            final(self).objects() == old(self).objects().restrict(
                Set::new(|i: nat| old(self).marked(i)),
            ),
    {
        let mut i: usize = 0;
        while i < self.blocks.len()
            invariant
                self.roots == old(self).roots,
                self.blocks@.len() == old(self).blocks@.len(),
                0 <= i <= self.blocks@.len(),
                forall|q: int| i <= q < self.blocks@.len() ==> #[trigger] self.blocks@[q] == old(self).blocks@[q],
                forall|q: int|
                    0 <= q < i ==> (#[trigger] self.blocks@[q] is Some <==> old(self).marked(q as nat)),
                forall|q: int|
                    0 <= q < i && #[trigger] self.blocks@[q] is Some ==> self.blocks@[q]->0.data == old(
                        self,
                    ).blocks@[q]->0.data && !self.blocks@[q]->0.header.marked,
            decreases self.blocks@.len() - i,
        {
            let keep = match &self.blocks[i] {
                Some(b) => b.header.marked,
                None => false,
            };
            if keep {
                self.set_mark(i, false);
            } else {
                self.blocks.set(i, None);
            }
            i += 1;
        }
        proof {
            assert(final(self).objects() =~= old(self).objects().restrict(
                Set::new(|i: nat| old(self).marked(i)),
            ));
        }
    }
}

} // verus!

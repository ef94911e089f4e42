//! The heap: a tagged-object arena, an explicit root stack, an allocation
//! trigger, and the mark-and-sweep collector.
//!
//! Pair edges (`head`/`tail`) and root-stack entries are arena indices, never
//! owning handles: the arena alone owns object lifetime, and the collector
//! decides it globally at each collection. That is what makes cycles
//! collectible. The `alive` flag plays the role of registry membership: a
//! swept slot stays in the arena but is dead, so stale indices never come to
//! denote a different object.

use crate::counting::count_upto;
use crate::counting::lemma_count_agree;
use crate::counting::lemma_count_bounds;
use crate::counting::lemma_count_drop_one;
use crate::counting::lemma_count_pos;
use crate::counting::lemma_count_subset;
use vstd::pervasive::VecAdditionalExecFns;
use vstd::prelude::*;

verus! {

/// The collection threshold a fresh heap starts with.
pub const INITIAL_MAX_OBJECTS: usize = 8;

/// The three contract violations an embedder can commit. Collection itself
/// has no failure mode.
#[derive(Clone, Copy, PartialEq, Eq, Structural, Debug)]
pub enum VmError {
    /// A reference was pushed while the root stack was at capacity.
    StackOverflow,
    /// A reference was popped from an empty root stack.
    StackUnderflow,
    /// A tail mutation was attempted on an object that is not a pair.
    TypeMismatch,
}

/// The payload of an object: an integer leaf, or a pair of arena indices.
#[derive(Clone, Copy, PartialEq, Eq, Structural, Debug)]
pub enum ObjectType {
    Int(usize),
    Pair(usize, usize),
}

/// One arena slot: the tagged payload, the transient mark bit, and whether
/// the slot still holds an allocated (not yet swept) object.
#[derive(Clone, Copy, PartialEq, Eq, Structural, Debug)]
pub struct Object {
    pub obj_type: ObjectType,
    pub marked: bool,
    pub alive: bool,
}

/// Index `i` holds an allocated, not-yet-swept object.
pub open spec fn slot_live(objs: Seq<Object>, i: int) -> bool {
    0 <= i < objs.len() && objs[i].alive
}

/// There is a graph edge from `a` to `b`: `a` is a live pair whose head or
/// tail is `b`.
pub open spec fn slot_edge(objs: Seq<Object>, a: int, b: int) -> bool {
    slot_live(objs, a) && match objs[a].obj_type {
        ObjectType::Int(_) => false,
        ObjectType::Pair(h, t) => b == h as int || b == t as int,
    }
}

/// Index `i` appears on the root stack `roots`.
pub open spec fn has_root(roots: Seq<usize>, i: int) -> bool {
    exists|k: int| 0 <= k < roots.len() && roots[k] as int == i
}

/// `p` is a walk through the object graph that starts at a root and follows
/// head/tail edges.
pub open spec fn is_path(objs: Seq<Object>, roots: Seq<usize>, p: Seq<int>) -> bool {
    &&& p.len() > 0
    &&& has_root(roots, p[0])
    &&& forall|j: int| 0 <= j < p.len() - 1 ==> #[trigger] slot_edge(objs, p[j], p[j + 1])
}

/// Index `i` is reachable from the root stack: some walk from a root ends at
/// `i`. Cycles are harmless here; a walk may revisit indices.
pub open spec fn reachable(objs: Seq<Object>, roots: Seq<usize>, i: int) -> bool {
    exists|p: Seq<int>| is_path(objs, roots, p) && p.last() == i
}

/// Number of slots in `[0, n)` whose mark bit is clear.
pub open spec fn unmarked_upto(objs: Seq<Object>, n: int) -> int
    decreases n,
{
    if n <= 0 {
        0
    } else {
        unmarked_upto(objs, n - 1) + if !objs[n - 1].marked {
            1int
        } else {
            0int
        }
    }
}

/// Number of slots whose mark bit is clear; the measure that makes the mark
/// traversal terminate on cyclic graphs.
pub open spec fn unmarked_count(objs: Seq<Object>) -> int {
    unmarked_upto(objs, objs.len() as int)
}

/// Setting one clear mark bit lowers the unmarked count by one.
proof fn lemma_unmarked_count_mark(objs: Seq<Object>, objs2: Seq<Object>, k: int, n: int)
    requires
        objs2.len() == objs.len(),
        0 <= k < objs.len(),
        n <= objs.len(),
        !objs[k].marked,
        objs2[k].marked,
        forall|i: int|
            0 <= i < objs.len() && i != k ==> (#[trigger] objs2[i]).marked == objs[i].marked,
    ensures
        k < n ==> unmarked_upto(objs2, n) == unmarked_upto(objs, n) - 1,
        n <= k ==> unmarked_upto(objs2, n) == unmarked_upto(objs, n),
    decreases n,
{
    if n > 0 {
        lemma_unmarked_count_mark(objs, objs2, k, n - 1);
    }
}

/// The unmarked count is never negative.
proof fn lemma_unmarked_nonneg(objs: Seq<Object>, n: int)
    ensures
        0 <= unmarked_upto(objs, n),
    decreases n,
{
    if n > 0 {
        lemma_unmarked_nonneg(objs, n - 1);
    }
}

/// A root is reachable: the one-step walk from it ends at it.
pub proof fn lemma_root_reachable(objs: Seq<Object>, roots: Seq<usize>, i: int)
    requires
        has_root(roots, i),
    ensures
        reachable(objs, roots, i),
{
    let p = seq![i];
    assert(is_path(objs, roots, p));
    assert(p.last() == i);
}

/// Reachability follows edges: a walk to `a` extends by one step to `b`.
pub proof fn lemma_reachable_step(objs: Seq<Object>, roots: Seq<usize>, a: int, b: int)
    requires
        reachable(objs, roots, a),
        slot_edge(objs, a, b),
    ensures
        reachable(objs, roots, b),
{
    let p = choose|p: Seq<int>| is_path(objs, roots, p) && p.last() == a;
    let q = p.push(b);
    assert forall|j: int| 0 <= j < q.len() - 1 implies #[trigger] slot_edge(objs, q[j], q[j + 1]) by {
        if j < p.len() - 1 {
            assert(q[j] == p[j]);
            assert(q[j + 1] == p[j + 1]);
            assert(slot_edge(objs, p[j], p[j + 1]));
        } else {
            assert(q[j] == p.last());
            assert(q[j + 1] == b);
        }
    }
    assert(q[0] == p[0]);
    assert(is_path(objs, roots, q));
    assert(q.last() == b);
}

/// A set of indices that contains every root and is closed under graph edges
/// contains the end of every walk from a root.
proof fn lemma_closed_set_covers_paths(
    objs: Seq<Object>,
    roots: Seq<usize>,
    m: spec_fn(int) -> bool,
    p: Seq<int>,
)
    requires
        is_path(objs, roots, p),
        forall|k: int| 0 <= k < roots.len() ==> m(#[trigger] roots[k] as int),
        forall|a: int, b: int| #[trigger] m(a) && #[trigger] slot_edge(objs, a, b) ==> m(b),
    ensures
        m(p.last()),
    decreases p.len(),
{
    if p.len() == 1 {
        let k = choose|k: int| 0 <= k < roots.len() && roots[k] as int == p[0];
        assert(m(roots[k] as int));
    } else {
        let q = p.drop_last();
        assert(q[0] == p[0]);
        assert forall|j: int| 0 <= j < q.len() - 1 implies #[trigger] slot_edge(
            objs,
            q[j],
            q[j + 1],
        ) by {
            assert(q[j] == p[j]);
            assert(q[j + 1] == p[j + 1]);
            assert(slot_edge(objs, p[j], p[j + 1]));
        }
        assert(is_path(objs, roots, q));
        lemma_closed_set_covers_paths(objs, roots, m, q);
        assert(slot_edge(objs, p[p.len() - 2], p[p.len() - 2 + 1]));
        assert(q.last() == p[p.len() - 2]);
    }
}

/// Marking is idempotent: seeding the mark traversal with an extra root that
/// is already reachable marks nothing new, so marking an already-marked
/// object is a no-op as far as the outcome of a collection is concerned.
pub proof fn lemma_mark_idempotent(objs: Seq<Object>, roots: Seq<usize>, r: usize)
    requires
        reachable(objs, roots, r as int),
    ensures
        forall|i: int| #[trigger] reachable(objs, roots.push(r), i) <==> reachable(objs, roots, i),
{
    assert forall|i: int| #[trigger] reachable(objs, roots, i) implies reachable(
        objs,
        roots.push(r),
        i,
    ) by {
        let p = choose|p: Seq<int>| is_path(objs, roots, p) && p.last() == i;
        let k = choose|k: int| 0 <= k < roots.len() && roots[k] as int == p[0];
        assert(roots.push(r)[k] as int == p[0]);
        assert(has_root(roots.push(r), p[0]));
        assert(is_path(objs, roots.push(r), p));
    }
    assert forall|i: int| #[trigger] reachable(objs, roots.push(r), i) implies reachable(
        objs,
        roots,
        i,
    ) by {
        let p = choose|p: Seq<int>| is_path(objs, roots.push(r), p) && p.last() == i;
        let k = choose|k: int|
            0 <= k < roots.push(r).len() && roots.push(r)[k] as int == p[0];
        if k < roots.len() {
            assert(roots[k] as int == p[0]);
            assert(has_root(roots, p[0]));
            assert(is_path(objs, roots, p));
        } else {
            assert(p[0] == r as int);
            let q = choose|q: Seq<int>| is_path(objs, roots, q) && q.last() == r as int;
            if p.len() == 1 {
                assert(i == r as int);
            } else {
                let c = q + p.subrange(1, p.len() as int);
                assert(c[0] == q[0]);
                assert(has_root(roots, c[0]));
                assert forall|j: int| 0 <= j < c.len() - 1 implies #[trigger] slot_edge(
                    objs,
                    c[j],
                    c[j + 1],
                ) by {
                    if j < q.len() - 1 {
                        assert(c[j] == q[j]);
                        assert(c[j + 1] == q[j + 1]);
                        assert(slot_edge(objs, q[j], q[j + 1]));
                    } else if j == q.len() - 1 {
                        assert(c[j] == q.last());
                        assert(c[j + 1] == p.subrange(1, p.len() as int)[0]);
                        assert(c[j + 1] == p[1]);
                        assert(slot_edge(objs, p[0], p[1int]));
                    } else {
                        let m = j - q.len();
                        assert(c[j] == p.subrange(1, p.len() as int)[m]);
                        assert(c[j + 1] == p.subrange(1, p.len() as int)[m + 1]);
                        assert(c[j] == p[m + 1]);
                        assert(c[j + 1] == p[m + 2]);
                        assert(slot_edge(objs, p[m + 1], p[m + 1 + 1]));
                    }
                }
                assert(is_path(objs, roots, c));
                assert(c.last() == p.subrange(1, p.len() as int).last());
                assert(c.last() == p.last());
            }
        }
    }
}

/// The virtual machine: the object arena, the root stack, and the
/// allocation-trigger bookkeeping. One explicit value, so independent heaps
/// can coexist.
pub struct VM {
    /// The arena: the authoritative registry of every allocated object.
    pub objects: Vec<Object>,
    /// The root stack: indices the collector treats as always reachable.
    pub stack: Vec<usize>,
    /// Capacity of the root stack.
    pub max_size: usize,
    /// Live-object count at which the next allocation forces a collection.
    pub max_objects: usize,
    /// Number of live objects in the arena.
    pub num_objects: usize,
}

impl VM {
    /// Index `i` holds a live object of this heap.
    pub open spec fn live(self, i: int) -> bool {
        slot_live(self.objects@, i)
    }

    /// Index `i` is reachable from this heap's root stack.
    pub open spec fn obj_reachable(self, i: int) -> bool {
        reachable(self.objects@, self.stack@, i)
    }

    /// The number of live objects in the arena.
    pub open spec fn live_count(self) -> int {
        count_upto(|i: int| self.live(i), self.objects@.len() as int)
    }

    /// The number of root-reachable objects in the arena.
    pub open spec fn reachable_count(self) -> int {
        count_upto(|i: int| self.obj_reachable(i), self.objects@.len() as int)
    }

    /// No mark bit is set: marks are transient and never survive a
    /// collection.
    pub open spec fn marks_clear(self) -> bool {
        forall|i: int| 0 <= i < self.objects@.len() ==> !self.objects@[i].marked
    }

    /// The heap invariant: the root stack respects its bound and holds live
    /// indices, live pairs point at live objects, the live counter is exact,
    /// and no mark bit is left set between collections.
    pub open spec fn wf(self) -> bool {
        &&& self.stack@.len() <= self.max_size
        &&& forall|k: int| 0 <= k < self.stack@.len() ==> self.live(#[trigger] self.stack@[k] as int)
        &&& forall|i: int| #[trigger] self.live(i) ==> match self.objects@[i].obj_type {
            ObjectType::Int(_) => true,
            ObjectType::Pair(h, t) => self.live(h as int) && self.live(t as int),
        }
        &&& self.num_objects == self.live_count()
        &&& self.marks_clear()
    }

    /// The freshly created object an allocation appends to the arena.
    pub open spec fn fresh_object(obj_type: ObjectType) -> Object {
        Object { obj_type, marked: false, alive: true }
    }

    /// Threshold doubling: a collection leaves the threshold at exactly
    /// twice the surviving live count, so whenever any object survives the
    /// live count sits strictly below the threshold, and the allocation
    /// trigger (live count at or above the threshold) cannot fire again
    /// until the heap has doubled.
    pub proof fn lemma_threshold_doubles(self)
        requires
            self.max_objects == 2 * self.num_objects,
        ensures
            self.num_objects > 0 ==> self.num_objects < self.max_objects,
    {
    }

    /// Everything observable is as in `other`.
    pub open spec fn unchanged_from(self, other: VM) -> bool {
        &&& self.objects@ == other.objects@
        &&& self.stack@ == other.stack@
        &&& self.max_size == other.max_size
        &&& self.max_objects == other.max_objects
        &&& self.num_objects == other.num_objects
    }

    /// Operations that only touch the root stack preserve the heap
    /// invariant, as long as the new stack stays within bounds and holds
    /// live indices.
    proof fn lemma_wf_same_arena(a: VM, b: VM)
        requires
            a.wf(),
            b.objects@ == a.objects@,
            b.stack@.len() <= b.max_size,
            forall|k: int| 0 <= k < b.stack@.len() ==> a.live(#[trigger] b.stack@[k] as int),
            b.num_objects == a.num_objects,
        ensures
            b.wf(),
    {
        assert forall|i: int| #[trigger] b.live(i) implies match b.objects@[i].obj_type {
            ObjectType::Int(_) => true,
            ObjectType::Pair(h, t) => b.live(h as int) && b.live(t as int),
        } by {
            assert(a.live(i));
        }
        lemma_count_agree(|i: int| a.live(i), |i: int| b.live(i), b.objects@.len() as int);
        assert forall|i: int| 0 <= i < b.objects@.len() implies !(#[trigger] b.objects@[i]).marked by {
            assert(!a.objects@[i].marked);
        }
    }

    /// A fresh heap: empty arena, empty root stack of capacity `max_size`,
    /// and the initial collection threshold.
    pub fn new(max_size: usize) -> (vm: VM)
        ensures
            vm.wf(),
            vm.objects@ == Seq::<Object>::empty(),
            vm.stack@ == Seq::<usize>::empty(),
            vm.max_size == max_size,
            vm.max_objects == INITIAL_MAX_OBJECTS,
            vm.num_objects == 0,
    {
        VM {
            objects: Vec::new(),
            stack: Vec::new(),
            max_size,
            max_objects: INITIAL_MAX_OBJECTS,
            num_objects: 0,
        }
    }

    /// The allocator: if the live count has reached the threshold, run a
    /// full collection first, then construct the object, append it to the
    /// registry, and push its reference onto the root stack. The trigger
    /// check precedes every allocation; the metric is the live-object count.
    fn new_object(&mut self, obj_type: ObjectType) -> (idx: usize)
        requires
            old(self).wf(),
            old(self).stack@.len() < old(self).max_size,
            2 * old(self).objects@.len() + 2 <= usize::MAX as int,
            (match obj_type {
                ObjectType::Int(_) => true,
                ObjectType::Pair(h, t) => old(self).live(h as int) && old(self).live(t as int) && (
                old(self).num_objects >= old(self).max_objects ==> old(self).obj_reachable(h as int)
                    && old(self).obj_reachable(t as int)),
            }),
        ensures
            final(self).wf(),
            idx == old(self).objects@.len(),
            final(self).objects@.len() == old(self).objects@.len() + 1,
            final(self).objects@[idx as int] == VM::fresh_object(obj_type),
            final(self).stack@ == old(self).stack@.push(idx),
            final(self).max_size == old(self).max_size,
            old(self).num_objects < old(self).max_objects ==> {
                &&& final(self).objects@ == old(self).objects@.push(VM::fresh_object(obj_type))
                &&& final(self).num_objects == old(self).num_objects + 1
                &&& final(self).max_objects == old(self).max_objects
            },
            old(self).num_objects >= old(self).max_objects ==> {
                &&& forall|i: int|
                    0 <= i < old(self).objects@.len()
                        ==> (#[trigger] final(self).objects@[i]).obj_type
                        == old(self).objects@[i].obj_type
                &&& forall|i: int|
                    0 <= i < old(self).objects@.len()
                        ==> ((#[trigger] final(self).objects@[i]).alive <==> old(
                        self,
                    ).obj_reachable(i))
                &&& final(self).num_objects == old(self).reachable_count() + 1
                &&& final(self).max_objects == 2 * old(self).reachable_count()
            },
    {
        if self.num_objects >= self.max_objects {
            let _ = self.gc();
        }
        let ghost mid = *self;
        proof {
            lemma_count_bounds(|i: int| mid.live(i), mid.objects@.len() as int);
        }
        let idx = self.objects.len();
        self.objects.push(Object { obj_type, marked: false, alive: true });
        self.stack.push(idx);
        self.num_objects = self.num_objects + 1;
        proof {
            let n = mid.objects@.len() as int;
            assert forall|i: int| 0 <= i < n implies #[trigger] self.objects@[i]
                == mid.objects@[i] by {}
            assert forall|i: int| 0 <= i < n implies #[trigger] mid.live(i) == self.live(i) by {
                assert(self.objects@[i] == mid.objects@[i]);
            }
            if old(self).num_objects >= old(self).max_objects {
                assert forall|i: int| 0 <= i < n implies ((#[trigger] self.objects@[i]).alive
                    <==> old(self).obj_reachable(i)) by {
                    assert(self.objects@[i] == mid.objects@[i]);
                    if mid.objects@[i].alive {
                        assert(mid.live(i));
                    }
                    if old(self).obj_reachable(i) {
                        assert(mid.live(i));
                    }
                }
            }
            lemma_count_agree(|i: int| mid.live(i), |i: int| self.live(i), n);
            assert(self.live(n));
            assert(count_upto(|i: int| self.live(i), n + 1) == count_upto(
                |i: int| self.live(i),
                n,
            ) + 1);
            assert(self.num_objects == self.live_count());
            assert forall|k: int| 0 <= k < self.stack@.len() implies self.live(
                #[trigger] self.stack@[k] as int,
            ) by {
                if k < mid.stack@.len() {
                    assert(mid.live(mid.stack@[k] as int));
                }
            }
            assert forall|i: int| #[trigger] self.live(i) implies match self.objects@[i].obj_type {
                ObjectType::Int(_) => true,
                ObjectType::Pair(h, t) => self.live(h as int) && self.live(t as int),
            } by {
                if i < n {
                    assert(mid.live(i));
                } else {
                    match obj_type {
                        ObjectType::Int(_) => {},
                        ObjectType::Pair(h, t) => {
                            if old(self).num_objects >= old(self).max_objects {
                                assert(mid.live(h as int));
                                assert(mid.live(t as int));
                            } else {
                                assert(old(self).live(h as int));
                            }
                        },
                    }
                }
            }
        }
        idx
    }

    /// Push a reference onto the root stack; it is a root from now on.
    /// Fails with `StackOverflow`, and changes nothing, exactly when the
    /// stack is at capacity.
    pub fn push(&mut self, obj: usize) -> (r: Result<(), VmError>)
        requires
            old(self).wf(),
            old(self).live(obj as int),
        ensures
            final(self).wf(),
            old(self).stack@.len() >= old(self).max_size ==> r == Err::<(), VmError>(
                VmError::StackOverflow,
            ) && final(self).unchanged_from(*old(self)),
            old(self).stack@.len() < old(self).max_size ==> {
                &&& r == Ok::<(), VmError>(())
                &&& final(self).stack@ == old(self).stack@.push(obj)
                &&& final(self).objects@ == old(self).objects@
                &&& final(self).max_size == old(self).max_size
                &&& final(self).max_objects == old(self).max_objects
                &&& final(self).num_objects == old(self).num_objects
            },
    {
        if self.stack.len() >= self.max_size {
            return Err(VmError::StackOverflow);
        }
        self.stack.push(obj);
        proof {
            VM::lemma_wf_same_arena(*old(self), *self);
        }
        Ok(())
    }

    /// Pop the most recently pushed reference; it stops being a root.
    /// Fails with `StackUnderflow`, and changes nothing, exactly when the
    /// stack is empty.
    pub fn pop(&mut self) -> (r: Result<usize, VmError>)
        requires
            old(self).wf(),
        ensures
            final(self).wf(),
            old(self).stack@.len() == 0 ==> r == Err::<usize, VmError>(VmError::StackUnderflow)
                && final(self).unchanged_from(*old(self)),
            old(self).stack@.len() > 0 ==> {
                &&& r == Ok::<usize, VmError>(old(self).stack@.last())
                &&& final(self).live(old(self).stack@.last() as int)
                &&& final(self).stack@ == old(self).stack@.drop_last()
                &&& final(self).objects@ == old(self).objects@
                &&& final(self).max_size == old(self).max_size
                &&& final(self).max_objects == old(self).max_objects
                &&& final(self).num_objects == old(self).num_objects
            },
    {
        if self.stack.len() == 0 {
            return Err(VmError::StackUnderflow);
        }
        let top = self.stack.pop().unwrap();
        proof {
            assert(old(self).stack@.drop_last() =~= self.stack@);
            VM::lemma_wf_same_arena(*old(self), *self);
        }
        Ok(top)
    }

    /// Under the heap invariant every reachable index is live.
    proof fn lemma_reachable_live(self, i: int)
        requires
            self.wf(),
            self.obj_reachable(i),
        ensures
            self.live(i),
    {
        let p = choose|p: Seq<int>|
            is_path(self.objects@, self.stack@, p) && p.last() == i;
        if p.len() == 1 {
            let k = choose|k: int| 0 <= k < self.stack@.len() && self.stack@[k] as int == p[0];
            assert(self.live(self.stack@[k] as int));
        } else {
            assert(slot_edge(self.objects@, p[p.len() - 2], p[p.len() - 2 + 1]));
            assert(self.live(p[p.len() - 2]));
        }
    }

    /// The mark phase: flag exactly the objects reachable from the root
    /// stack. An explicit work list replaces recursion; the already-marked
    /// check makes revisiting a no-op, so the traversal terminates on cycles
    /// (the unmarked count shrinks whenever anything is marked).
    #[verifier::rlimit(100)]
    fn mark_all(&mut self)
        requires
            old(self).wf(),
        ensures
            final(self).objects@.len() == old(self).objects@.len(),
            forall|i: int|
                0 <= i < old(self).objects@.len() ==> (#[trigger] final(self).objects@[i]).obj_type
                    == old(self).objects@[i].obj_type,
            forall|i: int|
                0 <= i < old(self).objects@.len() ==> (#[trigger] final(self).objects@[i]).alive
                    == old(self).objects@[i].alive,
            forall|i: int|
                0 <= i < old(self).objects@.len()
                    ==> ((#[trigger] final(self).objects@[i]).marked <==> old(self).obj_reachable(
                    i,
                )),
            final(self).stack@ == old(self).stack@,
            final(self).max_size == old(self).max_size,
            final(self).max_objects == old(self).max_objects,
            final(self).num_objects == old(self).num_objects,
    {
        let mut work: Vec<usize> = Vec::new();
        let mut k: usize = 0;
        while k < self.stack.len()
            invariant
                old(self).wf(),
                *self == *old(self),
                k <= self.stack@.len(),
                work@ == self.stack@.subrange(0, k as int),
            decreases self.stack@.len() - k,
        {
            let root = self.stack[k];
            work.push(root);
            proof {
                assert(work@ =~= self.stack@.subrange(0, k as int + 1));
            }
            k = k + 1;
        }
        proof {
            assert(work@ =~= self.stack@);
            assert forall|j: int| 0 <= j < work@.len() implies work@[j]
                < self.objects@.len() && old(self).obj_reachable(#[trigger] work@[j] as int) by {
                assert(old(self).live(old(self).stack@[j] as int));
                lemma_root_reachable(old(self).objects@, old(self).stack@, work@[j] as int);
            }
        }
        while work.len() > 0
            invariant
                old(self).wf(),
                self.objects@.len() == old(self).objects@.len(),
                self.stack@ == old(self).stack@,
                self.max_size == old(self).max_size,
                self.max_objects == old(self).max_objects,
                self.num_objects == old(self).num_objects,
                forall|i: int|
                    0 <= i < old(self).objects@.len() ==> (#[trigger] self.objects@[i]).obj_type
                        == old(self).objects@[i].obj_type,
                forall|i: int|
                    0 <= i < old(self).objects@.len() ==> (#[trigger] self.objects@[i]).alive
                        == old(self).objects@[i].alive,
                forall|j: int|
                    0 <= j < work@.len() ==> work@[j] < self.objects@.len() && old(
                        self,
                    ).obj_reachable(#[trigger] work@[j] as int),
                forall|i: int|
                    0 <= i < self.objects@.len() && (#[trigger] self.objects@[i]).marked ==> old(
                        self,
                    ).obj_reachable(i),
                forall|j: int|
                    0 <= j < self.stack@.len() ==> (self.objects@[#[trigger] self.stack@[j] as int].marked
                        || work@.contains(self.stack@[j])),
                forall|i: int|
                    0 <= i < self.objects@.len() && (#[trigger] self.objects@[i]).marked
                        ==> match old(self).objects@[i].obj_type {
                        ObjectType::Int(_) => true,
                        ObjectType::Pair(h, t) => (self.objects@[h as int].marked
                            || work@.contains(h)) && (self.objects@[t as int].marked
                            || work@.contains(t)),
                    },
            decreases unmarked_count(self.objects@), work@.len(),
        {
            let ghost prev_work = work@;
            let i = work.pop().unwrap();
            let o = self.objects[i];
            if !o.marked {
                let ghost prev = self.objects@;
                self.objects.set(i, Object { obj_type: o.obj_type, marked: true, alive: o.alive });
                proof {
                    lemma_unmarked_count_mark(prev, self.objects@, i as int, prev.len() as int);
                    lemma_unmarked_nonneg(self.objects@, self.objects@.len() as int);
                    old(self).lemma_reachable_live(i as int);
                }
                match o.obj_type {
                    ObjectType::Int(_) => {
                        proof {
                            assert forall|j: int|
                                0 <= j < self.stack@.len() implies (
                            self.objects@[#[trigger] self.stack@[j] as int].marked
                                || work@.contains(self.stack@[j])) by {
                                if self.stack@[j] != i && prev_work.contains(self.stack@[j]) {
                                    let w = choose|w: int|
                                        0 <= w < prev_work.len() && prev_work[w] == self.stack@[j];
                                    assert(w < prev_work.len() - 1);
                                    assert(work@[w] == self.stack@[j]);
                                }
                            }
                            assert forall|c: int|
                                0 <= c < self.objects@.len() && (
                            #[trigger] self.objects@[c]).marked implies match old(
                                self,
                            ).objects@[c].obj_type {
                                ObjectType::Int(_) => true,
                                ObjectType::Pair(h, t) => (self.objects@[h as int].marked
                                    || work@.contains(h)) && (self.objects@[t as int].marked
                                    || work@.contains(t)),
                            } by {
                                if c != i as int && prev[c].marked {
                                    old(self).lemma_reachable_live(c);
                                    match old(self).objects@[c].obj_type {
                                        ObjectType::Int(_) => {},
                                        ObjectType::Pair(h, t) => {
                                            assert(old(self).live(h as int));
                                            assert(old(self).live(t as int));
                                            if !self.objects@[h as int].marked {
                                                let w = choose|w: int|
                                                    0 <= w < prev_work.len() && prev_work[w] == h;
                                                assert(w < prev_work.len() - 1);
                                                assert(work@[w] == h);
                                            }
                                            if !self.objects@[t as int].marked {
                                                let w = choose|w: int|
                                                    0 <= w < prev_work.len() && prev_work[w] == t;
                                                assert(w < prev_work.len() - 1);
                                                assert(work@[w] == t);
                                            }
                                        },
                                    }
                                }
                            }
                        }
                    },
                    ObjectType::Pair(h, t) => {
                        work.push(h);
                        work.push(t);
                        proof {
                            assert(old(self).live(i as int));
                            assert(old(self).objects@[i as int].obj_type == o.obj_type);
                            assert(slot_edge(old(self).objects@, i as int, h as int));
                            assert(slot_edge(old(self).objects@, i as int, t as int));
                            lemma_reachable_step(
                                old(self).objects@,
                                old(self).stack@,
                                i as int,
                                h as int,
                            );
                            lemma_reachable_step(
                                old(self).objects@,
                                old(self).stack@,
                                i as int,
                                t as int,
                            );
                            assert(old(self).live(h as int));
                            assert(old(self).live(t as int));
                            assert forall|j: int|
                                0 <= j < self.stack@.len() implies (
                            self.objects@[#[trigger] self.stack@[j] as int].marked
                                || work@.contains(self.stack@[j])) by {
                                if self.stack@[j] != i && prev_work.contains(self.stack@[j]) {
                                    let w = choose|w: int|
                                        0 <= w < prev_work.len() && prev_work[w] == self.stack@[j];
                                    assert(w < prev_work.len() - 1);
                                    assert(work@[w] == self.stack@[j]);
                                }
                            }
                            assert forall|c: int|
                                0 <= c < self.objects@.len() && (
                            #[trigger] self.objects@[c]).marked implies match old(
                                self,
                            ).objects@[c].obj_type {
                                ObjectType::Int(_) => true,
                                ObjectType::Pair(ch, ct) => (self.objects@[ch as int].marked
                                    || work@.contains(ch)) && (self.objects@[ct as int].marked
                                    || work@.contains(ct)),
                            } by {
                                assert(work@.contains(h)) by {
                                    assert(work@[work@.len() - 2] == h);
                                }
                                assert(work@.contains(t)) by {
                                    assert(work@[work@.len() - 1] == t);
                                }
                                if c != i as int && prev[c].marked {
                                    old(self).lemma_reachable_live(c);
                                    match old(self).objects@[c].obj_type {
                                        ObjectType::Int(_) => {},
                                        ObjectType::Pair(ch, ct) => {
                                            assert(old(self).live(ch as int));
                                            assert(old(self).live(ct as int));
                                            if !self.objects@[ch as int].marked && ch != h && ch
                                                != t {
                                                let w = choose|w: int|
                                                    0 <= w < prev_work.len() && prev_work[w] == ch;
                                                assert(w < prev_work.len() - 1);
                                                assert(work@[w] == ch);
                                            }
                                            if !self.objects@[ct as int].marked && ct != h && ct
                                                != t {
                                                let w = choose|w: int|
                                                    0 <= w < prev_work.len() && prev_work[w] == ct;
                                                assert(w < prev_work.len() - 1);
                                                assert(work@[w] == ct);
                                            }
                                        },
                                    }
                                }
                            }
                        }
                    },
                }
            } else {
                proof {
                    assert forall|j: int|
                        0 <= j < self.stack@.len() implies (
                    self.objects@[#[trigger] self.stack@[j] as int].marked || work@.contains(
                        self.stack@[j],
                    )) by {
                        if !self.objects@[self.stack@[j] as int].marked {
                            let w = choose|w: int|
                                0 <= w < prev_work.len() && prev_work[w] == self.stack@[j];
                            assert(w < prev_work.len() - 1);
                            assert(work@[w] == self.stack@[j]);
                        }
                    }
                    assert forall|c: int|
                        0 <= c < self.objects@.len() && (#[trigger] self.objects@[c]).marked
                        implies match old(self).objects@[c].obj_type {
                        ObjectType::Int(_) => true,
                        ObjectType::Pair(h, t) => (self.objects@[h as int].marked
                            || work@.contains(h)) && (self.objects@[t as int].marked
                            || work@.contains(t)),
                    } by {
                        old(self).lemma_reachable_live(c);
                        match old(self).objects@[c].obj_type {
                            ObjectType::Int(_) => {},
                            ObjectType::Pair(h, t) => {
                                assert(old(self).live(h as int));
                                assert(old(self).live(t as int));
                                if !self.objects@[h as int].marked {
                                    let w = choose|w: int|
                                        0 <= w < prev_work.len() && prev_work[w] == h;
                                    assert(w < prev_work.len() - 1);
                                    assert(work@[w] == h);
                                }
                                if !self.objects@[t as int].marked {
                                    let w = choose|w: int|
                                        0 <= w < prev_work.len() && prev_work[w] == t;
                                    assert(w < prev_work.len() - 1);
                                    assert(work@[w] == t);
                                }
                            },
                        }
                    }
                }
            }
        }
        proof {
            let m = |x: int| 0 <= x < self.objects@.len() && self.objects@[x].marked;
            assert forall|a: int, b: int| #[trigger] m(a) && #[trigger] slot_edge(
                old(self).objects@,
                a,
                b,
            ) implies m(b) by {
                old(self).lemma_reachable_live(a);
            }
            assert forall|k2: int| 0 <= k2 < old(self).stack@.len() implies m(
                #[trigger] old(self).stack@[k2] as int,
            ) by {
                assert(old(self).live(old(self).stack@[k2] as int));
            }
            assert forall|i: int| 0 <= i < self.objects@.len() && old(self).obj_reachable(i)
                implies (#[trigger] self.objects@[i]).marked by {
                let p = choose|p: Seq<int>|
                    is_path(old(self).objects@, old(self).stack@, p) && p.last() == i;
                lemma_closed_set_covers_paths(old(self).objects@, old(self).stack@, m, p);
            }
            assert forall|i: int| 0 <= i < self.objects@.len() implies ((
            #[trigger] self.objects@[i]).marked <==> old(self).obj_reachable(i)) by {
                if old(self).obj_reachable(i) {
                    assert(self.objects@[i].marked);
                }
            }
        }
    }

    /// The sweep phase: walk the whole registry once, reclaim every unmarked
    /// object, clear the mark bit of every survivor, and keep the live
    /// counter exact.
    fn sweep(&mut self)
        requires
            old(self).num_objects == old(self).live_count(),
            forall|i: int|
                0 <= i < old(self).objects@.len() && (#[trigger] old(self).objects@[i]).marked
                    ==> old(self).objects@[i].alive,
        ensures
            final(self).objects@.len() == old(self).objects@.len(),
            forall|i: int|
                0 <= i < old(self).objects@.len() ==> (#[trigger] final(self).objects@[i]).obj_type
                    == old(self).objects@[i].obj_type,
            forall|i: int|
                0 <= i < old(self).objects@.len() ==> ((#[trigger] final(self).objects@[i]).alive
                    <==> old(self).objects@[i].marked),
            final(self).marks_clear(),
            final(self).num_objects == final(self).live_count(),
            final(self).stack@ == old(self).stack@,
            final(self).max_size == old(self).max_size,
            final(self).max_objects == old(self).max_objects,
    {
        let n = self.objects.len();
        let mut j: usize = 0;
        while j < n
            invariant
                n == self.objects@.len(),
                self.objects@.len() == old(self).objects@.len(),
                j <= n,
                self.stack@ == old(self).stack@,
                self.max_size == old(self).max_size,
                self.max_objects == old(self).max_objects,
                forall|i: int|
                    0 <= i < n ==> (#[trigger] self.objects@[i]).obj_type
                        == old(self).objects@[i].obj_type,
                forall|i: int|
                    0 <= i < j ==> ((#[trigger] self.objects@[i]).alive <==> old(
                        self,
                    ).objects@[i].marked),
                forall|i: int| 0 <= i < j ==> !(#[trigger] self.objects@[i]).marked,
                forall|i: int|
                    j <= i < n ==> (#[trigger] self.objects@[i]) == old(self).objects@[i],
                forall|i: int|
                    0 <= i < n && (#[trigger] old(self).objects@[i]).marked ==> old(
                        self,
                    ).objects@[i].alive,
                self.num_objects == self.live_count(),
            decreases n - j,
        {
            let o = self.objects[j];
            if o.alive {
                if !o.marked {
                    let ghost prev = *self;
                    self.objects.set(
                        j,
                        Object { obj_type: o.obj_type, marked: false, alive: false },
                    );
                    proof {
                        lemma_count_pos(|i: int| prev.live(i), j as int, n as int);
                    }
                    self.num_objects = self.num_objects - 1;
                    proof {
                        lemma_count_drop_one(
                            |i: int| prev.live(i),
                            |i: int| self.live(i),
                            j as int,
                            n as int,
                        );
                    }
                } else {
                    let ghost prev = *self;
                    self.objects.set(
                        j,
                        Object { obj_type: o.obj_type, marked: false, alive: true },
                    );
                    proof {
                        lemma_count_agree(
                            |i: int| prev.live(i),
                            |i: int| self.live(i),
                            n as int,
                        );
                    }
                }
            }
            j = j + 1;
        }
    }

    /// One full collection cycle: mark everything reachable from the root
    /// stack, sweep everything else, then reset the collection threshold to
    /// twice the surviving count. Returns the number of objects reclaimed
    /// and the number remaining, in that order. Exactly the previously
    /// root-reachable objects survive, every survivor has its mark bit
    /// clear, and cyclic garbage falls in the same cycle.
    pub fn gc(&mut self) -> (r: (usize, usize))
        requires
            old(self).wf(),
            2 * old(self).objects@.len() <= usize::MAX as int,
        ensures
            final(self).wf(),
            final(self).objects@.len() == old(self).objects@.len(),
            forall|i: int|
                0 <= i < old(self).objects@.len() ==> (#[trigger] final(self).objects@[i]).obj_type
                    == old(self).objects@[i].obj_type,
            forall|i: int| #[trigger] final(self).live(i) ==> old(self).obj_reachable(i),
            forall|i: int| #[trigger] old(self).obj_reachable(i) ==> final(self).live(i),
            final(self).marks_clear(),
            final(self).stack@ == old(self).stack@,
            final(self).max_size == old(self).max_size,
            final(self).num_objects == old(self).reachable_count(),
            final(self).max_objects == 2 * final(self).num_objects,
            r.0 == old(self).num_objects - final(self).num_objects,
            r.1 == final(self).num_objects,
    {
        let before = self.num_objects;
        self.mark_all();
        let ghost mid = *self;
        proof {
            assert forall|i: int|
                0 <= i < mid.objects@.len() && (#[trigger] mid.objects@[i]).marked
                implies mid.objects@[i].alive by {
                old(self).lemma_reachable_live(i);
            }
            lemma_count_agree(
                |i: int| old(self).live(i),
                |i: int| mid.live(i),
                mid.objects@.len() as int,
            );
        }
        self.sweep();
        proof {
            let n = self.objects@.len() as int;
            assert forall|i: int| #[trigger] self.live(i) implies old(self).obj_reachable(i) by {
                assert(mid.objects@[i].marked);
            }
            assert forall|i: int| #[trigger] old(self).obj_reachable(i) implies self.live(i) by {
                old(self).lemma_reachable_live(i);
                assert(mid.objects@[i].marked);
                assert(self.objects@[i].alive);
            }
            lemma_count_agree(|i: int| self.live(i), |i: int| old(self).obj_reachable(i), n);
            assert(self.num_objects == old(self).reachable_count());
            assert forall|i: int| 0 <= i < n && #[trigger] old(self).obj_reachable(i)
                implies old(self).live(i) by {
                old(self).lemma_reachable_live(i);
            }
            lemma_count_subset(|i: int| old(self).obj_reachable(i), |i: int| old(self).live(i), n);
            lemma_count_bounds(|i: int| old(self).obj_reachable(i), n);
        }
        let ghost swept = *self;
        self.max_objects = self.num_objects * 2;
        proof {
            lemma_count_agree(
                |i: int| swept.live(i),
                |i: int| self.live(i),
                self.objects@.len() as int,
            );
            assert forall|k: int| 0 <= k < self.stack@.len() implies self.live(
                #[trigger] self.stack@[k] as int,
            ) by {
                lemma_root_reachable(
                    old(self).objects@,
                    old(self).stack@,
                    self.stack@[k] as int,
                );
            }
            assert forall|i: int| #[trigger] self.live(i) implies match self.objects@[i].obj_type {
                ObjectType::Int(_) => true,
                ObjectType::Pair(h, t) => self.live(h as int) && self.live(t as int),
            } by {
                old(self).lemma_reachable_live(i);
                assert(self.objects@[i].obj_type == old(self).objects@[i].obj_type);
                match old(self).objects@[i].obj_type {
                    ObjectType::Int(_) => {},
                    ObjectType::Pair(h, t) => {
                        assert(old(self).live(h as int));
                        assert(old(self).live(t as int));
                        assert(slot_edge(old(self).objects@, i, h as int));
                        assert(slot_edge(old(self).objects@, i, t as int));
                        lemma_reachable_step(
                            old(self).objects@,
                            old(self).stack@,
                            i,
                            h as int,
                        );
                        lemma_reachable_step(
                            old(self).objects@,
                            old(self).stack@,
                            i,
                            t as int,
                        );
                    },
                }
            }
        }
        (before - self.num_objects, self.num_objects)
    }

    /// Allocate a new integer object and push its reference onto the root
    /// stack; a collection runs first when the live count has reached the
    /// threshold. Fails with `StackOverflow`, and changes nothing, exactly
    /// when the root stack is at capacity.
    pub fn push_int(&mut self, value: usize) -> (r: Result<usize, VmError>)
        requires
            old(self).wf(),
            2 * old(self).objects@.len() + 2 <= usize::MAX as int,
        ensures
            final(self).wf(),
            old(self).stack@.len() >= old(self).max_size ==> r == Err::<usize, VmError>(
                VmError::StackOverflow,
            ) && final(self).unchanged_from(*old(self)),
            old(self).stack@.len() < old(self).max_size ==> {
                &&& r == Ok::<usize, VmError>((old(self).objects@.len() as usize))
                &&& final(self).objects@.len() == old(self).objects@.len() + 1
                &&& final(self).objects@[old(self).objects@.len() as int] == VM::fresh_object(
                    ObjectType::Int(value),
                )
                &&& final(self).stack@ == old(self).stack@.push((old(self).objects@.len() as usize))
                &&& final(self).max_size == old(self).max_size
                &&& (old(self).num_objects < old(self).max_objects ==> final(self).objects@ == old(
                    self,
                ).objects@.push(VM::fresh_object(ObjectType::Int(value))) && final(self).num_objects
                    == old(self).num_objects + 1 && final(self).max_objects == old(
                    self,
                ).max_objects)
                &&& (old(self).num_objects >= old(self).max_objects ==> (forall|i: int|
                    0 <= i < old(self).objects@.len()
                        ==> (#[trigger] final(self).objects@[i]).obj_type
                        == old(self).objects@[i].obj_type && (final(self).objects@[i].alive <==> old(
                        self,
                    ).obj_reachable(i))) && final(self).num_objects == old(self).reachable_count()
                    + 1 && final(self).max_objects == 2 * old(self).reachable_count())
            },
    {
        if self.stack.len() >= self.max_size {
            return Err(VmError::StackOverflow);
        }
        let idx = self.new_object(ObjectType::Int(value));
        Ok(idx)
    }

    /// Pop a tail operand, then a head operand, and allocate a pair of the
    /// two; the new pair's reference replaces them on the root stack (the
    /// deeper-pushed operand becomes the head). A collection, if the live
    /// count has reached the threshold, runs while both operands are still
    /// rooted. Fails with `StackUnderflow`, and changes nothing, exactly
    /// when the root stack holds fewer than two references.
    pub fn push_pair(&mut self) -> (r: Result<usize, VmError>)
        requires
            old(self).wf(),
            2 * old(self).objects@.len() + 2 <= usize::MAX as int,
        ensures
            final(self).wf(),
            old(self).stack@.len() < 2 ==> r == Err::<usize, VmError>(VmError::StackUnderflow)
                && final(self).unchanged_from(*old(self)),
            old(self).stack@.len() >= 2 ==> {
                &&& r == Ok::<usize, VmError>((old(self).objects@.len() as usize))
                &&& final(self).objects@.len() == old(self).objects@.len() + 1
                &&& final(self).objects@[old(self).objects@.len() as int] == VM::fresh_object(
                    ObjectType::Pair(
                        old(self).stack@[old(self).stack@.len() - 2],
                        old(self).stack@[old(self).stack@.len() - 1],
                    ),
                )
                &&& final(self).stack@ == old(self).stack@.drop_last().drop_last().push(
                    (old(self).objects@.len() as usize),
                )
                &&& final(self).max_size == old(self).max_size
                &&& (old(self).num_objects < old(self).max_objects ==> final(self).objects@ == old(
                    self,
                ).objects@.push(
                    VM::fresh_object(
                        ObjectType::Pair(
                            old(self).stack@[old(self).stack@.len() - 2],
                            old(self).stack@[old(self).stack@.len() - 1],
                        ),
                    ),
                ) && final(self).num_objects == old(self).num_objects + 1
                    && final(self).max_objects == old(self).max_objects)
                &&& (old(self).num_objects >= old(self).max_objects ==> (forall|i: int|
                    0 <= i < old(self).objects@.len()
                        ==> (#[trigger] final(self).objects@[i]).obj_type
                        == old(self).objects@[i].obj_type && (final(self).objects@[i].alive <==> old(
                        self,
                    ).obj_reachable(i))) && final(self).num_objects == old(self).reachable_count()
                    + 1 && final(self).max_objects == 2 * old(self).reachable_count())
            },
    {
        if self.stack.len() < 2 {
            return Err(VmError::StackUnderflow);
        }
        if self.num_objects >= self.max_objects {
            let _ = self.gc();
            proof {
                let r0 = self.stack@[0] as int;
                lemma_root_reachable(old(self).objects@, old(self).stack@, r0);
                assert(self.live(r0));
                lemma_count_pos(
                    |i: int| self.live(i),
                    r0,
                    self.objects@.len() as int,
                );
                assert(self.num_objects >= 1);
            }
        }
        let ghost mid = *self;
        let tail = self.pop().unwrap();
        let head = self.pop().unwrap();
        proof {
            assert(mid.stack@.drop_last().drop_last() =~= self.stack@);
            assert(self.live(head as int));
            assert(self.live(tail as int));
            assert(self.num_objects < self.max_objects);
        }
        let idx = self.new_object(ObjectType::Pair(head, tail));
        proof {
            let n = old(self).objects@.len() as int;
            assert(tail == old(self).stack@[old(self).stack@.len() - 1]);
            assert(head == old(self).stack@[old(self).stack@.len() - 2]);
            assert forall|i: int| 0 <= i < n implies #[trigger] self.objects@[i]
                == mid.objects@[i] by {}
            if old(self).num_objects >= old(self).max_objects {
                assert forall|i: int| 0 <= i < n implies ((#[trigger] self.objects@[i]).alive
                    <==> old(self).obj_reachable(i)) by {
                    if mid.objects@[i].alive {
                        assert(mid.live(i));
                    }
                    if old(self).obj_reachable(i) {
                        assert(mid.live(i));
                    }
                }
            }
        }
        Ok(idx)
    }

    /// Replace the tail edge of a pair, possibly creating or breaking a
    /// cycle. Fails with `TypeMismatch`, and changes nothing, exactly when
    /// `obj` is an integer leaf; registry membership and marks are never
    /// affected.
    pub fn set_pair_tail(&mut self, obj: usize, new_tail: usize) -> (r: Result<(), VmError>)
        requires
            old(self).wf(),
            old(self).live(obj as int),
            old(self).live(new_tail as int),
        ensures
            final(self).wf(),
            match old(self).objects@[obj as int].obj_type {
                ObjectType::Int(_) => r == Err::<(), VmError>(VmError::TypeMismatch)
                    && final(self).unchanged_from(*old(self)),
                ObjectType::Pair(h, _) => {
                    &&& r == Ok::<(), VmError>(())
                    &&& final(self).objects@ == old(self).objects@.update(
                        obj as int,
                        (Object {
                            obj_type: ObjectType::Pair(h, new_tail),
                            marked: false,
                            alive: true,
                        }),
                    )
                    &&& final(self).stack@ == old(self).stack@
                    &&& final(self).max_size == old(self).max_size
                    &&& final(self).max_objects == old(self).max_objects
                    &&& final(self).num_objects == old(self).num_objects
                },
            },
    {
        let slot = self.objects[obj];
        match slot.obj_type {
            ObjectType::Int(_) => Err(VmError::TypeMismatch),
            ObjectType::Pair(h, _) => {
                self.objects.set(
                    obj,
                    Object { obj_type: ObjectType::Pair(h, new_tail), marked: false, alive: true },
                );
                proof {
                    assert(forall|i: int| old(self).live(i) == self.live(i));
                    lemma_count_agree(
                        |i: int| old(self).live(i),
                        |i: int| self.live(i),
                        self.objects@.len() as int,
                    );
                }
                Ok(())
            },
        }
    }
}

} // verus!

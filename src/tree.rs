//! Depth-first, pre-order traversal of a key-expression tree.
//!
//! The tree is stored as an arena: a node lists the indices of its
//! children. An iterator keeps a stack of frames, one per level being
//! walked, each holding the children of that level and the position of
//! the next one.

use vstd::prelude::*;

verus! {

/// A node of a key-expression tree: its chunk and its children.
#[derive(Clone, Debug)]
pub struct KeNode {
    pub chunk: String,
    pub children: Vec<usize>,
}

/// A key-expression tree stored as an arena of nodes.
#[derive(Clone, Debug)]
pub struct KeTree {
    pub nodes: Vec<KeNode>,
}

/// One level of a traversal: the children of that level and the position
/// of the next one to visit.
#[derive(Clone, Debug)]
pub struct Frame {
    pub children: Vec<usize>,
    pub next: usize,
}

/// Pre-order iterator over the descendants of a set of children.
#[derive(Clone, Debug)]
pub struct TreeIter {
    pub iterators: Vec<Frame>,
}

/// Pre-order iterator handing out the indices of nodes to modify.
#[derive(Clone, Debug)]
pub struct TreeIterMut {
    pub iterators: Vec<Frame>,
}

/// A pre-order iterator that also reports the depth of each node, the
/// children it started from being at depth 1.
#[derive(Clone, Debug)]
pub struct DepthInstrumented {
    pub inner: TreeIter,
}

/// The mathematical value of a frame.
pub open spec fn frame_view(f: Frame) -> (Seq<usize>, int) {
    (f.children@, f.next as int)
}

/// A frame with children left to visit.
pub open spec fn live(f: Frame) -> bool {
    f.next < f.children@.len()
}

/// Index of the topmost frame with children left, or -1.
pub open spec fn top_live(stack: Seq<Frame>) -> int
    decreases stack.len(),
{
    if stack.len() == 0 {
        -1
    } else if live(stack.last()) {
        stack.len() - 1
    } else {
        top_live(stack.drop_last())
    }
}

/// The children of node `n`, or none when `n` is not in the tree.
pub open spec fn children_of(tree: KeTree, n: usize) -> Seq<usize> {
    if (n as int) < tree.nodes@.len() {
        tree.nodes@[n as int].children@
    } else {
        Seq::empty()
    }
}

/// One step of a pre-order traversal: the stack before and after, and
/// the node visited, if any.
pub open spec fn step(tree: KeTree, before: Seq<Frame>, after: Seq<Frame>, r: Option<usize>) -> bool {
    let j = top_live(before);
    if j < 0 {
        r is None && after.len() == 0
    } else {
        let f = before[j];
        let n = f.children@[f.next as int];
        &&& r == Some(n)
        &&& after.len() == j + 2
        &&& forall|k: int| 0 <= k < j ==> #[trigger] frame_view(after[k]) == frame_view(before[k])
        &&& frame_view(after[j]) == (f.children@, f.next + 1)
        &&& frame_view(after[j + 1]) == (children_of(tree, n), 0int)
    }
}

proof fn lemma_top_live_bound(stack: Seq<Frame>)
    ensures
        -1 <= top_live(stack) < stack.len(),
        top_live(stack) >= 0 ==> live(stack[top_live(stack)]),
        forall|k: int| top_live(stack) < k < stack.len() ==> !live(#[trigger] stack[k]),
    decreases stack.len(),
{
    if stack.len() > 0 && !live(stack.last()) {
        lemma_top_live_bound(stack.drop_last());
        assert forall|k: int| top_live(stack) < k < stack.len() implies !live(#[trigger] stack[k]) by {
            if k < stack.len() - 1 {
                assert(stack[k] == stack.drop_last()[k]);
            }
        }
    }
}

fn copy_ids(v: &Vec<usize>) -> (r: Vec<usize>)
    ensures
        r@ == v@,
{
    let mut r: Vec<usize> = Vec::new();
    let mut k: usize = 0;
    while k < v.len()
        invariant
            k <= v@.len(),
            r@ == v@.subrange(0, k as int),
        decreases v@.len() - k,
    {
        r.push(v[k]);
        k = k + 1;
        assert(r@ =~= v@.subrange(0, k as int));
    }
    assert(v@.subrange(0, k as int) =~= v@);
    r
}

/// Pops exhausted frames, visits the next child of the topmost frame
/// left, and pushes a frame for that child's own children. Returns the
/// child and the number of frames there were when it was found.
fn advance(stack: &mut Vec<Frame>, tree: &KeTree) -> (r: Option<(usize, usize)>)
    ensures
        step(*tree, old(stack)@, final(stack)@, match r {
            Some(p) => Some(p.0),
            None => None,
        }),
        r matches Some(p) ==> p.1 == top_live(old(stack)@) + 1,
{
    proof { lemma_top_live_bound(stack@); }
    let ghost s0 = stack@;
    let n0 = stack.len();
    loop
        invariant
            s0 == old(stack)@,
            n0 == s0.len(),
            stack@.len() <= s0.len(),
            stack@ == s0.subrange(0, stack@.len() as int),
            top_live(s0) < stack@.len(),
            top_live(stack@) == top_live(s0),
        decreases stack@.len(),
    {
        proof { lemma_top_live_bound(stack@); }
        let ghost sp = stack@;
        match stack.pop() {
            None => {
                assert(sp.len() == 0);
                assert(top_live(s0) == -1);
                assert(stack@.len() == 0);
                assert(step(*tree, s0, stack@, None));
                return None;
            },
            Some(mut f) => {
                let ghost popped = stack@;
                let ghost f0 = f;
                assert(sp == popped.push(f0));
                assert(sp.drop_last() =~= popped);
                assert(f0 == s0[popped.len() as int]);
                if f.next < f.children.len() {
                    let n = f.children[f.next];
                    let depth = stack.len() + 1;
                    assert(top_live(sp) == popped.len());
                    f.next = f.next + 1;
                    stack.push(f);
                    let kids = if n < tree.nodes.len() {
                        copy_ids(&tree.nodes[n].children)
                    } else {
                        Vec::new()
                    };
                    stack.push(Frame { children: kids, next: 0 });
                    assert forall|k: int| 0 <= k < popped.len() implies #[trigger] frame_view(stack@[k]) == frame_view(s0[k]) by {
                        assert(stack@[k] == popped[k]);
                        assert(popped[k] == sp[k]);
                        assert(sp[k] == s0.subrange(0, sp.len() as int)[k]);
                    }
                    assert(top_live(s0) == popped.len());
                    assert(stack@.len() == popped.len() + 2);
                    assert(s0[top_live(s0)] == f0);
                    assert(frame_view(stack@[popped.len() as int]) == (f0.children@, f0.next + 1));
                    assert(step(*tree, s0, stack@, Some(n)));
                    return Some((n, depth));
                } else {
                    assert(!live(f0));
                    assert(top_live(popped) == top_live(sp));
                    assert(popped =~= s0.subrange(0, popped.len() as int));
                }
            },
        }
    }
}

impl TreeIter {
    /// A traversal of the descendants of `children`, in pre-order.
    pub fn new(children: &Vec<usize>) -> (r: TreeIter)
        ensures
            r.iterators@.len() == 1,
            frame_view(r.iterators@[0]) == (children@, 0int),
    {
        let mut iterators: Vec<Frame> = Vec::new();
        iterators.push(Frame { children: copy_ids(children), next: 0 });
        TreeIter { iterators }
    }

    /// The same traversal, reporting the depth of each node.
    pub fn with_depth(self) -> (r: DepthInstrumented)
        ensures
            r.inner == self,
    {
        DepthInstrumented { inner: self }
    }

    /// The next node in pre-order, if any.
    pub fn next(&mut self, tree: &KeTree) -> (r: Option<usize>)
        ensures
            step(*tree, old(self).iterators@, final(self).iterators@, r),
    {
        match advance(&mut self.iterators, tree) {
            Some(p) => Some(p.0),
            None => None,
        }
    }
}

impl TreeIterMut {
    /// A traversal of the descendants of `children`, in pre-order.
    pub fn new(children: &Vec<usize>) -> (r: TreeIterMut)
        ensures
            r.iterators@.len() == 1,
            frame_view(r.iterators@[0]) == (children@, 0int),
    {
        let mut iterators: Vec<Frame> = Vec::new();
        iterators.push(Frame { children: copy_ids(children), next: 0 });
        TreeIterMut { iterators }
    }

    /// The next node in pre-order, if any.
    pub fn next(&mut self, tree: &KeTree) -> (r: Option<usize>)
        ensures
            step(*tree, old(self).iterators@, final(self).iterators@, r),
    {
        match advance(&mut self.iterators, tree) {
            Some(p) => Some(p.0),
            None => None,
        }
    }
}

impl DepthInstrumented {
    /// The next node in pre-order with its depth, if any.
    pub fn next(&mut self, tree: &KeTree) -> (r: Option<(usize, usize)>)
        ensures
            step(*tree, old(self).inner.iterators@, final(self).inner.iterators@, match r {
                Some(p) => Some(p.1),
                None => None,
            }),
            r matches Some(p) ==> p.0 == top_live(old(self).inner.iterators@) + 1 && p.0 >= 1,
    {
        proof { lemma_top_live_bound(self.inner.iterators@); }
        match advance(&mut self.inner.iterators, tree) {
            Some(p) => Some((p.1, p.0)),
            None => None,
        }
    }
}

} // verus!

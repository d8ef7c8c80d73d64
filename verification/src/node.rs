//! The link structure one tree keeps per record id, and the ghost shape that
//! describes how those links currently form a binary tree.
//!
//! The executable state of a tree is a slab of [`Node`] values, one per record
//! id, each holding the two child slots for that record. The ghost [`Shape`]
//! records which binary tree the slots currently spell out; [`wf_links`] ties
//! the two together. All reasoning about tree contents goes through the
//! in-order id sequence of a shape.

use vstd::prelude::*;

verus! {

/// One record's link structure for one index: two child slots, each naming
/// another record id or empty. A freshly made node has both slots empty.
#[derive(Clone, Copy)]
pub struct Node {
    /// Record id of the left child, if any.
    pub left: Option<usize>,
    /// Record id of the right child, if any.
    pub right: Option<usize>,
}

impl Node {
    /// A node with both slots empty, not linked into any tree.
    pub fn new() -> (n: Node)
        ensures
            n == (Node { left: None, right: None }),
    {
        Node { left: None, right: None }
    }
}

/// The ghost outline of a binary tree of record ids.
pub enum Shape {
    /// An empty subtree.
    Leaf,
    /// A subtree: left child shape, the id at this node, right child shape.
    Node(Box<Shape>, usize, Box<Shape>),
}

/// The in-order sequence of record ids of a shape.
pub open spec fn inorder(s: Shape) -> Seq<usize>
    decreases s,
{
    match s {
        Shape::Leaf => Seq::empty(),
        Shape::Node(l, id, r) => inorder(*l) + seq![id] + inorder(*r),
    }
}

/// The id at the root of a shape, if it has one.
pub open spec fn root_opt(s: Shape) -> Option<usize> {
    match s {
        Shape::Leaf => None,
        Shape::Node(_, id, _) => Some(id),
    }
}

/// The left subtree of a shape (a leaf's left subtree is a leaf).
pub open spec fn left_of(s: Shape) -> Shape {
    match s {
        Shape::Leaf => Shape::Leaf,
        Shape::Node(l, _, _) => *l,
    }
}

/// The right subtree of a shape.
pub open spec fn right_of(s: Shape) -> Shape {
    match s {
        Shape::Leaf => Shape::Leaf,
        Shape::Node(_, _, r) => *r,
    }
}

/// The slab agrees with the shape: every id of the shape is in bounds and its
/// two slots name exactly the roots of its two subtrees.
pub open spec fn wf_links(nodes: Seq<Node>, s: Shape) -> bool
    decreases s,
{
    match s {
        Shape::Leaf => true,
        Shape::Node(l, id, r) => {
            &&& id < nodes.len()
            &&& nodes[id as int].left == root_opt(*l)
            &&& nodes[id as int].right == root_opt(*r)
            &&& wf_links(nodes, *l)
            &&& wf_links(nodes, *r)
        },
    }
}

/// The ids of a non-leaf shape decompose around its root.
pub proof fn lemma_decompose(s: Shape)
    requires
        s matches Shape::Node(_, _, _),
    ensures
        s == Shape::Node(Box::new(left_of(s)), root_opt(s)->Some_0, Box::new(right_of(s))),
        inorder(s) == inorder(left_of(s)) + seq![root_opt(s)->Some_0] + inorder(right_of(s)),
{
}

/// A shape has no ids exactly when it is a leaf.
pub proof fn lemma_inorder_empty(s: Shape)
    ensures
        inorder(s).len() == 0 <==> s == Shape::Leaf,
{
    match s {
        Shape::Leaf => {
        },
        Shape::Node(l, id, r) => {
            assert(inorder(s).len() == inorder(*l).len() + 1 + inorder(*r).len());
        },
    }
}

/// The root id of a shape occurs in its in-order sequence.
pub proof fn lemma_root_contained(s: Shape)
    requires
        s matches Shape::Node(_, _, _),
    ensures
        inorder(s).contains(root_opt(s)->Some_0),
{
    let id = root_opt(s)->Some_0;
    lemma_decompose(s);
    assert(inorder(s)[inorder(left_of(s)).len() as int] == id);
}

/// Every id of a well-linked shape is in bounds for the slab.
pub proof fn lemma_wf_links_bounds(nodes: Seq<Node>, s: Shape)
    requires
        wf_links(nodes, s),
    ensures
        forall|j: usize| inorder(s).contains(j) ==> j < nodes.len(),
    decreases s,
{
    broadcast use vstd::seq_lib::group_seq_properties;

    match s {
        Shape::Leaf => {
        },
        Shape::Node(l, id, r) => {
            lemma_wf_links_bounds(nodes, *l);
            lemma_wf_links_bounds(nodes, *r);
            assert forall|j: usize| inorder(s).contains(j) implies j < nodes.len() by {
                assert(inorder(s) == inorder(*l) + seq![id] + inorder(*r));
                if inorder(*l).contains(j) || inorder(*r).contains(j) {
                } else {
                    let k = choose|k: int| 0 <= k < inorder(s).len() && inorder(s)[k] == j;
                    assert(j == id);
                }
            }
        },
    }
}

/// Being well-linked depends only on the slots of the ids the shape holds.
pub proof fn lemma_wf_links_frame(n1: Seq<Node>, n2: Seq<Node>, s: Shape)
    requires
        wf_links(n1, s),
        forall|j: usize| #[trigger]
            inorder(s).contains(j) ==> j < n2.len() && n2[j as int] == n1[j as int],
    ensures
        wf_links(n2, s),
    decreases s,
{
    broadcast use vstd::seq_lib::group_seq_properties;

    match s {
        Shape::Leaf => {
        },
        Shape::Node(l, id, r) => {
            lemma_root_contained(s);
            assert(inorder(s) == inorder(*l) + seq![id] + inorder(*r));
            assert forall|j: usize| #[trigger]
                inorder(*l).contains(j) implies j < n2.len() && n2[j as int] == n1[j as int] by {
                let k = choose|k: int| 0 <= k < inorder(*l).len() && inorder(*l)[k] == j;
                assert(inorder(s)[k] == j);
                assert(inorder(s).contains(j));
            }
            assert forall|j: usize| #[trigger]
                inorder(*r).contains(j) implies j < n2.len() && n2[j as int] == n1[j as int] by {
                let k = choose|k: int| 0 <= k < inorder(*r).len() && inorder(*r)[k] == j;
                assert(inorder(s)[k + inorder(*l).len() + 1] == j);
                assert(inorder(s).contains(j));
            }
            lemma_wf_links_frame(n1, n2, *l);
            lemma_wf_links_frame(n1, n2, *r);
        },
    }
}

/// Splitting a duplicate-free sequence: both halves are duplicate-free and
/// share no element.
pub proof fn lemma_no_dup_parts(a: Seq<usize>, b: Seq<usize>)
    requires
        (a + b).no_duplicates(),
    ensures
        a.no_duplicates(),
        b.no_duplicates(),
        forall|x: usize| a.contains(x) ==> !b.contains(x),
{
    broadcast use vstd::seq_lib::group_seq_properties;

    assert forall|x: usize| a.contains(x) implies !b.contains(x) by {
        if b.contains(x) {
            let i = choose|i: int| 0 <= i < a.len() && a[i] == x;
            let j = choose|j: int| 0 <= j < b.len() && b[j] == x;
            assert((a + b)[i] == (a + b)[j + a.len()]);
        }
    }
    assert forall|i: int, j: int| 0 <= i < j < a.len() implies a[i] != a[j] by {
        assert((a + b)[i] == a[i] && (a + b)[j] == a[j]);
    }
    assert forall|i: int, j: int| 0 <= i < j < b.len() implies b[i] != b[j] by {
        assert((a + b)[i + a.len()] == b[i] && (a + b)[j + a.len()] == b[j]);
    }
}

/// Ids are strictly increasing in key along the sequence.
pub open spec fn sorted_by(keys: spec_fn(usize) -> int, ids: Seq<usize>) -> bool {
    forall|i: int, j: int|
        #![trigger ids[i], ids[j]]
        0 <= i < j < ids.len() ==> keys(ids[i]) < keys(ids[j])
}

/// Membership in any of three parts gives membership in their concatenation.
pub proof fn lemma_mid3_member(a: Seq<usize>, b: Seq<usize>, c: Seq<usize>, whole: Seq<usize>, j: usize)
    requires
        whole == a + b + c,
        a.contains(j) || b.contains(j) || c.contains(j),
    ensures
        whole.contains(j),
{
    broadcast use vstd::seq_lib::group_seq_properties;

    assert((a + b + c).contains(j));
}

/// Splitting a sorted sequence: both halves are sorted and every key of the
/// first stands strictly below every key of the second.
pub proof fn lemma_sorted_parts(keys: spec_fn(usize) -> int, a: Seq<usize>, b: Seq<usize>)
    requires
        sorted_by(keys, a + b),
    ensures
        sorted_by(keys, a),
        sorted_by(keys, b),
        forall|x: usize, y: usize|
            #![trigger a.contains(x), b.contains(y)]
            a.contains(x) && b.contains(y) ==> keys(x) < keys(y),
{
    assert forall|i: int, j: int|
        #![trigger a[i], a[j]]
        0 <= i < j < a.len() implies keys(a[i]) < keys(a[j]) by {
        assert((a + b)[i] == a[i] && (a + b)[j] == a[j]);
    }
    assert forall|i: int, j: int|
        #![trigger b[i], b[j]]
        0 <= i < j < b.len() implies keys(b[i]) < keys(b[j]) by {
        assert((a + b)[i + a.len()] == b[i] && (a + b)[j + a.len()] == b[j]);
    }
    assert forall|x: usize, y: usize|
        #![trigger a.contains(x), b.contains(y)]
        a.contains(x) && b.contains(y) implies keys(x) < keys(y) by {
        let i = choose|i: int| 0 <= i < a.len() && a[i] == x;
        let j = choose|j: int| 0 <= j < b.len() && b[j] == y;
        assert((a + b)[i] == x && (a + b)[j + a.len()] == y);
    }
}

/// Removing one element keeps a sequence sorted.
pub proof fn lemma_sorted_remove(keys: spec_fn(usize) -> int, ids: Seq<usize>, k: int)
    requires
        sorted_by(keys, ids),
        0 <= k < ids.len(),
    ensures
        sorted_by(keys, ids.remove(k)),
{
    ids.remove_ensures(k);
    assert forall|i: int, j: int|
        #![trigger ids.remove(k)[i], ids.remove(k)[j]]
        0 <= i < j < ids.remove(k).len() implies keys(ids.remove(k)[i]) < keys(
        ids.remove(k)[j],
    ) by {
        let i0: int = if i < k {
            i
        } else {
            i + 1
        };
        let j0: int = if j < k {
            j
        } else {
            j + 1
        };
        assert(ids.remove(k)[i] == ids[i0]);
        assert(ids.remove(k)[j] == ids[j0]);
    }
}

/// A strictly sorted sequence holds no id twice.
pub proof fn lemma_sorted_no_dup(keys: spec_fn(usize) -> int, ids: Seq<usize>)
    requires
        sorted_by(keys, ids),
    ensures
        ids.no_duplicates(),
{
    assert forall|i: int, j: int|
        0 <= i < ids.len() && 0 <= j < ids.len() && i != j implies ids[i] != ids[j] by {
        if i < j {
            assert(keys(ids[i]) < keys(ids[j]));
        } else {
            assert(keys(ids[j]) < keys(ids[i]));
        }
    }
}

/// Removing one element leaves a duplicate-free sequence duplicate-free.
pub proof fn lemma_no_dup_remove(ids: Seq<usize>, k: int)
    requires
        ids.no_duplicates(),
        0 <= k < ids.len(),
    ensures
        ids.remove(k).no_duplicates(),
{
    ids.remove_ensures(k);
    assert forall|i: int, j: int|
        0 <= i < ids.remove(k).len() && 0 <= j < ids.remove(k).len() && i != j implies ids.remove(
        k,
    )[i] != ids.remove(k)[j] by {
        let i0: int = if i < k {
            i
        } else {
            i + 1
        };
        let j0: int = if j < k {
            j
        } else {
            j + 1
        };
        assert(ids.remove(k)[i] == ids[i0]);
        assert(ids.remove(k)[j] == ids[j0]);
    }
}

/// A new id with a key between a prefix and a pivot can be spliced in just
/// before the pivot, keeping the sequence sorted.
pub proof fn lemma_sorted_insert_before(
    keys: spec_fn(usize) -> int,
    a: Seq<usize>,
    r: usize,
    b: Seq<usize>,
    x: usize,
)
    requires
        sorted_by(keys, a + seq![r] + b),
        forall|j: usize| #[trigger] a.contains(j) ==> keys(j) < keys(x),
        keys(x) < keys(r),
    ensures
        sorted_by(keys, a + seq![x] + seq![r] + b),
{
    let u = a + seq![r] + b;
    let v = a + seq![x] + seq![r] + b;
    assert forall|i: int, j: int|
        #![trigger v[i], v[j]]
        0 <= i < j < v.len() implies keys(v[i]) < keys(v[j]) by {
        let al = a.len() as int;
        if i < al {
            assert(v[i] == a[i] && u[i] == a[i]);
            assert(a.contains(a[i]));
        } else if i == al {
            assert(v[i] == x);
        } else {
            assert(v[i] == u[i - 1]);
        }
        if j < al {
            assert(v[j] == a[j] && u[j] == a[j]);
            assert(a.contains(a[j]));
        } else if j == al {
            assert(v[j] == x);
        } else {
            assert(v[j] == u[j - 1]);
        }
        if i < al && j > al {
            assert(keys(u[i]) <= keys(u[al]) || i == al);
            assert(u[al] == r);
            if j - 1 > al {
                assert(keys(u[al]) < keys(u[j - 1]));
            }
        }
        if i == al && j > al {
            assert(u[al] == r);
            if j - 1 > al {
                assert(keys(u[al]) < keys(u[j - 1]));
            }
        }
    }
}

/// Mirror image of [`lemma_sorted_insert_before`]: splice just after the
/// pivot.
pub proof fn lemma_sorted_insert_after(
    keys: spec_fn(usize) -> int,
    a: Seq<usize>,
    r: usize,
    b: Seq<usize>,
    x: usize,
)
    requires
        sorted_by(keys, a + seq![r] + b),
        forall|j: usize| #[trigger] b.contains(j) ==> keys(x) < keys(j),
        keys(r) < keys(x),
    ensures
        sorted_by(keys, a + seq![r] + seq![x] + b),
{
    let u = a + seq![r] + b;
    let v = a + seq![r] + seq![x] + b;
    assert forall|i: int, j: int|
        #![trigger v[i], v[j]]
        0 <= i < j < v.len() implies keys(v[i]) < keys(v[j]) by {
        let al = a.len() as int;
        if i <= al {
            assert(v[i] == u[i]);
        } else if i == al + 1 {
            assert(v[i] == x);
        } else {
            assert(v[i] == u[i - 1]);
            assert(u[i - 1] == b[i - 2 - al]);
            assert(b.contains(b[i - 2 - al]));
        }
        if j <= al {
            assert(v[j] == u[j]);
        } else if j == al + 1 {
            assert(v[j] == x);
        } else {
            assert(v[j] == u[j - 1]);
            assert(u[j - 1] == b[j - 2 - al]);
            assert(b.contains(b[j - 2 - al]));
        }
        assert(u[al] == r);
        if i <= al && j >= al + 1 {
            if i < al {
                assert(keys(u[i]) < keys(u[al]));
            }
        }
    }
}

} // verus!

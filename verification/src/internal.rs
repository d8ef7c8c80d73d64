//! The erased splay engine.
//!
//! The engine keeps one binary tree of record ids, ordered by whatever
//! comparison capability each call hands it, and knows nothing about the
//! records themselves: it only rewires link slots. One implementation serves
//! every index type; the typed facade in the crate root erases its element
//! type into a [`CompareToNode`] value before calling in here.

use vstd::prelude::*;

verus! {

use core::cmp::Ordering;
use crate::node::{Node, Shape, inorder, root_opt, left_of, right_of, wf_links, sorted_by};
use crate::node::{lemma_decompose, lemma_inorder_empty, lemma_root_contained};
use crate::node::{lemma_wf_links_bounds, lemma_wf_links_frame, lemma_no_dup_parts};
use crate::node::{lemma_sorted_parts, lemma_sorted_remove, lemma_mid3_member};
use crate::chain::{lchain_wf, rchain_wf, linorder, rinorder, assemble_l, assemble_r, seg};
use crate::chain::{lemma_linorder_push, lemma_rinorder_push, lemma_linorder_members};
use crate::chain::{lemma_rinorder_members, lemma_lchain_frame, lemma_rchain_frame};
use crate::chain::{lemma_lchain_distinct, lemma_rchain_distinct, lemma_seg_members};
use crate::chain::{lemma_seg_no_dup, lemma_assemble_l, lemma_assemble_r};
use crate::chain::{lemma_grow_lchain, lemma_grow_rchain, lemma_lchain_keep, lemma_rchain_keep};
use crate::chain::{lemma_assemble_l_pure, lemma_assemble_r_pure};
use crate::chain::{lemma_lchain_bounds, lemma_rchain_bounds};
use crate::order::{QueryPos, q_cmp, lemma_q_cmp_mono};

/// Anything that can stand as "compare my key to the record behind this id".
///
/// An implementation carries, in ghost state, the integer key line of one
/// index (`node_key`) and the probe's place on it (`query`); the executable
/// comparison must agree with the two. `can_compare` says which ids the
/// capability may be asked about.
pub trait CompareToNode {
    /// The key of the record behind `node`, under this capability's index.
    spec fn node_key(&self, node: usize) -> int;

    /// Where the probe stands on the key line.
    spec fn query(&self) -> QueryPos;

    /// Which ids this capability may be asked to compare against.
    spec fn can_compare(&self, node: usize) -> bool;

    /// Compare the probe to the record behind `node`.
    fn compare_to_node(&self, node: usize) -> (r: Ordering)
        requires
            self.can_compare(node),
        ensures
            r == q_cmp(self.query(), self.node_key(node)),
    ;
}

/// The minimum-seeking probe: compares `Less` to every record.
pub(crate) struct MinNode;

impl CompareToNode for MinNode {
    open spec fn node_key(&self, node: usize) -> int {
        0
    }

    open spec fn query(&self) -> QueryPos {
        QueryPos::Below
    }

    open spec fn can_compare(&self, node: usize) -> bool {
        true
    }

    fn compare_to_node(&self, node: usize) -> (r: Ordering) {
        Ordering::Less
    }
}

/// The maximum-seeking probe: compares `Greater` to every record.
pub(crate) struct MaxNode;

impl CompareToNode for MaxNode {
    open spec fn node_key(&self, node: usize) -> int {
        0
    }

    open spec fn query(&self) -> QueryPos {
        QueryPos::Above
    }

    open spec fn can_compare(&self, node: usize) -> bool {
        true
    }

    fn compare_to_node(&self, node: usize) -> (r: Ordering) {
        Ordering::Greater
    }
}

/// How a capability compares to the record behind one id.
pub open spec fn cmp_at<C: CompareToNode>(c: &C, id: usize) -> Ordering {
    q_cmp(c.query(), c.node_key(id))
}

/// The capability's key line, as a function on ids.
pub open spec fn keys_of<C: CompareToNode>(c: &C) -> spec_fn(usize) -> int {
    |n: usize| c.node_key(n)
}

/// The whole id sequence is strictly increasing under the capability's keys.
pub open spec fn tree_sorted<C: CompareToNode>(c: &C, ids: Seq<usize>) -> bool {
    sorted_by(keys_of(c), ids)
}

/// The capability may be asked about every id of the sequence.
pub open spec fn covers<C: CompareToNode>(c: &C, ids: Seq<usize>) -> bool {
    forall|j: usize| #[trigger] ids.contains(j) ==> c.can_compare(j)
}

/// Among the ids whose records the probe stands below, `rr` carries the
/// least key: no record above the probe is nearer to it than `rr`.
pub open spec fn nearest_above<C: CompareToNode>(c: &C, ids: Seq<usize>, rr: usize) -> bool {
    forall|j: usize| #[trigger]
        ids.contains(j) && cmp_at(c, j) == Ordering::Less ==> c.node_key(rr) <= c.node_key(j)
}

/// Mirror image of [`nearest_above`]: among the ids whose records the probe
/// stands above, `rr` carries the greatest key.
pub open spec fn nearest_below<C: CompareToNode>(c: &C, ids: Seq<usize>, rr: usize) -> bool {
    forall|j: usize| #[trigger]
        ids.contains(j) && cmp_at(c, j) == Ordering::Greater ==> c.node_key(j) <= c.node_key(rr)
}

/// `rr` is the probe's best match among `ids`: it is one of them, and on
/// whichever side of the probe its record fell, no other record of that side
/// is nearer. An `Equal` root matches outright; a missed probe's root is its
/// in-order neighbour.
pub open spec fn best_match<C: CompareToNode>(c: &C, ids: Seq<usize>, rr: usize) -> bool {
    &&& ids.contains(rr)
    &&& (cmp_at(c, rr) == Ordering::Less ==> nearest_above(c, ids, rr))
    &&& (cmp_at(c, rr) == Ordering::Greater ==> nearest_below(c, ids, rr))
}

/// On a sorted tree whose root's far side holds only ids beyond the probe
/// (what the splay guarantees when it stops), the root is the probe's best
/// match.
proof fn lemma_root_is_best_match<C: CompareToNode>(c: &C, s: Shape)
    requires
        s matches Shape::Node(_, _, _),
        tree_sorted(c, inorder(s)),
        cmp_at(c, root_opt(s)->Some_0) == Ordering::Less ==> (forall|j: usize| #[trigger]
            inorder(left_of(s)).contains(j) ==> cmp_at(c, j) == Ordering::Greater),
        cmp_at(c, root_opt(s)->Some_0) == Ordering::Greater ==> (forall|j: usize| #[trigger]
            inorder(right_of(s)).contains(j) ==> cmp_at(c, j) == Ordering::Less),
    ensures
        best_match(c, inorder(s), root_opt(s)->Some_0),
{
    broadcast use vstd::seq_lib::group_seq_properties;

    let rr = root_opt(s)->Some_0;
    let la = inorder(left_of(s));
    let ra = inorder(right_of(s));
    lemma_decompose(s);
    lemma_root_contained(s);
    lemma_sorted_parts(keys_of(c), la + seq![rr], ra);
    lemma_sorted_parts(keys_of(c), la, seq![rr]);
    assert(seq![rr][0] == rr);
    assert(seq![rr].contains(rr));
    assert((la + seq![rr]).contains(rr));
    if cmp_at(c, rr) == Ordering::Less {
        assert forall|j: usize| #[trigger]
            inorder(s).contains(j) && cmp_at(c, j) == Ordering::Less implies c.node_key(rr)
            <= c.node_key(j) by {
            assert((la + seq![rr] + ra).contains(j));
            if la.contains(j) {
                assert(cmp_at(c, j) == Ordering::Greater);
            } else if seq![rr].contains(j) {
                assert(j == rr);
            } else {
                assert(ra.contains(j));
                assert(keys_of(c)(rr) < keys_of(c)(j));
            }
        }
    }
    if cmp_at(c, rr) == Ordering::Greater {
        assert forall|j: usize| #[trigger]
            inorder(s).contains(j) && cmp_at(c, j) == Ordering::Greater implies c.node_key(j)
            <= c.node_key(rr) by {
            assert((la + seq![rr] + ra).contains(j));
            if ra.contains(j) {
                assert(cmp_at(c, j) == Ordering::Less);
            } else if seq![rr].contains(j) {
                assert(j == rr);
            } else {
                assert(la.contains(j));
                assert(keys_of(c)(j) < keys_of(c)(rr));
            }
        }
    }
}

/// Replace the left slot of one node, leaving every other node unchanged.
fn set_left(nodes: &mut Vec<Node>, i: usize, v: Option<usize>)
    requires
        i < old(nodes)@.len(),
    ensures
        final(nodes)@.len() == old(nodes)@.len(),
        final(nodes)@[i as int].left == v,
        final(nodes)@[i as int].right == old(nodes)@[i as int].right,
        forall|j: int| 0 <= j < old(nodes)@.len() && j != i ==> final(nodes)@[j] == old(nodes)@[j],
{
    let r = nodes[i].right;
    nodes.set(i, Node { left: v, right: r });
}

/// Replace the right slot of one node, leaving every other node unchanged.
fn set_right(nodes: &mut Vec<Node>, i: usize, v: Option<usize>)
    requires
        i < old(nodes)@.len(),
    ensures
        final(nodes)@.len() == old(nodes)@.len(),
        final(nodes)@[i as int].right == v,
        final(nodes)@[i as int].left == old(nodes)@[i as int].left,
        forall|j: int| 0 <= j < old(nodes)@.len() && j != i ==> final(nodes)@[j] == old(nodes)@[j],
{
    let l = nodes[i].left;
    nodes.set(i, Node { left: l, right: v });
}

/// One splay tree of record ids: a slab of link slots and the current root.
pub struct SplayTree {
    nodes: Vec<Node>,
    root: Option<usize>,
    shape: Ghost<Shape>,
}

impl SplayTree {
    /// The in-order sequence of record ids currently in the tree.
    pub closed spec fn ids(self) -> Seq<usize> {
        inorder(self.shape@)
    }

    /// The id at the root, if the tree is non-empty.
    pub closed spec fn root_id(self) -> Option<usize> {
        self.root
    }

    /// The slots spell out the ghost shape, no id occurs twice, and every id
    /// outside the tree has both of its slots empty.
    pub closed spec fn wf(self) -> bool {
        &&& wf_links(self.nodes@, self.shape@)
        &&& self.root == root_opt(self.shape@)
        &&& inorder(self.shape@).no_duplicates()
        &&& forall|i: usize|
            i < self.nodes@.len() && !inorder(self.shape@).contains(i) ==> self.nodes@[i as int]
                == (Node { left: None, right: None })
    }

    /// A well-formed tree's root id is one of its ids, and it has a root
    /// exactly when it is non-empty.
    pub proof fn lemma_root_id(self)
        requires
            self.wf(),
        ensures
            self.root_id() matches Some(i) ==> self.ids().contains(i),
            self.root_id() is Some <==> self.ids().len() > 0,
    {
        lemma_inorder_empty(self.shape@);
        if self.shape@ matches Shape::Node(_, _, _) {
            lemma_root_contained(self.shape@);
        }
    }

    /// Construct a new, empty tree.
    pub fn new() -> (t: Self)
        ensures
            t.wf(),
            t.ids() == Seq::<usize>::empty(),
            t.root_id() == None::<usize>,
    {
        SplayTree { nodes: Vec::new(), root: None, shape: Ghost(Shape::Leaf) }
    }

    /// Is this tree empty?
    pub fn is_empty(&self) -> (r: bool)
        requires
            self.wf(),
        ensures
            r <==> self.ids().len() == 0,
    {
        proof {
            lemma_inorder_empty(self.shape@);
        }
        self.root.is_none()
    }

    /// The id at the root, if any.
    pub fn root(&self) -> (r: Option<usize>)
        ensures
            r == self.root_id(),
    {
        self.root
    }

    /// Append the in-order ids under `at` (whose shape is `s`) to `out`.
    fn inorder_into(nodes: &Vec<Node>, at: Option<usize>, Ghost(s): Ghost<Shape>, out: &mut Vec<
        usize,
    >)
        requires
            wf_links(nodes@, s),
            root_opt(s) == at,
        ensures
            final(out)@ == old(out)@ + inorder(s),
        decreases s,
    {
        match at {
            None => {
                proof {
                    if s matches Shape::Node(_, _, _) {
                        assert(root_opt(s) is Some);
                    }
                    assert(old(out)@ + inorder(s) =~= old(out)@);
                }
            },
            Some(i) => {
                proof {
                    lemma_decompose(s);
                }
                let ghost l = left_of(s);
                let ghost r = right_of(s);
                Self::inorder_into(nodes, nodes[i].left, Ghost(l), out);
                out.push(i);
                Self::inorder_into(nodes, nodes[i].right, Ghost(r), out);
                proof {
                    assert(out@ =~= old(out)@ + inorder(s));
                }
            },
        }
    }

    /// Walk the tree in order, collecting the record ids.
    pub fn walk(&self) -> (out: Vec<usize>)
        requires
            self.wf(),
        ensures
            out@ == self.ids(),
    {
        let mut out: Vec<usize> = Vec::new();
        Self::inorder_into(&self.nodes, self.root, Ghost(self.shape@), &mut out);
        proof {
            assert(out@ =~= self.ids());
        }
        out
    }
}


impl Default for SplayTree {
    /// Construct a new, empty tree, as [`SplayTree::new`] does.
    fn default() -> (t: Self)
        ensures
            t.wf(),
            t.ids() == Seq::<usize>::empty(),
            t.root_id() == None::<usize>,
    {
        SplayTree::new()
    }
}

/// Rotate right at `current`, whose left child `current_left` is about to be
/// descended past twice (the zig-zig case). Afterwards `current_left` is the
/// subtree's root, keeping its left subtree; `current` hangs to its right
/// with its own right subtree; the in-order ids are untouched.
#[verifier::rlimit(60)]
fn rotate_right(nodes: &mut Vec<Node>, current: usize, current_left: usize, Ghost(cs): Ghost<
    Shape,
>) -> (gs: Ghost<Shape>)
    requires
        wf_links(old(nodes)@, cs),
        inorder(cs).no_duplicates(),
        root_opt(cs) == Some(current),
        root_opt(left_of(cs)) == Some(current_left),
    ensures
        gs@ == Shape::Node(
            Box::new(left_of(left_of(cs))),
            current_left,
            Box::new(
                Shape::Node(Box::new(right_of(left_of(cs))), current, Box::new(right_of(cs))),
            ),
        ),
        wf_links(final(nodes)@, gs@),
        inorder(gs@) == inorder(cs),
        final(nodes)@.len() == old(nodes)@.len(),
        forall|i: usize|
            i < old(nodes)@.len() && !inorder(cs).contains(i) ==> final(nodes)@[i as int] == old(
                nodes,
            )@[i as int],
{
    broadcast use vstd::seq_lib::group_seq_properties;

    let ghost csl = left_of(cs);
    let ghost csr = right_of(cs);
    let ghost aa = left_of(csl);
    let ghost bb = right_of(csl);
    let ghost pre = nodes@;
    proof {
        lemma_decompose(cs);
        lemma_decompose(csl);
        lemma_root_contained(cs);
        lemma_root_contained(csl);
        lemma_wf_links_bounds(nodes@, cs);
        lemma_no_dup_parts(inorder(csl) + seq![current], inorder(csr));
        lemma_no_dup_parts(inorder(csl), seq![current]);
        lemma_no_dup_parts(inorder(aa) + seq![current_left], inorder(bb));
        lemma_no_dup_parts(inorder(aa), seq![current_left]);
        assert(seq![current][0] == current);
        assert(seq![current_left][0] == current_left);
        assert(seq![current].contains(current));
        assert(seq![current_left].contains(current_left));
        assert((inorder(aa) + seq![current_left]).contains(current_left));
        assert((inorder(csl) + seq![current]).contains(current));
        assert(inorder(csl).contains(current_left));
        assert((inorder(csl) + seq![current]).contains(current_left));
        assert(!inorder(csl).contains(current));
        assert(current != current_left);
        lemma_mid3_member(inorder(csl), seq![current], inorder(csr), inorder(cs), current_left);
        assert(inorder(cs).contains(current_left));
        assert(inorder(cs).contains(current));
        assert(wf_links(nodes@, csl));
        assert(wf_links(nodes@, csr));
        assert(wf_links(nodes@, aa));
        assert(wf_links(nodes@, bb));
        assert(nodes@[current as int].left == root_opt(csl));
        assert(nodes@[current as int].right == root_opt(csr));
        assert(nodes@[current_left as int].left == root_opt(aa));
        assert(nodes@[current_left as int].right == root_opt(bb));
    }
    let cl_right = nodes[current_left].right;
    set_left(nodes, current, cl_right);
    set_right(nodes, current_left, Some(current));
    let ghost gs2 = Shape::Node(
        Box::new(aa),
        current_left,
        Box::new(Shape::Node(Box::new(bb), current, Box::new(csr))),
    );
    proof {
        assert forall|j: usize| #[trigger]
            inorder(aa).contains(j) implies j < nodes@.len() && nodes@[j as int]
            == pre[j as int] by {
            lemma_mid3_member(inorder(aa), seq![current_left], inorder(bb), inorder(csl), j);
            lemma_mid3_member(inorder(csl), seq![current], inorder(csr), inorder(cs), j);
        }
        assert forall|j: usize| #[trigger]
            inorder(bb).contains(j) implies j < nodes@.len() && nodes@[j as int]
            == pre[j as int] by {
            lemma_mid3_member(inorder(aa), seq![current_left], inorder(bb), inorder(csl), j);
            lemma_mid3_member(inorder(csl), seq![current], inorder(csr), inorder(cs), j);
        }
        assert forall|j: usize| #[trigger]
            inorder(csr).contains(j) implies j < nodes@.len() && nodes@[j as int]
            == pre[j as int] by {
            lemma_mid3_member(inorder(csl), seq![current], inorder(csr), inorder(cs), j);
            assert((inorder(csl) + seq![current]).contains(current));
            assert((inorder(csl) + seq![current]).contains(current_left));
        }
        lemma_wf_links_frame(pre, nodes@, aa);
        lemma_wf_links_frame(pre, nodes@, bb);
        lemma_wf_links_frame(pre, nodes@, csr);
        let inner = Shape::Node(Box::new(bb), current, Box::new(csr));
        assert(gs2 == Shape::Node(Box::new(aa), current_left, Box::new(inner)));
        assert(wf_links(nodes@, inner));
        assert(inorder(inner) == inorder(bb) + seq![current] + inorder(csr));
        assert(wf_links(nodes@, gs2));
        assert(inorder(gs2) == inorder(aa) + seq![current_left] + inorder(inner));
        assert(inorder(gs2) =~= inorder(cs));
    }
    Ghost(gs2)
}

/// Mirror image of [`rotate_right`]: rotate left at `current` around its
/// right child.
#[verifier::rlimit(60)]
fn rotate_left(nodes: &mut Vec<Node>, current: usize, current_right: usize, Ghost(cs): Ghost<
    Shape,
>) -> (gs: Ghost<Shape>)
    requires
        wf_links(old(nodes)@, cs),
        inorder(cs).no_duplicates(),
        root_opt(cs) == Some(current),
        root_opt(right_of(cs)) == Some(current_right),
    ensures
        gs@ == Shape::Node(
            Box::new(Shape::Node(Box::new(left_of(cs)), current, Box::new(left_of(right_of(cs))))),
            current_right,
            Box::new(right_of(right_of(cs))),
        ),
        wf_links(final(nodes)@, gs@),
        inorder(gs@) == inorder(cs),
        final(nodes)@.len() == old(nodes)@.len(),
        forall|i: usize|
            i < old(nodes)@.len() && !inorder(cs).contains(i) ==> final(nodes)@[i as int] == old(
                nodes,
            )@[i as int],
{
    broadcast use vstd::seq_lib::group_seq_properties;

    let ghost csl = left_of(cs);
    let ghost csr = right_of(cs);
    let ghost bb = left_of(csr);
    let ghost dd = right_of(csr);
    let ghost pre = nodes@;
    proof {
        lemma_decompose(cs);
        lemma_decompose(csr);
        lemma_root_contained(cs);
        lemma_root_contained(csr);
        lemma_wf_links_bounds(nodes@, cs);
        lemma_no_dup_parts(inorder(csl) + seq![current], inorder(csr));
        lemma_no_dup_parts(inorder(csl), seq![current]);
        lemma_no_dup_parts(inorder(bb) + seq![current_right], inorder(dd));
        lemma_no_dup_parts(inorder(bb), seq![current_right]);
        assert(seq![current][0] == current);
        assert(seq![current_right][0] == current_right);
        assert(seq![current].contains(current));
        assert(seq![current_right].contains(current_right));
        assert((inorder(bb) + seq![current_right]).contains(current_right));
        assert((inorder(csl) + seq![current]).contains(current));
        assert(inorder(csr).contains(current_right));
        assert(!inorder(csl).contains(current));
        assert(!inorder(csr).contains(current)) by {
            assert((inorder(csl) + seq![current]).contains(current));
        }
        assert(current != current_right);
        lemma_mid3_member(inorder(csl), seq![current], inorder(csr), inorder(cs), current_right);
        assert(inorder(cs).contains(current_right));
        assert(inorder(cs).contains(current));
        assert(wf_links(nodes@, csl));
        assert(wf_links(nodes@, csr));
        assert(wf_links(nodes@, bb));
        assert(wf_links(nodes@, dd));
        assert(nodes@[current as int].left == root_opt(csl));
        assert(nodes@[current as int].right == root_opt(csr));
        assert(nodes@[current_right as int].left == root_opt(bb));
        assert(nodes@[current_right as int].right == root_opt(dd));
    }
    let cr_left = nodes[current_right].left;
    set_right(nodes, current, cr_left);
    set_left(nodes, current_right, Some(current));
    let ghost gs2 = Shape::Node(
        Box::new(Shape::Node(Box::new(csl), current, Box::new(bb))),
        current_right,
        Box::new(dd),
    );
    proof {
        assert forall|j: usize| #[trigger]
            inorder(csl).contains(j) implies j < nodes@.len() && nodes@[j as int]
            == pre[j as int] by {
            lemma_mid3_member(inorder(csl), seq![current], inorder(csr), inorder(cs), j);
            assert((inorder(bb) + seq![current_right]).contains(current_right));
            if inorder(csr).contains(j) {
                assert((inorder(csl) + seq![current]).contains(j));
            }
            if j == current_right {
                assert(inorder(csr).contains(j));
            }
        }
        assert forall|j: usize| #[trigger]
            inorder(bb).contains(j) implies j < nodes@.len() && nodes@[j as int]
            == pre[j as int] by {
            lemma_mid3_member(inorder(bb), seq![current_right], inorder(dd), inorder(csr), j);
            lemma_mid3_member(inorder(csl), seq![current], inorder(csr), inorder(cs), j);
            assert((inorder(csl) + seq![current]).contains(current));
            if j == current {
                assert(inorder(csr).contains(current));
            }
        }
        assert forall|j: usize| #[trigger]
            inorder(dd).contains(j) implies j < nodes@.len() && nodes@[j as int]
            == pre[j as int] by {
            lemma_mid3_member(inorder(bb), seq![current_right], inorder(dd), inorder(csr), j);
            lemma_mid3_member(inorder(csl), seq![current], inorder(csr), inorder(cs), j);
            assert((inorder(bb) + seq![current_right]).contains(current_right));
            if j == current {
                assert(inorder(csr).contains(current));
            }
        }
        lemma_wf_links_frame(pre, nodes@, csl);
        lemma_wf_links_frame(pre, nodes@, bb);
        lemma_wf_links_frame(pre, nodes@, dd);
        let inner = Shape::Node(Box::new(csl), current, Box::new(bb));
        assert(gs2 == Shape::Node(Box::new(inner), current_right, Box::new(dd)));
        assert(wf_links(nodes@, inner));
        assert(inorder(inner) == inorder(csl) + seq![current] + inorder(bb));
        assert(wf_links(nodes@, gs2));
        assert(inorder(gs2) == inorder(inner) + seq![current_right] + inorder(dd));
        assert(inorder(gs2) =~= inorder(cs));
    }
    Ghost(gs2)
}

/// When the probe stands left of the subtree's root, everything parked with
/// the root in the right chain still compares `Less`.
proof fn lemma_park_right_sorted<C: CompareToNode>(
    c: &C,
    lch: Seq<(usize, Shape)>,
    cs: Shape,
    rch: Seq<(usize, Shape)>,
    current: usize,
)
    requires
        tree_sorted(c, seg(lch, cs, rch)),
        cs matches Shape::Node(_, _, _),
        root_opt(cs) == Some(current),
        cmp_at(c, current) == Ordering::Less,
        forall|j: usize| #[trigger] rinorder(rch).contains(j) ==> cmp_at(c, j) == Ordering::Less,
    ensures
        forall|j: usize| #[trigger]
            rinorder(rch.push((current, right_of(cs)))).contains(j) ==> cmp_at(c, j)
                == Ordering::Less,
{
    broadcast use vstd::seq_lib::group_seq_properties;

    let dleft = left_of(cs);
    let dright = right_of(cs);
    lemma_decompose(cs);
    lemma_rinorder_push(rch, current, dright);
    lemma_sorted_parts(keys_of(c), linorder(lch) + inorder(cs), rinorder(rch));
    lemma_sorted_parts(keys_of(c), linorder(lch), inorder(cs));
    lemma_sorted_parts(keys_of(c), inorder(dleft) + seq![current], inorder(dright));
    assert(seq![current][0] == current);
    assert((inorder(dleft) + seq![current]).contains(current));
    assert forall|j: usize| #[trigger]
        rinorder(rch.push((current, dright))).contains(j) implies cmp_at(c, j)
        == Ordering::Less by {
        assert((seq![current] + inorder(dright) + rinorder(rch)).contains(j));
        if rinorder(rch).contains(j) {
        } else if seq![current].contains(j) {
            assert(j == current);
        } else {
            assert(inorder(dright).contains(j));
            assert(keys_of(c)(current) < keys_of(c)(j));
            lemma_q_cmp_mono(c.query(), c.node_key(current), c.node_key(j));
        }
    }
}

/// Mirror image of [`lemma_park_right_sorted`].
proof fn lemma_park_left_sorted<C: CompareToNode>(
    c: &C,
    lch: Seq<(usize, Shape)>,
    cs: Shape,
    rch: Seq<(usize, Shape)>,
    current: usize,
)
    requires
        tree_sorted(c, seg(lch, cs, rch)),
        cs matches Shape::Node(_, _, _),
        root_opt(cs) == Some(current),
        cmp_at(c, current) == Ordering::Greater,
        forall|j: usize| #[trigger]
            linorder(lch).contains(j) ==> cmp_at(c, j) == Ordering::Greater,
    ensures
        forall|j: usize| #[trigger]
            linorder(lch.push((current, left_of(cs)))).contains(j) ==> cmp_at(c, j)
                == Ordering::Greater,
{
    broadcast use vstd::seq_lib::group_seq_properties;

    let dleft = left_of(cs);
    let dright = right_of(cs);
    lemma_decompose(cs);
    lemma_linorder_push(lch, current, dleft);
    lemma_sorted_parts(keys_of(c), linorder(lch) + inorder(cs), rinorder(rch));
    lemma_sorted_parts(keys_of(c), linorder(lch), inorder(cs));
    lemma_sorted_parts(keys_of(c), inorder(dleft) + seq![current], inorder(dright));
    lemma_sorted_parts(keys_of(c), inorder(dleft), seq![current]);
    assert(seq![current][0] == current);
    assert(seq![current].contains(current));
    assert forall|j: usize| #[trigger]
        linorder(lch.push((current, dleft))).contains(j) implies cmp_at(c, j)
        == Ordering::Greater by {
        assert((linorder(lch) + inorder(dleft) + seq![current]).contains(j));
        if linorder(lch).contains(j) {
        } else if seq![current].contains(j) {
            assert(j == current);
        } else {
            assert(inorder(dleft).contains(j));
            assert(keys_of(c)(j) < keys_of(c)(current));
            lemma_q_cmp_mono(c.query(), c.node_key(j), c.node_key(current));
        }
    }
}

/// After the descent stops, the probe-facing extremes: if the probe compared
/// `Less` to every id, nothing was ever parked left and the stopping node is
/// the first id; mirrored for `Greater`.
proof fn lemma_splay_extremes<C: CompareToNode>(
    c: &C,
    lch: Seq<(usize, Shape)>,
    cs: Shape,
    rch: Seq<(usize, Shape)>,
    current: usize,
    ids0: Seq<usize>,
    s1: Shape,
)
    requires
        seg(lch, cs, rch) == ids0,
        cs matches Shape::Node(_, _, _),
        root_opt(cs) == Some(current),
        cmp_at(c, current) == Ordering::Less ==> left_of(cs) == Shape::Leaf,
        cmp_at(c, current) == Ordering::Greater ==> right_of(cs) == Shape::Leaf,
        forall|k: int|
            0 <= k < lch.len() ==> cmp_at(c, (#[trigger] lch[k]).0) == Ordering::Greater,
        forall|k: int| 0 <= k < rch.len() ==> cmp_at(c, (#[trigger] rch[k]).0) == Ordering::Less,
        s1 == Shape::Node(
            Box::new(assemble_l(lch, left_of(cs))),
            current,
            Box::new(assemble_r(rch, right_of(cs))),
        ),
        inorder(s1) == ids0,
    ensures
        (forall|j: usize| #[trigger] ids0.contains(j) ==> cmp_at(c, j) == Ordering::Less)
            ==> current == ids0[0] && left_of(s1) == Shape::Leaf,
        (forall|j: usize| #[trigger] ids0.contains(j) ==> cmp_at(c, j) == Ordering::Greater)
            ==> current == ids0.last() && right_of(s1) == Shape::Leaf,
{
    broadcast use vstd::seq_lib::group_seq_properties;

    lemma_decompose(cs);
    lemma_seg_members(lch, cs, rch);
    lemma_root_contained(cs);
    lemma_linorder_members(lch);
    lemma_rinorder_members(rch);
    assert(inorder(cs).contains(current));
    assert(ids0.contains(current));
    if forall|j: usize| #[trigger] ids0.contains(j) ==> cmp_at(c, j) == Ordering::Less {
        assert(cmp_at(c, current) == Ordering::Less);
        assert(left_of(cs) == Shape::Leaf);
        if lch.len() > 0 {
            assert(linorder(lch).contains(lch[0].0));
            assert(ids0.contains(lch[0].0));
            assert(cmp_at(c, lch[0].0) == Ordering::Greater);
        }
        assert(lch.len() == 0);
        assert(left_of(s1) == Shape::Leaf);
        assert(inorder(s1) == inorder(left_of(s1)) + seq![current] + inorder(right_of(s1)));
        assert(inorder(s1)[0] == current);
    }
    if forall|j: usize| #[trigger] ids0.contains(j) ==> cmp_at(c, j) == Ordering::Greater {
        assert(cmp_at(c, current) == Ordering::Greater);
        assert(right_of(cs) == Shape::Leaf);
        if rch.len() > 0 {
            assert(rinorder(rch).contains(rch[0].0));
            assert(ids0.contains(rch[0].0));
            assert(cmp_at(c, rch[0].0) == Ordering::Less);
        }
        assert(rch.len() == 0);
        assert(right_of(s1) == Shape::Leaf);
        assert(inorder(s1) == inorder(left_of(s1)) + seq![current] + inorder(right_of(s1)));
        assert(inorder(s1).last() == current);
    }
}

/// After the descent stops on a sorted tree: an `Equal` id, if any, is the
/// stopping node, and everything on the probe's side of the new root lies
/// strictly on that side of the probe.
proof fn lemma_splay_sorted<C: CompareToNode>(
    c: &C,
    lch: Seq<(usize, Shape)>,
    cs: Shape,
    rch: Seq<(usize, Shape)>,
    current: usize,
    ids0: Seq<usize>,
    s1: Shape,
)
    requires
        tree_sorted(c, ids0),
        seg(lch, cs, rch) == ids0,
        cs matches Shape::Node(_, _, _),
        root_opt(cs) == Some(current),
        cmp_at(c, current) == Ordering::Less ==> left_of(cs) == Shape::Leaf,
        cmp_at(c, current) == Ordering::Greater ==> right_of(cs) == Shape::Leaf,
        forall|j: usize| #[trigger]
            linorder(lch).contains(j) ==> cmp_at(c, j) == Ordering::Greater,
        forall|j: usize| #[trigger] rinorder(rch).contains(j) ==> cmp_at(c, j) == Ordering::Less,
        s1 == Shape::Node(
            Box::new(assemble_l(lch, left_of(cs))),
            current,
            Box::new(assemble_r(rch, right_of(cs))),
        ),
        inorder(assemble_l(lch, left_of(cs))) == linorder(lch) + inorder(left_of(cs)),
        inorder(assemble_r(rch, right_of(cs))) == inorder(right_of(cs)) + rinorder(rch),
    ensures
        (exists|j: usize| #[trigger] ids0.contains(j) && cmp_at(c, j) == Ordering::Equal)
            ==> cmp_at(c, current) == Ordering::Equal,
        cmp_at(c, current) == Ordering::Less ==> forall|j: usize| #[trigger]
            inorder(left_of(s1)).contains(j) ==> cmp_at(c, j) == Ordering::Greater,
        cmp_at(c, current) == Ordering::Greater ==> forall|j: usize| #[trigger]
            inorder(right_of(s1)).contains(j) ==> cmp_at(c, j) == Ordering::Less,
{
    broadcast use vstd::seq_lib::group_seq_properties;

    let hole_l = left_of(cs);
    let hole_r = right_of(cs);
    lemma_decompose(cs);
    lemma_sorted_parts(keys_of(c), linorder(lch) + inorder(cs), rinorder(rch));
    lemma_sorted_parts(keys_of(c), linorder(lch), inorder(cs));
    lemma_sorted_parts(keys_of(c), inorder(hole_l) + seq![current], inorder(hole_r));
    lemma_sorted_parts(keys_of(c), inorder(hole_l), seq![current]);
    assert(seq![current][0] == current);
    assert(seq![current].contains(current));
    assert((inorder(hole_l) + seq![current]).contains(current));
    if exists|j: usize| #[trigger] ids0.contains(j) && cmp_at(c, j) == Ordering::Equal {
        let j = choose|j: usize| #[trigger] ids0.contains(j) && cmp_at(c, j) == Ordering::Equal;
        assert(seg(lch, cs, rch).contains(j));
        assert(inorder(cs).contains(j)) by {
            if linorder(lch).contains(j) {
                assert(cmp_at(c, j) == Ordering::Greater);
            }
            if rinorder(rch).contains(j) {
                assert(cmp_at(c, j) == Ordering::Less);
            }
        }
        match cmp_at(c, current) {
            Ordering::Equal => {
            },
            Ordering::Less => {
                assert(hole_l == Shape::Leaf);
                if j != current {
                    assert(inorder(hole_r).contains(j)) by {
                        assert(inorder(cs) == inorder(hole_l) + seq![current] + inorder(hole_r));
                    }
                    assert(keys_of(c)(current) < keys_of(c)(j));
                    lemma_q_cmp_mono(c.query(), c.node_key(current), c.node_key(j));
                    assert(cmp_at(c, j) == Ordering::Less);
                }
                assert(false);
            },
            Ordering::Greater => {
                assert(hole_r == Shape::Leaf);
                if j != current {
                    assert(inorder(hole_l).contains(j)) by {
                        assert(inorder(cs) == inorder(hole_l) + seq![current] + inorder(hole_r));
                    }
                    assert(keys_of(c)(j) < keys_of(c)(current));
                    lemma_q_cmp_mono(c.query(), c.node_key(j), c.node_key(current));
                    assert(cmp_at(c, j) == Ordering::Greater);
                }
                assert(false);
            },
        }
    }
    if cmp_at(c, current) == Ordering::Less {
        assert(hole_l == Shape::Leaf);
        assert forall|j: usize| #[trigger]
            inorder(left_of(s1)).contains(j) implies cmp_at(c, j) == Ordering::Greater by {
            assert(linorder(lch).contains(j)) by {
                assert(inorder(left_of(s1)) =~= linorder(lch));
            }
        }
    }
    if cmp_at(c, current) == Ordering::Greater {
        assert(hole_r == Shape::Leaf);
        assert forall|j: usize| #[trigger]
            inorder(right_of(s1)).contains(j) implies cmp_at(c, j) == Ordering::Less by {
            assert(rinorder(rch).contains(j)) by {
                assert(inorder(right_of(s1)) =~= rinorder(rch));
            }
        }
    }
}

/// Writes inside the descended subtree leave both accumulator chains intact.
proof fn lemma_chains_after_subtree_writes(
    pre: Seq<Node>,
    now: Seq<Node>,
    lch: Seq<(usize, Shape)>,
    rch: Seq<(usize, Shape)>,
    cs: Shape,
    ids0: Seq<usize>,
)
    requires
        lchain_wf(pre, lch),
        rchain_wf(pre, rch),
        seg(lch, cs, rch) == ids0,
        ids0.no_duplicates(),
        forall|j: usize| #[trigger] ids0.contains(j) ==> j < pre.len(),
        now.len() == pre.len(),
        forall|i: usize|
            i < pre.len() && !inorder(cs).contains(i) ==> now[i as int] == pre[i as int],
    ensures
        lchain_wf(now, lch),
        rchain_wf(now, rch),
        forall|i: usize| i < pre.len() && !ids0.contains(i) ==> now[i as int] == pre[i as int],
{
    lemma_seg_no_dup(lch, cs, rch);
    lemma_seg_members(lch, cs, rch);
    assert forall|j: usize| #[trigger] linorder(lch).contains(j) implies now[j as int]
        == pre[j as int] by {
        assert(seg(lch, cs, rch).contains(j));
        assert(ids0.contains(j));
        assert(!inorder(cs).contains(j));
    }
    lemma_lchain_frame(pre, now, lch);
    assert forall|j: usize| #[trigger] rinorder(rch).contains(j) implies now[j as int]
        == pre[j as int] by {
        assert(seg(lch, cs, rch).contains(j));
        assert(ids0.contains(j));
        assert(!inorder(cs).contains(j)) by {
            if inorder(cs).contains(j) {
                assert(!rinorder(rch).contains(j));
            }
        }
    }
    lemma_rchain_frame(pre, now, rch);
    assert forall|i: usize| i < pre.len() && !ids0.contains(i) implies now[i as int]
        == pre[i as int] by {
        if inorder(cs).contains(i) {
            assert(seg(lch, cs, rch).contains(i));
        }
    }
}

/// Park the subtree's root, which the probe stands left of, in the right
/// chain: its right subtree goes with it, the chain's hole is pointed at it,
/// and the left subtree remains to be descended.
#[verifier::rlimit(60)]
fn park_right<C: CompareToNode>(
    nodes: &mut Vec<Node>,
    c: &C,
    current: usize,
    r_tail: Option<usize>,
    Ghost(lch): Ghost<Seq<(usize, Shape)>>,
    Ghost(rch): Ghost<Seq<(usize, Shape)>>,
    Ghost(cs): Ghost<Shape>,
    Ghost(ids0): Ghost<Seq<usize>>,
)
    requires
        wf_links(old(nodes)@, cs),
        root_opt(cs) == Some(current),
        lchain_wf(old(nodes)@, lch),
        rchain_wf(old(nodes)@, rch),
        seg(lch, cs, rch) == ids0,
        ids0.no_duplicates(),
        forall|j: usize| #[trigger] ids0.contains(j) ==> j < old(nodes)@.len(),
        rch.len() == 0 <==> r_tail is None,
        rch.len() > 0 ==> r_tail == Some(rch.last().0),
        cmp_at(c, current) == Ordering::Less,
        forall|k: int| 0 <= k < rch.len() ==> cmp_at(c, (#[trigger] rch[k]).0) == Ordering::Less,
        tree_sorted(c, ids0) ==> (forall|j: usize| #[trigger]
            rinorder(rch).contains(j) ==> cmp_at(c, j) == Ordering::Less),
    ensures
        final(nodes)@.len() == old(nodes)@.len(),
        wf_links(final(nodes)@, left_of(cs)),
        lchain_wf(final(nodes)@, lch),
        rchain_wf(final(nodes)@, rch.push((current, right_of(cs)))),
        seg(lch, left_of(cs), rch.push((current, right_of(cs)))) == ids0,
        forall|i: usize|
            i < old(nodes)@.len() && !ids0.contains(i) ==> final(nodes)@[i as int] == old(
                nodes,
            )@[i as int],
        forall|k: int|
            0 <= k < rch.push((current, right_of(cs))).len() ==> cmp_at(
                c,
                (#[trigger] rch.push((current, right_of(cs)))[k]).0,
            ) == Ordering::Less,
        tree_sorted(c, ids0) ==> (forall|j: usize| #[trigger]
            rinorder(rch.push((current, right_of(cs)))).contains(j) ==> cmp_at(c, j)
                == Ordering::Less),
{
    proof {
        lemma_decompose(cs);
        lemma_seg_no_dup(lch, cs, rch);
        lemma_seg_members(lch, cs, rch);
        lemma_root_contained(cs);
        lemma_rinorder_members(rch);
        lemma_wf_links_bounds(nodes@, cs);
        assert(inorder(cs).contains(current));
        assert(ids0.contains(current));
    }
    let ghost pre2 = nodes@;
    if r_tail.is_some() {
        let rt = r_tail.unwrap();
        proof {
            assert(rch.len() > 0);
            assert(rch[rch.len() - 1] == rch.last());
            assert(rt == rch.last().0);
            assert(rinorder(rch).contains(rt));
            assert(seg(lch, cs, rch).contains(rt));
            assert(ids0.contains(rt));
            assert(rt < nodes@.len());
            assert(!inorder(cs).contains(rt));
            assert(!linorder(lch).contains(rt)) by {
                if linorder(lch).contains(rt) {
                    assert(!rinorder(rch).contains(rt));
                }
            }
        }
        set_left(nodes, rt, Some(current));
    }
    proof {
        let dleft = left_of(cs);
        let dright = right_of(cs);
        let rch2 = rch.push((current, dright));
        assert forall|j: usize| #[trigger]
            inorder(cs).contains(j) implies j < nodes@.len() && nodes@[j as int]
            == pre2[j as int] by {
            assert(seg(lch, cs, rch).contains(j));
            assert(ids0.contains(j));
            if rch.len() > 0 {
                assert(rch[rch.len() - 1] == rch.last());
                assert(rinorder(rch).contains(rch.last().0));
                assert(!inorder(cs).contains(rch.last().0));
            }
        }
        lemma_wf_links_frame(pre2, nodes@, cs);
        assert forall|j: usize| #[trigger] linorder(lch).contains(j) implies nodes@[j as int]
            == pre2[j as int] by {
            assert(seg(lch, cs, rch).contains(j));
            assert(ids0.contains(j));
            if rch.len() > 0 {
                assert(rch[rch.len() - 1] == rch.last());
                assert(rinorder(rch).contains(rch.last().0));
                assert(!rinorder(rch).contains(j));
            }
        }
        lemma_lchain_frame(pre2, nodes@, lch);
        lemma_grow_rchain(pre2, nodes@, rch, current, dright);
        lemma_rinorder_push(rch, current, dright);
        assert(seg(lch, dleft, rch2) =~= seg(lch, cs, rch));
        assert forall|k: int| 0 <= k < rch2.len() implies cmp_at(c, (#[trigger] rch2[k]).0)
            == Ordering::Less by {
            if k < rch.len() {
                assert(rch2[k] == rch[k]);
            } else {
                assert(rch2[k] == (current, dright));
            }
        }
        if tree_sorted(c, ids0) {
            lemma_park_right_sorted(c, lch, cs, rch, current);
        }
        assert forall|i: usize|
            i < pre2.len() && !ids0.contains(i) implies nodes@[i as int] == pre2[i as int] by {
            if rch.len() > 0 {
                assert(rinorder(rch).contains(rch.last().0));
                assert(seg(lch, cs, rch).contains(rch.last().0));
                assert(ids0.contains(rch.last().0));
            }
        }
    }
}

/// Mirror image of [`park_right`]: park the root, which the probe stands
/// right of, in the left chain.
#[verifier::rlimit(60)]
fn park_left<C: CompareToNode>(
    nodes: &mut Vec<Node>,
    c: &C,
    current: usize,
    l_tail: Option<usize>,
    Ghost(lch): Ghost<Seq<(usize, Shape)>>,
    Ghost(rch): Ghost<Seq<(usize, Shape)>>,
    Ghost(cs): Ghost<Shape>,
    Ghost(ids0): Ghost<Seq<usize>>,
)
    requires
        wf_links(old(nodes)@, cs),
        root_opt(cs) == Some(current),
        lchain_wf(old(nodes)@, lch),
        rchain_wf(old(nodes)@, rch),
        seg(lch, cs, rch) == ids0,
        ids0.no_duplicates(),
        forall|j: usize| #[trigger] ids0.contains(j) ==> j < old(nodes)@.len(),
        lch.len() == 0 <==> l_tail is None,
        lch.len() > 0 ==> l_tail == Some(lch.last().0),
        cmp_at(c, current) == Ordering::Greater,
        forall|k: int|
            0 <= k < lch.len() ==> cmp_at(c, (#[trigger] lch[k]).0) == Ordering::Greater,
        tree_sorted(c, ids0) ==> (forall|j: usize| #[trigger]
            linorder(lch).contains(j) ==> cmp_at(c, j) == Ordering::Greater),
    ensures
        final(nodes)@.len() == old(nodes)@.len(),
        wf_links(final(nodes)@, right_of(cs)),
        rchain_wf(final(nodes)@, rch),
        lchain_wf(final(nodes)@, lch.push((current, left_of(cs)))),
        seg(lch.push((current, left_of(cs))), right_of(cs), rch) == ids0,
        forall|i: usize|
            i < old(nodes)@.len() && !ids0.contains(i) ==> final(nodes)@[i as int] == old(
                nodes,
            )@[i as int],
        forall|k: int|
            0 <= k < lch.push((current, left_of(cs))).len() ==> cmp_at(
                c,
                (#[trigger] lch.push((current, left_of(cs)))[k]).0,
            ) == Ordering::Greater,
        tree_sorted(c, ids0) ==> (forall|j: usize| #[trigger]
            linorder(lch.push((current, left_of(cs)))).contains(j) ==> cmp_at(c, j)
                == Ordering::Greater),
{
    proof {
        lemma_decompose(cs);
        lemma_seg_no_dup(lch, cs, rch);
        lemma_seg_members(lch, cs, rch);
        lemma_root_contained(cs);
        lemma_linorder_members(lch);
        lemma_wf_links_bounds(nodes@, cs);
        assert(inorder(cs).contains(current));
        assert(ids0.contains(current));
    }
    let ghost pre2 = nodes@;
    if l_tail.is_some() {
        let lt = l_tail.unwrap();
        proof {
            assert(lch.len() > 0);
            assert(lch[lch.len() - 1] == lch.last());
            assert(lt == lch.last().0);
            assert(linorder(lch).contains(lt));
            assert(seg(lch, cs, rch).contains(lt));
            assert(ids0.contains(lt));
            assert(lt < nodes@.len());
            assert(!inorder(cs).contains(lt));
            assert(!rinorder(rch).contains(lt));
        }
        set_right(nodes, lt, Some(current));
    }
    proof {
        let dleft = left_of(cs);
        let dright = right_of(cs);
        let lch2 = lch.push((current, dleft));
        assert forall|j: usize| #[trigger]
            inorder(cs).contains(j) implies j < nodes@.len() && nodes@[j as int]
            == pre2[j as int] by {
            assert(seg(lch, cs, rch).contains(j));
            assert(ids0.contains(j));
            if lch.len() > 0 {
                assert(lch[lch.len() - 1] == lch.last());
                assert(linorder(lch).contains(lch.last().0));
                assert(!inorder(cs).contains(lch.last().0));
            }
        }
        lemma_wf_links_frame(pre2, nodes@, cs);
        assert forall|j: usize| #[trigger] rinorder(rch).contains(j) implies nodes@[j as int]
            == pre2[j as int] by {
            assert(seg(lch, cs, rch).contains(j));
            assert(ids0.contains(j));
            if lch.len() > 0 {
                assert(lch[lch.len() - 1] == lch.last());
                assert(linorder(lch).contains(lch.last().0));
                assert(!linorder(lch).contains(j)) by {
                    if linorder(lch).contains(j) {
                        assert(!rinorder(rch).contains(j));
                    }
                }
            }
        }
        lemma_rchain_frame(pre2, nodes@, rch);
        lemma_grow_lchain(pre2, nodes@, lch, current, dleft);
        lemma_linorder_push(lch, current, dleft);
        assert(seg(lch2, dright, rch) =~= seg(lch, cs, rch));
        assert forall|k: int| 0 <= k < lch2.len() implies cmp_at(c, (#[trigger] lch2[k]).0)
            == Ordering::Greater by {
            if k < lch.len() {
                assert(lch2[k] == lch[k]);
            } else {
                assert(lch2[k] == (current, dleft));
            }
        }
        if tree_sorted(c, ids0) {
            lemma_park_left_sorted(c, lch, cs, rch, current);
        }
        assert forall|i: usize|
            i < pre2.len() && !ids0.contains(i) implies nodes@[i as int] == pre2[i as int] by {
            if lch.len() > 0 {
                assert(linorder(lch).contains(lch.last().0));
                assert(seg(lch, cs, rch).contains(lch.last().0));
                assert(ids0.contains(lch.last().0));
            }
        }
    }
}

/// Fill the chains' holes with the stopping node's subtrees and adopt the
/// chains as its new subtrees, making it the subtree's root.
#[verifier::rlimit(100)]
fn reassemble(
    nodes: &mut Vec<Node>,
    current: usize,
    l_head: Option<usize>,
    l_tail: Option<usize>,
    r_head: Option<usize>,
    r_tail: Option<usize>,
    Ghost(lch): Ghost<Seq<(usize, Shape)>>,
    Ghost(rch): Ghost<Seq<(usize, Shape)>>,
    Ghost(cs): Ghost<Shape>,
) -> (gs: Ghost<Shape>)
    requires
        wf_links(old(nodes)@, cs),
        root_opt(cs) == Some(current),
        lchain_wf(old(nodes)@, lch),
        rchain_wf(old(nodes)@, rch),
        seg(lch, cs, rch).no_duplicates(),
        lch.len() == 0 <==> l_head is None,
        lch.len() == 0 <==> l_tail is None,
        lch.len() > 0 ==> l_head == Some(lch[0].0) && l_tail == Some(lch.last().0),
        rch.len() == 0 <==> r_head is None,
        rch.len() == 0 <==> r_tail is None,
        rch.len() > 0 ==> r_head == Some(rch[0].0) && r_tail == Some(rch.last().0),
    ensures
        gs@ == Shape::Node(
            Box::new(assemble_l(lch, left_of(cs))),
            current,
            Box::new(assemble_r(rch, right_of(cs))),
        ),
        wf_links(final(nodes)@, gs@),
        inorder(gs@) == seg(lch, cs, rch),
        final(nodes)@.len() == old(nodes)@.len(),
        forall|i: usize|
            i < old(nodes)@.len() && !seg(lch, cs, rch).contains(i) ==> final(nodes)@[i as int]
                == old(nodes)@[i as int],
{
    broadcast use vstd::seq_lib::group_seq_properties;

    proof {
        lemma_root_contained(cs);
        lemma_seg_members(lch, cs, rch);
        lemma_decompose(cs);
        lemma_seg_no_dup(lch, cs, rch);
        lemma_linorder_members(lch);
        lemma_rinorder_members(rch);
        lemma_wf_links_bounds(nodes@, cs);
        lemma_lchain_bounds(nodes@, lch);
        lemma_rchain_bounds(nodes@, rch);
        lemma_no_dup_parts(inorder(left_of(cs)) + seq![current], inorder(right_of(cs)));
        lemma_no_dup_parts(inorder(left_of(cs)), seq![current]);
        assert(seq![current][0] == current);
        assert(seq![current].contains(current));
        assert(inorder(cs).contains(current));
        if lch.len() > 0 {
            assert(lch[lch.len() - 1] == lch.last());
            assert(linorder(lch).contains(lch.last().0));
            assert(!inorder(cs).contains(lch.last().0));
            assert(!rinorder(rch).contains(lch.last().0));
        }
        if rch.len() > 0 {
            assert(rch[rch.len() - 1] == rch.last());
            assert(rinorder(rch).contains(rch.last().0));
            assert(!inorder(cs).contains(rch.last().0));
            assert(!linorder(lch).contains(rch.last().0)) by {
                if linorder(lch).contains(rch.last().0) {
                    assert(!rinorder(rch).contains(rch.last().0));
                }
            }
        }
    }
    let ghost hole_l = left_of(cs);
    let ghost hole_r = right_of(cs);
    let ghost pre = nodes@;
    let cur_left = nodes[current].left;
    let cur_right = nodes[current].right;
    let new_left: Option<usize>;
    let new_right: Option<usize>;
    if l_tail.is_some() {
        let lt = l_tail.unwrap();
        proof {
            assert(lt == lch.last().0);
            assert(lt < nodes@.len());
        }
        set_right(nodes, lt, cur_left);
        new_left = l_head;
    } else {
        new_left = cur_left;
    }
    if r_tail.is_some() {
        let rt = r_tail.unwrap();
        proof {
            assert(rt == rch.last().0);
            assert(rt < nodes@.len());
            if lch.len() > 0 {
                assert(rt != lch.last().0);
            }
        }
        set_left(nodes, rt, cur_right);
        new_right = r_head;
    } else {
        new_right = cur_right;
    }
    set_left(nodes, current, new_left);
    set_right(nodes, current, new_right);
    let ghost ltree = assemble_l(lch, hole_l);
    let ghost rtree = assemble_r(rch, hole_r);
    let ghost s1 = Shape::Node(Box::new(ltree), current, Box::new(rtree));
    proof {
        assert forall|j: usize| #[trigger]
            inorder(hole_l).contains(j) implies j < nodes@.len() && nodes@[j as int]
            == pre[j as int] by {
            lemma_mid3_member(inorder(hole_l), seq![current], inorder(hole_r), inorder(cs), j);
        }
        assert forall|j: usize| #[trigger]
            inorder(hole_r).contains(j) implies j < nodes@.len() && nodes@[j as int]
            == pre[j as int] by {
            lemma_mid3_member(inorder(hole_l), seq![current], inorder(hole_r), inorder(cs), j);
        }
        lemma_wf_links_frame(pre, nodes@, hole_l);
        lemma_wf_links_frame(pre, nodes@, hole_r);
        assert forall|j: usize| #[trigger]
            linorder(lch).contains(j) && (lch.len() == 0 || j != lch.last().0) implies nodes@[j as int]
            == pre[j as int] by {
            assert(!inorder(cs).contains(j));
            assert(!rinorder(rch).contains(j));
        }
        lemma_lchain_keep(pre, nodes@, lch);
        assert forall|j: usize| #[trigger]
            rinorder(rch).contains(j) && (rch.len() == 0 || j != rch.last().0) implies nodes@[j as int]
            == pre[j as int] by {
            assert(!inorder(cs).contains(j)) by {
                if inorder(cs).contains(j) {
                    assert(!rinorder(rch).contains(j));
                }
            }
            assert(!linorder(lch).contains(j)) by {
                if linorder(lch).contains(j) {
                    assert(!rinorder(rch).contains(j));
                }
            }
        }
        lemma_rchain_keep(pre, nodes@, rch);
        if lch.len() > 0 {
            assert(nodes@[lch.last().0 as int].right == root_opt(hole_l));
        }
        if rch.len() > 0 {
            assert(nodes@[rch.last().0 as int].left == root_opt(hole_r));
        }
        lemma_assemble_l(nodes@, lch, hole_l);
        lemma_assemble_r(nodes@, rch, hole_r);
        assert(nodes@[current as int].left == root_opt(ltree));
        assert(nodes@[current as int].right == root_opt(rtree));
        assert(wf_links(nodes@, s1));
        assert(inorder(s1) =~= seg(lch, cs, rch));
    }
    Ghost(s1)
}

/// The "simple top-down splay" routine.
///
/// Starting from `start` (the root of the shape `s0`), descend toward the
/// probe. A step that would descend twice to the same side first rotates at
/// the current node (the zig-zig case); the node then left behind is parked
/// in the accumulator chain of the opposite side. The descent stops on an
/// `Equal` comparison or at a missing child; reassembly plugs the stopping
/// node's subtrees into the chains' holes and adopts the chains as the new
/// root's subtrees.
///
/// The new shape holds the same ids in the same in-order sequence. If the
/// ids are sorted under the capability's keys, an `Equal` id (when present)
/// ends at the root, and the subtree on the probe's side of the new root
/// consists of ids strictly on that side; a probe below or above every key
/// drives the first or last id to the root with nothing beyond it.
#[verifier::rlimit(100)]
fn splay<C: CompareToNode>(
    nodes: &mut Vec<Node>,
    c: &C,
    start: usize,
    Ghost(s0): Ghost<Shape>,
) -> (res: (usize, Ghost<Shape>))
    requires
        wf_links(old(nodes)@, s0),
        inorder(s0).no_duplicates(),
        root_opt(s0) == Some(start),
        covers(c, inorder(s0)),
    ensures
        wf_links(final(nodes)@, res.1@),
        final(nodes)@.len() == old(nodes)@.len(),
        inorder(res.1@) == inorder(s0),
        root_opt(res.1@) == Some(res.0),
        inorder(s0).contains(res.0),
        forall|i: usize|
            i < old(nodes)@.len() && !inorder(s0).contains(i) ==> final(nodes)@[i as int] == old(
                nodes,
            )@[i as int],
        (forall|j: usize| #[trigger] inorder(s0).contains(j) ==> cmp_at(c, j) == Ordering::Less)
            ==> res.0 == inorder(s0)[0] && left_of(res.1@) == Shape::Leaf,
        (forall|j: usize| #[trigger] inorder(s0).contains(j) ==> cmp_at(c, j) == Ordering::Greater)
            ==> res.0 == inorder(s0).last() && right_of(res.1@) == Shape::Leaf,
        tree_sorted(c, inorder(s0)) ==> {
            &&& ((exists|j: usize|
                #[trigger] inorder(s0).contains(j) && cmp_at(c, j) == Ordering::Equal)
                ==> cmp_at(c, res.0) == Ordering::Equal)
            &&& (cmp_at(c, res.0) == Ordering::Less ==> forall|j: usize| #[trigger]
                inorder(left_of(res.1@)).contains(j) ==> cmp_at(c, j) == Ordering::Greater)
            &&& (cmp_at(c, res.0) == Ordering::Greater ==> forall|j: usize| #[trigger]
                inorder(right_of(res.1@)).contains(j) ==> cmp_at(c, j) == Ordering::Less)
        },
{
    let mut current: usize = start;
    let ghost mut cs: Shape = s0;
    let mut l_head: Option<usize> = None;
    let mut l_tail: Option<usize> = None;
    let mut r_head: Option<usize> = None;
    let mut r_tail: Option<usize> = None;
    let ghost mut lch: Seq<(usize, Shape)> = Seq::empty();
    let ghost mut rch: Seq<(usize, Shape)> = Seq::empty();
    proof {
        assert(seg(lch, cs, rch) =~= inorder(s0));
        lemma_wf_links_bounds(nodes@, s0);
    }
    loop
        invariant
            inorder(s0).no_duplicates(),
            covers(c, inorder(s0)),
            forall|j: usize| #[trigger] inorder(s0).contains(j) ==> j < old(nodes)@.len(),
            wf_links(nodes@, cs),
            root_opt(cs) == Some(current),
            lchain_wf(nodes@, lch),
            rchain_wf(nodes@, rch),
            seg(lch, cs, rch) == inorder(s0),
            nodes@.len() == old(nodes)@.len(),
            forall|i: usize|
                i < old(nodes)@.len() && !inorder(s0).contains(i) ==> nodes@[i as int] == old(
                    nodes,
                )@[i as int],
            lch.len() == 0 <==> l_head is None,
            lch.len() == 0 <==> l_tail is None,
            lch.len() > 0 ==> l_head == Some(lch[0].0) && l_tail == Some(lch.last().0),
            rch.len() == 0 <==> r_head is None,
            rch.len() == 0 <==> r_tail is None,
            rch.len() > 0 ==> r_head == Some(rch[0].0) && r_tail == Some(rch.last().0),
            forall|k: int|
                0 <= k < lch.len() ==> cmp_at(c, (#[trigger] lch[k]).0) == Ordering::Greater,
            forall|k: int|
                0 <= k < rch.len() ==> cmp_at(c, (#[trigger] rch[k]).0) == Ordering::Less,
            tree_sorted(c, inorder(s0)) ==> (forall|j: usize| #[trigger]
                linorder(lch).contains(j) ==> cmp_at(c, j) == Ordering::Greater),
            tree_sorted(c, inorder(s0)) ==> (forall|j: usize| #[trigger]
                rinorder(rch).contains(j) ==> cmp_at(c, j) == Ordering::Less),
        ensures
            cmp_at(c, current) == Ordering::Less ==> left_of(cs) == Shape::Leaf,
            cmp_at(c, current) == Ordering::Greater ==> right_of(cs) == Shape::Leaf,
        decreases inorder(cs).len(),
    {
        proof {
            lemma_root_contained(cs);
            lemma_seg_members(lch, cs, rch);
            assert(inorder(s0).contains(current));
            lemma_decompose(cs);
            lemma_seg_no_dup(lch, cs, rch);
        }
        let ghost entry_len = inorder(cs).len();
        let ord = c.compare_to_node(current);
        match ord {
            Ordering::Equal => {
                break;
            },
            Ordering::Less => {
                let cur_left_opt = nodes[current].left;
                match cur_left_opt {
                    None => {
                        proof {
                            if left_of(cs) matches Shape::Node(_, _, _) {
                                assert(root_opt(left_of(cs)) is Some);
                            }
                            assert(left_of(cs) == Shape::Leaf);
                        }
                        break;
                    },
                    Some(first_left) => {
                        let mut current_left = first_left;
                        proof {
                            assert(root_opt(left_of(cs)) == Some(current_left));
                            assert(left_of(cs) matches Shape::Node(_, _, _));
                            lemma_root_contained(left_of(cs));
                            lemma_mid3_member(
                                inorder(left_of(cs)),
                                seq![current],
                                inorder(right_of(cs)),
                                inorder(cs),
                                current_left,
                            );
                            assert(inorder(s0).contains(current_left));
                        }
                        let ord2 = c.compare_to_node(current_left);
                        if let Ordering::Less = ord2 {
                            let ghost pre = nodes@;
                            let gs = rotate_right(nodes, current, current_left, Ghost(cs));
                            proof {
                                lemma_chains_after_subtree_writes(
                                    pre,
                                    nodes@,
                                    lch,
                                    rch,
                                    cs,
                                    inorder(s0),
                                );
                                cs = gs@;
                                assert(seg(lch, cs, rch) == inorder(s0));
                            }
                            current = current_left;
                            let nl = nodes[current].left;
                            match nl {
                                Some(l2) => {
                                    current_left = l2;
                                    proof {
                                        assert(root_opt(left_of(cs)) == Some(l2));
                                    }
                                },
                                None => {
                                    proof {
                                        if left_of(cs) matches Shape::Node(_, _, _) {
                                            assert(root_opt(left_of(cs)) is Some);
                                        }
                                        assert(left_of(cs) == Shape::Leaf);
                                    }
                                    break;
                                },
                            }
                        }
                        park_right(
                            nodes,
                            c,
                            current,
                            r_tail,
                            Ghost(lch),
                            Ghost(rch),
                            Ghost(cs),
                            Ghost(inorder(s0)),
                        );
                        if r_tail.is_none() {
                            r_head = Some(current);
                        }
                        r_tail = Some(current);
                        proof {
                            let rch2 = rch.push((current, right_of(cs)));
                            assert(rch2[0] == if rch.len() > 0 {
                                rch[0]
                            } else {
                                (current, right_of(cs))
                            });
                            assert(rch2.last() == (current, right_of(cs)));
                            lemma_decompose(cs);
                            assert(root_opt(left_of(cs)) == Some(current_left)) by {
                                assert(wf_links(nodes@, left_of(cs)));
                            }
                            rch = rch2;
                            cs = left_of(cs);
                            assert(inorder(cs).len() < entry_len);
                        }
                        current = current_left;
                    },
                }
            },
            Ordering::Greater => {
                let cur_right_opt = nodes[current].right;
                match cur_right_opt {
                    None => {
                        proof {
                            if right_of(cs) matches Shape::Node(_, _, _) {
                                assert(root_opt(right_of(cs)) is Some);
                            }
                            assert(right_of(cs) == Shape::Leaf);
                        }
                        break;
                    },
                    Some(first_right) => {
                        let mut current_right = first_right;
                        proof {
                            assert(root_opt(right_of(cs)) == Some(current_right));
                            assert(right_of(cs) matches Shape::Node(_, _, _));
                            lemma_root_contained(right_of(cs));
                            lemma_mid3_member(
                                inorder(left_of(cs)),
                                seq![current],
                                inorder(right_of(cs)),
                                inorder(cs),
                                current_right,
                            );
                            assert(inorder(s0).contains(current_right));
                        }
                        let ord2 = c.compare_to_node(current_right);
                        if let Ordering::Greater = ord2 {
                            let ghost pre = nodes@;
                            let gs = rotate_left(nodes, current, current_right, Ghost(cs));
                            proof {
                                lemma_chains_after_subtree_writes(
                                    pre,
                                    nodes@,
                                    lch,
                                    rch,
                                    cs,
                                    inorder(s0),
                                );
                                cs = gs@;
                                assert(seg(lch, cs, rch) == inorder(s0));
                            }
                            current = current_right;
                            let nr = nodes[current].right;
                            match nr {
                                Some(r2) => {
                                    current_right = r2;
                                    proof {
                                        assert(root_opt(right_of(cs)) == Some(r2));
                                    }
                                },
                                None => {
                                    proof {
                                        if right_of(cs) matches Shape::Node(_, _, _) {
                                            assert(root_opt(right_of(cs)) is Some);
                                        }
                                        assert(right_of(cs) == Shape::Leaf);
                                    }
                                    break;
                                },
                            }
                        }
                        park_left(
                            nodes,
                            c,
                            current,
                            l_tail,
                            Ghost(lch),
                            Ghost(rch),
                            Ghost(cs),
                            Ghost(inorder(s0)),
                        );
                        if l_tail.is_none() {
                            l_head = Some(current);
                        }
                        l_tail = Some(current);
                        proof {
                            let lch2 = lch.push((current, left_of(cs)));
                            assert(lch2[0] == if lch.len() > 0 {
                                lch[0]
                            } else {
                                (current, left_of(cs))
                            });
                            assert(lch2.last() == (current, left_of(cs)));
                            lemma_decompose(cs);
                            assert(root_opt(right_of(cs)) == Some(current_right)) by {
                                assert(wf_links(nodes@, right_of(cs)));
                            }
                            lch = lch2;
                            cs = right_of(cs);
                            assert(inorder(cs).len() < entry_len);
                        }
                        current = current_right;
                    },
                }
            },
        }
    }
    proof {
        lemma_decompose(cs);
    }
    let gs = reassemble(
        nodes,
        current,
        l_head,
        l_tail,
        r_head,
        r_tail,
        Ghost(lch),
        Ghost(rch),
        Ghost(cs),
    );
    proof {
        lemma_root_contained(cs);
        lemma_seg_members(lch, cs, rch);
        assert(inorder(cs).contains(current));
        assert(inorder(s0).contains(current));
        lemma_splay_extremes(c, lch, cs, rch, current, inorder(s0), gs@);
        if tree_sorted(c, inorder(s0)) {
            lemma_assemble_l_pure(lch, left_of(cs));
            lemma_assemble_r_pure(rch, right_of(cs));
            lemma_splay_sorted(c, lch, cs, rch, current, inorder(s0), gs@);
        }
    }
    (current, Ghost(gs@))
}


impl SplayTree {
    /// Splay on the probe; return the root id if it compares `Equal`, else
    /// nothing. Even a miss restructures the tree, so that repeated probes
    /// near the same key amortize cheaply.
    pub fn find<C: CompareToNode>(&mut self, c: &C) -> (r: Option<usize>)
        requires
            old(self).wf(),
            covers(c, old(self).ids()),
            tree_sorted(c, old(self).ids()),
        ensures
            final(self).wf(),
            final(self).ids() == old(self).ids(),
            match r {
                Some(i) => old(self).ids().contains(i) && cmp_at(c, i) == Ordering::Equal && final(self).root_id() == Some(i),
                None => (forall|j: usize| #[trigger]
                    old(self).ids().contains(j) ==> cmp_at(c, j) != Ordering::Equal) && (old(
                    self,
                ).ids().len() > 0 ==> (final(self).root_id() matches Some(rr) && best_match(
                    c,
                    old(self).ids(),
                    rr,
                ))),
            },
    {
        match self.root {
            None => {
                proof {
                    crate::node::lemma_inorder_empty(self.shape@);
                }
                None
            },
            Some(root) => {
                let (r, gs) = splay(&mut self.nodes, c, root, Ghost(self.shape@));
                self.root = Some(r);
                self.shape = Ghost(gs@);
                let ord = c.compare_to_node(r);
                if let Ordering::Equal = ord {
                    Some(r)
                } else {
                    proof {
                        assert forall|j: usize| #[trigger]
                            self.ids().contains(j) implies cmp_at(c, j) != Ordering::Equal by {
                            if cmp_at(c, j) == Ordering::Equal {
                                assert(cmp_at(c, r) == Ordering::Equal);
                            }
                        }
                        lemma_root_is_best_match(c, gs@);
                    }
                    None
                }
            },
        }
    }

    /// Make room in the slab so that `id` has a link node of its own.
    fn reserve(&mut self, id: usize)
        requires
            old(self).wf(),
        ensures
            final(self).wf(),
            final(self).ids() == old(self).ids(),
            final(self).root_id() == old(self).root_id(),
            final(self).shape@ == old(self).shape@,
            final(self).nodes@.len() > id,
            forall|i: usize|
                i < old(self).nodes@.len() ==> final(self).nodes@[i as int] == old(
                    self,
                ).nodes@[i as int],
    {
        while self.nodes.len() <= id
            invariant
                self.wf(),
                self.shape@ == old(self).shape@,
                self.root == old(self).root,
                forall|i: usize|
                    i < old(self).nodes@.len() ==> self.nodes@[i as int] == old(
                        self,
                    ).nodes@[i as int],
                self.nodes@.len() >= old(self).nodes@.len(),
            decreases id + 1 - self.nodes@.len(),
        {
            let ghost prev = self.nodes@;
            self.nodes.push(Node::new());
            proof {
                lemma_wf_links_bounds(prev, self.shape@);
                assert forall|j: usize| #[trigger]
                    inorder(self.shape@).contains(j) implies j < self.nodes@.len()
                    && self.nodes@[j as int] == prev[j as int] by {}
                lemma_wf_links_frame(prev, self.nodes@, self.shape@);
            }
        }
    }

    /// Insert the record behind `id`, whose link slots are empty because it
    /// is in no tree. The probe must be the record's own key. If an equal
    /// key is already present the tree is merely splayed and the insert
    /// refused; otherwise the record becomes the root.
    #[verifier::rlimit(100)]
    #[verifier::spinoff_prover]
    pub fn insert<C: CompareToNode>(&mut self, c: &C, id: usize) -> (did: bool)
        requires
            old(self).wf(),
            !old(self).ids().contains(id),
            covers(c, old(self).ids()),
            tree_sorted(c, old(self).ids()),
            c.query() == QueryPos::At(c.node_key(id)),
        ensures
            final(self).wf(),
            did <==> (forall|j: usize| #[trigger]
                old(self).ids().contains(j) ==> c.node_key(j) != c.node_key(id)),
            did ==> final(self).ids().to_multiset() == old(self).ids().to_multiset().insert(id)
                && tree_sorted(c, final(self).ids()) && final(self).root_id() == Some(id) && final(self).ids().contains(id),
            !did ==> final(self).ids() == old(self).ids() && (match final(self).root_id() {
                Some(j) => old(self).ids().contains(j) && c.node_key(j) == c.node_key(id),
                None => false,
            }),
    {
        broadcast use vstd::seq_lib::group_seq_properties;

        self.reserve(id);
        match self.root {
            None => {
                proof {
                    crate::node::lemma_inorder_empty(self.shape@);
                    assert(!self.ids().contains(id));
                    assert(self.nodes@[id as int] == (Node { left: None, right: None }));
                }
                self.root = Some(id);
                self.shape = Ghost(
                    Shape::Node(Box::new(Shape::Leaf), id, Box::new(Shape::Leaf)),
                );
                proof {
                    assert(self.ids() =~= seq![id]);
                    assert(self.ids()[0] == id);
                    assert(self.ids().contains(id));
                    assert(self.ids().no_duplicates());
                    assert(self.ids().to_multiset() =~= old(self).ids().to_multiset().insert(id))
                        by {
                        broadcast use vstd::seq_lib::group_to_multiset_ensures;

                        assert(old(self).ids().push(id) =~= self.ids());
                    }
                    assert forall|i: usize|
                        i < self.nodes@.len() && !self.ids().contains(i) implies self.nodes@[i as int]
                        == (Node { left: None, right: None }) by {
                        assert(i != id);
                        assert(!old(self).ids().contains(i));
                    }
                }
                true
            },
            Some(root) => {
                let ghost pres = self.ids();
                let (r, gs) = splay(&mut self.nodes, c, root, Ghost(self.shape@));
                self.root = Some(r);
                self.shape = Ghost(gs@);
                proof {
                    lemma_decompose(gs@);
                    lemma_seg_no_dup(Seq::empty(), gs@, Seq::empty());
                    crate::node::lemma_no_dup_parts(
                        inorder(left_of(gs@)) + seq![r],
                        inorder(right_of(gs@)),
                    );
                    crate::node::lemma_no_dup_parts(inorder(left_of(gs@)), seq![r]);
                    assert(seq![r][0] == r);
                    assert(seq![r].contains(r));
                    lemma_wf_links_bounds(self.nodes@, gs@);
                    assert(wf_links(self.nodes@, left_of(gs@)));
                    assert(wf_links(self.nodes@, right_of(gs@)));
                    assert(self.nodes@[r as int].left == root_opt(left_of(gs@)));
                    assert(self.nodes@[r as int].right == root_opt(right_of(gs@)));
                }
                let ord = c.compare_to_node(r);
                match ord {
                    Ordering::Equal => {
                        proof {
                            assert(self.ids().contains(r));
                            assert(c.node_key(r) == c.node_key(id));
                        }
                        false
                    },
                    Ordering::Less => {
                        let ghost aa = left_of(gs@);
                        let ghost bb = right_of(gs@);
                        let ghost pre = self.nodes@;
                        let rl = self.nodes[r].left;
                        set_left(&mut self.nodes, id, rl);
                        set_right(&mut self.nodes, id, Some(r));
                        set_left(&mut self.nodes, r, None);
                        self.root = Some(id);
                        let ghost inner = Shape::Node(
                            Box::new(Shape::Leaf),
                            r,
                            Box::new(bb),
                        );
                        self.shape = Ghost(Shape::Node(Box::new(aa), id, Box::new(inner)));
                        proof {
                            assert(!inorder(gs@).contains(id));
                            assert(id != r);
                            assert forall|j: usize| #[trigger]
                                inorder(aa).contains(j) implies j < self.nodes@.len()
                                && self.nodes@[j as int] == pre[j as int] by {
                                lemma_mid3_member(inorder(aa), seq![r], inorder(bb), inorder(gs@), j);
                            }
                            assert forall|j: usize| #[trigger]
                                inorder(bb).contains(j) implies j < self.nodes@.len()
                                && self.nodes@[j as int] == pre[j as int] by {
                                lemma_mid3_member(inorder(aa), seq![r], inorder(bb), inorder(gs@), j);
                                assert((inorder(aa) + seq![r]).contains(r));
                            }
                            lemma_wf_links_frame(pre, self.nodes@, aa);
                            lemma_wf_links_frame(pre, self.nodes@, bb);
                            assert(id < self.nodes@.len());
                            assert(r < self.nodes@.len());
                            assert(self.nodes@[id as int].left == root_opt(aa));
                            assert(self.nodes@[id as int].right == Some(r));
                            assert(self.nodes@[r as int].left == None::<usize>);
                            assert(self.nodes@[r as int].right == root_opt(bb));
                            assert(wf_links(self.nodes@, Shape::Leaf));
                            assert(wf_links(self.nodes@, inner));
                            assert(wf_links(self.nodes@, self.shape@));
                            lemma_decompose(inner);
                            lemma_decompose(self.shape@);
                            assert(inorder(Shape::Leaf) =~= Seq::<usize>::empty());
                            assert(inorder(inner) =~= seq![r] + inorder(bb));
                            assert(self.ids() =~= inorder(aa) + seq![id] + seq![r] + inorder(bb));
                            assert(inorder(gs@) =~= inorder(aa) + seq![r] + inorder(bb));
                            // everything left of the splayed root is below the probe
                            assert forall|j: usize| #[trigger]
                                inorder(aa).contains(j) implies keys_of(c)(j) < keys_of(c)(id) by {
                                assert(cmp_at(c, j) == Ordering::Greater);
                            }
                            assert(keys_of(c)(id) < keys_of(c)(r));
                            crate::node::lemma_sorted_insert_before(
                                keys_of(c),
                                inorder(aa),
                                r,
                                inorder(bb),
                                id,
                            );
                            assert(tree_sorted(c, self.ids()));
                            crate::node::lemma_sorted_no_dup(keys_of(c), self.ids());
                            assert(self.ids().to_multiset() =~= pres.to_multiset().insert(id)) by {
                                broadcast use vstd::seq_lib::group_to_multiset_ensures;

                                assert(self.ids() =~= inorder(gs@).insert(
                                    inorder(aa).len() as int,
                                    id,
                                ));
                            }
                            assert(self.ids().contains(id));
                            assert forall|i: usize|
                                i < self.nodes@.len() && !self.ids().contains(
                                    i,
                                ) implies self.nodes@[i as int] == (Node {
                                left: None,
                                right: None,
                            }) by {
                                assert(i != id && i != r);
                                assert(!inorder(gs@).contains(i)) by {
                                    if inorder(gs@).contains(i) {
                                        assert((inorder(aa) + seq![r] + inorder(bb)).contains(i));
                                        assert(self.ids().contains(i));
                                    }
                                }
                            }
                            assert forall|j: usize| #[trigger]
                                pres.contains(j) implies c.node_key(j) != c.node_key(id) by {
                                if cmp_at(c, j) == Ordering::Equal {
                                    assert(cmp_at(c, r) == Ordering::Equal);
                                }
                            }
                        }
                        true
                    },
                    Ordering::Greater => {
                        let ghost aa = left_of(gs@);
                        let ghost bb = right_of(gs@);
                        let ghost pre = self.nodes@;
                        let rr = self.nodes[r].right;
                        set_right(&mut self.nodes, id, rr);
                        set_left(&mut self.nodes, id, Some(r));
                        set_right(&mut self.nodes, r, None);
                        self.root = Some(id);
                        let ghost inner = Shape::Node(
                            Box::new(aa),
                            r,
                            Box::new(Shape::Leaf),
                        );
                        self.shape = Ghost(Shape::Node(Box::new(inner), id, Box::new(bb)));
                        proof {
                            assert(!inorder(gs@).contains(id));
                            assert(id != r);
                            assert forall|j: usize| #[trigger]
                                inorder(aa).contains(j) implies j < self.nodes@.len()
                                && self.nodes@[j as int] == pre[j as int] by {
                                lemma_mid3_member(inorder(aa), seq![r], inorder(bb), inorder(gs@), j);
                            }
                            assert forall|j: usize| #[trigger]
                                inorder(bb).contains(j) implies j < self.nodes@.len()
                                && self.nodes@[j as int] == pre[j as int] by {
                                lemma_mid3_member(inorder(aa), seq![r], inorder(bb), inorder(gs@), j);
                                assert((inorder(aa) + seq![r]).contains(r));
                            }
                            lemma_wf_links_frame(pre, self.nodes@, aa);
                            lemma_wf_links_frame(pre, self.nodes@, bb);
                            assert(id < self.nodes@.len());
                            assert(r < self.nodes@.len());
                            assert(self.nodes@[id as int].right == root_opt(bb));
                            assert(self.nodes@[id as int].left == Some(r));
                            assert(self.nodes@[r as int].right == None::<usize>);
                            assert(self.nodes@[r as int].left == root_opt(aa));
                            assert(wf_links(self.nodes@, Shape::Leaf));
                            assert(wf_links(self.nodes@, inner));
                            assert(wf_links(self.nodes@, self.shape@));
                            lemma_decompose(inner);
                            lemma_decompose(self.shape@);
                            assert(inorder(Shape::Leaf) =~= Seq::<usize>::empty());
                            assert(inorder(inner) =~= inorder(aa) + seq![r]);
                            assert(self.ids() =~= inorder(aa) + seq![r] + seq![id] + inorder(bb));
                            assert(inorder(gs@) =~= inorder(aa) + seq![r] + inorder(bb));
                            assert forall|j: usize| #[trigger]
                                inorder(bb).contains(j) implies keys_of(c)(id) < keys_of(c)(j) by {
                                assert(cmp_at(c, j) == Ordering::Less);
                            }
                            assert(keys_of(c)(r) < keys_of(c)(id));
                            crate::node::lemma_sorted_insert_after(
                                keys_of(c),
                                inorder(aa),
                                r,
                                inorder(bb),
                                id,
                            );
                            assert(tree_sorted(c, self.ids()));
                            crate::node::lemma_sorted_no_dup(keys_of(c), self.ids());
                            assert(self.ids().to_multiset() =~= pres.to_multiset().insert(id)) by {
                                broadcast use vstd::seq_lib::group_to_multiset_ensures;

                                assert(self.ids() =~= inorder(gs@).insert(
                                    inorder(aa).len() as int + 1,
                                    id,
                                ));
                            }
                            assert(self.ids().contains(id));
                            assert forall|i: usize|
                                i < self.nodes@.len() && !self.ids().contains(
                                    i,
                                ) implies self.nodes@[i as int] == (Node {
                                left: None,
                                right: None,
                            }) by {
                                assert(i != id && i != r);
                                assert(!inorder(gs@).contains(i)) by {
                                    if inorder(gs@).contains(i) {
                                        assert((inorder(aa) + seq![r] + inorder(bb)).contains(i));
                                        assert(self.ids().contains(i));
                                    }
                                }
                            }
                            assert forall|j: usize| #[trigger]
                                pres.contains(j) implies c.node_key(j) != c.node_key(id) by {
                                if cmp_at(c, j) == Ordering::Equal {
                                    assert(cmp_at(c, r) == Ordering::Equal);
                                }
                            }
                        }
                        true
                    },
                }
            },
        }
    }

    /// Remove whatever record currently sits at the root: splay its left
    /// subtree toward the maximum and attach the right subtree there, or
    /// promote the right subtree. The removed record's slots are cleared.
    pub fn pop_root(&mut self) -> (r: Option<usize>)
        requires
            old(self).wf(),
        ensures
            final(self).wf(),
            r == old(self).root_id(),
            match r {
                None => final(self).ids() == old(self).ids() && old(self).ids().len() == 0,
                Some(i) => {
                    &&& old(self).ids().contains(i)
                    &&& exists|k: int|
                        0 <= k < old(self).ids().len() && old(self).ids()[k] == i && final(self).ids() == old(self).ids().remove(k) && (k > 0 ==> final(self).root_id()
                            == Some(old(self).ids()[k - 1]))
                    &&& !final(self).ids().contains(i)
                },
            },
    {
        broadcast use vstd::seq_lib::group_seq_properties;

        match self.root {
            None => {
                proof {
                    crate::node::lemma_inorder_empty(self.shape@);
                }
                None
            },
            Some(old_root) => {
                let ghost s = self.shape@;
                let ghost aa = left_of(s);
                let ghost bb = right_of(s);
                let ghost pres = self.ids();
                proof {
                    lemma_decompose(s);
                    crate::node::lemma_no_dup_parts(inorder(aa) + seq![old_root], inorder(bb));
                    crate::node::lemma_no_dup_parts(inorder(aa), seq![old_root]);
                    assert(seq![old_root][0] == old_root);
                    assert(seq![old_root].contains(old_root));
                    lemma_wf_links_bounds(self.nodes@, s);
                    lemma_root_contained(s);
                    assert(pres.contains(old_root));
                    assert(pres[inorder(aa).len() as int] == old_root);
                }
                let l_opt = self.nodes[old_root].left;
                match l_opt {
                    None => {
                        proof {
                            if aa matches Shape::Node(_, _, _) {
                                assert(root_opt(aa) is Some);
                            }
                            assert(aa == Shape::Leaf);
                        }
                        let r_opt = self.nodes[old_root].right;
                        self.root = r_opt;
                        self.shape = Ghost(bb);
                        let ghost pre = self.nodes@;
                        set_left(&mut self.nodes, old_root, None);
                        set_right(&mut self.nodes, old_root, None);
                        proof {
                            assert forall|j: usize| #[trigger]
                                inorder(bb).contains(j) implies j < self.nodes@.len()
                                && self.nodes@[j as int] == pre[j as int] by {
                                lemma_mid3_member(inorder(aa), seq![old_root], inorder(bb), pres, j);
                                assert((inorder(aa) + seq![old_root]).contains(old_root));
                            }
                            lemma_wf_links_frame(pre, self.nodes@, bb);
                            assert(self.ids() =~= pres.remove(0));
                            assert(!inorder(bb).contains(old_root)) by {
                                assert((inorder(aa) + seq![old_root]).contains(old_root));
                            }
                            assert forall|i: usize|
                                i < self.nodes@.len() && !self.ids().contains(
                                    i,
                                ) implies self.nodes@[i as int] == (Node {
                                left: None,
                                right: None,
                            }) by {
                                if i != old_root {
                                    assert(!pres.contains(i)) by {
                                        if pres.contains(i) {
                                            assert((inorder(aa) + seq![old_root] + inorder(
                                                bb,
                                            )).contains(i));
                                            if seq![old_root].contains(i) {
                                                assert(i == old_root);
                                            }
                                        }
                                    }
                                }
                            }
                        }
                        Some(old_root)
                    },
                    Some(l_root) => {
                        proof {
                            assert(root_opt(aa) == Some(l_root));
                            assert(wf_links(self.nodes@, aa));
                            assert(covers(&MaxNode, inorder(aa)));
                            assert forall|j: usize| #[trigger]
                                inorder(aa).contains(j) implies cmp_at(&MaxNode, j)
                                == Ordering::Greater by {}
                        }
                        let ghost pre0 = self.nodes@;
                        let (m, gs) = splay(&mut self.nodes, &MaxNode, l_root, Ghost(aa));
                        proof {
                            assert(m == inorder(aa).last());
                            assert(right_of(gs@) == Shape::Leaf);
                            assert(inorder(gs@) == inorder(aa));
                            assert(inorder(aa).contains(m));
                            // the root and the right subtree were untouched
                            assert(!inorder(aa).contains(old_root));
                            assert(self.nodes@[old_root as int] == pre0[old_root as int]);
                            assert forall|j: usize| #[trigger]
                                inorder(bb).contains(j) implies j < self.nodes@.len()
                                && self.nodes@[j as int] == pre0[j as int] by {
                                lemma_mid3_member(inorder(aa), seq![old_root], inorder(bb), pres, j);
                                assert(!inorder(aa).contains(j)) by {
                                    if inorder(aa).contains(j) {
                                        assert((inorder(aa) + seq![old_root]).contains(j));
                                    }
                                }
                            }
                            lemma_wf_links_frame(pre0, self.nodes@, bb);
                            lemma_decompose(gs@);
                            lemma_wf_links_bounds(self.nodes@, gs@);
                        }
                        let rsub_root = self.nodes[old_root].right;
                        let ghost pre = self.nodes@;
                        set_right(&mut self.nodes, m, rsub_root);
                        set_left(&mut self.nodes, old_root, None);
                        set_right(&mut self.nodes, old_root, None);
                        self.root = Some(m);
                        let ghost ml = left_of(gs@);
                        self.shape = Ghost(Shape::Node(Box::new(ml), m, Box::new(bb)));
                        proof {
                            assert(inorder(gs@) =~= inorder(ml) + seq![m] + Seq::<usize>::empty());
                            assert(inorder(gs@) =~= inorder(ml) + seq![m]);
                            crate::node::lemma_no_dup_parts(inorder(ml), seq![m]);
                            assert(seq![m][0] == m);
                            assert(seq![m].contains(m));
                            assert(m != old_root);
                            assert forall|j: usize| #[trigger]
                                inorder(ml).contains(j) implies j < self.nodes@.len()
                                && self.nodes@[j as int] == pre[j as int] by {
                                assert(inorder(aa).contains(j)) by {
                                    assert((inorder(ml) + seq![m]).contains(j));
                                }
                                assert((inorder(aa) + seq![old_root]).contains(j));
                            }
                            assert forall|j: usize| #[trigger]
                                inorder(bb).contains(j) implies j < self.nodes@.len()
                                && self.nodes@[j as int] == pre[j as int] by {
                                assert(!inorder(aa).contains(j)) by {
                                    if inorder(aa).contains(j) {
                                        assert((inorder(aa) + seq![old_root]).contains(j));
                                    }
                                }
                                assert(j != m);
                                assert((inorder(aa) + seq![old_root]).contains(old_root));
                            }
                            lemma_wf_links_frame(pre, self.nodes@, ml);
                            lemma_wf_links_frame(pre, self.nodes@, bb);
                            assert(self.nodes@[m as int].left == root_opt(ml));
                            assert(self.nodes@[m as int].right == root_opt(bb));
                            assert(wf_links(self.nodes@, self.shape@));
                            assert(self.ids() =~= pres.remove(inorder(aa).len() as int));
                            assert(pres[inorder(aa).len() as int] == old_root);
                            assert(pres[inorder(aa).len() - 1] == inorder(aa).last());
                            assert(self.root_id() == Some(pres[inorder(aa).len() - 1]));
                            crate::node::lemma_no_dup_remove(pres, inorder(aa).len() as int);
                            assert(!self.ids().contains(old_root)) by {
                                assert((inorder(aa) + seq![old_root]).contains(old_root));
                                if inorder(ml).contains(old_root) {
                                    assert((inorder(ml) + seq![m]).contains(old_root));
                                    assert(inorder(aa).contains(old_root));
                                }
                                if inorder(bb).contains(old_root) {
                                }
                                assert(self.ids() == inorder(ml) + seq![m] + inorder(bb));
                                if self.ids().contains(old_root) {
                                    assert((inorder(ml) + seq![m]).contains(old_root) || inorder(
                                        bb,
                                    ).contains(old_root));
                                }
                            }
                            assert forall|i: usize|
                                i < self.nodes@.len() && !self.ids().contains(
                                    i,
                                ) implies self.nodes@[i as int] == (Node {
                                left: None,
                                right: None,
                            }) by {
                                if i != old_root {
                                    assert(!pres.contains(i)) by {
                                        if pres.contains(i) {
                                            assert((inorder(aa) + seq![old_root] + inorder(
                                                bb,
                                            )).contains(i));
                                            if seq![old_root].contains(i) {
                                                assert(i == old_root);
                                            }
                                            if inorder(aa).contains(i) {
                                                assert((inorder(ml) + seq![m]).contains(i));
                                                assert(self.ids().contains(i));
                                            }
                                            if inorder(bb).contains(i) {
                                                assert(self.ids().contains(i));
                                            }
                                        }
                                    }
                                }
                            }
                        }
                        Some(old_root)
                    },
                }
            },
        }
    }

    /// Splay on the probe and pop the root if it compares `Equal`. A failed
    /// removal still restructures the tree.
    pub fn remove<C: CompareToNode>(&mut self, c: &C) -> (r: Option<usize>)
        requires
            old(self).wf(),
            covers(c, old(self).ids()),
            tree_sorted(c, old(self).ids()),
        ensures
            final(self).wf(),
            tree_sorted(c, final(self).ids()),
            match r {
                None => final(self).ids() == old(self).ids() && (forall|j: usize| #[trigger]
                    old(self).ids().contains(j) ==> cmp_at(c, j) != Ordering::Equal) && (old(
                    self,
                ).ids().len() > 0 ==> (final(self).root_id() matches Some(rr) && best_match(
                    c,
                    old(self).ids(),
                    rr,
                ))),
                Some(i) => {
                    &&& old(self).ids().contains(i)
                    &&& cmp_at(c, i) == Ordering::Equal
                    &&& exists|k: int|
                        0 <= k < old(self).ids().len() && old(self).ids()[k] == i && final(self).ids() == old(self).ids().remove(k) && (k > 0 ==> final(self).root_id()
                            == Some(old(self).ids()[k - 1]))
                    &&& !final(self).ids().contains(i)
                },
            },
    {
        match self.root {
            None => {
                proof {
                    crate::node::lemma_inorder_empty(self.shape@);
                }
                None
            },
            Some(root) => {
                let ghost pres = self.ids();
                let (rr, gs) = splay(&mut self.nodes, c, root, Ghost(self.shape@));
                self.root = Some(rr);
                self.shape = Ghost(gs@);
                let ord = c.compare_to_node(rr);
                if let Ordering::Equal = ord {
                    let out = self.pop_root();
                    proof {
                        let k = choose|k: int|
                            0 <= k < pres.len() && pres[k] == rr && self.ids() == pres.remove(k)
                                && (k > 0 ==> self.root_id() == Some(pres[k - 1]));
                        crate::node::lemma_sorted_remove(keys_of(c), pres, k);
                    }
                    out
                } else {
                    proof {
                        assert forall|j: usize| #[trigger]
                            pres.contains(j) implies cmp_at(c, j) != Ordering::Equal by {
                            if cmp_at(c, j) == Ordering::Equal {
                                assert(cmp_at(c, rr) == Ordering::Equal);
                            }
                        }
                        lemma_root_is_best_match(c, gs@);
                    }
                    None
                }
            },
        }
    }

    /// Splay the minimum to the root and return it.
    pub fn min(&mut self) -> (r: Option<usize>)
        requires
            old(self).wf(),
        ensures
            final(self).wf(),
            final(self).ids() == old(self).ids(),
            r == final(self).root_id(),
            match r {
                None => old(self).ids().len() == 0,
                Some(i) => old(self).ids().len() > 0 && i == old(self).ids()[0],
            },
    {
        match self.root {
            None => {
                proof {
                    crate::node::lemma_inorder_empty(self.shape@);
                }
                None
            },
            Some(root) => {
                proof {
                    assert(covers(&MinNode, self.ids()));
                    assert forall|j: usize| #[trigger]
                        self.ids().contains(j) implies cmp_at(&MinNode, j) == Ordering::Less by {}
                    crate::node::lemma_inorder_empty(self.shape@);
                }
                let (m, gs) = splay(&mut self.nodes, &MinNode, root, Ghost(self.shape@));
                self.root = Some(m);
                self.shape = Ghost(gs@);
                Some(m)
            },
        }
    }

    /// Splay the maximum to the root and return it.
    pub fn max(&mut self) -> (r: Option<usize>)
        requires
            old(self).wf(),
        ensures
            final(self).wf(),
            final(self).ids() == old(self).ids(),
            r == final(self).root_id(),
            match r {
                None => old(self).ids().len() == 0,
                Some(i) => old(self).ids().len() > 0 && i == old(self).ids().last(),
            },
    {
        match self.root {
            None => {
                proof {
                    crate::node::lemma_inorder_empty(self.shape@);
                }
                None
            },
            Some(root) => {
                proof {
                    assert(covers(&MaxNode, self.ids()));
                    assert forall|j: usize| #[trigger]
                        self.ids().contains(j) implies cmp_at(&MaxNode, j)
                        == Ordering::Greater by {}
                    crate::node::lemma_inorder_empty(self.shape@);
                }
                let (m, gs) = splay(&mut self.nodes, &MaxNode, root, Ghost(self.shape@));
                self.root = Some(m);
                self.shape = Ghost(gs@);
                Some(m)
            },
        }
    }

    /// Pop the record with the minimum key.
    pub fn pop_min(&mut self) -> (r: Option<usize>)
        requires
            old(self).wf(),
        ensures
            final(self).wf(),
            match r {
                None => old(self).ids().len() == 0 && final(self).ids() == old(self).ids(),
                Some(i) => old(self).ids().len() > 0 && i == old(self).ids()[0] && final(self).ids() == old(self).ids().drop_first() && !final(self).ids().contains(i),
            },
    {
        let ghost pres = self.ids();
        let got = self.min();
        if got.is_none() {
            return None;
        }
        let out = self.pop_root();
        proof {
            let i = out->Some_0;
            let k = choose|k: int|
                0 <= k < pres.len() && pres[k] == i && self.ids() == pres.remove(k);
            assert(k == 0);
            assert(pres.remove(0) =~= pres.drop_first());
        }
        out
    }

    /// Pop the record with the maximum key.
    pub fn pop_max(&mut self) -> (r: Option<usize>)
        requires
            old(self).wf(),
        ensures
            final(self).wf(),
            match r {
                None => old(self).ids().len() == 0 && final(self).ids() == old(self).ids(),
                Some(i) => old(self).ids().len() > 0 && i == old(self).ids().last() && final(self).ids() == old(self).ids().drop_last() && !final(self).ids().contains(i),
            },
    {
        let ghost pres = self.ids();
        let got = self.max();
        if got.is_none() {
            return None;
        }
        let out = self.pop_root();
        proof {
            let i = out->Some_0;
            let k = choose|k: int|
                0 <= k < pres.len() && pres[k] == i && self.ids() == pres.remove(k);
            assert(k == pres.len() - 1);
            assert(pres.remove(pres.len() - 1) =~= pres.drop_last());
        }
        out
    }
}

} // verus!

//! Ghost bookkeeping for the two partially built trees of a top-down splay.
//!
//! While the splay loop descends, the nodes it passes are parked in two
//! accumulator chains: fragments whose final position is to the left of the
//! probe (each keeping its left subtree, chained through its right slot), and
//! fragments to the right of the probe (each keeping its right subtree,
//! chained through its left slot). The last fragment of a chain has a *hole*
//! where the loop will eventually reattach a subtree; until then that slot of
//! the slab is unconstrained. A chain is a ghost sequence of
//! `(id, kept subtree shape)` pairs in the order the loop parked them.

use vstd::prelude::*;

verus! {

use crate::node::{Node, Shape, inorder, root_opt, wf_links, lemma_wf_links_frame};

/// The left accumulator chain agrees with the slab: every fragment keeps its
/// left subtree in its left slot and names the next fragment in its right
/// slot; the last right slot is the hole.
pub open spec fn lchain_wf(nodes: Seq<Node>, ch: Seq<(usize, Shape)>) -> bool {
    forall|k: int|
        #![trigger ch[k]]
        0 <= k < ch.len() ==> {
            &&& ch[k].0 < nodes.len()
            &&& wf_links(nodes, ch[k].1)
            &&& nodes[ch[k].0 as int].left == root_opt(ch[k].1)
            &&& (k + 1 < ch.len() ==> nodes[ch[k].0 as int].right == Some(ch[k + 1].0))
        }
}

/// The right accumulator chain agrees with the slab, mirror image of
/// [`lchain_wf`]: kept subtree in the right slot, next fragment in the left
/// slot, hole in the last left slot.
pub open spec fn rchain_wf(nodes: Seq<Node>, ch: Seq<(usize, Shape)>) -> bool {
    forall|k: int|
        #![trigger ch[k]]
        0 <= k < ch.len() ==> {
            &&& ch[k].0 < nodes.len()
            &&& wf_links(nodes, ch[k].1)
            &&& nodes[ch[k].0 as int].right == root_opt(ch[k].1)
            &&& (k + 1 < ch.len() ==> nodes[ch[k].0 as int].left == Some(ch[k + 1].0))
        }
}

/// The in-order ids a left chain will contribute, hole excluded.
pub open spec fn linorder(ch: Seq<(usize, Shape)>) -> Seq<usize>
    decreases ch.len(),
{
    if ch.len() == 0 {
        Seq::empty()
    } else {
        inorder(ch[0].1) + seq![ch[0].0] + linorder(ch.drop_first())
    }
}

/// The in-order ids a right chain will contribute, hole excluded.
pub open spec fn rinorder(ch: Seq<(usize, Shape)>) -> Seq<usize>
    decreases ch.len(),
{
    if ch.len() == 0 {
        Seq::empty()
    } else {
        rinorder(ch.drop_first()) + seq![ch[0].0] + inorder(ch[0].1)
    }
}

/// The tree a left chain spells out once `hole` is plugged into its last
/// right slot.
pub open spec fn assemble_l(ch: Seq<(usize, Shape)>, hole: Shape) -> Shape
    decreases ch.len(),
{
    if ch.len() == 0 {
        hole
    } else {
        Shape::Node(Box::new(ch[0].1), ch[0].0, Box::new(assemble_l(ch.drop_first(), hole)))
    }
}

/// The tree a right chain spells out once `hole` is plugged into its last
/// left slot.
pub open spec fn assemble_r(ch: Seq<(usize, Shape)>, hole: Shape) -> Shape
    decreases ch.len(),
{
    if ch.len() == 0 {
        hole
    } else {
        Shape::Node(Box::new(assemble_r(ch.drop_first(), hole)), ch[0].0, Box::new(ch[0].1))
    }
}

/// Parking one more fragment appends its ids at the probe-facing end of the
/// chain's contribution.
pub proof fn lemma_linorder_push(ch: Seq<(usize, Shape)>, id: usize, sub: Shape)
    ensures
        linorder(ch.push((id, sub))) == linorder(ch) + inorder(sub) + seq![id],
    decreases ch.len(),
{
    let ch2 = ch.push((id, sub));
    if ch.len() == 0 {
        assert(ch2.drop_first() =~= Seq::<(usize, Shape)>::empty());
        assert(linorder(ch2) =~= linorder(ch) + inorder(sub) + seq![id]);
    } else {
        assert(ch2.len() == ch.len() + 1);
        assert(ch2[0] == ch[0]);
        assert(ch2.drop_first() =~= ch.drop_first().push((id, sub)));
        lemma_linorder_push(ch.drop_first(), id, sub);
        assert(linorder(ch2) == inorder(ch2[0].1) + seq![ch2[0].0] + linorder(ch2.drop_first()));
        assert(linorder(ch2.drop_first()) == linorder(ch.drop_first()) + inorder(sub) + seq![id]);
        assert(linorder(ch) == inorder(ch[0].1) + seq![ch[0].0] + linorder(ch.drop_first()));
        assert(linorder(ch2) =~= linorder(ch) + inorder(sub) + seq![id]);
    }
}

/// Mirror image of [`lemma_linorder_push`].
pub proof fn lemma_rinorder_push(ch: Seq<(usize, Shape)>, id: usize, sub: Shape)
    ensures
        rinorder(ch.push((id, sub))) == seq![id] + inorder(sub) + rinorder(ch),
    decreases ch.len(),
{
    let ch2 = ch.push((id, sub));
    if ch.len() == 0 {
        assert(ch2.drop_first() =~= Seq::<(usize, Shape)>::empty());
        assert(rinorder(ch2) =~= seq![id] + inorder(sub) + rinorder(ch));
    } else {
        assert(ch2.len() == ch.len() + 1);
        assert(ch2[0] == ch[0]);
        assert(ch2.drop_first() =~= ch.drop_first().push((id, sub)));
        lemma_rinorder_push(ch.drop_first(), id, sub);
        assert(rinorder(ch2) == rinorder(ch2.drop_first()) + seq![ch2[0].0] + inorder(ch2[0].1));
        assert(rinorder(ch2.drop_first()) == seq![id] + inorder(sub) + rinorder(ch.drop_first()));
        assert(rinorder(ch) == rinorder(ch.drop_first()) + seq![ch[0].0] + inorder(ch[0].1));
        assert(rinorder(ch2) =~= seq![id] + inorder(sub) + rinorder(ch));
    }
}

/// Every fragment id, and every id inside a kept subtree, occurs in the
/// chain's contribution.
pub proof fn lemma_linorder_members(ch: Seq<(usize, Shape)>)
    ensures
        forall|k: int| 0 <= k < ch.len() ==> linorder(ch).contains(#[trigger] ch[k].0),
        forall|k: int, j: usize|
            0 <= k < ch.len() && #[trigger] inorder(ch[k].1).contains(j) ==> linorder(
                ch,
            ).contains(j),
    decreases ch.len(),
{
    broadcast use vstd::seq_lib::group_seq_properties;

    if ch.len() > 0 {
        lemma_linorder_members(ch.drop_first());
        assert(linorder(ch) == inorder(ch[0].1) + seq![ch[0].0] + linorder(ch.drop_first()));
        assert(linorder(ch)[inorder(ch[0].1).len() as int] == ch[0].0);
        assert(linorder(ch).contains(ch[0].0));
        assert forall|k: int| 0 <= k < ch.len() implies linorder(ch).contains(
            #[trigger] ch[k].0,
        ) by {
            if k > 0 {
                assert(ch.drop_first()[k - 1] == ch[k]);
                assert(linorder(ch.drop_first()).contains(ch[k].0));
            }
        }
        assert forall|k: int, j: usize|
            0 <= k < ch.len() && #[trigger] inorder(ch[k].1).contains(j) implies linorder(
            ch,
        ).contains(j) by {
            if k == 0 {
                let i = choose|i: int| 0 <= i < inorder(ch[0].1).len() && inorder(ch[0].1)[i] == j;
                assert(linorder(ch)[i] == j);
            } else {
                assert(ch.drop_first()[k - 1] == ch[k]);
                assert(linorder(ch.drop_first()).contains(j));
            }
        }
    }
}

/// Mirror image of [`lemma_linorder_members`].
pub proof fn lemma_rinorder_members(ch: Seq<(usize, Shape)>)
    ensures
        forall|k: int| 0 <= k < ch.len() ==> rinorder(ch).contains(#[trigger] ch[k].0),
        forall|k: int, j: usize|
            0 <= k < ch.len() && #[trigger] inorder(ch[k].1).contains(j) ==> rinorder(
                ch,
            ).contains(j),
    decreases ch.len(),
{
    broadcast use vstd::seq_lib::group_seq_properties;

    if ch.len() > 0 {
        lemma_rinorder_members(ch.drop_first());
        assert(rinorder(ch) == rinorder(ch.drop_first()) + seq![ch[0].0] + inorder(ch[0].1));
        assert(rinorder(ch)[rinorder(ch.drop_first()).len() as int] == ch[0].0);
        assert(rinorder(ch).contains(ch[0].0));
        assert forall|k: int| 0 <= k < ch.len() implies rinorder(ch).contains(
            #[trigger] ch[k].0,
        ) by {
            if k > 0 {
                assert(ch.drop_first()[k - 1] == ch[k]);
                assert(rinorder(ch.drop_first()).contains(ch[k].0));
            }
        }
        assert forall|k: int, j: usize|
            0 <= k < ch.len() && #[trigger] inorder(ch[k].1).contains(j) implies rinorder(
            ch,
        ).contains(j) by {
            if k == 0 {
                let i = choose|i: int| 0 <= i < inorder(ch[0].1).len() && inorder(ch[0].1)[i] == j;
                assert(rinorder(ch)[rinorder(ch.drop_first()).len() + 1 + i] == j);
            } else {
                assert(ch.drop_first()[k - 1] == ch[k]);
                assert(rinorder(ch.drop_first()).contains(j));
            }
        }
    }
}

/// In a duplicate-free left chain, fragment ids are pairwise distinct and no
/// fragment id occurs inside any kept subtree.
pub proof fn lemma_lchain_distinct(ch: Seq<(usize, Shape)>)
    requires
        linorder(ch).no_duplicates(),
    ensures
        forall|k: int, k2: int|
            #![trigger ch[k], ch[k2]]
            0 <= k < ch.len() && 0 <= k2 < ch.len() && k != k2 ==> ch[k].0 != ch[k2].0,
        forall|k: int, k2: int|
            #![trigger ch[k], ch[k2]]
            0 <= k < ch.len() && 0 <= k2 < ch.len() ==> !inorder(ch[k2].1).contains(ch[k].0),
    decreases ch.len(),
{
    broadcast use vstd::seq_lib::group_seq_properties;

    if ch.len() > 0 {
        let rest = ch.drop_first();
        let sub0 = ch[0].1;
        let id0 = ch[0].0;
        assert(linorder(ch) == inorder(sub0) + seq![id0] + linorder(rest));
        crate::node::lemma_no_dup_parts(inorder(sub0) + seq![id0], linorder(rest));
        crate::node::lemma_no_dup_parts(inorder(sub0), seq![id0]);
        lemma_lchain_distinct(rest);
        lemma_linorder_members(rest);
        assert(forall|k: int| 0 <= k < rest.len() ==> #[trigger] rest[k] == ch[k + 1]);
        assert(seq![id0].contains(id0));
        assert(!inorder(sub0).contains(id0));
        assert(!linorder(rest).contains(id0)) by {
            if linorder(rest).contains(id0) {
                assert((inorder(sub0) + seq![id0]).contains(id0));
            }
        }
        assert forall|k: int, k2: int|
            #![trigger ch[k], ch[k2]]
            0 <= k < ch.len() && 0 <= k2 < ch.len() && k != k2 implies ch[k].0 != ch[k2].0 by {
            if k == 0 {
                assert(rest[k2 - 1] == ch[k2]);
                assert(linorder(rest).contains(ch[k2].0));
            } else if k2 == 0 {
                assert(rest[k - 1] == ch[k]);
                assert(linorder(rest).contains(ch[k].0));
            } else {
                assert(rest[k - 1] == ch[k] && rest[k2 - 1] == ch[k2]);
            }
        }
        assert forall|k: int, k2: int|
            #![trigger ch[k], ch[k2]]
            0 <= k < ch.len() && 0 <= k2 < ch.len() implies !inorder(ch[k2].1).contains(
            ch[k].0,
        ) by {
            if k == 0 && k2 == 0 {
            } else if k == 0 {
                assert(rest[k2 - 1] == ch[k2]);
                if inorder(ch[k2].1).contains(id0) {
                    assert(linorder(rest).contains(id0));
                    assert((inorder(sub0) + seq![id0]).contains(id0));
                }
            } else if k2 == 0 {
                assert(rest[k - 1] == ch[k]);
                if inorder(sub0).contains(ch[k].0) {
                    assert(linorder(rest).contains(ch[k].0));
                    assert((inorder(sub0) + seq![id0]).contains(ch[k].0));
                }
            } else {
                assert(rest[k - 1] == ch[k] && rest[k2 - 1] == ch[k2]);
            }
        }
    }
}

/// Mirror image of [`lemma_lchain_distinct`].
pub proof fn lemma_rchain_distinct(ch: Seq<(usize, Shape)>)
    requires
        rinorder(ch).no_duplicates(),
    ensures
        forall|k: int, k2: int|
            #![trigger ch[k], ch[k2]]
            0 <= k < ch.len() && 0 <= k2 < ch.len() && k != k2 ==> ch[k].0 != ch[k2].0,
        forall|k: int, k2: int|
            #![trigger ch[k], ch[k2]]
            0 <= k < ch.len() && 0 <= k2 < ch.len() ==> !inorder(ch[k2].1).contains(ch[k].0),
    decreases ch.len(),
{
    broadcast use vstd::seq_lib::group_seq_properties;

    if ch.len() > 0 {
        let rest = ch.drop_first();
        let sub0 = ch[0].1;
        let id0 = ch[0].0;
        assert(rinorder(ch) == rinorder(rest) + seq![id0] + inorder(sub0));
        crate::node::lemma_no_dup_parts(rinorder(rest) + seq![id0], inorder(sub0));
        crate::node::lemma_no_dup_parts(rinorder(rest), seq![id0]);
        lemma_rchain_distinct(rest);
        lemma_rinorder_members(rest);
        assert(forall|k: int| 0 <= k < rest.len() ==> #[trigger] rest[k] == ch[k + 1]);
        assert(seq![id0].contains(id0));
        assert(!inorder(sub0).contains(id0)) by {
            if inorder(sub0).contains(id0) {
                assert((rinorder(rest) + seq![id0]).contains(id0));
            }
        }
        assert(!rinorder(rest).contains(id0));
        assert forall|k: int, k2: int|
            #![trigger ch[k], ch[k2]]
            0 <= k < ch.len() && 0 <= k2 < ch.len() && k != k2 implies ch[k].0 != ch[k2].0 by {
            if k == 0 {
                assert(rest[k2 - 1] == ch[k2]);
                assert(rinorder(rest).contains(ch[k2].0));
            } else if k2 == 0 {
                assert(rest[k - 1] == ch[k]);
                assert(rinorder(rest).contains(ch[k].0));
            } else {
                assert(rest[k - 1] == ch[k] && rest[k2 - 1] == ch[k2]);
            }
        }
        assert forall|k: int, k2: int|
            #![trigger ch[k], ch[k2]]
            0 <= k < ch.len() && 0 <= k2 < ch.len() implies !inorder(ch[k2].1).contains(
            ch[k].0,
        ) by {
            if k == 0 && k2 == 0 {
            } else if k == 0 {
                assert(rest[k2 - 1] == ch[k2]);
                if inorder(ch[k2].1).contains(id0) {
                    assert(rinorder(rest).contains(id0));
                    assert((rinorder(rest) + seq![id0]).contains(id0));
                }
            } else if k2 == 0 {
                assert(rest[k - 1] == ch[k]);
                if inorder(sub0).contains(ch[k].0) {
                    assert(rinorder(rest).contains(ch[k].0));
                    assert((rinorder(rest) + seq![id0]).contains(ch[k].0));
                }
            } else {
                assert(rest[k - 1] == ch[k] && rest[k2 - 1] == ch[k2]);
            }
        }
    }
}

/// The ids of the whole splay state: parked left fragments, then the subtree
/// still being descended, then parked right fragments.
pub open spec fn seg(lch: Seq<(usize, Shape)>, cs: Shape, rch: Seq<(usize, Shape)>) -> Seq<usize> {
    linorder(lch) + inorder(cs) + rinorder(rch)
}

/// Membership in a part gives membership in the whole splay state.
pub proof fn lemma_seg_members(lch: Seq<(usize, Shape)>, cs: Shape, rch: Seq<(usize, Shape)>)
    ensures
        forall|j: usize| #[trigger]
            linorder(lch).contains(j) ==> seg(lch, cs, rch).contains(j),
        forall|j: usize| #[trigger] inorder(cs).contains(j) ==> seg(lch, cs, rch).contains(j),
        forall|j: usize| #[trigger]
            rinorder(rch).contains(j) ==> seg(lch, cs, rch).contains(j),
{
    let a = linorder(lch);
    let b = inorder(cs);
    let c = rinorder(rch);
    assert forall|j: usize| #[trigger] a.contains(j) implies seg(lch, cs, rch).contains(j) by {
        let i = choose|i: int| 0 <= i < a.len() && a[i] == j;
        assert(seg(lch, cs, rch)[i] == j);
    }
    assert forall|j: usize| #[trigger] b.contains(j) implies seg(lch, cs, rch).contains(j) by {
        let i = choose|i: int| 0 <= i < b.len() && b[i] == j;
        assert(seg(lch, cs, rch)[a.len() + i] == j);
    }
    assert forall|j: usize| #[trigger] c.contains(j) implies seg(lch, cs, rch).contains(j) by {
        let i = choose|i: int| 0 <= i < c.len() && c[i] == j;
        assert(seg(lch, cs, rch)[a.len() + b.len() + i] == j);
    }
}

/// Splitting a duplicate-free splay state: each part is duplicate-free and
/// the parts are pairwise disjoint.
pub proof fn lemma_seg_no_dup(lch: Seq<(usize, Shape)>, cs: Shape, rch: Seq<(usize, Shape)>)
    requires
        seg(lch, cs, rch).no_duplicates(),
    ensures
        linorder(lch).no_duplicates(),
        inorder(cs).no_duplicates(),
        rinorder(rch).no_duplicates(),
        forall|x: usize| #[trigger]
            linorder(lch).contains(x) ==> !inorder(cs).contains(x) && !rinorder(rch).contains(x),
        forall|x: usize| #[trigger] inorder(cs).contains(x) ==> !rinorder(rch).contains(x),
{
    broadcast use vstd::seq_lib::group_seq_properties;

    crate::node::lemma_no_dup_parts(linorder(lch) + inorder(cs), rinorder(rch));
    crate::node::lemma_no_dup_parts(linorder(lch), inorder(cs));
    assert forall|x: usize| #[trigger] linorder(lch).contains(x) implies !inorder(cs).contains(x)
        && !rinorder(rch).contains(x) by {
        assert((linorder(lch) + inorder(cs)).contains(x));
    }
    assert forall|x: usize| #[trigger] inorder(cs).contains(x) implies !rinorder(rch).contains(
        x,
    ) by {
        assert((linorder(lch) + inorder(cs)).contains(x));
    }
}

/// Every id a left chain contributes is in bounds for the slab.
pub proof fn lemma_lchain_bounds(nodes: Seq<Node>, ch: Seq<(usize, Shape)>)
    requires
        lchain_wf(nodes, ch),
    ensures
        forall|j: usize| #[trigger] linorder(ch).contains(j) ==> j < nodes.len(),
    decreases ch.len(),
{
    broadcast use vstd::seq_lib::group_seq_properties;

    if ch.len() > 0 {
        let rest = ch.drop_first();
        assert(forall|k: int| 0 <= k < rest.len() ==> #[trigger] rest[k] == ch[k + 1]);
        assert(lchain_wf(nodes, rest));
        lemma_lchain_bounds(nodes, rest);
        crate::node::lemma_wf_links_bounds(nodes, ch[0].1);
        assert forall|j: usize| #[trigger] linorder(ch).contains(j) implies j < nodes.len() by {
            assert((inorder(ch[0].1) + seq![ch[0].0] + linorder(rest)).contains(j));
            if seq![ch[0].0].contains(j) {
                assert(j == ch[0].0);
            }
        }
    }
}

/// Mirror image of [`lemma_lchain_bounds`].
pub proof fn lemma_rchain_bounds(nodes: Seq<Node>, ch: Seq<(usize, Shape)>)
    requires
        rchain_wf(nodes, ch),
    ensures
        forall|j: usize| #[trigger] rinorder(ch).contains(j) ==> j < nodes.len(),
    decreases ch.len(),
{
    broadcast use vstd::seq_lib::group_seq_properties;

    if ch.len() > 0 {
        let rest = ch.drop_first();
        assert(forall|k: int| 0 <= k < rest.len() ==> #[trigger] rest[k] == ch[k + 1]);
        assert(rchain_wf(nodes, rest));
        lemma_rchain_bounds(nodes, rest);
        crate::node::lemma_wf_links_bounds(nodes, ch[0].1);
        assert forall|j: usize| #[trigger] rinorder(ch).contains(j) implies j < nodes.len() by {
            assert((rinorder(rest) + seq![ch[0].0] + inorder(ch[0].1)).contains(j));
            if seq![ch[0].0].contains(j) {
                assert(j == ch[0].0);
            }
        }
    }
}

/// The in-order ids of an assembled left chain, independent of any slab.
pub proof fn lemma_assemble_l_pure(ch: Seq<(usize, Shape)>, hole: Shape)
    ensures
        inorder(assemble_l(ch, hole)) == linorder(ch) + inorder(hole),
        root_opt(assemble_l(ch, hole)) == if ch.len() > 0 {
            Some(ch[0].0)
        } else {
            root_opt(hole)
        },
    decreases ch.len(),
{
    if ch.len() == 0 {
        assert(inorder(assemble_l(ch, hole)) =~= linorder(ch) + inorder(hole));
    } else {
        lemma_assemble_l_pure(ch.drop_first(), hole);
        assert(inorder(assemble_l(ch, hole)) =~= linorder(ch) + inorder(hole));
    }
}

/// Mirror image of [`lemma_assemble_l_pure`].
pub proof fn lemma_assemble_r_pure(ch: Seq<(usize, Shape)>, hole: Shape)
    ensures
        inorder(assemble_r(ch, hole)) == inorder(hole) + rinorder(ch),
        root_opt(assemble_r(ch, hole)) == if ch.len() > 0 {
            Some(ch[0].0)
        } else {
            root_opt(hole)
        },
    decreases ch.len(),
{
    if ch.len() == 0 {
        assert(inorder(assemble_r(ch, hole)) =~= inorder(hole) + rinorder(ch));
    } else {
        lemma_assemble_r_pure(ch.drop_first(), hole);
        assert(inorder(assemble_r(ch, hole)) =~= inorder(hole) + rinorder(ch));
    }
}

/// A left chain still agrees with a slab in which none of its ids changed.
pub proof fn lemma_lchain_frame(n1: Seq<Node>, n2: Seq<Node>, ch: Seq<(usize, Shape)>)
    requires
        lchain_wf(n1, ch),
        n2.len() == n1.len(),
        forall|j: usize| #[trigger] linorder(ch).contains(j) ==> n2[j as int] == n1[j as int],
    ensures
        lchain_wf(n2, ch),
{
    lemma_linorder_members(ch);
    assert forall|k: int| 0 <= k < ch.len() implies {
        &&& ch[k].0 < n2.len()
        &&& wf_links(n2, #[trigger] ch[k].1)
        &&& n2[ch[k].0 as int].left == root_opt(ch[k].1)
        &&& (k + 1 < ch.len() ==> n2[ch[k].0 as int].right == Some(ch[k + 1].0))
    } by {
        assert(linorder(ch).contains(ch[k].0));
        crate::node::lemma_wf_links_bounds(n1, ch[k].1);
        assert forall|j: usize| #[trigger]
            inorder(ch[k].1).contains(j) implies j < n2.len() && n2[j as int] == n1[j as int] by {
            assert(linorder(ch).contains(j));
        }
        lemma_wf_links_frame(n1, n2, ch[k].1);
    }
}

/// Mirror image of [`lemma_lchain_frame`].
pub proof fn lemma_rchain_frame(n1: Seq<Node>, n2: Seq<Node>, ch: Seq<(usize, Shape)>)
    requires
        rchain_wf(n1, ch),
        n2.len() == n1.len(),
        forall|j: usize| #[trigger] rinorder(ch).contains(j) ==> n2[j as int] == n1[j as int],
    ensures
        rchain_wf(n2, ch),
{
    lemma_rinorder_members(ch);
    assert forall|k: int| 0 <= k < ch.len() implies {
        &&& ch[k].0 < n2.len()
        &&& wf_links(n2, #[trigger] ch[k].1)
        &&& n2[ch[k].0 as int].right == root_opt(ch[k].1)
        &&& (k + 1 < ch.len() ==> n2[ch[k].0 as int].left == Some(ch[k + 1].0))
    } by {
        assert(rinorder(ch).contains(ch[k].0));
        crate::node::lemma_wf_links_bounds(n1, ch[k].1);
        assert forall|j: usize| #[trigger]
            inorder(ch[k].1).contains(j) implies j < n2.len() && n2[j as int] == n1[j as int] by {
            assert(rinorder(ch).contains(j));
        }
        lemma_wf_links_frame(n1, n2, ch[k].1);
    }
}

/// Appending a fragment to a left chain whose hole was just pointed at it:
/// the grown chain agrees with the slab.
pub proof fn lemma_grow_lchain(
    pre: Seq<Node>,
    now: Seq<Node>,
    ch: Seq<(usize, Shape)>,
    id: usize,
    sub: Shape,
)
    requires
        lchain_wf(pre, ch),
        linorder(ch).no_duplicates(),
        now.len() == pre.len(),
        id < now.len(),
        forall|j: int| 0 <= j < pre.len() && (ch.len() == 0 || j != ch.last().0 as int) ==> now[j]
            == pre[j],
        ch.len() > 0 ==> now[ch.last().0 as int].right == Some(id) && now[ch.last().0 as int].left
            == pre[ch.last().0 as int].left,
        now[id as int].left == root_opt(sub),
        wf_links(now, sub),
    ensures
        lchain_wf(now, ch.push((id, sub))),
{
    lemma_lchain_distinct(ch);
    lemma_linorder_members(ch);
    let ch2 = ch.push((id, sub));
    assert forall|k: int| 0 <= k < ch2.len() implies {
        &&& (#[trigger] ch2[k]).0 < now.len()
        &&& wf_links(now, ch2[k].1)
        &&& now[ch2[k].0 as int].left == root_opt(ch2[k].1)
        &&& (k + 1 < ch2.len() ==> now[ch2[k].0 as int].right == Some(ch2[k + 1].0))
    } by {
        if k < ch.len() {
            assert(ch2[k] == ch[k]);
            assert(ch[ch.len() - 1] == ch.last());
            assert forall|j: usize| #[trigger]
                inorder(ch[k].1).contains(j) implies j < now.len() && now[j as int]
                == pre[j as int] by {
                crate::node::lemma_wf_links_bounds(pre, ch[k].1);
                assert(!inorder(ch[k].1).contains(ch[ch.len() - 1].0));
            }
            lemma_wf_links_frame(pre, now, ch[k].1);
            if k + 1 < ch.len() {
                assert(ch[k].0 != ch.last().0);
                assert(ch2[k + 1] == ch[k + 1]);
            } else if k + 1 < ch2.len() {
                assert(k == ch.len() - 1);
                assert(ch2[k + 1] == (id, sub));
            }
        } else {
            assert(ch2[k] == (id, sub));
        }
    }
}

/// Mirror image of [`lemma_grow_lchain`].
pub proof fn lemma_grow_rchain(
    pre: Seq<Node>,
    now: Seq<Node>,
    ch: Seq<(usize, Shape)>,
    id: usize,
    sub: Shape,
)
    requires
        rchain_wf(pre, ch),
        rinorder(ch).no_duplicates(),
        now.len() == pre.len(),
        id < now.len(),
        forall|j: int| 0 <= j < pre.len() && (ch.len() == 0 || j != ch.last().0 as int) ==> now[j]
            == pre[j],
        ch.len() > 0 ==> now[ch.last().0 as int].left == Some(id) && now[ch.last().0 as int].right
            == pre[ch.last().0 as int].right,
        now[id as int].right == root_opt(sub),
        wf_links(now, sub),
    ensures
        rchain_wf(now, ch.push((id, sub))),
{
    lemma_rchain_distinct(ch);
    lemma_rinorder_members(ch);
    let ch2 = ch.push((id, sub));
    assert forall|k: int| 0 <= k < ch2.len() implies {
        &&& (#[trigger] ch2[k]).0 < now.len()
        &&& wf_links(now, ch2[k].1)
        &&& now[ch2[k].0 as int].right == root_opt(ch2[k].1)
        &&& (k + 1 < ch2.len() ==> now[ch2[k].0 as int].left == Some(ch2[k + 1].0))
    } by {
        if k < ch.len() {
            assert(ch2[k] == ch[k]);
            assert(ch[ch.len() - 1] == ch.last());
            assert forall|j: usize| #[trigger]
                inorder(ch[k].1).contains(j) implies j < now.len() && now[j as int]
                == pre[j as int] by {
                crate::node::lemma_wf_links_bounds(pre, ch[k].1);
                assert(!inorder(ch[k].1).contains(ch[ch.len() - 1].0));
            }
            lemma_wf_links_frame(pre, now, ch[k].1);
            if k + 1 < ch.len() {
                assert(ch[k].0 != ch.last().0);
                assert(ch2[k + 1] == ch[k + 1]);
            } else if k + 1 < ch2.len() {
                assert(k == ch.len() - 1);
                assert(ch2[k + 1] == (id, sub));
            }
        } else {
            assert(ch2[k] == (id, sub));
        }
    }
}

/// A left chain survives writes that spare every chain id except, possibly,
/// the last fragment's right slot (its hole being filled).
pub proof fn lemma_lchain_keep(pre: Seq<Node>, now: Seq<Node>, ch: Seq<(usize, Shape)>)
    requires
        lchain_wf(pre, ch),
        linorder(ch).no_duplicates(),
        now.len() == pre.len(),
        forall|j: usize| #[trigger]
            linorder(ch).contains(j) && (ch.len() == 0 || j != ch.last().0) ==> now[j as int]
                == pre[j as int],
        ch.len() > 0 ==> now[ch.last().0 as int].left == pre[ch.last().0 as int].left,
    ensures
        lchain_wf(now, ch),
{
    lemma_lchain_distinct(ch);
    lemma_linorder_members(ch);
    assert forall|k: int| 0 <= k < ch.len() implies {
        &&& (#[trigger] ch[k]).0 < now.len()
        &&& wf_links(now, ch[k].1)
        &&& now[ch[k].0 as int].left == root_opt(ch[k].1)
        &&& (k + 1 < ch.len() ==> now[ch[k].0 as int].right == Some(ch[k + 1].0))
    } by {
        assert(ch[ch.len() - 1] == ch.last());
        assert(linorder(ch).contains(ch[k].0));
        assert forall|j: usize| #[trigger]
            inorder(ch[k].1).contains(j) implies j < now.len() && now[j as int]
            == pre[j as int] by {
            crate::node::lemma_wf_links_bounds(pre, ch[k].1);
            assert(linorder(ch).contains(j));
            assert(!inorder(ch[k].1).contains(ch[ch.len() - 1].0));
        }
        lemma_wf_links_frame(pre, now, ch[k].1);
        if k + 1 < ch.len() {
            assert(ch[k].0 != ch.last().0);
        }
    }
}

/// Mirror image of [`lemma_lchain_keep`].
pub proof fn lemma_rchain_keep(pre: Seq<Node>, now: Seq<Node>, ch: Seq<(usize, Shape)>)
    requires
        rchain_wf(pre, ch),
        rinorder(ch).no_duplicates(),
        now.len() == pre.len(),
        forall|j: usize| #[trigger]
            rinorder(ch).contains(j) && (ch.len() == 0 || j != ch.last().0) ==> now[j as int]
                == pre[j as int],
        ch.len() > 0 ==> now[ch.last().0 as int].right == pre[ch.last().0 as int].right,
    ensures
        rchain_wf(now, ch),
{
    lemma_rchain_distinct(ch);
    lemma_rinorder_members(ch);
    assert forall|k: int| 0 <= k < ch.len() implies {
        &&& (#[trigger] ch[k]).0 < now.len()
        &&& wf_links(now, ch[k].1)
        &&& now[ch[k].0 as int].right == root_opt(ch[k].1)
        &&& (k + 1 < ch.len() ==> now[ch[k].0 as int].left == Some(ch[k + 1].0))
    } by {
        assert(ch[ch.len() - 1] == ch.last());
        assert(rinorder(ch).contains(ch[k].0));
        assert forall|j: usize| #[trigger]
            inorder(ch[k].1).contains(j) implies j < now.len() && now[j as int]
            == pre[j as int] by {
            crate::node::lemma_wf_links_bounds(pre, ch[k].1);
            assert(rinorder(ch).contains(j));
            assert(!inorder(ch[k].1).contains(ch[ch.len() - 1].0));
        }
        lemma_wf_links_frame(pre, now, ch[k].1);
        if k + 1 < ch.len() {
            assert(ch[k].0 != ch.last().0);
        }
    }
}

/// Once the hole of a left chain is plugged, the assembled tree is well
/// linked, contributes the chain's ids followed by the hole's, and is rooted
/// at the first fragment.
pub proof fn lemma_assemble_l(nodes: Seq<Node>, ch: Seq<(usize, Shape)>, hole: Shape)
    requires
        lchain_wf(nodes, ch),
        wf_links(nodes, hole),
        ch.len() > 0 ==> nodes[ch.last().0 as int].right == root_opt(hole),
    ensures
        wf_links(nodes, assemble_l(ch, hole)),
        inorder(assemble_l(ch, hole)) == linorder(ch) + inorder(hole),
        root_opt(assemble_l(ch, hole)) == if ch.len() > 0 {
            Some(ch[0].0)
        } else {
            root_opt(hole)
        },
    decreases ch.len(),
{
    if ch.len() == 0 {
        assert(inorder(assemble_l(ch, hole)) =~= linorder(ch) + inorder(hole));
    } else {
        let rest = ch.drop_first();
        assert(forall|k: int| 0 <= k < rest.len() ==> #[trigger] rest[k] == ch[k + 1]);
        if rest.len() > 0 {
            assert(rest.last() == ch.last());
        }
        lemma_assemble_l(nodes, rest, hole);
        assert(wf_links(nodes, assemble_l(ch, hole)));
        assert(inorder(assemble_l(ch, hole)) =~= linorder(ch) + inorder(hole));
    }
}

/// Mirror image of [`lemma_assemble_l`].
pub proof fn lemma_assemble_r(nodes: Seq<Node>, ch: Seq<(usize, Shape)>, hole: Shape)
    requires
        rchain_wf(nodes, ch),
        wf_links(nodes, hole),
        ch.len() > 0 ==> nodes[ch.last().0 as int].left == root_opt(hole),
    ensures
        wf_links(nodes, assemble_r(ch, hole)),
        inorder(assemble_r(ch, hole)) == inorder(hole) + rinorder(ch),
        root_opt(assemble_r(ch, hole)) == if ch.len() > 0 {
            Some(ch[0].0)
        } else {
            root_opt(hole)
        },
    decreases ch.len(),
{
    if ch.len() == 0 {
        assert(inorder(assemble_r(ch, hole)) =~= inorder(hole) + rinorder(ch));
    } else {
        let rest = ch.drop_first();
        assert(forall|k: int| 0 <= k < rest.len() ==> #[trigger] rest[k] == ch[k + 1]);
        if rest.len() > 0 {
            assert(rest.last() == ch.last());
        }
        lemma_assemble_r(nodes, rest, hole);
        assert(wf_links(nodes, assemble_r(ch, hole)));
        assert(inorder(assemble_r(ch, hole)) =~= inorder(hole) + rinorder(ch));
    }
}

} // verus!

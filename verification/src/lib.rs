//! An intrusive-style, multi-index splay tree over externally owned records.
//!
//! Records live in storage owned by the caller (a `Vec` playing the role of
//! an arena) and are named by their index in that storage. Each tree
//! maintains one total ordering — one *index* — over a set of such records,
//! and several trees with different orderings can index the same records
//! independently: a tree only rewires the link slots it keeps per record id
//! and hands record ids back; it never owns, copies or frees a record.
//!
//! An index is described by a marker type implementing [`IntrusiveNode`],
//! which binds the element type and the record's key under that index.
//! Queries — the element type itself, or any narrower key type — implement
//! [`TreeOrd`] against that marker. The erased engine in [`internal`] does
//! the balancing once for all indexes; this module only translates between
//! typed queries and the engine's comparison capability.

pub mod chain;
pub mod internal;
pub mod monsters;
pub mod node;
pub mod order;

use vstd::prelude::*;

verus! {

use core::cmp::Ordering;
use core::marker::PhantomData;
use crate::internal::{CompareToNode, keys_of, tree_sorted, covers, cmp_at, best_match};
use crate::order::{QueryPos, q_cmp};

/// Binds an index marker type to its element type `E`: which total ordering
/// — expressed as an integer key per record — this index maintains.
pub trait IntrusiveNode<E>: Sized {
    /// The record's key under this index.
    spec fn key_of(e: E) -> int;
}

/// A total ordering between `Self` and the tree's element type, under the
/// index `T`. Lets a tree be probed without constructing a full element.
pub trait TreeOrd<T, E> where T: IntrusiveNode<E> {
    /// Where this probe stands on the index's key line.
    spec fn query_pos(&self) -> QueryPos;

    /// Three-way comparison of this probe against an element.
    fn tree_cmp(&self, elem: &E) -> (r: Ordering)
        ensures
            r == q_cmp(self.query_pos(), T::key_of(*elem)),
    ;
}

/// The erased comparison capability a typed probe turns into: "compare my
/// key to the record behind this id", resolved through the caller's record
/// storage.
pub(crate) struct Query<'q, K, T, E> {
    pub(crate) key: &'q K,
    pub(crate) elems: &'q Vec<E>,
    pub(crate) tag: PhantomData<T>,
}

impl<'q, K, T, E> Query<'q, K, T, E> where T: IntrusiveNode<E>, K: TreeOrd<T, E> {
    /// Wrap a typed probe and the record storage it is evaluated against.
    pub(crate) fn new(key: &'q K, elems: &'q Vec<E>) -> (q: Self)
        ensures
            q.key == key,
            q.elems == elems,
    {
        Query { key, elems, tag: PhantomData }
    }
}

impl<'q, K, T, E> CompareToNode for Query<'q, K, T, E> where T: IntrusiveNode<E>, K: TreeOrd<
    T,
    E,
> {
    closed spec fn node_key(&self, node: usize) -> int {
        T::key_of(self.elems@[node as int])
    }

    closed spec fn query(&self) -> QueryPos {
        self.key.query_pos()
    }

    closed spec fn can_compare(&self, node: usize) -> bool {
        node < self.elems@.len()
    }

    fn compare_to_node(&self, node: usize) -> (r: Ordering) {
        self.key.tree_cmp(&self.elems[node])
    }
}

/// The record's keys under index `T`, read out of the record storage.
pub open spec fn elem_keys<T: IntrusiveNode<E>, E>(elems: Seq<E>) -> spec_fn(usize) -> int {
    |n: usize| T::key_of(elems[n as int])
}

/// `rr` is the probe's in-order neighbour among `ids`: it is one of them,
/// and on whichever side of the probe its record fell, no record on that
/// side stands nearer the probe. A missed probe leaves such a record at the
/// root; a hit matches outright and both side conditions are vacuous.
pub open spec fn nearest_match<T: IntrusiveNode<E>, E>(
    qp: QueryPos,
    elems: Seq<E>,
    ids: Seq<usize>,
    rr: usize,
) -> bool {
    &&& ids.contains(rr)
    &&& (q_cmp(qp, T::key_of(elems[rr as int])) == Ordering::Less ==> (forall|j: usize| #[trigger]
        ids.contains(j) && q_cmp(qp, T::key_of(elems[j as int])) == Ordering::Less ==> T::key_of(
            elems[rr as int],
        ) <= T::key_of(elems[j as int])))
    &&& (q_cmp(qp, T::key_of(elems[rr as int])) == Ordering::Greater ==> (forall|j: usize|
        #[trigger]
        ids.contains(j) && q_cmp(qp, T::key_of(elems[j as int])) == Ordering::Greater
            ==> T::key_of(elems[j as int]) <= T::key_of(elems[rr as int])))
}

/// An intrusive splay tree for one index `T` over elements `E`.
///
/// The tree stores record ids (indices into the caller's record storage) and
/// the two link slots it keeps for each of them; every operation that
/// consults the ordering takes the record storage as an argument.
pub struct SplayTree<T, E> {
    tree: internal::SplayTree,
    tag: PhantomData<T>,
    elem: PhantomData<E>,
}

impl<T, E> SplayTree<T, E> where T: IntrusiveNode<E> {
    /// The record ids currently in the tree, in key order.
    pub closed spec fn ids(self) -> Seq<usize> {
        self.tree.ids()
    }

    /// Whether the record id `i` is in the tree.
    pub open spec fn contains_id(self, i: usize) -> bool {
        self.ids().contains(i)
    }

    /// Whether some record in the tree carries the key `x`.
    pub open spec fn has_key(self, elems: Seq<E>, x: int) -> bool {
        exists|j: usize| #[trigger] self.ids().contains(j) && T::key_of(elems[j as int]) == x
    }

    /// The record id at the root, if the tree is non-empty.
    pub closed spec fn root_id(self) -> Option<usize> {
        self.tree.root_id()
    }

    /// The tree's internal link structure is a well-formed binary tree.
    pub closed spec fn inv(self) -> bool {
        self.tree.wf()
    }

    /// The tree is well formed for the given record storage: every id in
    /// range, and the in-order ids strictly increasing in key.
    pub open spec fn valid(self, elems: Seq<E>) -> bool {
        &&& self.inv()
        &&& forall|j: usize| #[trigger] self.ids().contains(j) ==> j < elems.len()
        &&& crate::node::sorted_by(elem_keys::<T, E>(elems), self.ids())
    }

    /// Construct a new, empty tree, valid for any record storage.
    pub fn new() -> (t: Self)
        ensures
            t.inv(),
            t.ids() == Seq::<usize>::empty(),
            t.root_id() == None::<usize>,
            forall|es: Seq<E>| #[trigger] t.valid(es),
    {
        let t = SplayTree { tree: internal::SplayTree::new(), tag: PhantomData, elem: PhantomData };
        proof {
            assert forall|es: Seq<E>| #[trigger] t.valid(es) by {
                assert(forall|j: usize| !t.ids().contains(j));
            }
        }
        t
    }

    /// Is this tree empty?
    pub fn is_empty(&self) -> (r: bool)
        requires
            self.inv(),
        ensures
            r <==> self.ids().len() == 0,
    {
        self.tree.is_empty()
    }

    /// The record id at the root, if any.
    pub fn root(&self) -> (r: Option<usize>)
        requires
            self.inv(),
        ensures
            r == self.root_id(),
            r matches Some(i) ==> self.contains_id(i),
            r is Some <==> self.ids().len() > 0,
    {
        proof {
            self.tree.lemma_root_id();
        }
        self.tree.root()
    }

    /// Turn the tree-is-sorted part of `valid` into the engine's view of the
    /// same fact for one probe.
    proof fn lemma_query_agrees<'q, K: TreeOrd<T, E>>(self, q: &Query<'q, K, T, E>)
        requires
            self.valid(q.elems@),
        ensures
            covers(q, self.ids()),
            tree_sorted(q, self.ids()),
    {
        let elems = q.elems@;
        assert forall|i: int, j: int|
            #![trigger self.ids()[i], self.ids()[j]]
            0 <= i < j < self.ids().len() implies keys_of(q)(self.ids()[i]) < keys_of(q)(
            self.ids()[j],
        ) by {
            assert(elem_keys::<T, E>(elems)(self.ids()[i]) < elem_keys::<T, E>(elems)(
                self.ids()[j],
            ));
        }
    }

    /// Find the record matching `key`, splaying the best match to the root;
    /// the result is returned only if it compares `Equal`.
    pub fn find<K: TreeOrd<T, E>>(&mut self, elems: &Vec<E>, key: &K) -> (r: Option<usize>)
        requires
            old(self).valid(elems@),
        ensures
            final(self).valid(elems@),
            final(self).ids() == old(self).ids(),
            match r {
                Some(i) => old(self).contains_id(i) && q_cmp(
                    key.query_pos(),
                    T::key_of(elems@[i as int]),
                ) == Ordering::Equal && final(self).root_id() == Some(i),
                None => (forall|j: usize| #[trigger]
                    old(self).ids().contains(j) ==> q_cmp(
                        key.query_pos(),
                        T::key_of(elems@[j as int]),
                    ) != Ordering::Equal) && (old(self).ids().len() > 0 ==> (final(self).root_id() matches Some(rr) && nearest_match::<T, E>(
                    key.query_pos(),
                    elems@,
                    old(self).ids(),
                    rr,
                ))),
            },
    {
        let q: Query<K, T, E> = Query::new(key, elems);
        proof {
            self.lemma_query_agrees(&q);
        }
        let ghost pres = self.ids();
        let r = self.tree.find(&q);
        proof {
            if r is None && pres.len() > 0 {
                self.lemma_best_match_is_nearest(&q, pres);
            }
        }
        r
    }

    /// The engine's best-match fact, reread through the typed probe.
    proof fn lemma_best_match_is_nearest<'q, K: TreeOrd<T, E>>(
        self,
        q: &Query<'q, K, T, E>,
        pres: Seq<usize>,
    )
        requires
            self.root_id() matches Some(rr) && best_match(q, pres, rr),
        ensures
            self.root_id() matches Some(rr) && nearest_match::<T, E>(
                q.key.query_pos(),
                q.elems@,
                pres,
                rr,
            ),
    {
        let rr = self.root_id()->Some_0;
        let qp = q.key.query_pos();
        let elems = q.elems@;
        if q_cmp(qp, T::key_of(elems[rr as int])) == Ordering::Less {
            assert forall|j: usize| #[trigger]
                pres.contains(j) && q_cmp(qp, T::key_of(elems[j as int]))
                == Ordering::Less implies T::key_of(elems[rr as int]) <= T::key_of(
                elems[j as int],
            ) by {
                assert(cmp_at(q, j) == Ordering::Less);
            }
        }
        if q_cmp(qp, T::key_of(elems[rr as int])) == Ordering::Greater {
            assert forall|j: usize| #[trigger]
                pres.contains(j) && q_cmp(qp, T::key_of(elems[j as int]))
                == Ordering::Greater implies T::key_of(elems[j as int]) <= T::key_of(
                elems[rr as int],
            ) by {
                assert(cmp_at(q, j) == Ordering::Greater);
            }
        }
    }

    /// Insert the record with id `id`. Refused — returning `false`, with the
    /// tree's content unchanged — exactly when a record with an equal key is
    /// already present. The caller must not insert an id that is already in
    /// this tree, and the record must probe at its own key.
    pub fn insert(&mut self, elems: &Vec<E>, id: usize) -> (did: bool) where E: TreeOrd<T, E>
        requires
            old(self).valid(elems@),
            id < elems@.len(),
            !old(self).contains_id(id),
            elems@[id as int].query_pos() == QueryPos::At(T::key_of(elems@[id as int])),
        ensures
            final(self).valid(elems@),
            did <==> (forall|j: usize| #[trigger]
                old(self).ids().contains(j) ==> T::key_of(elems@[j as int]) != T::key_of(
                    elems@[id as int],
                )),
            did ==> final(self).ids().to_multiset() == old(self).ids().to_multiset().insert(id)
                && final(self).root_id() == Some(id) && final(self).contains_id(id),
            !did ==> final(self).ids() == old(self).ids() && !final(self).contains_id(id) && (
            final(self).root_id() matches Some(j) && old(self).contains_id(j) && T::key_of(
                elems@[j as int],
            ) == T::key_of(elems@[id as int])),
    {
        broadcast use vstd::seq_lib::group_to_multiset_ensures;

        let q: Query<E, T, E> = Query::new(&elems[id], elems);
        proof {
            self.lemma_query_agrees(&q);
        }
        let ghost pres = self.ids();
        let did = self.tree.insert(&q, id);
        proof {
            if did {
                assert forall|j: usize| #[trigger]
                    self.ids().contains(j) implies j < elems@.len() by {
                    assert(self.ids().to_multiset().count(j) > 0);
                    if j != id {
                        assert(pres.to_multiset().count(j) > 0);
                        assert(pres.contains(j));
                    }
                }
                assert forall|i: int, j: int|
                    #![trigger self.ids()[i], self.ids()[j]]
                    0 <= i < j < self.ids().len() implies elem_keys::<T, E>(elems@)(
                    self.ids()[i],
                ) < elem_keys::<T, E>(elems@)(self.ids()[j]) by {
                    assert(keys_of(&q)(self.ids()[i]) < keys_of(&q)(self.ids()[j]));
                }
            }
        }
        did
    }

    /// Insert every listed record, in order: the bulk form of
    /// [`Self::insert`]. A record whose key is already present — in the tree
    /// before the call, or on an earlier listed record — is refused exactly
    /// as `insert` refuses it, so the first occurrence of each key wins. The
    /// listed ids must be fresh and pairwise distinct.
    pub fn extend(&mut self, elems: &Vec<E>, ids: &Vec<usize>) where E: TreeOrd<T, E>
        requires
            old(self).valid(elems@),
            forall|p: int|
                0 <= p < ids@.len() ==> (#[trigger] ids@[p]) < elems@.len() && !old(
                    self,
                ).contains_id(ids@[p]) && elems@[ids@[p] as int].query_pos() == QueryPos::At(
                    T::key_of(elems@[ids@[p] as int]),
                ),
            forall|p: int, q: int| 0 <= p < q < ids@.len() ==> ids@[p] != ids@[q],
        ensures
            final(self).valid(elems@),
            forall|j: usize| #[trigger] old(self).ids().contains(j) ==> final(self).contains_id(j),
            forall|j: usize| #[trigger]
                final(self).ids().contains(j) ==> old(self).ids().contains(j) || ids@.contains(j),
            forall|p: int|
                0 <= p < ids@.len() ==> (final(self).contains_id(#[trigger] ids@[p]) <==> (forall|
                    j: usize,
                | #[trigger]
                    old(self).ids().contains(j) ==> T::key_of(elems@[j as int]) != T::key_of(
                        elems@[ids@[p] as int],
                    )) && (forall|q: int|
                    0 <= q < p ==> T::key_of(elems@[(#[trigger] ids@[q]) as int]) != T::key_of(
                        elems@[ids@[p] as int],
                    ))),
    {
        broadcast use vstd::seq_lib::group_to_multiset_ensures;

        let mut p: usize = 0;
        while p < ids.len()
            invariant
                self.valid(elems@),
                p <= ids@.len(),
                forall|p0: int|
                    0 <= p0 < ids@.len() ==> (#[trigger] ids@[p0]) < elems@.len() && !old(
                        self,
                    ).contains_id(ids@[p0]) && elems@[ids@[p0] as int].query_pos() == QueryPos::At(
                        T::key_of(elems@[ids@[p0] as int]),
                    ),
                forall|p0: int, q: int| 0 <= p0 < q < ids@.len() ==> ids@[p0] != ids@[q],
                forall|j: usize| #[trigger] old(self).ids().contains(j) ==> self.contains_id(j),
                forall|j: usize| #[trigger]
                    self.ids().contains(j) ==> old(self).ids().contains(j) || ids@.take(
                        p as int,
                    ).contains(j),
                forall|q: int|
                    0 <= q < p ==> self.has_key(
                        elems@,
                        T::key_of(elems@[(#[trigger] ids@[q]) as int]),
                    ),
                forall|q: int|
                    0 <= q < p ==> (self.contains_id(#[trigger] ids@[q]) <==> (forall|j: usize|
                        #[trigger]
                        old(self).ids().contains(j) ==> T::key_of(elems@[j as int]) != T::key_of(
                            elems@[ids@[q] as int],
                        )) && (forall|q2: int|
                        0 <= q2 < q ==> T::key_of(elems@[(#[trigger] ids@[q2]) as int])
                            != T::key_of(elems@[ids@[q] as int]))),
            decreases ids@.len() - p,
        {
            let id = ids[p];
            let ghost pres = self.ids();
            proof {
                assert(ids@[p as int] == id);
                // the id is fresh: it was not in the tree before the call,
                // and earlier steps inserted only other, distinct ids
                if self.contains_id(id) {
                    if ids@.take(p as int).contains(id) {
                        let q = choose|q: int|
                            0 <= q < p && ids@.take(p as int)[q] == id;
                        assert(ids@[q] == ids@[p as int]);
                    }
                    assert(false);
                }
            }
            let did = self.insert(elems, id);
            proof {
                broadcast use vstd::seq_lib::group_to_multiset_ensures;

                // membership moved monotonically: everything stays, at most
                // `id` is new
                assert forall|j: usize| #[trigger] pres.contains(j) implies self.contains_id(
                    j,
                ) by {
                    if did {
                        assert(pres.to_multiset().count(j) > 0);
                        assert(self.ids().to_multiset().count(j) > 0);
                    }
                }
                assert forall|j: usize| #[trigger] self.ids().contains(j) implies pres.contains(j)
                    || j == id by {
                    if did && j != id {
                        assert(self.ids().to_multiset().count(j) > 0);
                        assert(pres.to_multiset().count(j) > 0);
                    }
                }
                // prefix bookkeeping
                assert(ids@.take(p as int + 1)[p as int] == id);
                assert(ids@.take(p as int + 1).contains(id));
                assert forall|j: usize| #[trigger]
                    ids@.take(p as int).contains(j) implies ids@.take(p as int + 1).contains(
                    j,
                ) by {
                    let q = choose|q: int| 0 <= q < p && ids@.take(p as int)[q] == j;
                    assert(ids@.take(p as int + 1)[q] == j);
                }
                // every key of the processed prefix is still present
                assert forall|q: int| 0 <= q <= p implies self.has_key(
                    elems@,
                    T::key_of(elems@[(#[trigger] ids@[q]) as int]),
                ) by {
                    if q < p {
                        let j = choose|j: usize|
                            #[trigger] pres.contains(j) && T::key_of(elems@[j as int])
                                == T::key_of(elems@[ids@[q] as int]);
                        assert(self.ids().contains(j));
                    } else {
                        if did {
                            assert(self.ids().contains(id));
                            assert(T::key_of(elems@[id as int]) == T::key_of(
                                elems@[ids@[q] as int],
                            ));
                        } else {
                            let j = choose|j: usize|
                                #[trigger] pres.contains(j) && T::key_of(elems@[j as int])
                                    == T::key_of(elems@[id as int]);
                            assert(self.ids().contains(j));
                        }
                    }
                }
                // the first-occurrence-wins account, up to and including `p`
                assert forall|q: int| 0 <= q <= p implies (self.contains_id(#[trigger] ids@[q])
                    <==> (forall|j: usize| #[trigger]
                    old(self).ids().contains(j) ==> T::key_of(elems@[j as int]) != T::key_of(
                        elems@[ids@[q] as int],
                    )) && (forall|q2: int|
                    0 <= q2 < q ==> T::key_of(elems@[(#[trigger] ids@[q2]) as int]) != T::key_of(
                        elems@[ids@[q] as int],
                    ))) by {
                    if q < p {
                        assert(ids@[q] != id);
                        if pres.contains(ids@[q]) {
                            assert(self.contains_id(ids@[q]));
                        } else {
                            assert(!self.contains_id(ids@[q]));
                        }
                    } else {
                        if did {
                            assert(self.contains_id(id));
                            assert forall|j: usize| #[trigger]
                                old(self).ids().contains(j) implies T::key_of(elems@[j as int])
                                != T::key_of(elems@[id as int]) by {
                                assert(pres.contains(j));
                            }
                            assert forall|q2: int| 0 <= q2 < q implies T::key_of(
                                elems@[(#[trigger] ids@[q2]) as int],
                            ) != T::key_of(elems@[id as int]) by {
                                let j = choose|j: usize|
                                    #[trigger] pres.contains(j) && T::key_of(elems@[j as int])
                                        == T::key_of(elems@[ids@[q2] as int]);
                            }
                        } else {
                            assert(!pres.contains(id));
                            assert(!self.contains_id(id));
                            // an equal key was already there: name it and see
                            // which clause it falsifies
                            let j = choose|j: usize|
                                #[trigger] pres.contains(j) && T::key_of(elems@[j as int])
                                    == T::key_of(elems@[id as int]);
                            if old(self).ids().contains(j) {
                            } else {
                                assert(ids@.take(p as int).contains(j));
                                let q2 = choose|q2: int|
                                    0 <= q2 < p && ids@.take(p as int)[q2] == j;
                                assert(ids@[q2] == j);
                                assert(T::key_of(elems@[(ids@[q2]) as int]) == T::key_of(
                                    elems@[id as int],
                                ));
                            }
                        }
                    }
                }
            }
            p = p + 1;
        }
        proof {
            assert(ids@.take(ids@.len() as int) =~= ids@);
        }
    }

    /// Find and remove the record matching `key`. Even a failed removal
    /// splays the tree.
    pub fn remove<K: TreeOrd<T, E>>(&mut self, elems: &Vec<E>, key: &K) -> (r: Option<usize>)
        requires
            old(self).valid(elems@),
        ensures
            final(self).valid(elems@),
            match r {
                None => final(self).ids() == old(self).ids() && (forall|j: usize| #[trigger]
                    old(self).ids().contains(j) ==> q_cmp(
                        key.query_pos(),
                        T::key_of(elems@[j as int]),
                    ) != Ordering::Equal) && (old(self).ids().len() > 0 ==> (final(self).root_id() matches Some(rr) && nearest_match::<T, E>(
                    key.query_pos(),
                    elems@,
                    old(self).ids(),
                    rr,
                ))),
                Some(i) => {
                    &&& old(self).contains_id(i)
                    &&& q_cmp(key.query_pos(), T::key_of(elems@[i as int])) == Ordering::Equal
                    &&& (exists|k: int|
                        0 <= k < old(self).ids().len() && old(self).ids()[k] == i && final(self).ids() == old(self).ids().remove(k) && (k > 0 ==> final(self).root_id()
                            == Some(old(self).ids()[k - 1])))
                    &&& !final(self).contains_id(i)
                },
            },
    {
        let q: Query<K, T, E> = Query::new(key, elems);
        proof {
            self.lemma_query_agrees(&q);
        }
        let ghost pres = self.ids();
        let r = self.tree.remove(&q);
        proof {
            self.lemma_valid_after_removal(pres, elems@);
            if r is None && pres.len() > 0 {
                self.lemma_best_match_is_nearest(&q, pres);
            }
        }
        r
    }

    /// Ids were only removed, never added: the tree is still valid.
    proof fn lemma_valid_after_removal(self, pres: Seq<usize>, elems: Seq<E>)
        requires
            self.inv(),
            forall|j: usize| #[trigger] pres.contains(j) ==> j < elems.len(),
            self.ids() == pres || (exists|k: int|
                0 <= k < pres.len() && self.ids() == pres.remove(k)),
            crate::node::sorted_by(elem_keys::<T, E>(elems), pres),
        ensures
            self.valid(elems),
    {
        if self.ids() == pres {
        } else {
            let k = choose|k: int| 0 <= k < pres.len() && self.ids() == pres.remove(k);
            pres.remove_ensures(k);
            crate::node::lemma_sorted_remove(elem_keys::<T, E>(elems), pres, k);
            assert forall|j: usize| #[trigger] self.ids().contains(j) implies j < elems.len() by {
                let p = choose|p: int| 0 <= p < self.ids().len() && self.ids()[p] == j;
                let p0: int = if p < k {
                    p
                } else {
                    p + 1
                };
                assert(pres[p0] == j);
                assert(pres.contains(j));
            }
        }
    }

    /// Pop whatever record currently sits at the root; its returned id is
    /// exactly what [`Self::root`] reported immediately before the call.
    pub fn pop_root(&mut self, elems: &Vec<E>) -> (r: Option<usize>)
        requires
            old(self).valid(elems@),
        ensures
            final(self).valid(elems@),
            r == old(self).root_id(),
            match r {
                None => final(self).ids() == old(self).ids() && old(self).ids().len() == 0,
                Some(i) => {
                    &&& old(self).contains_id(i)
                    &&& (exists|k: int|
                        0 <= k < old(self).ids().len() && old(self).ids()[k] == i && final(self).ids() == old(self).ids().remove(k) && (k > 0 ==> final(self).root_id()
                            == Some(old(self).ids()[k - 1])))
                    &&& !final(self).contains_id(i)
                },
            },
    {
        let ghost pres = self.ids();
        let r = self.tree.pop_root();
        proof {
            self.lemma_valid_after_removal(pres, elems@);
        }
        r
    }

    /// Splay the record with the minimum key to the root and return it.
    pub fn min(&mut self, elems: &Vec<E>) -> (r: Option<usize>)
        requires
            old(self).valid(elems@),
        ensures
            final(self).valid(elems@),
            final(self).ids() == old(self).ids(),
            r == final(self).root_id(),
            match r {
                None => old(self).ids().len() == 0,
                Some(i) => old(self).ids().len() > 0 && i == old(self).ids()[0] && (forall|
                    j: usize,
                | #[trigger]
                    old(self).ids().contains(j) ==> T::key_of(elems@[i as int]) <= T::key_of(
                        elems@[j as int],
                    )),
            },
    {
        let r = self.tree.min();
        proof {
            if self.ids().len() > 0 {
                self.lemma_first_last_extreme(elems@);
            }
        }
        r
    }

    /// Splay the record with the maximum key to the root and return it.
    pub fn max(&mut self, elems: &Vec<E>) -> (r: Option<usize>)
        requires
            old(self).valid(elems@),
        ensures
            final(self).valid(elems@),
            final(self).ids() == old(self).ids(),
            r == final(self).root_id(),
            match r {
                None => old(self).ids().len() == 0,
                Some(i) => old(self).ids().len() > 0 && i == old(self).ids().last() && (forall|
                    j: usize,
                | #[trigger]
                    old(self).ids().contains(j) ==> T::key_of(elems@[j as int]) <= T::key_of(
                        elems@[i as int],
                    )),
            },
    {
        let r = self.tree.max();
        proof {
            if self.ids().len() > 0 {
                self.lemma_first_last_extreme(elems@);
            }
        }
        r
    }

    /// In a valid tree the first id carries the least key and the last id
    /// the greatest.
    proof fn lemma_first_last_extreme(self, elems: Seq<E>)
        requires
            self.valid(elems),
            self.ids().len() > 0,
        ensures
            forall|j: usize| #[trigger]
                self.ids().contains(j) ==> T::key_of(elems[self.ids()[0] as int]) <= T::key_of(
                    elems[j as int],
                ),
            forall|j: usize| #[trigger]
                self.ids().contains(j) ==> T::key_of(elems[j as int]) <= T::key_of(
                    elems[self.ids().last() as int],
                ),
    {
        assert forall|j: usize| #[trigger]
            self.ids().contains(j) implies T::key_of(elems[self.ids()[0] as int]) <= T::key_of(
            elems[j as int],
        ) && T::key_of(elems[j as int]) <= T::key_of(elems[self.ids().last() as int]) by {
            let p = choose|p: int| 0 <= p < self.ids().len() && self.ids()[p] == j;
            if p > 0 {
                assert(elem_keys::<T, E>(elems)(self.ids()[0]) < elem_keys::<T, E>(elems)(
                    self.ids()[p],
                ));
            }
            if p < self.ids().len() - 1 {
                assert(elem_keys::<T, E>(elems)(self.ids()[p]) < elem_keys::<T, E>(elems)(
                    self.ids()[self.ids().len() - 1],
                ));
            }
        }
    }

    /// Pop the record with the minimum key.
    pub fn pop_min(&mut self, elems: &Vec<E>) -> (r: Option<usize>)
        requires
            old(self).valid(elems@),
        ensures
            final(self).valid(elems@),
            match r {
                None => old(self).ids().len() == 0 && final(self).ids() == old(self).ids(),
                Some(i) => old(self).ids().len() > 0 && i == old(self).ids()[0] && final(self).ids() == old(self).ids().drop_first() && !final(self).contains_id(i) && (forall|
                    j: usize,
                | #[trigger]
                    old(self).ids().contains(j) ==> T::key_of(elems@[i as int]) <= T::key_of(
                        elems@[j as int],
                    )),
            },
    {
        let ghost pres = self.ids();
        proof {
            if self.ids().len() > 0 {
                self.lemma_first_last_extreme(elems@);
            }
        }
        let r = self.tree.pop_min();
        proof {
            if pres.len() > 0 {
                assert(self.ids() == pres.drop_first());
                assert(pres.remove(0) =~= pres.drop_first());
                assert(exists|k: int| 0 <= k < pres.len() && self.ids() == pres.remove(k)) by {
                    assert(self.ids() == pres.remove(0));
                }
                self.lemma_valid_after_removal(pres, elems@);
            }
        }
        r
    }

    /// Pop the record with the maximum key.
    pub fn pop_max(&mut self, elems: &Vec<E>) -> (r: Option<usize>)
        requires
            old(self).valid(elems@),
        ensures
            final(self).valid(elems@),
            match r {
                None => old(self).ids().len() == 0 && final(self).ids() == old(self).ids(),
                Some(i) => old(self).ids().len() > 0 && i == old(self).ids().last() && final(self).ids() == old(self).ids().drop_last() && !final(self).contains_id(i) && (forall|
                    j: usize,
                | #[trigger]
                    old(self).ids().contains(j) ==> T::key_of(elems@[j as int]) <= T::key_of(
                        elems@[i as int],
                    )),
            },
    {
        let ghost pres = self.ids();
        proof {
            if self.ids().len() > 0 {
                self.lemma_first_last_extreme(elems@);
            }
        }
        let r = self.tree.pop_max();
        proof {
            if pres.len() > 0 {
                assert(self.ids() == pres.drop_last());
                assert(pres.remove(pres.len() - 1) =~= pres.drop_last());
                assert(exists|k: int| 0 <= k < pres.len() && self.ids() == pres.remove(k)) by {
                    assert(self.ids() == pres.remove(pres.len() - 1));
                }
                self.lemma_valid_after_removal(pres, elems@);
            }
        }
        r
    }

    /// Walk the tree in order, collecting the record ids; under `valid`,
    /// their keys are non-decreasing (strictly increasing, since keys are
    /// unique in one index).
    pub fn walk(&self) -> (out: Vec<usize>)
        requires
            self.inv(),
        ensures
            out@ == self.ids(),
    {
        self.tree.walk()
    }

    /// Walk the tree in order, driving the visitor until it asks to break.
    ///
    /// The ids are visited in key order from the first. A returned `Some(x)`
    /// is the verdict of the first id whose verdict broke — every id before
    /// it answered "continue" — and `None` means every id in the tree was
    /// visited and every verdict answered "continue".
    pub fn walk_until<C: WalkControl, F: Fn(usize) -> C>(&self, f: F) -> (r: Option<C::Result>)
        requires
            self.inv(),
            forall|i: usize| #[trigger] self.ids().contains(i) ==> call_requires(f, (i,)),
        ensures
            r matches Some(x) ==> exists|k: int|
                #[trigger] first_break_at::<C, F>(f, self.ids(), k, x),
            r is None ==> forall|j: usize| #[trigger]
                self.ids().contains(j) ==> can_continue::<C, F>(f, j),
    {
        let ids = self.tree.walk();
        let mut k: usize = 0;
        let ghost mut outs: Seq<C> = Seq::empty();
        while k < ids.len()
            invariant
                ids@ == self.ids(),
                k <= ids@.len(),
                outs.len() == k,
                forall|i: usize| #[trigger] self.ids().contains(i) ==> call_requires(f, (i,)),
                forall|p: int|
                    #![trigger outs[p]]
                    0 <= p < k ==> call_ensures(f, (ids@[p],), outs[p]) && outs[p].break_spec()
                        is None,
            decreases ids@.len() - k,
        {
            proof {
                assert(self.ids().contains(ids@[k as int]));
            }
            let cv = f(ids[k]);
            let ghost cv0 = cv;
            let verdict = cv.should_break();
            if verdict.is_some() {
                proof {
                    let x = verdict->Some_0;
                    assert(self.ids()[k as int] == ids@[k as int]);
                    assert(call_ensures(f, (self.ids()[k as int],), cv0));
                    assert(cv0.break_spec() == Some(x));
                    assert forall|j: int| 0 <= j < k implies can_continue::<C, F>(
                        f,
                        self.ids()[j],
                    ) by {
                        assert(self.ids()[j] == ids@[j]);
                        assert(call_ensures(f, (self.ids()[j],), outs[j]));
                        assert(outs[j].break_spec() is None);
                    }
                    assert(first_break_at::<C, F>(f, self.ids(), k as int, x));
                }
                return verdict;
            }
            proof {
                outs = outs.push(cv0);
            }
            k = k + 1;
        }
        proof {
            assert forall|j: usize| #[trigger] self.ids().contains(j) implies can_continue::<
                C,
                F,
            >(f, j) by {
                let p = choose|p: int| 0 <= p < self.ids().len() && self.ids()[p] == j;
                assert(call_ensures(f, (ids@[p],), outs[p]));
                assert(call_ensures(f, (j,), outs[p]));
                assert(outs[p].break_spec() is None);
            }
        }
        None
    }
}

/// The visitor, asked about `id`, can answer with a verdict that lets the
/// walk continue.
pub open spec fn can_continue<C: WalkControl, F: Fn(usize) -> C>(f: F, id: usize) -> bool {
    exists|cv: C| #[trigger] call_ensures(f, (id,), cv) && cv.break_spec() is None
}

/// The walk's early exit happened at position `k` of `ids`, yielding `x`:
/// some verdict for `ids[k]` breaks with `x`, and every id before it got a
/// verdict that continues.
pub open spec fn first_break_at<C: WalkControl, F: Fn(usize) -> C>(
    f: F,
    ids: Seq<usize>,
    k: int,
    x: C::Result,
) -> bool {
    &&& 0 <= k < ids.len()
    &&& (exists|cv: C| #[trigger] call_ensures(f, (ids[k],), cv) && cv.break_spec() == Some(x))
    &&& (forall|j: int| 0 <= j < k ==> can_continue::<C, F>(f, ids[j]))
}

/// Guides whether a walk should continue or break, and with what value.
pub trait WalkControl: Sized {
    /// The value a walk returns when this verdict asks it to break.
    type Result;

    /// `Some` exactly when the walk should halt, carrying the result.
    spec fn break_spec(self) -> Option<Self::Result>;

    /// Executable view of [`Self::break_spec`].
    fn should_break(self) -> (r: Option<Self::Result>)
        ensures
            r == self.break_spec(),
    ;
}

impl WalkControl for () {
    type Result = ();

    open spec fn break_spec(self) -> Option<()> {
        None
    }

    fn should_break(self) -> (r: Option<()>) {
        None
    }
}

impl<A> WalkControl for Option<A> {
    type Result = A;

    open spec fn break_spec(self) -> Option<A> {
        self
    }

    fn should_break(self) -> (r: Option<A>) {
        self
    }
}

impl<A> WalkControl for Result<(), A> {
    type Result = A;

    open spec fn break_spec(self) -> Option<A> {
        match self {
            Ok(_) => None,
            Err(e) => Some(e),
        }
    }

    fn should_break(self) -> (r: Option<A>) {
        match self {
            Ok(_) => None,
            Err(e) => Some(e),
        }
    }
}

impl<T, E> Default for SplayTree<T, E> where T: IntrusiveNode<E> {
    /// Construct a new, empty tree, as [`SplayTree::new`] does.
    fn default() -> (t: Self)
        ensures
            t.inv(),
            t.ids() == Seq::<usize>::empty(),
            t.root_id() == None::<usize>,
            forall|es: Seq<E>| #[trigger] t.valid(es),
    {
        SplayTree::new()
    }
}

/// Law: an in-order walk of a valid tree yields records whose keys strictly
/// increase — in particular, a non-decreasing key sequence — under the
/// index's ordering.
pub proof fn lemma_walk_yields_sorted_keys<T: IntrusiveNode<E>, E>(
    t: SplayTree<T, E>,
    elems: Seq<E>,
)
    requires
        t.valid(elems),
    ensures
        forall|i: int, j: int|
            #![trigger t.ids()[i], t.ids()[j]]
            0 <= i < j < t.ids().len() ==> T::key_of(elems[t.ids()[i] as int]) < T::key_of(
                elems[t.ids()[j] as int],
            ),
{
    assert forall|i: int, j: int|
        #![trigger t.ids()[i], t.ids()[j]]
        0 <= i < j < t.ids().len() implies T::key_of(elems[t.ids()[i] as int]) < T::key_of(
        elems[t.ids()[j] as int],
    ) by {
        assert(elem_keys::<T, E>(elems)(t.ids()[i]) < elem_keys::<T, E>(elems)(t.ids()[j]));
    }
}

/// Law: after removing the one record that matched a probe from a valid
/// tree, no remaining record matches that probe — keys are unique within an
/// index, so a subsequent find for the removed key comes back empty.
pub proof fn lemma_removed_key_not_found<T: IntrusiveNode<E>, E>(
    before: Seq<usize>,
    after: Seq<usize>,
    elems: Seq<E>,
    i: usize,
    k: int,
    qp: QueryPos,
)
    requires
        crate::node::sorted_by(elem_keys::<T, E>(elems), before),
        0 <= k < before.len(),
        before[k] == i,
        after == before.remove(k),
        q_cmp(qp, T::key_of(elems[i as int])) == Ordering::Equal,
    ensures
        forall|j: usize| #[trigger]
            after.contains(j) ==> q_cmp(qp, T::key_of(elems[j as int])) != Ordering::Equal,
{
    before.remove_ensures(k);
    assert forall|j: usize| #[trigger] after.contains(j) implies q_cmp(
        qp,
        T::key_of(elems[j as int]),
    ) != Ordering::Equal by {
        let p = choose|p: int| 0 <= p < after.len() && after[p] == j;
        let p0: int = if p < k {
            p
        } else {
            p + 1
        };
        assert(before[p0] == j);
        if p0 < k {
            assert(elem_keys::<T, E>(elems)(before[p0]) < elem_keys::<T, E>(elems)(before[k]));
        } else {
            assert(elem_keys::<T, E>(elems)(before[k]) < elem_keys::<T, E>(elems)(before[p0]));
        }
    }
}

/// Law: repeatedly popping the minimum from a valid tree yields ids whose
/// keys never decrease, and removes exactly one occurrence of the popped id
/// each time, so the popped sequence exhausts exactly the inserted records.
pub proof fn lemma_pop_min_monotone<T: IntrusiveNode<E>, E>(t: SplayTree<T, E>, elems: Seq<E>)
    requires
        t.valid(elems),
        t.ids().len() > 0,
    ensures
        forall|j: usize| #[trigger]
            t.ids().contains(j) ==> T::key_of(elems[t.ids()[0] as int]) <= T::key_of(
                elems[j as int],
            ),
        t.ids().drop_first().to_multiset().insert(t.ids()[0]) =~= t.ids().to_multiset(),
{
    t.lemma_first_last_extreme(elems);
    broadcast use vstd::seq_lib::group_to_multiset_ensures;

    assert(t.ids().remove(0) =~= t.ids().drop_first());
    assert(t.ids().remove(0).to_multiset() =~= t.ids().to_multiset().remove(t.ids()[0]));
    assert(t.ids().contains(t.ids()[0]));
    assert(t.ids().to_multiset().count(t.ids()[0]) > 0);
    assert(t.ids().drop_first().to_multiset().insert(t.ids()[0]) =~= t.ids().to_multiset());
}

/// Law: the mirror of [`lemma_pop_min_monotone`]: repeatedly popping the
/// maximum yields ids whose keys never increase, removing exactly one
/// occurrence of the popped id each time.
pub proof fn lemma_pop_max_monotone<T: IntrusiveNode<E>, E>(t: SplayTree<T, E>, elems: Seq<E>)
    requires
        t.valid(elems),
        t.ids().len() > 0,
    ensures
        forall|j: usize| #[trigger]
            t.ids().contains(j) ==> T::key_of(elems[j as int]) <= T::key_of(
                elems[t.ids().last() as int],
            ),
        t.ids().drop_last().to_multiset().insert(t.ids().last()) =~= t.ids().to_multiset(),
{
    t.lemma_first_last_extreme(elems);
    broadcast use vstd::seq_lib::group_to_multiset_ensures;

    let n = t.ids().len() as int;
    assert(t.ids().remove(n - 1) =~= t.ids().drop_last());
    assert(t.ids().remove(n - 1).to_multiset() =~= t.ids().to_multiset().remove(t.ids().last()));
    assert(t.ids().contains(t.ids().last()));
    assert(t.ids().to_multiset().count(t.ids().last()) > 0);
    assert(t.ids().drop_last().to_multiset().insert(t.ids().last()) =~= t.ids().to_multiset());
}

/// Law: `pop_root` returns exactly the id `root` reported immediately
/// before, and that id is one of the tree's records: both are pinned to the
/// same root id by their contracts.
pub proof fn lemma_pop_root_agrees_with_root<T: IntrusiveNode<E>, E>(
    t: SplayTree<T, E>,
    elems: Seq<E>,
)
    requires
        t.valid(elems),
    ensures
        t.root_id() matches Some(i) ==> t.contains_id(i),
        t.root_id() is Some <==> t.ids().len() > 0,
{
    t.lemma_root_id_facts();
}

impl<T, E> SplayTree<T, E> where T: IntrusiveNode<E> {
    /// The root id is a member, and exists exactly when the tree is
    /// non-empty.
    proof fn lemma_root_id_facts(self)
        requires
            self.inv(),
        ensures
            self.root_id() matches Some(i) ==> self.contains_id(i),
            self.root_id() is Some <==> self.ids().len() > 0,
    {
        self.tree.lemma_root_id();
    }
}

} // verus!

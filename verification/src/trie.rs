//! A byte trie that assigns every inserted path the first buffer offset it
//! was ever seen with, so strings sharing substrings can reuse one stored
//! copy.

use vstd::prelude::*;

verus! {

/// A node of the compaction trie. `children` is sorted strictly by byte, so
/// lookups are unambiguous and traversal order is deterministic.
pub struct Trie {
    children: Vec<(u8, Trie)>,
    count: usize,
    offset: Option<usize>,
}

/// First child of `cs` labelled `b`, if any.
spec fn lookup(cs: Seq<(u8, Trie)>, b: u8) -> Option<Trie>
    decreases cs.len(),
{
    if cs.len() == 0 {
        None
    } else if cs[0].0 == b {
        Some(cs[0].1)
    } else {
        lookup(cs.drop_first(), b)
    }
}

impl Trie {
    /// The child reached by one byte, if present.
    pub closed spec fn child(self, b: u8) -> Option<Trie> {
        lookup(self.children@, b)
    }

    /// The occurrence count stored at this node.
    pub closed spec fn node_count(self) -> nat {
        self.count as nat
    }

    /// The offset stored at this node.
    pub closed spec fn node_offset(self) -> Option<usize> {
        self.offset
    }

    /// Number of non-weak insertions that ended exactly at `path` (0 if the
    /// path is absent).
    pub open spec fn count_of(self, path: Seq<u8>) -> nat
        decreases path.len(),
    {
        if path.len() == 0 {
            self.node_count()
        } else {
            match self.child(path[0]) {
                Some(c) => c.count_of(path.drop_first()),
                None => 0,
            }
        }
    }

    /// The offset recorded at `path` (None if the path is absent or its node
    /// was never assigned one).
    pub open spec fn offset_of(self, path: Seq<u8>) -> Option<usize>
        decreases path.len(),
    {
        if path.len() == 0 {
            self.node_offset()
        } else {
            match self.child(path[0]) {
                Some(c) => c.offset_of(path.drop_first()),
                None => None,
            }
        }
    }

    /// Well-formedness: every child list is strictly sorted by byte.
    pub closed spec fn wf(self) -> bool
        decreases self,
    {
        &&& forall|i: int, j: int|
            0 <= i < j < self.children@.len() ==> self.children@[i].0 < self.children@[j].0
        &&& forall|i: int| 0 <= i < self.children@.len() ==> (#[trigger] self.children@[i].1).wf()
    }

    /// Spec-level view of `new`: no children, no count, no offset.
    pub open spec fn is_empty_node(self) -> bool {
        &&& self.node_count() == 0
        &&& self.node_offset() is None
        &&& forall|b: u8| self.child(b) is None
    }

    /// A fresh node: no children, no count, no offset.
    pub fn new() -> (r: Trie)
        ensures
            r.wf(),
            r.is_empty_node(),
            forall|q: Seq<u8>| #[trigger] r.count_of(q) == 0,
            forall|q: Seq<u8>| #[trigger] r.offset_of(q) is None,
    {
        let r = Trie { children: Vec::new(), count: 0, offset: None };
        proof {
            assert forall|q: Seq<u8>| #[trigger] r.count_of(q) == 0 && r.offset_of(q) is None by {
                if q.len() > 0 {
                    assert(lookup(r.children@, q[0]) is None);
                }
            }
        }
        r
    }
}

/// Sequences that agree on their first element are equal exactly when their
/// tails are.
proof fn lemma_cons_eq(q: Seq<u8>, p: Seq<u8>)
    requires
        q.len() > 0,
        p.len() > 0,
        q[0] == p[0],
        q.drop_first() == p.drop_first(),
    ensures
        q == p,
{
    assert(q.drop_first().len() == q.len() - 1);
    assert(p.drop_first().len() == p.len() - 1);
    assert(q.drop_first().len() == p.drop_first().len());
    assert(q.len() == p.len());
    assert forall|k: int| 0 <= k < q.len() implies q[k] == p[k] by {
        if k > 0 {
            assert(q[k] == q.drop_first()[k - 1]);
            assert(p[k] == p.drop_first()[k - 1]);
        }
    }
    assert(q =~= p);
}

/// Stepping one shared byte preserves the prefix relation.
proof fn lemma_prefix_step(q: Seq<u8>, p: Seq<u8>)
    requires
        q.len() > 0,
        p.len() > 0,
        q[0] == p[0],
    ensures
        q.is_prefix_of(p) <==> q.drop_first().is_prefix_of(p.drop_first()),
{
    if q.is_prefix_of(p) {
        assert(q.drop_first() =~= p.drop_first().subrange(0, q.len() - 1));
    }
    if q.drop_first().is_prefix_of(p.drop_first()) {
        let qs = p.subrange(0, q.len() as int);
        assert forall|k: int| 0 <= k < q.len() implies q[k] == qs[k] by {
            if k > 0 {
                assert(q.drop_first()[k - 1] == p.drop_first().subrange(0, q.len() - 1)[k - 1]);
            }
        }
        assert(q =~= qs);
    }
}

impl Trie {
    /// Position of the first child labelled `b` or higher.
    fn child_pos(&self, b: u8) -> (j: usize)
        ensures
            j <= self.children@.len(),
            forall|i: int| 0 <= i < j as int ==> (#[trigger] self.children@[i]).0 < b,
            j < self.children@.len() ==> self.children@[j as int].0 >= b,
    {
        let mut j: usize = 0;
        while j < self.children.len() && self.children[j].0 < b
            invariant
                j <= self.children@.len(),
                forall|i: int| 0 <= i < j as int ==> (#[trigger] self.children@[i]).0 < b,
            decreases self.children@.len() - j,
        {
            j = j + 1;
        }
        j
    }

    /// The recursive worker shared by `insert` and `set_offset`: walks
    /// `path[i..]`, creating missing nodes, assigns `offset` to every visited
    /// node whose offset is unset, and bumps the terminal's count unless the
    /// insertion is weak.
    #[verifier::loop_isolation(false)]
    #[verifier::rlimit(100)]
    fn insert_at(&mut self, path: &Vec<u8>, i: usize, offset: Option<usize>, weak: bool) -> (r: (
        bool,
        bool,
    ))
        requires
            i <= path@.len(),
            old(self).wf(),
            !weak ==> old(self).count_of(path@.skip(i as int)) < usize::MAX,
        ensures
            final(self).wf(),
            r.0 == (old(self).offset_of(path@.skip(i as int)) is Some),
            r.1 == (old(self).count_of(path@.skip(i as int)) > 0),
            forall|q: Seq<u8>|
                #[trigger] final(self).count_of(q) == old(self).count_of(q) + (if q == path@.skip(
                    i as int,
                ) && !weak {
                    1nat
                } else {
                    0nat
                }),
            forall|q: Seq<u8>|
                #[trigger] final(self).offset_of(q) == (if old(self).offset_of(q) is None
                    && q.is_prefix_of(path@.skip(i as int)) {
                    offset
                } else {
                    old(self).offset_of(q)
                }),
        decreases path@.len() - i,
    {
        let ghost t0 = *self;
        let ghost sub = path@.skip(i as int);
        if i == path.len() {
            proof {
                assert(sub =~= Seq::<u8>::empty());
            }
            let r0 = self.offset.is_some();
            let r1 = self.count > 0;
            if !weak {
                self.count = self.count + 1;
            }
            if self.offset.is_none() {
                self.offset = offset;
            }
            proof {
                let t1 = *self;
                assert forall|q: Seq<u8>|
                    #![trigger t1.count_of(q)]
                    #![trigger t1.offset_of(q)]
                    t1.count_of(q) == t0.count_of(q) + (if q == sub && !weak {
                        1nat
                    } else {
                        0nat
                    }) && t1.offset_of(q) == (if t0.offset_of(q) is None && q.is_prefix_of(sub) {
                    offset
                } else {
                    t0.offset_of(q)
                }) by {
                    if q.len() == 0 {
                        assert(q =~= sub);
                        assert(q.is_prefix_of(sub)) by {
                            assert(q =~= sub.subrange(0, 0));
                        }
                    } else {
                        assert(t1.child(q[0]) == t0.child(q[0]));
                        assert(q != sub);
                        assert(!q.is_prefix_of(sub));
                    }
                }
            }
            (r0, r1)
        } else {
            let b = path[i];
            let j = self.child_pos(b);
            let found = j < self.children.len() && self.children[j].0 == b;
            let ghost cs0 = t0.children@;
            proof {
                if found {
                    lemma_lookup_at(cs0, b, j as int);
                } else {
                    assert forall|i2: int| 0 <= i2 < cs0.len() implies (#[trigger] cs0[i2]).0
                        != b by {
                        if i2 >= j as int {
                            assert(cs0[j as int].0 >= b);
                            if i2 > j as int {
                                assert(cs0[j as int].0 < cs0[i2].0);
                            }
                        }
                    }
                    lemma_lookup_none(cs0, b);
                }
            }
            if !found {
                self.children.insert(j, (b, Trie::new()));
            }
            let ghost c0 = self.children@[j as int].1;
            proof {
                if !found {
                    assert(self.children@.remove(j as int) =~= cs0);
                }
                // The subtree about to be descended into, and what the walk
                // owes it.
                assert(sub.drop_first() =~= path@.skip(i as int + 1));
                assert(sub[0] == b);
                if found {
                    assert(t0.child(b) == Some(c0));
                    assert(t0.count_of(sub) == c0.count_of(sub.drop_first()));
                    assert(c0.wf());
                } else {
                    assert(c0.is_empty_node());
                    lemma_empty_node(c0);
                    assert(c0.wf());
                }
            }
            let mut pair = self.children.remove(j);
            let r = pair.1.insert_at(path, i + 1, offset, weak);
            let ghost c1 = pair.1;
            self.children.insert(j, pair);
            if self.offset.is_none() {
                self.offset = offset;
            }
            proof {
                let t1 = *self;
                let subr = path@.skip(i as int + 1);
                assert(sub.drop_first() =~= subr);
                assert(sub[0] == b);
                // How the child list changed, and what lookups now return.
                if found {
                    assert(t1.children@ =~= cs0.update(j as int, (b, c1)));
                    assert(t0.child(b) == Some(c0));
                    assert(c0.wf());
                } else {
                    assert(t1.children@ =~= cs0.insert(j as int, (b, c1)));
                    assert(t0.child(b) is None);
                    lemma_empty_node(c0);
                }
                assert(t1.child(b) == Some(c1)) by {
                    assert forall|i2: int| 0 <= i2 < j as int implies (#[trigger] t1.children@[i2]).0
                        != b by {
                        assert(t1.children@[i2] == cs0[i2]);
                        assert(cs0[i2].0 < b);
                    }
                    lemma_lookup_at(t1.children@, b, j as int);
                }
                assert forall|b2: u8| b2 != b implies t1.child(b2) == t0.child(b2) by {
                    if found {
                        lemma_lookup_update_other(cs0, j as int, (b, c1), b2);
                    } else {
                        lemma_lookup_insert_other(cs0, j as int, (b, c1), b2);
                    }
                }
                // Well-formedness of the rebuilt node.
                assert(t1.wf()) by {
                    assert forall|i1: int, i2: int|
                        0 <= i1 < i2 < t1.children@.len() implies t1.children@[i1].0
                        < t1.children@[i2].0 by {
                        if !found {
                            if i2 == j as int {
                                assert(t1.children@[i1] == cs0[i1]);
                            } else if i1 == j as int {
                                assert(t1.children@[i2] == cs0[i2 - 1]);
                                assert(cs0[j as int].0 >= b && cs0[j as int].0 != b);
                                if i2 - 1 > j as int {
                                    assert(cs0[j as int].0 < cs0[i2 - 1].0);
                                }
                            } else if i2 < j as int {
                                assert(t1.children@[i1] == cs0[i1] && t1.children@[i2] == cs0[i2]);
                            } else if i1 > j as int {
                                assert(t1.children@[i1] == cs0[i1 - 1] && t1.children@[i2] == cs0[i2
                                    - 1]);
                            } else {
                                assert(t1.children@[i1] == cs0[i1] && t1.children@[i2] == cs0[i2
                                    - 1]);
                                assert(cs0[i1].0 < b);
                                assert(cs0[j as int].0 > b);
                                if i2 - 1 > j as int {
                                    assert(cs0[j as int].0 < cs0[i2 - 1].0);
                                }
                            }
                        } else {
                            if i1 == j as int {
                                assert(t1.children@[i2] == cs0[i2]);
                                assert(cs0[i1].0 < cs0[i2].0);
                            } else if i2 == j as int {
                                assert(t1.children@[i1] == cs0[i1]);
                                assert(cs0[i1].0 < cs0[i2].0);
                            } else {
                                assert(t1.children@[i1] == cs0[i1] && t1.children@[i2] == cs0[i2]);
                            }
                        }
                    }
                    assert forall|i2: int| 0 <= i2 < t1.children@.len() implies (#[trigger] t1.children@[i2].1).wf() by {
                        if i2 == j as int {
                            assert(t1.children@[i2].1 == c1);
                        } else if found || i2 < j as int {
                            assert(t1.children@[i2].1 == cs0[i2].1);
                        } else {
                            assert(t1.children@[i2].1 == cs0[i2 - 1].1);
                        }
                    }
                }
                // The pointwise effect on every path.
                assert forall|q: Seq<u8>|
                    #![trigger t1.count_of(q)]
                    #![trigger t1.offset_of(q)]
                    t1.count_of(q) == t0.count_of(q) + (if q == sub && !weak {
                        1nat
                    } else {
                        0nat
                    }) && t1.offset_of(q) == (if t0.offset_of(q) is None && q.is_prefix_of(sub) {
                    offset
                } else {
                    t0.offset_of(q)
                }) by {
                    if q.len() == 0 {
                        assert(q != sub);
                        assert(q.is_prefix_of(sub)) by {
                            assert(q =~= sub.subrange(0, 0));
                        }
                    } else if q[0] == b {
                        let qr = q.drop_first();
                        assert(t1.count_of(q) == c1.count_of(qr));
                        assert(c1.count_of(qr) == c0.count_of(qr) + (if qr == subr && !weak {
                            1nat
                        } else {
                            0nat
                        }));
                        if qr == subr {
                            lemma_cons_eq(q, sub);
                        }
                        if q == sub {
                            assert(qr =~= sub.drop_first());
                        }
                        assert(t0.count_of(q) == c0.count_of(qr));
                        lemma_prefix_step(q, sub);
                        assert(t1.offset_of(q) == c1.offset_of(qr));
                        assert(t0.offset_of(q) == c0.offset_of(qr));
                    } else {
                        assert(t1.child(q[0]) == t0.child(q[0]));
                        assert(q != sub);
                        assert(!q.is_prefix_of(sub)) by {
                            if q.is_prefix_of(sub) {
                                assert(q[0] == sub.subrange(0, q.len() as int)[0]);
                            }
                        }
                    }
                }
            }
            r
        }
    }
}

impl Trie {
    /// Inserts the string `path`: every node on the path whose offset is
    /// unset claims `offset`, and the terminal's occurrence count grows by
    /// one unless `weak` is set. Returns whether the terminal already had an
    /// offset before this call (the exact path pre-existed), and whether it
    /// already had a positive count (a literal duplicate insertion).
    pub fn insert(&mut self, path: &Vec<u8>, offset: Option<usize>, weak: bool) -> (r: (
        bool,
        bool,
    ))
        requires
            old(self).wf(),
            !weak ==> old(self).count_of(path@) < usize::MAX,
        ensures
            final(self).wf(),
            r.0 == (old(self).offset_of(path@) is Some),
            r.1 == (old(self).count_of(path@) > 0),
            forall|q: Seq<u8>|
                #[trigger] final(self).count_of(q) == old(self).count_of(q) + (if q == path@
                    && !weak {
                    1nat
                } else {
                    0nat
                }),
            forall|q: Seq<u8>|
                #[trigger] final(self).offset_of(q) == (if old(self).offset_of(q) is None
                    && q.is_prefix_of(path@) {
                    offset
                } else {
                    old(self).offset_of(q)
                }),
    {
        proof {
            assert(path@.skip(0) =~= path@);
        }
        self.insert_at(path, 0, offset, weak)
    }

    /// Walks `path` from the root, creating missing nodes, and assigns
    /// `offset` to every node on the path whose offset is still unset;
    /// already-set offsets and all counts are untouched.
    pub fn set_offset(&mut self, path: &Vec<u8>, offset: usize)
        requires
            old(self).wf(),
        ensures
            final(self).wf(),
            forall|q: Seq<u8>| #[trigger] final(self).count_of(q) == old(self).count_of(q),
            forall|q: Seq<u8>|
                #[trigger] final(self).offset_of(q) == (if old(self).offset_of(q) is None
                    && q.is_prefix_of(path@) {
                    Some(offset)
                } else {
                    old(self).offset_of(q)
                }),
    {
        proof {
            assert(path@.skip(0) =~= path@);
        }
        let _ = self.insert_at(path, 0, Some(offset), true);
    }

    /// Returns the child of this node along `b`, creating an empty child
    /// first when there is none.
    pub fn get_child(&mut self, b: u8) -> (r: &mut Trie)
        requires
            old(self).wf(),
        ensures
            old(self).child(b) is Some ==> *r == old(self).child(b)->0,
            old(self).child(b) is None ==> (*r).is_empty_node() && (*r).wf(),
            final(self).child(b) == Some(*final(r)),
            forall|b2: u8| b2 != b ==> #[trigger] final(self).child(b2) == old(self).child(b2),
            final(self).node_count() == old(self).node_count(),
            final(self).node_offset() == old(self).node_offset(),
            (*final(r)).wf() ==> final(self).wf(),
    {
        let ghost t0 = *self;
        let j = self.child_pos(b);
        let found = j < self.children.len() && self.children[j].0 == b;
        let ghost cs0 = t0.children@;
        proof {
            if found {
                lemma_lookup_at(cs0, b, j as int);
            } else {
                assert forall|i2: int| 0 <= i2 < cs0.len() implies (#[trigger] cs0[i2]).0 != b by {
                    if i2 >= j as int {
                        assert(cs0[j as int].0 >= b);
                        if i2 > j as int {
                            assert(cs0[j as int].0 < cs0[i2].0);
                        }
                    }
                }
                lemma_lookup_none(cs0, b);
            }
        }
        if !found {
            self.children.insert(j, (b, Trie::new()));
        }
        let ghost cs1 = self.children@;
        proof {
            // cs1 keeps cs0's order, with at most one fresh node at j.
            assert(cs1[j as int].0 == b);
            assert forall|i1: int, i2: int| 0 <= i1 < i2 < cs1.len() implies cs1[i1].0
                < cs1[i2].0 by {
                if !found {
                    if i2 < j as int {
                    } else if i1 == j as int {
                        assert(cs1[i2] == cs0[i2 - 1]);
                        assert(cs0[j as int].0 >= b && cs0[j as int].0 != b);
                        if i2 - 1 > j as int {
                            assert(cs0[j as int].0 < cs0[i2 - 1].0);
                        }
                    } else if i2 == j as int {
                        assert(cs1[i1] == cs0[i1]);
                    } else if i1 > j as int {
                        assert(cs1[i1] == cs0[i1 - 1] && cs1[i2] == cs0[i2 - 1]);
                    } else {
                        assert(cs1[i1] == cs0[i1] && cs1[i2] == cs0[i2 - 1]);
                        assert(cs0[i1].0 < b);
                        assert(cs0[j as int].0 > b);
                        if i2 - 1 > j as int {
                            assert(cs0[j as int].0 < cs0[i2 - 1].0);
                        }
                    }
                }
            }
            assert forall|i2: int| 0 <= i2 < cs1.len() implies (#[trigger] cs1[i2].1).wf() by {
                if found || i2 < j as int {
                    assert(cs1[i2].1 == cs0[i2].1);
                } else if i2 > j as int {
                    assert(cs1[i2].1 == cs0[i2 - 1].1);
                }
            }
        }
        let r = &mut self.children[j].1;
        proof {
            let csf = after_borrow(*self).children@;
            assert(csf =~= cs1.update(j as int, (b, *final(r))));
            assert forall|i2: int| 0 <= i2 < j as int implies (#[trigger] csf[i2]).0 != b by {
                assert(csf[i2] == cs1[i2]);
                assert(cs1[i2].0 < cs1[j as int].0);
            }
            lemma_lookup_at(csf, b, j as int);
            assert forall|b2: u8| b2 != b implies lookup(csf, b2) == lookup(cs0, b2) by {
                lemma_lookup_update_other(cs1, j as int, (b, *final(r)), b2);
                if !found {
                    lemma_lookup_insert_other(cs0, j as int, (b, cs1[j as int].1), b2);
                    assert(cs1 =~= cs0.insert(j as int, (b, cs1[j as int].1)));
                }
            }
            if found {
                assert(*r == cs0[j as int].1);
                assert(t0.child(b) == Some(cs0[j as int].1));
            }
            assert(after_borrow(*self).node_count() == t0.node_count());
            assert(after_borrow(*self).node_offset() == t0.node_offset());
            assert((*final(r)).wf() ==> after_borrow(*self).wf()) by {
                if (*final(r)).wf() {
                    assert forall|i1: int, i2: int| 0 <= i1 < i2 < csf.len() implies csf[i1].0
                        < csf[i2].0 by {
                        assert(cs1[i1].0 < cs1[i2].0);
                    }
                    assert forall|i2: int| 0 <= i2 < csf.len() implies (#[trigger] csf[i2].1).wf() by {
                        if i2 != j as int {
                            assert(csf[i2].1 == cs1[i2].1);
                        }
                    }
                }
            }
        }
        r
    }
}

/// The spec-level view of a vector of emitted tuples.
pub open spec fn item_views(s: Seq<(usize, Vec<u8>, Option<usize>)>) -> Seq<
    (nat, Seq<u8>, Option<usize>),
> {
    s.map(|i: int, t: (usize, Vec<u8>, Option<usize>)| (t.0 as nat, t.1@, t.2))
}

impl Trie {
    /// Number of children of this node.
    pub closed spec fn num_children(self) -> nat {
        self.children@.len()
    }

    /// Depth-first, pre-order enumeration of every node with positive count,
    /// as (count, byte path from the root, offset) tuples; children are
    /// visited in ascending byte order.
    pub closed spec fn entries(self, prefix: Seq<u8>) -> Seq<(nat, Seq<u8>, Option<usize>)>
        decreases self, self.num_children() + 1,
    {
        let here: Seq<(nat, Seq<u8>, Option<usize>)> = if self.node_count() > 0 {
            seq![(self.node_count(), prefix, self.node_offset())]
        } else {
            Seq::empty()
        };
        here + self.entries_from(prefix, 0)
    }

    /// The concatenated enumerations of the children from position `i` on.
    pub closed spec fn entries_from(self, prefix: Seq<u8>, i: int) -> Seq<
        (nat, Seq<u8>, Option<usize>),
    >
        decreases self, self.num_children() - i,
    {
        if i < 0 || i >= self.children@.len() {
            Seq::empty()
        } else {
            self.children@[i].1.entries(prefix.push(self.children@[i].0)) + self.entries_from(
                prefix,
                i + 1,
            )
        }
    }

    /// Copies a byte vector.
    fn copy_bytes(v: &Vec<u8>) -> (r: Vec<u8>)
        ensures
            r@ == v@,
    {
        let mut r: Vec<u8> = Vec::new();
        for i in 0..v.len()
            invariant
                r@ == v@.subrange(0, i as int),
        {
            r.push(v[i]);
            proof {
                assert(r@ =~= v@.subrange(0, i + 1));
            }
        }
        proof {
            assert(v@.subrange(0, v@.len() as int) =~= v@);
        }
        r
    }

    /// Appends this subtree's enumeration to `out`; `prefix` is the path
    /// from the root to this node and is restored before returning.
    #[verifier::loop_isolation(false)]
    fn collect(&self, prefix: &mut Vec<u8>, out: &mut Vec<(usize, Vec<u8>, Option<usize>)>)
        ensures
            final(prefix)@ == old(prefix)@,
            item_views(final(out)@) == item_views(old(out)@) + self.entries(old(prefix)@),
        decreases *self,
    {
        let ghost p0 = prefix@;
        let ghost base = item_views(out@);
        if self.count > 0 {
            let path = Self::copy_bytes(prefix);
            out.push((self.count, path, self.offset));
            proof {
                assert(item_views(out@) =~= base + seq![
                    (self.node_count(), p0, self.node_offset()),
                ]);
            }
        }
        let ghost here = item_views(out@);
        let mut i: usize = 0;
        while i < self.children.len()
            invariant
                prefix@ == p0,
                out@.len() >= 0,
                i <= self.children@.len(),
                item_views(out@) == here + self.entries_from(p0, 0).subrange(
                    0,
                    self.entries_from(p0, 0).len() - self.entries_from(p0, i as int).len(),
                ),
                self.entries_from(p0, i as int).len() <= self.entries_from(p0, 0).len(),
            decreases self.children@.len() - i,
        {
            let ghost acc0 = item_views(out@);
            let b = self.children[i].0;
            prefix.push(b);
            let c = &self.children[i];
            c.1.collect(prefix, out);
            let _ = prefix.pop();
            proof {
                assert(prefix@ =~= p0);
                lemma_entries_from_split(*self, p0, i as int);
                assert(item_views(out@) =~= acc0 + self.children@[i as int].1.entries(
                    p0.push(self.children@[i as int].0),
                ));
                let full = self.entries_from(p0, 0);
                let child_part = self.children@[i as int].1.entries(
                    p0.push(self.children@[i as int].0),
                );
                assert(self.entries_from(p0, i as int) == child_part + self.entries_from(
                    p0,
                    i as int + 1,
                ));
                assert(item_views(out@) =~= here + full.subrange(
                    0,
                    full.len() - self.entries_from(p0, i as int + 1).len(),
                ));
            }
            i = i + 1;
        }
        proof {
            assert(self.entries_from(p0, self.children@.len() as int) =~= Seq::<
                (nat, Seq<u8>, Option<usize>),
            >::empty());
            assert(self.entries_from(p0, 0).subrange(
                0,
                self.entries_from(p0, 0).len() as int,
            ) =~= self.entries_from(p0, 0));
            assert(item_views(out@) =~= base + self.entries(p0));
        }
    }

    /// Enumerates every stored string: depth-first and pre-order, children
    /// in ascending byte order, each tuple carrying the occurrence count,
    /// the byte path from the root, and the node's offset.
    pub fn iter(&self) -> (r: Items)
        ensures
            r.remaining() == self.entries(Seq::empty()),
    {
        let mut prefix: Vec<u8> = Vec::new();
        let mut out: Vec<(usize, Vec<u8>, Option<usize>)> = Vec::new();
        self.collect(&mut prefix, &mut out);
        let r = Items { items: out, pos: 0 };
        proof {
            assert(r.remaining() =~= self.entries(Seq::empty()));
        }
        r
    }
}

/// Every subtree enumeration is a suffix-split of the enumeration starting
/// at an earlier child position.
proof fn lemma_entries_from_split(t: Trie, prefix: Seq<u8>, i: int)
    requires
        0 <= i <= t.children@.len(),
    ensures
        t.entries_from(prefix, 0).len() >= t.entries_from(prefix, i).len(),
        t.entries_from(prefix, 0).subrange(
            0,
            t.entries_from(prefix, 0).len() - t.entries_from(prefix, i).len(),
        ) + t.entries_from(prefix, i) == t.entries_from(prefix, 0),
    decreases i,
{
    if i == 0 {
        assert(t.entries_from(prefix, 0).subrange(0, 0) =~= Seq::<
            (nat, Seq<u8>, Option<usize>),
        >::empty());
        assert(t.entries_from(prefix, 0).subrange(0, 0) + t.entries_from(prefix, 0) =~= t.entries_from(
            prefix,
            0,
        ));
    } else {
        lemma_entries_from_split(t, prefix, i - 1);
        assert(t.entries_from(prefix, i - 1) == t.children@[i - 1].1.entries(
            prefix.push(t.children@[i - 1].0),
        ) + t.entries_from(prefix, i));
        let full = t.entries_from(prefix, 0);
        let la = full.len() - t.entries_from(prefix, i - 1).len();
        let lb = full.len() - t.entries_from(prefix, i).len();
        assert(full.subrange(0, lb) + t.entries_from(prefix, i) =~= full) by {
            assert(full.subrange(0, la) + t.entries_from(prefix, i - 1) == full);
            assert forall|k: int| 0 <= k < lb implies full.subrange(0, lb)[k] == full[k] by {}
        }
    }
}

/// The trie's pre-order stream of (count, path, offset) tuples.
pub struct Items {
    items: Vec<(usize, Vec<u8>, Option<usize>)>,
    pos: usize,
}

impl Items {
    /// The tuples not yet handed out, in emission order.
    pub closed spec fn remaining(self) -> Seq<(nat, Seq<u8>, Option<usize>)> {
        if self.pos as int <= self.items@.len() {
            item_views(self.items@).skip(self.pos as int)
        } else {
            Seq::empty()
        }
    }

    /// Hands out the next tuple, or `None` once the traversal is done.
    pub fn next(&mut self) -> (r: Option<(usize, Vec<u8>, Option<usize>)>)
        ensures
            old(self).remaining().len() == 0 ==> r is None && final(self).remaining()
                == old(self).remaining(),
            old(self).remaining().len() > 0 ==> (match r {
                Some(t) => (t.0 as nat, t.1@, t.2) == old(self).remaining()[0]
                    && final(self).remaining() == old(self).remaining().drop_first(),
                None => false,
            }),
    {
        if self.pos < self.items.len() {
            let ghost pos0 = self.pos as int;
            let count = self.items[self.pos].0;
            let path = Trie::copy_bytes(&self.items[self.pos].1);
            let offset = self.items[self.pos].2;
            self.pos = self.pos + 1;
            proof {
                let views = item_views(self.items@);
                assert(views[pos0] == (count as nat, self.items@[pos0].1@, offset));
                assert(old(self).remaining()[0] == views[pos0]);
                assert(self.remaining() =~= old(self).remaining().drop_first());
            }
            Some((count, path, offset))
        } else {
            proof {
                if self.pos as int <= self.items@.len() {
                    assert(item_views(self.items@).skip(self.pos as int) =~= Seq::<
                        (nat, Seq<u8>, Option<usize>),
                    >::empty());
                }
            }
            None
        }
    }
}

/// A present child's byte occurs in the child list.
proof fn lemma_lookup_some_index(cs: Seq<(u8, Trie)>, b: u8)
    requires
        lookup(cs, b) is Some,
    ensures
        exists|i: int| 0 <= i < cs.len() && (#[trigger] cs[i]).0 == b,
    decreases cs.len(),
{
    if cs.len() > 0 {
        if cs[0].0 == b {
            assert(cs[0].0 == b);
        } else {
            lemma_lookup_some_index(cs.drop_first(), b);
            let i = choose|i: int|
                0 <= i < cs.drop_first().len() && (#[trigger] cs.drop_first()[i]).0 == b;
            assert(cs[i + 1].0 == b);
        }
    }
}

/// Law: re-inserting an identical string is reported. If `t1` is the state
/// after a non-weak insertion of `path` with a concrete offset into `t0` (as
/// `insert`'s contract describes it), the terminal now carries an offset and
/// a positive count, so a second insertion of `path` returns `(true, true)`.
pub proof fn lemma_reinsert_reports_duplicate(
    t0: Trie,
    t1: Trie,
    path: Seq<u8>,
    offset: Option<usize>,
)
    requires
        offset is Some,
        forall|q: Seq<u8>|
            #[trigger] t1.count_of(q) == t0.count_of(q) + (if q == path {
                1nat
            } else {
                0nat
            }),
        forall|q: Seq<u8>|
            #[trigger] t1.offset_of(q) == (if t0.offset_of(q) is None && q.is_prefix_of(path) {
                offset
            } else {
                t0.offset_of(q)
            }),
    ensures
        t1.offset_of(path) is Some,
        t1.count_of(path) > 0,
{
    assert(path.is_prefix_of(path)) by {
        assert(path =~= path.subrange(0, path.len() as int));
    }
}

/// Law: a string that is a prefix of an already-inserted longer string
/// shares the offset the longer insertion recorded at that depth. `t1` is
/// the state after inserting `longer` with offset `off` into `t0`, where the
/// prefix's node had no offset yet; `t2` is the state after inserting
/// `shorter` afterwards, with any offset. The prefix's node carries `off` in
/// both states: the later insertion does not overwrite it.
pub proof fn lemma_prefix_shares_offset(
    t0: Trie,
    t1: Trie,
    t2: Trie,
    longer: Seq<u8>,
    off: Option<usize>,
    shorter: Seq<u8>,
    off2: Option<usize>,
)
    requires
        off is Some,
        shorter.is_prefix_of(longer),
        t0.offset_of(shorter) is None,
        forall|q: Seq<u8>|
            #[trigger] t1.offset_of(q) == (if t0.offset_of(q) is None && q.is_prefix_of(longer) {
                off
            } else {
                t0.offset_of(q)
            }),
        forall|q: Seq<u8>|
            #[trigger] t2.offset_of(q) == (if t1.offset_of(q) is None && q.is_prefix_of(shorter) {
                off2
            } else {
                t1.offset_of(q)
            }),
    ensures
        t1.offset_of(shorter) == off,
        t2.offset_of(shorter) == off,
{
}

/// Law: inserting a batch of distinct strings, each non-weakly, into a trie
/// that stored nothing leaves every inserted string with count one and
/// everything else at zero — so, by `lemma_entries_characterize`, iteration
/// yields exactly those strings, one tuple each. `ts` is the chain of states
/// and each step is related to the last as `insert`'s contract describes.
pub proof fn lemma_distinct_inserts(ts: Seq<Trie>, paths: Seq<Seq<u8>>)
    requires
        ts.len() == paths.len() + 1,
        forall|q: Seq<u8>| #[trigger] ts[0].count_of(q) == 0,
        forall|k: int, q: Seq<u8>|
            1 <= k <= paths.len() ==> (#[trigger] ts[k].count_of(q)) == ts[k - 1].count_of(q) + (
            if q == paths[k - 1] {
                1nat
            } else {
                0nat
            }),
        forall|k1: int, k2: int|
            #![trigger paths[k1], paths[k2]]
            0 <= k1 < k2 < paths.len() ==> paths[k1] != paths[k2],
    ensures
        forall|q: Seq<u8>|
            (#[trigger] ts[ts.len() - 1].count_of(q)) == (if paths.contains(q) {
                1nat
            } else {
                0nat
            }),
    decreases paths.len(),
{
    if paths.len() == 0 {
        assert forall|q: Seq<u8>| (#[trigger] ts[ts.len() - 1].count_of(q)) == (if paths.contains(
            q,
        ) {
            1nat
        } else {
            0nat
        }) by {
            assert(!paths.contains(q));
        }
    } else {
        let ts0 = ts.drop_last();
        let paths0 = paths.drop_last();
        assert forall|k: int, q: Seq<u8>|
            1 <= k <= paths0.len() implies (#[trigger] ts0[k].count_of(q)) == ts0[k - 1].count_of(
            q,
        ) + (if q == paths0[k - 1] {
            1nat
        } else {
            0nat
        }) by {
            assert(ts0[k] == ts[k] && ts0[k - 1] == ts[k - 1] && paths0[k - 1] == paths[k - 1]);
            assert(ts[k].count_of(q) == ts[k - 1].count_of(q) + (if q == paths[k - 1] {
                1nat
            } else {
                0nat
            }));
        }
        assert(ts0[0] == ts[0]);
        lemma_distinct_inserts(ts0, paths0);
        let last = paths[paths.len() - 1];
        let n = ts.len() - 1;
        assert forall|q: Seq<u8>| (#[trigger] ts[n].count_of(q)) == (if paths.contains(q) {
            1nat
        } else {
            0nat
        }) by {
            assert(ts[n].count_of(q) == ts[n - 1].count_of(q) + (if q == last {
                1nat
            } else {
                0nat
            }));
            assert(ts0[ts0.len() - 1] == ts[n - 1]);
            if q == last {
                assert(!paths0.contains(q)) by {
                    if paths0.contains(q) {
                        let k = choose|k: int| 0 <= k < paths0.len() && paths0[k] == q;
                        assert(paths[k] == q);
                    }
                }
                assert(paths.contains(q)) by {
                    assert(paths[paths.len() - 1] == q);
                }
            } else {
                if paths.contains(q) {
                    let k = choose|k: int| 0 <= k < paths.len() && paths[k] == q;
                    assert(paths0[k] == q);
                    assert(paths0.contains(q));
                }
                if paths0.contains(q) {
                    let k = choose|k: int| 0 <= k < paths0.len() && paths0[k] == q;
                    assert(paths[k] == q);
                    assert(paths.contains(q));
                }
            }
        }
    }
}

/// What each tuple of `entries_from(t, prefix, i)` satisfies, relative to
/// the node `t` it was enumerated under.
spec fn entry_sound(t: Trie, prefix: Seq<u8>, i: int, e: (nat, Seq<u8>, Option<usize>)) -> bool {
    &&& prefix.len() < e.1.len()
    &&& prefix.is_prefix_of(e.1)
    &&& e.0 == t.count_of(e.1.skip(prefix.len() as int))
    &&& e.0 > 0
    &&& e.2 == t.offset_of(e.1.skip(prefix.len() as int))
    &&& exists|ci: int|
        i <= ci < t.num_children() && e.1[prefix.len() as int] == (#[trigger] t.child_byte(ci))
}

impl Trie {
    /// The byte labelling child `ci`.
    pub closed spec fn child_byte(self, ci: int) -> u8 {
        self.children@[ci].0
    }
}

/// The characterization of `entries_from`, proved together with
/// `lemma_entries_characterize` by structural induction.
#[verifier::rlimit(100)]
proof fn lemma_entries_from_characterize(t: Trie, prefix: Seq<u8>, i: int)
    requires
        t.wf(),
        0 <= i <= t.num_children(),
    ensures
        forall|j: int|
            0 <= j < t.entries_from(prefix, i).len() ==> entry_sound(
                t,
                prefix,
                i,
                #[trigger] t.entries_from(prefix, i)[j],
            ),
        forall|q: Seq<u8>|
            q.len() > 0 && t.count_of(q) > 0 && (exists|ci: int|
                i <= ci < t.num_children() && q[0] == #[trigger] t.child_byte(ci)) ==> exists|j: int|
                0 <= j < t.entries_from(prefix, i).len() && (#[trigger] t.entries_from(prefix, i)[j]).1
                    == prefix + q,
        forall|j1: int, j2: int|
            0 <= j1 < j2 < t.entries_from(prefix, i).len() ==> (#[trigger] t.entries_from(
                prefix,
                i,
            )[j1]).1 != (#[trigger] t.entries_from(prefix, i)[j2]).1,
    decreases t, t.num_children() - i,
{
    if i == t.num_children() {
        return ;
    }
    let cs = t.children@;
    let b = cs[i].0;
    let c = cs[i].1;
    let cp = prefix.push(b);
    let ce = c.entries(cp);
    let rest = t.entries_from(prefix, i + 1);
    let ef = t.entries_from(prefix, i);
    assert(ef == ce + rest);
    assert(c.wf());
    lemma_entries_characterize(c, cp);
    lemma_entries_from_characterize(t, prefix, i + 1);
    assert forall|i2: int| 0 <= i2 < i implies (#[trigger] cs[i2]).0 != b by {
        assert(cs[i2].0 < cs[i].0);
    }
    lemma_lookup_at(cs, b, i);
    assert(t.child(b) == Some(c));
    // Every tuple from child `i` is sound for `t`.
    assert forall|j: int| 0 <= j < ce.len() implies entry_sound(t, prefix, i, ce[j]) by {
        let e = ce[j];
        assert(cp.is_prefix_of(e.1) && e.0 == c.count_of(e.1.skip(cp.len() as int)) && e.0 > 0
            && e.2 == c.offset_of(e.1.skip(cp.len() as int)));
        let q = e.1.skip(prefix.len() as int);
        assert(e.1[prefix.len() as int] == cp[prefix.len() as int]) by {
            assert(cp =~= e.1.subrange(0, cp.len() as int));
        }
        assert(q[0] == b);
        assert(q.len() > 0);
        assert(q.drop_first() =~= e.1.skip(cp.len() as int));
        assert(t.count_of(q) == c.count_of(q.drop_first()));
        assert(t.offset_of(q) == c.offset_of(q.drop_first()));
        assert(prefix.is_prefix_of(e.1)) by {
            assert(prefix =~= e.1.subrange(0, prefix.len() as int));
        }
        assert(i <= i < t.num_children() && q[0] == t.child_byte(i));
    }
    // Sound tuples for both parts, hence for the concatenation.
    assert forall|j: int| 0 <= j < ef.len() implies entry_sound(t, prefix, i, ef[j]) by {
        if j < ce.len() {
            assert(ef[j] == ce[j]);
        } else {
            assert(ef[j] == rest[j - ce.len()]);
            assert(entry_sound(t, prefix, i + 1, rest[j - ce.len()]));
        }
    }
    // Completeness: a positive path starting with some remaining child byte
    // is enumerated.
    assert forall|q: Seq<u8>|
        q.len() > 0 && t.count_of(q) > 0 && (exists|ci: int|
            i <= ci < t.num_children() && q[0] == #[trigger] t.child_byte(ci)) implies exists|j: int|
        0 <= j < ef.len() && (#[trigger] ef[j]).1 == prefix + q by {
        let ci = choose|ci: int| i <= ci < t.num_children() && q[0] == #[trigger] t.child_byte(ci);
        if ci == i {
            assert(t.count_of(q) == c.count_of(q.drop_first()));
            let j = choose|j: int| 0 <= j < ce.len() && (#[trigger] ce[j]).1 == cp
                + q.drop_first();
            assert(cp + q.drop_first() =~= prefix + q);
            assert(ef[j] == ce[j]);
            assert(ef[j].1 == prefix + q);
        } else {
            let j = choose|j: int|
                0 <= j < rest.len() && (#[trigger] rest[j]).1 == prefix + q;
            assert(ef[j + ce.len()] == rest[j]);
            assert(ef[j + ce.len()].1 == prefix + q);
        }
    }
    // Distinctness: inside each part, and across parts because the byte at
    // the branching depth differs.
    assert forall|j1: int, j2: int| 0 <= j1 < j2 < ef.len() implies (#[trigger] ef[j1]).1
        != (#[trigger] ef[j2]).1 by {
        if j1 < ce.len() && j2 >= ce.len() {
            let e1 = ce[j1];
            let e2 = rest[j2 - ce.len()];
            assert(entry_sound(t, prefix, i, e1));
            assert(entry_sound(t, prefix, i + 1, e2));
            let ci2 = choose|ci: int|
                i + 1 <= ci < t.num_children() && e2.1[prefix.len() as int] == (#[trigger] t.child_byte(
                    ci,
                ));
            assert(e1.1[prefix.len() as int] == b);
            assert(t.child_byte(i) < t.child_byte(ci2));
        } else if j1 >= ce.len() {
            assert(ef[j1] == rest[j1 - ce.len()] && ef[j2] == rest[j2 - ce.len()]);
        } else {
            assert(ef[j1] == ce[j1] && ef[j2] == ce[j2]);
        }
    }
}

/// Law: iteration yields exactly the positive-count paths. Every tuple that
/// `entries` yields carries the positive occurrence count stored at its path
/// and the offset recorded there; every path with a positive count is
/// yielded; and no path is yielded twice. So after inserting N distinct
/// non-weak strings into a fresh trie, iteration yields exactly N tuples,
/// each with that string's insertion count.
#[verifier::rlimit(100)]
pub proof fn lemma_entries_characterize(t: Trie, prefix: Seq<u8>)
    requires
        t.wf(),
    ensures
        forall|j: int|
            0 <= j < t.entries(prefix).len() ==> ({
                let e = #[trigger] t.entries(prefix)[j];
                &&& prefix.is_prefix_of(e.1)
                &&& e.0 == t.count_of(e.1.skip(prefix.len() as int))
                &&& e.0 > 0
                &&& e.2 == t.offset_of(e.1.skip(prefix.len() as int))
            }),
        forall|q: Seq<u8>|
            #[trigger] t.count_of(q) > 0 ==> exists|j: int|
                0 <= j < t.entries(prefix).len() && (#[trigger] t.entries(prefix)[j]).1 == prefix
                    + q,
        forall|j1: int, j2: int|
            0 <= j1 < j2 < t.entries(prefix).len() ==> (#[trigger] t.entries(prefix)[j1]).1
                != (#[trigger] t.entries(prefix)[j2]).1,
    decreases t, t.num_children() + 1,
{
    let here: Seq<(nat, Seq<u8>, Option<usize>)> = if t.node_count() > 0 {
        seq![(t.node_count(), prefix, t.node_offset())]
    } else {
        Seq::empty()
    };
    let ef = t.entries_from(prefix, 0);
    let es = t.entries(prefix);
    assert(es == here + ef);
    lemma_entries_from_characterize(t, prefix, 0);
    assert(prefix.skip(prefix.len() as int) =~= Seq::<u8>::empty());
    assert(prefix.is_prefix_of(prefix)) by {
        assert(prefix =~= prefix.subrange(0, prefix.len() as int));
    }
    // Soundness of every yielded tuple.
    assert forall|j: int| 0 <= j < es.len() implies ({
        let e = #[trigger] es[j];
        &&& prefix.is_prefix_of(e.1)
        &&& e.0 == t.count_of(e.1.skip(prefix.len() as int))
        &&& e.0 > 0
        &&& e.2 == t.offset_of(e.1.skip(prefix.len() as int))
    }) by {
        if j < here.len() {
            assert(es[j] == here[0]);
        } else {
            assert(es[j] == ef[j - here.len()]);
            assert(entry_sound(t, prefix, 0, ef[j - here.len()]));
        }
    }
    // Completeness for every positive path.
    assert forall|q: Seq<u8>| #[trigger] t.count_of(q) > 0 implies exists|j: int|
        0 <= j < es.len() && (#[trigger] es[j]).1 == prefix + q by {
        if q.len() == 0 {
            assert(here.len() == 1);
            assert(es[0] == here[0]);
            assert(prefix + q =~= prefix);
            assert(es[0].1 == prefix + q);
        } else {
            assert(t.child(q[0]) is Some);
            lemma_lookup_some_index(t.children@, q[0]);
            let ci = choose|ci2: int|
                0 <= ci2 < t.children@.len() && (#[trigger] t.children@[ci2]).0 == q[0];
            assert(t.child_byte(ci) == q[0]);
            let j = choose|j: int| 0 <= j < ef.len() && (#[trigger] ef[j]).1 == prefix + q;
            assert(es[j + here.len()] == ef[j]);
            assert(es[j + here.len()].1 == prefix + q);
        }
    }
    // No path appears twice.
    assert forall|j1: int, j2: int| 0 <= j1 < j2 < es.len() implies (#[trigger] es[j1]).1
        != (#[trigger] es[j2]).1 by {
        if j1 < here.len() {
            assert(es[j2] == ef[j2 - here.len()]);
            assert(entry_sound(t, prefix, 0, ef[j2 - here.len()]));
            assert(es[j2].1.len() > prefix.len());
            assert(es[j1].1 == prefix);
        } else {
            assert(es[j1] == ef[j1 - here.len()] && es[j2] == ef[j2 - here.len()]);
        }
    }
}

/// A node with no children stores nothing anywhere.
proof fn lemma_empty_node(t: Trie)
    requires
        t.is_empty_node(),
    ensures
        forall|q: Seq<u8>| #[trigger] t.count_of(q) == 0,
        forall|q: Seq<u8>| #[trigger] t.offset_of(q) is None,
{
    assert forall|q: Seq<u8>| #[trigger] t.count_of(q) == 0 && t.offset_of(q) is None by {
        if q.len() > 0 {
            assert(t.child(q[0]) is None);
        }
    }
}

/// If `b` first occurs at position `j`, the lookup returns that child.
proof fn lemma_lookup_at(cs: Seq<(u8, Trie)>, b: u8, j: int)
    requires
        0 <= j < cs.len(),
        cs[j].0 == b,
        forall|i: int| 0 <= i < j ==> (#[trigger] cs[i]).0 != b,
    ensures
        lookup(cs, b) == Some(cs[j].1),
    decreases j,
{
    if j > 0 {
        lemma_lookup_at(cs.drop_first(), b, j - 1);
    }
}

/// If `b` occurs nowhere, the lookup fails.
proof fn lemma_lookup_none(cs: Seq<(u8, Trie)>, b: u8)
    requires
        forall|i: int| 0 <= i < cs.len() ==> (#[trigger] cs[i]).0 != b,
    ensures
        lookup(cs, b) is None,
    decreases cs.len(),
{
    if cs.len() > 0 {
        lemma_lookup_none(cs.drop_first(), b);
    }
}

/// Replacing the element at `j` by one with the same label leaves lookups
/// for every other label unchanged.
proof fn lemma_lookup_update_other(cs: Seq<(u8, Trie)>, j: int, x: (u8, Trie), b2: u8)
    requires
        0 <= j < cs.len(),
        x.0 == cs[j].0,
        b2 != x.0,
    ensures
        lookup(cs.update(j, x), b2) == lookup(cs, b2),
    decreases j,
{
    let cs1 = cs.update(j, x);
    if cs.len() > 0 {
        if j == 0 {
            assert(cs1.drop_first() =~= cs.drop_first());
        } else {
            assert(cs1.drop_first() =~= cs.drop_first().update(j - 1, x));
            lemma_lookup_update_other(cs.drop_first(), j - 1, x, b2);
        }
    }
}

/// Inserting an element leaves lookups for every other label unchanged.
proof fn lemma_lookup_insert_other(cs: Seq<(u8, Trie)>, j: int, x: (u8, Trie), b2: u8)
    requires
        0 <= j <= cs.len(),
        b2 != x.0,
    ensures
        lookup(cs.insert(j, x), b2) == lookup(cs, b2),
    decreases j,
{
    let cs1 = cs.insert(j, x);
    if j == 0 {
        assert(cs1.drop_first() =~= cs);
    } else {
        assert(cs1[0] == cs[0]);
        assert(cs1.drop_first() =~= cs.drop_first().insert(j - 1, x));
        lemma_lookup_insert_other(cs.drop_first(), j - 1, x, b2);
    }
}

} // verus!

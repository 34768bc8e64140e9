//! The [`Freelist`] struct and its associated constants and functions.
//!
//! In the running allocator the free list is intrusive: its nodes occupy the
//! first bytes of each free block's content. The model keeps the same node
//! addresses and the same `next`/`prev` link structure, storing the node
//! cells in a table keyed by their address; the null pointer is the address
//! zero. The view of a list is the sequence of node addresses from the head.

use std::collections::HashMap;
use vstd::prelude::*;

verus! {

broadcast use vstd::std_specs::hash::group_hash_axioms;

/// Number of bytes a free-list node occupies inside a free block's content.
pub const NODE_SIZE: usize = 16;

/// Alignment of a free-list node.
pub const NODE_ALIGN: usize = 8;

/// One node of the free list: the addresses of the following and of the
/// preceding node, or zero where there is no such neighbour.
#[derive(Copy, Clone, Debug, PartialEq, Eq, Structural)]
pub struct Node {
    pub next: usize,
    pub prev: usize,
}

/// A doubly-linked list of node addresses with constant-time push-front and
/// remove-by-node.
pub struct Freelist {
    head: usize,
    nodes: HashMap<usize, Node>,
    order: Ghost<Seq<usize>>,
}

impl View for Freelist {
    type V = Seq<usize>;

    closed spec fn view(&self) -> Seq<usize> {
        self.order@
    }
}

impl Freelist {
    /// The stored `next` pointer of the node at address `a`.
    pub closed spec fn next_link(&self, a: usize) -> usize {
        if self.nodes@.contains_key(a) {
            self.nodes@[a].next
        } else {
            0
        }
    }

    /// The stored `prev` pointer of the node at address `a`.
    pub closed spec fn prev_link(&self, a: usize) -> usize {
        if self.nodes@.contains_key(a) {
            self.nodes@[a].prev
        } else {
            0
        }
    }

    /// The stored head pointer.
    pub closed spec fn head_link(&self) -> usize {
        self.head
    }

    /// Well-formedness: the node table and the head pointer describe exactly
    /// the chain of addresses in the view, with null ends.
    pub closed spec fn wf(&self) -> bool {
        &&& self.order@.no_duplicates()
        &&& (forall|j: int|
            0 <= j < self.order@.len() ==> #[trigger] self.order@[j] != 0)
        &&& (forall|j: int|
            0 <= j < self.order@.len() ==> self.nodes@.contains_key(
                #[trigger] self.order@[j],
            ))
        &&& (forall|j: int|
            0 <= j < self.order@.len() ==> self.nodes@[#[trigger] self.order@[j]].next == (
            if j + 1 < self.order@.len() {
                self.order@[j + 1]
            } else {
                0
            }))
        &&& (forall|j: int|
            0 <= j < self.order@.len() ==> self.nodes@[#[trigger] self.order@[j]].prev == (
            if j > 0 {
                self.order@[j - 1]
            } else {
                0
            }))
        &&& self.head == (if self.order@.len() > 0 {
            self.order@[0]
        } else {
            0
        })
    }

    /// In a duplicate-free sequence, the index of a contained value is the
    /// only index holding it.
    pub proof fn lemma_index_of(s: Seq<usize>, a: usize)
        requires
            s.no_duplicates(),
            s.contains(a),
        ensures
            0 <= s.index_of(a) < s.len(),
            s[s.index_of(a)] == a,
            forall|i: int| 0 <= i < s.len() && s[i] == a ==> i == s.index_of(a),
    {
        let j = s.index_of(a);
        assert(exists|i: int| 0 <= i < s.len() && s[i] == a);
        assert(0 <= j < s.len() && s[j] == a);
    }

    /// A well-formed list holds each node address at most once and never
    /// holds the null address.
    pub proof fn lemma_wf_view(&self)
        requires
            self.wf(),
        ensures
            self@.no_duplicates(),
            forall|j: int| 0 <= j < self@.len() ==> #[trigger] self@[j] != 0,
    {
    }

    /// Creates an empty list.
    pub fn new() -> (r: Self)
        ensures
            r.wf(),
            r@ == Seq::<usize>::empty(),
    {
        Freelist { head: 0, nodes: HashMap::new(), order: Ghost(Seq::empty()) }
    }

    /// Records a node at the null-free address `p`, which must not be in the
    /// list yet, and links it at the head. This operation is *O*(1).
    pub fn push_front(&mut self, p: usize)
        requires
            old(self).wf(),
            p != 0,
            !old(self)@.contains(p),
        ensures
            final(self).wf(),
            final(self)@ == seq![p] + old(self)@,
            forall|a: usize|
                final(self)@.contains(a) <==> (a == p || old(self)@.contains(a)),
    {
        let ghost s = self.order@;
        let h = self.head;
        if h != 0 {
            proof {
                assert(s.len() > 0 && s[0] == h);
                assert(s.contains(h));
            }
            let oldh: Node = *self.nodes.get(&h).unwrap();
            self.nodes.insert(h, Node { next: oldh.next, prev: p });
        }
        self.nodes.insert(p, Node { next: h, prev: 0 });
        self.head = p;
        proof {
            self.order@ = seq![p] + s;
            let t = self.order@;
            assert forall|j: int| 0 <= j < t.len() implies #[trigger] t[j] != 0 by {
                if j > 0 {
                    assert(t[j] == s[j - 1]);
                }
            }
            assert(t.no_duplicates()) by {
                assert forall|i: int, j: int|
                    0 <= i < t.len() && 0 <= j < t.len() && i != j implies t[i] != t[j] by {
                    if i > 0 && j > 0 {
                        assert(t[i] == s[i - 1] && t[j] == s[j - 1]);
                    } else if i == 0 && j > 0 {
                        assert(t[j] == s[j - 1]);
                        assert(s.contains(s[j - 1]));
                    } else if j == 0 && i > 0 {
                        assert(t[i] == s[i - 1]);
                        assert(s.contains(s[i - 1]));
                    }
                }
            }
            assert forall|j: int|
                0 <= j < t.len() implies self.nodes@.contains_key(#[trigger] t[j])
                && self.nodes@[t[j]].next == (if j + 1 < t.len() {
                    t[j + 1]
                } else {
                    0
                })
                && self.nodes@[t[j]].prev == (if j > 0 {
                    t[j - 1]
                } else {
                    0
                }) by {
                if j == 0 {
                    assert(t[0] == p);
                } else if j == 1 {
                    assert(t[1] == s[0]);
                    assert(s.contains(s[0]));
                } else {
                    assert(t[j] == s[j - 1]);
                    assert(s.contains(s[j - 1]));
                    if s[j - 1] == h {
                        assert(s[0] == h);
                        assert(j - 1 == 0);
                    }
                }
            }
            assert forall|a: usize|
                final(self)@.contains(a) <==> (a == p || s.contains(a)) by {
                if final(self)@.contains(a) {
                    let k = choose|k: int| 0 <= k < t.len() && t[k] == a;
                    if k > 0 {
                        assert(s[k - 1] == a);
                        assert(s.contains(a));
                    }
                } else {
                }
                if a == p {
                    assert(t[0] == a);
                    assert(t.contains(a));
                }
                if s.contains(a) {
                    let k = choose|k: int| 0 <= k < s.len() && s[k] == a;
                    assert(t[k + 1] == a);
                    assert(t.contains(a));
                }
            }
        }
    }

    /// Unlinks the node at address `p`, which must be in the list.
    /// This operation is *O*(1).
    pub fn remove(&mut self, p: usize)
        requires
            old(self).wf(),
            old(self)@.contains(p),
        ensures
            final(self).wf(),
            final(self)@ == old(self)@.remove(old(self)@.index_of(p)),
            final(self)@.len() == old(self)@.len() - 1,
            forall|a: usize|
                final(self)@.contains(a) <==> (old(self)@.contains(a) && a != p),
    {
        let ghost s = self.order@;
        let ghost j = s.index_of(p);
        proof {
            Self::lemma_index_of(s, p);
        }
        let nd: Node = *self.nodes.get(&p).unwrap();
        proof {
            assert(nd == self.nodes@[p]);
            if j > 0 {
                assert(nd.prev == s[j - 1]);
                assert(s.contains(s[j - 1]));
            }
            if j + 1 < s.len() {
                assert(nd.next == s[j + 1]);
                assert(s.contains(s[j + 1]));
            }
        }
        if nd.prev == 0 {
            self.head = nd.next;
        } else {
            let pv: Node = *self.nodes.get(&nd.prev).unwrap();
            self.nodes.insert(nd.prev, Node { next: nd.next, prev: pv.prev });
        }
        if nd.next != 0 {
            let nx: Node = *self.nodes.get(&nd.next).unwrap();
            self.nodes.insert(nd.next, Node { next: nx.next, prev: nd.prev });
        }
        self.nodes.remove(&p);
        proof {
            self.order@ = s.remove(j);
            let t = self.order@;
            assert(t.len() == s.len() - 1);
            assert forall|k: int| 0 <= k < t.len() implies #[trigger] t[k] == (if k < j {
                s[k]
            } else {
                s[k + 1]
            }) by {}
            assert(t.no_duplicates()) by {
                assert forall|i: int, k: int|
                    0 <= i < t.len() && 0 <= k < t.len() && i != k implies t[i] != t[k] by {}
            }
            assert forall|k: int| 0 <= k < t.len() implies #[trigger] t[k] != 0 by {}
            assert forall|k: int|
                0 <= k < t.len() implies self.nodes@.contains_key(#[trigger] t[k])
                && self.nodes@[t[k]].next == (if k + 1 < t.len() {
                    t[k + 1]
                } else {
                    0
                })
                && self.nodes@[t[k]].prev == (if k > 0 {
                    t[k - 1]
                } else {
                    0
                }) by {
                let a = t[k];
                let ko = if k < j { k } else { k + 1 as int };
                assert(s[ko] == a);
                assert(ko != j);
                assert(a != p);
                if ko == j - 1 {
                    assert(a == nd.prev);
                } else if ko == j + 1 {
                    assert(a == nd.next);
                } else {
                    assert(a != s[j - 1] || j - 1 < 0);
                    assert(a != nd.prev || nd.prev == 0);
                    assert(a != nd.next || nd.next == 0);
                }
            }
            if j == 0 {
                if s.len() > 1 {
                    assert(t[0] == s[1]);
                }
            } else {
                assert(t[0] == s[0]);
            }
            assert forall|a: usize|
                t.contains(a) <==> (s.contains(a) && a != p) by {
                if t.contains(a) {
                    let k = choose|k: int| 0 <= k < t.len() && t[k] == a;
                    let ko = if k < j { k } else { k + 1 as int };
                    assert(s[ko] == a);
                    assert(s.contains(a));
                    assert(ko != j);
                }
                if s.contains(a) && a != p {
                    let k = choose|k: int| 0 <= k < s.len() && s[k] == a;
                    assert(k != j);
                    if k < j {
                        assert(t[k] == a);
                    } else {
                        assert(t[k - 1] == a);
                    }
                    assert(t.contains(a));
                }
            }
        }
    }

    /// Returns the head of the list, or `None` if the list is empty.
    /// This operation is *O*(1).
    pub fn head(&self) -> (r: Option<usize>)
        requires
            self.wf(),
        ensures
            r == (if self@.len() == 0 {
                None::<usize>
            } else {
                Some(self@[0])
            }),
    {
        if self.head == 0 {
            None
        } else {
            Some(self.head)
        }
    }

    /// Returns the stored `next` pointer of the node at address `p`.
    pub fn next_of(&self, p: usize) -> (r: usize)
        requires
            self.wf(),
            self@.contains(p),
        ensures
            r == self.next_link(p),
            ({
                let j = self@.index_of(p);
                r == (if j + 1 < self@.len() {
                    self@[j + 1]
                } else {
                    0
                })
            }),
    {
        proof {
            Self::lemma_index_of(self@, p);
        }
        self.nodes.get(&p).unwrap().next
    }

    /// Returns the stored `prev` pointer of the node at address `p`.
    pub fn prev_of(&self, p: usize) -> (r: usize)
        requires
            self.wf(),
            self@.contains(p),
        ensures
            r == self.prev_link(p),
            ({
                let j = self@.index_of(p);
                r == (if j > 0 {
                    self@[j - 1]
                } else {
                    0
                })
            }),
    {
        proof {
            Self::lemma_index_of(self@, p);
        }
        self.nodes.get(&p).unwrap().prev
    }

    /// Free-list links are mutually consistent: a node's `next`, when not
    /// null, is in the list and points back to the node through `prev`; a
    /// node's `prev`, when not null, is in the list and points forward to the
    /// node through `next`; and a node's `prev` is null exactly when the node
    /// is the head.
    pub proof fn lemma_links_mutually_consistent(&self, a: usize)
        requires
            self.wf(),
            self@.contains(a),
        ensures
            self.prev_link(a) == 0 <==> a == self.head_link(),
            self.next_link(a) != 0 ==> self@.contains(self.next_link(a))
                && self.prev_link(self.next_link(a)) == a,
            self.prev_link(a) != 0 ==> self@.contains(self.prev_link(a))
                && self.next_link(self.prev_link(a)) == a,
    {
        let s = self@;
        Self::lemma_index_of(s, a);
        let j = s.index_of(a);
        if j + 1 < s.len() {
            assert(s.contains(s[j + 1]));
            Self::lemma_index_of(s, s[j + 1]);
        }
        if j > 0 {
            assert(s.contains(s[j - 1]));
            Self::lemma_index_of(s, s[j - 1]);
        }
        if j > 0 {
            assert(self.prev_link(a) == s[j - 1]);
            assert(s[j - 1] != 0);
        }
        if self.prev_link(a) == 0 {
            assert(j == 0);
        }
    }
}

} // verus!

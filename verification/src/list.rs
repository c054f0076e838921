//! An intrusive doubly-linked list over an arena of nodes.
//!
//! The list stores no elements of its own: the caller owns an arena
//! (a `Vec` of [`Node`]s) and the list threads through it by index.  `NIL`
//! (the largest `usize`) marks the absence of a neighbour.  Because the link
//! fields live inside the nodes themselves, pushing, popping and detaching
//! never allocate, and detaching an arbitrary member needs only that
//! member's own links.
//!
//! The abstract value of a list is the sequence of arena indices of its
//! members, from front to back; it is carried as a ghost field and every
//! operation states how it changes.

use vstd::prelude::*;

verus! {

/// Index value that stands for "no node".
pub const NIL: usize = usize::MAX;

/// One arena slot: two intrusive link fields and the caller's element.
#[derive(Clone, Copy)]
pub struct Node<T> {
    pub next: usize,
    pub prev: usize,
    pub element: T,
}

impl<T> Node<T> {
    /// Whether both link fields are `NIL`, i.e. the node is in no list.
    pub closed spec fn spec_unlinked(&self) -> bool {
        self.next == NIL && self.prev == NIL
    }

    /// A fresh, unlinked node carrying `element`.
    pub fn new(element: T) -> (n: Node<T>)
        ensures
            n.spec_unlinked(),
            n.element == element,
    {
        Node { next: NIL, prev: NIL, element }
    }
}

/// An intrusive doubly-linked list: head and tail indices into an arena.
#[derive(Clone, Copy)]
pub struct LinkedList {
    head: usize,
    tail: usize,
    elems: Ghost<Seq<usize>>,
}

impl View for LinkedList {
    type V = Seq<usize>;

    closed spec fn view(&self) -> Seq<usize> {
        self.elems@
    }
}

impl LinkedList {
    /// Well-formedness of the list with respect to an arena: the ghost
    /// member sequence holds distinct in-bounds indices, the head and tail
    /// fields name its ends, and each member's link fields name its
    /// neighbours in the sequence (`NIL` at the ends).
    pub closed spec fn wf<T>(self, arena: Seq<Node<T>>) -> bool {
        let s = self.elems@;
        &&& arena.len() < NIL
        &&& forall|k: int| 0 <= k < s.len() ==> (#[trigger] s[k]) < arena.len()
        &&& s.no_duplicates()
        &&& self.head == (if s.len() == 0 { NIL } else { s[0] })
        &&& self.tail == (if s.len() == 0 { NIL } else { s[s.len() - 1] })
        &&& forall|k: int| 0 <= k < s.len() ==> (#[trigger] arena[s[k] as int].prev) == (
            if k == 0 { NIL } else { s[k - 1] })
        &&& forall|k: int| 0 <= k < s.len() ==> (#[trigger] arena[s[k] as int].next) == (
            if k == s.len() - 1 { NIL } else { s[k + 1] })
    }

    /// A list with no members and both end fields at `NIL`.  Such a list is
    /// well-formed with respect to every arena small enough to leave `NIL`
    /// free as a sentinel (see [`lemma_unlinked_wf`]).
    pub closed spec fn unlinked(self) -> bool {
        self.head == NIL && self.tail == NIL && self.elems@.len() == 0
    }

    /// An empty list.
    pub fn new() -> (l: LinkedList)
        ensures
            l@ == Seq::<usize>::empty(),
            l.unlinked(),
    {
        LinkedList { head: NIL, tail: NIL, elems: Ghost(Seq::empty()) }
    }
}

impl LinkedList {
    /// Pushes `idx` as the new tail.  `idx` must not currently be a member
    /// of any list over this arena; pushing a linked node would corrupt
    /// both lists, so membership is ruled out by precondition.
    pub fn push_back<T>(&mut self, arena: &mut Vec<Node<T>>, idx: usize)
        requires
            old(self).wf(old(arena)@),
            idx < old(arena)@.len(),
            !old(self)@.contains(idx),
        ensures
            final(self).wf(final(arena)@),
            final(self)@ == old(self)@.push(idx),
            final(self)@.len() == old(self)@.len() + 1,
            forall|x: usize| final(self)@.contains(x) <==> (old(self)@.contains(x) || x == idx),
            final(arena)@.len() == old(arena)@.len(),
            forall|m: int|
                0 <= m < old(arena)@.len() ==> (#[trigger] final(arena)@[m]).element
                    == old(arena)@[m].element,
            forall|m: int|
                0 <= m < old(arena)@.len() && m != idx && !old(self)@.contains(m as usize)
                    ==> #[trigger] final(arena)@[m] == old(arena)@[m],
    {
        let ghost s = self.elems@;
        let t = self.tail;
        proof {
            if s.len() > 0 {
                assert(s[s.len() - 1] < arena@.len());
            }
        }
        arena[idx].next = NIL;
        arena[idx].prev = t;
        if t == NIL {
            self.head = idx;
        } else {
            arena[t].next = idx;
        }
        self.tail = idx;
        proof {
            self.elems@ = s.push(idx);
            let s2 = self.elems@;
            assert forall|x: usize| s2.contains(x) implies (s.contains(x) || x == idx) by {
                let k = choose|k: int| 0 <= k < s2.len() && s2[k] == x;
                if k < s.len() {
                    assert(s[k] == x);
                }
            }
            assert forall|x: usize| s.contains(x) implies s2.contains(x) by {
                let k = choose|k: int| 0 <= k < s.len() && s[k] == x;
                assert(s2[k] == x);
            }
            assert(s2.contains(idx)) by {
                assert(s2[s.len() as int] == idx);
            }
            assert(s2.no_duplicates()) by {
                assert forall|i: int, j: int|
                    0 <= i < s2.len() && 0 <= j < s2.len() && i != j implies s2[i] != s2[j] by {
                    if i < s.len() && j < s.len() {
                        assert(s.no_duplicates());
                    } else if i < s.len() {
                        assert(s.contains(s[i]));
                    } else if j < s.len() {
                        assert(s.contains(s[j]));
                    }
                }
            }
            assert(self.wf(arena@)) by {
                assert forall|k: int| 0 <= k < s2.len() implies (#[trigger] arena@[s2[k] as int].prev)
                    == (if k == 0 { NIL } else { s2[k - 1] }) by {
                    if k < s.len() {
                        assert(s.contains(s[k]));
                    }
                }
                assert forall|k: int| 0 <= k < s2.len() implies (#[trigger] arena@[s2[k] as int].next)
                    == (if k == s2.len() - 1 { NIL } else { s2[k + 1] }) by {
                    if k < s.len() - 1 {
                        assert(s.contains(s[k]));
                    } else if k == s.len() - 1 {
                        assert(s[k] == t);
                    }
                }
            }
        }
    }

    /// Pushes `idx` as the new head.  Same precondition as [`Self::push_back`].
    pub fn push_front<T>(&mut self, arena: &mut Vec<Node<T>>, idx: usize)
        requires
            old(self).wf(old(arena)@),
            idx < old(arena)@.len(),
            !old(self)@.contains(idx),
        ensures
            final(self).wf(final(arena)@),
            final(self)@ == seq![idx] + old(self)@,
            final(self)@.len() == old(self)@.len() + 1,
            forall|x: usize| final(self)@.contains(x) <==> (old(self)@.contains(x) || x == idx),
            final(arena)@.len() == old(arena)@.len(),
            forall|m: int|
                0 <= m < old(arena)@.len() ==> (#[trigger] final(arena)@[m]).element
                    == old(arena)@[m].element,
            forall|m: int|
                0 <= m < old(arena)@.len() && m != idx && !old(self)@.contains(m as usize)
                    ==> #[trigger] final(arena)@[m] == old(arena)@[m],
    {
        let ghost s = self.elems@;
        let h = self.head;
        proof {
            if s.len() > 0 {
                assert(s[0] < arena@.len());
            }
        }
        arena[idx].prev = NIL;
        arena[idx].next = h;
        if h == NIL {
            self.tail = idx;
        } else {
            arena[h].prev = idx;
        }
        self.head = idx;
        proof {
            self.elems@ = seq![idx] + s;
            let s2 = self.elems@;
            assert forall|x: usize| s2.contains(x) implies (s.contains(x) || x == idx) by {
                let k = choose|k: int| 0 <= k < s2.len() && s2[k] == x;
                if k >= 1 {
                    assert(s[k - 1] == x);
                }
            }
            assert forall|x: usize| s.contains(x) implies s2.contains(x) by {
                let k = choose|k: int| 0 <= k < s.len() && s[k] == x;
                assert(s2[k + 1] == x);
            }
            assert(s2.contains(idx)) by {
                assert(s2[0] == idx);
            }
            assert(s2.no_duplicates()) by {
                assert forall|i: int, j: int|
                    0 <= i < s2.len() && 0 <= j < s2.len() && i != j implies s2[i] != s2[j] by {
                    if i >= 1 && j >= 1 {
                        assert(s.no_duplicates());
                    } else if i >= 1 {
                        assert(s.contains(s[i - 1]));
                    } else if j >= 1 {
                        assert(s.contains(s[j - 1]));
                    }
                }
            }
            assert(self.wf(arena@)) by {
                assert forall|k: int| 0 <= k < s2.len() implies (#[trigger] arena@[s2[k] as int].prev)
                    == (if k == 0 { NIL } else { s2[k - 1] }) by {
                    if k >= 2 {
                        assert(s.contains(s[k - 1]));
                    } else if k == 1 {
                        assert(s[0] == h);
                    }
                }
                assert forall|k: int| 0 <= k < s2.len() implies (#[trigger] arena@[s2[k] as int].next)
                    == (if k == s2.len() - 1 { NIL } else { s2[k + 1] }) by {
                    if k >= 1 {
                        assert(s.contains(s[k - 1]));
                    }
                }
            }
        }
    }

    /// Removes and returns the head, or `None` if the list is empty.
    pub fn pop_front<T>(&mut self, arena: &mut Vec<Node<T>>) -> (r: Option<usize>)
        requires
            old(self).wf(old(arena)@),
        ensures
            final(self).wf(final(arena)@),
            final(arena)@.len() == old(arena)@.len(),
            forall|m: int|
                0 <= m < old(arena)@.len() ==> (#[trigger] final(arena)@[m]).element
                    == old(arena)@[m].element,
            forall|m: int|
                0 <= m < old(arena)@.len() && !old(self)@.contains(m as usize)
                    ==> #[trigger] final(arena)@[m] == old(arena)@[m],
            old(self)@.len() == 0 ==> r is None && final(self)@ == old(self)@ && final(arena)@
                == old(arena)@,
            old(self)@.len() > 0 ==> {
                &&& r == Some(old(self)@[0])
                &&& final(self)@ == old(self)@.drop_first()
                &&& final(self)@.len() == old(self)@.len() - 1
                &&& !final(self)@.contains(old(self)@[0])
                &&& forall|x: usize|
                    x != old(self)@[0] ==> (final(self)@.contains(x) <==> old(self)@.contains(x))
            },
    {
        let ghost s = self.elems@;
        let h = self.head;
        if h == NIL {
            None
        } else {
            proof {
                assert(s[0] < arena@.len());
                if s.len() > 1 {
                    assert(s[1] < arena@.len());
                }
            }
            let n = arena[h].next;
            self.head = n;
            if n == NIL {
                self.tail = NIL;
            } else {
                arena[n].prev = NIL;
            }
            proof {
                self.elems@ = s.drop_first();
                let s2 = self.elems@;
                assert forall|x: usize| s2.contains(x) implies s.contains(x) by {
                    let k = choose|k: int| 0 <= k < s2.len() && s2[k] == x;
                    assert(s[k + 1] == x);
                }
                assert forall|x: usize| x != s[0] && s.contains(x) implies s2.contains(x) by {
                    let k = choose|k: int| 0 <= k < s.len() && s[k] == x;
                    assert(s2[k - 1] == x);
                }
                assert(!s2.contains(s[0])) by {
                    if s2.contains(s[0]) {
                        let k = choose|k: int| 0 <= k < s2.len() && s2[k] == s[0];
                        assert(s[k + 1] == s[0]);
                        assert(s.no_duplicates());
                    }
                }
                assert(s2.no_duplicates()) by {
                    assert forall|i: int, j: int|
                        0 <= i < s2.len() && 0 <= j < s2.len() && i != j implies s2[i] != s2[j] by {
                        assert(s.no_duplicates());
                        assert(s2[i] == s[i + 1]);
                        assert(s2[j] == s[j + 1]);
                    }
                }
                assert(self.wf(arena@)) by {
                    assert forall|k: int| 0 <= k < s2.len() implies (#[trigger] arena@[s2[k]
                        as int].prev) == (if k == 0 { NIL } else { s2[k - 1] }) by {
                        if k > 0 {
                            assert(s.no_duplicates());
                            assert(s2[k] == s[k + 1]);
                        }
                    }
                    assert forall|k: int| 0 <= k < s2.len() implies (#[trigger] arena@[s2[k]
                        as int].next) == (if k == s2.len() - 1 { NIL } else { s2[k + 1] }) by {
                        assert(s.no_duplicates());
                        assert(s2[k] == s[k + 1]);
                    }
                }
            }
            Some(h)
        }
    }

    /// Removes and returns the tail, or `None` if the list is empty.
    pub fn pop_back<T>(&mut self, arena: &mut Vec<Node<T>>) -> (r: Option<usize>)
        requires
            old(self).wf(old(arena)@),
        ensures
            final(self).wf(final(arena)@),
            final(arena)@.len() == old(arena)@.len(),
            forall|m: int|
                0 <= m < old(arena)@.len() ==> (#[trigger] final(arena)@[m]).element
                    == old(arena)@[m].element,
            forall|m: int|
                0 <= m < old(arena)@.len() && !old(self)@.contains(m as usize)
                    ==> #[trigger] final(arena)@[m] == old(arena)@[m],
            old(self)@.len() == 0 ==> r is None && final(self)@ == old(self)@ && final(arena)@
                == old(arena)@,
            old(self)@.len() > 0 ==> {
                &&& r == Some(old(self)@.last())
                &&& final(self)@ == old(self)@.drop_last()
                &&& final(self)@.len() == old(self)@.len() - 1
                &&& !final(self)@.contains(old(self)@.last())
                &&& forall|x: usize|
                    x != old(self)@.last() ==> (final(self)@.contains(x) <==> old(self)@.contains(
                        x))
            },
    {
        let ghost s = self.elems@;
        let t = self.tail;
        if t == NIL {
            None
        } else {
            proof {
                assert(s[s.len() - 1] < arena@.len());
                if s.len() > 1 {
                    assert(s[s.len() - 2] < arena@.len());
                }
            }
            let p = arena[t].prev;
            self.tail = p;
            if p == NIL {
                self.head = NIL;
            } else {
                arena[p].next = NIL;
            }
            proof {
                self.elems@ = s.drop_last();
                let s2 = self.elems@;
                assert forall|x: usize| s2.contains(x) implies s.contains(x) by {
                    let k = choose|k: int| 0 <= k < s2.len() && s2[k] == x;
                    assert(s[k] == x);
                }
                assert forall|x: usize| x != s.last() && s.contains(x) implies s2.contains(x) by {
                    let k = choose|k: int| 0 <= k < s.len() && s[k] == x;
                    assert(s2[k] == x);
                }
                assert(!s2.contains(s.last())) by {
                    if s2.contains(s.last()) {
                        let k = choose|k: int| 0 <= k < s2.len() && s2[k] == s.last();
                        assert(s[k] == s.last());
                        assert(s.no_duplicates());
                    }
                }
                assert(s2.no_duplicates()) by {
                    assert forall|i: int, j: int|
                        0 <= i < s2.len() && 0 <= j < s2.len() && i != j implies s2[i] != s2[j] by {
                        assert(s.no_duplicates());
                    }
                }
                assert(self.wf(arena@)) by {
                    assert forall|k: int| 0 <= k < s2.len() implies (#[trigger] arena@[s2[k]
                        as int].prev) == (if k == 0 { NIL } else { s2[k - 1] }) by {
                        assert(s.no_duplicates());
                        assert(s2[k] == s[k]);
                    }
                    assert forall|k: int| 0 <= k < s2.len() implies (#[trigger] arena@[s2[k]
                        as int].next) == (if k == s2.len() - 1 { NIL } else { s2[k + 1] }) by {
                        assert(s.no_duplicates());
                        assert(s2[k] == s[k]);
                        if k == s2.len() - 1 {
                            assert(s[k] == p);
                        }
                    }
                }
            }
            Some(t)
        }
    }

    /// Removes the member `idx` from wherever it sits in this list, using
    /// only `idx`'s own link fields to patch its neighbours.  The caller
    /// must know that this list is the one holding `idx`.
    pub fn detach<T>(&mut self, arena: &mut Vec<Node<T>>, idx: usize)
        requires
            old(self).wf(old(arena)@),
            old(self)@.contains(idx),
        ensures
            final(self).wf(final(arena)@),
            final(self)@ == old(self)@.remove_value(idx),
            final(self)@.len() == old(self)@.len() - 1,
            !final(self)@.contains(idx),
            forall|x: usize| x != idx ==> (final(self)@.contains(x) <==> old(self)@.contains(x)),
            final(arena)@.len() == old(arena)@.len(),
            forall|m: int|
                0 <= m < old(arena)@.len() ==> (#[trigger] final(arena)@[m]).element
                    == old(arena)@[m].element,
            forall|m: int|
                0 <= m < old(arena)@.len() && !old(self)@.contains(m as usize)
                    ==> #[trigger] final(arena)@[m] == old(arena)@[m],
    {
        let ghost s = self.elems@;
        let ghost kg = s.index_of(idx);
        proof {
            assert(0 <= kg < s.len() && s[kg] == idx);
            assert(idx < arena@.len());
            if kg > 0 {
                assert(s[kg - 1] < arena@.len());
            }
            if kg < s.len() - 1 {
                assert(s[kg + 1] < arena@.len());
            }
        }
        let nx = arena[idx].next;
        let pv = arena[idx].prev;
        if nx == NIL {
            self.tail = pv;
        } else {
            arena[nx].prev = pv;
        }
        if pv == NIL {
            self.head = nx;
        } else {
            arena[pv].next = nx;
        }
        proof {
            s.index_of_first_ensures(idx);
            assert(s.index_of_first(idx) == Some(kg)) by {
                let k1 = s.index_of_first(idx) -> Some_0;
                assert(s[k1] == idx);
                assert(s.no_duplicates());
            }
            self.elems@ = s.remove(kg);
            let s2 = self.elems@;
            assert(s2 == s.remove_value(idx));
            s.remove_ensures(kg);
            assert forall|x: usize| s2.contains(x) implies s.contains(x) by {
                let k = choose|k: int| 0 <= k < s2.len() && s2[k] == x;
                if k < kg {
                    assert(s[k] == x);
                } else {
                    assert(s[k + 1] == x);
                }
            }
            assert forall|x: usize| x != idx && s.contains(x) implies s2.contains(x) by {
                let k = choose|k: int| 0 <= k < s.len() && s[k] == x;
                if k < kg {
                    assert(s2[k] == x);
                } else {
                    assert(k != kg);
                    assert(s2[k - 1] == x);
                }
            }
            assert(!s2.contains(idx)) by {
                if s2.contains(idx) {
                    let k = choose|k: int| 0 <= k < s2.len() && s2[k] == idx;
                    if k < kg {
                        assert(s[k] == idx);
                    } else {
                        assert(s[k + 1] == idx);
                    }
                    assert(s.no_duplicates());
                }
            }
            assert(s2.no_duplicates()) by {
                assert forall|i: int, j: int|
                    0 <= i < s2.len() && 0 <= j < s2.len() && i != j implies s2[i] != s2[j] by {
                    assert(s.no_duplicates());
                    assert(s2[i] == (if i < kg { s[i] } else { s[i + 1] }));
                    assert(s2[j] == (if j < kg { s[j] } else { s[j + 1] }));
                }
            }
            assert(self.wf(arena@)) by {
                assert(s.no_duplicates());
                assert forall|k: int| 0 <= k < s2.len() implies (#[trigger] arena@[s2[k]
                    as int].prev) == (if k == 0 { NIL } else { s2[k - 1] }) by {
                    assert(s2[k] == (if k < kg { s[k] } else { s[k + 1] }));
                    if k > 0 {
                        assert(s2[k - 1] == (if k - 1 < kg { s[k - 1] } else { s[k] }));
                    }
                    if k == kg {
                        assert(s2[k] == s[kg + 1]);
                        assert(arena@[s[kg + 1] as int].prev == pv);
                    }
                }
                assert forall|k: int| 0 <= k < s2.len() implies (#[trigger] arena@[s2[k]
                    as int].next) == (if k == s2.len() - 1 { NIL } else { s2[k + 1] }) by {
                    assert(s2[k] == (if k < kg { s[k] } else { s[k + 1] }));
                    if k < s2.len() - 1 {
                        assert(s2[k + 1] == (if k + 1 < kg { s[k + 1] } else { s[k + 2] }));
                    }
                    if k == kg - 1 {
                        assert(arena@[s[kg - 1] as int].next == nx);
                    }
                }
            }
        }
    }

    /// The number of members, counted by traversal.
    pub fn len<T>(&self, arena: &Vec<Node<T>>) -> (n: usize)
        requires
            self.wf(arena@),
        ensures
            n == self@.len(),
    {
        proof {
            lemma_members_bounded(*self, arena@);
        }
        let ghost s = self.elems@;
        let mut cnt: usize = 0;
        let mut cur: usize = self.head;
        while cur != NIL
            invariant
                self.wf(arena@),
                s == self.elems@,
                cnt <= s.len() <= arena@.len() < NIL,
                cur == (if cnt == s.len() { NIL } else { s[cnt as int] }),
            decreases s.len() - cnt,
        {
            proof {
                assert(s[cnt as int] < arena@.len());
            }
            cur = arena[cur].next;
            cnt = cnt + 1;
        }
        cnt
    }

    /// The element of the head member, if any.
    pub fn front<'a, T>(&self, arena: &'a Vec<Node<T>>) -> (r: Option<&'a T>)
        requires
            self.wf(arena@),
        ensures
            match r {
                None => self@.len() == 0,
                Some(e) => self@.len() > 0 && *e == arena@[self@[0] as int].element,
            },
    {
        if self.head == NIL {
            None
        } else {
            proof {
                assert(self.elems@[0] < arena@.len());
            }
            Some(&arena[self.head].element)
        }
    }

    /// The element of the tail member, if any.
    pub fn back<'a, T>(&self, arena: &'a Vec<Node<T>>) -> (r: Option<&'a T>)
        requires
            self.wf(arena@),
        ensures
            match r {
                None => self@.len() == 0,
                Some(e) => self@.len() > 0 && *e == arena@[self@.last() as int].element,
            },
    {
        if self.tail == NIL {
            None
        } else {
            proof {
                assert(self.elems@[self.elems@.len() - 1] < arena@.len());
            }
            Some(&arena[self.tail].element)
        }
    }
}

/// An unlinked (empty) list is well-formed for any arena that is small
/// enough that `NIL` is not a valid index.
pub proof fn lemma_unlinked_wf<T>(l: LinkedList, arena: Seq<Node<T>>)
    requires
        l.unlinked(),
        arena.len() < NIL,
    ensures
        l.wf(arena),
{
}

/// Well-formedness depends only on the link fields of the members: an
/// arena change that leaves every member's `next` and `prev` fields intact
/// (element fields and non-member slots may change freely) preserves it.
pub proof fn lemma_wf_links_unchanged<T>(l: LinkedList, a1: Seq<Node<T>>, a2: Seq<Node<T>>)
    requires
        l.wf(a1),
        a2.len() == a1.len(),
        forall|m: int|
            0 <= m < a1.len() && l@.contains(m as usize) ==> (#[trigger] a2[m]).next == a1[m].next
                && a2[m].prev == a1[m].prev,
    ensures
        l.wf(a2),
{
    let s = l.elems@;
    assert forall|k: int| 0 <= k < s.len() implies (#[trigger] a2[s[k] as int].prev) == (
        if k == 0 { NIL } else { s[k - 1] }) by {
        assert(s.contains(s[k]));
    }
    assert forall|k: int| 0 <= k < s.len() implies (#[trigger] a2[s[k] as int].next) == (
        if k == s.len() - 1 { NIL } else { s[k + 1] }) by {
        assert(s.contains(s[k]));
    }
}

/// A list over an arena can have at most one member per slot, so its
/// length is bounded by the arena's.
pub proof fn lemma_members_bounded<T>(l: LinkedList, arena: Seq<Node<T>>)
    requires
        l.wf(arena),
    ensures
        l@.len() <= arena.len(),
{
    let s = l.elems@;
    let si = s.map_values(|x: usize| x as int);
    assert(si.no_duplicates()) by {
        assert forall|i: int, j: int|
            0 <= i < si.len() && 0 <= j < si.len() && i != j implies si[i] != si[j] by {
            assert(s.no_duplicates());
        }
    }
    si.unique_seq_to_set();
    let range = vstd::set_lib::set_int_range(0, arena.len() as int);
    vstd::set_lib::lemma_int_range(0, arena.len() as int);
    assert(si.to_set().subset_of(range)) by {
        assert forall|e: int| si.to_set().contains(e) implies range.contains(e) by {
            assert(si.contains(e));
            let k = choose|k: int| 0 <= k < si.len() && si[k] == e;
            assert(s[k] < arena.len());
        }
    }
    vstd::set_lib::lemma_len_subset(si.to_set(), range);
}

} // verus!

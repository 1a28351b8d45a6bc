//! A walk over the whole tree that yields every handle kept in it once.
use vstd::prelude::*;
use std::collections::HashSet;
use crate::area::Area;
use crate::coord::Coord;
use crate::qtinner::QTInner;

verus! {

broadcast use vstd::std_specs::hash::group_hash_axioms;

/// The amount of walking left in a subtree: its nodes and the handles they keep.
pub open spec fn weight<U: Coord>(node: QTInner<U>) -> nat
    decreases node,
{
    1 + node.kept_uuids@.len() + match node.subquadrants {
        None => 0,
        Some(q) => weight(q.ne) + weight(q.nw) + weight(q.se) + weight(q.sw),
    }
}

/// The amount of walking left in the nodes of a stack.
pub open spec fn stack_weight<U: Coord>(nodes: Seq<&QTInner<U>>) -> nat
    decreases nodes.len(),
{
    if nodes.len() == 0 {
        0
    } else {
        stack_weight(nodes.drop_last()) + weight(*nodes.last())
    }
}

/// Some node of the stack keeps the handle somewhere below it.
pub open spec fn stack_has<U: Coord>(nodes: Seq<&QTInner<U>>, h: u128) -> bool {
    exists|i: int| 0 <= i < nodes.len() && #[trigger] nodes[i].has_handle(h)
}

/// Iterates over the handles kept in a tree, each once, walking the tree depth first.
pub struct UuidIter<'a, U: Coord> {
    uuid_stack: Vec<u128>,
    qt_stack: Vec<&'a QTInner<U>>,
    visited: HashSet<u128>,
    remaining: usize,
    handles: Ghost<Set<u128>>,
}

impl<'a, U: Coord> UuidIter<'a, U> {
    /// The handles kept in the tree that the walk started from.
    pub closed spec fn handles(&self) -> Set<u128> {
        self.handles@
    }

    /// The handles yielded so far.
    pub closed spec fn visited(&self) -> Set<u128> {
        self.visited@
    }

    /// The walking left to do; every yield makes it smaller.
    pub closed spec fn remaining_work(&self) -> nat {
        stack_weight(self.qt_stack@) + self.uuid_stack@.len()
    }

    /// Every handle of the tree is visited, waiting on the stack, or kept below a node that
    /// waits on the stack, and nothing else is.
    pub closed spec fn inv(&self) -> bool {
        &&& self.handles@.finite()
        &&& self.visited@.subset_of(self.handles@)
        &&& self.remaining == self.handles@.len() - self.visited@.len()
        &&& forall|i: int| 0 <= i < self.qt_stack@.len() ==> (#[trigger] self.qt_stack@[i]).wf()
        &&& forall|h: u128| #[trigger]
            self.handles@.contains(h) <==> (self.visited@.contains(h)
                || self.uuid_stack@.contains(h) || stack_has(self.qt_stack@, h))
    }

    /// A walk over the whole tree below `qt`.
    pub fn new(qt: &'a QTInner<U>) -> (r: Self)
        requires
            qt.wf(),
        ensures
            r.inv(),
            r.visited() == Set::<u128>::empty(),
            forall|h: u128| #[trigger] r.handles().contains(h) <==> qt.has_handle(h),
            r.handles().finite(),
    {
        let mut seen: HashSet<u128> = HashSet::new();
        let mut all: Vec<u128> = Vec::new();
        qt.collect_handles(qt.region, &mut seen, &mut all);
        let ghost handles = Set::new(|h: u128| qt.has_handle(h));
        proof {
            Area::lemma_contains_reflexive(qt.region);
            assert forall|h: u128| #[trigger] all@.contains(h) <==> handles.contains(h) by {
                qt.lemma_keeps_meeting_all(h, qt.region);
            }
            assert(all@.to_set() =~= handles);
            all@.unique_seq_to_set();
            vstd::seq_lib::seq_to_set_is_finite(all@);
        }
        let mut qt_stack: Vec<&'a QTInner<U>> = Vec::new();
        qt_stack.push(qt);
        let r = UuidIter {
            uuid_stack: Vec::new(),
            qt_stack,
            visited: HashSet::new(),
            remaining: all.len(),
            handles: Ghost(handles),
        };
        proof {
            assert forall|h: u128| #[trigger] r.handles@.contains(h) <==> (r.visited@.contains(h)
                || r.uuid_stack@.contains(h) || stack_has(r.qt_stack@, h)) by {
                if qt.has_handle(h) {
                    assert(r.qt_stack@[0].has_handle(h));
                }
            }
        }
        r
    }

    /// Yields the next handle not yet yielded, if any is left.
    pub fn next(&mut self) -> (r: Option<u128>)
        requires
            old(self).inv(),
        ensures
            final(self).inv(),
            final(self).handles() == old(self).handles(),
            match r {
                None => final(self).visited() == old(self).visited() && final(self).visited()
                    == final(self).handles() && old(self).handles().len() - old(
                    self,
                ).visited().len() == 0,
                Some(h) => old(self).handles().contains(h) && !old(self).visited().contains(h)
                    && final(self).visited() == old(self).visited().insert(h)
                    && final(self).handles().len() - final(self).visited().len() == old(
                    self,
                ).handles().len() - old(self).visited().len() - 1
                    && final(self).remaining_work() < old(self).remaining_work(),
            },
        decreases old(self).remaining_work(),
    {
        // Check the uuid_stack.
        if let Some(uuid) = self.uuid_stack.pop() {
            proof {
                let s = old(self).uuid_stack@;
                assert(s == self.uuid_stack@.push(uuid));
                assert forall|h: u128| #[trigger] s.contains(h) <==> (self.uuid_stack@.contains(h)
                    || h == uuid) by {
                    crate::qtinner::lemma_push_contains(self.uuid_stack@, uuid, h);
                }
            }
            if !self.visited.insert(uuid) {
                return self.next();
            }
            proof {
                old(self).visited@.lemma_subset_not_in_lt(self.handles@, uuid);
            }
            self.remaining = self.remaining - 1;
            return Some(uuid);
        }
        // Then check the qt_stack.
        if let Some(qt) = self.qt_stack.pop() {
            let ghost popped = self.qt_stack@;
            proof {
                assert(old(self).qt_stack@ == popped.push(qt));
                assert(old(self).qt_stack@.drop_last() == popped);
                assert(old(self).qt_stack@[popped.len() as int] == qt);
                assert(qt.wf());
                assert forall|h: u128| #[trigger] stack_has(old(self).qt_stack@, h) <==> (stack_has(
                    popped,
                    h,
                ) || qt.has_handle(h)) by {
                    if stack_has(old(self).qt_stack@, h) {
                        let i = choose|i: int|
                            0 <= i < old(self).qt_stack@.len() && #[trigger] old(
                                self,
                            ).qt_stack@[i].has_handle(h);
                        if i < popped.len() {
                            assert(popped[i].has_handle(h));
                        }
                    }
                    if stack_has(popped, h) {
                        let i = choose|i: int| 0 <= i < popped.len() && #[trigger] popped[i].has_handle(h);
                        assert(old(self).qt_stack@[i].has_handle(h));
                    }
                }
            }
            // Push my regions onto the region stack.
            let ghost base = self.uuid_stack@;
            let mut j: usize = 0;
            while j < qt.kept_uuids.len()
                invariant
                    j <= qt.kept_uuids@.len(),
                    self.uuid_stack@ == base + qt.kept_uuids@.take(j as int),
                    self.qt_stack@ == popped,
                    self.visited@ == old(self).visited@,
                    self.handles@ == old(self).handles@,
                    self.remaining == old(self).remaining,
                decreases qt.kept_uuids@.len() - j,
            {
                proof {
                    assert(qt.kept_uuids@.take(j + 1) == qt.kept_uuids@.take(j as int).push(
                        qt.kept_uuids@[j as int],
                    ));
                }
                self.uuid_stack.push(qt.kept_uuids[j]);
                j = j + 1;
            }
            proof {
                assert(qt.kept_uuids@.take(j as int) == qt.kept_uuids@);
                assert forall|h: u128| #[trigger] self.uuid_stack@.contains(h) <==> (base.contains(h)
                    || qt.kept_uuids@.contains(h)) by {
                    if self.uuid_stack@.contains(h) {
                        let i = choose|i: int| 0 <= i < self.uuid_stack@.len() && self.uuid_stack@[i] == h;
                        if i >= base.len() {
                            assert(qt.kept_uuids@[i - base.len()] == h);
                        }
                    }
                    if base.contains(h) {
                        let i = choose|i: int| 0 <= i < base.len() && base[i] == h;
                        assert(self.uuid_stack@[i] == h);
                    }
                    if qt.kept_uuids@.contains(h) {
                        let i = choose|i: int| 0 <= i < qt.kept_uuids@.len() && qt.kept_uuids@[i] == h;
                        assert(self.uuid_stack@[base.len() + i] == h);
                    }
                }
            }
            // Push my subquadrants onto the qt_stack too.
            match &qt.subquadrants {
                Some(sqs) => {
                    self.qt_stack.push(&sqs.ne);
                    self.qt_stack.push(&sqs.nw);
                    self.qt_stack.push(&sqs.se);
                    self.qt_stack.push(&sqs.sw);
                    proof {
                        let s = self.qt_stack@;
                        assert(s == popped.push(&sqs.ne).push(&sqs.nw).push(&sqs.se).push(&sqs.sw));
                        assert(s.drop_last().drop_last().drop_last().drop_last() == popped);
                        assert(s.drop_last().drop_last().drop_last() == popped.push(&sqs.ne));
                        assert(s.drop_last().drop_last() == popped.push(&sqs.ne).push(&sqs.nw));
                        assert(s.drop_last() == popped.push(&sqs.ne).push(&sqs.nw).push(&sqs.se));
                        let s1 = popped.push(&sqs.ne);
                        let s2 = s1.push(&sqs.nw);
                        let s3 = s2.push(&sqs.se);
                        assert(s == s3.push(&sqs.sw));
                        assert(stack_weight(s1) == stack_weight(popped) + weight(sqs.ne)) by {
                            assert(s1.drop_last() == popped);
                        }
                        assert(stack_weight(s2) == stack_weight(s1) + weight(sqs.nw)) by {
                            assert(s2.drop_last() == s1);
                        }
                        assert(stack_weight(s3) == stack_weight(s2) + weight(sqs.se)) by {
                            assert(s3.drop_last() == s2);
                        }
                        assert(stack_weight(s) == stack_weight(s3) + weight(sqs.sw)) by {
                            assert(s.drop_last() == s3);
                        }
                        assert(stack_weight(s) == stack_weight(popped) + weight(sqs.ne) + weight(sqs.nw)
                            + weight(sqs.se) + weight(sqs.sw));
                        assert forall|i: int| 0 <= i < s.len() implies (#[trigger] s[i]).wf() by {
                            if i < popped.len() {
                                assert(s[i] == popped[i]);
                                assert(old(self).qt_stack@[i] == popped[i]);
                            }
                        }
                        assert forall|h: u128| #[trigger] stack_has(s, h) <==> (stack_has(popped, h)
                            || sqs.ne.has_handle(h) || sqs.nw.has_handle(h) || sqs.se.has_handle(h)
                            || sqs.sw.has_handle(h)) by {
                            if stack_has(s, h) {
                                let i = choose|i: int| 0 <= i < s.len() && #[trigger] s[i].has_handle(h);
                                if i < popped.len() {
                                    assert(s[i] == popped[i]);
                                }
                            }
                            if stack_has(popped, h) {
                                let i = choose|i: int| 0 <= i < popped.len() && #[trigger] popped[i].has_handle(h);
                                assert(s[i] == popped[i]);
                                assert(s[i].has_handle(h));
                            }
                            assert(s[popped.len() as int] == &sqs.ne);
                            assert(s[popped.len() + 1int] == &sqs.nw);
                            assert(s[popped.len() + 2int] == &sqs.se);
                            assert(s[popped.len() + 3int] == &sqs.sw);
                        }
                    }
                },
                None => {
                    proof {
                        assert forall|i: int| 0 <= i < popped.len() implies (#[trigger] popped[i]).wf() by {
                            assert(old(self).qt_stack@[i] == popped[i]);
                        }
                    }
                },
            }
            return self.next();
        }
        // Else there's nothing left to search.
        proof {
            assert forall|h: u128| #[trigger] self.handles@.contains(h) <==> self.visited@.contains(h) by {
                if stack_has(self.qt_stack@, h) {
                    let i = choose|i: int| 0 <= i < self.qt_stack@.len() && #[trigger] self.qt_stack@[i].has_handle(h);
                }
            }
            assert(self.visited@ =~= self.handles@);
        }
        None
    }

    /// Yields every handle not yet yielded, each once, in the order `next` would, and leaves
    /// nothing to yield.
    pub fn drain(&mut self) -> (v: Vec<u128>)
        requires
            old(self).inv(),
        ensures
            final(self).inv(),
            final(self).handles() == old(self).handles(),
            final(self).visited() == final(self).handles(),
            v@.no_duplicates(),
            forall|h: u128| #[trigger]
                v@.contains(h) <==> (old(self).handles().contains(h) && !old(self).visited().contains(
                    h,
                )),
            v@.len() == old(self).handles().len() - old(self).visited().len(),
    {
        let mut v: Vec<u128> = Vec::new();
        loop
            invariant
                self.inv(),
                self.handles() == old(self).handles(),
                old(self).visited().subset_of(self.visited()),
                v@.no_duplicates(),
                forall|h: u128| #[trigger]
                    v@.contains(h) <==> (self.visited().contains(h) && !old(self).visited().contains(
                        h,
                    )),
                v@.len() + (self.handles().len() - self.visited().len()) == old(self).handles().len()
                    - old(self).visited().len(),
            ensures
                self.inv(),
                self.handles() == old(self).handles(),
                self.visited() == self.handles(),
                v@.no_duplicates(),
                forall|h: u128| #[trigger]
                    v@.contains(h) <==> (self.visited().contains(h) && !old(self).visited().contains(
                        h,
                    )),
                v@.len() == old(self).handles().len() - old(self).visited().len(),
            decreases self.remaining_work(),
        {
            match self.next() {
                Some(h) => {
                    proof {
                        assert forall|a: int, b: int|
                            0 <= a < b < v@.push(h).len() implies v@.push(h)[a] != v@.push(h)[b] by {
                            if b == v@.len() {
                                assert(v@.contains(v@[a]));
                            }
                        }
                        assert forall|k: u128| #[trigger] v@.push(h).contains(k) <==> (v@.contains(k)
                            || k == h) by {
                            crate::qtinner::lemma_push_contains(v@, h, k);
                        }
                    }
                    v.push(h);
                },
                None => {
                    break ;
                },
            }
        }
        v
    }

    /// The number of handles not yet yielded.
    pub fn len(&self) -> (n: usize)
        requires
            self.inv(),
        ensures
            n == self.handles().len() - self.visited().len(),
    {
        self.remaining
    }

    /// Bounds on the number of handles left to yield, which are exact: both are `len()`.
    pub fn size_hint(&self) -> (r: (usize, Option<usize>))
        requires
            self.inv(),
        ensures
            r.0 == self.handles().len() - self.visited().len(),
            r.1 == Some(r.0),
    {
        (self.remaining, Some(self.remaining))
    }
}

} // verus!

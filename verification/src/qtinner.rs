//! The nodes of the tree: each covers a square of side 2^depth and keeps the handles of the
//! regions stored at that level.
use vstd::prelude::*;
use std::collections::HashSet;
use crate::entry::Entry;
use crate::area::Area;
use crate::coord::Coord;
use crate::point::Point;
use crate::types::EntryStore;
use crate::text::{handle_text, push_handle};
use vstd::string::StringExecFns;

verus! {

/// The side of a node at the given depth: 2^depth.
pub open spec fn span(depth: nat) -> int
    decreases depth,
{
    if depth == 0 {
        1
    } else {
        2 * span((depth - 1) as nat)
    }
}

/// Every side is positive.
pub proof fn lemma_span_positive(depth: nat)
    ensures
        span(depth) >= 1,
    decreases depth,
{
    if depth > 0 {
        lemma_span_positive((depth - 1) as nat);
    }
}

/// A deeper node is larger.
pub proof fn lemma_span_monotonic(i: nat, j: nat)
    requires
        i <= j,
    ensures
        span(i) <= span(j),
    decreases j,
{
    if i < j {
        lemma_span_monotonic(i, (j - 1) as nat);
        lemma_span_positive((j - 1) as nat);
    }
}

/// A fresh random handle: the 128-bit value of `uuid::Uuid::new_v4()`.
///
/// The uuid crate draws 128 random bits from the operating system (it panics if the system
/// cannot supply them) and then sets the version nibble to 4 and the variant bits to `10`;
/// that is all this contract claims. That the value differs from earlier ones is not stated:
/// it holds only with overwhelming probability.
#[verifier::external_body]
fn new_v4_handle() -> (h: u128)
    ensures
        (h >> 76u128) & 0xfu128 == 4,
        (h >> 62u128) & 0x3u128 == 2,
{
    uuid::Uuid::new_v4().as_u128()
}

/// The handle has the version bits of a version 4 UUID (4) and its variant bits (`10`).
pub open spec fn is_v4_handle(h: u128) -> bool {
    (h >> 76u128) & 0xfu128 == 4 && (h >> 62u128) & 0x3u128 == 2
}

/// The `i`-th handle to fall back on when a random handle is already taken: version 4 and
/// variant bits set, `i` spread over the low 62 bits and bits 64 and 65.
pub open spec fn fallback_handle(i: u128) -> u128 {
    (4u128 << 76u128) | (2u128 << 62u128) | (i & 0x3fff_ffff_ffff_ffffu128) | ((i >> 62u128)
        << 64u128)
}

/// Distinct indices below 2^64 give distinct fallback handles, all of them version 4 handles.
pub proof fn lemma_fallback_handle(a: u128, b: u128)
    requires
        a < 0x1_0000_0000_0000_0000u128,
        b < 0x1_0000_0000_0000_0000u128,
    ensures
        is_v4_handle(fallback_handle(a)),
        fallback_handle(a) == fallback_handle(b) ==> a == b,
{
    assert(((((4u128 << 76u128) | (2u128 << 62u128) | (a & 0x3fff_ffff_ffff_ffffu128) | ((a
        >> 62u128) << 64u128)) >> 76u128) & 0xfu128 == 4) && (((((4u128 << 76u128) | (2u128
        << 62u128) | (a & 0x3fff_ffff_ffff_ffffu128) | ((a >> 62u128) << 64u128)) >> 62u128)
        & 0x3u128) == 2)) by (bit_vector)
        requires
            a < 0x1_0000_0000_0000_0000u128,
    ;
    assert(((4u128 << 76u128) | (2u128 << 62u128) | (a & 0x3fff_ffff_ffff_ffffu128) | ((a
        >> 62u128) << 64u128)) == ((4u128 << 76u128) | (2u128 << 62u128) | (b
        & 0x3fff_ffff_ffff_ffffu128) | ((b >> 62u128) << 64u128)) ==> a == b) by (bit_vector)
        requires
            a < 0x1_0000_0000_0000_0000u128,
            b < 0x1_0000_0000_0000_0000u128,
    ;
}

/// A version 4 handle that `store` does not hold yet: a fresh random one, or, should that one
/// be taken, the first fallback handle that is free (one of the first `len + 1` is).
fn unused_handle<U: Coord, V, M: EntryStore<U, V>>(store: &M) -> (h: u128)
    ensures
        is_v4_handle(h),
        !store.entries().contains_key(h),
{
    let drawn = new_v4_handle();
    if store.get(drawn).is_none() {
        return drawn;
    }
    let n = store.len();
    let ghost dom = store.entries().dom();
    let mut i: u128 = 0;
    let ghost mut taken: Seq<u128> = Seq::empty();
    while i <= n as u128
        invariant
            n == store.entries().len(),
            dom == store.entries().dom(),
            i <= n + 1,
            taken.len() == i,
            taken.no_duplicates(),
            forall|j: int| 0 <= j < i ==> #[trigger] taken[j] == fallback_handle(j as u128),
            forall|j: int| 0 <= j < i ==> dom.contains(#[trigger] taken[j]),
        decreases n + 1 - i,
    {
        let c = (4u128 << 76u128) | (2u128 << 62u128) | (i & 0x3fff_ffff_ffff_ffffu128) | ((i
            >> 62u128) << 64u128);
        proof {
            lemma_fallback_handle(i, i);
        }
        if store.get(c).is_none() {
            return c;
        }
        proof {
            assert forall|a: int, b: int|
                0 <= a < b < taken.push(c).len() implies taken.push(c)[a] != taken.push(c)[b] by {
                if b == taken.len() {
                    lemma_fallback_handle(a as u128, i);
                }
            }
            taken = taken.push(c);
        }
        i = i + 1;
    }
    proof {
        store.lemma_finite();
        taken.unique_seq_to_set();
        assert forall|x: u128| #[trigger] taken.to_set().contains(x) implies dom.contains(x) by {
            let j = choose|j: int| 0 <= j < taken.len() && taken[j] == x;
        }
        vstd::set_lib::lemma_len_subset(taken.to_set(), dom);
        assert(false);
    }
    drawn
}

/// What a sequence holds after a push.
pub proof fn lemma_push_contains(s: Seq<u128>, x: u128, h: u128)
    ensures
        s.push(x).contains(h) <==> (s.contains(h) || h == x),
{
    if s.contains(h) {
        let i = choose|i: int| 0 <= i < s.len() && s[i] == h;
        assert(s.push(x)[i] == h);
    }
    if h == x {
        assert(s.push(x)[s.len() as int] == h);
    }
    if s.push(x).contains(h) {
        let i = choose|i: int| 0 <= i < s.push(x).len() && s.push(x)[i] == h;
        if i < s.len() {
            assert(s[i] == h);
        }
    }
}

/// A sequence holds what its prefix holds.
pub proof fn lemma_take_contains(s: Seq<u128>, t: Seq<u128>, x: u128)
    requires
        t.len() <= s.len(),
        s.take(t.len() as int) == t,
        t.contains(x),
    ensures
        s.contains(x),
{
    let j = choose|j: int| 0 <= j < t.len() && t[j] == x;
    assert(s.take(t.len() as int)[j] == x);
}

/// Handles in the usual form of UUIDs, joined by `, `.
pub open spec fn joined_handles(hs: Seq<u128>) -> Seq<char>
    decreases hs.len(),
{
    if hs.len() == 0 {
        Seq::empty()
    } else if hs.len() == 1 {
        handle_text(hs[0])
    } else {
        joined_handles(hs.drop_last()) + seq![',', ' '] + handle_text(hs.last())
    }
}

/// A list of handles as text: in brackets, joined by `, `.
pub open spec fn handles_text(hs: Seq<u128>) -> Seq<char> {
    seq!['['] + joined_handles(hs) + seq![']']
}

/// Appends the text of a list of handles.
fn push_handles(s: &mut String, hs: &Vec<u128>)
    ensures
        final(s)@ == old(s)@ + handles_text(hs@),
{
    let ghost start = s@;
    proof {
        reveal_strlit("[");
        reveal_strlit(", ");
        reveal_strlit("]");
    }
    s.append("[");
    let mut i: usize = 0;
    while i < hs.len()
        invariant
            i <= hs@.len(),
            s@ == start + seq!['['] + joined_handles(hs@.take(i as int)),
        decreases hs@.len() - i,
    {
        let ghost before = s@;
        proof {
            reveal_strlit(", ");
            let t = hs@.take(i + 1);
            assert(t.drop_last() =~= hs@.take(i as int));
            assert(t.last() == hs@[i as int]);
            if i == 0 {
                assert(joined_handles(t) == handle_text(hs@[0]));
                assert(joined_handles(hs@.take(0)) =~= Seq::<char>::empty());
            } else {
                assert(joined_handles(t) == joined_handles(hs@.take(i as int)) + seq![',', ' ']
                    + handle_text(hs@[i as int]));
            }
        }
        if i > 0 {
            s.append(", ");
        }
        push_handle(s, hs[i]);
        proof {
            if i == 0 {
                assert(s@ =~= before + handle_text(hs@[0]));
            } else {
                assert(s@ =~= before + seq![',', ' '] + handle_text(hs@[i as int]));
            }
            assert(s@ =~= start + seq!['['] + joined_handles(hs@.take(i + 1)));
        }
        i = i + 1;
    }
    s.append("]");
    proof {
        assert(hs@.take(i as int) == hs@);
        assert(s@ =~= start + handles_text(hs@));
    }
}

/// A node of the tree.
pub struct QTInner<U: Coord> {
    /// The depth of the current cell in its tree. Zero means it's at the very bottom.
    pub depth: usize,
    /// The region of the current cell.
    pub region: Area<U>,
    /// The handles of the regions held at this level in the tree. (NB: That doesn't mean each
    /// region is this node's region.)
    pub kept_uuids: Vec<u128>,
    /// The subquadrants under this cell, if it has been split.
    pub subquadrants: Option<Box<Quadrants<U>>>,
}

/// The four subquadrants of a split cell.
pub struct Quadrants<U: Coord> {
    pub ne: QTInner<U>,
    pub nw: QTInner<U>,
    pub se: QTInner<U>,
    pub sw: QTInner<U>,
}

impl<U: Coord> QTInner<U> {
    /// The region of a node at `depth` anchored at (x, y).
    pub open spec fn square_at(self, x: int, y: int, depth: nat) -> bool {
        &&& self.depth == depth
        &&& self.region.left() == x
        &&& self.region.top() == y
        &&& self.region.spec_width() == span(depth)
        &&& self.region.spec_height() == span(depth)
    }

    pub open spec fn wf(self) -> bool
        decreases self,
    {
        &&& self.region.wf()
        &&& self.region.fits()
        &&& self.region.spec_width() == span(self.depth as nat)
        &&& self.region.spec_height() == span(self.depth as nat)
        &&& match self.subquadrants {
            None => true,
            Some(q) => {
                let d = (self.depth - 1) as nat;
                let (x, y) = (self.region.left(), self.region.top());
                let h = span(d);
                &&& self.depth > 0
                &&& q.ne.square_at(x + h, y, d)
                &&& q.nw.square_at(x, y, d)
                &&& q.se.square_at(x + h, y + h, d)
                &&& q.sw.square_at(x, y + h, d)
                &&& q.ne.wf()
                &&& q.nw.wf()
                &&& q.se.wf()
                &&& q.sw.wf()
            },
        }
    }

    /// The handle is kept somewhere in this subtree.
    pub open spec fn has_handle(self, h: u128) -> bool
        decreases self,
    {
        ||| self.kept_uuids@.contains(h)
        ||| match self.subquadrants {
            None => false,
            Some(q) => q.ne.has_handle(h) || q.nw.has_handle(h) || q.se.has_handle(h)
                || q.sw.has_handle(h),
        }
    }

    /// Walking down from this node towards the unit cell `p`, some node keeps the handle.
    pub open spec fn covers(self, h: u128, p: (int, int)) -> bool
        decreases self,
    {
        &&& self.region.has_point(p)
        &&& {
            ||| self.kept_uuids@.contains(h)
            ||| match self.subquadrants {
                None => false,
                Some(q) => q.ne.covers(h, p) || q.nw.covers(h, p) || q.se.covers(h, p)
                    || q.sw.covers(h, p),
            }
        }
    }

    /// A node with nothing kept and no subquadrants.
    pub open spec fn is_bare(self) -> bool {
        self.kept_uuids@.len() == 0 && self.subquadrants is None
    }

    /// A bare node of side 2^depth anchored at `anchor`.
    pub fn new(anchor: Point<U>, depth: usize) -> (r: Self)
        requires
            span(depth as nat) <= U::max_val(),
            anchor.x.val() + span(depth as nat) <= U::max_val(),
            anchor.y.val() + span(depth as nat) <= U::max_val(),
        ensures
            r.wf(),
            r.is_bare(),
            r.square_at(anchor.x.val(), anchor.y.val(), depth as nat),
            r.region.spec_anchor() == anchor,
    {
        let mut width = U::one();
        let mut i: usize = 0;
        while i < depth
            invariant
                i <= depth,
                width.val() == span(i as nat),
                span(depth as nat) <= U::max_val(),
            decreases depth - i,
        {
            proof {
                lemma_span_monotonic((i + 1) as nat, depth as nat);
                assert(span((i + 1) as nat) == 2 * span(i as nat));
                lemma_span_positive(i as nat);
                width.lemma_range();
            }
            width = width.plus(width);
            i = i + 1;
        }
        proof { lemma_span_positive(depth as nat); }
        let height = width;
        Self::new_with_area(Area::new(width, height).at(anchor), depth)
    }

    fn new_with_area(region: Area<U>, depth: usize) -> (r: Self)
        requires
            region.wf(),
            region.fits(),
            region.spec_width() == span(depth as nat),
            region.spec_height() == span(depth as nat),
        ensures
            r.wf(),
            r.is_bare(),
            r.region == region,
            r.depth == depth,
    {
        QTInner { depth, region, kept_uuids: Vec::new(), subquadrants: None }
    }

    /// The node as text, each line after the first starting with `pad`: its region, ` :: `,
    /// and the handles it keeps in brackets; a split node adds a space and, in brackets, its four
    /// subquadrants (ne, nw, se, sw), each on a line of its own, indented four spaces more,
    /// and followed by a comma, with the closing bracket on a line of its own.
    pub open spec fn text(self, pad: Seq<char>) -> Seq<char>
        decreases self, 0nat,
    {
        self.region.text() + seq![' ', ':', ':', ' '] + handles_text(self.kept_uuids@)
            + match self.subquadrants {
            None => Seq::empty(),
            Some(q) => {
                let inner = pad + seq![' ', ' ', ' ', ' '];
                seq![' ', '['] + q.ne.nested_line(inner) + q.nw.nested_line(inner)
                    + q.se.nested_line(inner) + q.sw.nested_line(inner) + seq!['\n'] + pad
                    + seq![']']
            },
        }
    }

    /// The node on a line of its own that starts with `inner`, followed by a comma.
    pub open spec fn nested_line(self, inner: Seq<char>) -> Seq<char>
        decreases self, 1nat,
    {
        seq!['\n'] + inner + self.text(inner) + seq![',']
    }

    /// Appends one subquadrant on a line of its own, and a comma.
    fn push_nested(&self, s: &mut String, inner: &String)
        requires
            self.wf(),
        ensures
            final(s)@ == old(s)@ + self.nested_line(inner@),
        decreases self.depth, 1nat,
    {
        let ghost start = s@;
        proof {
            reveal_strlit("\n");
            reveal_strlit(",");
        }
        s.append("\n");
        s.append(inner.as_str());
        self.push_text(s, inner);
        s.append(",");
        proof {
            assert(s@ =~= start + self.nested_line(inner@));
        }
    }

    /// Appends the text of the node, each line after the first starting with `pad`.
    fn push_text(&self, s: &mut String, pad: &String)
        requires
            self.wf(),
        ensures
            final(s)@ == old(s)@ + self.text(pad@),
        decreases self.depth, 0nat,
    {
        let ghost start = s@;
        proof {
            reveal_strlit(" :: ");
            reveal_strlit(" [");
            reveal_strlit("    ");
            reveal_strlit("\n");
            reveal_strlit("]");
        }
        self.region.push_text(s);
        s.append(" :: ");
        push_handles(s, &self.kept_uuids);
        let ghost head = s@;
        proof {
            assert(head =~= start + (self.region.text() + seq![' ', ':', ':', ' '] + handles_text(
                self.kept_uuids@,
            )));
        }
        match &self.subquadrants {
            None => {
                proof {
                    assert(s@ =~= start + self.text(pad@));
                }
            },
            Some(q) => {
                let mut inner = pad.clone();
                inner.append("    ");
                let ghost i = inner@;
                proof {
                    assert(i =~= pad@ + seq![' ', ' ', ' ', ' ']);
                }
                s.append(" [");
                q.ne.push_nested(s, &inner);
                q.nw.push_nested(s, &inner);
                q.se.push_nested(s, &inner);
                q.sw.push_nested(s, &inner);
                s.append("\n");
                s.append(pad.as_str());
                s.append("]");
                proof {
                    let tail = seq![' ', '['] + q.ne.nested_line(i) + q.nw.nested_line(i)
                        + q.se.nested_line(i) + q.sw.nested_line(i) + seq!['\n'] + pad@ + seq![']'];
                    assert(s@ =~= head + tail);
                    assert(self.text(pad@) == self.region.text() + seq![' ', ':', ':', ' ']
                        + handles_text(self.kept_uuids@) + tail);
                    assert(s@ =~= start + self.text(pad@));
                }
            },
        }
    }

    /// The text of the node and, below it, of its subquadrants, as in
    /// `(0x0)->2x2 :: [00000000-0000-0000-0000-000000000007]` for an unsplit node.
    pub fn to_text(&self) -> (s: String)
        requires
            self.wf(),
        ensures
            s@ == self.text(Seq::empty()),
    {
        let mut s = String::new();
        let pad = String::new();
        self.push_text(&mut s, &pad);
        proof {
            assert(s@ =~= self.text(Seq::empty()));
        }
        s
    }

    /// Forgets every handle and every subquadrant.
    pub fn reset(&mut self)
        requires
            old(self).wf(),
        ensures
            final(self).wf(),
            final(self).is_bare(),
            final(self).depth == old(self).depth,
            final(self).region == old(self).region,
    {
        self.kept_uuids.clear();
        self.subquadrants = None;
    }

    // a--+--+--+    +--+--+--+ // a <- self.region.anchor()
    // |        |    |     |  |
    // +     p  + => +--+--+--+ // p
    // |        |    |     |  |
    // +--+--+--+    +--+--+--+
    fn expand_subquadrants_by_pt(&mut self, p: Point<U>)
        requires
            old(self).wf(),
            old(self).depth > 0,
            p.x.val() == old(self).region.left() + span((old(self).depth - 1) as nat),
            p.y.val() == old(self).region.top() + span((old(self).depth - 1) as nat),
        ensures
            final(self).wf(),
            final(self).depth == old(self).depth,
            final(self).region == old(self).region,
            final(self).kept_uuids == old(self).kept_uuids,
            final(self).subquadrants matches Some(q) && q.ne.is_bare() && q.nw.is_bare()
                && q.se.is_bare() && q.sw.is_bare(),
    {
        proof {
            lemma_span_positive((self.depth - 1) as nat);
            assert(self.region.has_point(p.xy()));
        }
        let anchor_nw = self.region.anchor();
        let anchor_ne = Point { x: p.x, y: anchor_nw.y };
        let anchor_sw = Point { x: anchor_nw.x, y: p.y };
        let anchor_se = p;
        let d = self.depth - 1;
        proof {
            lemma_span_monotonic(d as nat, self.depth as nat);
            self.region.spec_dims().0.lemma_range();
        }
        let q = Quadrants {
            ne: Self::new(anchor_ne, d),
            nw: Self::new(anchor_nw, d),
            se: Self::new(anchor_se, d),
            sw: Self::new(anchor_sw, d),
        };
        self.subquadrants = Some(Box::new(q));
    }

    /// Exactly what inserting `uuid` for the region `req` makes of a node that had the given
    /// depth, kept handles and subquadrants (its region stays as it is). A node at the bottom
    /// level, or one that `req` wholly covers, appends `uuid` to its handles once and keeps its
    /// subquadrants. Any other node keeps its handles, is split if it was not, and passes the
    /// insertion on to exactly the subquadrants that meet `req`; the others stay as they were
    /// (fresh ones stay bare).
    pub open spec fn grown(
        self,
        depth: nat,
        kept: Seq<u128>,
        subq: Option<Box<Quadrants<U>>>,
        req: Area<U>,
        uuid: u128,
    ) -> bool
        decreases self,
    {
        &&& self.depth == depth
        &&& if depth == 0 || req.spec_contains(self.region) {
            &&& self.kept_uuids@ == kept.push(uuid)
            &&& self.subquadrants == subq
        } else {
            &&& self.kept_uuids@ == kept
            &&& match self.subquadrants {
                None => false,
                Some(q1) => match subq {
                    Some(q0) => {
                        &&& if q0.ne.region.spec_intersects(req) {
                            &&& q1.ne.region == q0.ne.region
                            &&& q1.ne.grown(q0.ne.depth as nat, q0.ne.kept_uuids@, q0.ne.subquadrants, req, uuid)
                        } else {
                            q1.ne == q0.ne
                        }
                        &&& if q0.nw.region.spec_intersects(req) {
                            &&& q1.nw.region == q0.nw.region
                            &&& q1.nw.grown(q0.nw.depth as nat, q0.nw.kept_uuids@, q0.nw.subquadrants, req, uuid)
                        } else {
                            q1.nw == q0.nw
                        }
                        &&& if q0.se.region.spec_intersects(req) {
                            &&& q1.se.region == q0.se.region
                            &&& q1.se.grown(q0.se.depth as nat, q0.se.kept_uuids@, q0.se.subquadrants, req, uuid)
                        } else {
                            q1.se == q0.se
                        }
                        &&& if q0.sw.region.spec_intersects(req) {
                            &&& q1.sw.region == q0.sw.region
                            &&& q1.sw.grown(q0.sw.depth as nat, q0.sw.kept_uuids@, q0.sw.subquadrants, req, uuid)
                        } else {
                            q1.sw == q0.sw
                        }
                    },
                    None => {
                        &&& if q1.ne.region.spec_intersects(req) {
                            q1.ne.grown(q1.ne.depth as nat, Seq::empty(), None, req, uuid)
                        } else {
                            q1.ne.is_bare()
                        }
                        &&& if q1.nw.region.spec_intersects(req) {
                            q1.nw.grown(q1.nw.depth as nat, Seq::empty(), None, req, uuid)
                        } else {
                            q1.nw.is_bare()
                        }
                        &&& if q1.se.region.spec_intersects(req) {
                            q1.se.grown(q1.se.depth as nat, Seq::empty(), None, req, uuid)
                        } else {
                            q1.se.is_bare()
                        }
                        &&& if q1.sw.region.spec_intersects(req) {
                            q1.sw.grown(q1.sw.depth as nat, Seq::empty(), None, req, uuid)
                        } else {
                            q1.sw.is_bare()
                        }
                    },
                },
            }
        }
    }

    /// What inserting `uuid` for the region `req` does to a node, seen from outside.
    pub open spec fn inserted(self, old_node: Self, req: Area<U>, uuid: u128) -> bool {
        &&& self.wf()
        &&& self.depth == old_node.depth
        &&& self.region == old_node.region
        &&& forall|h: u128| #[trigger]
            self.has_handle(h) <==> (old_node.has_handle(h) || (h == uuid && (old_node.depth == 0
                || req.spec_intersects(old_node.region))))
        &&& forall|p: (int, int)|
            req.has_point(p) && old_node.region.has_point(p) ==> #[trigger] self.covers(uuid, p)
        &&& forall|h: u128, p: (int, int)| #[trigger]
            old_node.covers(h, p) ==> self.covers(h, p)
        &&& forall|h: u128, p: (int, int)|
            h != uuid && #[trigger] self.covers(h, p) ==> old_node.covers(h, p)
        &&& !old_node.has_handle(uuid) && (old_node.depth > 0 || req.spec_intersects(old_node.region))
            ==> {
            &&& self.filed_minimally(uuid, req, false)
            &&& forall|p: (int, int)| #[trigger]
                self.covers(uuid, p) <==> (req.has_point(p) && self.region.has_point(p))
            &&& forall|p: (int, int)| #[trigger]
                self.keep_count(uuid, p) == (if req.has_point(p) && self.region.has_point(p) {
                    1nat
                } else {
                    0nat
                })
        }
        &&& self.grown(
            old_node.depth as nat,
            old_node.kept_uuids@,
            old_node.subquadrants,
            req,
            uuid,
        )
    }

    /// The handle `h` is filed only at the topmost nodes that `region` wholly covers: every node
    /// of this subtree that keeps `h` is wholly covered by `region`, and no node above it is
    /// (`above` says whether a node above this subtree is). So no node that keeps `h` lies
    /// below another that keeps it.
    pub open spec fn filed_minimally(self, h: u128, region: Area<U>, above: bool) -> bool
        decreases self,
    {
        &&& self.kept_uuids@.contains(h) ==> (region.spec_contains(self.region) && !above)
        &&& match self.subquadrants {
            None => true,
            Some(q) => {
                let below = above || region.spec_contains(self.region);
                &&& q.ne.filed_minimally(h, region, below)
                &&& q.nw.filed_minimally(h, region, below)
                &&& q.se.filed_minimally(h, region, below)
                &&& q.sw.filed_minimally(h, region, below)
            },
        }
    }

    /// How many nodes of this subtree keep `h` and hold the cell `p`.
    pub open spec fn keep_count(self, h: u128, p: (int, int)) -> nat
        decreases self,
    {
        (if self.region.has_point(p) && self.kept_uuids@.contains(h) {
            1nat
        } else {
            0nat
        }) + match self.subquadrants {
            None => 0nat,
            Some(q) => q.ne.keep_count(h, p) + q.nw.keep_count(h, p) + q.se.keep_count(h, p)
                + q.sw.keep_count(h, p),
        }
    }

    /// Only cells of the node's region are counted, and they are counted exactly where some node
    /// on the way down to them keeps the handle.
    pub proof fn lemma_keep_count_covers(self, h: u128, p: (int, int))
        requires
            self.wf(),
        ensures
            self.keep_count(h, p) > 0 ==> self.region.has_point(p),
            self.keep_count(h, p) > 0 <==> self.covers(h, p),
        decreases self,
    {
        if let Some(q) = self.subquadrants {
            q.ne.lemma_keep_count_covers(h, p);
            q.nw.lemma_keep_count_covers(h, p);
            q.se.lemma_keep_count_covers(h, p);
            q.sw.lemma_keep_count_covers(h, p);
            lemma_span_positive((self.depth - 1) as nat);
        }
    }

    /// Where a handle is filed only at the topmost nodes that `region` covers, each cell is
    /// counted at most once, and not at all below a node that `region` covers.
    pub proof fn lemma_filed_at_most_once(self, h: u128, region: Area<U>, above: bool, p: (int, int))
        requires
            self.wf(),
            self.filed_minimally(h, region, above),
        ensures
            self.keep_count(h, p) <= 1,
            above ==> self.keep_count(h, p) == 0,
        decreases self,
    {
        if let Some(q) = self.subquadrants {
            let below = above || region.spec_contains(self.region);
            q.ne.lemma_filed_at_most_once(h, region, below, p);
            q.nw.lemma_filed_at_most_once(h, region, below, p);
            q.se.lemma_filed_at_most_once(h, region, below, p);
            q.sw.lemma_filed_at_most_once(h, region, below, p);
            q.ne.lemma_keep_count_covers(h, p);
            q.nw.lemma_keep_count_covers(h, p);
            q.se.lemma_keep_count_covers(h, p);
            q.sw.lemma_keep_count_covers(h, p);
            lemma_span_positive((self.depth - 1) as nat);
        }
    }

    /// A handle filed only at the topmost nodes that `region` covers, covering exactly the cells
    /// of `region` inside this node, is kept exactly once on the way down to each such cell.
    pub proof fn lemma_filed_exactly_once(self, h: u128, region: Area<U>)
        requires
            self.wf(),
            self.filed_minimally(h, region, false),
            forall|p: (int, int)| #[trigger]
                self.covers(h, p) <==> (region.has_point(p) && self.region.has_point(p)),
        ensures
            forall|p: (int, int)| #[trigger]
                self.keep_count(h, p) == (if region.has_point(p) && self.region.has_point(p) {
                    1nat
                } else {
                    0nat
                }),
    {
        assert forall|p: (int, int)| #[trigger]
            self.keep_count(h, p) == (if region.has_point(p) && self.region.has_point(p) {
                1nat
            } else {
                0nat
            }) by {
            self.lemma_keep_count_covers(h, p);
            self.lemma_filed_at_most_once(h, region, false, p);
            assert(self.covers(h, p) <==> (region.has_point(p) && self.region.has_point(p)));
        }
    }

    /// A subtree that keeps no `h` files it nowhere.
    proof fn lemma_absent_is_filed_nowhere(self, h: u128, region: Area<U>, above: bool)
        requires
            !self.has_handle(h),
        ensures
            self.filed_minimally(h, region, above),
        decreases self,
    {
        if let Some(q) = self.subquadrants {
            let below = above || region.spec_contains(self.region);
            q.ne.lemma_absent_is_filed_nowhere(h, region, below);
            q.nw.lemma_absent_is_filed_nowhere(h, region, below);
            q.se.lemma_absent_is_filed_nowhere(h, region, below);
            q.sw.lemma_absent_is_filed_nowhere(h, region, below);
        }
    }

    /// A handle filed only at nodes that `region` covers covers only cells of `region`.
    pub proof fn lemma_filed_cells(self, h: u128, region: Area<U>, above: bool, p: (int, int))
        requires
            self.filed_minimally(h, region, above),
            self.covers(h, p),
        ensures
            region.has_point(p),
        decreases self,
    {
        if !self.kept_uuids@.contains(h) {
            let q = self.subquadrants->Some_0;
            let below = above || region.spec_contains(self.region);
            if q.ne.covers(h, p) {
                q.ne.lemma_filed_cells(h, region, below, p);
            } else if q.nw.covers(h, p) {
                q.nw.lemma_filed_cells(h, region, below, p);
            } else if q.se.covers(h, p) {
                q.se.lemma_filed_cells(h, region, below, p);
            } else {
                q.sw.lemma_filed_cells(h, region, below, p);
            }
        }
    }

    /// Files `uuid` at the topmost nodes of this subtree that the region `req` wholly covers,
    /// splitting the nodes on the way down to them; at the bottom depth a node keeps what
    /// reaches it. Exactly the nodes that `grown` names change.
    pub fn insert_uuid_at_region(&mut self, req: Area<U>, uuid: u128)
        requires
            old(self).wf(),
            req.fits(),
        ensures
            final(self).inserted(*old(self), req, uuid),
        decreases old(self).depth,
    {
        proof {
            use_type_invariant(&req);
        }
        // If we're at the bottom depth, it had better fit.
        if self.depth == 0 {
            self.kept_uuids.push(uuid);
            proof { self.lemma_push_kept(*old(self), req, uuid); }
            return;
        }
        if req.contains(self.region) {
            self.kept_uuids.push(uuid);
            proof {
                Area::lemma_contains_implies_intersects(req, self.region);
                self.lemma_push_kept(*old(self), req, uuid);
            }
            return;
        }
        if req == self.region {
            self.kept_uuids.push(uuid);
            proof {
                Area::lemma_contains_reflexive(req);
                Area::lemma_contains_implies_intersects(req, self.region);
                self.lemma_push_kept(*old(self), req, uuid);
            }
            return;
        }
        if self.subquadrants.is_none() {
            proof {
                lemma_span_positive((self.depth - 1) as nat);
                self.region.spec_anchor().x.lemma_range();
                self.region.spec_anchor().y.lemma_range();
            }
            let center = self.region.center_pt();
            self.expand_subquadrants_by_pt(center);
        }
        let ghost mid = *self;
        let mut q = self.subquadrants.take().unwrap();
        if q.ne.region.intersects(req) {
            q.ne.insert_uuid_at_region(req, uuid);
        }
        if q.nw.region.intersects(req) {
            q.nw.insert_uuid_at_region(req, uuid);
        }
        if q.se.region.intersects(req) {
            q.se.insert_uuid_at_region(req, uuid);
        }
        if q.sw.region.intersects(req) {
            q.sw.insert_uuid_at_region(req, uuid);
        }
        self.subquadrants = Some(q);
        proof {
            self.lemma_split_insert(mid, *old(self), req, uuid);
        }
    }

    proof fn lemma_push_kept(self, old_node: Self, req: Area<U>, uuid: u128)
        requires
            old_node.wf(),
            req.wf(),
            old_node.depth == 0 || req.spec_intersects(old_node.region),
            old_node.depth == 0 || req.spec_contains(old_node.region),
            self.depth == old_node.depth,
            self.region == old_node.region,
            self.subquadrants == old_node.subquadrants,
            self.kept_uuids@ == old_node.kept_uuids@.push(uuid),
        ensures
            self.inserted(old_node, req, uuid),
    {
        assert forall|h: u128| #[trigger]
            self.has_handle(h) <==> (old_node.has_handle(h) || (h == uuid && (old_node.depth == 0
                || req.spec_intersects(old_node.region)))) by {
            lemma_push_contains(old_node.kept_uuids@, uuid, h);
        }
        assert forall|p: (int, int)|
            req.has_point(p) && old_node.region.has_point(p) implies #[trigger] self.covers(uuid, p) by {
            assert(self.kept_uuids@[old_node.kept_uuids@.len() as int] == uuid);
        }
        assert forall|h: u128, p: (int, int)| #[trigger]
            old_node.covers(h, p) implies self.covers(h, p) by {
            if old_node.kept_uuids@.contains(h) {
                let i = choose|i: int| 0 <= i < old_node.kept_uuids@.len() && old_node.kept_uuids@[i] == h;
                assert(self.kept_uuids@[i] == h);
            }
        }
        assert forall|h: u128, p: (int, int)|
            h != uuid && #[trigger] self.covers(h, p) implies old_node.covers(h, p) by {
            lemma_push_contains(old_node.kept_uuids@, uuid, h);
        }
        if !old_node.has_handle(uuid) && (old_node.depth > 0 || req.spec_intersects(old_node.region)) {
            assert(req.spec_contains(self.region));
            if let Some(q) = old_node.subquadrants {
                q.ne.lemma_absent_is_filed_nowhere(uuid, req, true);
                q.nw.lemma_absent_is_filed_nowhere(uuid, req, true);
                q.se.lemma_absent_is_filed_nowhere(uuid, req, true);
                q.sw.lemma_absent_is_filed_nowhere(uuid, req, true);
            }
            assert(self.filed_minimally(uuid, req, false));
            assert forall|p: (int, int)| #[trigger] self.covers(uuid, p) implies req.has_point(p) by {
                self.lemma_filed_cells(uuid, req, false, p);
            }
            self.lemma_filed_exactly_once(uuid, req);
        }
    }

    /// One subquadrant after the insertion step: visited when it meets `req`, untouched otherwise.
    pub open spec fn child_step(self, before: Self, req: Area<U>, uuid: u128) -> bool {
        if before.region.spec_intersects(req) {
            self.inserted(before, req, uuid)
        } else {
            self == before
        }
    }

    proof fn lemma_child_step(self, before: Self, req: Area<U>, uuid: u128)
        requires
            before.wf(),
            self.child_step(before, req, uuid),
        ensures
            self.wf(),
            self.depth == before.depth,
            self.region == before.region,
            forall|h: u128|
                #[trigger] self.has_handle(h) <==> (before.has_handle(h) || (h == uuid
                    && before.region.spec_intersects(req))),
            forall|p: (int, int)|
                req.has_point(p) && before.region.has_point(p) ==> #[trigger] self.covers(uuid, p),
            forall|h: u128, p: (int, int)| #[trigger]
                before.covers(h, p) ==> self.covers(h, p),
            forall|h: u128, p: (int, int)|
                h != uuid && #[trigger] self.covers(h, p) ==> before.covers(h, p),
            !before.has_handle(uuid) ==> self.filed_minimally(uuid, req, false),
    {
        if !before.has_handle(uuid) && !before.region.spec_intersects(req) {
            before.lemma_absent_is_filed_nowhere(uuid, req, false);
        }
        if before.region.spec_intersects(req) {
            assert forall|h: u128|
                #[trigger] self.has_handle(h) <==> (before.has_handle(h) || (h == uuid
                    && before.region.spec_intersects(req))) by {
                assert(self.has_handle(h) <==> (before.has_handle(h) || (h == uuid && (before.depth == 0
                    || req.spec_intersects(before.region)))));
            }
        } else {
            assert forall|p: (int, int)|
                req.has_point(p) && before.region.has_point(p) implies #[trigger] self.covers(uuid, p) by {
                Area::lemma_intersects_iff_common_point(before.region, req);
            }
        }
    }

    /// A bare node keeps nothing and covers nothing.
    proof fn lemma_bare(self)
        requires
            self.is_bare(),
        ensures
            forall|h: u128| !#[trigger] self.has_handle(h),
            forall|h: u128, p: (int, int)| !#[trigger] self.covers(h, p),
    {
    }

    proof fn lemma_split_insert(self, mid: Self, old_node: Self, req: Area<U>, uuid: u128)
        requires
            old_node.wf(),
            old_node.depth > 0,
            !req.spec_contains(old_node.region),
            req.wf(),
            mid.wf(),
            mid.depth == old_node.depth,
            mid.region == old_node.region,
            mid.kept_uuids == old_node.kept_uuids,
            old_node.subquadrants is Some ==> mid == old_node,
            mid.subquadrants matches Some(q) && (old_node.subquadrants is None ==> q.ne.is_bare()
                && q.nw.is_bare() && q.se.is_bare() && q.sw.is_bare()),
            self.depth == mid.depth,
            self.region == mid.region,
            self.kept_uuids == mid.kept_uuids,
            self.subquadrants matches Some(q1) && mid.subquadrants matches Some(q0) && {
                &&& q1.ne.child_step(q0.ne, req, uuid)
                &&& q1.nw.child_step(q0.nw, req, uuid)
                &&& q1.se.child_step(q0.se, req, uuid)
                &&& q1.sw.child_step(q0.sw, req, uuid)
            },
        ensures
            self.inserted(old_node, req, uuid),
    {
        let q0 = mid.subquadrants->Some_0;
        let q1 = self.subquadrants->Some_0;
        q1.ne.lemma_child_step(q0.ne, req, uuid);
        q1.nw.lemma_child_step(q0.nw, req, uuid);
        q1.se.lemma_child_step(q0.se, req, uuid);
        q1.sw.lemma_child_step(q0.sw, req, uuid);
        if old_node.subquadrants is None {
            q0.ne.lemma_bare();
            q0.nw.lemma_bare();
            q0.se.lemma_bare();
            q0.sw.lemma_bare();
        }
        mid.lemma_quadrants_inside();
        let touched = q0.ne.region.spec_intersects(req) || q0.nw.region.spec_intersects(req)
            || q0.se.region.spec_intersects(req) || q0.sw.region.spec_intersects(req);
        Area::lemma_intersects_iff_common_point(req, old_node.region);
        Area::lemma_intersects_iff_common_point(q0.ne.region, req);
        Area::lemma_intersects_iff_common_point(q0.nw.region, req);
        Area::lemma_intersects_iff_common_point(q0.se.region, req);
        Area::lemma_intersects_iff_common_point(q0.sw.region, req);
        assert(touched <==> req.spec_intersects(old_node.region)) by {
            Area::lemma_contains_iff_all_points(old_node.region, q0.ne.region);
            Area::lemma_contains_iff_all_points(old_node.region, q0.nw.region);
            Area::lemma_contains_iff_all_points(old_node.region, q0.se.region);
            Area::lemma_contains_iff_all_points(old_node.region, q0.sw.region);
            if req.spec_intersects(old_node.region) {
                let p = choose|p: (int, int)| req.has_point(p) && old_node.region.has_point(p);
                mid.lemma_quadrants_cover(p);
            }
        }
        assert(self.wf());
        assert forall|h: u128| #[trigger]
            self.has_handle(h) <==> (old_node.has_handle(h) || (h == uuid && (old_node.depth == 0
                || req.spec_intersects(old_node.region)))) by {
            if old_node.subquadrants is None {
                assert(!q0.ne.has_handle(h) && !q0.nw.has_handle(h) && !q0.se.has_handle(h)
                    && !q0.sw.has_handle(h));
                assert(old_node.has_handle(h) <==> old_node.kept_uuids@.contains(h));
                assert(mid.has_handle(h) <==> mid.kept_uuids@.contains(h));
            }
            assert(old_node.has_handle(h) <==> mid.has_handle(h));
            assert(mid.has_handle(h) <==> (mid.kept_uuids@.contains(h) || q0.ne.has_handle(h)
                || q0.nw.has_handle(h) || q0.se.has_handle(h) || q0.sw.has_handle(h)));
            assert(self.has_handle(h) <==> (self.kept_uuids@.contains(h) || q1.ne.has_handle(h)
                || q1.nw.has_handle(h) || q1.se.has_handle(h) || q1.sw.has_handle(h)));
        }
        assert forall|p: (int, int)|
            req.has_point(p) && old_node.region.has_point(p) implies #[trigger] self.covers(uuid, p) by {
            mid.lemma_quadrants_cover(p);
            assert(q1.ne.covers(uuid, p) || q1.nw.covers(uuid, p) || q1.se.covers(uuid, p)
                || q1.sw.covers(uuid, p));
        }
        assert forall|h: u128, p: (int, int)| #[trigger]
            old_node.covers(h, p) implies self.covers(h, p) by {
            assert(mid.covers(h, p));
            if !mid.kept_uuids@.contains(h) {
                assert(q0.ne.covers(h, p) || q0.nw.covers(h, p) || q0.se.covers(h, p)
                    || q0.sw.covers(h, p));
                assert(q1.ne.covers(h, p) || q1.nw.covers(h, p) || q1.se.covers(h, p)
                    || q1.sw.covers(h, p));
            }
        }
        assert forall|h: u128, p: (int, int)|
            h != uuid && #[trigger] self.covers(h, p) implies old_node.covers(h, p) by {
            if q1.ne.covers(h, p) {
                assert(q0.ne.covers(h, p));
            }
            if q1.nw.covers(h, p) {
                assert(q0.nw.covers(h, p));
            }
            if q1.se.covers(h, p) {
                assert(q0.se.covers(h, p));
            }
            if q1.sw.covers(h, p) {
                assert(q0.sw.covers(h, p));
            }
            assert(mid.covers(h, p));
            if old_node.subquadrants is None {
                assert(!q0.ne.covers(h, p) && !q0.nw.covers(h, p) && !q0.se.covers(h, p)
                    && !q0.sw.covers(h, p));
                assert(mid.kept_uuids@.contains(h));
            }
        }
        if old_node.subquadrants is None {
            assert(q0.ne.kept_uuids@ =~= Seq::<u128>::empty());
            assert(q0.nw.kept_uuids@ =~= Seq::<u128>::empty());
            assert(q0.se.kept_uuids@ =~= Seq::<u128>::empty());
            assert(q0.sw.kept_uuids@ =~= Seq::<u128>::empty());
        }
        assert(self.grown(
            old_node.depth as nat,
            old_node.kept_uuids@,
            old_node.subquadrants,
            req,
            uuid,
        ));
        if !old_node.has_handle(uuid) {
            assert(!old_node.kept_uuids@.contains(uuid));
            if old_node.subquadrants is Some {
                assert(mid == old_node);
            }
            assert(!q0.ne.has_handle(uuid) && !q0.nw.has_handle(uuid) && !q0.se.has_handle(uuid)
                && !q0.sw.has_handle(uuid));
            assert(!self.kept_uuids@.contains(uuid));
            assert(self.filed_minimally(uuid, req, false));
            assert forall|p: (int, int)| #[trigger] self.covers(uuid, p) implies req.has_point(p) by {
                self.lemma_filed_cells(uuid, req, false, p);
            }
            self.lemma_filed_exactly_once(uuid, req);
        }
    }

    /// Stores `val` for the region `req` under a version 4 handle that `store` does not hold yet
    /// (a random one, unless that one is taken), files that handle in the tree, and returns it.
    pub fn insert_val_at_region<V, M: EntryStore<U, V>>(
        &mut self,
        req: Area<U>,
        val: V,
        store: &mut M,
    ) -> (uuid: u128)
        requires
            old(self).wf(),
            req.fits(),
        ensures
            final(self).inserted(*old(self), req, uuid),
            is_v4_handle(uuid),
            !old(store).entries().contains_key(uuid),
            final(store).entries() == old(store).entries().insert(
                uuid,
                Entry::spec_new(req, val, uuid),
            ),
    {
        let uuid = unused_handle(&*store);
        store.insert(uuid, Entry::new((req, val), uuid));
        self.insert_uuid_at_region(req, uuid);
        uuid
    }

    /// The two subtrees have the same shape: the same depth and region, and the same nodes
    /// split, all the way down.
    pub open spec fn same_shape(self, other: Self) -> bool
        decreases self,
    {
        &&& self.depth == other.depth
        &&& self.region == other.region
        &&& match self.subquadrants {
            None => other.subquadrants is None,
            Some(a) => match other.subquadrants {
                None => false,
                Some(b) => {
                    &&& a.ne.same_shape(b.ne)
                    &&& a.nw.same_shape(b.nw)
                    &&& a.se.same_shape(b.se)
                    &&& a.sw.same_shape(b.sw)
                },
            },
        }
    }

    /// What removing `uuid` does to a node, seen from outside.
    pub open spec fn removed(self, old_node: Self, uuid: u128) -> bool {
        &&& self.wf()
        &&& self.depth == old_node.depth
        &&& self.region == old_node.region
        &&& self.same_shape(old_node)
        &&& forall|h: u128| #[trigger] self.has_handle(h) <==> (old_node.has_handle(h) && h != uuid)
        &&& forall|h: u128, p: (int, int)| #[trigger]
            self.covers(h, p) <==> (old_node.covers(h, p) && h != uuid)
    }

    /// Forgets `uuid` everywhere in this subtree; the shape of the tree stays as it is.
    pub fn remove_uuid(&mut self, uuid: u128)
        requires
            old(self).wf(),
        ensures
            final(self).removed(*old(self), uuid),
        decreases old(self).depth,
    {
        let mut kept: Vec<u128> = Vec::new();
        let mut i: usize = 0;
        while i < self.kept_uuids.len()
            invariant
                i <= self.kept_uuids@.len(),
                forall|h: u128|
                    #[trigger] kept@.contains(h) <==> (self.kept_uuids@.take(i as int).contains(h)
                        && h != uuid),
            decreases self.kept_uuids@.len() - i,
        {
            let h = self.kept_uuids[i];
            proof {
                assert(self.kept_uuids@.take(i + 1) == self.kept_uuids@.take(i as int).push(h));
            }
            if h != uuid {
                proof {
                    assert forall|k: u128| #[trigger] kept@.push(h).contains(k) <==> (
                    self.kept_uuids@.take(i + 1).contains(k) && k != uuid) by {
                        lemma_push_contains(kept@, h, k);
                        lemma_push_contains(self.kept_uuids@.take(i as int), h, k);
                    }
                }
                kept.push(h);
            } else {
                proof {
                    assert forall|k: u128| #[trigger] kept@.contains(k) <==> (
                    self.kept_uuids@.take(i + 1).contains(k) && k != uuid) by {
                        lemma_push_contains(self.kept_uuids@.take(i as int), h, k);
                    }
                }
            }
            i = i + 1;
        }
        proof {
            assert(self.kept_uuids@.take(i as int) == self.kept_uuids@);
        }
        self.kept_uuids = kept;
        let ghost mid = *self;
        match self.subquadrants.take() {
            None => {},
            Some(mut q) => {
                q.ne.remove_uuid(uuid);
                q.nw.remove_uuid(uuid);
                q.se.remove_uuid(uuid);
                q.sw.remove_uuid(uuid);
                self.subquadrants = Some(q);
            },
        }
        proof {
            if old(self).subquadrants is Some {
                let q0 = old(self).subquadrants->Some_0;
                let q1 = self.subquadrants->Some_0;
                assert forall|h: u128| #[trigger]
                    self.has_handle(h) <==> (old(self).has_handle(h) && h != uuid) by {
                    assert(self.has_handle(h) <==> (self.kept_uuids@.contains(h) || q1.ne.has_handle(h)
                        || q1.nw.has_handle(h) || q1.se.has_handle(h) || q1.sw.has_handle(h)));
                }
                assert forall|h: u128, p: (int, int)| #[trigger]
                    self.covers(h, p) <==> (old(self).covers(h, p) && h != uuid) by {
                    assert(self.covers(h, p) <==> self.region.has_point(p) && (self.kept_uuids@.contains(h)
                        || q1.ne.covers(h, p) || q1.nw.covers(h, p) || q1.se.covers(h, p)
                        || q1.sw.covers(h, p)));
                }
            }
        }
    }

    /// Some node of this subtree keeps `h` and is reached by walking down from here through
    /// nodes whose regions all meet `query`.
    pub open spec fn keeps_meeting(self, h: u128, query: Area<U>) -> bool
        decreases self,
    {
        &&& self.region.spec_intersects(query)
        &&& {
            ||| self.kept_uuids@.contains(h)
            ||| match self.subquadrants {
                None => false,
                Some(q) => q.ne.keeps_meeting(h, query) || q.nw.keeps_meeting(h, query)
                    || q.se.keeps_meeting(h, query) || q.sw.keeps_meeting(h, query),
            }
        }
    }

    /// Appends to `out` the handles kept in this subtree that are not yet in `visited`, and adds
    /// them to `visited`. Exactly the nodes whose regions meet `query` (below nodes that meet it
    /// too) are searched, yet every handle that covers a cell of `query` is found.
    pub fn collect_handles(
        &self,
        query: Area<U>,
        visited: &mut HashSet<u128>,
        out: &mut Vec<u128>,
    )
        requires
            self.wf(),
            query.fits(),
            old(out)@.no_duplicates(),
            forall|x: u128| #[trigger] old(visited)@.contains(x) <==> old(out)@.contains(x),
        ensures
            final(out)@.no_duplicates(),
            forall|x: u128| #[trigger] final(visited)@.contains(x) <==> final(out)@.contains(x),
            final(out)@.take(old(out)@.len() as int) == old(out)@,
            old(out)@.len() <= final(out)@.len(),
            forall|x: u128| #[trigger]
                final(out)@.contains(x) <==> old(out)@.contains(x) || self.keeps_meeting(x, query),
            forall|x: u128| #[trigger]
                final(out)@.contains(x) ==> old(out)@.contains(x) || self.has_handle(x),
            forall|h: u128, p: (int, int)|
                #[trigger] self.covers(h, p) && query.has_point(p) ==> final(out)@.contains(h),
        decreases self,
    {
        broadcast use vstd::std_specs::hash::group_hash_axioms;

        if !self.region.intersects(query) {
            proof {
                assert(out@.take(out@.len() as int) == out@);
                assert forall|h: u128, p: (int, int)|
                    #[trigger] self.covers(h, p) && query.has_point(p) implies out@.contains(h) by {
                    assert(self.region.has_point(p));
                }
            }
            return;
        }
        let ghost out0 = out@;
        let mut i: usize = 0;
        while i < self.kept_uuids.len()
            invariant
                self.wf(),
                i <= self.kept_uuids@.len(),
                out@.no_duplicates(),
                forall|x: u128| #[trigger] visited@.contains(x) <==> out@.contains(x),
                out@.take(out0.len() as int) == out0,
                out0.len() <= out@.len(),
                forall|x: u128| #[trigger]
                    out@.contains(x) ==> out0.contains(x) || self.kept_uuids@.contains(x),
                forall|j: int| 0 <= j < i ==> out@.contains(#[trigger] self.kept_uuids@[j]),
            decreases self.kept_uuids@.len() - i,
        {
            let h = self.kept_uuids[i];
            if visited.insert(h) {
                proof {
                    assert forall|x: u128| #[trigger] out@.push(h).contains(x) <==> (out@.contains(x)
                        || x == h) by {
                        lemma_push_contains(out@, h, x);
                    }
                    assert(out@.push(h).take(out0.len() as int) == out@.take(out0.len() as int));
                }
                out.push(h);
            }
            i = i + 1;
        }
        let ghost out1 = out@;
        match &self.subquadrants {
            None => {},
            Some(q) => {
                q.ne.collect_handles(query, visited, out);
                let ghost o_ne = out@;
                q.nw.collect_handles(query, visited, out);
                let ghost o_nw = out@;
                q.se.collect_handles(query, visited, out);
                let ghost o_se = out@;
                q.sw.collect_handles(query, visited, out);
                proof {
                    assert forall|x: u128| #[trigger] o_ne.contains(x) implies out@.contains(x) by {
                        lemma_take_contains(o_nw, o_ne, x);
                        lemma_take_contains(o_se, o_nw, x);
                        lemma_take_contains(out@, o_se, x);
                    }
                    assert forall|x: u128| #[trigger] o_nw.contains(x) implies out@.contains(x) by {
                        lemma_take_contains(o_se, o_nw, x);
                        lemma_take_contains(out@, o_se, x);
                    }
                    assert forall|x: u128| #[trigger] o_se.contains(x) implies out@.contains(x) by {
                        lemma_take_contains(out@, o_se, x);
                    }
                    assert forall|x: u128| #[trigger] out1.contains(x) implies out@.contains(x) by {
                        lemma_take_contains(o_ne, out1, x);
                    }
                    assert forall|h: u128, p: (int, int)|
                        (q.ne.covers(h, p) || q.nw.covers(h, p) || q.se.covers(h, p)
                            || q.sw.covers(h, p)) && #[trigger] query.has_point(p) implies #[trigger] out@.contains(h) by {
                        if q.ne.covers(h, p) {
                            assert(o_ne.contains(h));
                        }
                        if q.nw.covers(h, p) {
                            assert(o_nw.contains(h));
                        }
                        if q.se.covers(h, p) {
                            assert(o_se.contains(h));
                        }
                    }
                }
            },
        }
        proof {
            if self.subquadrants is None {
                assert(out@ == out1);
            }
            assert forall|x: u128| #[trigger] out1.contains(x) <==> (out0.contains(x)
                || self.kept_uuids@.contains(x)) by {
                if self.kept_uuids@.contains(x) {
                    let j = choose|j: int| 0 <= j < self.kept_uuids@.len() && self.kept_uuids@[j] == x;
                    assert(out1.contains(self.kept_uuids@[j]));
                }
                if out0.contains(x) {
                    lemma_take_contains(out1, out0, x);
                }
            }
            assert(forall|x: u128| #[trigger] out1.contains(x) ==> out@.contains(x));
            assert forall|h: u128, p: (int, int)|
                #[trigger] self.covers(h, p) && query.has_point(p) implies out@.contains(h) by {
                if let Some(q) = self.subquadrants {
                    if q.ne.covers(h, p) || q.nw.covers(h, p) || q.se.covers(h, p)
                        || q.sw.covers(h, p) {
                        assert(out@.contains(h));
                    }
                }
                if self.kept_uuids@.contains(h) {
                    let j = choose|j: int| 0 <= j < self.kept_uuids@.len() && self.kept_uuids@[j] == h;
                    assert(out1.contains(self.kept_uuids@[j]));
                }
            }
        }
    }

    /// Searched with a region that holds this whole subtree, every node meets it: the search
    /// finds exactly the handles kept in the subtree.
    pub proof fn lemma_keeps_meeting_all(self, h: u128, query: Area<U>)
        requires
            self.wf(),
            query.spec_contains(self.region),
        ensures
            self.keeps_meeting(h, query) <==> self.has_handle(h),
        decreases self,
    {
        Area::lemma_contains_implies_intersects(query, self.region);
        if let Some(q) = self.subquadrants {
            self.lemma_quadrants_inside();
            Area::lemma_contains_transitive(query, self.region, q.ne.region);
            Area::lemma_contains_transitive(query, self.region, q.nw.region);
            Area::lemma_contains_transitive(query, self.region, q.se.region);
            Area::lemma_contains_transitive(query, self.region, q.sw.region);
            q.ne.lemma_keeps_meeting_all(h, query);
            q.nw.lemma_keeps_meeting_all(h, query);
            q.se.lemma_keeps_meeting_all(h, query);
            q.sw.lemma_keeps_meeting_all(h, query);
        }
    }

    /// The four subquadrants of a split node together cover its region.
    pub proof fn lemma_quadrants_cover(self, p: (int, int))
        requires
            self.wf(),
            self.subquadrants is Some,
            self.region.has_point(p),
        ensures
            ({
                let q = self.subquadrants->Some_0;
                q.ne.region.has_point(p) || q.nw.region.has_point(p) || q.se.region.has_point(p)
                    || q.sw.region.has_point(p)
            }),
    {
    }

    /// Every subquadrant lies inside its parent.
    pub proof fn lemma_quadrants_inside(self)
        requires
            self.wf(),
            self.subquadrants is Some,
        ensures
            ({
                let q = self.subquadrants->Some_0;
                &&& self.region.spec_contains(q.ne.region)
                &&& self.region.spec_contains(q.nw.region)
                &&& self.region.spec_contains(q.se.region)
                &&& self.region.spec_contains(q.sw.region)
            }),
    {
        lemma_span_positive((self.depth - 1) as nat);
    }
}

} // verus!

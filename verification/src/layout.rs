//! The layout tree's node handles and box kinds, and what layout asks of
//! the document before it measures anything.

use vstd::prelude::*;

use crate::html::dom::{Dom, NodeData, NodeId};
use crate::html::elements::chars_are;
use crate::html::{children_match, lemma_in_parent_list};
use crate::style::{Display, Position};
use crate::text::chars_of;

verus! {

/// A box of a layout tree, by its position in the tree's arena.
#[derive(Debug, Clone, Copy, PartialEq, Eq, Hash, Structural)]
pub struct LayoutNodeId(pub u32);

/// What a layout box draws.
#[derive(Debug, Clone)]
pub enum BoxKind {
    Block,
    Text { content: String },
    InlineBackground,
}

/// Node `i` of `dom` is an `html` or a `body` element.
pub open spec fn is_html_or_body(dom: &Dom, i: int) -> bool {
    dom.spec_data(i) matches NodeData::Element { tag, .. } && (tag@ == "html"@ || tag@ == "body"@)
}

/// Whether the document spells out its own `html` or `body` element among
/// the children of `document`; when it does not, layout gives the page the
/// user agent's body margin itself.
pub fn has_explicit_html_or_body(dom: &Dom, document: NodeId) -> (r: bool)
    requires
        dom.wf(),
        0 <= document.spec_index() < dom.spec_len(),
    ensures
        r == exists|k: int|
            0 <= k < dom.spec_children(document.spec_index()).len() && is_html_or_body(
                dom,
                (#[trigger] dom.spec_children(document.spec_index())[k]).spec_index(),
            ),
{
    let ghost kids = dom.spec_children(document.spec_index());
    proof {
        dom.lemma_children_after(document.spec_index());
    }
    let mut children = dom.children(document);
    let ghost mut seen: int = 0;
    loop
        invariant
            children.wf(),
            dom.wf(),
            0 <= seen <= kids.len(),
            kids == dom.spec_children(document.spec_index()),
            children.remaining() == kids.skip(seen),
            forall|j: int| 0 <= j < kids.len() ==> 0 <= (#[trigger] kids[j]).spec_index() < dom.spec_len(),
            forall|j: int| 0 <= j < seen ==> !is_html_or_body(dom, (#[trigger] kids[j]).spec_index()),
        decreases kids.len() - seen,
    {
        let ghost before = children.remaining();
        match children.next() {
            Some(child) => {
                proof {
                    assert(kids.skip(seen)[0] == kids[seen]);
                    assert(kids.skip(seen).drop_first() =~= kids.skip(seen + 1));
                }
                let hit = match dom.tag(child) {
                    Some(tag) => {
                        let t = chars_of(tag);
                        chars_are(&t, "html") || chars_are(&t, "body")
                    },
                    None => false,
                };
                if hit {
                    return true;
                }
                proof {
                    seen = seen + 1;
                }
            },
            None => {
                assert(seen == kids.len());
                return false;
            },
        }
    }
}

/// What placing a box needs of an element's computed style: its display,
/// its positioning scheme and its stacking order (`z-index`, 0 where none
/// is given).
#[derive(Debug, Clone, Copy, PartialEq, Eq)]
pub struct Placement {
    pub display: Display,
    pub position: Position,
    pub z_index: i32,
}

/// The absolutely positioned elements whose containing block is node `n`:
/// below `n`, in document order, not looking inside an element that is
/// positioned itself or not displayed, nor inside a non-element.
pub open spec fn absolute_below(dom: &Dom, ps: Seq<Placement>, n: int) -> Seq<NodeId>
    decreases dom.spec_len() - n + 1, 0int,
{
    if 0 <= n < dom.spec_len() {
        absolute_among(dom, ps, n, dom.spec_children(n))
    } else {
        Seq::empty()
    }
}

/// `absolute_below` over the children `kids` of node `p`.
pub open spec fn absolute_among(dom: &Dom, ps: Seq<Placement>, p: int, kids: Seq<NodeId>) -> Seq<
    NodeId,
>
    decreases dom.spec_len() - p, kids.len(),
{
    if kids.len() == 0 {
        Seq::empty()
    } else {
        let c = kids[0];
        let ci = c.spec_index();
        let rest = absolute_among(dom, ps, p, kids.drop_first());
        if !(p < ci < dom.spec_len()) {
            rest
        } else if !(dom.spec_data(ci) is Element) || ps[ci].display == Display::NoBox {
            rest
        } else if ps[ci].position == Position::Absolute {
            seq![c] + rest
        } else if ps[ci].position != Position::Static {
            rest
        } else {
            absolute_below(dom, ps, ci) + rest
        }
    }
}

/// The fixed-position elements below node `n`, in document order, not
/// looking inside an element that is not displayed, nor a non-element.
pub open spec fn fixed_below(dom: &Dom, ps: Seq<Placement>, n: int) -> Seq<NodeId>
    decreases dom.spec_len() - n + 1, 0int,
{
    if 0 <= n < dom.spec_len() {
        fixed_among(dom, ps, n, dom.spec_children(n))
    } else {
        Seq::empty()
    }
}

/// `fixed_below` over the children `kids` of node `p`.
pub open spec fn fixed_among(dom: &Dom, ps: Seq<Placement>, p: int, kids: Seq<NodeId>) -> Seq<
    NodeId,
>
    decreases dom.spec_len() - p, kids.len(),
{
    if kids.len() == 0 {
        Seq::empty()
    } else {
        let c = kids[0];
        let ci = c.spec_index();
        let rest = fixed_among(dom, ps, p, kids.drop_first());
        if !(p < ci < dom.spec_len()) {
            rest
        } else if !(dom.spec_data(ci) is Element) || ps[ci].display == Display::NoBox {
            rest
        } else {
            let own = if ps[ci].position == Position::Fixed {
                seq![c]
            } else {
                Seq::empty()
            };
            own + fixed_below(dom, ps, ci) + rest
        }
    }
}

/// Node `a` lies in the normal flow under node `n`: it is `n` itself, or a
/// displayed element that is not positioned and whose parent lies in the
/// normal flow under `n`. An absolutely positioned element whose parent
/// lies in the normal flow under `n` has `n` as its containing block.
pub open spec fn in_flow_under(dom: &Dom, ps: Seq<Placement>, a: int, n: int) -> bool
    decreases a,
{
    if a == n {
        true
    } else if a <= n || a >= dom.spec_len() {
        false
    } else if !(dom.spec_data(a) is Element) || ps[a].display == Display::NoBox || ps[a].position
        != Position::Static {
        false
    } else {
        match dom.spec_parent(a) {
            Some(q) => if 0 <= q.spec_index() < a {
                in_flow_under(dom, ps, q.spec_index(), n)
            } else {
                false
            },
            None => false,
        }
    }
}

/// What each element laid out against `n` is: a displayed, absolutely
/// positioned element below `n` whose parent lies in the normal flow
/// under `n`.
pub open spec fn contained_by(dom: &Dom, ps: Seq<Placement>, x: int, n: int) -> bool {
    &&& n < x < dom.spec_len()
    &&& dom.spec_data(x) is Element
    &&& ps[x].display != Display::NoBox
    &&& ps[x].position == Position::Absolute
    &&& dom.spec_parent(x) matches Some(q) && in_flow_under(dom, ps, q.spec_index(), n)
}

proof fn lemma_absolute_below_contained(dom: &Dom, ps: Seq<Placement>, n: int, a: int, k: int)
    requires
        dom.wf(),
        ps.len() == dom.spec_len(),
        0 <= a < dom.spec_len(),
        in_flow_under(dom, ps, a, n),
        0 <= k < absolute_below(dom, ps, a).len(),
    ensures
        contained_by(dom, ps, absolute_below(dom, ps, a)[k].spec_index(), n),
    decreases dom.spec_len() - a + 1, 0int,
{
    dom.lemma_child_links(a);
    dom.lemma_len_bound();
    let kids = dom.spec_children(a);
    assert forall|j: int| 0 <= j < kids.len() implies (dom.spec_parent((#[trigger] kids[j]).spec_index())
        matches Some(q) && q.spec_index() == a) by {
        NodeId::lemma_index(kids[j], kids[j], a);
    }
    lemma_absolute_among_contained(dom, ps, n, a, kids, k);
}

proof fn lemma_absolute_among_contained(
    dom: &Dom,
    ps: Seq<Placement>,
    n: int,
    p: int,
    kids: Seq<NodeId>,
    k: int,
)
    requires
        dom.wf(),
        ps.len() == dom.spec_len(),
        0 <= p < dom.spec_len(),
        in_flow_under(dom, ps, p, n),
        forall|j: int|
            0 <= j < kids.len() ==> (dom.spec_parent((#[trigger] kids[j]).spec_index()) matches Some(q)
                && q.spec_index() == p),
        0 <= k < absolute_among(dom, ps, p, kids).len(),
    ensures
        contained_by(dom, ps, absolute_among(dom, ps, p, kids)[k].spec_index(), n),
    decreases dom.spec_len() - p, kids.len(),
{
    let c = kids[0];
    let ci = c.spec_index();
    let tail = kids.drop_first();
    let rest = absolute_among(dom, ps, p, tail);
    assert forall|j: int| 0 <= j < tail.len() implies (dom.spec_parent((#[trigger] tail[j]).spec_index())
        matches Some(q) && q.spec_index() == p) by {
        assert(tail[j] == kids[j + 1]);
    }
    assert(p >= n);
    assert(dom.spec_parent(kids[0].spec_index()) matches Some(q) && q.spec_index() == p);
    if !(p < ci < dom.spec_len()) {
        lemma_absolute_among_contained(dom, ps, n, p, tail, k);
    } else if !(dom.spec_data(ci) is Element) || ps[ci].display == Display::NoBox {
        lemma_absolute_among_contained(dom, ps, n, p, tail, k);
    } else if ps[ci].position == Position::Absolute {
        if k > 0 {
            assert(absolute_among(dom, ps, p, kids)[k] == rest[k - 1]);
            lemma_absolute_among_contained(dom, ps, n, p, tail, k - 1);
        }
    } else if ps[ci].position != Position::Static {
        lemma_absolute_among_contained(dom, ps, n, p, tail, k);
    } else {
        let below = absolute_below(dom, ps, ci);
        if k < below.len() {
            assert(in_flow_under(dom, ps, ci, n));
            lemma_absolute_below_contained(dom, ps, n, ci, k);
        } else {
            assert(absolute_among(dom, ps, p, kids)[k] == rest[k - below.len()]);
            lemma_absolute_among_contained(dom, ps, n, p, tail, k - below.len());
        }
    }
}

/// Every absolutely positioned element laid out against node `n` has `n`
/// as its containing block: it lies below `n` with nothing but displayed,
/// unpositioned elements between them, so none of them is found below
/// another positioned element (that one is its containing block).
pub proof fn law_absolute_containing_block(dom: &Dom, ps: Seq<Placement>, n: int, k: int)
    requires
        dom.wf(),
        ps.len() == dom.spec_len(),
        0 <= n < dom.spec_len(),
        0 <= k < absolute_below(dom, ps, n).len(),
    ensures
        contained_by(dom, ps, absolute_below(dom, ps, n)[k].spec_index(), n),
{
    lemma_absolute_below_contained(dom, ps, n, n, k);
}

proof fn lemma_among_has(dom: &Dom, ps: Seq<Placement>, p: int, kids: Seq<NodeId>, j: int)
    requires
        0 <= j < kids.len(),
        p < kids[j].spec_index() < dom.spec_len(),
        dom.spec_data(kids[j].spec_index()) is Element,
        ps[kids[j].spec_index()].display != Display::NoBox,
        ps[kids[j].spec_index()].position == Position::Absolute,
    ensures
        absolute_among(dom, ps, p, kids).contains(kids[j]),
    decreases kids.len(),
{
    let tail = kids.drop_first();
    let r = absolute_among(dom, ps, p, kids);
    let rest = absolute_among(dom, ps, p, tail);
    if j == 0 {
        assert(r[0] == kids[0]);
    } else {
        assert(tail[j - 1] == kids[j]);
        lemma_among_has(dom, ps, p, tail, j - 1);
        let k = choose|k: int| 0 <= k < rest.len() && rest[k] == kids[j];
        assert(r[r.len() - rest.len() + k] == kids[j]);
    }
}

proof fn lemma_among_takes_below(dom: &Dom, ps: Seq<Placement>, p: int, kids: Seq<NodeId>, j: int, y: NodeId)
    requires
        0 <= j < kids.len(),
        p < kids[j].spec_index() < dom.spec_len(),
        dom.spec_data(kids[j].spec_index()) is Element,
        ps[kids[j].spec_index()].display != Display::NoBox,
        ps[kids[j].spec_index()].position == Position::Static,
        absolute_below(dom, ps, kids[j].spec_index()).contains(y),
    ensures
        absolute_among(dom, ps, p, kids).contains(y),
    decreases kids.len(),
{
    let tail = kids.drop_first();
    let r = absolute_among(dom, ps, p, kids);
    let rest = absolute_among(dom, ps, p, tail);
    if j == 0 {
        let below = absolute_below(dom, ps, kids[0].spec_index());
        let k = choose|k: int| 0 <= k < below.len() && below[k] == y;
        assert(r[k] == y);
    } else {
        assert(tail[j - 1] == kids[j]);
        lemma_among_takes_below(dom, ps, p, tail, j - 1, y);
        let k = choose|k: int| 0 <= k < rest.len() && rest[k] == y;
        assert(r[r.len() - rest.len() + k] == y);
    }
}

proof fn lemma_below_reaches(dom: &Dom, ps: Seq<Placement>, n: int, q: int, y: NodeId)
    requires
        dom.wf(),
        children_match(*dom),
        ps.len() == dom.spec_len(),
        0 <= n < dom.spec_len(),
        in_flow_under(dom, ps, q, n),
        absolute_below(dom, ps, q).contains(y),
    ensures
        absolute_below(dom, ps, n).contains(y),
    decreases q,
{
    if q != n {
        let r = dom.spec_parent(q)->0.spec_index();
        let j = lemma_in_parent_list(*dom, q);
        let kids = dom.spec_children(r);
        NodeId::lemma_index(kids[j], NodeId::from_index(q), q);
        lemma_among_takes_below(dom, ps, r, kids, j, y);
        lemma_below_reaches(dom, ps, n, r, y);
    }
}

/// Every element whose containing block is node `n` is laid out against
/// `n`: a displayed, absolutely positioned element below `n` with only
/// displayed, unpositioned elements between them is found.
pub proof fn law_absolute_complete(dom: &Dom, ps: Seq<Placement>, n: int, x: NodeId)
    requires
        dom.wf(),
        children_match(*dom),
        ps.len() == dom.spec_len(),
        0 <= n < dom.spec_len(),
        contained_by(dom, ps, x.spec_index(), n),
    ensures
        absolute_below(dom, ps, n).contains(x),
{
    let xi = x.spec_index();
    let q = dom.spec_parent(xi)->0.spec_index();
    let j = lemma_in_parent_list(*dom, xi);
    let kids = dom.spec_children(q);
    dom.lemma_len_bound();
    NodeId::lemma_index(kids[j], x, 0);
    dom.lemma_child_links(q);
    lemma_among_has(dom, ps, q, kids, j);
    lemma_below_reaches(dom, ps, n, q, x);
}

/// Appends to `out` the absolutely positioned elements whose containing
/// block is `node`.
fn collect_absolute_descendants(
    dom: &Dom,
    ps: &Vec<Placement>,
    node: NodeId,
    out: &mut Vec<NodeId>,
)
    requires
        dom.wf(),
        ps@.len() == dom.spec_len(),
        0 <= node.spec_index() < dom.spec_len(),
        forall|k: int| 0 <= k < old(out)@.len() ==> (#[trigger] old(out)@[k]).spec_index() < dom.spec_len(),
    ensures
        forall|k: int| 0 <= k < final(out)@.len() ==> (#[trigger] final(out)@[k]).spec_index() < dom.spec_len(),
        final(out)@ == old(out)@ + absolute_below(dom, ps@, node.spec_index()),
        forall|k: int|
            old(out)@.len() <= k < final(out)@.len() ==> contained_by(
                dom,
                ps@,
                (#[trigger] final(out)@[k]).spec_index(),
                node.spec_index(),
            ),
    decreases dom.spec_len() - node.spec_index(),
{
    let ghost start = out@;
    let ghost n = node.spec_index();
    let ghost kids = dom.spec_children(n);
    proof {
        dom.lemma_children_after(n);
    }
    let mut children = dom.children(node);
    let ghost mut seen: int = 0;
    assert(kids.skip(0) =~= kids);
    loop
        invariant
            children.wf(),
            dom.wf(),
            ps@.len() == dom.spec_len(),
            0 <= n < dom.spec_len(),
            n == node.spec_index(),
            kids == dom.spec_children(n),
            0 <= seen <= kids.len(),
            children.remaining() == kids.skip(seen),
            forall|j: int| 0 <= j < kids.len() ==> n < (#[trigger] kids[j]).spec_index() < dom.spec_len(),
            forall|k: int| 0 <= k < out@.len() ==> (#[trigger] out@[k]).spec_index() < dom.spec_len(),
            out@ + absolute_among(dom, ps@, n, kids.skip(seen)) == start + absolute_among(
                dom,
                ps@,
                n,
                kids,
            ),
        ensures
            out@ == start + absolute_among(dom, ps@, n, kids),
            forall|k: int| 0 <= k < out@.len() ==> (#[trigger] out@[k]).spec_index() < dom.spec_len(),
        decreases kids.len() - seen,
    {
        match children.next() {
            Some(child) => {
                let ghost rest = kids.skip(seen + 1);
                proof {
                    assert(kids.skip(seen)[0] == kids[seen]);
                    assert(kids.skip(seen).drop_first() =~= rest);
                    assert(child == kids[seen]);
                }
                let ci = child.index();
                let keep_looking = if dom.tag(child).is_none() {
                    false
                } else {
                    let pl = ps[ci];
                    if pl.display == Display::NoBox {
                        false
                    } else if pl.position == Position::Absolute {
                        out.push(child);
                        proof {
                            assert(out@ + absolute_among(dom, ps@, n, rest) =~= start
                                + absolute_among(dom, ps@, n, kids));
                        }
                        false
                    } else if pl.position != Position::Static {
                        false
                    } else {
                        true
                    }
                };
                if keep_looking {
                    let ghost before = out@;
                    collect_absolute_descendants(dom, ps, child, out);
                    proof {
                        assert(out@ + absolute_among(dom, ps@, n, rest) =~= before + (absolute_below(
                            dom,
                            ps@,
                            ci as int,
                        ) + absolute_among(dom, ps@, n, rest)));
                    }
                }
                proof {
                    seen = seen + 1;
                }
            },
            None => {
                proof {
                    assert(kids.skip(seen).len() == 0);
                    assert(out@ + Seq::<NodeId>::empty() =~= out@);
                }
                break;
            },
        }
    }
    proof {
        assert(absolute_below(dom, ps@, n) == absolute_among(dom, ps@, n, kids));
        assert forall|k: int| start.len() <= k < out@.len() implies contained_by(
            dom,
            ps@,
            (#[trigger] out@[k]).spec_index(),
            n,
        ) by {
            assert(out@[k] == absolute_below(dom, ps@, n)[k - start.len()]);
            law_absolute_containing_block(dom, ps@, n, k - start.len());
        }
    }
}

/// Appends to `out` the fixed-position elements below `node`.
fn collect_fixed_descendants(dom: &Dom, ps: &Vec<Placement>, node: NodeId, out: &mut Vec<NodeId>)
    requires
        dom.wf(),
        ps@.len() == dom.spec_len(),
        0 <= node.spec_index() < dom.spec_len(),
        forall|k: int| 0 <= k < old(out)@.len() ==> (#[trigger] old(out)@[k]).spec_index() < dom.spec_len(),
    ensures
        forall|k: int| 0 <= k < final(out)@.len() ==> (#[trigger] final(out)@[k]).spec_index() < dom.spec_len(),
        final(out)@ == old(out)@ + fixed_below(dom, ps@, node.spec_index()),
    decreases dom.spec_len() - node.spec_index(),
{
    let ghost start = out@;
    let ghost n = node.spec_index();
    let ghost kids = dom.spec_children(n);
    proof {
        dom.lemma_children_after(n);
    }
    let mut children = dom.children(node);
    let ghost mut seen: int = 0;
    assert(kids.skip(0) =~= kids);
    loop
        invariant
            children.wf(),
            dom.wf(),
            ps@.len() == dom.spec_len(),
            0 <= n < dom.spec_len(),
            n == node.spec_index(),
            kids == dom.spec_children(n),
            0 <= seen <= kids.len(),
            children.remaining() == kids.skip(seen),
            forall|j: int| 0 <= j < kids.len() ==> n < (#[trigger] kids[j]).spec_index() < dom.spec_len(),
            forall|k: int| 0 <= k < out@.len() ==> (#[trigger] out@[k]).spec_index() < dom.spec_len(),
            out@ + fixed_among(dom, ps@, n, kids.skip(seen)) == start + fixed_among(
                dom,
                ps@,
                n,
                kids,
            ),
        ensures
            out@ == start + fixed_among(dom, ps@, n, kids),
            forall|k: int| 0 <= k < out@.len() ==> (#[trigger] out@[k]).spec_index() < dom.spec_len(),
        decreases kids.len() - seen,
    {
        match children.next() {
            Some(child) => {
                let ghost rest = kids.skip(seen + 1);
                proof {
                    assert(kids.skip(seen)[0] == kids[seen]);
                    assert(kids.skip(seen).drop_first() =~= rest);
                    assert(child == kids[seen]);
                }
                let ci = child.index();
                if dom.tag(child).is_some() && ps[ci].display != Display::NoBox {
                    let ghost before = out@;
                    if ps[ci].position == Position::Fixed {
                        out.push(child);
                    }
                    let ghost mid = out@;
                    collect_fixed_descendants(dom, ps, child, out);
                    proof {
                        let own = if ps@[ci as int].position == Position::Fixed {
                            seq![child]
                        } else {
                            Seq::<NodeId>::empty()
                        };
                        assert(mid =~= before + own);
                        assert(out@ + fixed_among(dom, ps@, n, rest) =~= before + (own + fixed_below(
                            dom,
                            ps@,
                            ci as int,
                        ) + fixed_among(dom, ps@, n, rest)));
                    }
                }
                proof {
                    seen = seen + 1;
                }
            },
            None => {
                proof {
                    assert(kids.skip(seen).len() == 0);
                    assert(out@ + Seq::<NodeId>::empty() =~= out@);
                }
                break;
            },
        }
    }
    proof {
        assert(fixed_below(dom, ps@, n) == fixed_among(dom, ps@, n, kids));
    }
}

/// The first place at or after `k` in `s` whose element stacks above `z`.
pub open spec fn first_above(ps: Seq<Placement>, s: Seq<NodeId>, z: i32, k: int) -> int
    decreases s.len() - k,
{
    if 0 <= k < s.len() && ps[s[k].spec_index()].z_index <= z {
        first_above(ps, s, z, k + 1)
    } else {
        k
    }
}

/// `s` ordered by stacking order, elements of equal order kept in the
/// order of `s`: each element in turn goes after every element before it
/// that stacks no higher.
pub open spec fn z_ordered(ps: Seq<Placement>, s: Seq<NodeId>) -> Seq<NodeId>
    decreases s.len(),
{
    if s.len() == 0 {
        Seq::empty()
    } else {
        let sorted = z_ordered(ps, s.drop_last());
        let k = first_above(ps, sorted, ps[s.last().spec_index()].z_index, 0);
        sorted.insert(k, s.last())
    }
}

/// `s` runs from lower to higher stacking order.
pub open spec fn z_nondecreasing(ps: Seq<Placement>, s: Seq<NodeId>) -> bool {
    forall|a: int, b: int|
        0 <= a < b < s.len() ==> ps[(#[trigger] s[a]).spec_index()].z_index <= ps[(
        #[trigger] s[b]).spec_index()].z_index
}

/// The search from `k` stops inside `s`, past elements that stack no
/// higher than `z`, at one that stacks higher or at the end.
proof fn lemma_first_above(ps: Seq<Placement>, s: Seq<NodeId>, z: i32, k: int)
    requires
        0 <= k <= s.len(),
    ensures
        k <= first_above(ps, s, z, k) <= s.len(),
        forall|j: int| k <= j < first_above(ps, s, z, k) ==> ps[(#[trigger] s[j]).spec_index()].z_index <= z,
        first_above(ps, s, z, k) < s.len() ==> ps[s[first_above(ps, s, z, k)].spec_index()].z_index > z,
    decreases s.len() - k,
{
    if k < s.len() && ps[s[k].spec_index()].z_index <= z {
        lemma_first_above(ps, s, z, k + 1);
    }
}

/// Ordering by stacking order gives the same elements, from lower to
/// higher stacking order.
proof fn lemma_z_ordered(ps: Seq<Placement>, s: Seq<NodeId>)
    ensures
        z_ordered(ps, s).len() == s.len(),
        z_nondecreasing(ps, z_ordered(ps, s)),
        z_ordered(ps, s).to_multiset() == s.to_multiset(),
    decreases s.len(),
{
    if s.len() > 0 {
        let rest = s.drop_last();
        lemma_z_ordered(ps, rest);
        let sorted = z_ordered(ps, rest);
        let x = s.last();
        let z = ps[x.spec_index()].z_index;
        let k = first_above(ps, sorted, z, 0);
        lemma_first_above(ps, sorted, z, 0);
        let r = sorted.insert(k, x);
        assert(r.len() == s.len());
        assert forall|a: int, b: int| 0 <= a < b < r.len() implies ps[(#[trigger] r[a]).spec_index()].z_index
            <= ps[(#[trigger] r[b]).spec_index()].z_index by {
            if b < k {
                assert(r[a] == sorted[a] && r[b] == sorted[b]);
            } else if b == k {
                assert(r[a] == sorted[a] && r[b] == x);
            } else if a > k {
                assert(r[a] == sorted[a - 1] && r[b] == sorted[b - 1]);
            } else if a == k {
                assert(r[a] == x && r[b] == sorted[b - 1]);
                assert(ps[sorted[k].spec_index()].z_index > z);
                if b - 1 > k {
                    assert(ps[sorted[k].spec_index()].z_index <= ps[sorted[b - 1].spec_index()].z_index);
                }
            } else {
                assert(r[a] == sorted[a] && r[b] == sorted[b - 1]);
            }
        }
        vstd::seq_lib::to_multiset_insert(sorted, k, x);
        assert(s =~= rest.push(x));
        vstd::seq_lib::to_multiset_build(rest, x);
        assert(z_ordered(ps, s) == r);
        assert(r.to_multiset() == sorted.to_multiset().insert(x));
        assert(s.to_multiset() == rest.to_multiset().insert(x));
    } else {
        assert(s =~= Seq::<NodeId>::empty());
    }
}

/// `nodes` ordered by stacking order, equals kept in order.
fn order_by_z(ps: &Vec<Placement>, nodes: &Vec<NodeId>) -> (r: Vec<NodeId>)
    requires
        forall|k: int| 0 <= k < nodes@.len() ==> (#[trigger] nodes@[k]).spec_index() < ps@.len(),
    ensures
        r@ == z_ordered(ps@, nodes@),
{
    let mut sorted: Vec<NodeId> = Vec::new();
    let mut i: usize = 0;
    while i < nodes.len()
        invariant
            i <= nodes.len(),
            forall|k: int| 0 <= k < nodes@.len() ==> (#[trigger] nodes@[k]).spec_index() < ps@.len(),
            sorted@ == z_ordered(ps@, nodes@.take(i as int)),
            forall|k: int| 0 <= k < sorted@.len() ==> (#[trigger] sorted@[k]).spec_index() < ps@.len(),
        decreases nodes.len() - i,
    {
        let x = nodes[i];
        let z = ps[x.index()].z_index;
        let mut k: usize = 0;
        while k < sorted.len() && ps[sorted[k].index()].z_index <= z
            invariant
                k <= sorted.len(),
                forall|j: int| 0 <= j < sorted@.len() ==> (#[trigger] sorted@[j]).spec_index() < ps@.len(),
                first_above(ps@, sorted@, z, k as int) == first_above(ps@, sorted@, z, 0),
            decreases sorted.len() - k,
        {
            k += 1;
        }
        proof {
            assert(nodes@.take(i + 1).drop_last() =~= nodes@.take(i as int));
            assert(nodes@.take(i + 1).last() == x);
        }
        let ghost before = sorted@;
        sorted.insert(k, x);
        proof {
            assert forall|j: int| 0 <= j < sorted@.len() implies (#[trigger] sorted@[j]).spec_index() < ps@.len() by {
                if j < k {
                    assert(sorted@[j] == before[j]);
                } else if j > k {
                    assert(sorted@[j] == before[j - 1]);
                }
            }
        }
        i += 1;
    }
    assert(nodes@.take(nodes.len() as int) =~= nodes@);
    sorted
}

/// The out-of-flow elements laid out against the box of `node`, in the
/// order they are painted: the absolutely positioned elements whose
/// containing block it is and, for the document root, every fixed one
/// too; ordered by stacking order, document order among equals.
pub fn positioned_descendants(dom: &Dom, ps: &Vec<Placement>, node: NodeId, is_root: bool) -> (r: Vec<
    NodeId,
>)
    requires
        dom.wf(),
        ps@.len() == dom.spec_len(),
        0 <= node.spec_index() < dom.spec_len(),
    ensures
        r@ == z_ordered(
            ps@,
            absolute_below(dom, ps@, node.spec_index()) + (if is_root {
                fixed_below(dom, ps@, node.spec_index())
            } else {
                Seq::empty()
            }),
        ),
        z_nondecreasing(ps@, r@),
{
    let mut positioned: Vec<NodeId> = Vec::new();
    collect_absolute_descendants(dom, ps, node, &mut positioned);
    let ghost abs = positioned@;
    if is_root {
        collect_fixed_descendants(dom, ps, node, &mut positioned);
    }
    proof {
        if !is_root {
            assert(positioned@ =~= abs + Seq::<NodeId>::empty());
        }
    }
    let r = order_by_z(ps, &positioned);
    proof {
        lemma_z_ordered(ps@, positioned@);
    }
    r
}

} // verus!

//! HTML parsing: a tokenizer, a DOM arena and the tree builder.

use vstd::prelude::*;

pub mod dom;
pub mod elements;
pub mod tokenizer;
pub mod tree;

use crate::html::dom::{Dom, NodeData, NodeId};
use crate::html::elements::{chars_eq, closes_chars, is_raw_text_chars, is_void_chars, void_tag};
use crate::html::tokenizer::{attrs_view, is_lower_name, Token, Tokenizer};
use crate::html::tree::{
    after_token, build_from, built, dom_nodes, dom_parents, indices, innermost_open, close_for,
    lemma_raw_end, law_no_block_in_paragraph, no_block_in_paragraph, node_view, raw_end,
    start_builder, tag_of, token_at, token_view, Builder,
    NodeView, TokenView,
};
use crate::text::chars_of;

verus! {

/// How deep elements may nest; deeper start tags become siblings at this
/// depth instead of growing the tree forever.
pub const MAX_NESTING_DEPTH: usize = 200;

/// Node depths only depend on the parents of earlier nodes.
proof fn lemma_depth_stable(d1: Dom, d2: Dom, i: int)
    requires
        forall|j: int| 0 <= j <= i ==> d1.spec_parent(j) == d2.spec_parent(j),
    ensures
        d1.depth(i) == d2.depth(i),
    decreases i,
{
    if i > 0 {
        match d1.spec_parent(i) {
            Some(p) => {
                if 0 <= p.spec_index() < i {
                    lemma_depth_stable(d1, d2, p.spec_index());
                }
            },
            None => {},
        }
    }
}

/// What the tree builder keeps true: the open elements form a path from
/// the document down, each at the depth of its place on the stack, and no
/// element lies deeper than the cap (text, one level more).
pub open spec fn builder_ok(dom: Dom, stack: Seq<NodeId>) -> bool {
    &&& dom.wf()
    &&& 1 <= stack.len() <= MAX_NESTING_DEPTH
    &&& stack[0].spec_index() == 0
    &&& forall|j: int|
        0 <= j < stack.len() ==> 0 <= (#[trigger] stack[j]).spec_index() < dom.spec_len() && dom.depth(
            stack[j].spec_index(),
        ) == j
    &&& depth_capped(dom)
}

/// Every element lies at most `MAX_NESTING_DEPTH` below the document, and
/// every node at most one level deeper.
pub open spec fn depth_capped(dom: Dom) -> bool {
    forall|i: int|
        0 <= i < dom.spec_len() ==> #[trigger] dom.depth(i) <= MAX_NESTING_DEPTH + 1 && (dom.spec_data(
            i,
        ) is Element ==> dom.depth(i) <= MAX_NESTING_DEPTH)
}

/// Every element's tag is a lowercased name, and no text node is empty.
pub open spec fn nodes_clean(dom: Dom) -> bool {
    forall|i: int|
        0 <= i < dom.spec_len() ==> match #[trigger] dom.spec_data(i) {
            NodeData::Element { tag, .. } => is_lower_name(tag@),
            NodeData::Text(t) => t@.len() > 0,
            NodeData::Document => true,
        }
}

/// Appending a clean node keeps the tree clean.
proof fn lemma_clean_append(d1: Dom, d2: Dom)
    requires
        nodes_clean(d1),
        d2.spec_len() == d1.spec_len() + 1,
        forall|i: int| 0 <= i < d1.spec_len() ==> #[trigger] d2.spec_data(i) == d1.spec_data(i),
        match d2.spec_data(d1.spec_len() as int) {
            NodeData::Element { tag, .. } => is_lower_name(tag@),
            NodeData::Text(t) => t@.len() > 0,
            NodeData::Document => true,
        },
    ensures
        nodes_clean(d2),
{
    assert forall|i: int| 0 <= i < d2.spec_len() implies match #[trigger] d2.spec_data(i) {
        NodeData::Element { tag, .. } => is_lower_name(tag@),
        NodeData::Text(t) => t@.len() > 0,
        NodeData::Document => true,
    } by {
        if i < d1.spec_len() {
            assert(d2.spec_data(i) == d1.spec_data(i));
        }
    }
}

/// After a node is appended below `parent`, the builder's facts carry over,
/// and the new node lies one level below its parent.
proof fn lemma_append(d1: Dom, d2: Dom, stack: Seq<NodeId>, parent: NodeId, id: NodeId)
    requires
        d1.wf(),
        d2.wf(),
        1 <= stack.len() <= MAX_NESTING_DEPTH,
        stack[0].spec_index() == 0,
        forall|j: int|
            0 <= j < stack.len() ==> 0 <= (#[trigger] stack[j]).spec_index() < d1.spec_len() && d1.depth(
                stack[j].spec_index(),
            ) == j,
        depth_capped(d1),
        0 <= parent.spec_index() < d1.spec_len(),
        id.spec_index() == d1.spec_len(),
        d2.spec_len() == d1.spec_len() + 1,
        d2.spec_parent(id.spec_index()) == Some(parent),
        forall|i: int| 0 <= i < d1.spec_len() ==> #[trigger] d2.spec_data(i) == d1.spec_data(i),
        forall|i: int| 0 <= i < d1.spec_len() ==> #[trigger] d2.spec_parent(i) == d1.spec_parent(i),
        d1.depth(parent.spec_index()) + 1 <= MAX_NESTING_DEPTH + 1,
        d2.spec_data(id.spec_index()) is Element ==> d1.depth(parent.spec_index()) + 1 <= MAX_NESTING_DEPTH,
    ensures
        builder_ok(d2, stack),
        d2.depth(id.spec_index()) == d1.depth(parent.spec_index()) + 1,
{
    assert forall|i: int| 0 <= i < d1.spec_len() implies #[trigger] d2.depth(i) == d1.depth(i) by {
        lemma_depth_stable(d1, d2, i);
    }
    lemma_depth_stable(d1, d2, parent.spec_index());
    assert(d2.depth(id.spec_index()) == d2.depth(parent.spec_index()) + 1);
    assert forall|j: int| 0 <= j < stack.len() implies 0 <= (#[trigger] stack[j]).spec_index() < d2.spec_len() && d2.depth(stack[j].spec_index()) == j by {
        assert(d2.depth(stack[j].spec_index()) == d1.depth(stack[j].spec_index()));
    }
    assert forall|i: int| 0 <= i < d2.spec_len() implies #[trigger] d2.depth(i) <= MAX_NESTING_DEPTH + 1 && (d2.spec_data(i) is Element ==> d2.depth(i) <= MAX_NESTING_DEPTH) by {
        if i < d1.spec_len() {
            assert(d2.depth(i) == d1.depth(i));
        }
    }
}

/// Whether node `id` is an element tagged `name`.
fn has_tag(dom: &Dom, id: NodeId, name: &Vec<char>) -> (r: bool)
    requires
        dom.wf(),
        0 <= id.spec_index() < dom.spec_len(),
    ensures
        r == (tag_of(node_view(dom.spec_data(id.spec_index()))) == Some(name@)),
{
    match dom.tag(id) {
        Some(t) => {
            let tc = chars_of(t);
            chars_eq(&tc, name)
        },
        None => false,
    }
}

/// The builder state that a document tree, an input position and a stack
/// of open elements stand for.
pub open spec fn builder_of(pos: int, dom: Dom, stack: Seq<NodeId>) -> Builder {
    Builder { pos, nodes: dom_nodes(dom), parents: dom_parents(dom), open: indices(stack) }
}

/// Appending a node adds its view and its parent's index.
proof fn lemma_views_append(d1: Dom, d2: Dom, parent: NodeId)
    requires
        d2.spec_len() == d1.spec_len() + 1,
        d2.spec_parent(d1.spec_len() as int) == Some(parent),
        forall|i: int| 0 <= i < d1.spec_len() ==> #[trigger] d2.spec_data(i) == d1.spec_data(i),
        forall|i: int| 0 <= i < d1.spec_len() ==> #[trigger] d2.spec_parent(i) == d1.spec_parent(i),
    ensures
        dom_nodes(d2) == dom_nodes(d1).push(node_view(d2.spec_data(d1.spec_len() as int))),
        dom_parents(d2) == dom_parents(d1).push(parent.spec_index()),
{
    assert(dom_nodes(d2) =~= dom_nodes(d1).push(node_view(d2.spec_data(d1.spec_len() as int))));
    assert(dom_parents(d2) =~= dom_parents(d1).push(parent.spec_index()));
}

/// The nodes among the first `n` whose parent is node `i`, in order.
pub open spec fn kids_upto(parents: Seq<int>, i: int, n: int) -> Seq<int>
    decreases n,
{
    if n <= 0 {
        Seq::empty()
    } else if parents[n - 1] == i {
        kids_upto(parents, i, n - 1).push(n - 1)
    } else {
        kids_upto(parents, i, n - 1)
    }
}

/// The children of every node of `dom` are the nodes whose parent it is,
/// in document order.
pub open spec fn children_match(dom: Dom) -> bool {
    forall|i: int|
        0 <= i < dom.spec_len() ==> indices(#[trigger] dom.spec_children(i)) == kids_upto(
            dom_parents(dom),
            i,
            dom.spec_len() as int,
        )
}

/// Text nodes and void elements have no children.
pub open spec fn leaves_childless(dom: Dom) -> bool {
    forall|i: int|
        0 <= i < dom.spec_len() && (dom.spec_data(i) is Text || (dom.spec_data(i) matches NodeData::Element { tag, .. } && void_tag(tag@)))
            ==> (#[trigger] dom.spec_children(i)).len() == 0
}

/// The open elements are the document or elements that are not void.
spec fn open_ok(dom: Dom, stack: Seq<NodeId>) -> bool {
    forall|j: int|
        0 <= j < stack.len() ==> (dom.spec_data((#[trigger] stack[j]).spec_index()) is Document || (dom.spec_data(stack[j].spec_index()) matches NodeData::Element { tag, .. } && !void_tag(tag@)))
}

/// Appending to the parents leaves the child lists of the earlier nodes as
/// they were.
proof fn lemma_kids_prefix(parents: Seq<int>, x: int, i: int, n: int)
    requires
        0 <= n <= parents.len(),
    ensures
        kids_upto(parents.push(x), i, n) == kids_upto(parents, i, n),
    decreases n,
{
    if n > 0 {
        lemma_kids_prefix(parents, x, i, n - 1);
    }
}

/// No node is below a node that comes after every parent.
proof fn lemma_kids_none(parents: Seq<int>, i: int, n: int)
    requires
        0 <= n <= parents.len(),
        forall|j: int| 0 <= j < n ==> parents[j] != i,
    ensures
        kids_upto(parents, i, n) == Seq::<int>::empty(),
    decreases n,
{
    if n > 0 {
        lemma_kids_none(parents, i, n - 1);
    }
}

/// After a node is appended below `parent`, the child lists still match
/// the parents and leaves stay childless.
proof fn lemma_shape_append(d1: Dom, d2: Dom, stack: Seq<NodeId>, parent: NodeId, id: NodeId)
    requires
        d1.wf(),
        d2.wf(),
        children_match(d1),
        leaves_childless(d1),
        open_ok(d1, stack),
        0 <= parent.spec_index() < d1.spec_len(),
        d1.spec_data(parent.spec_index()) is Document || (d1.spec_data(parent.spec_index()) matches NodeData::Element { tag, .. } && !void_tag(tag@)),
        id.spec_index() == d1.spec_len(),
        d2.spec_len() == d1.spec_len() + 1,
        d2.spec_parent(id.spec_index()) == Some(parent),
        d2.spec_children(parent.spec_index()) == d1.spec_children(parent.spec_index()).push(id),
        d2.spec_children(id.spec_index()) == Seq::<NodeId>::empty(),
        forall|i: int|
            0 <= i < d1.spec_len() && i != parent.spec_index() ==> #[trigger] d2.spec_children(i) == d1.spec_children(i),
        forall|i: int| 0 <= i < d1.spec_len() ==> #[trigger] d2.spec_data(i) == d1.spec_data(i),
        forall|i: int| 0 <= i < d1.spec_len() ==> #[trigger] d2.spec_parent(i) == d1.spec_parent(i),
        forall|j: int| 0 <= j < stack.len() ==> 0 <= (#[trigger] stack[j]).spec_index() < d1.spec_len(),
    ensures
        children_match(d2),
        leaves_childless(d2),
        open_ok(d2, stack),
{
    lemma_views_append(d1, d2, parent);
    let n = d1.spec_len() as int;
    let pp = dom_parents(d1);
    let p = parent.spec_index();
    assert forall|i: int| 0 <= i < d2.spec_len() implies indices(#[trigger] d2.spec_children(i)) == kids_upto(dom_parents(d2), i, d2.spec_len() as int) by {
        lemma_kids_prefix(pp, p, i, n);
        if i == n {
            assert forall|j: int| 0 <= j < n implies pp[j] != i by {
                d1.lemma_links_before(j);
            }
            lemma_kids_none(pp, i, n);
            assert(indices(d2.spec_children(i)) =~= Seq::<int>::empty());
        } else if i == p {
            assert(indices(d2.spec_children(i)) =~= indices(d1.spec_children(i)).push(n));
        } else {
            assert(d2.spec_children(i) == d1.spec_children(i));
        }
    }
    assert forall|i: int| 0 <= i < d2.spec_len() && (d2.spec_data(i) is Text || (d2.spec_data(i) matches NodeData::Element { tag, .. } && void_tag(tag@))) implies (#[trigger] d2.spec_children(i)).len() == 0 by {
        if i < n {
            assert(d2.spec_data(i) == d1.spec_data(i));
            if i != p {
                assert(d2.spec_children(i) == d1.spec_children(i));
            }
        }
    }
    assert forall|j: int| 0 <= j < stack.len() implies (d2.spec_data((#[trigger] stack[j]).spec_index()) is Document || (d2.spec_data(stack[j].spec_index()) matches NodeData::Element { tag, .. } && !void_tag(tag@))) by {
        assert(d2.spec_data(stack[j].spec_index()) == d1.spec_data(stack[j].spec_index()));
    }
}

/// A node whose parent is `i` is among `i`'s children.
proof fn lemma_kids_contains(parents: Seq<int>, i: int, n: int, j: int)
    requires
        0 <= j < n <= parents.len(),
        parents[j] == i,
    ensures
        kids_upto(parents, i, n).contains(j),
    decreases n,
{
    if j < n - 1 {
        lemma_kids_contains(parents, i, n - 1, j);
        let s = kids_upto(parents, i, n - 1);
        let w = choose|q: int| 0 <= q < s.len() && s[q] == j;
        if parents[n - 1] == i {
            assert(s.push(n - 1)[w] == j);
        }
    } else {
        assert(kids_upto(parents, i, n)[kids_upto(parents, i, n).len() - 1] == j);
    }
}

/// Every node but the document lies in its parent's child list.
pub proof fn lemma_in_parent_list(dom: Dom, a: int) -> (q: int)
    requires
        dom.wf(),
        children_match(dom),
        1 <= a < dom.spec_len(),
    ensures
        dom.spec_parent(a) matches Some(p) && 0 <= p.spec_index() < a && 0 <= q
            < dom.spec_children(p.spec_index()).len() && dom.spec_children(p.spec_index())[q].spec_index()
            == a,
{
    dom.lemma_child_links(a);
    let p = dom.spec_parent(a)->0;
    let pi = p.spec_index();
    dom.lemma_child_links(pi);
    assert(dom_parents(dom)[a] == pi);
    lemma_kids_contains(dom_parents(dom), pi, dom.spec_len() as int, a);
    let k = dom.spec_children(pi);
    assert(indices(k) == kids_upto(dom_parents(dom), pi, dom.spec_len() as int));
    let q = choose|q: int| 0 <= q < indices(k).len() && indices(k)[q] == a;
    q
}

proof fn lemma_next_gives_prev(dom: Dom, a: NodeId, b: NodeId)
    requires
        dom.wf(),
        children_match(dom),
        1 <= a.spec_index() < dom.spec_len(),
        dom.spec_next_sibling(a.spec_index()) == Some(b),
    ensures
        dom.spec_prev_sibling(b.spec_index()) == Some(a),
{
    let qa = lemma_in_parent_list(dom, a.spec_index());
    let pa = dom.spec_parent(a.spec_index())->0.spec_index();
    let ka = dom.spec_children(pa);
    dom.lemma_child_links(pa);
    NodeId::lemma_index(ka[qa], a, 0);
    if qa == ka.len() - 1 {
        assert(ka.last() == ka[qa]);
    } else {
        assert(dom.spec_next_sibling(ka[qa].spec_index()) == Some(ka[qa + 1]));
    }
}

proof fn lemma_prev_gives_next(dom: Dom, a: NodeId, b: NodeId)
    requires
        dom.wf(),
        children_match(dom),
        1 <= b.spec_index() < dom.spec_len(),
        dom.spec_prev_sibling(b.spec_index()) == Some(a),
    ensures
        dom.spec_next_sibling(a.spec_index()) == Some(b),
{
    let qb = lemma_in_parent_list(dom, b.spec_index());
    let pb = dom.spec_parent(b.spec_index())->0.spec_index();
    let kb = dom.spec_children(pb);
    dom.lemma_child_links(pb);
    NodeId::lemma_index(kb[qb], b, 0);
    if qb > 0 {
        assert(dom.spec_next_sibling(kb[qb - 1].spec_index()) == Some(kb[qb]));
    }
}

/// In a tree whose child lists match the parents, next and previous
/// sibling links mirror each other between nodes other than the document.
pub proof fn lemma_sibling_mirror(dom: Dom, a: NodeId, b: NodeId)
    requires
        dom.wf(),
        children_match(dom),
        1 <= a.spec_index() < dom.spec_len(),
        1 <= b.spec_index() < dom.spec_len(),
    ensures
        dom.spec_next_sibling(a.spec_index()) == Some(b) <==> dom.spec_prev_sibling(b.spec_index())
            == Some(a),
{
    if dom.spec_next_sibling(a.spec_index()) == Some(b) {
        lemma_next_gives_prev(dom, a, b);
    }
    if dom.spec_prev_sibling(b.spec_index()) == Some(a) {
        lemma_prev_gives_next(dom, a, b);
    }
}

/// Builds the document tree of `input`. Unclosed elements are closed at
/// the end; a `<p>` is closed by the start of a block or another `<p>`, an
/// `<li>` by the next `<li>`; void elements never take children; the
/// content of `<script>` and `<style>` is kept as raw text; an end tag
/// closes the innermost open element of its name (and is ignored when none
/// is open); and elements nest at most `MAX_NESTING_DEPTH` deep.
pub fn parse(input: &str) -> (dom: Dom)
    requires
        input@.len() + 4 < u32::MAX,
    ensures
        dom.wf(),
        dom.spec_data(0) is Document,
        depth_capped(dom),
        nodes_clean(dom),
        dom_nodes(dom) == built(input@).nodes,
        dom_parents(dom) == built(input@).parents,
        children_match(dom),
        leaves_childless(dom),
        no_block_in_paragraph(dom_nodes(dom), dom_parents(dom)),
{
    let mut dom = Dom::new();
    let root = dom.root();
    let mut stack: Vec<NodeId> = Vec::new();
    stack.push(root);
    let mut tokenizer = Tokenizer::new(input);
    let ghost n = input@.len();
    let ghost inp = input@;
    proof {
        assert(dom.depth(0) == 0);
        assert(depth_capped(dom)) by {
            assert forall|i: int| 0 <= i < dom.spec_len() implies #[trigger] dom.depth(i) <= MAX_NESTING_DEPTH + 1 && (dom.spec_data(i) is Element ==> dom.depth(i) <= MAX_NESTING_DEPTH) by {
                assert(i == 0);
            }
        }
        assert(nodes_clean(dom)) by {
            assert forall|i: int| 0 <= i < dom.spec_len() implies match #[trigger] dom.spec_data(i) {
                NodeData::Element { tag, .. } => is_lower_name(tag@),
                NodeData::Text(t) => t@.len() > 0,
                NodeData::Document => true,
            } by {
                assert(i == 0);
            }
        }
        assert(children_match(dom)) by {
            assert(dom_parents(dom) =~= seq![-1]);
            assert(kids_upto(dom_parents(dom), 0, 0) == Seq::<int>::empty());
            assert(kids_upto(dom_parents(dom), 0, 1) == Seq::<int>::empty());
            assert(indices(dom.spec_children(0)) =~= Seq::<int>::empty());
        }
        assert(builder_of(0, dom, stack@) =~= start_builder()) by {
            assert(dom_nodes(dom) =~= seq![NodeView::Document]);
            assert(dom_parents(dom) =~= seq![-1]);
            assert(indices(stack@) =~= seq![0]);
        }
    }
    loop
        invariant_except_break
            build_from(inp, builder_of(tokenizer.spec_pos() as int, dom, stack@)) == built(inp),
        invariant
            builder_ok(dom, stack@),
            children_match(dom),
            leaves_childless(dom),
            open_ok(dom, stack@),
            nodes_clean(dom),
            dom.spec_data(0) is Document,
            tokenizer.wf(),
            tokenizer.spec_input() == inp,
            inp.len() == n,
            n + 4 < u32::MAX,
            dom.spec_len() <= tokenizer.spec_pos() + 1,
        ensures
            builder_ok(dom, stack@),
            children_match(dom),
            leaves_childless(dom),
            open_ok(dom, stack@),
            nodes_clean(dom),
            dom.spec_data(0) is Document,
            dom_nodes(dom) == built(inp).nodes,
            dom_parents(dom) == built(inp).parents,
        decreases n - tokenizer.spec_pos(),
    {
        proof {
            tokenizer.lemma_pos_bound();
        }
        let ghost p0 = tokenizer.spec_pos() as int;
        let ghost b0 = builder_of(p0, dom, stack@);
        let token = tokenizer.next_token();
        proof {
            tokenizer.lemma_pos_bound();
        }
        match token {
            None => {
                assert(token_at(inp, p0) is None);
                assert(build_from(inp, b0) == b0);
                assert(dom_nodes(dom) == b0.nodes);
                break;
            },
            Some(Token::Text(text)) => {
                let ghost q = tokenizer.spec_pos() as int;
                assert(token_at(inp, p0) == Some((TokenView::Text(text@), q)));
                let ghost b1 = after_token(inp, b0, TokenView::Text(text@), q);
                if text.as_str().is_empty() {
                } else {
                    let parent = stack[stack.len() - 1];
                    let ghost d1 = dom;
                    let ghost t = text@;
                    let id = dom.append_text(parent, text);
                    proof {
                        assert(stack@[stack@.len() - 1] == parent);
                        lemma_shape_append(d1, dom, stack@, parent, id);
                        lemma_append(d1, dom, stack@, parent, id);
                        lemma_clean_append(d1, dom);
                        lemma_views_append(d1, dom, parent);
                        assert(indices(stack@).last() == parent.spec_index());
                        assert(builder_of(q, dom, stack@) == b1);
                    }
                }
                proof {
                    assert(builder_of(q, dom, stack@) == b1);
                    assert(build_from(inp, b0) == build_from(inp, b1));
                }
            },
            Some(Token::StartTag { name, attrs, self_closing }) => {
                let ghost q = tokenizer.spec_pos() as int;
                let ghost tv = TokenView::StartTag(name@, attrs_view(attrs@), self_closing);
                assert(token_at(inp, p0) == Some((tv, q)));
                let ghost open0 = indices(stack@);
                let name_chars = chars_of(name.as_str());
                while stack.len() > 1
                    invariant
                        builder_ok(dom, stack@),
                        children_match(dom),
                        leaves_childless(dom),
                        open_ok(dom, stack@),
                        nodes_clean(dom),
                        close_for(dom_nodes(dom), indices(stack@), name@) == close_for(
                            dom_nodes(dom),
                            open0,
                            name@,
                        ),
                        name_chars@ == name@,
                    ensures
                        builder_ok(dom, stack@),
                        children_match(dom),
                        leaves_childless(dom),
                        open_ok(dom, stack@),
                        nodes_clean(dom),
                        close_for(dom_nodes(dom), indices(stack@), name@) == close_for(
                            dom_nodes(dom),
                            open0,
                            name@,
                        ),
                        close_for(dom_nodes(dom), indices(stack@), name@) == indices(stack@),
                    decreases stack.len(),
                {
                    let top = stack[stack.len() - 1];
                    let closes = match dom.tag(top) {
                        Some(t) => {
                            let tc = chars_of(t);
                            closes_chars(&tc, &name_chars)
                        },
                        None => false,
                    };
                    proof {
                        assert(indices(stack@).last() == top.spec_index());
                    }
                    if closes {
                        let ghost before = stack@;
                        stack.pop();
                        proof {
                            assert(indices(stack@) =~= indices(before).drop_last());
                        }
                    } else {
                        break;
                    }
                }
                proof {
                    assert(close_for(dom_nodes(dom), indices(stack@), name@) == indices(stack@));
                }
                let parent = stack[stack.len() - 1];
                let void = is_void_chars(&name_chars);
                let raw = is_raw_text_chars(&name_chars);
                let ghost d1 = dom;
                let raw_name = name.clone();
                let node = dom.append_element(parent, name, attrs);
                proof {
                    assert(stack@[stack@.len() - 1] == parent);
                    lemma_shape_append(d1, dom, stack@, parent, node);
                    lemma_append(d1, dom, stack@, parent, node);
                    lemma_clean_append(d1, dom);
                    lemma_views_append(d1, dom, parent);
                    assert(indices(stack@).last() == parent.spec_index());
                }
                let ghost nodes1 = dom_nodes(dom);
                let ghost parents1 = dom_parents(dom);
                let self_closing = self_closing || void;
                if raw && !self_closing {
                    let ghost p_before = tokenizer.spec_pos();
                    let text = tokenizer.read_raw_text_until(raw_name.as_str());
                    proof {
                        tokenizer.lemma_pos_bound();
                        lemma_raw_end(inp, q, tokenizer.spec_pos() as int, raw_name@);
                    }
                    let ghost e = tokenizer.spec_pos() as int;
                    if !text.as_str().is_empty() {
                        let ghost d2 = dom;
                        let ghost st = stack@;
                        let tid = dom.append_text(node, text);
                        proof {
                            lemma_shape_append(d2, dom, st, node, tid);
                            lemma_append(d2, dom, st, node, tid);
                            lemma_clean_append(d2, dom);
                            lemma_views_append(d2, dom, node);
                        }
                    }
                    let ghost mid = dom;
                    let after = tokenizer.next_token();
                    proof {
                        tokenizer.lemma_pos_bound();
                        match after {
                            Some(tok) => {
                                assert(token_at(inp, e) == Some((token_view(tok), tokenizer.spec_pos() as int)));
                            },
                            None => {
                                assert(token_at(inp, e) is None);
                            },
                        }
                        assert(builder_of(tokenizer.spec_pos() as int, dom, stack@) == after_token(inp, b0, tv, q));
                    }
                } else if !self_closing && stack.len() < MAX_NESTING_DEPTH {
                    let ghost before = stack@;
                    stack.push(node);
                    proof {
                        assert(indices(stack@) =~= indices(before).push(node.spec_index()));
                        assert(builder_of(q, dom, stack@) == after_token(inp, b0, tv, q));
                    }
                } else {
                    proof {
                        assert(builder_of(q, dom, stack@) == after_token(inp, b0, tv, q));
                    }
                }
                proof {
                    assert(builder_of(tokenizer.spec_pos() as int, dom, stack@) == after_token(inp, b0, tv, q));
                    assert(build_from(inp, b0) == build_from(inp, after_token(inp, b0, tv, q)));
                }
            },
            Some(Token::EndTag { name }) => {
                let ghost q = tokenizer.spec_pos() as int;
                assert(token_at(inp, p0) == Some((TokenView::EndTag(name@), q)));
                let name_chars = chars_of(name.as_str());
                let mut pos = stack.len();
                while pos > 0
                    invariant
                        pos <= stack.len(),
                        builder_ok(dom, stack@),
                        children_match(dom),
                        leaves_childless(dom),
                        open_ok(dom, stack@),
                        name_chars@ == name@,
                        innermost_open(dom_nodes(dom), indices(stack@), name@, stack.len() as int)
                            == innermost_open(dom_nodes(dom), indices(stack@), name@, pos as int),
                    ensures
                        pos <= stack.len(),
                        builder_ok(dom, stack@),
                        children_match(dom),
                        leaves_childless(dom),
                        open_ok(dom, stack@),
                        innermost_open(dom_nodes(dom), indices(stack@), name@, stack.len() as int)
                            == pos,
                    decreases pos,
                {
                    proof {
                        assert(indices(stack@)[pos - 1] == stack@[pos - 1].spec_index());
                    }
                    if has_tag(&dom, stack[pos - 1], &name_chars) {
                        break;
                    }
                    pos -= 1;
                }
                let ghost k = innermost_open(dom_nodes(dom), indices(stack@), name@, stack.len() as int);
                proof {
                    if pos > 0 {
                        assert(indices(stack@)[pos - 1] == stack@[pos - 1].spec_index());
                    }
                    assert(k == pos);
                }
                if pos > 1 {
                    let ghost before = stack@;
                    stack.truncate(pos - 1);
                    proof {
                        assert(indices(stack@) =~= indices(before).take(pos - 1));
                    }
                }
                proof {
                    assert(builder_of(q, dom, stack@) == after_token(inp, b0, TokenView::EndTag(name@), q));
                    assert(build_from(inp, b0) == build_from(inp, after_token(inp, b0, TokenView::EndTag(name@), q)));
                }
            },
        }
    }
    proof {
        law_no_block_in_paragraph(input@);
    }
    dom
}

} // verus!

//! The tree builder as a state machine over the input: which token comes
//! next, and what each token does to the nodes built so far and to the
//! stack of open elements.

use vstd::prelude::*;

use crate::chars::{ascii_lowered, is_ascii_alpha};
use crate::html::dom::{Dom, NodeData, NodeId};
use crate::html::elements::{closes, raw_text_tag, void_tag};
use crate::html::tokenizer::{
    attrs_view, closes_raw_at, name_end, past_gt, start_tag_at, starts_with, text_run, token_start,
    Token,
};
use crate::html::MAX_NESTING_DEPTH;

verus! {

/// A node of a document tree, by value.
pub enum NodeView {
    Document,
    /// A tag name and the attribute pairs.
    Element(Seq<char>, Seq<(Seq<char>, Seq<char>)>),
    Text(Seq<char>),
}

/// A token, by value.
pub enum TokenView {
    Text(Seq<char>),
    /// A tag name, the attribute pairs, and whether the tag ends with `/>`.
    StartTag(Seq<char>, Seq<(Seq<char>, Seq<char>)>, bool),
    EndTag(Seq<char>),
}

pub open spec fn node_view(d: NodeData) -> NodeView {
    match d {
        NodeData::Document => NodeView::Document,
        NodeData::Element { tag, attrs } => NodeView::Element(tag@, attrs_view(attrs@)),
        NodeData::Text(t) => NodeView::Text(t@),
    }
}

pub open spec fn token_view(t: Token) -> TokenView {
    match t {
        Token::Text(s) => TokenView::Text(s@),
        Token::StartTag { name, attrs, self_closing } => TokenView::StartTag(
            name@,
            attrs_view(attrs@),
            self_closing,
        ),
        Token::EndTag { name } => TokenView::EndTag(name@),
    }
}

/// The nodes of `dom`, in order.
pub open spec fn dom_nodes(dom: Dom) -> Seq<NodeView> {
    Seq::new(dom.spec_len(), |i: int| node_view(dom.spec_data(i)))
}

/// The index of each node's parent (-1 for the document).
pub open spec fn dom_parents(dom: Dom) -> Seq<int> {
    Seq::new(
        dom.spec_len(),
        |i: int|
            match dom.spec_parent(i) {
                Some(p) => p.spec_index(),
                None => -1,
            },
    )
}

/// The indices of the nodes `ids`.
pub open spec fn indices(ids: Seq<NodeId>) -> Seq<int> {
    ids.map_values(|id: NodeId| id.spec_index())
}

/// The token that starts at `p` or after the comments there, with the
/// position after it; `None` at the end of the input. A `<` that starts
/// no tag is text.
pub open spec fn token_at(input: Seq<char>, p: int) -> Option<(TokenView, int)> {
    let s = token_start(input, p);
    if s >= input.len() {
        None
    } else if input[s] != '<' {
        Some((TokenView::Text(text_run(input, s).0), text_run(input, s).1))
    } else if starts_with(input.skip(s), "</"@) {
        let ne = name_end(input, s + 2);
        Some((TokenView::EndTag(ascii_lowered(input.subrange(s + 2, ne))), past_gt(input, ne)))
    } else if s + 1 < input.len() && is_ascii_alpha(input[s + 1]) {
        let t = start_tag_at(input, s);
        Some((TokenView::StartTag(t.0, t.1, t.2), t.3))
    } else {
        Some((TokenView::Text(seq!['<']), s + 1))
    }
}

/// Where the raw text of a `tag` element that starts at `p` ends: at the
/// first end tag of `tag`, or at the end of the input.
pub open spec fn raw_end(input: Seq<char>, p: int, tag: Seq<char>) -> int
    decreases input.len() - p,
{
    if p < 0 || p >= input.len() {
        input.len() as int
    } else if closes_raw_at(input, p, tag) {
        p
    } else {
        raw_end(input, p + 1, tag)
    }
}

/// The first end tag of `tag` from `p` on is at `f`.
pub proof fn lemma_raw_end(input: Seq<char>, p: int, f: int, tag: Seq<char>)
    requires
        0 <= p <= f <= input.len(),
        forall|q: int| p <= q < f ==> !closes_raw_at(input, q, tag),
        f == input.len() || closes_raw_at(input, f, tag),
    ensures
        raw_end(input, p, tag) == f,
    decreases f - p,
{
    if p < f {
        lemma_raw_end(input, p + 1, f, tag);
    }
}

/// The tree builder's state: the input position, the nodes built so far
/// with the index of each one's parent, and the indices of the open
/// elements, the document first.
pub struct Builder {
    pub pos: int,
    pub nodes: Seq<NodeView>,
    pub parents: Seq<int>,
    pub open: Seq<int>,
}

/// Before any input: the document alone, and open.
pub open spec fn start_builder() -> Builder {
    Builder { pos: 0, nodes: seq![NodeView::Document], parents: seq![-1], open: seq![0] }
}

pub open spec fn tag_of(v: NodeView) -> Option<Seq<char>> {
    match v {
        NodeView::Element(t, _) => Some(t),
        _ => None,
    }
}

/// The open elements left when a `name` element starts: the innermost is
/// closed as long as it is not the document and `name` closes it.
pub open spec fn close_for(nodes: Seq<NodeView>, open: Seq<int>, name: Seq<char>) -> Seq<int>
    decreases open.len(),
{
    if open.len() > 1 && (tag_of(nodes[open.last()]) matches Some(t) && closes(t, name)) {
        close_for(nodes, open.drop_last(), name)
    } else {
        open
    }
}

/// One more than the place of the innermost of the first `k` open
/// elements that is tagged `name`; 0 if none is.
pub open spec fn innermost_open(nodes: Seq<NodeView>, open: Seq<int>, name: Seq<char>, k: int) -> int
    decreases k,
{
    if k <= 0 {
        0
    } else if tag_of(nodes[open[k - 1]]) == Some(name) {
        k
    } else {
        innermost_open(nodes, open, name, k - 1)
    }
}

/// What token `tok`, which ends at `q`, does: text is appended to the
/// innermost open element; an end tag closes the innermost open element
/// of its name and every one inside it (the document stays open); a start
/// tag closes what it implicitly closes, is appended, and stays open
/// unless it is void, self-closing or at the nesting cap -- a raw-text
/// element takes the text up to its end tag and is closed there.
pub open spec fn after_token(input: Seq<char>, b: Builder, tok: TokenView, q: int) -> Builder {
    match tok {
        TokenView::Text(t) => if t.len() > 0 {
            Builder {
                pos: q,
                nodes: b.nodes.push(NodeView::Text(t)),
                parents: b.parents.push(b.open.last()),
                open: b.open,
            }
        } else {
            Builder { pos: q, nodes: b.nodes, parents: b.parents, open: b.open }
        },
        TokenView::EndTag(name) => {
            let k = innermost_open(b.nodes, b.open, name, b.open.len() as int);
            Builder {
                pos: q,
                nodes: b.nodes,
                parents: b.parents,
                open: if k > 1 {
                    b.open.take(k - 1)
                } else {
                    b.open
                },
            }
        },
        TokenView::StartTag(name, attrs, self_closing) => {
            let open = close_for(b.nodes, b.open, name);
            let el = b.nodes.len() as int;
            let nodes = b.nodes.push(NodeView::Element(name, attrs));
            let parents = b.parents.push(open.last());
            let closed = self_closing || void_tag(name);
            if raw_text_tag(name) && !closed {
                let e = raw_end(input, q, name);
                let text = input.subrange(q, e);
                let after = match token_at(input, e) {
                    Some((_, r)) => r,
                    None => input.len() as int,
                };
                if text.len() > 0 {
                    Builder {
                        pos: after,
                        nodes: nodes.push(NodeView::Text(text)),
                        parents: parents.push(el),
                        open,
                    }
                } else {
                    Builder { pos: after, nodes, parents, open }
                }
            } else if !closed && open.len() < MAX_NESTING_DEPTH {
                Builder { pos: q, nodes, parents, open: open.push(el) }
            } else {
                Builder { pos: q, nodes, parents, open }
            }
        },
    }
}

/// The builder run from state `b` to the end of the input.
pub open spec fn build_from(input: Seq<char>, b: Builder) -> Builder
    decreases input.len() - b.pos,
{
    match token_at(input, b.pos) {
        None => b,
        Some((tok, q)) => {
            let b2 = after_token(input, b, tok, q);
            if b.pos < b2.pos <= input.len() {
                build_from(input, b2)
            } else {
                b
            }
        },
    }
}

/// The tree the builder makes of `input`.
pub open spec fn built(input: Seq<char>) -> Builder {
    build_from(input, start_builder())
}

/// The elements that start a block: a paragraph, a division, a list, a
/// list item or a heading.
pub open spec fn starts_block(name: Seq<char>) -> bool {
    ||| name == "p"@
    ||| name == "div"@
    ||| name == "ul"@
    ||| name == "ol"@
    ||| name == "li"@
    ||| name == "h1"@
    ||| name == "h2"@
    ||| name == "h3"@
    ||| name == "h4"@
    ||| name == "h5"@
    ||| name == "h6"@
}

/// Closing for a new element keeps the outermost open element and stops
/// at the first one the new element does not close.
proof fn lemma_close_for(nodes: Seq<NodeView>, open: Seq<int>, name: Seq<char>)
    requires
        open.len() >= 1,
    ensures
        ({
            let r = close_for(nodes, open, name);
            &&& 1 <= r.len() <= open.len()
            &&& r == open.take(r.len() as int)
            &&& r.len() > 1 ==> !(tag_of(nodes[r.last()]) matches Some(t) && closes(t, name))
        }),
    decreases open.len(),
{
    if open.len() > 1 && (tag_of(nodes[open.last()]) matches Some(t) && closes(t, name)) {
        lemma_close_for(nodes, open.drop_last(), name);
        let r = close_for(nodes, open.drop_last(), name);
        assert(r =~= open.take(r.len() as int));
    } else {
        assert(open =~= open.take(open.len() as int));
    }
}

/// A paragraph never holds a block: when a paragraph, division, list, list
/// item or heading starts, every open paragraph around it is closed first,
/// so the new element's parent is never a paragraph; it lands beside the
/// paragraph it interrupts.
pub proof fn law_block_not_in_paragraph(
    input: Seq<char>,
    b: Builder,
    name: Seq<char>,
    attrs: Seq<(Seq<char>, Seq<char>)>,
    self_closing: bool,
    q: int,
)
    requires
        b.open.len() >= 1,
        b.nodes[b.open[0]] == NodeView::Document,
        starts_block(name),
    ensures
        ({
            let after = after_token(input, b, TokenView::StartTag(name, attrs, self_closing), q);
            tag_of(b.nodes[after.parents[b.parents.len() as int]]) != Some("p"@)
        }),
{
    lemma_start_parent(input, b, name, attrs, self_closing, q);
}

/// The parent a new element gets is an open element that the new element
/// does not implicitly close.
proof fn lemma_start_parent(
    input: Seq<char>,
    b: Builder,
    name: Seq<char>,
    attrs: Seq<(Seq<char>, Seq<char>)>,
    self_closing: bool,
    q: int,
)
    requires
        b.open.len() >= 1,
        b.nodes[b.open[0]] == NodeView::Document,
    ensures
        ({
            let after = after_token(input, b, TokenView::StartTag(name, attrs, self_closing), q);
            let t = tag_of(b.nodes[after.parents[b.parents.len() as int]]);
            !(t matches Some(open_tag) && closes(open_tag, name))
        }),
{
    lemma_close_for(b.nodes, b.open, name);
    let r = close_for(b.nodes, b.open, name);
    assert(r[0] == b.open[0]);
}

/// A list item never holds a list item: when a list item starts, an open
/// list item around it is closed first, and the new one lands beside it.
pub proof fn law_item_not_in_item(
    input: Seq<char>,
    b: Builder,
    attrs: Seq<(Seq<char>, Seq<char>)>,
    self_closing: bool,
    q: int,
)
    requires
        b.open.len() >= 1,
        b.nodes[b.open[0]] == NodeView::Document,
    ensures
        ({
            let after = after_token(input, b, TokenView::StartTag("li"@, attrs, self_closing), q);
            tag_of(b.nodes[after.parents[b.parents.len() as int]]) != Some("li"@)
        }),
{
    lemma_start_parent(input, b, "li"@, attrs, self_closing, q);
}

/// The builder's shape: the document is node 0 and the outermost open
/// element, every node has a parent slot, and the open elements are nodes.
pub open spec fn builder_sane(b: Builder) -> bool {
    &&& b.nodes.len() >= 1
    &&& b.nodes[0] == NodeView::Document
    &&& b.parents.len() == b.nodes.len()
    &&& b.open.len() >= 1
    &&& b.open[0] == 0
    &&& forall|j: int| 0 <= j < b.open.len() ==> 0 <= #[trigger] b.open[j] < b.nodes.len()
}

/// Where element `i` may hang: one that starts a block not under a
/// paragraph, a list item not under a list item.
pub open spec fn parent_fits(nodes: Seq<NodeView>, parents: Seq<int>, i: int) -> bool {
    let t = nodes[i]->Element_0;
    &&& starts_block(t) ==> 0 <= parents[i] < nodes.len() && tag_of(nodes[parents[i]]) != Some("p"@)
    &&& t == "li"@ ==> 0 <= parents[i] < nodes.len() && tag_of(nodes[parents[i]]) != Some("li"@)
}

/// No element that starts a block has a paragraph for its parent, and no
/// list item has a list item for its parent.
pub open spec fn no_block_in_paragraph(nodes: Seq<NodeView>, parents: Seq<int>) -> bool {
    forall|i: int|
        0 <= i < nodes.len() && (#[trigger] nodes[i] is Element) ==> parent_fits(nodes, parents, i)
}

proof fn lemma_innermost_open(nodes: Seq<NodeView>, open: Seq<int>, name: Seq<char>, k: int)
    requires
        0 <= k,
    ensures
        0 <= innermost_open(nodes, open, name, k) <= k,
    decreases k,
{
    if k > 0 && tag_of(nodes[open[k - 1]]) != Some(name) {
        lemma_innermost_open(nodes, open, name, k - 1);
    }
}

proof fn lemma_after_token_keeps(input: Seq<char>, b: Builder, tok: TokenView, q: int)
    requires
        builder_sane(b),
        no_block_in_paragraph(b.nodes, b.parents),
    ensures
        builder_sane(after_token(input, b, tok, q)),
        no_block_in_paragraph(after_token(input, b, tok, q).nodes, after_token(input, b, tok, q).parents),
{
    let a = after_token(input, b, tok, q);
    let n = b.nodes.len() as int;
    match tok {
        TokenView::Text(t) => {
            assert forall|i: int| 0 <= i < a.nodes.len() && (#[trigger] a.nodes[i] is Element) implies parent_fits(
                a.nodes,
                a.parents,
                i,
            ) by {
                if t.len() > 0 {
                    assert(i < n);
                }
                assert(b.nodes[i] == a.nodes[i]);
                assert(parent_fits(b.nodes, b.parents, i));
            }
        },
        TokenView::EndTag(name) => {
            lemma_innermost_open(b.nodes, b.open, name, b.open.len() as int);
        },
        TokenView::StartTag(name, attrs, self_closing) => {
            lemma_close_for(b.nodes, b.open, name);
            let open = close_for(b.nodes, b.open, name);
            assert(open[0] == b.open[0]);
            assert forall|j: int| 0 <= j < open.len() implies 0 <= #[trigger] open[j] < n by {
                assert(open[j] == b.open[j]);
            }
            lemma_start_parent(input, b, name, attrs, self_closing, q);
            assert(a.nodes[n] == NodeView::Element(name, attrs));
            assert(a.parents[n] == open.last());
            assert(closes("p"@, name) <== starts_block(name));
            assert(closes("li"@, name) <== name == "li"@);
            assert forall|i: int| 0 <= i < a.nodes.len() && (#[trigger] a.nodes[i] is Element) implies parent_fits(
                a.nodes,
                a.parents,
                i,
            ) by {
                if i < n {
                    assert(b.nodes[i] == a.nodes[i]);
                    assert(a.parents[i] == b.parents[i]);
                    assert(parent_fits(b.nodes, b.parents, i));
                    if 0 <= b.parents[i] < n {
                        assert(a.nodes[a.parents[i]] == b.nodes[b.parents[i]]);
                    }
                } else if i == n {
                    assert(a.nodes[a.parents[i]] == b.nodes[open.last()]);
                } else {
                    assert(a.nodes[i] is Text);
                }
            }
            assert forall|j: int| 0 <= j < a.open.len() implies 0 <= #[trigger] a.open[j] < a.nodes.len() by {
                if j < open.len() {
                    assert(a.open[j] == open[j]);
                }
            }
        },
    }
}

proof fn lemma_build_from_keeps(input: Seq<char>, b: Builder)
    requires
        builder_sane(b),
        no_block_in_paragraph(b.nodes, b.parents),
    ensures
        no_block_in_paragraph(build_from(input, b).nodes, build_from(input, b).parents),
    decreases input.len() - b.pos,
{
    match token_at(input, b.pos) {
        None => {},
        Some((tok, q)) => {
            let b2 = after_token(input, b, tok, q);
            lemma_after_token_keeps(input, b, tok, q);
            if b.pos < b2.pos <= input.len() {
                lemma_build_from_keeps(input, b2);
            }
        },
    }
}

/// In the tree built from any input, no paragraph holds a block: every
/// paragraph, division, list, list item and heading has a parent that is
/// not a paragraph. A list that starts inside an open paragraph becomes
/// the paragraph's sibling, never its child. Likewise no list item holds
/// another list item.
pub proof fn law_no_block_in_paragraph(input: Seq<char>)
    ensures
        no_block_in_paragraph(built(input).nodes, built(input).parents),
{
    let s = start_builder();
    assert(s.open[0] == 0);
    lemma_build_from_keeps(input, s);
}

/// Only a paragraph or a list item is ever closed by a start tag, and only
/// by a block or by another list item: when any other element starts, it
/// goes inside the innermost open element.
pub proof fn law_start_nests_in_innermost(
    input: Seq<char>,
    b: Builder,
    name: Seq<char>,
    attrs: Seq<(Seq<char>, Seq<char>)>,
    self_closing: bool,
    q: int,
)
    requires
        b.open.len() >= 1,
        !(tag_of(b.nodes[b.open.last()]) == Some("p"@) && starts_block(name)),
        !(tag_of(b.nodes[b.open.last()]) == Some("li"@) && name == "li"@),
    ensures
        after_token(input, b, TokenView::StartTag(name, attrs, self_closing), q).parents[b.parents.len() as int]
            == b.open.last(),
{
    let t = tag_of(b.nodes[b.open.last()]);
    if t is Some {
        assert(!closes(t->0, name));
    }
}

} // verus!

//! Selector matching: which elements of a document a CSS selector picks,
//! how specific a selector is, and in which order the rules of a style
//! sheet that match an element apply to it.

use vstd::prelude::*;

use crate::chars::{is_white_space, is_whitespace};
use crate::html::dom::{first_attr, Dom, NodeData, NodeId};
use crate::html::elements::chars_eq;
use crate::text::chars_of;

verus! {

/// What an attribute selector asks of an attribute.
#[derive(Debug, Clone, PartialEq, Eq)]
pub enum AttrMatch {
    /// `[name]`: that the attribute is there.
    Present,
    /// `[name=value]`: that it holds exactly `value`.
    Equals(String),
}

/// A compound selector: an optional type, an optional id, classes and
/// attribute tests, all of which an element must meet.
#[derive(Debug, Clone)]
pub struct SimpleSelector {
    pub tag: Option<String>,
    pub id: Option<String>,
    pub classes: Vec<String>,
    pub attrs: Vec<(String, AttrMatch)>,
}

/// How two neighbouring compound selectors of a complex selector relate.
#[derive(Debug, Clone, Copy, PartialEq, Eq)]
pub enum Combinator {
    /// `a b`: some ancestor.
    Descendant,
    /// `a > b`: the parent.
    Child,
    /// `a + b`: the element just before, among the siblings.
    Adjacent,
    /// `a ~ b`: some element before, among the siblings.
    General,
}

/// A complex selector: its compound selectors, left to right, and the
/// combinator between each two of them.
#[derive(Debug, Clone)]
pub struct Selector {
    pub parts: Vec<SimpleSelector>,
    pub combinators: Vec<Combinator>,
}

/// `w` stands at `i` in `s` as one of its whitespace-separated words.
pub open spec fn word_at(s: Seq<char>, w: Seq<char>, i: int) -> bool {
    &&& w.len() > 0
    &&& 0 <= i && i + w.len() <= s.len()
    &&& s.subrange(i, i + w.len()) == w
    &&& (i == 0 || is_white_space(s[i - 1]))
    &&& (i + w.len() == s.len() || is_white_space(s[i + w.len()]))
    &&& forall|k: int| 0 <= k < w.len() ==> !is_white_space(#[trigger] w[k])
}

/// `w` is one of the whitespace-separated words of `s`.
pub open spec fn has_word(s: Seq<char>, w: Seq<char>) -> bool {
    exists|i: int| word_at(s, w, i)
}

/// Whether the characters of `s` from `start` on begin with `w`.
fn same_at(s: &Vec<char>, start: usize, w: &Vec<char>) -> (r: bool)
    requires
        start + w.len() <= s.len(),
    ensures
        r == (s@.subrange(start as int, start + w.len()) == w@),
{
    let mut k: usize = 0;
    while k < w.len()
        invariant
            k <= w.len(),
            start + w.len() <= s.len(),
            forall|m: int| 0 <= m < k ==> s@[start + m] == w@[m],
        decreases w.len() - k,
    {
        if s[start + k] != w[k] {
            assert(s@.subrange(start as int, start + w.len())[k as int] == s@[start + k]);
            return false;
        }
        k += 1;
    }
    assert(s@.subrange(start as int, start + w.len()) =~= w@);
    true
}

/// Whether `w` is one of the whitespace-separated words of `s`.
pub fn has_class_word(s: &Vec<char>, w: &Vec<char>) -> (r: bool)
    ensures
        r == has_word(s@, w@),
{
    let n = s.len();
    if w.len() == 0 {
        return false;
    }
    let mut i: usize = 0;
    while i < n
        invariant
            i <= n,
            n == s.len(),
            w.len() > 0,
            0 < i < n ==> is_white_space(s@[i - 1]),
            forall|p: int| 0 <= p < i ==> !word_at(s@, w@, p),
        decreases n - i,
    {
        if is_whitespace(s[i]) {
            assert(!word_at(s@, w@, i as int)) by {
                if word_at(s@, w@, i as int) {
                    assert(s@.subrange(i as int, i + w.len())[0] == s@[i as int]);
                    assert(!is_white_space(w@[0]));
                }
            }
            i += 1;
        } else {
            let start = i;
            let mut j = i;
            while j < n && !is_whitespace(s[j])
                invariant
                    start <= j <= n,
                    n == s.len(),
                    forall|k: int| start <= k < j ==> !is_white_space(s@[k]),
                decreases n - j,
            {
                j += 1;
            }
            if j - start == w.len() && same_at(s, start, w) {
                assert(word_at(s@, w@, start as int)) by {
                    assert forall|k: int| 0 <= k < w.len() implies !is_white_space(#[trigger] w@[k]) by {
                        assert(s@.subrange(start as int, start + w.len())[k] == s@[start + k]);
                    }
                }
                return true;
            }
            assert forall|p: int| start <= p <= j && p < n implies !word_at(s@, w@, p) by {
                if word_at(s@, w@, p) {
                    let sub = s@.subrange(p, p + w.len());
                    if p == start {
                        if w.len() < j - start {
                            assert(!is_white_space(s@[start + w.len()]));
                        } else if w.len() > j - start {
                            if j < n {
                                assert(sub[j - start] == s@[j as int]);
                                assert(!is_white_space(w@[j - start]));
                            }
                        }
                    } else if p < j {
                        assert(!is_white_space(s@[p - 1]));
                    } else {
                        assert(sub[0] == s@[p]);
                        assert(!is_white_space(w@[0]));
                    }
                }
            }
            if j < n {
                i = j + 1;
            } else {
                i = j;
            }
        }
    }
    false
}

/// Whether the strings `a` and `b` are equal.
fn str_eq(a: &str, b: &str) -> (r: bool)
    ensures
        r == (a@ == b@),
{
    let x = chars_of(a);
    let y = chars_of(b);
    chars_eq(&x, &y)
}

/// The text of the `class` attribute among `attrs` (empty where there is
/// none).
pub open spec fn class_text(attrs: Seq<(String, String)>) -> Seq<char> {
    match first_attr(attrs, "class"@) {
        Some(v) => v,
        None => Seq::empty(),
    }
}

/// An attribute whose value is `v` (`None` where it is missing) meets `m`.
pub open spec fn attr_test(v: Option<Seq<char>>, m: AttrMatch) -> bool {
    match m {
        AttrMatch::Present => v is Some,
        AttrMatch::Equals(want) => v == Some(want@),
    }
}

/// Node `i` of `dom` is an element that `sel` picks: of its type, with its
/// id, every one of its classes among the words of the `class` attribute,
/// and every attribute test met (each by the first attribute so named).
pub open spec fn simple_matches(dom: &Dom, i: int, sel: SimpleSelector) -> bool {
    match dom.spec_data(i) {
        NodeData::Element { tag, attrs } => {
            &&& (sel.tag matches Some(t) ==> t@ == tag@)
            &&& (sel.id matches Some(want) ==> first_attr(attrs@, "id"@) == Some(want@))
            &&& forall|c: int|
                0 <= c < sel.classes@.len() ==> has_word(class_text(attrs@), (#[trigger] sel.classes@[c])@)
            &&& forall|a: int|
                0 <= a < sel.attrs@.len() ==> attr_test(
                    first_attr(attrs@, (#[trigger] sel.attrs@[a]).0@),
                    sel.attrs@[a].1,
                )
        },
        _ => false,
    }
}

/// Whether `node` is an element that `sel` picks.
pub fn simple_selector_matches(dom: &Dom, node: NodeId, sel: &SimpleSelector) -> (r: bool)
    requires
        dom.wf(),
        0 <= node.spec_index() < dom.spec_len(),
    ensures
        r == simple_matches(dom, node.spec_index(), *sel),
{
    let tag = match dom.tag(node) {
        Some(t) => t,
        None => {
            return false;
        },
    };
    let ghost attrs_v = match dom.spec_data(node.spec_index()) {
        NodeData::Element { attrs, .. } => attrs@,
        _ => Seq::empty(),
    };
    match &sel.tag {
        Some(want) => {
            if !str_eq(want.as_str(), tag) {
                return false;
            }
        },
        None => {},
    }
    match &sel.id {
        Some(want) => {
            match dom.attr(node, "id") {
                Some(v) => {
                    if !str_eq(v, want.as_str()) {
                        return false;
                    }
                },
                None => {
                    return false;
                },
            }
        },
        None => {},
    }
    if sel.classes.len() > 0 {
        let class_attr = match dom.attr(node, "class") {
            Some(v) => v,
            None => "",
        };
        let words = chars_of(class_attr);
        proof {
            reveal_strlit("");
            assert(words@ == class_text(attrs_v));
        }
        let mut c: usize = 0;
        while c < sel.classes.len()
            invariant
                c <= sel.classes.len(),
                words@ == class_text(attrs_v),
                dom.spec_data(node.spec_index()) matches NodeData::Element { attrs, tag: t } && attrs@
                    == attrs_v && (sel.tag matches Some(want) ==> want@ == t@),
                sel.id matches Some(want) ==> first_attr(attrs_v, "id"@) == Some(want@),
                forall|x: int| 0 <= x < c ==> has_word(words@, (#[trigger] sel.classes@[x])@),
            decreases sel.classes.len() - c,
        {
            let want = chars_of(sel.classes[c].as_str());
            if !has_class_word(&words, &want) {
                proof {
                    assert(!has_word(class_text(attrs_v), sel.classes@[c as int]@));
                    assert(dom.spec_data(node.spec_index()) matches NodeData::Element { attrs, .. }
                        && attrs@ == attrs_v);
                }
                return false;
            }
            c += 1;
        }
    }
    let mut a: usize = 0;
    while a < sel.attrs.len()
        invariant
            a <= sel.attrs.len(),
            dom.wf(),
            0 <= node.spec_index() < dom.spec_len(),
            dom.spec_data(node.spec_index()) matches NodeData::Element { attrs, tag: t } && attrs@
                == attrs_v && (sel.tag matches Some(want) ==> want@ == t@),
            sel.id matches Some(want) ==> first_attr(attrs_v, "id"@) == Some(want@),
            forall|x: int|
                0 <= x < sel.classes@.len() ==> has_word(class_text(attrs_v), (#[trigger] sel.classes@[x])@),
            forall|x: int|
                0 <= x < a ==> attr_test(
                    first_attr(attrs_v, (#[trigger] sel.attrs@[x]).0@),
                    sel.attrs@[x].1,
                ),
        decreases sel.attrs.len() - a,
    {
        let (name, matcher) = (&sel.attrs[a].0, &sel.attrs[a].1);
        let found = dom.attr(node, name.as_str());
        match matcher {
            AttrMatch::Present => {
                if found.is_none() {
                    return false;
                }
            },
            AttrMatch::Equals(value) => {
                match found {
                    Some(v) => {
                        if !str_eq(v, value.as_str()) {
                            return false;
                        }
                    },
                    None => {
                        return false;
                    },
                }
            },
        }
        a += 1;
    }
    true
}

/// The nearest element before node `i` among its siblings.
pub open spec fn prev_element(dom: &Dom, i: int) -> Option<NodeId>
    decreases i,
{
    match dom.spec_prev_sibling(i) {
        Some(s) => if 0 <= s.spec_index() < i {
            if dom.spec_data(s.spec_index()) is Element {
                Some(s)
            } else {
                prev_element(dom, s.spec_index())
            }
        } else {
            None
        },
        None => None,
    }
}

/// The nearest ancestor of node `i` that `t` picks.
pub open spec fn ancestor_matching(dom: &Dom, i: int, t: SimpleSelector) -> Option<NodeId>
    decreases i,
{
    match dom.spec_parent(i) {
        Some(p) => if 0 <= p.spec_index() < i {
            if simple_matches(dom, p.spec_index(), t) {
                Some(p)
            } else {
                ancestor_matching(dom, p.spec_index(), t)
            }
        } else {
            None
        },
        None => None,
    }
}

/// The nearest element before node `i` among its siblings that `t` picks.
pub open spec fn prev_matching(dom: &Dom, i: int, t: SimpleSelector) -> Option<NodeId>
    decreases i,
{
    match prev_element(dom, i) {
        Some(s) => if 0 <= s.spec_index() < i {
            if simple_matches(dom, s.spec_index(), t) {
                Some(s)
            } else {
                prev_matching(dom, s.spec_index(), t)
            }
        } else {
            None
        },
        None => None,
    }
}

/// Given that the compound selector `k` of `sel` picks node `cur`, the ones
/// before it match too, each combinator taken from right to left and
/// settled by the nearest node that fits it, with no going back.
pub open spec fn chain_matches(dom: &Dom, cur: int, sel: Selector, k: int) -> bool
    decreases k,
{
    if k <= 0 {
        true
    } else {
        let target = sel.parts@[k - 1];
        match sel.combinators@[k - 1] {
            Combinator::Child => match dom.spec_parent(cur) {
                Some(p) => simple_matches(dom, p.spec_index(), target) && chain_matches(
                    dom,
                    p.spec_index(),
                    sel,
                    k - 1,
                ),
                None => false,
            },
            Combinator::Descendant => match ancestor_matching(dom, cur, target) {
                Some(a) => chain_matches(dom, a.spec_index(), sel, k - 1),
                None => false,
            },
            Combinator::Adjacent => match prev_element(dom, cur) {
                Some(s) => simple_matches(dom, s.spec_index(), target) && chain_matches(
                    dom,
                    s.spec_index(),
                    sel,
                    k - 1,
                ),
                None => false,
            },
            Combinator::General => match prev_matching(dom, cur, target) {
                Some(s) => chain_matches(dom, s.spec_index(), sel, k - 1),
                None => false,
            },
        }
    }
}

/// `sel` picks node `i`: its last compound selector picks `i`, and the
/// others match along the combinators.
pub open spec fn selector_picks(dom: &Dom, i: int, sel: Selector) -> bool {
    &&& sel.parts@.len() > 0
    &&& simple_matches(dom, i, sel.parts@.last())
    &&& chain_matches(dom, i, sel, sel.parts@.len() - 1)
}

/// The element before a node among its siblings comes before it.
proof fn lemma_prev_element(dom: &Dom, i: int)
    requires
        dom.wf(),
        0 <= i < dom.spec_len(),
    ensures
        prev_element(dom, i) matches Some(s) ==> 0 <= s.spec_index() < i,
    decreases i,
{
    dom.lemma_links_before(i);
    match dom.spec_prev_sibling(i) {
        Some(s) => {
            if !(dom.spec_data(s.spec_index()) is Element) {
                lemma_prev_element(dom, s.spec_index());
            }
        },
        None => {},
    }
}

/// The element before `node` among its siblings.
pub fn prev_element_sibling(dom: &Dom, node: NodeId) -> (r: Option<NodeId>)
    requires
        dom.wf(),
        0 <= node.spec_index() < dom.spec_len(),
    ensures
        r == prev_element(dom, node.spec_index()),
        r matches Some(s) ==> 0 <= s.spec_index() < node.spec_index(),
{
    proof {
        lemma_prev_element(dom, node.spec_index());
        dom.lemma_links_before(node.spec_index());
    }
    let mut prev = dom.prev_sibling(node);
    let ghost mut x = node.spec_index();
    loop
        invariant
            dom.wf(),
            0 <= x <= node.spec_index() < dom.spec_len(),
            prev == dom.spec_prev_sibling(x),
            prev_element(dom, node.spec_index()) == prev_element(dom, x),
            prev matches Some(s) ==> 0 <= s.spec_index() < x,
        decreases x,
    {
        let candidate = match prev {
            Some(c) => c,
            None => {
                return None;
            },
        };
        if dom.tag(candidate).is_some() {
            return Some(candidate);
        }
        proof {
            x = candidate.spec_index();
            dom.lemma_links_before(x);
        }
        prev = dom.prev_sibling(candidate);
    }
}

/// The nearest ancestor of `node` that `target` picks.
fn nearest_ancestor_matching(dom: &Dom, node: NodeId, target: &SimpleSelector) -> (r: Option<
    NodeId,
>)
    requires
        dom.wf(),
        0 <= node.spec_index() < dom.spec_len(),
    ensures
        r == ancestor_matching(dom, node.spec_index(), *target),
        r matches Some(a) ==> 0 <= a.spec_index() < node.spec_index(),
{
    proof {
        dom.lemma_links_before(node.spec_index());
    }
    let mut ancestor = dom.parent(node);
    let ghost mut x = node.spec_index();
    loop
        invariant
            dom.wf(),
            0 <= x <= node.spec_index() < dom.spec_len(),
            ancestor == dom.spec_parent(x),
            ancestor_matching(dom, node.spec_index(), *target) == ancestor_matching(dom, x, *target),
            ancestor matches Some(p) ==> 0 <= p.spec_index() < x,
        decreases x,
    {
        let a = match ancestor {
            Some(a) => a,
            None => {
                return None;
            },
        };
        if simple_selector_matches(dom, a, target) {
            return Some(a);
        }
        proof {
            x = a.spec_index();
            dom.lemma_links_before(x);
        }
        ancestor = dom.parent(a);
    }
}

/// The nearest element before `node` among its siblings that `target`
/// picks.
fn nearest_prev_matching(dom: &Dom, node: NodeId, target: &SimpleSelector) -> (r: Option<NodeId>)
    requires
        dom.wf(),
        0 <= node.spec_index() < dom.spec_len(),
    ensures
        r == prev_matching(dom, node.spec_index(), *target),
        r matches Some(a) ==> 0 <= a.spec_index() < node.spec_index(),
{
    let mut sibling = prev_element_sibling(dom, node);
    let ghost mut x = node.spec_index();
    loop
        invariant
            dom.wf(),
            0 <= x <= node.spec_index() < dom.spec_len(),
            sibling == prev_element(dom, x),
            prev_matching(dom, node.spec_index(), *target) == prev_matching(dom, x, *target),
            sibling matches Some(p) ==> 0 <= p.spec_index() < x,
        decreases x,
    {
        let s = match sibling {
            Some(s) => s,
            None => {
                return None;
            },
        };
        if simple_selector_matches(dom, s, target) {
            return Some(s);
        }
        proof {
            x = s.spec_index();
        }
        sibling = prev_element_sibling(dom, s);
    }
}

/// Whether `selector` picks `node`. The combinators are followed from
/// right to left; each one is settled by the nearest node that fits it (the
/// nearest matching ancestor, the nearest matching earlier sibling), and a
/// later mismatch does not go back to try a farther one.
pub fn selector_matches(dom: &Dom, node: NodeId, selector: &Selector) -> (r: bool)
    requires
        dom.wf(),
        0 <= node.spec_index() < dom.spec_len(),
        selector.parts.len() <= selector.combinators.len() + 1,
    ensures
        r == selector_picks(dom, node.spec_index(), *selector),
{
    if selector.parts.len() == 0 {
        return false;
    }
    let mut part_idx = selector.parts.len() - 1;
    if !simple_selector_matches(dom, node, &selector.parts[part_idx]) {
        return false;
    }
    let mut current = node;
    while part_idx > 0
        invariant
            dom.wf(),
            0 <= current.spec_index() < dom.spec_len(),
            part_idx < selector.parts.len(),
            selector.parts.len() <= selector.combinators.len() + 1,
            chain_matches(dom, node.spec_index(), *selector, selector.parts.len() - 1)
                == chain_matches(dom, current.spec_index(), *selector, part_idx as int),
        decreases part_idx,
    {
        let combinator = selector.combinators[part_idx - 1];
        let target = &selector.parts[part_idx - 1];
        proof {
            dom.lemma_links_before(current.spec_index());
        }
        match combinator {
            Combinator::Child => {
                match dom.parent(current) {
                    Some(parent) => {
                        if !simple_selector_matches(dom, parent, target) {
                            return false;
                        }
                        current = parent;
                    },
                    None => {
                        return false;
                    },
                }
            },
            Combinator::Descendant => {
                match nearest_ancestor_matching(dom, current, target) {
                    Some(matched) => {
                        current = matched;
                    },
                    None => {
                        return false;
                    },
                }
            },
            Combinator::Adjacent => {
                match prev_element_sibling(dom, current) {
                    Some(prev) => {
                        if !simple_selector_matches(dom, prev, target) {
                            return false;
                        }
                        current = prev;
                    },
                    None => {
                        return false;
                    },
                }
            },
            Combinator::General => {
                match nearest_prev_matching(dom, current, target) {
                    Some(matched) => {
                        current = matched;
                    },
                    None => {
                        return false;
                    },
                }
            },
        }
        part_idx -= 1;
    }
    true
}

/// How specific a selector is: its ids; its classes and attribute tests;
/// its types. The greater, compared in that order, wins.
pub type Specificity = (u32, u32, u32);

/// How many of `parts` name an id.
pub open spec fn id_count(parts: Seq<SimpleSelector>) -> nat
    decreases parts.len(),
{
    if parts.len() == 0 {
        0
    } else {
        id_count(parts.drop_last()) + if parts.last().id is Some {
            1nat
        } else {
            0nat
        }
    }
}

/// How many classes and attribute tests `parts` hold in all.
pub open spec fn class_count(parts: Seq<SimpleSelector>) -> nat
    decreases parts.len(),
{
    if parts.len() == 0 {
        0
    } else {
        class_count(parts.drop_last()) + parts.last().classes@.len() + parts.last().attrs@.len()
    }
}

/// How many of `parts` name a type.
pub open spec fn type_count(parts: Seq<SimpleSelector>) -> nat
    decreases parts.len(),
{
    if parts.len() == 0 {
        0
    } else {
        type_count(parts.drop_last()) + if parts.last().tag is Some {
            1nat
        } else {
            0nat
        }
    }
}

/// `sel` can be matched and measured: a combinator between each two of
/// its parts, and counts that fit the specificity's fields.
pub open spec fn selector_ok(sel: Selector) -> bool {
    &&& sel.parts@.len() <= sel.combinators@.len() + 1
    &&& sel.parts@.len() <= u32::MAX
    &&& class_count(sel.parts@) <= u32::MAX
}

/// The specificity of `sel`.
pub open spec fn specificity_of(sel: Selector) -> Specificity {
    (id_count(sel.parts@) as u32, class_count(sel.parts@) as u32, type_count(sel.parts@) as u32)
}

/// `a` is less specific than `b`.
pub open spec fn specificity_lt(a: Specificity, b: Specificity) -> bool {
    a.0 < b.0 || (a.0 == b.0 && (a.1 < b.1 || (a.1 == b.1 && a.2 < b.2)))
}

/// A prefix counts no more classes than the whole.
proof fn lemma_class_count_prefix(parts: Seq<SimpleSelector>, i: int)
    requires
        0 <= i <= parts.len(),
    ensures
        class_count(parts.take(i)) <= class_count(parts),
    decreases parts.len(),
{
    if i < parts.len() {
        assert(parts.drop_last().take(i) =~= parts.take(i));
        lemma_class_count_prefix(parts.drop_last(), i);
    } else {
        assert(parts.take(i) =~= parts);
    }
}

/// The specificity of `selector`.
pub fn specificity(selector: &Selector) -> (r: Specificity)
    requires
        selector.parts.len() <= u32::MAX,
        class_count(selector.parts@) <= u32::MAX,
    ensures
        r.0 == id_count(selector.parts@),
        r.1 == class_count(selector.parts@),
        r.2 == type_count(selector.parts@),
{
    let mut ids: u32 = 0;
    let mut classes: u32 = 0;
    let mut types: u32 = 0;
    let mut i: usize = 0;
    while i < selector.parts.len()
        invariant
            i <= selector.parts.len() <= u32::MAX,
            class_count(selector.parts@) <= u32::MAX,
            ids == id_count(selector.parts@.take(i as int)),
            classes == class_count(selector.parts@.take(i as int)),
            types == type_count(selector.parts@.take(i as int)),
            ids <= i,
            types <= i,
        decreases selector.parts.len() - i,
    {
        let part = &selector.parts[i];
        let ghost next = selector.parts@.take(i + 1);
        proof {
            assert(next.drop_last() =~= selector.parts@.take(i as int));
            assert(next.last() == selector.parts@[i as int]);
            lemma_class_count_prefix(selector.parts@, i + 1);
        }
        if part.id.is_some() {
            ids += 1;
        }
        classes += (part.classes.len() + part.attrs.len()) as u32;
        if part.tag.is_some() {
            types += 1;
        }
        i += 1;
    }
    assert(selector.parts@.take(i as int) =~= selector.parts@);
    (ids, classes, types)
}

/// Whether `a` is less specific than `b`.
pub fn less_specific(a: Specificity, b: Specificity) -> (r: bool)
    ensures
        r == specificity_lt(a, b),
{
    a.0 < b.0 || (a.0 == b.0 && (a.1 < b.1 || (a.1 == b.1 && a.2 < b.2)))
}

/// The highest specificity among the selectors of `sels` that pick node
/// `i`, if any does.
pub open spec fn best_match(dom: &Dom, i: int, sels: Seq<Selector>) -> Option<Specificity>
    decreases sels.len(),
{
    if sels.len() == 0 {
        None
    } else {
        let rest = best_match(dom, i, sels.drop_last());
        if selector_picks(dom, i, sels.last()) {
            let s = specificity_of(sels.last());
            match rest {
                Some(b) => Some(
                    if specificity_lt(b, s) {
                        s
                    } else {
                        b
                    },
                ),
                None => Some(s),
            }
        } else {
            rest
        }
    }
}

/// The highest specificity among the selectors of `sels` that pick `node`.
fn best_specificity(dom: &Dom, node: NodeId, sels: &Vec<Selector>) -> (r: Option<Specificity>)
    requires
        dom.wf(),
        0 <= node.spec_index() < dom.spec_len(),
        forall|j: int| 0 <= j < sels@.len() ==> selector_ok(#[trigger] sels@[j]),
    ensures
        r == best_match(dom, node.spec_index(), sels@),
{
    let mut best: Option<Specificity> = None;
    let mut j: usize = 0;
    while j < sels.len()
        invariant
            j <= sels.len(),
            dom.wf(),
            0 <= node.spec_index() < dom.spec_len(),
            forall|x: int| 0 <= x < sels@.len() ==> selector_ok(#[trigger] sels@[x]),
            best == best_match(dom, node.spec_index(), sels@.take(j as int)),
        decreases sels.len() - j,
    {
        proof {
            assert(sels@.take(j + 1).drop_last() =~= sels@.take(j as int));
            assert(sels@.take(j + 1).last() == sels@[j as int]);
            assert(selector_ok(sels@[j as int]));
        }
        if selector_matches(dom, node, &sels[j]) {
            let s = specificity(&sels[j]);
            assert(s == specificity_of(sels@[j as int]));
            best = match best {
                Some(b) => Some(
                    if less_specific(b, s) {
                        s
                    } else {
                        b
                    },
                ),
                None => Some(s),
            };
        }
        j += 1;
    }
    assert(sels@.take(sels.len() as int) =~= sels@);
    best
}

/// Rule `a` (a specificity and a place in the sheet) applies before rule
/// `b`: it is less specific, or as specific and earlier.
pub open spec fn applies_before(a: (Specificity, usize), b: (Specificity, usize)) -> bool {
    specificity_lt(a.0, b.0) || (a.0 == b.0 && a.1 < b.1)
}

/// The rules of a style sheet, each given by its list of selectors, that
/// pick `node`: each with the highest specificity among its selectors that
/// pick it, and its place in the sheet, in the order in which their
/// declarations apply: by specificity, then by place.
pub fn cascade_order(dom: &Dom, node: NodeId, rules: &Vec<Vec<Selector>>) -> (r: Vec<
    (Specificity, usize),
>)
    requires
        dom.wf(),
        0 <= node.spec_index() < dom.spec_len(),
        forall|k: int, j: int|
            0 <= k < rules@.len() && 0 <= j < rules@[k]@.len() ==> selector_ok(
                #[trigger] rules@[k]@[j],
            ),
    ensures
        forall|k: int|
            0 <= k < r@.len() ==> (#[trigger] r@[k]).1 < rules@.len() && best_match(
                dom,
                node.spec_index(),
                rules@[r@[k].1 as int]@,
            ) == Some(r@[k].0),
        forall|o: int|
            0 <= o < rules@.len() && (#[trigger] best_match(dom, node.spec_index(), rules@[o]@)) is Some
                ==> exists|k: int| 0 <= k < r@.len() && (#[trigger] r@[k]).1 == o,
        forall|a: int, b: int| 0 <= a < b < r@.len() ==> applies_before(r@[a], r@[b]),
{
    let mut r: Vec<(Specificity, usize)> = Vec::new();
    let mut order: usize = 0;
    while order < rules.len()
        invariant
            order <= rules.len(),
            dom.wf(),
            0 <= node.spec_index() < dom.spec_len(),
            forall|k: int, j: int|
                0 <= k < rules@.len() && 0 <= j < rules@[k]@.len() ==> selector_ok(
                    #[trigger] rules@[k]@[j],
                ),
            forall|k: int|
                0 <= k < r@.len() ==> (#[trigger] r@[k]).1 < order && best_match(
                    dom,
                    node.spec_index(),
                    rules@[r@[k].1 as int]@,
                ) == Some(r@[k].0),
            forall|o: int|
                0 <= o < order && (#[trigger] best_match(dom, node.spec_index(), rules@[o]@)) is Some
                    ==> exists|k: int| 0 <= k < r@.len() && (#[trigger] r@[k]).1 == o,
            forall|a: int, b: int| 0 <= a < b < r@.len() ==> applies_before(r@[a], r@[b]),
        decreases rules.len() - order,
    {
        let sels = &rules[order];
        assert forall|j: int| 0 <= j < sels@.len() implies selector_ok(#[trigger] sels@[j]) by {
            assert(selector_ok(rules@[order as int]@[j]));
        }
        match best_specificity(dom, node, sels) {
            Some(spec) => {
                let mut k: usize = 0;
                while k < r.len() && !less_specific(spec, r[k].0)
                    invariant
                        k <= r.len(),
                        forall|j: int| 0 <= j < k ==> !specificity_lt(spec, (#[trigger] r@[j]).0),
                    decreases r.len() - k,
                {
                    k += 1;
                }
                let ghost old_r = r@;
                let entry = (spec, order);
                r.insert(k, entry);
                proof {
                    assert(r@ == old_r.insert(k as int, entry));
                    assert forall|x: int| 0 <= x < r@.len() implies (#[trigger] r@[x]).1 < order + 1
                        && best_match(dom, node.spec_index(), rules@[r@[x].1 as int]@) == Some(r@[x].0) by {
                        if x < k {
                            assert(r@[x] == old_r[x]);
                        } else if x > k {
                            assert(r@[x] == old_r[x - 1]);
                        }
                    }
                    assert forall|o: int|
                        0 <= o < order + 1 && (#[trigger] best_match(dom, node.spec_index(), rules@[o]@)) is Some
                        implies exists|x: int| 0 <= x < r@.len() && (#[trigger] r@[x]).1 == o by {
                        if o == order {
                            assert(r@[k as int].1 == o);
                        } else {
                            let y = choose|y: int| 0 <= y < old_r.len() && (#[trigger] old_r[y]).1 == o;
                            if y < k {
                                assert(r@[y].1 == o);
                            } else {
                                assert(r@[y + 1] == old_r[y]);
                                assert(r@[y + 1].1 == o);
                            }
                        }
                    }
                    assert forall|a: int, b: int| 0 <= a < b < r@.len() implies applies_before(r@[a], r@[b]) by {
                        if b < k {
                            assert(r@[a] == old_r[a] && r@[b] == old_r[b]);
                        } else if b == k {
                            assert(r@[a] == old_r[a]);
                            assert(!specificity_lt(spec, old_r[a].0));
                        } else if a > k {
                            assert(r@[a] == old_r[a - 1] && r@[b] == old_r[b - 1]);
                        } else if a == k {
                            assert(r@[b] == old_r[b - 1]);
                            assert(specificity_lt(spec, old_r[k as int].0));
                            if b - 1 > k {
                                assert(applies_before(old_r[k as int], old_r[b - 1]));
                            }
                        } else {
                            assert(r@[a] == old_r[a] && r@[b] == old_r[b - 1]);
                        }
                    }
                }
            },
            None => {},
        }
        order += 1;
    }
    r
}

} // verus!

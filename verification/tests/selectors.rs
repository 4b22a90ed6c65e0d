use placard::html::dom::{Dom, NodeId};
use placard::html::parse;
use placard::selector::{
    cascade_order, has_class_word, prev_element_sibling, selector_matches,
    simple_selector_matches, specificity, AttrMatch, Combinator, Selector, SimpleSelector,
};

fn compound(tag: Option<&str>, id: Option<&str>, classes: &[&str]) -> SimpleSelector {
    SimpleSelector {
        tag: tag.map(String::from),
        id: id.map(String::from),
        classes: classes.iter().map(|c| c.to_string()).collect(),
        attrs: Vec::new(),
    }
}

fn single(part: SimpleSelector) -> Selector {
    Selector {
        parts: vec![part],
        combinators: Vec::new(),
    }
}

fn tag(name: &str) -> SimpleSelector {
    compound(Some(name), None, &[])
}

fn class(name: &str) -> SimpleSelector {
    compound(None, None, &[name])
}

fn chain(parts: Vec<SimpleSelector>, combinators: Vec<Combinator>) -> Selector {
    Selector { parts, combinators }
}

fn children(dom: &Dom, id: NodeId) -> Vec<NodeId> {
    let mut out = Vec::new();
    let mut it = dom.children(id);
    while let Some(c) = it.next() {
        out.push(c);
    }
    out
}

fn chars(s: &str) -> Vec<char> {
    s.chars().collect()
}

#[test]
fn specificity_ordering() {
    let type_only = single(tag("div"));
    let class_only = single(class("foo"));
    let id_only = single(compound(None, Some("bar"), &[]));
    let type_and_class = single(compound(Some("div"), None, &["foo"]));

    assert!(specificity(&class_only) > specificity(&type_only));
    assert!(specificity(&id_only) > specificity(&class_only));
    assert!(specificity(&type_and_class) > specificity(&type_only));
    assert_eq!(specificity(&type_only), (0, 0, 1));
    assert_eq!(specificity(&class_only), (0, 1, 0));
    assert_eq!(specificity(&id_only), (1, 0, 0));
}

#[test]
fn specificity_counts_every_part_and_attribute_test() {
    let mut last = compound(Some("span"), Some("x"), &["a", "b"]);
    last.attrs.push(("data-k".to_string(), AttrMatch::Present));
    let sel = chain(
        vec![compound(Some("div"), Some("y"), &["c"]), last],
        vec![Combinator::Descendant],
    );
    assert_eq!(specificity(&sel), (2, 4, 2));
    assert_eq!(specificity(&chain(Vec::new(), Vec::new())), (0, 0, 0));
}

#[test]
fn class_words_are_whitespace_separated() {
    assert!(has_class_word(&chars("a b"), &chars("b")));
    assert!(has_class_word(&chars("  a\tb\n"), &chars("a")));
    assert!(has_class_word(&chars("item detail"), &chars("detail")));
    assert!(!has_class_word(&chars("item detail"), &chars("item detail")));
    assert!(!has_class_word(&chars("abc"), &chars("b")));
    assert!(!has_class_word(&chars("ab"), &chars("abc")));
    assert!(!has_class_word(&chars("a"), &chars("")));
    assert!(!has_class_word(&chars(""), &chars("a")));
}

#[test]
fn compound_selectors_test_type_id_classes_and_attributes() {
    let dom = parse("<div id=\"x\" class=\"a  b\" data-k=\"v\"></div>text");
    let kids = children(&dom, dom.root());
    let div = kids[0];
    let text = kids[1];

    assert!(simple_selector_matches(&dom, div, &tag("div")));
    assert!(!simple_selector_matches(&dom, div, &tag("span")));
    assert!(simple_selector_matches(&dom, div, &compound(None, Some("x"), &[])));
    assert!(!simple_selector_matches(&dom, div, &compound(None, Some("y"), &[])));
    assert!(simple_selector_matches(&dom, div, &compound(Some("div"), None, &["b", "a"])));
    assert!(!simple_selector_matches(&dom, div, &compound(None, None, &["a", "c"])));

    let mut present = compound(None, None, &[]);
    present.attrs.push(("data-k".to_string(), AttrMatch::Present));
    assert!(simple_selector_matches(&dom, div, &present));
    let mut equals = compound(None, None, &[]);
    equals.attrs.push(("data-k".to_string(), AttrMatch::Equals("v".to_string())));
    assert!(simple_selector_matches(&dom, div, &equals));
    let mut differs = compound(None, None, &[]);
    differs.attrs.push(("data-k".to_string(), AttrMatch::Equals("w".to_string())));
    assert!(!simple_selector_matches(&dom, div, &differs));
    let mut missing = compound(None, None, &[]);
    missing.attrs.push(("title".to_string(), AttrMatch::Present));
    assert!(!simple_selector_matches(&dom, div, &missing));

    // Text is no element: not even an empty compound selector picks it.
    assert!(!simple_selector_matches(&dom, text, &compound(None, None, &[])));
    assert!(simple_selector_matches(&dom, div, &compound(None, None, &[])));
}

#[test]
fn combinators_follow_parents_and_siblings() {
    let dom = parse("<div class=\"outer\"><span>a</span>text<p>b</p><em>c</em></div>");
    let div = children(&dom, dom.root())[0];
    let kids = children(&dom, div);
    let (span, p, em) = (kids[0], kids[2], kids[3]);

    let descendant = chain(vec![class("outer"), tag("em")], vec![Combinator::Descendant]);
    assert!(selector_matches(&dom, em, &descendant));
    let child = chain(vec![tag("div"), tag("p")], vec![Combinator::Child]);
    assert!(selector_matches(&dom, p, &child));
    let not_child = chain(vec![tag("span"), tag("p")], vec![Combinator::Child]);
    assert!(!selector_matches(&dom, p, &not_child));

    // The text between span and p is skipped: span is p's previous element.
    assert_eq!(prev_element_sibling(&dom, p), Some(span));
    assert_eq!(prev_element_sibling(&dom, span), None);
    let adjacent = chain(vec![tag("span"), tag("p")], vec![Combinator::Adjacent]);
    assert!(selector_matches(&dom, p, &adjacent));
    let not_adjacent = chain(vec![tag("span"), tag("em")], vec![Combinator::Adjacent]);
    assert!(!selector_matches(&dom, em, &not_adjacent));
    let general = chain(vec![tag("span"), tag("em")], vec![Combinator::General]);
    assert!(selector_matches(&dom, em, &general));
    let general_after = chain(vec![tag("em"), tag("span")], vec![Combinator::General]);
    assert!(!selector_matches(&dom, span, &general_after));

    let three = chain(
        vec![tag("div"), tag("span"), tag("em")],
        vec![Combinator::Child, Combinator::General],
    );
    assert!(selector_matches(&dom, em, &three));
    assert!(!selector_matches(&dom, div, &chain(Vec::new(), Vec::new())));
}

#[test]
fn descendant_combinator_settles_on_the_nearest_match() {
    // The nearest `.b` above the span is the inner one, whose parent is not
    // `.a`; the outer `.b` is not tried.
    let dom = parse(
        "<div class=\"a\"><div class=\"b\"><div class=\"b\"><span class=\"c\"></span></div></div></div>",
    );
    let a = children(&dom, dom.root())[0];
    let outer_b = children(&dom, a)[0];
    let inner_b = children(&dom, outer_b)[0];
    let span = children(&dom, inner_b)[0];
    let sel = chain(
        vec![class("a"), class("b"), class("c")],
        vec![Combinator::Child, Combinator::Descendant],
    );
    assert!(!selector_matches(&dom, span, &sel));
    let direct = chain(
        vec![class("a"), class("b")],
        vec![Combinator::Child],
    );
    assert!(selector_matches(&dom, outer_b, &direct));
    assert!(!selector_matches(&dom, inner_b, &direct));
}

#[test]
fn matching_rules_apply_by_specificity_then_place() {
    let dom = parse("<div id=\"x\" class=\"a\"></div>");
    let div = children(&dom, dom.root())[0];
    let rules = vec![
        vec![single(class("a"))],
        vec![single(tag("div"))],
        vec![single(compound(None, Some("x"), &[])), single(tag("div"))],
        vec![single(tag("span"))],
        vec![single(class("a"))],
    ];
    assert_eq!(
        cascade_order(&dom, div, &rules),
        vec![((0, 0, 1), 1), ((0, 1, 0), 0), ((0, 1, 0), 4), ((1, 0, 0), 2)]
    );
}

#[test]
fn nothing_applies_to_text() {
    let dom = parse("<p>hi</p>");
    let p = children(&dom, dom.root())[0];
    let text = children(&dom, p)[0];
    let rules = vec![vec![single(tag("p"))], vec![single(compound(None, None, &[]))]];
    assert!(cascade_order(&dom, text, &rules).is_empty());
    assert_eq!(
        cascade_order(&dom, p, &rules),
        vec![((0, 0, 0), 1), ((0, 0, 1), 0)]
    );
}

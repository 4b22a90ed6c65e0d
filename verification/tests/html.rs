use placard::html::dom::{Dom, NodeData, NodeId};
use placard::html::elements::{implicitly_closes, is_raw_text_element, is_void_element};
use placard::html::parse;
use placard::layout::has_explicit_html_or_body;
use placard::html::tokenizer::{Token, Tokenizer};
use placard::html::MAX_NESTING_DEPTH;

fn child_ids(dom: &Dom, id: NodeId) -> Vec<NodeId> {
    let mut out = Vec::new();
    let mut children = dom.children(id);
    while let Some(c) = children.next() {
        out.push(c);
    }
    out
}

fn child_tags(dom: &Dom, id: NodeId) -> Vec<String> {
    child_ids(dom, id)
        .into_iter()
        .filter_map(|c| dom.tag(c).map(String::from))
        .collect()
}

#[test]
fn implicit_p_close_produces_siblings_not_nesting() {
    let dom = parse("<p>First<p>Second");
    let root_children = child_tags(&dom, dom.root());
    assert_eq!(root_children, vec!["p", "p"]);
}

#[test]
fn implicit_li_close_produces_siblings_not_nesting() {
    let dom = parse("<ul><li>one<li>two<li>three</ul>");
    let ul = dom.first_child(dom.root()).unwrap();
    assert_eq!(child_tags(&dom, ul), vec!["li", "li", "li"]);
}

#[test]
fn void_element_does_not_swallow_following_sibling() {
    let dom = parse("<div><img src=\"a.png\">after</div>");
    let div = dom.first_child(dom.root()).unwrap();
    let img = dom.first_child(div).unwrap();
    assert_eq!(dom.tag(img), Some("img"));
    assert!(dom.first_child(img).is_none());
    let text_sibling = dom.next_sibling(img).unwrap();
    assert_eq!(dom.text(text_sibling), Some("after"));
}

#[test]
fn self_closing_void_img_also_does_not_swallow_sibling() {
    let dom = parse("<div><img src=\"a.png\"/>after</div>");
    let div = dom.first_child(dom.root()).unwrap();
    assert_eq!(child_tags(&dom, div), vec!["img"]);
}

#[test]
fn raw_text_element_preserves_literal_angle_brackets() {
    let dom = parse("<style>a > b { color: red; }</style><div>after</div>");
    let style = dom.first_child(dom.root()).unwrap();
    assert_eq!(dom.tag(style), Some("style"));
    let text = dom.first_child(style).unwrap();
    assert_eq!(dom.text(text), Some("a > b { color: red; }"));
    let div = dom.next_sibling(style).unwrap();
    assert_eq!(dom.tag(div), Some("div"));
}

#[test]
fn entities_decode_in_text() {
    let dom = parse("<p>Fish &amp; Chips &lt;tasty&gt;</p>");
    let p = dom.first_child(dom.root()).unwrap();
    let text = dom.first_child(p).unwrap();
    assert_eq!(dom.text(text), Some("Fish & Chips <tasty>"));
}

#[test]
fn comment_is_discarded() {
    let dom = parse("<p>before<!-- gone --></p>");
    let p = dom.first_child(dom.root()).unwrap();
    let text = dom.first_child(p).unwrap();
    assert_eq!(dom.text(text), Some("before"));
    assert!(dom.next_sibling(text).is_none());
}

#[test]
fn nesting_beyond_the_depth_cap_is_flattened_instead_of_growing_forever() {
    let depth = 10_000;
    let html = format!("{}x{}", "<div>".repeat(depth), "</div>".repeat(depth));
    let dom = parse(&html);

    let mut max_depth = 0;
    let mut stack = vec![(dom.root(), 0)];
    while let Some((node, depth)) = stack.pop() {
        max_depth = max_depth.max(depth);
        for child in child_ids(&dom, node) {
            stack.push((child, depth + 1));
        }
    }

    assert!(
        max_depth <= MAX_NESTING_DEPTH,
        "expected nesting to be capped at {MAX_NESTING_DEPTH}, got {max_depth}"
    );
}

#[test]
fn numeric_and_named_references_decode() {
    let dom = parse("<p>&#65;&#x42;&#X43;&quot;&apos;&nbsp;&bogus; &#;</p>");
    let p = dom.first_child(dom.root()).unwrap();
    let text = dom.first_child(p).unwrap();
    assert_eq!(dom.text(text), Some("ABC\"'\u{00A0}&bogus; &#;"));
}

#[test]
fn attributes_are_read_with_lowercase_names() {
    let dom = parse("<div ID=main class='a &amp; b' hidden>x</div>");
    let div = dom.first_child(dom.root()).unwrap();
    assert_eq!(dom.attr(div, "id"), Some("main"));
    assert_eq!(dom.attr(div, "class"), Some("a & b"));
    assert_eq!(dom.attr(div, "hidden"), Some(""));
    assert_eq!(dom.attr(div, "missing"), None);
    assert_eq!(dom.attrs(div).len(), 3);
}

#[test]
fn end_tags_close_the_innermost_matching_element() {
    let dom = parse("<div><span>a</div>b");
    let kids = child_ids(&dom, dom.root());
    assert_eq!(kids.len(), 2);
    assert_eq!(dom.tag(kids[0]), Some("div"));
    assert_eq!(dom.text(kids[1]), Some("b"));
    let stray = parse("</p>text");
    let k = child_ids(&stray, stray.root());
    assert_eq!(k.len(), 1);
    assert_eq!(stray.text(k[0]), Some("text"));
}

#[test]
fn parents_and_siblings_link_up() {
    let dom = parse("<ul><li>a</li><li>b</li></ul>");
    let ul = dom.first_child(dom.root()).unwrap();
    let lis = child_ids(&dom, ul);
    assert_eq!(lis.len(), 2);
    assert_eq!(dom.parent(lis[1]), Some(ul));
    assert_eq!(dom.prev_sibling(lis[1]), Some(lis[0]));
    assert_eq!(dom.next_sibling(lis[1]), None);
    assert_eq!(dom.parent(dom.root()), None);
    assert!(matches!(dom.data(dom.root()), NodeData::Document));
    assert_eq!(dom.root().index(), 0);
    assert_eq!(dom.node_count(), 6);
}

#[test]
fn set_text_content_replaces_the_children() {
    let mut dom = parse("<p>a<b>b</b></p>");
    let p = dom.first_child(dom.root()).unwrap();
    dom.set_text_content(p, "new");
    let kids = child_ids(&dom, p);
    assert_eq!(kids.len(), 1);
    assert_eq!(dom.text(kids[0]), Some("new"));
}

#[test]
fn element_tables() {
    assert!(is_void_element("br"));
    assert!(is_void_element("img"));
    assert!(!is_void_element("div"));
    assert!(is_raw_text_element("script"));
    assert!(is_raw_text_element("style"));
    assert!(!is_raw_text_element("p"));
    assert!(implicitly_closes("p", "div"));
    assert!(implicitly_closes("p", "h3"));
    assert!(implicitly_closes("li", "li"));
    assert!(!implicitly_closes("li", "p"));
    assert!(!implicitly_closes("div", "p"));
}

#[test]
fn tokenizer_yields_tags_text_and_lone_angle_brackets() {
    let mut t = Tokenizer::new("<A href=x>1 < 2</a><!doctype html>");
    match t.next_token() {
        Some(Token::StartTag { name, attrs, self_closing }) => {
            assert_eq!(name, "a");
            assert_eq!(attrs, vec![("href".to_string(), "x".to_string())]);
            assert!(!self_closing);
        }
        other => panic!("unexpected {other:?}"),
    }
    assert_eq!(t.next_token(), Some(Token::Text("1 ".to_string())));
    assert_eq!(t.next_token(), Some(Token::Text("<".to_string())));
    assert_eq!(t.next_token(), Some(Token::Text(" 2".to_string())));
    assert_eq!(t.next_token(), Some(Token::EndTag { name: "a".to_string() }));
    assert_eq!(t.next_token(), None);
}

#[test]
fn raw_text_stops_only_at_its_own_end_tag() {
    let mut t = Tokenizer::new("if (a</b) x</SCRIPT >rest");
    assert_eq!(t.read_raw_text_until("script"), "if (a</b) x");
    assert_eq!(t.next_token(), Some(Token::EndTag { name: "script".to_string() }));
    assert_eq!(t.next_token(), Some(Token::Text("rest".to_string())));
}

fn all_tokens(input: &str) -> Vec<Token> {
    let mut t = Tokenizer::new(input);
    let mut out = Vec::new();
    while let Some(tok) = t.next_token() {
        out.push(tok);
    }
    out
}

fn start(name: &str, attrs: &[(&str, &str)], self_closing: bool) -> Token {
    Token::StartTag {
        name: name.to_string(),
        attrs: attrs
            .iter()
            .map(|(n, v)| (n.to_string(), v.to_string()))
            .collect(),
        self_closing,
    }
}

#[test]
fn attributes_are_read_quoted_bare_and_bare_named() {
    assert_eq!(
        all_tokens("<IMG SRC = \"a&amp;b\" alt='it&#39;s' data-x=1 hidden>"),
        vec![start(
            "img",
            &[("src", "a&b"), ("alt", "it's"), ("data-x", "1"), ("hidden", "")],
            false
        )]
    );
    // References stay as they are in bare values.
    assert_eq!(
        all_tokens("<a href=x&amp;y>"),
        vec![start("a", &[("href", "x&amp;y")], false)]
    );
    // An unterminated quoted value runs to the end of the input.
    assert_eq!(
        all_tokens("<a title=\"open"),
        vec![start("a", &[("title", "open")], false)]
    );
    // `=` with nothing after it gives an empty value.
    assert_eq!(all_tokens("<a b="), vec![start("a", &[("b", "")], false)]);
}

#[test]
fn self_closing_tags_and_stray_characters() {
    assert_eq!(all_tokens("<br/>"), vec![start("br", &[], true)]);
    assert_eq!(all_tokens("<br / >"), vec![start("br", &[], true)]);
    // A `/` not followed by `>` is passed over; an attribute may follow.
    assert_eq!(all_tokens("<a / b>"), vec![start("a", &[("b", "")], false)]);
    // An `=` where a name should be is skipped.
    assert_eq!(all_tokens("<a =x>"), vec![start("a", &[("x", "")], false)]);
}

#[test]
fn comments_and_declarations_are_skipped() {
    assert_eq!(
        all_tokens("<!DOCTYPE html><!-- a <b> -->x<!-- open"),
        vec![Token::Text("x".to_string())]
    );
    assert_eq!(all_tokens("<!---->y"), vec![Token::Text("y".to_string())]);
}

#[test]
fn end_tags_skip_to_their_closing_bracket() {
    assert_eq!(
        all_tokens("</DIV class=x>t</"),
        vec![
            Token::EndTag { name: "div".to_string() },
            Token::Text("t".to_string()),
            Token::EndTag { name: String::new() },
        ]
    );
}

#[test]
fn explicit_html_or_body_is_found_among_the_top_level_elements() {
    let with_body = parse("<!doctype html>text<body><p>x</p></body>");
    assert!(has_explicit_html_or_body(&with_body, with_body.root()));
    let with_html = parse("<HTML></HTML>");
    assert!(has_explicit_html_or_body(&with_html, with_html.root()));
    let bare = parse("<div><body></body></div>");
    assert!(!has_explicit_html_or_body(&bare, bare.root()));
    let empty = parse("");
    assert!(!has_explicit_html_or_body(&empty, empty.root()));
}

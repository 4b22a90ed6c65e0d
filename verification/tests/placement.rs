use placard::html::dom::{Dom, NodeId};
use placard::html::parse;
use placard::layout::{positioned_descendants, Placement};
use placard::style::{Display, Position};

fn kids(dom: &Dom, id: NodeId) -> Vec<NodeId> {
    let mut out = Vec::new();
    let mut it = dom.children(id);
    while let Some(c) = it.next() {
        out.push(c);
    }
    out
}

fn flow() -> Placement {
    Placement {
        display: Display::Block,
        position: Position::Static,
        z_index: 0,
    }
}

/// `<div><p></p><span></span></div><em></em>`, with the nodes in order:
/// document, div, p, span, em.
fn sample() -> (Dom, Vec<NodeId>) {
    let dom = parse("<div><p></p><span></span></div><em></em>");
    let top = kids(&dom, dom.root());
    let inner = kids(&dom, top[0]);
    let ids = vec![dom.root(), top[0], inner[0], inner[1], top[1]];
    (dom, ids)
}

#[test]
fn absolute_and_fixed_elements_come_in_stacking_order() {
    let (dom, ids) = sample();
    let mut ps = vec![flow(); 5];
    ps[2] = Placement { position: Position::Absolute, z_index: 2, ..flow() };
    ps[3] = Placement { position: Position::Absolute, z_index: 1, ..flow() };
    ps[4] = Placement { position: Position::Fixed, z_index: 0, ..flow() };
    assert_eq!(
        positioned_descendants(&dom, &ps, dom.root(), true),
        vec![ids[4], ids[3], ids[2]]
    );
    assert_eq!(
        positioned_descendants(&dom, &ps, dom.root(), false),
        vec![ids[3], ids[2]]
    );
}

#[test]
fn a_positioned_ancestor_keeps_its_absolute_descendants() {
    let (dom, ids) = sample();
    let mut ps = vec![flow(); 5];
    ps[1] = Placement { position: Position::Relative, ..flow() };
    ps[2] = Placement { position: Position::Absolute, ..flow() };
    ps[3] = Placement { position: Position::Absolute, ..flow() };
    assert_eq!(positioned_descendants(&dom, &ps, dom.root(), false), vec![]);
    // Equal stacking order keeps document order.
    assert_eq!(
        positioned_descendants(&dom, &ps, ids[1], false),
        vec![ids[2], ids[3]]
    );
}

#[test]
fn hidden_elements_hide_what_they_hold() {
    let (dom, ids) = sample();
    let mut ps = vec![flow(); 5];
    ps[1] = Placement { display: Display::NoBox, ..flow() };
    ps[2] = Placement { position: Position::Fixed, ..flow() };
    ps[4] = Placement { position: Position::Fixed, z_index: -3, ..flow() };
    assert_eq!(
        positioned_descendants(&dom, &ps, dom.root(), true),
        vec![ids[4]]
    );
}

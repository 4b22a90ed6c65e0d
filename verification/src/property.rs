//! Which part of a computed style a CSS declaration sets, decided from the
//! property's name alone. A name that maps to no property is one the
//! renderer does not understand: the linter reports it.

use vstd::prelude::*;

use crate::html::elements::chars_are;
use crate::style::Side;
use crate::text::chars_of;

verus! {

/// The style properties the renderer understands.
#[derive(Debug, Clone, Copy, PartialEq, Eq, Structural)]
pub enum Property {
    Margin,
    Padding,
    BorderWidth,
    BorderColor,
    BorderStyle,
    Border,
    Background,
    Font,
    FontWeight,
    FontStyle,
    FontFamily,
    LineHeight,
    LetterSpacing,
    BoxSizing,
    Flex,
    Gap,
    GridTemplateColumns,
    GridTemplateRows,
    /// `margin-top`, `margin-right`, ...
    MarginSide(Side),
    /// `padding-top`, `padding-right`, ...
    PaddingSide(Side),
    /// `top`, `right`, `bottom`, `left`: the offsets of a positioned box.
    Inset(Side),
    /// `border-top-width`, ...
    BorderSideWidth(Side),
    /// `border-top-color`, ...
    BorderSideColor(Side),
    /// `border-top-style`, ...
    BorderSideStyle(Side),
    BorderRadius,
    Display,
    Color,
    BackgroundColor,
    FontSize,
    Width,
    Height,
    TextAlign,
    Position,
    ZIndex,
    FlexDirection,
    FlexWrap,
    JustifyContent,
    AlignItems,
    AlignSelf,
    FlexGrow,
    FlexShrink,
    FlexBasis,
    RowGap,
    ColumnGap,
}

/// What is left of `p` after the prefix `pre`, if `p` starts with it.
pub open spec fn after_prefix(p: Seq<char>, pre: Seq<char>) -> Option<Seq<char>> {
    if pre.len() <= p.len() && p.take(pre.len() as int) == pre {
        Some(p.skip(pre.len() as int))
    } else {
        None
    }
}

/// The side that `s` names.
pub open spec fn side_named(s: Seq<char>) -> Option<Side> {
    if s == "top"@ {
        Some(Side::Top)
    } else if s == "right"@ {
        Some(Side::Right)
    } else if s == "bottom"@ {
        Some(Side::Bottom)
    } else if s == "left"@ {
        Some(Side::Left)
    } else {
        None
    }
}

/// The shorthands and other whole-box properties, looked up first.
pub open spec fn whole_box_property(p: Seq<char>) -> Option<Property> {
    if p == "margin"@ {
        Some(Property::Margin)
    } else if p == "padding"@ {
        Some(Property::Padding)
    } else if p == "border-width"@ {
        Some(Property::BorderWidth)
    } else if p == "border-color"@ {
        Some(Property::BorderColor)
    } else if p == "border-style"@ {
        Some(Property::BorderStyle)
    } else if p == "border"@ {
        Some(Property::Border)
    } else if p == "background"@ {
        Some(Property::Background)
    } else if p == "font"@ {
        Some(Property::Font)
    } else if p == "font-weight"@ {
        Some(Property::FontWeight)
    } else if p == "font-style"@ {
        Some(Property::FontStyle)
    } else if p == "font-family"@ {
        Some(Property::FontFamily)
    } else if p == "line-height"@ {
        Some(Property::LineHeight)
    } else if p == "letter-spacing"@ {
        Some(Property::LetterSpacing)
    } else if p == "box-sizing"@ {
        Some(Property::BoxSizing)
    } else if p == "flex"@ {
        Some(Property::Flex)
    } else if p == "gap"@ {
        Some(Property::Gap)
    } else if p == "grid-template-columns"@ {
        Some(Property::GridTemplateColumns)
    } else if p == "grid-template-rows"@ {
        Some(Property::GridTemplateRows)
    } else {
        None
    }
}

/// The single-valued properties, looked up last.
pub open spec fn single_value_property(p: Seq<char>) -> Option<Property> {
    if p == "display"@ {
        Some(Property::Display)
    } else if p == "color"@ {
        Some(Property::Color)
    } else if p == "background-color"@ {
        Some(Property::BackgroundColor)
    } else if p == "font-size"@ {
        Some(Property::FontSize)
    } else if p == "width"@ {
        Some(Property::Width)
    } else if p == "height"@ {
        Some(Property::Height)
    } else if p == "text-align"@ {
        Some(Property::TextAlign)
    } else if p == "position"@ {
        Some(Property::Position)
    } else if p == "z-index"@ {
        Some(Property::ZIndex)
    } else if p == "flex-direction"@ {
        Some(Property::FlexDirection)
    } else if p == "flex-wrap"@ {
        Some(Property::FlexWrap)
    } else if p == "justify-content"@ {
        Some(Property::JustifyContent)
    } else if p == "align-items"@ {
        Some(Property::AlignItems)
    } else if p == "align-self"@ {
        Some(Property::AlignSelf)
    } else if p == "flex-grow"@ {
        Some(Property::FlexGrow)
    } else if p == "flex-shrink"@ {
        Some(Property::FlexShrink)
    } else if p == "flex-basis"@ {
        Some(Property::FlexBasis)
    } else if p == "row-gap"@ {
        Some(Property::RowGap)
    } else if p == "column-gap"@ {
        Some(Property::ColumnGap)
    } else {
        None
    }
}

/// The side a `border-` property names, with what follows the side and its
/// hyphen; sides are tried top, right, bottom, left.
pub open spec fn border_side_part(rest: Seq<char>) -> Option<(Side, Seq<char>)> {
    if after_prefix(rest, "top-"@) is Some {
        Some((Side::Top, after_prefix(rest, "top-"@)->0))
    } else if after_prefix(rest, "right-"@) is Some {
        Some((Side::Right, after_prefix(rest, "right-"@)->0))
    } else if after_prefix(rest, "bottom-"@) is Some {
        Some((Side::Bottom, after_prefix(rest, "bottom-"@)->0))
    } else if after_prefix(rest, "left-"@) is Some {
        Some((Side::Left, after_prefix(rest, "left-"@)->0))
    } else {
        None
    }
}

/// The property named `border-` followed by `rest`.
pub open spec fn border_property(rest: Seq<char>) -> Option<Property> {
    match border_side_part(rest) {
        Some((side, sub)) => if sub == "width"@ {
            Some(Property::BorderSideWidth(side))
        } else if sub == "color"@ {
            Some(Property::BorderSideColor(side))
        } else if sub == "style"@ {
            Some(Property::BorderSideStyle(side))
        } else {
            None
        },
        None => if rest == "radius"@ {
            Some(Property::BorderRadius)
        } else {
            None
        },
    }
}

/// The property that a declaration named `p` sets, if the renderer
/// understands it. Property names are matched as written: `Margin` is not
/// `margin`.
pub open spec fn property_of(p: Seq<char>) -> Option<Property> {
    if whole_box_property(p) is Some {
        whole_box_property(p)
    } else if after_prefix(p, "margin-"@) is Some {
        match side_named(after_prefix(p, "margin-"@)->0) {
            Some(s) => Some(Property::MarginSide(s)),
            None => None,
        }
    } else if after_prefix(p, "padding-"@) is Some {
        match side_named(after_prefix(p, "padding-"@)->0) {
            Some(s) => Some(Property::PaddingSide(s)),
            None => None,
        }
    } else if side_named(p) is Some {
        Some(Property::Inset(side_named(p)->0))
    } else if after_prefix(p, "border-"@) is Some {
        border_property(after_prefix(p, "border-"@)->0)
    } else {
        single_value_property(p)
    }
}

/// What is left of `t` after the prefix `pre`, if `t` starts with it.
fn strip_prefix_chars(t: &Vec<char>, pre: &str) -> (r: Option<Vec<char>>)
    ensures
        r matches Some(rest) ==> after_prefix(t@, pre@) == Some(rest@),
        r is None ==> after_prefix(t@, pre@) is None,
{
    let p = chars_of(pre);
    if p.len() > t.len() {
        return None;
    }
    let mut i: usize = 0;
    while i < p.len()
        invariant
            i <= p.len() <= t.len(),
            p@ == pre@,
            forall|j: int| 0 <= j < i ==> t@[j] == p@[j],
        decreases p.len() - i,
    {
        if t[i] != p[i] {
            assert(t@.take(p.len() as int)[i as int] != p@[i as int]);
            return None;
        }
        i += 1;
    }
    assert(t@.take(p.len() as int) =~= p@);
    let mut rest: Vec<char> = Vec::new();
    let mut k: usize = p.len();
    while k < t.len()
        invariant
            p.len() <= k <= t.len(),
            rest@ == t@.subrange(p.len() as int, k as int),
        decreases t.len() - k,
    {
        rest.push(t[k]);
        assert(t@.subrange(p.len() as int, k + 1) =~= t@.subrange(p.len() as int, k as int).push(
            t@[k as int],
        ));
        k += 1;
    }
    assert(rest@ =~= t@.skip(p.len() as int));
    Some(rest)
}

fn side_of(s: &Vec<char>) -> (r: Option<Side>)
    ensures
        r == side_named(s@),
{
    if chars_are(s, "top") {
        Some(Side::Top)
    } else if chars_are(s, "right") {
        Some(Side::Right)
    } else if chars_are(s, "bottom") {
        Some(Side::Bottom)
    } else if chars_are(s, "left") {
        Some(Side::Left)
    } else {
        None
    }
}

fn whole_box_of(t: &Vec<char>) -> (r: Option<Property>)
    ensures
        r == whole_box_property(t@),
{
    if chars_are(t, "margin") {
        Some(Property::Margin)
    } else if chars_are(t, "padding") {
        Some(Property::Padding)
    } else if chars_are(t, "border-width") {
        Some(Property::BorderWidth)
    } else if chars_are(t, "border-color") {
        Some(Property::BorderColor)
    } else if chars_are(t, "border-style") {
        Some(Property::BorderStyle)
    } else if chars_are(t, "border") {
        Some(Property::Border)
    } else if chars_are(t, "background") {
        Some(Property::Background)
    } else if chars_are(t, "font") {
        Some(Property::Font)
    } else if chars_are(t, "font-weight") {
        Some(Property::FontWeight)
    } else if chars_are(t, "font-style") {
        Some(Property::FontStyle)
    } else if chars_are(t, "font-family") {
        Some(Property::FontFamily)
    } else if chars_are(t, "line-height") {
        Some(Property::LineHeight)
    } else if chars_are(t, "letter-spacing") {
        Some(Property::LetterSpacing)
    } else if chars_are(t, "box-sizing") {
        Some(Property::BoxSizing)
    } else if chars_are(t, "flex") {
        Some(Property::Flex)
    } else if chars_are(t, "gap") {
        Some(Property::Gap)
    } else if chars_are(t, "grid-template-columns") {
        Some(Property::GridTemplateColumns)
    } else if chars_are(t, "grid-template-rows") {
        Some(Property::GridTemplateRows)
    } else {
        None
    }
}

fn single_value_of(t: &Vec<char>) -> (r: Option<Property>)
    ensures
        r == single_value_property(t@),
{
    if chars_are(t, "display") {
        Some(Property::Display)
    } else if chars_are(t, "color") {
        Some(Property::Color)
    } else if chars_are(t, "background-color") {
        Some(Property::BackgroundColor)
    } else if chars_are(t, "font-size") {
        Some(Property::FontSize)
    } else if chars_are(t, "width") {
        Some(Property::Width)
    } else if chars_are(t, "height") {
        Some(Property::Height)
    } else if chars_are(t, "text-align") {
        Some(Property::TextAlign)
    } else if chars_are(t, "position") {
        Some(Property::Position)
    } else if chars_are(t, "z-index") {
        Some(Property::ZIndex)
    } else if chars_are(t, "flex-direction") {
        Some(Property::FlexDirection)
    } else if chars_are(t, "flex-wrap") {
        Some(Property::FlexWrap)
    } else if chars_are(t, "justify-content") {
        Some(Property::JustifyContent)
    } else if chars_are(t, "align-items") {
        Some(Property::AlignItems)
    } else if chars_are(t, "align-self") {
        Some(Property::AlignSelf)
    } else if chars_are(t, "flex-grow") {
        Some(Property::FlexGrow)
    } else if chars_are(t, "flex-shrink") {
        Some(Property::FlexShrink)
    } else if chars_are(t, "flex-basis") {
        Some(Property::FlexBasis)
    } else if chars_are(t, "row-gap") {
        Some(Property::RowGap)
    } else if chars_are(t, "column-gap") {
        Some(Property::ColumnGap)
    } else {
        None
    }
}

fn border_of(rest: &Vec<char>) -> (r: Option<Property>)
    ensures
        r == border_property(rest@),
{
    let part: Option<(Side, Vec<char>)> = if let Some(sub) = strip_prefix_chars(rest, "top-") {
        Some((Side::Top, sub))
    } else if let Some(sub) = strip_prefix_chars(rest, "right-") {
        Some((Side::Right, sub))
    } else if let Some(sub) = strip_prefix_chars(rest, "bottom-") {
        Some((Side::Bottom, sub))
    } else if let Some(sub) = strip_prefix_chars(rest, "left-") {
        Some((Side::Left, sub))
    } else {
        None
    };
    match part {
        Some((side, sub)) => {
            if chars_are(&sub, "width") {
                Some(Property::BorderSideWidth(side))
            } else if chars_are(&sub, "color") {
                Some(Property::BorderSideColor(side))
            } else if chars_are(&sub, "style") {
                Some(Property::BorderSideStyle(side))
            } else {
                None
            }
        },
        None => {
            if chars_are(rest, "radius") {
                Some(Property::BorderRadius)
            } else {
                None
            }
        },
    }
}

/// The property that a declaration named `prop` sets, or `None` for a
/// name the renderer does not understand.
pub fn classify_property(prop: &str) -> (r: Option<Property>)
    ensures
        r == property_of(prop@),
        r matches Some(p) ==> prop@ == property_name(p),
{
    proof {
        law_property_named(prop@, prop@);
    }
    let t = chars_of(prop);
    if let Some(p) = whole_box_of(&t) {
        return Some(p);
    }
    if let Some(rest) = strip_prefix_chars(&t, "margin-") {
        return match side_of(&rest) {
            Some(s) => Some(Property::MarginSide(s)),
            None => None,
        };
    }
    if let Some(rest) = strip_prefix_chars(&t, "padding-") {
        return match side_of(&rest) {
            Some(s) => Some(Property::PaddingSide(s)),
            None => None,
        };
    }
    if let Some(s) = side_of(&t) {
        return Some(Property::Inset(s));
    }
    if let Some(rest) = strip_prefix_chars(&t, "border-") {
        return border_of(&rest);
    }
    single_value_of(&t)
}

/// The CSS name of a side.
pub open spec fn side_name(s: Side) -> Seq<char> {
    match s {
        Side::Top => "top"@,
        Side::Right => "right"@,
        Side::Bottom => "bottom"@,
        Side::Left => "left"@,
    }
}

/// The CSS name of each property.
pub open spec fn property_name(p: Property) -> Seq<char> {
    match p {
        Property::Margin => "margin"@,
        Property::Padding => "padding"@,
        Property::BorderWidth => "border-width"@,
        Property::BorderColor => "border-color"@,
        Property::BorderStyle => "border-style"@,
        Property::Border => "border"@,
        Property::Background => "background"@,
        Property::Font => "font"@,
        Property::FontWeight => "font-weight"@,
        Property::FontStyle => "font-style"@,
        Property::FontFamily => "font-family"@,
        Property::LineHeight => "line-height"@,
        Property::LetterSpacing => "letter-spacing"@,
        Property::BoxSizing => "box-sizing"@,
        Property::Flex => "flex"@,
        Property::Gap => "gap"@,
        Property::GridTemplateColumns => "grid-template-columns"@,
        Property::GridTemplateRows => "grid-template-rows"@,
        Property::MarginSide(s) => "margin-"@ + side_name(s),
        Property::PaddingSide(s) => "padding-"@ + side_name(s),
        Property::Inset(s) => side_name(s),
        Property::BorderSideWidth(s) => "border-"@ + side_name(s) + "-width"@,
        Property::BorderSideColor(s) => "border-"@ + side_name(s) + "-color"@,
        Property::BorderSideStyle(s) => "border-"@ + side_name(s) + "-style"@,
        Property::BorderRadius => "border-radius"@,
        Property::Display => "display"@,
        Property::Color => "color"@,
        Property::BackgroundColor => "background-color"@,
        Property::FontSize => "font-size"@,
        Property::Width => "width"@,
        Property::Height => "height"@,
        Property::TextAlign => "text-align"@,
        Property::Position => "position"@,
        Property::ZIndex => "z-index"@,
        Property::FlexDirection => "flex-direction"@,
        Property::FlexWrap => "flex-wrap"@,
        Property::JustifyContent => "justify-content"@,
        Property::AlignItems => "align-items"@,
        Property::AlignSelf => "align-self"@,
        Property::FlexGrow => "flex-grow"@,
        Property::FlexShrink => "flex-shrink"@,
        Property::FlexBasis => "flex-basis"@,
        Property::RowGap => "row-gap"@,
        Property::ColumnGap => "column-gap"@,
    }
}

proof fn lemma_after_prefix(p: Seq<char>, pre: Seq<char>)
    requires
        after_prefix(p, pre) is Some,
    ensures
        p == pre + after_prefix(p, pre)->0,
{
    assert(p =~= p.take(pre.len() as int) + p.skip(pre.len() as int));
}

proof fn lemma_side_named(s: Seq<char>)
    requires
        side_named(s) is Some,
    ensures
        s == side_name(side_named(s)->0),
{
}

proof fn lemma_border_named(rest: Seq<char>)
    requires
        border_property(rest) is Some,
    ensures
        "border-"@ + rest == property_name(border_property(rest)->0),
{
    reveal_strlit("top-");
    reveal_strlit("right-");
    reveal_strlit("bottom-");
    reveal_strlit("left-");
    reveal_strlit("top");
    reveal_strlit("right");
    reveal_strlit("bottom");
    reveal_strlit("left");
    reveal_strlit("-width");
    reveal_strlit("-color");
    reveal_strlit("-style");
    reveal_strlit("width");
    reveal_strlit("color");
    reveal_strlit("style");
    reveal_strlit("radius");
    reveal_strlit("border-");
    reveal_strlit("border-radius");
    match border_side_part(rest) {
        Some((side, sub)) => {
            let pre = match side {
                Side::Top => "top-"@,
                Side::Right => "right-"@,
                Side::Bottom => "bottom-"@,
                Side::Left => "left-"@,
            };
            assert(after_prefix(rest, pre) is Some && sub == after_prefix(rest, pre)->0);
            lemma_after_prefix(rest, pre);
            let tail = if sub == "width"@ {
                "-width"@
            } else if sub == "color"@ {
                "-color"@
            } else {
                "-style"@
            };
            assert(pre + sub =~= side_name(side) + tail);
            assert("border-"@ + rest =~= "border-"@ + side_name(side) + tail);
        },
        None => {
            assert("border-"@ + rest =~= "border-radius"@);
        },
    }
}

/// Every name the renderer understands names the property it is
/// classified as: the declaration `width` sets the width and nothing else.
/// So two names classified alike are the same name.
pub proof fn law_property_named(name: Seq<char>, other: Seq<char>)
    ensures
        property_of(name) matches Some(p) ==> name == property_name(p),
        (property_of(name) is Some && property_of(name) == property_of(other)) ==> name == other,
{
    lemma_named(name);
    lemma_named(other);
}

proof fn lemma_named(name: Seq<char>)
    ensures
        property_of(name) matches Some(p) ==> name == property_name(p),
{
    if whole_box_property(name) is Some {
    } else if after_prefix(name, "margin-"@) is Some {
        lemma_after_prefix(name, "margin-"@);
        let rest = after_prefix(name, "margin-"@)->0;
        if side_named(rest) is Some {
            lemma_side_named(rest);
        }
    } else if after_prefix(name, "padding-"@) is Some {
        lemma_after_prefix(name, "padding-"@);
        let rest = after_prefix(name, "padding-"@)->0;
        if side_named(rest) is Some {
            lemma_side_named(rest);
        }
    } else if side_named(name) is Some {
        lemma_side_named(name);
    } else if after_prefix(name, "border-"@) is Some {
        lemma_after_prefix(name, "border-"@);
        let rest = after_prefix(name, "border-"@)->0;
        if border_property(rest) is Some {
            lemma_border_named(rest);
        }
    } else {
    }
}

/// Every property the renderer understands is understood by its name:
/// classifying the name of a property gives back that property.
#[verifier::spinoff_prover]
#[verifier::rlimit(100)]
pub proof fn law_name_classified(p: Property)
    ensures
        property_of(property_name(p)) == Some(p),
{
    reveal_strlit("-color");
    reveal_strlit("-style");
    reveal_strlit("-width");
    reveal_strlit("align-items");
    reveal_strlit("align-self");
    reveal_strlit("background");
    reveal_strlit("background-color");
    reveal_strlit("border");
    reveal_strlit("border-");
    reveal_strlit("border-bottom-color");
    reveal_strlit("border-bottom-style");
    reveal_strlit("border-bottom-width");
    reveal_strlit("border-color");
    reveal_strlit("border-left-color");
    reveal_strlit("border-left-style");
    reveal_strlit("border-left-width");
    reveal_strlit("border-radius");
    reveal_strlit("border-right-color");
    reveal_strlit("border-right-style");
    reveal_strlit("border-right-width");
    reveal_strlit("border-style");
    reveal_strlit("border-top-color");
    reveal_strlit("border-top-style");
    reveal_strlit("border-top-width");
    reveal_strlit("border-width");
    reveal_strlit("bottom");
    reveal_strlit("bottom-");
    reveal_strlit("bottom-color");
    reveal_strlit("bottom-style");
    reveal_strlit("bottom-width");
    reveal_strlit("box-sizing");
    reveal_strlit("color");
    reveal_strlit("column-gap");
    reveal_strlit("display");
    reveal_strlit("flex");
    reveal_strlit("flex-basis");
    reveal_strlit("flex-direction");
    reveal_strlit("flex-grow");
    reveal_strlit("flex-shrink");
    reveal_strlit("flex-wrap");
    reveal_strlit("font");
    reveal_strlit("font-family");
    reveal_strlit("font-size");
    reveal_strlit("font-style");
    reveal_strlit("font-weight");
    reveal_strlit("gap");
    reveal_strlit("grid-template-columns");
    reveal_strlit("grid-template-rows");
    reveal_strlit("height");
    reveal_strlit("justify-content");
    reveal_strlit("left");
    reveal_strlit("left-");
    reveal_strlit("left-color");
    reveal_strlit("left-style");
    reveal_strlit("left-width");
    reveal_strlit("letter-spacing");
    reveal_strlit("line-height");
    reveal_strlit("margin");
    reveal_strlit("margin-");
    reveal_strlit("margin-bottom");
    reveal_strlit("margin-left");
    reveal_strlit("margin-right");
    reveal_strlit("margin-top");
    reveal_strlit("padding");
    reveal_strlit("padding-");
    reveal_strlit("padding-bottom");
    reveal_strlit("padding-left");
    reveal_strlit("padding-right");
    reveal_strlit("padding-top");
    reveal_strlit("position");
    reveal_strlit("radius");
    reveal_strlit("right");
    reveal_strlit("right-");
    reveal_strlit("right-color");
    reveal_strlit("right-style");
    reveal_strlit("right-width");
    reveal_strlit("row-gap");
    reveal_strlit("style");
    reveal_strlit("text-align");
    reveal_strlit("top");
    reveal_strlit("top-");
    reveal_strlit("top-color");
    reveal_strlit("top-style");
    reveal_strlit("top-width");
    reveal_strlit("width");
    reveal_strlit("z-index");
    match p {
        Property::Margin => {
            assert(property_name(Property::Margin) =~= "margin"@);
        },
        Property::Padding => {
            assert(property_name(Property::Padding) =~= "padding"@);
        },
        Property::BorderWidth => {
            assert(property_name(Property::BorderWidth) =~= "border-width"@);
        },
        Property::BorderColor => {
            assert(property_name(Property::BorderColor) =~= "border-color"@);
            assert("border-color"@[7] != "border-width"@[7]);
        },
        Property::BorderStyle => {
            assert(property_name(Property::BorderStyle) =~= "border-style"@);
            assert("border-style"@[7] != "border-width"@[7]);
            assert("border-style"@[7] != "border-color"@[7]);
        },
        Property::Border => {
            assert(property_name(Property::Border) =~= "border"@);
            assert("border"@[0] != "margin"@[0]);
        },
        Property::Background => {
            assert(property_name(Property::Background) =~= "background"@);
        },
        Property::Font => {
            assert(property_name(Property::Font) =~= "font"@);
        },
        Property::FontWeight => {
            assert(property_name(Property::FontWeight) =~= "font-weight"@);
        },
        Property::FontStyle => {
            assert(property_name(Property::FontStyle) =~= "font-style"@);
            assert("font-style"@[0] != "background"@[0]);
        },
        Property::FontFamily => {
            assert(property_name(Property::FontFamily) =~= "font-family"@);
            assert("font-family"@[5] != "font-weight"@[5]);
        },
        Property::LineHeight => {
            assert(property_name(Property::LineHeight) =~= "line-height"@);
            assert("line-height"@[0] != "font-weight"@[0]);
            assert("line-height"@[0] != "font-family"@[0]);
        },
        Property::LetterSpacing => {
            assert(property_name(Property::LetterSpacing) =~= "letter-spacing"@);
        },
        Property::BoxSizing => {
            assert(property_name(Property::BoxSizing) =~= "box-sizing"@);
            assert("box-sizing"@[1] != "background"@[1]);
            assert("box-sizing"@[0] != "font-style"@[0]);
        },
        Property::Flex => {
            assert(property_name(Property::Flex) =~= "flex"@);
            assert("flex"@[1] != "font"@[1]);
        },
        Property::Gap => {
            assert(property_name(Property::Gap) =~= "gap"@);
        },
        Property::GridTemplateColumns => {
            assert(property_name(Property::GridTemplateColumns) =~= "grid-template-columns"@);
        },
        Property::GridTemplateRows => {
            assert(property_name(Property::GridTemplateRows) =~= "grid-template-rows"@);
        },
        Property::Display => {
            assert(property_name(Property::Display) =~= "display"@);
            assert("display"@[0] != "padding"@[0]);
            assert("display"@.take(7)[0] != "margin-"@[0]);
            assert("display"@.take(7)[0] != "border-"@[0]);
        },
        Property::Color => {
            assert(property_name(Property::Color) =~= "color"@);
            assert("color"@[0] != "right"@[0]);
        },
        Property::BackgroundColor => {
            assert(property_name(Property::BackgroundColor) =~= "background-color"@);
            assert("background-color"@.take(7)[0] != "margin-"@[0]);
            assert("background-color"@.take(8)[0] != "padding-"@[0]);
            assert("background-color"@.take(7)[1] != "border-"@[1]);
        },
        Property::FontSize => {
            assert(property_name(Property::FontSize) =~= "font-size"@);
            assert("font-size"@.take(7)[0] != "margin-"@[0]);
            assert("font-size"@.take(8)[0] != "padding-"@[0]);
            assert("font-size"@.take(7)[0] != "border-"@[0]);
        },
        Property::Width => {
            assert(property_name(Property::Width) =~= "width"@);
            assert("width"@[0] != "right"@[0]);
            assert("width"@[0] != "color"@[0]);
        },
        Property::Height => {
            assert(property_name(Property::Height) =~= "height"@);
            assert("height"@[0] != "margin"@[0]);
            assert("height"@[0] != "border"@[0]);
            assert("height"@[0] != "bottom"@[0]);
        },
        Property::TextAlign => {
            assert(property_name(Property::TextAlign) =~= "text-align"@);
            assert("text-align"@[0] != "background"@[0]);
            assert("text-align"@[0] != "font-style"@[0]);
            assert("text-align"@[0] != "box-sizing"@[0]);
            assert("text-align"@.take(7)[0] != "margin-"@[0]);
            assert("text-align"@.take(8)[0] != "padding-"@[0]);
            assert("text-align"@.take(7)[0] != "border-"@[0]);
        },
        Property::Position => {
            assert(property_name(Property::Position) =~= "position"@);
            assert("position"@.take(7)[0] != "margin-"@[0]);
            assert("position"@.take(8)[1] != "padding-"@[1]);
            assert("position"@.take(7)[0] != "border-"@[0]);
        },
        Property::ZIndex => {
            assert(property_name(Property::ZIndex) =~= "z-index"@);
            assert("z-index"@[0] != "padding"@[0]);
            assert("z-index"@.take(7)[0] != "margin-"@[0]);
            assert("z-index"@.take(7)[0] != "border-"@[0]);
            assert("z-index"@[0] != "display"@[0]);
        },
        Property::FlexDirection => {
            assert(property_name(Property::FlexDirection) =~= "flex-direction"@);
            assert("flex-direction"@[0] != "letter-spacing"@[0]);
            assert("flex-direction"@.take(7)[0] != "margin-"@[0]);
            assert("flex-direction"@.take(8)[0] != "padding-"@[0]);
            assert("flex-direction"@.take(7)[0] != "border-"@[0]);
        },
        Property::FlexWrap => {
            assert(property_name(Property::FlexWrap) =~= "flex-wrap"@);
            assert("flex-wrap"@.take(7)[0] != "margin-"@[0]);
            assert("flex-wrap"@.take(8)[0] != "padding-"@[0]);
            assert("flex-wrap"@.take(7)[0] != "border-"@[0]);
            assert("flex-wrap"@[1] != "font-size"@[1]);
        },
        Property::JustifyContent => {
            assert(property_name(Property::JustifyContent) =~= "justify-content"@);
            assert("justify-content"@.take(7)[0] != "margin-"@[0]);
            assert("justify-content"@.take(8)[0] != "padding-"@[0]);
            assert("justify-content"@.take(7)[0] != "border-"@[0]);
        },
        Property::AlignItems => {
            assert(property_name(Property::AlignItems) =~= "align-items"@);
            assert("align-items"@[0] != "font-weight"@[0]);
            assert("align-items"@[0] != "font-family"@[0]);
            assert("align-items"@[0] != "line-height"@[0]);
            assert("align-items"@.take(7)[0] != "margin-"@[0]);
            assert("align-items"@.take(8)[0] != "padding-"@[0]);
            assert("align-items"@.take(7)[0] != "border-"@[0]);
        },
        Property::AlignSelf => {
            assert(property_name(Property::AlignSelf) =~= "align-self"@);
            assert("align-self"@[0] != "background"@[0]);
            assert("align-self"@[0] != "font-style"@[0]);
            assert("align-self"@[0] != "box-sizing"@[0]);
            assert("align-self"@.take(7)[0] != "margin-"@[0]);
            assert("align-self"@.take(8)[0] != "padding-"@[0]);
            assert("align-self"@.take(7)[0] != "border-"@[0]);
            assert("align-self"@[0] != "text-align"@[0]);
        },
        Property::FlexGrow => {
            assert(property_name(Property::FlexGrow) =~= "flex-grow"@);
            assert("flex-grow"@.take(7)[0] != "margin-"@[0]);
            assert("flex-grow"@.take(8)[0] != "padding-"@[0]);
            assert("flex-grow"@.take(7)[0] != "border-"@[0]);
            assert("flex-grow"@[1] != "font-size"@[1]);
            assert("flex-grow"@[5] != "flex-wrap"@[5]);
        },
        Property::FlexShrink => {
            assert(property_name(Property::FlexShrink) =~= "flex-shrink"@);
            assert("flex-shrink"@[1] != "font-weight"@[1]);
            assert("flex-shrink"@[1] != "font-family"@[1]);
            assert("flex-shrink"@[0] != "line-height"@[0]);
            assert("flex-shrink"@.take(7)[0] != "margin-"@[0]);
            assert("flex-shrink"@.take(8)[0] != "padding-"@[0]);
            assert("flex-shrink"@.take(7)[0] != "border-"@[0]);
            assert("flex-shrink"@[0] != "align-items"@[0]);
        },
        Property::FlexBasis => {
            assert(property_name(Property::FlexBasis) =~= "flex-basis"@);
            assert("flex-basis"@[0] != "background"@[0]);
            assert("flex-basis"@[1] != "font-style"@[1]);
            assert("flex-basis"@[0] != "box-sizing"@[0]);
            assert("flex-basis"@.take(7)[0] != "margin-"@[0]);
            assert("flex-basis"@.take(8)[0] != "padding-"@[0]);
            assert("flex-basis"@.take(7)[0] != "border-"@[0]);
            assert("flex-basis"@[0] != "text-align"@[0]);
            assert("flex-basis"@[0] != "align-self"@[0]);
        },
        Property::RowGap => {
            assert(property_name(Property::RowGap) =~= "row-gap"@);
            assert("row-gap"@[0] != "padding"@[0]);
            assert("row-gap"@.take(7)[0] != "margin-"@[0]);
            assert("row-gap"@.take(7)[0] != "border-"@[0]);
            assert("row-gap"@[0] != "display"@[0]);
            assert("row-gap"@[0] != "z-index"@[0]);
        },
        Property::ColumnGap => {
            assert(property_name(Property::ColumnGap) =~= "column-gap"@);
            assert("column-gap"@[0] != "background"@[0]);
            assert("column-gap"@[0] != "font-style"@[0]);
            assert("column-gap"@[0] != "box-sizing"@[0]);
            assert("column-gap"@.take(7)[0] != "margin-"@[0]);
            assert("column-gap"@.take(8)[0] != "padding-"@[0]);
            assert("column-gap"@.take(7)[0] != "border-"@[0]);
            assert("column-gap"@[0] != "text-align"@[0]);
            assert("column-gap"@[0] != "align-self"@[0]);
            assert("column-gap"@[0] != "flex-basis"@[0]);
        },
        Property::MarginSide(Side::Top) => {
            assert(property_name(Property::MarginSide(Side::Top)) =~= "margin-top"@);
            assert("margin-top"@[0] != "background"@[0]);
            assert("margin-top"@[0] != "font-style"@[0]);
            assert("margin-top"@[0] != "box-sizing"@[0]);
            assert("margin-top"@.take(7) =~= "margin-"@);
            assert("margin-top"@.skip(7) =~= "top"@);
        },
        Property::PaddingSide(Side::Top) => {
            assert(property_name(Property::PaddingSide(Side::Top)) =~= "padding-top"@);
            assert("padding-top"@[0] != "font-weight"@[0]);
            assert("padding-top"@[0] != "font-family"@[0]);
            assert("padding-top"@[0] != "line-height"@[0]);
            assert("padding-top"@.take(7)[0] != "margin-"@[0]);
            assert("padding-top"@.take(8) =~= "padding-"@);
            assert("padding-top"@.skip(8) =~= "top"@);
        },
        Property::Inset(Side::Top) => {
            assert(property_name(Property::Inset(Side::Top)) =~= "top"@);
            assert("top"@[0] != "gap"@[0]);
        },
        Property::BorderSideWidth(Side::Top) => {
            assert(property_name(Property::BorderSideWidth(Side::Top)) =~= "border-top-width"@);
            assert("border-top-width"@.take(7)[0] != "margin-"@[0]);
            assert("border-top-width"@.take(8)[0] != "padding-"@[0]);
            assert("border-top-width"@.take(7) =~= "border-"@);
            assert("border-top-width"@.skip(7) =~= "top-width"@);
            assert("top-width"@.take(4) =~= "top-"@);
            assert("top-width"@.skip(4) =~= "width"@);
        },
        Property::BorderSideColor(Side::Top) => {
            assert(property_name(Property::BorderSideColor(Side::Top)) =~= "border-top-color"@);
            assert("border-top-color"@.take(7)[0] != "margin-"@[0]);
            assert("border-top-color"@.take(8)[0] != "padding-"@[0]);
            assert("border-top-color"@.take(7) =~= "border-"@);
            assert("border-top-color"@.skip(7) =~= "top-color"@);
            assert("top-color"@.take(4) =~= "top-"@);
            assert("top-color"@.skip(4) =~= "color"@);
            assert("color"@[0] != "width"@[0]);
        },
        Property::BorderSideStyle(Side::Top) => {
            assert(property_name(Property::BorderSideStyle(Side::Top)) =~= "border-top-style"@);
            assert("border-top-style"@.take(7)[0] != "margin-"@[0]);
            assert("border-top-style"@.take(8)[0] != "padding-"@[0]);
            assert("border-top-style"@.take(7) =~= "border-"@);
            assert("border-top-style"@.skip(7) =~= "top-style"@);
            assert("top-style"@.take(4) =~= "top-"@);
            assert("top-style"@.skip(4) =~= "style"@);
            assert("style"@[0] != "width"@[0]);
            assert("style"@[0] != "color"@[0]);
        },
        Property::MarginSide(Side::Right) => {
            assert(property_name(Property::MarginSide(Side::Right)) =~= "margin-right"@);
            assert("margin-right"@[0] != "border-width"@[0]);
            assert("margin-right"@[0] != "border-color"@[0]);
            assert("margin-right"@[0] != "border-style"@[0]);
            assert("margin-right"@.take(7) =~= "margin-"@);
            assert("margin-right"@.skip(7) =~= "right"@);
        },
        Property::PaddingSide(Side::Right) => {
            assert(property_name(Property::PaddingSide(Side::Right)) =~= "padding-right"@);
            assert("padding-right"@.take(7)[0] != "margin-"@[0]);
            assert("padding-right"@.take(8) =~= "padding-"@);
            assert("padding-right"@.skip(8) =~= "right"@);
        },
        Property::Inset(Side::Right) => {
            assert(property_name(Property::Inset(Side::Right)) =~= "right"@);
        },
        Property::BorderSideWidth(Side::Right) => {
            assert(property_name(Property::BorderSideWidth(Side::Right)) =~= "border-right-width"@);
            assert("border-right-width"@[0] != "grid-template-rows"@[0]);
            assert("border-right-width"@.take(7)[0] != "margin-"@[0]);
            assert("border-right-width"@.take(8)[0] != "padding-"@[0]);
            assert("border-right-width"@.take(7) =~= "border-"@);
            assert("border-right-width"@.skip(7) =~= "right-width"@);
            assert("right-width"@.take(4)[0] != "top-"@[0]);
            assert("right-width"@.take(6) =~= "right-"@);
            assert("right-width"@.skip(6) =~= "width"@);
        },
        Property::BorderSideColor(Side::Right) => {
            assert(property_name(Property::BorderSideColor(Side::Right)) =~= "border-right-color"@);
            assert("border-right-color"@[0] != "grid-template-rows"@[0]);
            assert("border-right-color"@.take(7)[0] != "margin-"@[0]);
            assert("border-right-color"@.take(8)[0] != "padding-"@[0]);
            assert("border-right-color"@.take(7) =~= "border-"@);
            assert("border-right-color"@.skip(7) =~= "right-color"@);
            assert("right-color"@.take(4)[0] != "top-"@[0]);
            assert("right-color"@.take(6) =~= "right-"@);
            assert("right-color"@.skip(6) =~= "color"@);
            assert("color"@[0] != "width"@[0]);
        },
        Property::BorderSideStyle(Side::Right) => {
            assert(property_name(Property::BorderSideStyle(Side::Right)) =~= "border-right-style"@);
            assert("border-right-style"@[0] != "grid-template-rows"@[0]);
            assert("border-right-style"@.take(7)[0] != "margin-"@[0]);
            assert("border-right-style"@.take(8)[0] != "padding-"@[0]);
            assert("border-right-style"@.take(7) =~= "border-"@);
            assert("border-right-style"@.skip(7) =~= "right-style"@);
            assert("right-style"@.take(4)[0] != "top-"@[0]);
            assert("right-style"@.take(6) =~= "right-"@);
            assert("right-style"@.skip(6) =~= "style"@);
            assert("style"@[0] != "width"@[0]);
            assert("style"@[0] != "color"@[0]);
        },
        Property::MarginSide(Side::Bottom) => {
            assert(property_name(Property::MarginSide(Side::Bottom)) =~= "margin-bottom"@);
            assert("margin-bottom"@.take(7) =~= "margin-"@);
            assert("margin-bottom"@.skip(7) =~= "bottom"@);
        },
        Property::PaddingSide(Side::Bottom) => {
            assert(property_name(Property::PaddingSide(Side::Bottom)) =~= "padding-bottom"@);
            assert("padding-bottom"@[0] != "letter-spacing"@[0]);
            assert("padding-bottom"@.take(7)[0] != "margin-"@[0]);
            assert("padding-bottom"@.take(8) =~= "padding-"@);
            assert("padding-bottom"@.skip(8) =~= "bottom"@);
        },
        Property::Inset(Side::Bottom) => {
            assert(property_name(Property::Inset(Side::Bottom)) =~= "bottom"@);
            assert("bottom"@[0] != "margin"@[0]);
            assert("bottom"@[2] != "border"@[2]);
        },
        Property::BorderSideWidth(Side::Bottom) => {
            assert(property_name(Property::BorderSideWidth(Side::Bottom)) =~= "border-bottom-width"@);
            assert("border-bottom-width"@.take(7)[0] != "margin-"@[0]);
            assert("border-bottom-width"@.take(8)[0] != "padding-"@[0]);
            assert("border-bottom-width"@.take(7) =~= "border-"@);
            assert("border-bottom-width"@.skip(7) =~= "bottom-width"@);
            assert("bottom-width"@.take(4)[0] != "top-"@[0]);
            assert("bottom-width"@.take(6)[0] != "right-"@[0]);
            assert("bottom-width"@.take(7) =~= "bottom-"@);
            assert("bottom-width"@.skip(7) =~= "width"@);
        },
        Property::BorderSideColor(Side::Bottom) => {
            assert(property_name(Property::BorderSideColor(Side::Bottom)) =~= "border-bottom-color"@);
            assert("border-bottom-color"@.take(7)[0] != "margin-"@[0]);
            assert("border-bottom-color"@.take(8)[0] != "padding-"@[0]);
            assert("border-bottom-color"@.take(7) =~= "border-"@);
            assert("border-bottom-color"@.skip(7) =~= "bottom-color"@);
            assert("bottom-color"@.take(4)[0] != "top-"@[0]);
            assert("bottom-color"@.take(6)[0] != "right-"@[0]);
            assert("bottom-color"@.take(7) =~= "bottom-"@);
            assert("bottom-color"@.skip(7) =~= "color"@);
            assert("color"@[0] != "width"@[0]);
        },
        Property::BorderSideStyle(Side::Bottom) => {
            assert(property_name(Property::BorderSideStyle(Side::Bottom)) =~= "border-bottom-style"@);
            assert("border-bottom-style"@.take(7)[0] != "margin-"@[0]);
            assert("border-bottom-style"@.take(8)[0] != "padding-"@[0]);
            assert("border-bottom-style"@.take(7) =~= "border-"@);
            assert("border-bottom-style"@.skip(7) =~= "bottom-style"@);
            assert("bottom-style"@.take(4)[0] != "top-"@[0]);
            assert("bottom-style"@.take(6)[0] != "right-"@[0]);
            assert("bottom-style"@.take(7) =~= "bottom-"@);
            assert("bottom-style"@.skip(7) =~= "style"@);
            assert("style"@[0] != "width"@[0]);
            assert("style"@[0] != "color"@[0]);
        },
        Property::MarginSide(Side::Left) => {
            assert(property_name(Property::MarginSide(Side::Left)) =~= "margin-left"@);
            assert("margin-left"@[0] != "font-weight"@[0]);
            assert("margin-left"@[0] != "font-family"@[0]);
            assert("margin-left"@[0] != "line-height"@[0]);
            assert("margin-left"@.take(7) =~= "margin-"@);
            assert("margin-left"@.skip(7) =~= "left"@);
        },
        Property::PaddingSide(Side::Left) => {
            assert(property_name(Property::PaddingSide(Side::Left)) =~= "padding-left"@);
            assert("padding-left"@[0] != "border-width"@[0]);
            assert("padding-left"@[0] != "border-color"@[0]);
            assert("padding-left"@[0] != "border-style"@[0]);
            assert("padding-left"@.take(7)[0] != "margin-"@[0]);
            assert("padding-left"@.take(8) =~= "padding-"@);
            assert("padding-left"@.skip(8) =~= "left"@);
        },
        Property::Inset(Side::Left) => {
            assert(property_name(Property::Inset(Side::Left)) =~= "left"@);
            assert("left"@[0] != "font"@[0]);
            assert("left"@[0] != "flex"@[0]);
        },
        Property::BorderSideWidth(Side::Left) => {
            assert(property_name(Property::BorderSideWidth(Side::Left)) =~= "border-left-width"@);
            assert("border-left-width"@.take(7)[0] != "margin-"@[0]);
            assert("border-left-width"@.take(8)[0] != "padding-"@[0]);
            assert("border-left-width"@.take(7) =~= "border-"@);
            assert("border-left-width"@.skip(7) =~= "left-width"@);
            assert("left-width"@.take(4)[0] != "top-"@[0]);
            assert("left-width"@.take(6)[0] != "right-"@[0]);
            assert("left-width"@.take(7)[0] != "bottom-"@[0]);
            assert("left-width"@.take(5) =~= "left-"@);
            assert("left-width"@.skip(5) =~= "width"@);
        },
        Property::BorderSideColor(Side::Left) => {
            assert(property_name(Property::BorderSideColor(Side::Left)) =~= "border-left-color"@);
            assert("border-left-color"@.take(7)[0] != "margin-"@[0]);
            assert("border-left-color"@.take(8)[0] != "padding-"@[0]);
            assert("border-left-color"@.take(7) =~= "border-"@);
            assert("border-left-color"@.skip(7) =~= "left-color"@);
            assert("left-color"@.take(4)[0] != "top-"@[0]);
            assert("left-color"@.take(6)[0] != "right-"@[0]);
            assert("left-color"@.take(7)[0] != "bottom-"@[0]);
            assert("left-color"@.take(5) =~= "left-"@);
            assert("left-color"@.skip(5) =~= "color"@);
            assert("color"@[0] != "width"@[0]);
        },
        Property::BorderSideStyle(Side::Left) => {
            assert(property_name(Property::BorderSideStyle(Side::Left)) =~= "border-left-style"@);
            assert("border-left-style"@.take(7)[0] != "margin-"@[0]);
            assert("border-left-style"@.take(8)[0] != "padding-"@[0]);
            assert("border-left-style"@.take(7) =~= "border-"@);
            assert("border-left-style"@.skip(7) =~= "left-style"@);
            assert("left-style"@.take(4)[0] != "top-"@[0]);
            assert("left-style"@.take(6)[0] != "right-"@[0]);
            assert("left-style"@.take(7)[0] != "bottom-"@[0]);
            assert("left-style"@.take(5) =~= "left-"@);
            assert("left-style"@.skip(5) =~= "style"@);
            assert("style"@[0] != "width"@[0]);
            assert("style"@[0] != "color"@[0]);
        },
        Property::BorderRadius => {
            assert(property_name(Property::BorderRadius) =~= "border-radius"@);
            assert("border-radius"@.take(7)[0] != "margin-"@[0]);
            assert("border-radius"@.take(8)[0] != "padding-"@[0]);
            assert("border-radius"@.take(7) =~= "border-"@);
            assert("border-radius"@.skip(7) =~= "radius"@);
            assert("radius"@.take(4)[0] != "top-"@[0]);
            assert("radius"@.take(6)[1] != "right-"@[1]);
            assert("radius"@.take(5)[0] != "left-"@[0]);
        },
    }
}

} // verus!

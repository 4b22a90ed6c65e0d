//! The computed-style enums and the keyword tables that fill them.

use vstd::prelude::*;

use crate::chars::{ascii_lowered, lowered_chars};
use crate::html::elements::chars_are;
use crate::text::chars_of;

verus! {

#[derive(Debug, Clone, Copy, PartialEq, Eq, Structural)]
pub enum Display {
    Block,
    Inline,
    Flex,
    Grid,
    /// `display: none`: the element generates no box.
    NoBox,
}

#[derive(Debug, Clone, Copy, PartialEq, Eq, Structural)]
pub enum FlexDirection {
    Row,
    Column,
}

#[derive(Debug, Clone, Copy, PartialEq, Eq, Structural)]
pub enum FlexWrap {
    NoWrap,
    Wrap,
}

#[derive(Debug, Clone, Copy, PartialEq, Eq, Structural)]
pub enum JustifyContent {
    FlexStart,
    FlexEnd,
    Center,
    SpaceBetween,
    SpaceAround,
    SpaceEvenly,
}

#[derive(Debug, Clone, Copy, PartialEq, Eq, Structural)]
pub enum AlignItems {
    Stretch,
    FlexStart,
    FlexEnd,
    Center,
}

#[derive(Debug, Clone, Copy, PartialEq, Eq, Structural)]
pub enum Position {
    Static,
    Relative,
    Absolute,
    Fixed,
}

#[derive(Debug, Clone, Copy, PartialEq, Eq, Structural)]
pub enum TextAlign {
    Left,
    Right,
    Center,
}

#[derive(Debug, Clone, Copy, PartialEq, Eq, Structural)]
pub enum BorderStyle {
    /// `border-style: none`.
    NoBorder,
    Solid,
}

#[derive(Debug, Clone, Copy, PartialEq, Eq, Structural)]
pub enum FontWeight {
    Normal,
    Bold,
}

#[derive(Debug, Clone, Copy, PartialEq, Eq, Structural)]
pub enum FontStyle {
    Normal,
    Italic,
}

#[derive(Debug, Clone, PartialEq, Eq)]
pub enum FontFamily {
    SansSerif,
    Serif,
    Monospace,
    Named(String),
}

#[derive(Debug, Clone, Copy, PartialEq, Eq, Structural)]
pub enum BoxSizing {
    ContentBox,
    BorderBox,
}

/// A side of a box, in the top, right, bottom, left order of the
/// per-side arrays.
#[derive(Debug, Clone, Copy, PartialEq, Eq, Structural)]
pub enum Side {
    Top,
    Right,
    Bottom,
    Left,
}

impl Side {
    /// The position of this side in a per-side array.
    pub fn index(self) -> (i: usize)
        ensures
            i == match self {
                Side::Top => 0usize,
                Side::Right => 1,
                Side::Bottom => 2,
                Side::Left => 3,
            },
    {
        match self {
            Side::Top => 0,
            Side::Right => 1,
            Side::Bottom => 2,
            Side::Left => 3,
        }
    }
}

/// The tags displayed as blocks by default.
pub open spec fn block_tag(t: Seq<char>) -> bool {
    ||| t == "html"@ || t == "body"@ || t == "div"@ || t == "p"@ || t == "ul"@ || t == "ol"@
    ||| t == "li"@ || t == "h1"@ || t == "h2"@ || t == "h3"@ || t == "h4"@ || t == "h5"@
    ||| t == "h6"@ || t == "header"@ || t == "footer"@ || t == "nav"@ || t == "section"@
    ||| t == "article"@ || t == "aside"@ || t == "main"@ || t == "figure"@ || t == "figcaption"@
    ||| t == "blockquote"@ || t == "pre"@ || t == "address"@ || t == "dl"@ || t == "dt"@
    ||| t == "dd"@ || t == "details"@ || t == "summary"@ || t == "dialog"@ || t == "hr"@
    ||| t == "form"@ || t == "fieldset"@ || t == "legend"@ || t == "table"@ || t == "tr"@
    ||| t == "thead"@ || t == "tbody"@ || t == "tfoot"@ || t == "caption"@
}

/// The tags not displayed by default.
pub open spec fn hidden_tag(t: Seq<char>) -> bool {
    t == "style"@ || t == "script"@ || t == "head"@ || t == "title"@ || t == "meta"@ || t
        == "link"@
}

/// The user agent's display for an element with tag `tag`.
pub open spec fn default_display_of(t: Seq<char>) -> Display {
    if block_tag(t) {
        Display::Block
    } else if hidden_tag(t) {
        Display::NoBox
    } else {
        Display::Inline
    }
}

fn is_block_tag(t: &Vec<char>) -> (r: bool)
    ensures
        r == block_tag(t@),
{
    chars_are(t, "html") || chars_are(t, "body") || chars_are(t, "div") || chars_are(t, "p")
        || chars_are(t, "ul") || chars_are(t, "ol") || chars_are(t, "li") || chars_are(t, "h1")
        || chars_are(t, "h2") || chars_are(t, "h3") || chars_are(t, "h4") || chars_are(t, "h5")
        || chars_are(t, "h6") || chars_are(t, "header") || chars_are(t, "footer") || chars_are(
        t,
        "nav",
    ) || chars_are(t, "section") || chars_are(t, "article") || chars_are(t, "aside")
        || chars_are(t, "main") || chars_are(t, "figure") || chars_are(t, "figcaption")
        || chars_are(t, "blockquote") || chars_are(t, "pre") || chars_are(t, "address")
        || chars_are(t, "dl") || chars_are(t, "dt") || chars_are(t, "dd") || chars_are(
        t,
        "details",
    ) || chars_are(t, "summary") || chars_are(t, "dialog") || chars_are(t, "hr") || chars_are(
        t,
        "form",
    ) || chars_are(t, "fieldset") || chars_are(t, "legend") || chars_are(t, "table")
        || chars_are(t, "tr") || chars_are(t, "thead") || chars_are(t, "tbody") || chars_are(
        t,
        "tfoot",
    ) || chars_are(t, "caption")
}

/// The user agent's display for an element with tag `tag`.
pub fn default_display(tag: &str) -> (d: Display)
    ensures
        d == default_display_of(tag@),
{
    let t = chars_of(tag);
    if is_block_tag(&t) {
        Display::Block
    } else if chars_are(&t, "style") || chars_are(&t, "script") || chars_are(&t, "head")
        || chars_are(&t, "title") || chars_are(&t, "meta") || chars_are(&t, "link") {
        Display::NoBox
    } else {
        Display::Inline
    }
}

/// The `display` keyword `k` (anything unknown is `block`).
pub fn display_from_keyword(k: &str) -> (d: Display)
    ensures
        d == (if k@ == "none"@ {
            Display::NoBox
        } else if k@ == "inline"@ {
            Display::Inline
        } else if k@ == "flex"@ {
            Display::Flex
        } else if k@ == "grid"@ {
            Display::Grid
        } else {
            Display::Block
        }),
{
    let t = chars_of(k);
    if chars_are(&t, "none") {
        Display::NoBox
    } else if chars_are(&t, "inline") {
        Display::Inline
    } else if chars_are(&t, "flex") {
        Display::Flex
    } else if chars_are(&t, "grid") {
        Display::Grid
    } else {
        Display::Block
    }
}

/// The `border-style` keyword `k` (only `solid` draws).
pub fn border_style_from_keyword(k: &str) -> (s: BorderStyle)
    ensures
        s == (if k@ == "solid"@ {
            BorderStyle::Solid
        } else {
            BorderStyle::NoBorder
        }),
{
    let t = chars_of(k);
    if chars_are(&t, "solid") {
        BorderStyle::Solid
    } else {
        BorderStyle::NoBorder
    }
}

/// The `text-align` keyword `k` (anything unknown is `left`).
pub fn text_align_from_keyword(k: &str) -> (a: TextAlign)
    ensures
        a == (if k@ == "right"@ {
            TextAlign::Right
        } else if k@ == "center"@ {
            TextAlign::Center
        } else {
            TextAlign::Left
        }),
{
    let t = chars_of(k);
    if chars_are(&t, "right") {
        TextAlign::Right
    } else if chars_are(&t, "center") {
        TextAlign::Center
    } else {
        TextAlign::Left
    }
}

/// The `position` keyword `k` (anything unknown is `static`).
pub fn position_from_keyword(k: &str) -> (p: Position)
    ensures
        p == (if k@ == "relative"@ {
            Position::Relative
        } else if k@ == "absolute"@ {
            Position::Absolute
        } else if k@ == "fixed"@ {
            Position::Fixed
        } else {
            Position::Static
        }),
{
    let t = chars_of(k);
    if chars_are(&t, "relative") {
        Position::Relative
    } else if chars_are(&t, "absolute") {
        Position::Absolute
    } else if chars_are(&t, "fixed") {
        Position::Fixed
    } else {
        Position::Static
    }
}

/// The `flex-direction` keyword `k` (anything but `column` is a row).
pub fn flex_direction_from_keyword(k: &str) -> (d: FlexDirection)
    ensures
        d == (if k@ == "column"@ {
            FlexDirection::Column
        } else {
            FlexDirection::Row
        }),
{
    let t = chars_of(k);
    if chars_are(&t, "column") {
        FlexDirection::Column
    } else {
        FlexDirection::Row
    }
}

/// The `flex-wrap` keyword `k` (anything but `wrap` does not wrap).
pub fn flex_wrap_from_keyword(k: &str) -> (w: FlexWrap)
    ensures
        w == (if k@ == "wrap"@ {
            FlexWrap::Wrap
        } else {
            FlexWrap::NoWrap
        }),
{
    let t = chars_of(k);
    if chars_are(&t, "wrap") {
        FlexWrap::Wrap
    } else {
        FlexWrap::NoWrap
    }
}

/// The `justify-content` keyword `k` (anything unknown is `flex-start`).
pub fn justify_content_from_keyword(k: &str) -> (j: JustifyContent)
    ensures
        j == (if k@ == "flex-end"@ || k@ == "end"@ {
            JustifyContent::FlexEnd
        } else if k@ == "center"@ {
            JustifyContent::Center
        } else if k@ == "space-between"@ {
            JustifyContent::SpaceBetween
        } else if k@ == "space-around"@ {
            JustifyContent::SpaceAround
        } else if k@ == "space-evenly"@ {
            JustifyContent::SpaceEvenly
        } else {
            JustifyContent::FlexStart
        }),
{
    let t = chars_of(k);
    if chars_are(&t, "flex-end") || chars_are(&t, "end") {
        JustifyContent::FlexEnd
    } else if chars_are(&t, "center") {
        JustifyContent::Center
    } else if chars_are(&t, "space-between") {
        JustifyContent::SpaceBetween
    } else if chars_are(&t, "space-around") {
        JustifyContent::SpaceAround
    } else if chars_are(&t, "space-evenly") {
        JustifyContent::SpaceEvenly
    } else {
        JustifyContent::FlexStart
    }
}

/// The `align-items` keyword `k` (anything unknown is `stretch`).
pub fn align_items_from_keyword(k: &str) -> (a: AlignItems)
    ensures
        a == (if k@ == "flex-end"@ || k@ == "end"@ {
            AlignItems::FlexEnd
        } else if k@ == "center"@ {
            AlignItems::Center
        } else if k@ == "flex-start"@ || k@ == "start"@ {
            AlignItems::FlexStart
        } else {
            AlignItems::Stretch
        }),
{
    let t = chars_of(k);
    if chars_are(&t, "flex-end") || chars_are(&t, "end") {
        AlignItems::FlexEnd
    } else if chars_are(&t, "center") {
        AlignItems::Center
    } else if chars_are(&t, "flex-start") || chars_are(&t, "start") {
        AlignItems::FlexStart
    } else {
        AlignItems::Stretch
    }
}

/// A generic font family a `font-family` name stands for, whatever its
/// case: `Some` of it, or `None` where the name is no generic family.
pub open spec fn generic_family(lower: Seq<char>) -> Option<FontFamily> {
    if lower == "serif"@ {
        Some(FontFamily::Serif)
    } else if lower == "monospace"@ || lower == "mono"@ {
        Some(FontFamily::Monospace)
    } else if lower == "sans-serif"@ || lower == "sans"@ || lower == "arial"@ || lower
        == "helvetica"@ || lower == "system-ui"@ {
        Some(FontFamily::SansSerif)
    } else {
        None
    }
}

/// The font family a `font-family` name `k` names: a generic family
/// whatever the name's case, nothing for an empty name, and any other name
/// kept as written, since the font matcher compares names itself.
pub fn font_family_from_keyword(k: &str) -> (r: Option<FontFamily>)
    ensures
        k@.len() == 0 ==> r is None,
        k@.len() > 0 && generic_family(ascii_lowered(k@)) is Some ==> r == generic_family(
            ascii_lowered(k@),
        ),
        k@.len() > 0 && generic_family(ascii_lowered(k@)) is None ==> (r matches Some(
            FontFamily::Named(n),
        ) && n@ == k@),
{
    let lower = lowered_chars(k);
    if lower.len() == 0 {
        return None;
    }
    if chars_are(&lower, "serif") {
        Some(FontFamily::Serif)
    } else if chars_are(&lower, "monospace") || chars_are(&lower, "mono") {
        Some(FontFamily::Monospace)
    } else if chars_are(&lower, "sans-serif") || chars_are(&lower, "sans") || chars_are(
        &lower,
        "arial",
    ) || chars_are(&lower, "helvetica") || chars_are(&lower, "system-ui") {
        Some(FontFamily::SansSerif)
    } else {
        let name = k.to_string();
        Some(FontFamily::Named(name))
    }
}

/// The font style a `font-style` keyword `k` names, if any.
pub fn font_style_from_keyword(k: &str) -> (r: Option<FontStyle>)
    ensures
        r == (if k@ == "italic"@ || k@ == "oblique"@ {
            Some(FontStyle::Italic)
        } else if k@ == "normal"@ {
            Some(FontStyle::Normal)
        } else {
            None
        }),
{
    let t = chars_of(k);
    if chars_are(&t, "italic") || chars_are(&t, "oblique") {
        Some(FontStyle::Italic)
    } else if chars_are(&t, "normal") {
        Some(FontStyle::Normal)
    } else {
        None
    }
}


/// `sub` occurs in `s`.
pub open spec fn occurs_in(s: Seq<char>, sub: Seq<char>) -> bool {
    exists|i: int| 0 <= i && i + sub.len() <= s.len() && #[trigger] s.subrange(i, i + sub.len()) == sub
}

/// Whether `lit` occurs in `s`.
fn chars_contain(s: &Vec<char>, lit: &str) -> (r: bool)
    ensures
        r == occurs_in(s@, lit@),
{
    let sub = chars_of(lit);
    if sub.len() > s.len() {
        return false;
    }
    let last = s.len() - sub.len();
    let mut i: usize = 0;
    while i <= last
        invariant
            sub@ == lit@,
            last + sub.len() == s.len(),
            forall|j: int| 0 <= j < i ==> #[trigger] s@.subrange(j, j + sub.len()) != sub@,
        decreases last + 1 - i,
    {
        let mut k: usize = 0;
        while k < sub.len() && s[i + k] == sub[k]
            invariant
                i <= last,
                last + sub.len() == s.len(),
                k <= sub.len(),
                forall|m: int| 0 <= m < k ==> s@[i + m] == sub@[m],
            decreases sub.len() - k,
        {
            k += 1;
        }
        if k == sub.len() {
            assert(s@.subrange(i as int, i + sub.len()) =~= sub@);
            return true;
        }
        assert(s@.subrange(i as int, i + sub.len())[k as int] != sub@[k as int]);
        i += 1;
    }
    assert forall|j: int| 0 <= j && j + sub@.len() <= s@.len() implies #[trigger] s@.subrange(
        j,
        j + sub@.len(),
    ) != sub@ by {
        assert(j < i);
    }
    false
}

/// The face a font file's name declares: a `.ttf` or `.otf` file (the
/// extension in any case) is a font, bold where its lowercased stem holds
/// `bold`, italic where it holds `italic` or `oblique`; other files are
/// no fonts.
pub open spec fn font_face_of(extension: Option<Seq<char>>, stem: Seq<char>) -> Option<
    (FontWeight, FontStyle),
> {
    match extension {
        Some(e) => if ascii_lowered(e) == "ttf"@ || ascii_lowered(e) == "otf"@ {
            let lower = ascii_lowered(stem);
            Some(
                (
                    if occurs_in(lower, "bold"@) {
                        FontWeight::Bold
                    } else {
                        FontWeight::Normal
                    },
                    if occurs_in(lower, "italic"@) || occurs_in(lower, "oblique"@) {
                        FontStyle::Italic
                    } else {
                        FontStyle::Normal
                    },
                ),
            )
        } else {
            None
        },
        None => None,
    }
}

/// The face of a font file with extension `extension` and stem `stem`, or
/// `None` for a file that is no font.
pub fn font_file_face(extension: Option<&str>, stem: &str) -> (r: Option<(FontWeight, FontStyle)>)
    ensures
        r == font_face_of(
            match extension {
                Some(e) => Some(e@),
                None => None,
            },
            stem@,
        ),
{
    let e = match extension {
        Some(e) => e,
        None => return None,
    };
    let le = lowered_chars(e);
    if !(chars_are(&le, "ttf") || chars_are(&le, "otf")) {
        return None;
    }
    let lower = lowered_chars(stem);
    let weight = if chars_contain(&lower, "bold") {
        FontWeight::Bold
    } else {
        FontWeight::Normal
    };
    let style = if chars_contain(&lower, "italic") || chars_contain(&lower, "oblique") {
        FontStyle::Italic
    } else {
        FontStyle::Normal
    };
    Some((weight, style))
}

} // verus!

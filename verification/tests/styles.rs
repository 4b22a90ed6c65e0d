use placard::property::{classify_property, Property};
use placard::style::{font_family_from_keyword, font_file_face, font_style_from_keyword, FontFamily, FontStyle, FontWeight};
use placard::html::parse;
use placard::render::extract_styles;
use placard::style::{
    align_items_from_keyword, border_style_from_keyword, default_display, display_from_keyword,
    flex_direction_from_keyword, flex_wrap_from_keyword, justify_content_from_keyword,
    position_from_keyword, text_align_from_keyword, AlignItems, BorderStyle, Display,
    FlexDirection, FlexWrap, JustifyContent, Position, Side, TextAlign,
};

#[test]
fn style_sheets_are_collected_in_document_order() {
    let dom = parse("<style>a{}</style><div><style>b{}</style></div><style></style>");
    assert_eq!(extract_styles(&dom), "a{}\nb{}\n");
}

#[test]
fn documents_without_style_have_no_css() {
    let dom = parse("<p>style</p>");
    assert_eq!(extract_styles(&dom), "");
}

#[test]
fn keywords_map_to_values() {
    assert_eq!(display_from_keyword("flex"), Display::Flex);
    assert_eq!(display_from_keyword("none"), Display::NoBox);
    assert_eq!(display_from_keyword("table"), Display::Block);
    assert_eq!(border_style_from_keyword("solid"), BorderStyle::Solid);
    assert_eq!(border_style_from_keyword("dashed"), BorderStyle::NoBorder);
    assert_eq!(text_align_from_keyword("center"), TextAlign::Center);
    assert_eq!(text_align_from_keyword("justify"), TextAlign::Left);
    assert_eq!(position_from_keyword("fixed"), Position::Fixed);
    assert_eq!(flex_direction_from_keyword("column"), FlexDirection::Column);
    assert_eq!(flex_wrap_from_keyword("wrap"), FlexWrap::Wrap);
    assert_eq!(justify_content_from_keyword("end"), JustifyContent::FlexEnd);
    assert_eq!(justify_content_from_keyword("space-evenly"), JustifyContent::SpaceEvenly);
    assert_eq!(align_items_from_keyword("start"), AlignItems::FlexStart);
    assert_eq!(align_items_from_keyword("baseline"), AlignItems::Stretch);
}

#[test]
fn default_display_by_tag() {
    assert_eq!(default_display("div"), Display::Block);
    assert_eq!(default_display("caption"), Display::Block);
    assert_eq!(default_display("style"), Display::NoBox);
    assert_eq!(default_display("span"), Display::Inline);
}

#[test]
fn sides_index_per_side_arrays() {
    assert_eq!(Side::Top.index(), 0);
    assert_eq!(Side::Right.index(), 1);
    assert_eq!(Side::Bottom.index(), 2);
    assert_eq!(Side::Left.index(), 3);
}

#[test]
fn font_family_names_keep_their_case_but_generics_do_not_care() {
    assert_eq!(font_family_from_keyword("Serif"), Some(FontFamily::Serif));
    assert_eq!(font_family_from_keyword("MONO"), Some(FontFamily::Monospace));
    assert_eq!(font_family_from_keyword("monospace"), Some(FontFamily::Monospace));
    assert_eq!(font_family_from_keyword("Helvetica"), Some(FontFamily::SansSerif));
    assert_eq!(font_family_from_keyword("system-ui"), Some(FontFamily::SansSerif));
    assert_eq!(
        font_family_from_keyword("Geist Mono"),
        Some(FontFamily::Named("Geist Mono".to_string()))
    );
    assert_eq!(font_family_from_keyword(""), None);
}

#[test]
fn font_style_keywords() {
    assert_eq!(font_style_from_keyword("italic"), Some(FontStyle::Italic));
    assert_eq!(font_style_from_keyword("oblique"), Some(FontStyle::Italic));
    assert_eq!(font_style_from_keyword("normal"), Some(FontStyle::Normal));
    assert_eq!(font_style_from_keyword("Italic"), None);
}

#[test]
fn property_names_used_by_the_lint_scenarios() {
    assert_eq!(classify_property("color"), Some(Property::Color));
    assert_eq!(classify_property("margin"), Some(Property::Margin));
    assert_eq!(classify_property("letter-spacing"), Some(Property::LetterSpacing));
    assert_eq!(classify_property("text-decoration"), None);
    assert_eq!(classify_property("cursor"), None);
}

#[test]
fn per_side_properties_name_their_side() {
    assert_eq!(classify_property("margin-left"), Some(Property::MarginSide(Side::Left)));
    assert_eq!(classify_property("padding-bottom"), Some(Property::PaddingSide(Side::Bottom)));
    assert_eq!(classify_property("top"), Some(Property::Inset(Side::Top)));
    assert_eq!(classify_property("right"), Some(Property::Inset(Side::Right)));
    assert_eq!(classify_property("border-top-width"), Some(Property::BorderSideWidth(Side::Top)));
    assert_eq!(classify_property("border-right-color"), Some(Property::BorderSideColor(Side::Right)));
    assert_eq!(classify_property("border-left-style"), Some(Property::BorderSideStyle(Side::Left)));
}

#[test]
fn border_shorthands_and_radius() {
    assert_eq!(classify_property("border"), Some(Property::Border));
    assert_eq!(classify_property("border-width"), Some(Property::BorderWidth));
    assert_eq!(classify_property("border-style"), Some(Property::BorderStyle));
    assert_eq!(classify_property("border-radius"), Some(Property::BorderRadius));
    assert_eq!(classify_property("grid-template-rows"), Some(Property::GridTemplateRows));
    assert_eq!(classify_property("z-index"), Some(Property::ZIndex));
    assert_eq!(classify_property("align-self"), Some(Property::AlignSelf));
}

#[test]
fn malformed_property_names_are_not_understood() {
    assert_eq!(classify_property("margin-middle"), None);
    assert_eq!(classify_property("margin-"), None);
    assert_eq!(classify_property("padding-top-left"), None);
    assert_eq!(classify_property("border-top-radius"), None);
    assert_eq!(classify_property("border-top-"), None);
    assert_eq!(classify_property("border-"), None);
    assert_eq!(classify_property("Margin"), None);
    assert_eq!(classify_property(""), None);
}

#[test]
fn font_files_are_recognised_by_extension_in_any_case() {
    assert_eq!(font_file_face(Some("ttf"), "Inter"), Some((FontWeight::Normal, FontStyle::Normal)));
    assert_eq!(font_file_face(Some("OTF"), "inter"), Some((FontWeight::Normal, FontStyle::Normal)));
    assert_eq!(font_file_face(Some("woff"), "Inter-Bold"), None);
    assert_eq!(font_file_face(None, "Inter-Bold"), None);
    assert_eq!(font_file_face(Some(""), "x"), None);
}

#[test]
fn font_face_comes_from_the_file_stem() {
    assert_eq!(font_file_face(Some("ttf"), "Inter-BOLD"), Some((FontWeight::Bold, FontStyle::Normal)));
    assert_eq!(font_file_face(Some("ttf"), "Inter-Italic"), Some((FontWeight::Normal, FontStyle::Italic)));
    assert_eq!(font_file_face(Some("ttf"), "SerifBoldOblique"), Some((FontWeight::Bold, FontStyle::Italic)));
    assert_eq!(font_file_face(Some("ttf"), "bol"), Some((FontWeight::Normal, FontStyle::Normal)));
    assert_eq!(font_file_face(Some("ttf"), ""), Some((FontWeight::Normal, FontStyle::Normal)));
}

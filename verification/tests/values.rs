use phosphor_ui::halogen::event::Modifiers;
use phosphor_ui::halogen::paint::LayerState;
use phosphor_ui::halogen::geometry::{Axes, Corners as HCorners, Edges as HEdges, Point};
use phosphor_ui::halogen::style::{
    AlignContent, AlignItems, AlignSelf, FlexDirection as HFlexDirection, FlexWrap, FontWeight as HFontWeight,
    GridAutoFlow, GridPlacement, JustifyContent, LayoutDirection, Overflow as HOverflow, RepeatCount,
    TextAlignment,
};
use phosphor_ui::halogen::widget::{keys_equal, WidgetKey};
use phosphor_ui::ids::{WidgetId, NULL_WIDGET_ID_RAW};
use phosphor_ui::phosphor::color::{parse_hex_color, HexColor};
use phosphor_ui::phosphor::platform::{AppConfig, GpuBackend};
use phosphor_ui::phosphor::style::{
    Align, Corners, Display, Edges, FlexDirection, FontWeight, Justify, Overflow, TextAlign,
};

#[test]
fn halogen_axes_constructors() {
    let a = Axes::new(1u32, 2u32);
    assert_eq!(a.horizontal, 1);
    assert_eq!(a.vertical, 2);
    let b = Axes::both(7u32);
    assert_eq!((b.horizontal, b.vertical), (7, 7));
    let d: Axes<u32> = Axes::default();
    assert_eq!((d.horizontal, d.vertical), (0, 0));
}

#[test]
fn halogen_corners_and_edges_constructors() {
    let c = HCorners::new(1u8, 2u8, 3u8, 4u8);
    assert_eq!((c.top_left, c.top_right, c.bottom_left, c.bottom_right), (1, 2, 3, 4));
    let c = HCorners::all(9u8);
    assert_eq!((c.top_left, c.top_right, c.bottom_left, c.bottom_right), (9, 9, 9, 9));
    let e = HEdges::new(1u8, 2u8, 3u8, 4u8);
    assert_eq!((e.top, e.bottom, e.left, e.right), (1, 2, 3, 4));
    let e = HEdges::all(5u8);
    assert_eq!((e.top, e.bottom, e.left, e.right), (5, 5, 5, 5));
    let e = HEdges::hv(3u8, 8u8);
    assert_eq!((e.top, e.bottom, e.left, e.right), (8, 8, 3, 3));
    let p = Point::new(4i32, -2i32);
    assert_eq!((p.x, p.y), (4, -2));
    let q = Point::both(6i32);
    assert_eq!((q.x, q.y), (6, 6));
}

#[test]
fn halogen_style_defaults() {
    assert!(HFlexDirection::default() == HFlexDirection::Row);
    assert!(JustifyContent::default() == JustifyContent::FlexStart);
    assert!(AlignItems::default() == AlignItems::Stretch);
    assert!(AlignSelf::default() == AlignSelf::Start);
    assert!(AlignContent::default() == AlignContent::Stretch);
    assert!(FlexWrap::default() == FlexWrap::NoWrap);
    assert!(GridAutoFlow::default() == GridAutoFlow::Row);
    assert!(RepeatCount::default() == RepeatCount::AutoFill);
    assert!(HOverflow::default() == HOverflow::Visible);
    assert!(HFontWeight::default() == HFontWeight::Regular);
    assert!(TextAlignment::default() == TextAlignment::Start);
    assert!(GridPlacement::default() == GridPlacement::Auto);
    assert!(LayoutDirection::default() == LayoutDirection::LeftToRight);
    assert!(!HOverflow::Visible.clips());
    assert!(HOverflow::Hidden.clips());
    assert!(HOverflow::Scroll.clips());
}

#[test]
fn modifiers_default_to_none_held() {
    let m = Modifiers::default();
    assert!(!m.shift && !m.ctrl && !m.alt && !m.meta);
}

#[test]
fn widget_keys_compare_by_content() {
    assert!(keys_equal(&WidgetKey::Int(3), &WidgetKey::Int(3)));
    assert!(!keys_equal(&WidgetKey::Int(3), &WidgetKey::Int(4)));
    assert!(keys_equal(&WidgetKey::Str("a"), &WidgetKey::Str("a")));
    assert!(!keys_equal(&WidgetKey::Str("a"), &WidgetKey::Int(0)));
    assert!(WidgetKey::from(5u64) == WidgetKey::Int(5));
    assert!(WidgetKey::from("row") == WidgetKey::Str("row"));
}

#[test]
fn widget_id_null_handle() {
    let n = WidgetId::null();
    assert_eq!(n.raw, NULL_WIDGET_ID_RAW);
    assert!(n.is_null());
    assert_eq!(WidgetId::default(), n);
    assert!(!WidgetId::from_raw(0x0000_0001_0000_0000).is_null());
}

#[test]
fn phosphor_edges_constructors() {
    let e = Edges::all(4u16);
    assert_eq!(e, Edges { top: 4, right: 4, bottom: 4, left: 4 });
    let e = Edges::xy(1u16, 2u16);
    assert_eq!(e, Edges { top: 2, right: 1, bottom: 2, left: 1 });
    let e = Edges::sides(1u16, 2, 3, 4);
    assert_eq!(e, Edges { top: 1, right: 2, bottom: 3, left: 4 });
    let e = Edges::all(0u16).with_top(1).with_bottom(2).with_left(3).with_right(4);
    assert_eq!(e, Edges { top: 1, right: 4, bottom: 2, left: 3 });
    let d: Edges<u16> = Edges::default();
    assert_eq!(d, Edges { top: 0, right: 0, bottom: 0, left: 0 });
}

#[test]
fn phosphor_corners_constructors() {
    let c = Corners::individual(1u8, 2, 3, 4);
    assert_eq!(c, Corners { top_left: 1, top_right: 2, bottom_left: 3, bottom_right: 4 });
    let c = Corners::all(2u8).with_top(5);
    assert_eq!(c, Corners { top_left: 5, top_right: 5, bottom_left: 2, bottom_right: 2 });
    let c = Corners::all(2u8).with_bottom(5);
    assert_eq!(c, Corners { top_left: 2, top_right: 2, bottom_left: 5, bottom_right: 5 });
    let c = Corners::all(2u8).with_left(5);
    assert_eq!(c, Corners { top_left: 5, top_right: 2, bottom_left: 5, bottom_right: 2 });
    let c = Corners::all(2u8).with_right(5);
    assert_eq!(c, Corners { top_left: 2, top_right: 5, bottom_left: 2, bottom_right: 5 });
}

#[test]
fn phosphor_corners_from_sides_ignore_receiver() {
    let c = Corners::from_top(7u8);
    assert_eq!(c, Corners { top_left: 7, top_right: 7, bottom_left: 0, bottom_right: 0 });
    let base = Corners::all(9u8);
    assert_eq!(base.from_bottom(7), Corners { top_left: 0, top_right: 0, bottom_left: 7, bottom_right: 7 });
    assert_eq!(base.from_left(7), Corners { top_left: 7, top_right: 0, bottom_left: 7, bottom_right: 0 });
    assert_eq!(base.from_right(7), Corners { top_left: 0, top_right: 7, bottom_left: 0, bottom_right: 7 });
}

#[test]
fn phosphor_style_defaults() {
    assert_eq!(
        Display::default(),
        Display::Flex { direction: FlexDirection::Row, align_items: Align::Stretch, justify_content: Justify::Start }
    );
    assert_eq!(Overflow::default(), Overflow::Visible);
    assert_eq!(FontWeight::default(), FontWeight::Regular);
    assert_eq!(TextAlign::default(), TextAlign::Start);
    assert!(!Overflow::Visible.clips());
    assert!(Overflow::Scroll.clips());
}

#[test]
fn hex_colors_six_and_eight_digits() {
    assert_eq!(parse_hex_color(b"#ff8000"), HexColor::Rgb(255, 128, 0));
    assert_eq!(parse_hex_color(b"FF8000"), HexColor::Rgb(255, 128, 0));
    assert_eq!(parse_hex_color(b"##0a0B0c"), HexColor::Rgb(10, 11, 12));
    assert_eq!(parse_hex_color(b"#11223344"), HexColor::Rgba(0x11, 0x22, 0x33, 0x44));
}

#[test]
fn hex_colors_other_lengths_and_malformed() {
    assert_eq!(parse_hex_color(b"#fff"), HexColor::Malformed);
    assert_eq!(parse_hex_color(b""), HexColor::Malformed);
    assert_eq!(parse_hex_color(b"#"), HexColor::Malformed);
    assert_eq!(parse_hex_color(b"#gg0000"), HexColor::Malformed);
    assert_eq!(parse_hex_color(b"#1122334z"), HexColor::Malformed);
    assert_eq!(parse_hex_color("ééé".as_bytes()), HexColor::Malformed);
    // A sign is no hex digit.
    assert_eq!(parse_hex_color(b"+f0000"), HexColor::Malformed);
}

#[test]
fn app_config_defaults() {
    let c = AppConfig::default();
    assert_eq!(c.title, "Phosphor");
    assert_eq!(c.size, (1280, 720));
    assert_eq!(c.fps, 60);
    assert!(c.resizable);
    assert!(c.backend.is_none());
    assert_eq!(GpuBackend::best_for_platform(), GpuBackend::Raster);
}

#[test]
fn layer_state_push_pop_restores() {
    let mut s = LayerState::new(10u32);
    assert_eq!(*s.current(), 10);
    s.push(20);
    s.push(30);
    assert_eq!((*s.current(), s.depth()), (30, 2));
    s.pop();
    assert_eq!((*s.current(), s.depth()), (20, 1));
    s.pop();
    assert_eq!((*s.current(), s.depth()), (10, 0));
    // An unmatched pop changes nothing.
    s.pop();
    assert_eq!((*s.current(), s.depth()), (10, 0));
    s.push(40);
    s.reset(5);
    assert_eq!((*s.current(), s.depth()), (5, 0));
}

use i3bar_river::bar::{compute_tag_label, Bar, ClickTarget, DrawOp, LayerSetup};
use i3bar_river::button_manager::ButtonManager;
use i3bar_river::color::{Color, ColorPair};
use i3bar_river::config::{Config, Position};
use i3bar_river::i3bar_protocol::{clone_name, same_name, Block, ComputedBlock};
use i3bar_river::text::{Align, Attributes, ComputedText, RenderOptions};
use i3bar_river::wm_info_provider::Tag;

const BLACK: Color = Color { red: 0, green: 0, blue: 0, alpha: 255 };
const WHITE: Color = Color { red: 255, green: 255, blue: 255, alpha: 255 };
const GREY: Color = Color { red: 128, green: 128, blue: 128, alpha: 255 };
const RED: Color = Color { red: 255, green: 0, blue: 0, alpha: 255 };
const BLUE: Color = Color { red: 0, green: 0, blue: 255, alpha: 255 };
const GREEN: Color = Color { red: 0, green: 255, blue: 0, alpha: 255 };

fn settings() -> Config {
    Config {
        background: BLACK,
        color: WHITE,
        separator: GREY,
        tag_fg: WHITE,
        tag_bg: GREY,
        tag_focused_fg: BLACK,
        tag_focused_bg: BLUE,
        tag_urgent_fg: WHITE,
        tag_urgent_bg: RED,
        tag_inactive_fg: GREEN,
        tag_inactive_bg: BLACK,
        hide_inactive_tags: true,
        show_layout_name: true,
        blend: true,
        height: 24,
        margin_top: 3,
        margin_bottom: 5,
        margin_left: 7,
        margin_right: 9,
        separator_width: 2,
        tags_r: 6,
        tags_padding: 10,
        blocks_r: 4,
        blocks_overlap: 0,
        position: Position::Top,
    }
}

fn tag(name: &str, text_width: u32, focused: bool, active: bool, urgent: bool) -> Tag {
    Tag {
        name: name.to_string(),
        text_width,
        is_focused: focused,
        is_active: active,
        is_urgent: urgent,
    }
}

fn plain(width: u32) -> ComputedText {
    ComputedText {
        text: "t".to_string(),
        attr: Attributes {
            padding_left: 0,
            padding_right: 0,
            min_width: None,
            align: Align::Left,
            markup: false,
        },
        width,
    }
}

fn status(name: &str, full: u32) -> ComputedBlock {
    ComputedBlock {
        block: Block {
            name: Some(name.to_string()),
            instance: None,
            full_text: "t".to_string(),
            short_text: None,
            color: None,
            background: None,
            separator: true,
            separator_block_width: 0,
        },
        full: plain(full),
        short: None,
    }
}

fn mapped_bar(width: u32) -> Bar {
    let mut bar = Bar::new(width, 24, 1);
    bar.mapped = true;
    bar
}

fn tag_drawn(x: i128, pair: ColorPair, r_left: u32, r_right: u32) -> RenderOptions {
    RenderOptions {
        x_offset: x,
        bar_height: 24,
        fg_color: pair.fg,
        bg_color: Some(pair.bg),
        r_left,
        r_right,
        overlap: 0,
    }
}

fn pairs(bar: &Bar) -> Vec<ColorPair> {
    bar.tags_computed.iter().map(|l| l.0).collect()
}

fn tag_regions(bar: &Bar) -> Vec<(i128, u32, String)> {
    bar.tags_btns.buttons.iter().map(|b| (b.x, b.width, b.elem.clone())).collect()
}

const ACTIVE: ColorPair = ColorPair { bg: GREY, fg: WHITE };
const FOCUSED: ColorPair = ColorPair { bg: BLUE, fg: BLACK };
const URGENT: ColorPair = ColorPair { bg: RED, fg: WHITE };
const INACTIVE: ColorPair = ColorPair { bg: BLACK, fg: GREEN };

#[test]
fn a_tag_label_is_padded_on_both_sides() {
    let label = compute_tag_label("web", 31, &settings());
    assert_eq!(label.text, "web");
    assert_eq!(label.width, 51);
    assert_eq!(
        label.attr,
        Attributes {
            padding_left: 10,
            padding_right: 10,
            min_width: None,
            align: Align::Left,
            markup: false,
        }
    );
}

#[test]
fn a_text_is_at_least_its_minimal_width() {
    let attr = Attributes {
        padding_left: 1,
        padding_right: 2,
        min_width: Some(50),
        align: Align::Center,
        markup: true,
    };
    assert_eq!(ComputedText::new("x".to_string(), 10, attr).width, 50);
    assert_eq!(ComputedText::new("x".to_string(), 47, attr).width, 50);
    assert_eq!(ComputedText::new("x".to_string(), 48, attr).width, 51);
    let kept = ComputedText::new("kept".to_string(), 48, attr);
    assert_eq!(kept.text, "kept");
    assert_eq!(kept.attr, attr);
}

#[test]
fn a_text_is_no_wider_than_the_widest() {
    let attr = Attributes {
        padding_left: 10,
        padding_right: 10,
        min_width: None,
        align: Align::Left,
        markup: false,
    };
    assert_eq!(ComputedText::new("x".to_string(), u32::MAX - 5, attr).width, u32::MAX);
    assert_eq!(ComputedText::new("x".to_string(), u32::MAX - 20, attr).width, u32::MAX);
    assert_eq!(ComputedText::new("x".to_string(), u32::MAX - 21, attr).width, u32::MAX - 1);
}

#[test]
fn names_compare_by_what_they_hold() {
    let a = Some("a".to_string());
    let b = Some("b".to_string());
    assert!(same_name(&a, &Some("a".to_string())));
    assert!(!same_name(&a, &b));
    assert!(!same_name(&a, &None));
    assert!(!same_name(&None, &b));
    assert!(same_name(&None, &None));
    assert_eq!(clone_name(&a), a);
    assert_eq!(clone_name(&None), None);
}

#[test]
fn a_block_is_as_wide_as_the_text_that_is_shown() {
    let mut b = status("a", 30);
    assert_eq!((b.width_as(false), b.width_as(true), b.saving()), (30, 30, 0));
    b.short = Some(plain(12));
    assert_eq!((b.width_as(false), b.width_as(true), b.saving()), (30, 12, 18));
    b.short = Some(plain(31));
    assert_eq!((b.width_as(false), b.width_as(true), b.saving()), (30, 31, 0));
}

#[test]
fn new_tags_drop_the_old_labels() {
    let mut bar = mapped_bar(500);
    bar.set_tags(vec![tag("1", 10, true, true, false)]);
    bar.frame(&settings(), &Vec::new(), 0);
    assert_eq!(bar.tags_computed.len(), 1);
    assert_eq!(bar.tags_btns.buttons.len(), 1);
    bar.set_tags(vec![tag("1", 10, false, true, false), tag("2", 10, true, false, false)]);
    assert!(bar.tags_computed.is_empty());
    assert!(bar.tags_btns.buttons.is_empty());
    assert_eq!(bar.tags.len(), 2);
    assert_eq!(bar.tags[1].name, "2");
    assert!(bar.mapped);
    assert_eq!((bar.width, bar.height), (500, 24));
}

#[test]
fn a_new_layout_name_drops_the_old_label() {
    let mut bar = mapped_bar(500);
    bar.set_layout_name(Some("tile".to_string()));
    bar.frame(&settings(), &Vec::new(), 40);
    assert_eq!(bar.layout_name_computed.as_ref().map(|t| t.width), Some(90));
    bar.set_layout_name(Some("monocle".to_string()));
    assert_eq!(bar.layout_name, Some("monocle".to_string()));
    assert!(bar.layout_name_computed.is_none());
    bar.set_layout_name(None);
    assert_eq!(bar.layout_name, None);
}

#[test]
fn tags_take_the_colors_of_their_state() {
    let mut bar = mapped_bar(500);
    bar.set_tags(vec![
        tag("1", 10, false, true, false),
        tag("2", 10, true, true, false),
        tag("3", 10, true, true, true),
        tag("4", 10, false, false, false),
        tag("5", 10, false, false, true),
        tag("6", 10, true, false, false),
    ]);
    bar.frame(&settings(), &Vec::new(), 0);
    assert_eq!(pairs(&bar), vec![ACTIVE, FOCUSED, URGENT, URGENT, FOCUSED]);
    let names: Vec<&str> = bar.tags_computed.iter().map(|l| l.1.text.as_str()).collect();
    assert_eq!(names, vec!["1", "2", "3", "5", "6"]);

    let mut all = settings();
    all.hide_inactive_tags = false;
    bar.set_tags(vec![tag("4", 10, false, false, false), tag("1", 10, false, true, false)]);
    bar.frame(&all, &Vec::new(), 0);
    assert_eq!(pairs(&bar), vec![INACTIVE, ACTIVE]);
}

#[test]
fn tags_stand_side_by_side_from_the_left() {
    let mut bar = mapped_bar(500);
    bar.set_tags(vec![
        tag("one", 10, false, true, false),
        tag("hidden", 99, false, false, false),
        tag("two", 15, false, true, false),
        tag("three", 5, true, true, false),
    ]);
    let frame = bar.frame(&settings(), &Vec::new(), 0);
    assert_eq!(
        tag_regions(&bar),
        vec![
            (0, 30, "one".to_string()),
            (30, 35, "two".to_string()),
            (65, 25, "three".to_string()),
        ]
    );
    // Neighbours of the same colors are drawn as one shape.
    assert_eq!(
        frame.tags,
        vec![
            tag_drawn(0, ACTIVE, 6, 0),
            tag_drawn(30, ACTIVE, 0, 6),
            tag_drawn(65, FOCUSED, 6, 6),
        ]
    );
}

#[test]
fn tags_are_grouped_by_colors_not_by_name() {
    let mut bar = mapped_bar(500);
    bar.set_tags(vec![
        tag("a", 10, true, true, false),
        tag("a", 10, false, true, false),
        tag("b", 10, false, true, false),
        tag("c", 10, false, true, false),
        tag("c", 10, false, true, true),
    ]);
    let frame = bar.frame(&settings(), &Vec::new(), 0);
    assert_eq!(
        frame.tags,
        vec![
            tag_drawn(0, FOCUSED, 6, 6),
            tag_drawn(30, ACTIVE, 6, 0),
            tag_drawn(60, ACTIVE, 0, 0),
            tag_drawn(90, ACTIVE, 0, 6),
            tag_drawn(120, URGENT, 6, 6),
        ]
    );
}

#[test]
fn labels_are_kept_until_the_tags_change() {
    let mut bar = mapped_bar(500);
    bar.set_tags(vec![tag("1", 10, false, true, false)]);
    bar.frame(&settings(), &Vec::new(), 0);
    let mut other = settings();
    other.tags_padding = 0;
    other.hide_inactive_tags = false;
    bar.tags.push(tag("2", 10, false, false, false));
    let frame = bar.frame(&other, &Vec::new(), 0);
    assert_eq!(frame.tags, vec![tag_drawn(0, ACTIVE, 6, 6)]);
    assert_eq!(tag_regions(&bar), vec![(0, 30, "1".to_string())]);
}

#[test]
fn the_layout_name_stands_behind_the_tags() {
    let mut bar = mapped_bar(500);
    bar.set_tags(vec![tag("1", 10, false, true, false), tag("2", 20, false, true, false)]);
    bar.set_layout_name(Some("tile".to_string()));
    let frame = bar.frame(&settings(), &vec![status("clock", 100)], 40);
    assert_eq!(
        frame.layout_name,
        Some(RenderOptions {
            x_offset: 70,
            bar_height: 24,
            fg_color: GREEN,
            bg_color: None,
            r_left: 0,
            r_right: 0,
            overlap: 0,
        })
    );
    let label = bar.layout_name_computed.as_ref().unwrap();
    assert_eq!((label.text.as_str(), label.width), ("tile", 90));
    assert_eq!(label.attr.padding_left, 25);
    assert_eq!(label.attr.padding_right, 25);
    assert_eq!(label.attr.min_width, None);
    assert!(!label.attr.markup);
    // The label is kept: another width is not looked at.
    bar.frame(&settings(), &Vec::new(), 1);
    assert_eq!(bar.layout_name_computed.as_ref().map(|t| t.width), Some(90));
}

#[test]
fn the_layout_name_may_be_switched_off() {
    let mut bar = mapped_bar(500);
    bar.set_layout_name(Some("tile".to_string()));
    let mut without = settings();
    without.show_layout_name = false;
    let frame = bar.frame(&without, &Vec::new(), 40);
    assert_eq!(frame.layout_name, None);
    assert!(bar.layout_name_computed.is_none());
    let mut bar = mapped_bar(500);
    let frame = bar.frame(&settings(), &Vec::new(), 40);
    assert_eq!(frame.layout_name, None);
}

#[test]
fn blocks_are_shortened_for_what_stands_left_of_them() {
    let mut wide = status("net", 300);
    wide.short = Some(plain(100));
    let blocks = vec![wide, status("clock", 100)];
    // 60 of tags and 90 of layout name leave 350 for blocks of 400.
    let mut bar = mapped_bar(500);
    bar.set_tags(vec![tag("1", 10, false, true, false), tag("2", 10, false, true, false)]);
    bar.set_layout_name(Some("tile".to_string()));
    let frame = bar.frame(&settings(), &blocks, 40);
    assert_eq!(
        frame.blocks,
        vec![
            DrawOp::Block {
                index: 0,
                short: true,
                width: 100,
                options: RenderOptions {
                    x_offset: 300,
                    bar_height: 24,
                    fg_color: WHITE,
                    bg_color: None,
                    r_left: 4,
                    r_right: 4,
                    overlap: 0,
                },
            },
            DrawOp::Block {
                index: 1,
                short: false,
                width: 100,
                options: RenderOptions {
                    x_offset: 400,
                    bar_height: 24,
                    fg_color: WHITE,
                    bg_color: None,
                    r_left: 4,
                    r_right: 4,
                    overlap: 0,
                },
            },
        ]
    );
    // Without the layout name they fit.
    let mut bar = mapped_bar(500);
    bar.set_tags(vec![tag("1", 10, false, true, false), tag("2", 10, false, true, false)]);
    let frame = bar.frame(&settings(), &blocks, 40);
    match frame.blocks[0] {
        DrawOp::Block { short, width, options, .. } => {
            assert_eq!((short, width, options.x_offset), (false, 300, 100))
        }
        DrawOp::Separator { .. } => panic!("a block comes first"),
    }
}

#[test]
fn the_buffer_has_the_size_of_the_scaled_bar() {
    let mut bar = mapped_bar(1001);
    bar.scale = 2;
    let frame = bar.frame(&settings(), &Vec::new(), 0);
    assert_eq!((frame.pix_width, frame.pix_height, frame.scale120), (2002, 48, 240));
    bar.scale120 = Some(150);
    let frame = bar.frame(&settings(), &Vec::new(), 0);
    // 1251.25 and 30 pixels.
    assert_eq!((frame.pix_width, frame.pix_height, frame.scale120), (1251, 30, 150));
    bar.scale120 = Some(100);
    bar.width = 3;
    bar.height = 9;
    let frame = bar.frame(&settings(), &Vec::new(), 0);
    // 2.5 and 7.5 pixels, halves up.
    assert_eq!((frame.pix_width, frame.pix_height), (3, 8));
    bar.scale120 = Some(u32::MAX);
    bar.width = u32::MAX;
    let frame = bar.frame(&settings(), &Vec::new(), 0);
    assert_eq!(frame.pix_width, 153722867209330142);
}

#[test]
fn a_click_goes_to_a_tag_before_a_block() {
    let mut bar = mapped_bar(100);
    bar.set_tags(vec![tag("1", 10, false, true, false)]);
    let blocks = vec![status("wide", 90), status("clock", 5)];
    bar.frame(&settings(), &blocks, 0);
    // The tag covers 0 to 30, the blocks 5 to 95 and 95 to 100.
    assert!(matches!(bar.click(10), ClickTarget::Tag(name) if name == "1"));
    assert!(matches!(bar.click(29), ClickTarget::Tag(name) if name == "1"));
    let wide = (Some("wide".to_string()), None);
    let clock = (Some("clock".to_string()), None);
    assert!(matches!(bar.click(30), ClickTarget::Block(id) if *id == wide));
    assert!(matches!(bar.click(94), ClickTarget::Block(id) if *id == wide));
    assert!(matches!(bar.click(95), ClickTarget::Block(id) if *id == clock));
    assert!(matches!(bar.click(99), ClickTarget::Block(id) if *id == clock));
    assert!(matches!(bar.click(100), ClickTarget::Nothing));
    assert!(matches!(bar.click(-1), ClickTarget::Nothing));
}

#[test]
fn a_click_beside_everything_hits_nothing() {
    let mut bar = mapped_bar(100);
    bar.frame(&settings(), &vec![status("clock", 20)], 0);
    assert!(matches!(bar.click(79), ClickTarget::Nothing));
    assert!(matches!(bar.click(80), ClickTarget::Block(_)));
    assert!(matches!(bar.click(i128::MAX), ClickTarget::Nothing));
    assert!(matches!(bar.click(i128::MIN), ClickTarget::Nothing));
}

#[test]
fn a_frame_is_asked_for_once() {
    let mut bar = Bar::new(100, 24, 1);
    assert!(!bar.request_frame());
    assert!(!bar.frame_pending);
    bar.mapped = true;
    assert!(bar.request_frame());
    assert!(bar.frame_pending);
    assert!(!bar.request_frame());
    assert!(bar.frame_pending);
    bar.frame_pending = false;
    bar.hidden = true;
    assert!(!bar.request_frame());
    assert!(!bar.frame_pending);
}

#[test]
fn showing_reserves_the_height_and_the_inner_margin() {
    let mut bar = Bar::new(100, 24, 1);
    bar.hidden = true;
    let setup = bar.show(&settings());
    assert!(!bar.hidden);
    assert!(!bar.mapped);
    assert_eq!(
        setup,
        LayerSetup {
            height: 24,
            position: Position::Top,
            margin_top: 3,
            margin_right: 9,
            margin_bottom: 5,
            margin_left: 7,
            exclusive_zone: 29,
        }
    );
    let mut below = settings();
    below.position = Position::Bottom;
    below.margin_top = -30;
    below.height = u32::MAX;
    let setup = bar.show(&below);
    assert_eq!(setup.exclusive_zone, 4294967265);
    assert_eq!(setup.position, Position::Bottom);
}

#[test]
fn hiding_takes_the_bar_off_the_screen() {
    let mut bar = mapped_bar(100);
    bar.set_tags(vec![tag("1", 10, false, true, false)]);
    bar.hide_bar();
    assert!(bar.hidden);
    assert!(!bar.mapped);
    assert_eq!(bar.tags.len(), 1);
    assert_eq!(bar.width, 100);
}

#[test]
fn the_first_button_that_covers_a_place_is_hit() {
    let mut buttons = ButtonManager::new();
    buttons.push(10, 20, "a");
    buttons.push(25, 20, "b");
    buttons.push(50, 0, "empty");
    buttons.push(i128::MAX - 1, 5, "far");
    assert_eq!(buttons.click(9), None);
    assert_eq!(buttons.click(10), Some(&"a"));
    assert_eq!(buttons.click(27), Some(&"a"));
    assert_eq!(buttons.click(30), Some(&"b"));
    assert_eq!(buttons.click(44), Some(&"b"));
    assert_eq!(buttons.click(45), None);
    assert_eq!(buttons.click(50), None);
    assert_eq!(buttons.click(i128::MAX), Some(&"far"));
    assert_eq!(buttons.click(i128::MIN), None);
    buttons.clear();
    assert_eq!(buttons.click(10), None);
    assert!(buttons.buttons.is_empty());
}

#[test]
fn colors_are_made_of_four_channels() {
    assert_eq!(Color::new(1, 2, 3, 4), Color { red: 1, green: 2, blue: 3, alpha: 4 });
    assert_ne!(ColorPair { bg: RED, fg: BLUE }, ColorPair { bg: BLUE, fg: RED });
}

#[test]
fn a_color_is_read_from_hexadecimal_digits() {
    assert_eq!(Color::from_hex(b"#ff8000"), Some(Color { red: 255, green: 128, blue: 0, alpha: 255 }));
    assert_eq!(Color::from_hex(b"#FF800a7F"), Some(Color { red: 255, green: 128, blue: 10, alpha: 127 }));
    assert_eq!(Color::from_hex(b"#00000000"), Some(Color { red: 0, green: 0, blue: 0, alpha: 0 }));
    assert_eq!(Color::from_hex(b"#1a2B3c"), Some(Color { red: 26, green: 43, blue: 60, alpha: 255 }));
}

#[test]
fn what_is_no_color_is_refused() {
    assert_eq!(Color::from_hex(b""), None);
    assert_eq!(Color::from_hex(b"#"), None);
    assert_eq!(Color::from_hex(b"ff8000"), None);
    assert_eq!(Color::from_hex(b"#ff800"), None);
    assert_eq!(Color::from_hex(b"#ff8000f"), None);
    assert_eq!(Color::from_hex(b"#ff8000ff0"), None);
    assert_eq!(Color::from_hex(b"#gg8000"), None);
    assert_eq!(Color::from_hex(b"#ff80 0"), None);
    assert_eq!(Color::from_hex(b"#ff8000zz"), None);
    assert_eq!(Color::from_hex(b"0ff8000"), None);
    assert_eq!(Color::from_hex(b"#ff/000"), None);
    assert_eq!(Color::from_hex(b"#ff:000"), None);
    assert_eq!(Color::from_hex(b"#ff@000"), None);
    assert_eq!(Color::from_hex(b"#ffG000"), None);
    assert_eq!(Color::from_hex(b"#ff`000"), None);
}

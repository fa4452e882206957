//! Layout of single messages: prefix width, margins, styling.

use twitch_chat_tui::config::Config;
use twitch_chat_tui::layout::{RenderLine, layout_message, prefix_width};
use twitch_chat_tui::message::{Badge, BadgeSet, ChatMessage, Rgb};
use twitch_chat_tui::wrap::wrap_body;

fn text_of(line: &RenderLine) -> Vec<String> {
    line.spans.iter().map(|s| String::from_utf8(s.text.clone()).unwrap()).collect()
}

#[test]
fn subscriber_prefix_is_name_separator_and_badge() {
    let cfg = Config::default();
    let set = BadgeSet::from_tags(&vec![Badge::Subscriber]);
    // "bob" is 3 columns, ": " is 2, the subscriber badge is 2.
    assert_eq!(prefix_width(3, set, &cfg), 7);
}

#[test]
fn body_wraps_into_the_columns_left_of_the_prefix() {
    let cfg = Config::default();
    let body = "the quick brown fox jumps over the lazy dog";
    let m = ChatMessage {
        sender_name: b"bob".to_vec(),
        name_color: None,
        badges: BadgeSet::from_tags(&vec![Badge::Subscriber]),
        body: body.as_bytes().to_vec(),
    };
    let lines = layout_message(&m, 20, &cfg);
    // Prefix width 7 leaves 13 columns for the body.
    let segs = wrap_body(&body.as_bytes().to_vec(), 13);
    assert_eq!(lines.len(), segs.len());
    for seg in &segs {
        assert!(seg.len() <= 13);
    }
    // First line: badge symbols, sender name, separator, first segment.
    let first = text_of(&lines[0]);
    assert_eq!(first.len(), 4);
    assert_eq!(first[0], cfg.subscriber_symbol);
    assert_eq!(first[1], "bob");
    assert_eq!(first[2], ": ");
    assert_eq!(first[3].as_bytes(), segs[0].as_slice());
    // Every later line: exactly seven blanks, then its segment.
    for (i, line) in lines.iter().enumerate().skip(1) {
        let spans = text_of(line);
        assert_eq!(spans.len(), 2);
        assert_eq!(spans[0], "       ");
        assert_eq!(spans[1].as_bytes(), segs[i].as_slice());
    }
}

#[test]
fn empty_body_yields_exactly_one_line() {
    let cfg = Config::default();
    let m = ChatMessage {
        sender_name: b"ann".to_vec(),
        name_color: None,
        badges: BadgeSet::none(),
        body: Vec::new(),
    };
    let lines = layout_message(&m, 40, &cfg);
    assert_eq!(lines.len(), 1);
    let first = text_of(&lines[0]);
    assert_eq!(first, vec!["".to_string(), "ann".to_string(), ": ".to_string(), "".to_string()]);
}

#[test]
fn width_at_or_below_prefix_still_produces_segments() {
    let cfg = Config::default();
    let m = ChatMessage {
        sender_name: b"bob".to_vec(),
        name_color: None,
        badges: BadgeSet::none(),
        body: b"hi".to_vec(),
    };
    // Prefix is 5, available width only 4: body wraps at one column.
    let lines = layout_message(&m, 4, &cfg);
    assert_eq!(lines.len(), 2);
    assert_eq!(text_of(&lines[0])[3], "h");
    assert_eq!(text_of(&lines[1])[1], "i");
}

#[test]
fn dark_sender_color_gets_a_contrasting_background() {
    let cfg = Config::default();
    let dark = ChatMessage {
        sender_name: b"n".to_vec(),
        name_color: Some(Rgb { r: 0, g: 0, b: 0 }),
        badges: BadgeSet::none(),
        body: b"x".to_vec(),
    };
    let lines = layout_message(&dark, 40, &cfg);
    let name_span = &lines[0].spans[1];
    assert_eq!(name_span.style.fg, Some(Rgb { r: 0, g: 0, b: 0 }));
    assert!(name_span.style.bg_contrast);

    let bright = ChatMessage {
        name_color: Some(Rgb { r: 200, g: 200, b: 200 }),
        ..dark
    };
    let lines = layout_message(&bright, 40, &cfg);
    let name_span = &lines[0].spans[1];
    assert_eq!(name_span.style.fg, Some(Rgb { r: 200, g: 200, b: 200 }));
    assert!(!name_span.style.bg_contrast);

    let plain = ChatMessage {
        name_color: None,
        ..bright
    };
    let lines = layout_message(&plain, 40, &cfg);
    let name_span = &lines[0].spans[1];
    assert_eq!(name_span.style.fg, None);
    assert!(!name_span.style.bg_contrast);
}

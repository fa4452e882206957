//! Buffer eviction, badge handling, luminance, and configuration
//! defaults on concrete values.

use twitch_chat_tui::buffer::MessageBuffer;
use twitch_chat_tui::config::Config;
use twitch_chat_tui::layout::{badge_bytes, prefix_width};
use twitch_chat_tui::message::{Badge, BadgeSet, ChatMessage, Rgb, luminance, needs_contrast};

fn msg(name: &str, body: &str) -> ChatMessage {
    ChatMessage {
        sender_name: name.as_bytes().to_vec(),
        name_color: None,
        badges: BadgeSet::none(),
        body: body.as_bytes().to_vec(),
    }
}

fn bodies(buf: &MessageBuffer) -> Vec<String> {
    buf.messages()
        .iter()
        .map(|m| String::from_utf8(m.body.clone()).unwrap())
        .collect()
}

#[test]
fn buffer_evicts_oldest_at_capacity_two() {
    let mut buf = MessageBuffer::new(2);
    buf.insert(msg("n", "a"));
    buf.insert(msg("n", "b"));
    buf.insert(msg("n", "c"));
    assert_eq!(bodies(&buf), vec!["c".to_string(), "b".to_string()]);
}

#[test]
fn buffer_keeps_most_recent_newest_first() {
    let mut buf = MessageBuffer::new(3);
    for body in ["1", "2", "3", "4", "5"] {
        buf.insert(msg("n", body));
    }
    assert_eq!(bodies(&buf), vec!["5".to_string(), "4".to_string(), "3".to_string()]);
    assert_eq!(buf.len(), 3);
    assert_eq!(buf.capacity(), 3);
}

#[test]
fn buffer_below_capacity_keeps_everything() {
    let mut buf = MessageBuffer::new(10);
    buf.insert(msg("n", "a"));
    buf.insert(msg("n", "b"));
    assert_eq!(bodies(&buf), vec!["b".to_string(), "a".to_string()]);
}

#[test]
fn badge_set_ignores_order_and_repetition() {
    let ab = BadgeSet::from_tags(&vec![Badge::Vip, Badge::Subscriber]);
    let ba = BadgeSet::from_tags(&vec![Badge::Subscriber, Badge::Vip, Badge::Subscriber]);
    assert_eq!(ab, ba);
    assert!(ab.subscriber);
    assert!(ab.vip);
    assert!(!ab.founder);
    assert!(!ab.moderator);
}

#[test]
fn prefix_width_is_order_independent() {
    let cfg = Config::default();
    let ab = BadgeSet::from_tags(&vec![Badge::Moderator, Badge::Founder]);
    let ba = BadgeSet::from_tags(&vec![Badge::Founder, Badge::Moderator]);
    assert_eq!(prefix_width(3, ab, &cfg), prefix_width(3, ba, &cfg));
}

#[test]
fn badge_symbols_come_in_fixed_order() {
    let mut cfg = Config::default();
    cfg.subscriber_symbol = "S".to_string();
    cfg.founder_symbol = "F".to_string();
    cfg.mod_symbol = "M".to_string();
    cfg.vip_symbol = "V".to_string();
    let set = BadgeSet::from_tags(&vec![Badge::Vip, Badge::Moderator, Badge::Subscriber]);
    let bytes = badge_bytes(set, &cfg);
    assert_eq!(String::from_utf8(bytes).unwrap(), "SMV");
}

#[test]
fn luminance_uses_standard_weights() {
    assert_eq!(luminance(&Rgb { r: 255, g: 255, b: 255 }), 2_550_000);
    assert_eq!(luminance(&Rgb { r: 0, g: 0, b: 0 }), 0);
    assert_eq!(luminance(&Rgb { r: 30, g: 30, b: 30 }), 300_000);
}

#[test]
fn color_at_exactly_the_threshold_is_not_inverted() {
    // Luminance of (30, 30, 30) is exactly 30 * 10000.
    let at = Rgb { r: 30, g: 30, b: 30 };
    assert!(!needs_contrast(&at, 30));
    // One step darker falls below the threshold.
    let below = Rgb { r: 29, g: 30, b: 30 };
    assert!(needs_contrast(&below, 30));
}

#[test]
fn default_config_values() {
    let cfg = Config::default();
    assert_eq!(cfg.channel, "stuck_overflow");
    assert_eq!(cfg.subscriber_symbol_width, 2);
    assert_eq!(cfg.founder_symbol_width, 2);
    assert_eq!(cfg.mod_symbol_width, 2);
    assert_eq!(cfg.vip_symbol_width, 2);
    assert_eq!(cfg.invert_below_brightness, 30);
    assert_eq!(cfg.messages_buffer_size, 50);
}

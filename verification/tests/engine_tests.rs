//! The render loop's dispatch: ordering, redraw cadence, quit.

use twitch_chat_tui::config::Config;
use twitch_chat_tui::engine::{
    Action, Event, KeyCode, KeyPress, Modifiers, RenderLoop, key_is_quit, poll_timeout_ms, tick_due,
};
use twitch_chat_tui::layout::layout_message;
use twitch_chat_tui::message::{BadgeSet, ChatMessage};

fn msg(name: &str, body: &str) -> ChatMessage {
    ChatMessage {
        sender_name: name.as_bytes().to_vec(),
        name_color: None,
        badges: BadgeSet::none(),
        body: body.as_bytes().to_vec(),
    }
}

fn key(code: KeyCode, ctrl: bool) -> KeyPress {
    KeyPress { code, modifiers: Modifiers { ctrl, alt: false, shift: false } }
}

#[test]
fn poll_window_shrinks_toward_the_tick_boundary() {
    assert_eq!(poll_timeout_ms(200, 0), 200);
    assert_eq!(poll_timeout_ms(200, 150), 50);
    assert_eq!(poll_timeout_ms(200, 200), 0);
    assert_eq!(poll_timeout_ms(200, 300), 0);
    assert!(!tick_due(200, 199));
    assert!(tick_due(200, 200));
    assert!(tick_due(200, 201));
}

#[test]
fn quit_key_is_control_c_exactly() {
    assert!(key_is_quit(&key(KeyCode::Char('c'), true)));
    assert!(!key_is_quit(&key(KeyCode::Char('c'), false)));
    assert!(!key_is_quit(&key(KeyCode::Char('q'), true)));
    assert!(!key_is_quit(&key(KeyCode::Other, true)));
    let shifted = KeyPress {
        code: KeyCode::Char('c'),
        modifiers: Modifiers { ctrl: true, alt: false, shift: true },
    };
    assert!(!key_is_quit(&shifted));
}

#[test]
fn quit_arrives_mid_stream_and_buffer_is_untouched() {
    let cfg = Config::default();
    let mut rl = RenderLoop::new(cfg);
    assert!(matches!(rl.handle_event(Event::IncomingMessage(msg("a", "x")), 80), Action::Ignore));
    let a = rl.handle_event(Event::KeyPress(key(KeyCode::Char('c'), true)), 80);
    assert!(matches!(a, Action::Quit));
    assert_eq!(rl.messages_newest_first().len(), 1);
}

#[test]
fn interleaved_events_buffer_newest_first_one_redraw() {
    let cfg = Config::default();
    let mut rl = RenderLoop::new(cfg);
    let events = vec![
        Event::IncomingMessage(msg("ann", "first message")),
        Event::KeyPress(key(KeyCode::Char('x'), false)),
        Event::IncomingMessage(msg("bob", "second message")),
        Event::Tick,
    ];
    let mut redraws = 0;
    let mut drawn = Vec::new();
    for e in events {
        match rl.handle_event(e, 80) {
            Action::Ignore => {}
            Action::Quit => panic!("no quit was sent"),
            Action::Redraw(lines) => {
                redraws += 1;
                drawn = lines;
            }
        }
    }
    assert_eq!(redraws, 1);
    let msgs = rl.messages_newest_first();
    assert_eq!(msgs.len(), 2);
    assert_eq!(msgs[0].body, b"second message".to_vec());
    assert_eq!(msgs[1].body, b"first message".to_vec());
    // The drawn frame reflects both messages: each fits one line here,
    // and the newest message's line comes first (bottom of the frame).
    let cfg = Config::default();
    let bob = layout_message(&msg("bob", "second message"), 80, &cfg);
    let ann = layout_message(&msg("ann", "first message"), 80, &cfg);
    assert_eq!(bob.len(), 1);
    assert_eq!(ann.len(), 1);
    assert_eq!(drawn.len(), 2);
    assert_eq!(drawn[0].spans[1].text, b"bob".to_vec());
    assert_eq!(drawn[1].spans[1].text, b"ann".to_vec());
}

#[test]
fn messages_do_not_redraw_and_ticks_do_not_mutate() {
    let cfg = Config::default();
    let mut rl = RenderLoop::new(cfg);
    assert!(matches!(rl.handle_event(Event::IncomingMessage(msg("a", "m")), 80), Action::Ignore));
    let before = rl.messages_newest_first().len();
    assert!(matches!(rl.handle_event(Event::Tick, 80), Action::Redraw(_)));
    assert_eq!(rl.messages_newest_first().len(), before);
}

#[test]
fn multi_line_messages_render_bottom_up() {
    let mut cfg = Config::default();
    cfg.messages_buffer_size = 5;
    let mut rl = RenderLoop::new(cfg);
    // Prefix is "ab: " = 4 columns; width 10 leaves 6 for the body.
    rl.handle_event(Event::IncomingMessage(msg("ab", "one two")), 10);
    let a = rl.handle_event(Event::Tick, 10);
    match a {
        Action::Redraw(lines) => {
            // Two wrapped segments: the continuation line is handed
            // over first, the message's first line below it last.
            assert_eq!(lines.len(), 2);
            assert_eq!(lines[0].spans.len(), 2);
            assert_eq!(lines[0].spans[1].text, b"two".to_vec());
            assert_eq!(lines[1].spans[1].text, b"ab".to_vec());
            assert_eq!(lines[1].spans[3].text, b"one".to_vec());
        }
        _ => panic!("tick must redraw"),
    }
}

//! The render loop's state and dispatch: the single consumer of the
//! merged event stream. A key press may quit, an incoming message
//! mutates the buffer, and a tick lays the whole buffer out for a
//! full-frame redraw.

use vstd::prelude::*;
use crate::buffer::{MessageBuffer, inserted};
use crate::config::Config;
use crate::layout::{RenderLine, SpanModel, layout_message, layout_message_spec, line_views};
use crate::message::ChatMessage;

verus! {

/// The modifier keys held during a key press.
#[derive(Clone, Copy, PartialEq, Eq, Structural, Debug)]
pub struct Modifiers {
    pub ctrl: bool,
    pub alt: bool,
    pub shift: bool,
}

/// The key that was pressed.
#[derive(Clone, Copy, PartialEq, Eq, Debug)]
pub enum KeyCode {
    /// A printable character.
    Char(char),
    /// Any other key.
    Other,
}

/// One keyboard event: a key code and the modifiers held with it.
#[derive(Clone, Copy, PartialEq, Eq, Debug)]
pub struct KeyPress {
    pub code: KeyCode,
    pub modifiers: Modifiers,
}

/// The quit combination: the letter `c` with exactly the control
/// modifier held.
pub open spec fn is_quit_key(k: KeyPress) -> bool {
    k.modifiers == (Modifiers { ctrl: true, alt: false, shift: false }) && k.code == KeyCode::Char(
        'c',
    )
}

/// Decides whether a key press is the quit combination.
pub fn key_is_quit(k: &KeyPress) -> (r: bool)
    ensures
        r == is_quit_key(*k),
{
    let ctrl_only = k.modifiers.ctrl && !k.modifiers.alt && !k.modifiers.shift;
    let on_c = match k.code {
        KeyCode::Char(c) => c == 'c',
        KeyCode::Other => false,
    };
    ctrl_only && on_c
}

/// How long the input producer may wait for a key before the next
/// tick boundary: the remainder of the tick period, and nothing once
/// the period has already elapsed. A key arriving within this window
/// is forwarded at once without resetting the tick timer.
pub fn poll_timeout_ms(tick_rate_ms: u64, elapsed_ms: u64) -> (r: u64)
    ensures
        r == if elapsed_ms < tick_rate_ms {
            tick_rate_ms - elapsed_ms
        } else {
            0int
        },
{
    if elapsed_ms < tick_rate_ms {
        tick_rate_ms - elapsed_ms
    } else {
        0
    }
}

/// Whether a tick is due: the tick period has fully elapsed since
/// the last tick. Only then is a tick emitted and the reference
/// point reset, so redraws happen at most once per period.
pub fn tick_due(tick_rate_ms: u64, elapsed_ms: u64) -> (r: bool)
    ensures
        r == (elapsed_ms >= tick_rate_ms),
{
    elapsed_ms >= tick_rate_ms
}

/// One event of the merged stream, produced by exactly one of the
/// three producers and consumed exactly once.
pub enum Event {
    /// A chat message arrived from the network.
    IncomingMessage(ChatMessage),
    /// A key was pressed.
    KeyPress(KeyPress),
    /// The fixed-period redraw timer fired.
    Tick,
}

/// What the caller must do after one event was dispatched.
pub enum Action {
    /// Nothing: the event was absorbed.
    Ignore,
    /// Tear the terminal down and exit successfully.
    Quit,
    /// Hand these lines to the terminal surface, bottom row first.
    Redraw(Vec<RenderLine>),
}

/// The full redraw of a message list, newest first: the lines of
/// each message in bottom-to-top order, newest message's last line
/// first, ready for a surface that renders the first line at the
/// bottom of the viewport.
pub open spec fn render_spec(msgs: Seq<ChatMessage>, available: int, cfg: Config) -> Seq<
    Seq<SpanModel>,
>
    decreases msgs.len(),
{
    if msgs.len() == 0 {
        Seq::empty()
    } else {
        layout_message_spec(msgs[0], available, cfg).reverse() + render_spec(
            msgs.drop_first(),
            available,
            cfg,
        )
    }
}

/// The state owned by the render loop: the message buffer and the
/// immutable configuration.
pub struct RenderLoop {
    cfg: Config,
    buffer: MessageBuffer,
}

impl RenderLoop {
    /// The stored messages, newest first.
    pub closed spec fn messages(&self) -> Seq<ChatMessage> {
        self.buffer@
    }

    /// The buffer capacity.
    pub closed spec fn capacity(&self) -> nat {
        self.buffer.spec_capacity()
    }

    /// The configuration the loop was started with.
    pub closed spec fn config(&self) -> Config {
        self.cfg
    }

    /// The buffer is well formed.
    pub closed spec fn wf(&self) -> bool {
        self.buffer.wf() && self.capacity() == self.config().messages_buffer_size
    }

    /// A fresh loop state: an empty buffer with the configured
    /// capacity.
    pub fn new(cfg: Config) -> (r: RenderLoop)
        requires
            cfg.messages_buffer_size >= 1,
        ensures
            r.wf(),
            r.messages() == Seq::<ChatMessage>::empty(),
            r.config() == cfg,
    {
        let buffer = MessageBuffer::new(cfg.messages_buffer_size);
        RenderLoop { cfg, buffer }
    }

    /// Lays out every buffered message, newest first, as one ordered
    /// line list for a full-frame redraw, bottom row first.
    pub fn render(&self, available: usize) -> (out: Vec<RenderLine>)
        ensures
            line_views(out@) == render_spec(self.messages(), available as int, self.config()),
    {
        let msgs = self.buffer.messages();
        let mut out: Vec<RenderLine> = Vec::new();
        let mut i: usize = 0;
        proof {
            assert(line_views(out@) =~= Seq::<Seq<SpanModel>>::empty());
            assert(msgs@.skip(0) =~= msgs@);
        }
        while i < msgs.len()
            invariant
                i <= msgs@.len(),
                msgs@ == self.messages(),
                render_spec(self.messages(), available as int, self.config()) == line_views(out@)
                    + render_spec(msgs@.skip(i as int), available as int, self.config()),
            decreases msgs@.len() - i,
        {
            let ghost lm = layout_message_spec(msgs@[i as int], available as int, self.config());
            let mut lines = layout_message(&msgs[i], available, &self.cfg);
            proof {
                assert(line_views(lines@) == lm);
                assert(line_views(lines@) =~= lm.take(lines@.len() as int));
                assert(msgs@.skip(i as int)[0] == msgs@[i as int]);
                assert(msgs@.skip(i as int).drop_first() =~= msgs@.skip(i + 1));
                assert(render_spec(msgs@.skip(i as int), available as int, self.config())
                    == lm.reverse() + render_spec(msgs@.skip(i + 1), available as int, self.config()));
            }
            let ghost base = line_views(out@);
            while lines.len() > 0
                invariant
                    line_views(lines@) == lm.take(lines@.len() as int),
                    lines@.len() <= lm.len(),
                    line_views(out@) == base + lm.reverse().take((lm.len() - lines@.len()) as int),
                decreases lines@.len(),
            {
                let ghost k = lines@.len() as int;
                let ghost lines0 = lines@;
                let l = lines.pop().unwrap();
                proof {
                    assert(lines@ =~= lines0.drop_last());
                    assert(line_views(lines@) =~= lm.take(k - 1));
                    assert(line_views(lines0)[k - 1] == l@);
                    assert(l@ == lm.take(k)[k - 1]);
                    assert(lm.reverse()[lm.len() - k] == lm[k - 1]);
                    assert(line_views(out@.push(l)) =~= line_views(out@).push(l@));
                    assert(lm.reverse().take((lm.len() - k + 1) as int) =~= lm.reverse().take(
                        (lm.len() - k) as int,
                    ).push(lm.reverse()[lm.len() - k]));
                    assert(base + lm.reverse().take((lm.len() - k + 1) as int) =~= (base
                        + lm.reverse().take((lm.len() - k) as int)).push(lm[k - 1]));
                }
                out.push(l);
            }
            proof {
                assert(lm.reverse().take(lm.len() as int) =~= lm.reverse());
                assert(line_views(out@) == base + lm.reverse());
            }
            i = i + 1;
        }
        proof {
            assert(msgs@.skip(msgs@.len() as int) =~= Seq::<ChatMessage>::empty());
            assert(line_views(out@) + Seq::<Seq<SpanModel>>::empty() =~= line_views(out@));
        }
        out
    }

    /// The buffered messages without mutation, newest first.
    pub fn messages_newest_first(&self) -> (r: &Vec<ChatMessage>)
        ensures
            r@ == self.messages(),
    {
        self.buffer.messages()
    }

    /// Dispatches one event: a quit key press asks the caller to
    /// tear down and exit, any other key press is ignored, an
    /// incoming message is inserted into the buffer (evicting the
    /// oldest when full, and triggering no redraw by itself), and a
    /// tick produces the full redraw of the buffer at the given
    /// available width.
    pub fn handle_event(&mut self, e: Event, available: usize) -> (a: Action)
        requires
            old(self).wf(),
        ensures
            final(self).wf(),
            final(self).config() == old(self).config(),
            final(self).capacity() == old(self).capacity(),
            match e {
                Event::IncomingMessage(m) => final(self).messages() == inserted(
                    old(self).messages(),
                    m,
                    old(self).capacity(),
                ) && (a matches Action::Ignore),
                Event::KeyPress(k) => final(self).messages() == old(self).messages() && if is_quit_key(
                    k,
                ) {
                    a matches Action::Quit
                } else {
                    a matches Action::Ignore
                },
                Event::Tick => final(self).messages() == old(self).messages() && (a matches
                    Action::Redraw(lines) ==> line_views(lines@) == render_spec(
                    old(self).messages(),
                    available as int,
                    old(self).config(),
                )) && (a matches Action::Redraw(lines)),
            },
    {
        match e {
            Event::IncomingMessage(m) => {
                self.buffer.insert(m);
                Action::Ignore
            },
            Event::KeyPress(k) => {
                if key_is_quit(&k) {
                    Action::Quit
                } else {
                    Action::Ignore
                }
            },
            Event::Tick => {
                let lines = self.render(available);
                Action::Redraw(lines)
            },
        }
    }
}

} // verus!

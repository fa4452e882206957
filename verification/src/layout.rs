//! The layout engine: a pure function from one chat message, its
//! sender's colour and badges, the available terminal width and the
//! configuration to an ordered list of styled terminal lines. The
//! first line carries badges, styled sender name and separator; every
//! later line is padded with exactly the prefix width of blanks.

use vstd::prelude::*;
use vstd::slice::{slice_subrange, slice_to_vec};
use crate::config::Config;
use crate::message::{Badge, BadgeSet, ChatMessage, Rgb, badge_set_of, luminance_scaled};
use crate::message::{lemma_badge_set_order_independent, needs_contrast};
use crate::wrap::{views, wrap_body, wrap_spec, wrap_width};

verus! {

/// The styling of one text span: an optional foreground colour, and
/// whether a contrasting background is laid under it.
#[derive(Clone, Copy, PartialEq, Eq, Structural, Debug)]
pub struct SpanStyle {
    pub fg: Option<Rgb>,
    pub bg_contrast: bool,
}

/// The unstyled span style.
pub open spec fn default_style() -> SpanStyle {
    SpanStyle { fg: None, bg_contrast: false }
}

/// One styled run of text within a terminal row.
pub struct Span {
    pub text: Vec<u8>,
    pub style: SpanStyle,
}

/// The mathematical value of a span: its text as a byte sequence,
/// and its style.
pub struct SpanModel {
    pub text: Seq<u8>,
    pub style: SpanStyle,
}

impl View for Span {
    type V = SpanModel;

    open spec fn view(&self) -> SpanModel {
        SpanModel { text: self.text@, style: self.style }
    }
}

/// One terminal row: an ordered list of styled spans.
pub struct RenderLine {
    pub spans: Vec<Span>,
}

impl View for RenderLine {
    type V = Seq<SpanModel>;

    open spec fn view(&self) -> Seq<SpanModel> {
        self.spans@.map_values(|s: Span| s@)
    }
}

/// The views of a list of render lines.
pub open spec fn line_views(lines: Seq<RenderLine>) -> Seq<Seq<SpanModel>> {
    lines.map_values(|l: RenderLine| l@)
}

/// An unstyled span model.
pub open spec fn plain(text: Seq<u8>) -> SpanModel {
    SpanModel { text, style: default_style() }
}

/// The bytes of a character sequence in its terminal encoding.
pub open spec fn bytes_of(s: Seq<char>) -> Seq<u8> {
    vstd::utf8::encode_utf8(s)
}

/// The columns taken by the badge symbols present in a badge set,
/// each badge contributing its configured width and absent badges
/// contributing zero.
pub open spec fn badge_width_spec(b: BadgeSet, cfg: Config) -> int {
    (if b.subscriber {
        cfg.subscriber_symbol_width as int
    } else {
        0
    }) + (if b.founder {
        cfg.founder_symbol_width as int
    } else {
        0
    }) + (if b.moderator {
        cfg.mod_symbol_width as int
    } else {
        0
    }) + (if b.vip {
        cfg.vip_symbol_width as int
    } else {
        0
    })
}

/// The prefix width: sender name length, two columns for the
/// separator, and the widths of the badges present.
pub open spec fn prefix_width_spec(name_len: int, b: BadgeSet, cfg: Config) -> int {
    name_len + 2 + badge_width_spec(b, cfg)
}

/// A value clamped to what a `usize` can hold.
pub open spec fn clamp_usize(x: int) -> int {
    if x > usize::MAX as int {
        usize::MAX as int
    } else {
        x
    }
}

/// The badge symbols of a badge set concatenated in the fixed order
/// subscriber, founder, moderator, VIP, whatever order the badges
/// arrived in.
pub open spec fn badge_bytes_spec(b: BadgeSet, cfg: Config) -> Seq<u8> {
    (if b.subscriber {
        bytes_of(cfg.subscriber_symbol@)
    } else {
        Seq::empty()
    }) + (if b.founder {
        bytes_of(cfg.founder_symbol@)
    } else {
        Seq::empty()
    }) + (if b.moderator {
        bytes_of(cfg.mod_symbol@)
    } else {
        Seq::empty()
    }) + (if b.vip {
        bytes_of(cfg.vip_symbol@)
    } else {
        Seq::empty()
    })
}

/// The style given to a sender name: the sender's colour when one is
/// set, with a contrasting background exactly when the colour's
/// luminance lies strictly below the configured threshold; the
/// default style when no colour is set.
pub open spec fn sender_style_spec(color: Option<Rgb>, cfg: Config) -> SpanStyle {
    match color {
        Some(c) => SpanStyle {
            fg: Some(c),
            bg_contrast: luminance_scaled(c) < 10000 * cfg.invert_below_brightness,
        },
        None => default_style(),
    }
}

/// A run of `n` blank columns.
pub open spec fn pad_spec(n: int) -> Seq<u8> {
    Seq::new(n as nat, |i: int| 32u8)
}

/// The first produced line: badges, styled sender name, the
/// separator, and the first wrapped segment.
pub open spec fn first_line_spec(m: ChatMessage, cfg: Config, seg: Seq<u8>) -> Seq<SpanModel> {
    seq![
        plain(badge_bytes_spec(m.badges, cfg)),
        SpanModel { text: m.sender_name@, style: sender_style_spec(m.name_color, cfg) },
        plain(seq![58u8, 32u8]),
        plain(seg),
    ]
}

/// A continuation line: exactly the prefix width of blanks, then the
/// wrapped segment.
pub open spec fn cont_line_spec(prefix: int, seg: Seq<u8>) -> Seq<SpanModel> {
    seq![plain(pad_spec(prefix)), plain(seg)]
}

/// The full layout of one message at a given available width: the
/// body is wrapped to the columns left of the prefix (at least one),
/// the first line carries the prefix, and every later segment stands
/// on its own line behind a blank margin of the prefix width. An
/// empty body yields exactly one line holding only the prefix.
pub open spec fn layout_message_spec(m: ChatMessage, available: int, cfg: Config) -> Seq<
    Seq<SpanModel>,
> {
    let prefix = clamp_usize(prefix_width_spec(m.sender_name@.len() as int, m.badges, cfg));
    let segs = wrap_spec(m.body@, available - prefix);
    let first = first_line_spec(
        m,
        cfg,
        if segs.len() == 0 {
            Seq::empty()
        } else {
            segs[0]
        },
    );
    seq![first] + Seq::new(
        if segs.len() <= 1 {
            0
        } else {
            (segs.len() - 1) as nat
        },
        |i: int| cont_line_spec(prefix, segs[i + 1]),
    )
}

/// Adds `b` within `usize`, clamping at the top instead of
/// overflowing.
fn add_clamped(a: usize, b: usize) -> (r: usize)
    ensures
        r == clamp_usize(a + b),
{
    if a <= usize::MAX - b {
        a + b
    } else {
        usize::MAX
    }
}

/// Computes the prefix width for a sender name length and badge set,
/// clamped to `usize`.
pub fn prefix_width(name_len: usize, b: BadgeSet, cfg: &Config) -> (r: usize)
    ensures
        r == clamp_usize(prefix_width_spec(name_len as int, b, *cfg)),
{
    let mut r = add_clamped(name_len, 2);
    if b.subscriber {
        r = add_clamped(r, cfg.subscriber_symbol_width);
    }
    if b.founder {
        r = add_clamped(r, cfg.founder_symbol_width);
    }
    if b.moderator {
        r = add_clamped(r, cfg.mod_symbol_width);
    }
    if b.vip {
        r = add_clamped(r, cfg.vip_symbol_width);
    }
    r
}

/// Concatenates the badge symbols present, in the fixed order
/// subscriber, founder, moderator, VIP.
pub fn badge_bytes(b: BadgeSet, cfg: &Config) -> (r: Vec<u8>)
    ensures
        r@ == badge_bytes_spec(b, *cfg),
{
    let mut r: Vec<u8> = Vec::new();
    if b.subscriber {
        let mut s = cfg.subscriber_symbol.as_str().as_bytes_vec();
        r.append(&mut s);
    }
    if b.founder {
        let mut s = cfg.founder_symbol.as_str().as_bytes_vec();
        r.append(&mut s);
    }
    if b.moderator {
        let mut s = cfg.mod_symbol.as_str().as_bytes_vec();
        r.append(&mut s);
    }
    if b.vip {
        let mut s = cfg.vip_symbol.as_str().as_bytes_vec();
        r.append(&mut s);
    }
    proof {
        assert(r@ =~= badge_bytes_spec(b, *cfg));
    }
    r
}

/// Computes the style for a sender name from its optional colour.
pub fn sender_style(color: Option<Rgb>, cfg: &Config) -> (r: SpanStyle)
    ensures
        r == sender_style_spec(color, *cfg),
{
    match color {
        Some(c) => SpanStyle {
            fg: Some(c),
            bg_contrast: needs_contrast(&c, cfg.invert_below_brightness),
        },
        None => SpanStyle { fg: None, bg_contrast: false },
    }
}

/// Lays one message out as styled terminal lines within the
/// available width.
pub fn layout_message(m: &ChatMessage, available: usize, cfg: &Config) -> (out: Vec<RenderLine>)
    ensures
        line_views(out@) == layout_message_spec(*m, available as int, *cfg),
{
    let prefix = prefix_width(m.sender_name.len(), m.badges, cfg);
    let body_width: usize = if available > prefix {
        available - prefix
    } else {
        1
    };
    proof {
        assert(body_width as int == wrap_width(available as int - prefix as int));
    }
    let segs = wrap_body(&m.body, body_width);
    let ghost seg_views = views(segs@);
    proof {
        assert(wrap_spec(m.body@, body_width as int) == wrap_spec(
            m.body@,
            available as int - prefix as int,
        ));
    }
    let first_seg: Vec<u8> = if segs.len() == 0 {
        Vec::new()
    } else {
        slice_to_vec(segs[0].as_slice())
    };
    let mut first_spans: Vec<Span> = Vec::new();
    first_spans.push(Span { text: badge_bytes(m.badges, cfg), style: span_default_style() });
    first_spans.push(
        Span {
            text: slice_to_vec(m.sender_name.as_slice()),
            style: sender_style(m.name_color, cfg),
        },
    );
    let mut sep: Vec<u8> = Vec::new();
    sep.push(58);
    sep.push(32);
    proof {
        assert(sep@ =~= seq![58u8, 32u8]);
    }
    first_spans.push(Span { text: sep, style: span_default_style() });
    first_spans.push(Span { text: first_seg, style: span_default_style() });
    let mut out: Vec<RenderLine> = Vec::new();
    out.push(RenderLine { spans: first_spans });
    let ghost expected = layout_message_spec(*m, available as int, *cfg);
    proof {
        assert(out@[0]@ =~= first_line_spec(
            *m,
            *cfg,
            if seg_views.len() == 0 {
                Seq::empty()
            } else {
                seg_views[0]
            },
        ));
        assert(line_views(out@) =~= expected.take(1));
    }
    let mut pad: Vec<u8> = Vec::new();
    let mut p: usize = 0;
    while p < prefix
        invariant
            p <= prefix,
            pad@ == pad_spec(p as int),
        decreases prefix - p,
    {
        proof {
            assert(pad_spec(p as int).push(32u8) =~= pad_spec(p + 1));
        }
        pad.push(32);
        p = p + 1;
    }
    let mut i: usize = 1;
    while i < segs.len()
        invariant
            1 <= i,
            segs@.len() <= 1 ==> i == 1,
            segs@.len() > 1 ==> i <= segs@.len(),
            seg_views == views(segs@),
            seg_views == wrap_spec(m.body@, available as int - prefix as int),
            prefix as int == clamp_usize(
                prefix_width_spec(m.sender_name@.len() as int, m.badges, *cfg),
            ),
            pad@ == pad_spec(prefix as int),
            expected == layout_message_spec(*m, available as int, *cfg),
            expected.len() == if seg_views.len() <= 1 {
                1int
            } else {
                seg_views.len() as int
            },
            line_views(out@) == expected.take(i as int),
        decreases segs@.len() - i,
    {
        let seg = slice_to_vec(segs[i].as_slice());
        let padc = slice_to_vec(pad.as_slice());
        let mut spans: Vec<Span> = Vec::new();
        spans.push(Span { text: padc, style: span_default_style() });
        spans.push(Span { text: seg, style: span_default_style() });
        let line = RenderLine { spans };
        proof {
            assert(line@ =~= cont_line_spec(prefix as int, seg_views[i as int]));
            assert(expected[i as int] == cont_line_spec(prefix as int, seg_views[i as int]));
            assert(line_views(out@).len() == out@.len());
            assert(i <= expected.len());
            assert(expected.take(i as int).len() == i);
            assert(out@.len() == i);
            assert forall|j: int| 0 <= j < out@.push(line).len() implies #[trigger] line_views(
                out@.push(line),
            )[j] == expected.take(i + 1)[j] by {
                if j < out@.len() {
                    assert(out@.push(line)[j] == out@[j]);
                    assert(line_views(out@)[j] == out@[j]@);
                } else {
                    assert(out@.push(line)[j] == line);
                }
            }
            assert(line_views(out@.push(line)) =~= expected.take(i + 1));
        }
        out.push(line);
        i = i + 1;
    }
    proof {
        assert(expected.take(expected.len() as int) =~= expected);
    }
    out
}

/// The unstyled span style, as a value.
fn span_default_style() -> (r: SpanStyle)
    ensures
        r == default_style(),
{
    SpanStyle { fg: None, bg_contrast: false }
}

/// Prefix width determinism: two badge tag lists with the same
/// members give the same prefix width for the same sender name and
/// configuration, whatever order the badges were attached in.
pub proof fn lemma_prefix_width_order_independent(
    name_len: int,
    tags1: Seq<Badge>,
    tags2: Seq<Badge>,
    cfg: Config,
)
    requires
        tags1.to_multiset() == tags2.to_multiset(),
    ensures
        prefix_width_spec(name_len, badge_set_of(tags1), cfg) == prefix_width_spec(
            name_len,
            badge_set_of(tags2),
            cfg,
        ),
{
    lemma_badge_set_order_independent(tags1, tags2);
}

} // verus!

//! The data carried by one chat message: sender name, optional
//! display colour, badge set and body text, together with the
//! luminance rule that decides when a colour needs a contrasting
//! background.

use vstd::prelude::*;

verus! {

/// An RGB colour, one byte per component.
#[derive(Clone, Copy, PartialEq, Eq, Structural, Debug)]
pub struct Rgb {
    pub r: u8,
    pub g: u8,
    pub b: u8,
}

/// A role or status tag attached to a message sender.
#[derive(Clone, Copy, PartialEq, Eq, Structural, Debug)]
pub enum Badge {
    Subscriber,
    Founder,
    Moderator,
    Vip,
}

/// The set of badges a sender carries: each badge is present at most
/// once, and membership alone matters, never the order in which the
/// badges arrived.
#[derive(Clone, Copy, PartialEq, Eq, Structural, Debug)]
pub struct BadgeSet {
    pub subscriber: bool,
    pub founder: bool,
    pub moderator: bool,
    pub vip: bool,
}

/// The badge set determined by a list of badge tags: membership in
/// the list, nothing else.
pub open spec fn badge_set_of(tags: Seq<Badge>) -> BadgeSet {
    BadgeSet {
        subscriber: tags.contains(Badge::Subscriber),
        founder: tags.contains(Badge::Founder),
        moderator: tags.contains(Badge::Moderator),
        vip: tags.contains(Badge::Vip),
    }
}

impl BadgeSet {
    /// The empty badge set.
    pub fn none() -> (r: BadgeSet)
        ensures
            r == (BadgeSet { subscriber: false, founder: false, moderator: false, vip: false }),
    {
        BadgeSet { subscriber: false, founder: false, moderator: false, vip: false }
    }

    /// Collects a list of badge tags into a badge set: a badge is in
    /// the set exactly when it occurs somewhere in the list.
    pub fn from_tags(tags: &Vec<Badge>) -> (r: BadgeSet)
        ensures
            r == badge_set_of(tags@),
    {
        let mut r = BadgeSet { subscriber: false, founder: false, moderator: false, vip: false };
        let mut i: usize = 0;
        while i < tags.len()
            invariant
                i <= tags@.len(),
                r == badge_set_of(tags@.take(i as int)),
            decreases tags@.len() - i,
        {
            proof {
                assert(tags@.take(i + 1) == tags@.take(i as int).push(tags@[i as int]));
                assert forall|b: Badge| #[trigger] tags@.take(i + 1).contains(b)
                    <==> tags@.take(i as int).contains(b) || tags@[i as int] == b by {
                    if tags@.take(i + 1).contains(b) {
                        let j = choose|j: int| 0 <= j < i + 1 && #[trigger] tags@.take(i + 1)[j] == b;
                        if j < i {
                            assert(tags@.take(i as int)[j] == b);
                        }
                    }
                    if tags@.take(i as int).contains(b) {
                        let j = choose|j: int| 0 <= j < i && #[trigger] tags@.take(i as int)[j] == b;
                        assert(tags@.take(i + 1)[j] == b);
                    }
                    if tags@[i as int] == b {
                        assert(tags@.take(i + 1)[i as int] == b);
                    }
                }
            }
            match tags[i] {
                Badge::Subscriber => { r.subscriber = true; },
                Badge::Founder => { r.founder = true; },
                Badge::Moderator => { r.moderator = true; },
                Badge::Vip => { r.vip = true; },
            }
            i = i + 1;
        }
        proof {
            assert(tags@.take(tags@.len() as int) == tags@);
        }
        r
    }
}

/// Two tag lists with the same members (as a multiset, so in any
/// order and with any repetition of the same tags) determine the same
/// badge set.
pub proof fn lemma_badge_set_order_independent(tags1: Seq<Badge>, tags2: Seq<Badge>)
    requires
        tags1.to_multiset() == tags2.to_multiset(),
    ensures
        badge_set_of(tags1) == badge_set_of(tags2),
{
    broadcast use vstd::seq_lib::group_to_multiset_ensures;

    assert forall|b: Badge| tags1.contains(b) <==> tags2.contains(b) by {
        assert(tags1.contains(b) <==> tags1.to_multiset().count(b) > 0);
        assert(tags2.contains(b) <==> tags2.to_multiset().count(b) > 0);
    }
}

/// One chat message as the core consumes it: the transport has
/// already been unwrapped, text is carried as bytes.
pub struct ChatMessage {
    /// The sender's display name.
    pub sender_name: Vec<u8>,
    /// The sender's chosen display colour, when one is set.
    pub name_color: Option<Rgb>,
    /// The badges the sender carries.
    pub badges: BadgeSet,
    /// The message body; contains no line breaks.
    pub body: Vec<u8>,
}

/// Relative luminance of a colour, scaled by 10000: the standard
/// weights 0.2126, 0.7152 and 0.0722 applied to the components.
pub open spec fn luminance_scaled(c: Rgb) -> int {
    2126 * c.r + 7152 * c.g + 722 * c.b
}

/// Computes the scaled relative luminance of a colour. The largest
/// possible value is 10000 * 255, well inside `u32`.
pub fn luminance(c: &Rgb) -> (r: u32)
    ensures
        r == luminance_scaled(*c),
{
    2126 * (c.r as u32) + 7152 * (c.g as u32) + 722 * (c.b as u32)
}

/// Whether a name colour is too dark to read on the default
/// background: true exactly when its luminance lies strictly below
/// the threshold. A colour at exactly the threshold is not inverted.
pub fn needs_contrast(c: &Rgb, invert_below_brightness: u8) -> (r: bool)
    ensures
        r == (luminance_scaled(*c) < 10000 * invert_below_brightness),
{
    luminance(c) < 10000 * (invert_below_brightness as u32)
}

} // verus!

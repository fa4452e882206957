//! The resolved settings record: per-badge symbols and column widths,
//! the brightness threshold for contrast inversion, and the message
//! buffer capacity. Resolved once at startup and immutable afterwards.

use vstd::prelude::*;

verus! {

/// The resolved configuration record. Built-in defaults may be
/// overridden by a file and by environment entries before the record
/// reaches the core; the core only reads it.
pub struct Config {
    /// Name of the chat room to join.
    pub channel: String,
    /// Symbol shown before a moderator's name.
    pub mod_symbol: String,
    /// Terminal columns the moderator symbol occupies.
    pub mod_symbol_width: usize,
    /// Symbol shown before a VIP's name.
    pub vip_symbol: String,
    /// Terminal columns the VIP symbol occupies.
    pub vip_symbol_width: usize,
    /// Symbol shown before a subscriber's name.
    pub subscriber_symbol: String,
    /// Terminal columns the subscriber symbol occupies.
    pub subscriber_symbol_width: usize,
    /// Symbol shown before a founder's name.
    pub founder_symbol: String,
    /// Terminal columns the founder symbol occupies.
    pub founder_symbol_width: usize,
    /// Names whose colour has luminance below this value get a
    /// contrasting background.
    pub invert_below_brightness: u8,
    /// Capacity of the message buffer.
    pub messages_buffer_size: usize,
}

impl Default for Config {
    /// The built-in defaults.
    fn default() -> (r: Config)
        ensures
            r.channel@ == "stuck_overflow"@,
            r.mod_symbol@ == "🗡 "@,
            r.vip_symbol@ == "💎"@,
            r.subscriber_symbol@ == "🌟"@,
            r.founder_symbol@ == "🥇"@,
            r.mod_symbol_width == 2,
            r.vip_symbol_width == 2,
            r.subscriber_symbol_width == 2,
            r.founder_symbol_width == 2,
            r.invert_below_brightness == 30,
            r.messages_buffer_size == 50,
    {
        Config {
            channel: "stuck_overflow".to_owned(),
            mod_symbol: "🗡 ".to_owned(),
            mod_symbol_width: 2,
            vip_symbol: "💎".to_owned(),
            vip_symbol_width: 2,
            subscriber_symbol: "🌟".to_owned(),
            subscriber_symbol_width: 2,
            founder_symbol: "🥇".to_owned(),
            founder_symbol_width: 2,
            invert_below_brightness: 30,
            messages_buffer_size: 50,
        }
    }
}

} // verus!

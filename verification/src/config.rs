//! Settings of the bot, from the values of its environment variables.

use crate::feed::text_or;
use crate::number::{parse_i64, parse_integer};
use vstd::prelude::*;

verus! {

/// The feed read when `FEED_URL` is not set.
pub open spec fn default_feed_url() -> Seq<char> {
    "https://www.discudemy.com/feed"@
}

/// The bot's settings.
pub struct Config {
    pub bot_token: String,
    /// The Telegram chat that receives the posts.
    pub channel_id: i64,
    pub feed_url: String,
}

/// Why the settings cannot be made.
#[derive(PartialEq, Eq, Structural, Debug, Clone, Copy)]
pub enum ConfigError {
    BotTokenMissing,
    ChannelIdMissing,
    ChannelIdInvalid,
}

impl ConfigError {
    /// The message that tells the operator what is wrong.
    pub fn message(&self) -> (r: String)
        ensures
            r@ == match *self {
                ConfigError::BotTokenMissing => "BOT_TOKEN not set"@,
                ConfigError::ChannelIdMissing => "CHANNEL_ID not set"@,
                ConfigError::ChannelIdInvalid => "Failed to parse CHANNEL_ID"@,
            },
    {
        match self {
            ConfigError::BotTokenMissing => String::from_str("BOT_TOKEN not set"),
            ConfigError::ChannelIdMissing => String::from_str("CHANNEL_ID not set"),
            ConfigError::ChannelIdInvalid => String::from_str("Failed to parse CHANNEL_ID"),
        }
    }
}

impl Config {
    /// The settings from the values of `BOT_TOKEN`, `CHANNEL_ID` and
    /// `FEED_URL` (`None` where a variable is not set). The token and the
    /// channel are required, and the channel must be a 64-bit integer; the
    /// feed defaults to discudemy's.
    pub fn new(bot_token: Option<String>, channel_id: Option<String>, feed_url: Option<String>) -> (r: Result<Config, ConfigError>)
        ensures
            match bot_token {
                None => r == Err::<Config, ConfigError>(ConfigError::BotTokenMissing),
                Some(token) => match channel_id {
                    None => r == Err::<Config, ConfigError>(ConfigError::ChannelIdMissing),
                    Some(id) => match parse_integer(id@, i64::MIN as int, i64::MAX as int) {
                        None => r == Err::<Config, ConfigError>(ConfigError::ChannelIdInvalid),
                        Some(v) => r matches Ok(c) && c.bot_token@ == token@ && c.channel_id == v
                            && c.feed_url@ == text_or(feed_url.deep_view(), default_feed_url()),
                    },
                },
            },
    {
        let bot_token = match bot_token {
            Some(t) => t,
            None => return Err(ConfigError::BotTokenMissing),
        };
        let channel = match channel_id {
            Some(c) => c,
            None => return Err(ConfigError::ChannelIdMissing),
        };
        let channel_id = match parse_i64(channel.as_str()) {
            Some(v) => v,
            None => return Err(ConfigError::ChannelIdInvalid),
        };
        let feed_url = match feed_url {
            Some(f) => f,
            None => String::from_str("https://www.discudemy.com/feed"),
        };
        Ok(Config { bot_token, channel_id, feed_url })
    }
}

} // verus!

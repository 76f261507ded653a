//! A per-user cache of timeline windows.
//!
//! The cache remembers, for each user, which ranges of time have been fully
//! enumerated and which items fall inside them, so that a window is never
//! fetched twice and never reported as known while part of it is missing.

pub mod coordinate;
pub mod cover;
pub mod cover_laws;
pub mod cover_lemmas;
pub mod interval;
pub mod interval_set;
pub mod interval_store;
pub mod oauth;
pub mod record;
pub mod record_laws;
pub mod record_lemmas;
pub mod snowflake;
pub mod tweet;
pub mod tweetstore;
pub mod twitter_time;

pub use coordinate::TimeCoordinate;
pub use interval::Interval;
pub use interval_set::IntervalSet;
pub use interval_store::{ConflictError, IntervalStore};
pub use oauth::Context;
pub use record::UniquelyIdentifiedTimeValue;
pub use snowflake::{SecondsSinceUnixEpoch, Snowflake, TWEPOCH_MILLIS};
pub use tweet::{window_of, TweetFromTwitter};
pub use tweetstore::{FetchError, Lookup, Progress, Source, TweetStore};

//! What the store reads and decides without touching the database: the
//! wall clock's reading, profiles and their settings, the sessions read
//! back, the events checked as they are read, and the JSON kept in prompt
//! rows.

pub mod json;
pub mod model;
pub mod prompts;
pub mod sessions;
pub mod settings;

use vstd::prelude::*;

verus! {

/// The profile every session belongs to until the user names another.
pub const DEFAULT_PROFILE: &'static str = "default";

/// An isolated set of statistics for one typing condition: one layout and
/// one session mode.
#[derive(Debug, Clone, PartialEq, Eq)]
pub struct Profile {
    id: i64,
    pub name: String,
    /// The layout the profile is bound to.
    pub layout: String,
    pub mode: String,
}

/// What a profile holds.
pub struct ProfileView {
    pub id: i64,
    pub name: Seq<char>,
    pub layout: Seq<char>,
    pub mode: Seq<char>,
}

impl View for Profile {
    type V = ProfileView;

    closed spec fn view(&self) -> ProfileView {
        ProfileView { id: self.id, name: self.name@, layout: self.layout@, mode: self.mode@ }
    }
}

impl Profile {
    /// A profile as its row holds it.
    pub fn new(id: i64, name: String, layout: String, mode: String) -> (r: Profile)
        ensures
            r@ == (ProfileView { id, name: name@, layout: layout@, mode: mode@ }),
    {
        Profile { id, name, layout, mode }
    }

    /// The profile's row id.
    pub fn id(&self) -> (r: i64)
        ensures
            r == self@.id,
    {
        self.id
    }
}

/// The seconds since the Unix epoch by `SystemTime::now`, `None` when the
/// clock reads before the epoch. Nothing is claimed of the reading: it is
/// the clock's.
#[verifier::external_body]
fn seconds_since_epoch() -> (r: Option<u64>) {
    std::time::SystemTime::now().duration_since(std::time::UNIX_EPOCH).ok().map(|d| d.as_secs())
}

/// A clock reading as a stored time: zero before the epoch, and the
/// largest `i64` for a reading too large for one.
pub open spec fn stored_seconds(reading: Option<u64>) -> i64 {
    match reading {
        Some(s) => if s <= i64::MAX as u64 {
            s as i64
        } else {
            i64::MAX
        },
        None => 0,
    }
}

/// A clock reading as a stored time.
pub fn seconds_to_store(reading: Option<u64>) -> (r: i64)
    ensures
        r == stored_seconds(reading),
{
    match reading {
        Some(s) => if s <= i64::MAX as u64 {
            s as i64
        } else {
            i64::MAX
        },
        None => 0,
    }
}

/// The wall clock in Unix seconds, the form every stored time takes.
pub fn unix_now() -> (r: i64)
    ensures
        r >= 0,
{
    seconds_to_store(seconds_since_epoch())
}

/// A count column, which can only be non-negative: the value where it fits
/// a count, else the message that names the column.
pub fn count(value: i64, column: &str) -> (r: Result<usize, sessions::Corrupt>)
    ensures
        match r {
            Ok(n) => 0 <= value <= usize::MAX && n == value,
            Err(e) => (value < 0 || value > usize::MAX) && e.0@ == sessions::negative_message(column@, value),
        },
{
    sessions::index(value, column)
}

} // verus!

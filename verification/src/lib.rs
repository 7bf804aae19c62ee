use vstd::prelude::*;

mod counter;
mod merge;
mod parse;
mod pattern;
mod schedule;
mod stamp;

pub use counter::CarryingUpIterator;
pub use merge::MergedIterator;
pub use parse::parse_range;
pub use pattern::Iter;
pub use pattern::UnitSchedule;
pub use schedule::pick_instant;
pub use schedule::LocalKind;
pub use schedule::PollStep;
pub use schedule::Schedule;
pub use schedule::MAX_SECS;
pub use stamp::weekday_of;
pub use stamp::Stamp;
pub use stamp::MAX_DAY;

//! Classification, ordering and reporting of bug-bounty and audit-contest
//! listings: which severities a listing accepts, bounties newest first,
//! contests longest first, and the time left on each contest.
pub mod model;
pub mod ordering;
pub mod report;
pub mod severity;
pub mod text;
pub mod time;

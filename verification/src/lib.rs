//! A verified core for a crontab viewer: cron field expansion, schedule
//! description in plain English, and histogram bucket counting.

pub mod describe;
pub mod entries;
pub mod fields;
pub mod strutil;

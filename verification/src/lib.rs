//! Train ticket watching: the page and user model of the bot, the train
//! table extracted from the timetable page, and the decisions the bot takes.

pub mod bot;
pub mod html;
pub mod text;
pub mod timetable;
pub mod train;
pub mod user;

//! The parts of a controller-driven film browser and player that decide
//! things: the names a film and its subtitles are given, the thumbnail a
//! shared cache files it under, the calendar a file's date is read in, what
//! the buttons on the legend do, and what every press does to the page.

pub mod command_line;
pub mod controls;
pub mod cues;
pub mod digest;
pub mod encoding;
pub mod facts;
pub mod film;
pub mod legend;
pub mod pad;
pub mod paths;
pub mod player;
pub mod poster;
pub mod posters;
pub mod resume;
pub mod subtitles;
pub mod text;
pub mod view;

//! Journal and todo notes kept in Markdown files: the registry of temporal
//! keywords, the resolution of date and time tokens, the parser of raw
//! notes, the parsers and formatters of day files and todo files, and the
//! sorting and filtering of what they hold.
pub mod text;
pub mod keywords;
pub mod calendar;
pub mod filters;
pub mod resolve;
pub mod input;
pub mod tags;
pub mod day_file;
pub mod format;
pub mod query;
pub mod todos;
pub mod todo_query;

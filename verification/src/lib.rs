//! Core of a terminal journal: the text format of day files, the parsing of
//! question chunks, and the decisions behind the prompts and the pager.

pub mod text;
pub mod cli;
pub mod question;
pub mod pager;
pub mod file_parsing;
pub mod loops;
pub mod entries_information;
pub mod utility;

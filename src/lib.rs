//! Turns the text lines of dictionary pages into entries: pronunciation annotations
//! are stripped, each line is classified as a new word, a new phrase or a
//! continuation, translations are accumulated on the current entry, and trailing
//! noise is trimmed at the end of each page.
pub mod chars;
pub mod classify;
pub mod cli;
pub mod dict;
pub mod extractor;
pub mod strip;

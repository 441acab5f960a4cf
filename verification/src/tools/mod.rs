//! The logic of a set of text tools in the manner of the Unix ones: counting
//! (`wc`), collapsing repeated lines (`uniq`), numbering (`cat`), echoing,
//! taking the head or tail of a text, comparing sorted files (`comm`),
//! printing calendars (`cal`) and picking fortunes.

pub mod wc;
pub mod uniq;
pub mod echo;
pub mod cat;
pub mod head;
pub mod tail;
pub mod comm;
pub mod cal;
pub mod fortune;

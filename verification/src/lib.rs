//! Text and file utilities in the manner of the classic Unix tools, as a
//! library of pure transformations: every function takes the text it works on
//! as plain values and returns what is to be written.

pub mod cat;
pub mod comm;
pub mod cut;
pub mod echo;
pub mod find;
pub mod grep;
pub mod head;
pub mod lines;
pub mod logging;
pub mod ls;
pub mod tail;
pub mod text;
pub mod uniq;
pub mod wc;

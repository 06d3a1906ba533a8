//! Line-oriented text alignment: each input line is split at the first (or
//! last) occurrence of a delimiter word, and all lines are rewritten so that
//! the delimiter occurrence sits in the same column, the left segments being
//! padded with spaces to the widest one observed.

pub mod align;
pub mod render;
pub mod split;

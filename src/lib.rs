//! Reading and rewriting the gold carried in a converted save document.
//!
//! A save is converted to a nested markup of `node` elements that carry
//! `attribute` entries. Gold lives in item nodes inside item lists; this crate
//! finds them, sums their amounts, and writes a new total into them.
pub mod gold;
pub mod lemmas;
pub mod lsx;
pub mod number;
pub mod scan;
pub mod session;
pub mod text;

pub use gold::{
    get_gold_info, modify_gold, modify_gold_with, parse_and_sum_gold, GoldError, GoldItemDisplay,
    LeftoverPolicy, SaveState,
};
pub use session::{validate_path_safety, ExtractState, PathError};

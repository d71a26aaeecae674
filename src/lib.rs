pub mod compare;
pub mod hiding;
pub mod text;

pub use compare::{is_valid_guess, words_equal, EqUnicodeInsensitive};
pub use hiding::{hide_picked, hide_words};
pub use text::{split_human, SplitHuman};

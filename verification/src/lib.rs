//! Keyword decks: fixed-format documents built bottom-up from fields, cards,
//! keywords and decks, with the rules for building, merging and clearing them.
//!
//! A [`Field`] is one named, fixed-width datum. A [`Card`] holds the fields of
//! one record, each under its name. A [`KeyWord`] is a named sequence of cards
//! that is active or commented out. A [`Deck`] is a sequence of keywords under
//! a prefix. Cards and decks are merged with `+`, and the right-hand operand
//! of a card merge wins where both hold a name.
//!
//! Every type has a view, written `@`, that says what it holds as plain
//! mathematical values: [`FieldView`], [`CardView`], [`KeyWordView`] and
//! [`DeckView`]. The contracts of all functions are stated over these views,
//! and two values are `==` exactly when their views are equal.

pub mod card;
pub mod deck;
pub mod field;
pub mod keyword;
mod text;

pub use card::{Card, CardError, CardView};
pub use deck::{Deck, DeckView};
pub use field::{Field, FieldError, FieldView};
pub use keyword::{KeyWord, KeyWordView};

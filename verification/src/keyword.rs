//! A keyword: a named sequence of cards that is active or commented out.

use crate::card::{Card, CardView};
use vstd::prelude::*;
use vstd::std_specs::cmp::PartialEqSpecImpl;

verus! {

/// What a [`KeyWord`] holds, as plain mathematical values.
pub struct KeyWordView {
    pub keyword: Seq<char>,
    pub cards: Seq<CardView>,
    pub is_commented: bool,
}

impl KeyWordView {
    /// The keyword marked as commented out, its name and cards untouched.
    pub open spec fn commented(self) -> KeyWordView {
        KeyWordView { is_commented: true, ..self }
    }

    /// The keyword marked as active, its name and cards untouched.
    pub open spec fn uncommented(self) -> KeyWordView {
        KeyWordView { is_commented: false, ..self }
    }

    /// The keyword after it was cleared: no name, no cards, and commented out,
    /// whatever it held before.
    pub open spec fn cleared(self) -> KeyWordView {
        KeyWordView { keyword: Seq::empty(), cards: Seq::empty(), is_commented: true }
    }
}

/// The empty keyword: no name, no cards, active.
pub open spec fn empty_keyword_view() -> KeyWordView {
    KeyWordView { keyword: Seq::empty(), cards: Seq::empty(), is_commented: false }
}

/// A named sequence of cards. The order of the cards is kept. A keyword that
/// is commented out is inactive: it stays in its deck and takes no part in
/// what is made of the deck.
#[derive(Debug)]
pub struct KeyWord {
    pub keyword: String,
    pub cards: Vec<Card>,
    pub is_commented: bool,
}

impl View for KeyWord {
    type V = KeyWordView;

    open spec fn view(&self) -> KeyWordView {
        KeyWordView {
            keyword: self.keyword@,
            cards: self.cards.deep_view(),
            is_commented: self.is_commented,
        }
    }
}

impl DeepView for KeyWord {
    type V = KeyWordView;

    open spec fn deep_view(&self) -> KeyWordView {
        self@
    }
}

/// Whether two lists of cards hold equal cards in the same order.
fn same_cards(a: &Vec<Card>, b: &Vec<Card>) -> (same: bool)
    ensures
        same == (a.deep_view() == b.deep_view()),
{
    if a.len() != b.len() {
        assert(a.deep_view().len() != b.deep_view().len());
        return false;
    }
    let mut i: usize = 0;
    while i < a.len()
        invariant
            a.len() == b.len(),
            i <= a.len(),
            forall|k: int| 0 <= k < i ==> a[k]@ == b[k]@,
        decreases a.len() - i,
    {
        if a[i] != b[i] {
            assert(a.deep_view()[i as int] != b.deep_view()[i as int]);
            return false;
        }
        i += 1;
    }
    assert(a.deep_view() =~= b.deep_view());
    true
}

/// A copy of a list of cards.
fn copy_cards(a: &Vec<Card>) -> (copy: Vec<Card>)
    ensures
        copy.deep_view() == a.deep_view(),
{
    let mut copy: Vec<Card> = Vec::new();
    let mut i: usize = 0;
    while i < a.len()
        invariant
            i <= a.len(),
            copy.len() == i,
            forall|k: int| 0 <= k < i ==> copy[k]@ == a[k]@,
        decreases a.len() - i,
    {
        copy.push(a[i].clone());
        i += 1;
    }
    assert(copy.deep_view() =~= a.deep_view());
    copy
}

impl KeyWord {
    /// A keyword of the given name, cards and state. Nothing is refused.
    pub fn new(keyword: String, cards: Vec<Card>, is_commented: bool) -> (made: KeyWord)
        ensures
            made@ == (KeyWordView {
                keyword: keyword@,
                cards: cards.deep_view(),
                is_commented: is_commented,
            }),
    {
        KeyWord { keyword, cards, is_commented }
    }

    /// The empty keyword: no name, no cards, active.
    pub fn empty_keyword() -> (made: KeyWord)
        ensures
            made@ == empty_keyword_view(),
    {
        let made = KeyWord { keyword: String::new(), cards: Vec::new(), is_commented: false };
        assert(made.cards.deep_view() =~= Seq::empty());
        made
    }

    /// Takes the cards and the name out of the keyword and comments it out.
    /// A cleared keyword is therefore not the empty keyword, which is active.
    pub fn clear(&mut self)
        ensures
            final(self)@ == old(self)@.cleared(),
    {
        self.cards.clear();
        self.keyword = String::new();
        self.is_commented = true;
        assert(self.cards.deep_view() =~= Seq::empty());
    }

    /// Comments the keyword out.
    pub fn comment(&mut self)
        ensures
            final(self)@ == old(self)@.commented(),
    {
        self.is_commented = true;
    }

    /// Makes the keyword active.
    pub fn uncomment(&mut self)
        ensures
            final(self)@ == old(self)@.uncommented(),
    {
        self.is_commented = false;
    }
}

impl Clone for KeyWord {
    fn clone(&self) -> (copy: KeyWord)
        ensures
            copy@ == self@,
    {
        KeyWord {
            keyword: self.keyword.clone(),
            cards: copy_cards(&self.cards),
            is_commented: self.is_commented,
        }
    }
}

impl PartialEq for KeyWord {
    fn eq(&self, other: &KeyWord) -> (same: bool) {
        self.keyword == other.keyword && same_cards(&self.cards, &other.cards)
            && self.is_commented == other.is_commented
    }
}

impl PartialEqSpecImpl for KeyWord {
    open spec fn obeys_eq_spec() -> bool {
        true
    }

    /// Two keywords are equal when their names, their cards in order and their
    /// states are.
    open spec fn eq_spec(&self, other: &KeyWord) -> bool {
        self@ == other@
    }
}

/// Commenting out and making active are idempotent, and each undoes the other
/// but for the state the keyword had before.
pub proof fn lemma_comment_idempotent(keyword: KeyWordView)
    ensures
        keyword.commented().commented() == keyword.commented(),
        keyword.uncommented().uncommented() == keyword.uncommented(),
        keyword.commented().uncommented() == keyword.uncommented(),
        keyword.uncommented().commented() == keyword.commented(),
        keyword.commented().is_commented,
        !keyword.uncommented().is_commented,
{
}

/// Clearing is idempotent, and a cleared keyword differs from the empty
/// keyword in its state alone.
pub proof fn lemma_clear_keyword_idempotent(keyword: KeyWordView)
    ensures
        keyword.cleared().cleared() == keyword.cleared(),
        keyword.cleared() == empty_keyword_view().commented(),
        keyword.cleared().uncommented() == empty_keyword_view(),
{
}

} // verus!

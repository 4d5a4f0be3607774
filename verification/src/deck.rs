//! A deck: a sequence of keywords under a prefix, the top-level document.

use crate::keyword::{KeyWord, KeyWordView};
use std::ops::Add;
use vstd::prelude::*;
use vstd::std_specs::cmp::PartialEqSpecImpl;
use vstd::std_specs::ops::AddSpecImpl;

verus! {

/// What a [`Deck`] holds, as plain mathematical values.
pub struct DeckView {
    pub keywords: Seq<KeyWordView>,
    pub prefix: Seq<char>,
}

impl DeckView {
    /// The deck merged with another: the keywords of this deck followed by
    /// those of the other, under the prefix of this deck.
    pub open spec fn merged(self, other: DeckView) -> DeckView {
        DeckView { keywords: self.keywords + other.keywords, prefix: self.prefix }
    }

    /// The deck with one more keyword behind the others.
    pub open spec fn with_keyword(self, keyword: KeyWordView) -> DeckView {
        DeckView { keywords: self.keywords.push(keyword), prefix: self.prefix }
    }

    /// The deck without its keywords, under the same prefix.
    pub open spec fn without_keywords(self) -> DeckView {
        DeckView { keywords: Seq::empty(), prefix: self.prefix }
    }

    /// The deck after it was emptied: the blank deck, whatever it held before.
    pub open spec fn emptied(self) -> DeckView {
        blank_deck()
    }
}

/// The blank deck: no keywords and an empty prefix.
pub open spec fn blank_deck() -> DeckView {
    DeckView { keywords: Seq::empty(), prefix: Seq::empty() }
}

/// A sequence of keywords under a prefix. The order of the keywords is kept;
/// the prefix is a free label.
#[derive(Debug)]
pub struct Deck {
    pub keywords: Vec<KeyWord>,
    pub prefix: String,
}

impl View for Deck {
    type V = DeckView;

    open spec fn view(&self) -> DeckView {
        DeckView { keywords: self.keywords.deep_view(), prefix: self.prefix@ }
    }
}

impl DeepView for Deck {
    type V = DeckView;

    open spec fn deep_view(&self) -> DeckView {
        self@
    }
}

/// Whether two lists of keywords hold equal keywords in the same order.
fn same_keywords(a: &Vec<KeyWord>, b: &Vec<KeyWord>) -> (same: bool)
    ensures
        same == (a.deep_view() == b.deep_view()),
{
    if a.len() != b.len() {
        assert(a.deep_view().len() != b.deep_view().len());
        return false;
    }
    let mut i: usize = 0;
    while i < a.len()
        invariant
            a.len() == b.len(),
            i <= a.len(),
            forall|k: int| 0 <= k < i ==> a[k]@ == b[k]@,
        decreases a.len() - i,
    {
        if a[i] != b[i] {
            assert(a.deep_view()[i as int] != b.deep_view()[i as int]);
            return false;
        }
        i += 1;
    }
    assert(a.deep_view() =~= b.deep_view());
    true
}

/// A copy of a list of keywords.
fn copy_keywords(a: &Vec<KeyWord>) -> (copy: Vec<KeyWord>)
    ensures
        copy.deep_view() == a.deep_view(),
{
    let mut copy: Vec<KeyWord> = Vec::new();
    let mut i: usize = 0;
    while i < a.len()
        invariant
            i <= a.len(),
            copy.len() == i,
            forall|k: int| 0 <= k < i ==> copy[k]@ == a[k]@,
        decreases a.len() - i,
    {
        copy.push(a[i].clone());
        i += 1;
    }
    assert(copy.deep_view() =~= a.deep_view());
    copy
}

impl Deck {
    /// A deck of the given keywords under an empty prefix.
    pub fn new(keywords: Vec<KeyWord>) -> (deck: Deck)
        ensures
            deck@ == (DeckView { keywords: keywords.deep_view(), prefix: Seq::empty() }),
    {
        Deck::new_with_prefix(keywords, String::new())
    }

    /// A deck of the given keywords under the given prefix.
    pub fn new_with_prefix(keywords: Vec<KeyWord>, prefix: String) -> (deck: Deck)
        ensures
            deck@ == (DeckView { keywords: keywords.deep_view(), prefix: prefix@ }),
    {
        Deck { keywords, prefix }
    }

    /// The blank deck: no keywords and an empty prefix.
    pub fn create_blank_deck() -> (deck: Deck)
        ensures
            deck@ == blank_deck(),
    {
        let deck = Deck { keywords: Vec::new(), prefix: String::new() };
        assert(deck.keywords.deep_view() =~= Seq::empty());
        deck
    }

    /// Takes every keyword out of the deck; the prefix stays.
    pub fn clear_keywords(&mut self)
        ensures
            final(self)@ == old(self)@.without_keywords(),
    {
        self.keywords.clear();
        assert(self.keywords.deep_view() =~= Seq::empty());
    }

    /// Takes every keyword out of the deck and empties the prefix: whatever
    /// the deck held, it is the blank deck again.
    pub fn empty(&mut self)
        ensures
            final(self)@ == old(self)@.emptied(),
    {
        self.clear_keywords();
        self.prefix = String::new();
    }
}

impl Add<Deck> for Deck {
    type Output = Deck;

    /// The two decks merged: the keywords of this deck followed by those of
    /// `rhs`, under the prefix of this deck. The prefix of `rhs` is dropped.
    fn add(self, rhs: Deck) -> (merged: Deck)
        ensures
            merged@ == self@.merged(rhs@),
    {
        let mut keywords = self.keywords;
        let mut added = rhs.keywords;
        keywords.append(&mut added);
        assert(keywords.deep_view() =~= self.keywords.deep_view() + rhs.keywords.deep_view());
        Deck { keywords, prefix: self.prefix }
    }
}

impl AddSpecImpl<Deck> for Deck {
    /// `+` is stated by the view of the deck it gives, see `add`, and not by
    /// naming that deck.
    open spec fn obeys_add_spec() -> bool {
        false
    }

    /// Any two decks can be merged.
    open spec fn add_req(self, rhs: Deck) -> bool {
        true
    }

    /// Not used, as `obeys_add_spec` says.
    open spec fn add_spec(self, rhs: Deck) -> Deck {
        self
    }
}

impl Add<KeyWord> for Deck {
    type Output = Deck;

    /// The deck with `rhs` behind its other keywords, under the same prefix.
    fn add(self, rhs: KeyWord) -> (deck: Deck)
        ensures
            deck@ == self@.with_keyword(rhs@),
    {
        let mut keywords = self.keywords;
        keywords.push(rhs);
        assert(keywords.deep_view() =~= self.keywords.deep_view().push(rhs@));
        Deck { keywords, prefix: self.prefix }
    }
}

impl AddSpecImpl<KeyWord> for Deck {
    /// `+` is stated by the view of the deck it gives, see `add`, and not by
    /// naming that deck.
    open spec fn obeys_add_spec() -> bool {
        false
    }

    /// Any keyword can be put behind any deck.
    open spec fn add_req(self, rhs: KeyWord) -> bool {
        true
    }

    /// Not used, as `obeys_add_spec` says.
    open spec fn add_spec(self, rhs: KeyWord) -> Deck {
        self
    }
}

impl Clone for Deck {
    fn clone(&self) -> (copy: Deck)
        ensures
            copy@ == self@,
    {
        Deck { keywords: copy_keywords(&self.keywords), prefix: self.prefix.clone() }
    }
}

impl PartialEq for Deck {
    fn eq(&self, other: &Deck) -> (same: bool) {
        same_keywords(&self.keywords, &other.keywords) && self.prefix == other.prefix
    }
}

impl PartialEqSpecImpl for Deck {
    open spec fn obeys_eq_spec() -> bool {
        true
    }

    /// Two decks are equal when their keywords in order and their prefixes
    /// are.
    open spec fn eq_spec(&self, other: &Deck) -> bool {
        self@ == other@
    }
}

/// A merged deck keeps the prefix of the left-hand deck, whatever the prefix of
/// the right-hand deck is, and holds the keywords of both, those of the
/// left-hand deck first and each in its order.
pub proof fn lemma_merge_keeps_left_prefix(left: DeckView, right: DeckView)
    ensures
        left.merged(right).prefix == left.prefix,
        left.merged(right).keywords.len() == left.keywords.len() + right.keywords.len(),
        forall|i: int|
            0 <= i < left.keywords.len() ==> left.merged(right).keywords[i] == left.keywords[i],
        forall|i: int|
            0 <= i < right.keywords.len() ==> left.merged(right).keywords[left.keywords.len() + i]
                == right.keywords[i],
{
}

/// Merging decks is associative: three decks merged give the same deck however
/// the two merges are grouped.
pub proof fn lemma_deck_merge_associative(first: DeckView, second: DeckView, third: DeckView)
    ensures
        first.merged(second).merged(third) == first.merged(second.merged(third)),
{
    assert(first.merged(second).merged(third).keywords =~= first.merged(
        second.merged(third),
    ).keywords);
}

/// Adding one keyword to a deck is merging the deck with a deck of that
/// keyword alone, under any prefix.
pub proof fn lemma_with_keyword_is_merge(deck: DeckView, keyword: KeyWordView, prefix: Seq<char>)
    ensures
        deck.with_keyword(keyword) == deck.merged(
            DeckView { keywords: seq![keyword], prefix: prefix },
        ),
{
    assert(deck.with_keyword(keyword).keywords =~= deck.keywords + seq![keyword]);
}

/// The blank deck has no keywords and an empty prefix, and emptying restores
/// it: an emptied deck is the blank deck whatever it held and whatever was
/// merged into it, and emptying it again changes nothing.
pub proof fn lemma_empty_restores_blank(deck: DeckView, other: DeckView, keyword: KeyWordView)
    ensures
        blank_deck().keywords.len() == 0,
        blank_deck().prefix.len() == 0,
        deck.emptied() == blank_deck(),
        deck.emptied().emptied() == deck.emptied(),
        deck.merged(other).emptied() == blank_deck(),
        deck.with_keyword(keyword).emptied() == blank_deck(),
        deck.without_keywords().emptied() == blank_deck(),
{
}

/// Clearing the keywords is idempotent and keeps the prefix; what is left is
/// the blank deck exactly when the prefix is empty.
pub proof fn lemma_clear_keywords_keeps_prefix(deck: DeckView)
    ensures
        deck.without_keywords().prefix == deck.prefix,
        deck.without_keywords().keywords.len() == 0,
        deck.without_keywords().without_keywords() == deck.without_keywords(),
        deck.without_keywords() == blank_deck() <==> deck.prefix.len() == 0,
{
    if deck.prefix.len() == 0 {
        assert(deck.prefix =~= Seq::empty());
    }
}

/// The keywords of `block`, taken `times` times over.
pub open spec fn repeated(block: Seq<KeyWordView>, times: nat) -> Seq<KeyWordView>
    decreases times,
{
    if times == 0 {
        Seq::empty()
    } else {
        repeated(block, (times - 1) as nat) + block
    }
}

/// Both sequences of keywords are one block taken some number of times over.
pub open spec fn repeat_one_block(left: Seq<KeyWordView>, right: Seq<KeyWordView>) -> bool {
    exists|block: Seq<KeyWordView>, m: nat, n: nat|
        left == #[trigger] repeated(block, m) && right == #[trigger] repeated(block, n)
}

/// Some keyword of the one sequence and some keyword of the other have one
/// name and differ.
pub open spec fn share_name_differently(left: Seq<KeyWordView>, right: Seq<KeyWordView>) -> bool {
    exists|i: int, j: int|
        0 <= i < left.len() && 0 <= j < right.len() && (#[trigger] left[i]).keyword == (
        #[trigger] right[j]).keyword && left[i] != right[j]
}

/// A block taken `m` times and then `n` times is the block taken `m + n`
/// times.
proof fn lemma_repeated_sum(block: Seq<KeyWordView>, m: nat, n: nat)
    ensures
        repeated(block, m) + repeated(block, n) == repeated(block, m + n),
    decreases n,
{
    if n == 0 {
        assert(repeated(block, m) + repeated(block, 0) =~= repeated(block, m));
    } else {
        let fewer = (n - 1) as nat;
        lemma_repeated_sum(block, m, fewer);
        assert(repeated(block, m) + (repeated(block, fewer) + block) =~= (repeated(block, m)
            + repeated(block, fewer)) + block);
        assert((m + n - 1) as nat == m + fewer);
    }
}

/// Two sequences that give the same sequence in either order are one block
/// taken some number of times over. The block and the two numbers are
/// returned.
proof fn lemma_commuting_repeat(left: Seq<KeyWordView>, right: Seq<KeyWordView>) -> (found: (
    Seq<KeyWordView>,
    nat,
    nat,
))
    requires
        left + right == right + left,
    ensures
        left == repeated(found.0, found.1),
        right == repeated(found.0, found.2),
    decreases left.len() + right.len(),
{
    let whole = left + right;
    let swapped = right + left;
    if left.len() == 0 {
        assert(repeated(right, 0) =~= left);
        assert(repeated(right, 1) =~= right);
        (right, 0, 1)
    } else if right.len() == 0 {
        assert(repeated(left, 0) =~= right);
        assert(repeated(left, 1) =~= left);
        (left, 1, 0)
    } else if left.len() <= right.len() {
        let rest = right.skip(left.len() as int);
        assert forall|k: int| 0 <= k < left.len() implies right[k] == left[k] by {
            assert(whole[k] == left[k]);
            assert(swapped[k] == right[k]);
        }
        assert(right =~= left + rest);
        assert forall|k: int| 0 <= k < left.len() + rest.len() implies (left + rest)[k] == (rest
            + left)[k] by {
            assert(whole[left.len() + k] == right[k]);
            if k < rest.len() {
                assert(swapped[left.len() + k] == right[left.len() + k]);
            } else {
                assert(swapped[left.len() + k] == left[k - rest.len()]);
            }
        }
        assert(left + rest =~= rest + left);
        let (block, m, n) = lemma_commuting_repeat(left, rest);
        lemma_repeated_sum(block, m, n);
        (block, m, m + n)
    } else {
        let rest = left.skip(right.len() as int);
        assert forall|k: int| 0 <= k < right.len() implies left[k] == right[k] by {
            assert(whole[k] == left[k]);
            assert(swapped[k] == right[k]);
        }
        assert(left =~= right + rest);
        assert forall|k: int| 0 <= k < right.len() + rest.len() implies (right + rest)[k] == (rest
            + right)[k] by {
            assert(swapped[right.len() + k] == left[k]);
            if k < rest.len() {
                assert(whole[right.len() + k] == left[right.len() + k]);
            } else {
                assert(whole[right.len() + k] == right[k - rest.len()]);
            }
        }
        assert(right + rest =~= rest + right);
        let (block, m, n) = lemma_commuting_repeat(right, rest);
        lemma_repeated_sum(block, m, n);
        (block, m + n, m)
    }
}

/// When the order of a merge does not matter: two decks give the same deck
/// merged in the one order and in the other exactly when they have the same
/// prefix and their keywords are one block taken some number of times over
/// (no keywords count as a block taken zero times).
pub proof fn lemma_deck_merge_commutes_exactly(left: DeckView, right: DeckView)
    ensures
        left.merged(right) == right.merged(left) <==> left.prefix == right.prefix
            && repeat_one_block(left.keywords, right.keywords),
{
    if left.merged(right) == right.merged(left) {
        let (block, m, n) = lemma_commuting_repeat(left.keywords, right.keywords);
        assert(left.keywords == repeated(block, m) && right.keywords == repeated(block, n));
    }
    if left.prefix == right.prefix && repeat_one_block(left.keywords, right.keywords) {
        let (block, m, n) = choose|block: Seq<KeyWordView>, m: nat, n: nat|
            left.keywords == #[trigger] repeated(block, m) && right.keywords == #[trigger] repeated(
                block,
                n,
            );
        lemma_repeated_sum(block, m, n);
        lemma_repeated_sum(block, n, m);
    }
}

/// Merging decks is not commutative: two decks that hold different keywords of
/// one name give different decks when merged in the one order and in the
/// other, unless they have the same prefix and their keywords are one block
/// taken some number of times over.
pub proof fn lemma_deck_merge_not_commutative(left: DeckView, right: DeckView)
    requires
        share_name_differently(left.keywords, right.keywords),
        !(left.prefix == right.prefix && repeat_one_block(left.keywords, right.keywords)),
    ensures
        left.merged(right) != right.merged(left),
{
    lemma_deck_merge_commutes_exactly(left, right);
}

/// Two decks that hold different keywords at one place give different decks
/// when merged in the one order and in the other.
pub proof fn lemma_deck_merge_differs_at(left: DeckView, right: DeckView, i: int)
    requires
        0 <= i < left.keywords.len(),
        i < right.keywords.len(),
        left.keywords[i] != right.keywords[i],
    ensures
        left.merged(right) != right.merged(left),
{
    assert(left.merged(right).keywords[i] == left.keywords[i]);
    assert(right.merged(left).keywords[i] == right.keywords[i]);
}

} // verus!

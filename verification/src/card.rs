//! A card: the fields of one fixed-format record, each under its name.

use crate::field::{Field, FieldView};
use crate::text::same_text;
use std::ops::Add;
use vstd::prelude::*;
use vstd::set_lib::lemma_subset_equality;
use vstd::std_specs::cmp::PartialEqSpecImpl;
use vstd::std_specs::ops::AddSpecImpl;

verus! {

/// What a [`Card`] holds: its fields, each under its name.
pub type CardView = Map<Seq<char>, FieldView>;

/// The mapping that a sequence of fields folds into, taken from the first to
/// the last: each field goes under its name and replaces what was there.
pub open spec fn fold_fields(fields: Seq<FieldView>) -> CardView
    decreases fields.len(),
{
    if fields.len() == 0 {
        Map::empty()
    } else {
        fold_fields(fields.drop_last()).insert(fields.last().name, fields.last())
    }
}

/// No two fields of the sequence share a name.
pub open spec fn distinct_names(fields: Seq<FieldView>) -> bool {
    forall|i: int, j: int| 0 <= i < j < fields.len() ==> fields[i].name != fields[j].name
}

/// Some field of the sequence has the given name.
pub open spec fn has_name(fields: Seq<FieldView>, name: Seq<char>) -> bool {
    exists|i: int| 0 <= i < fields.len() && #[trigger] fields[i].name == name
}

/// The mapping of two cards merged: the entries of both, and where both hold
/// a name, the entry of the right-hand card.
pub open spec fn merge_cards(left: CardView, right: CardView) -> CardView {
    left.union_prefer_right(right)
}

/// A folded sequence holds exactly the names of its fields, each field under
/// its own name, and is finite.
pub proof fn lemma_fold_names(fields: Seq<FieldView>)
    ensures
        fold_fields(fields).dom().finite(),
        forall|name: Seq<char>|
            fold_fields(fields).dom().contains(name) <==> has_name(fields, name),
        forall|name: Seq<char>|
            fold_fields(fields).dom().contains(name) ==> (#[trigger] fold_fields(
                fields,
            )[name]).name == name,
    decreases fields.len(),
{
    if fields.len() > 0 {
        let front = fields.drop_last();
        let last = fields.last();
        lemma_fold_names(front);
        assert forall|name: Seq<char>|
            fold_fields(fields).dom().contains(name) <==> has_name(fields, name) by {
            if has_name(fields, name) {
                let i = choose|i: int| 0 <= i < fields.len() && #[trigger] fields[i].name == name;
                if i < front.len() {
                    assert(front[i].name == name);
                }
            }
            if has_name(front, name) {
                let i = choose|i: int| 0 <= i < front.len() && #[trigger] front[i].name == name;
                assert(fields[i].name == name);
            }
            if name == last.name {
                assert(fields[fields.len() - 1].name == name);
            }
        }
    }
}

/// Last write wins: a field that no later field of the sequence shares its
/// name with is the one that the folded sequence holds under that name.
pub proof fn lemma_fold_last_wins(fields: Seq<FieldView>, i: int)
    requires
        0 <= i < fields.len(),
        forall|j: int| i < j < fields.len() ==> fields[j].name != fields[i].name,
    ensures
        fold_fields(fields).dom().contains(fields[i].name),
        fold_fields(fields)[fields[i].name] == fields[i],
    decreases fields.len(),
{
    if i < fields.len() - 1 {
        let front = fields.drop_last();
        assert(front[i] == fields[i]);
        assert forall|j: int| i < j < front.len() implies front[j].name != front[i].name by {
            assert(front[j] == fields[j]);
        }
        lemma_fold_last_wins(front, i);
    }
}

/// A sequence of fields with distinct names folds into as many entries as it
/// has fields, and each entry is the field it came from.
pub proof fn lemma_fold_distinct(fields: Seq<FieldView>)
    requires
        distinct_names(fields),
    ensures
        fold_fields(fields).dom().finite(),
        fold_fields(fields).len() == fields.len(),
        forall|i: int|
            0 <= i < fields.len() ==> fold_fields(fields).dom().contains(
                #[trigger] fields[i].name,
            ) && fold_fields(fields)[fields[i].name] == fields[i],
    decreases fields.len(),
{
    lemma_fold_names(fields);
    assert forall|i: int| 0 <= i < fields.len() implies fold_fields(fields).dom().contains(
        #[trigger] fields[i].name,
    ) && fold_fields(fields)[fields[i].name] == fields[i] by {
        lemma_fold_last_wins(fields, i);
    }
    if fields.len() > 0 {
        let front = fields.drop_last();
        lemma_fold_distinct(front);
        lemma_fold_names(front);
        if has_name(front, fields.last().name) {
            let i = choose|i: int|
                0 <= i < front.len() && #[trigger] front[i].name == fields.last().name;
            assert(fields[i].name == fields[fields.len() - 1].name);
        }
    }
}

/// Putting a field where one of its name stood replaces the entry under that
/// name and keeps the names distinct.
proof fn lemma_fold_replace(fields: Seq<FieldView>, i: int, field: FieldView)
    requires
        distinct_names(fields),
        0 <= i < fields.len(),
        fields[i].name == field.name,
    ensures
        distinct_names(fields.update(i, field)),
        fold_fields(fields.update(i, field)) == fold_fields(fields).insert(field.name, field),
{
    let after = fields.update(i, field);
    let wanted = fold_fields(fields).insert(field.name, field);
    lemma_fold_names(fields);
    lemma_fold_names(after);
    lemma_fold_distinct(fields);
    lemma_fold_distinct(after);
    assert forall|name: Seq<char>| has_name(fields, name) <==> has_name(after, name) by {
        if has_name(fields, name) {
            let j = choose|j: int| 0 <= j < fields.len() && #[trigger] fields[j].name == name;
            assert(after[j].name == name);
        }
        if has_name(after, name) {
            let j = choose|j: int| 0 <= j < after.len() && #[trigger] after[j].name == name;
            assert(fields[j].name == name);
        }
    }
    assert(has_name(fields, field.name));
    assert forall|name: Seq<char>| wanted.dom().contains(name) implies #[trigger] fold_fields(
        after,
    )[name] == wanted[name] by {
        if name != field.name {
            assert(fold_fields(fields).dom().contains(name));
        }
        assert(has_name(fields, name));
        let j = choose|j: int| 0 <= j < fields.len() && #[trigger] fields[j].name == name;
        assert(after[j].name == name);
        assert(fold_fields(fields)[fields[j].name] == fields[j]);
        assert(fold_fields(after)[after[j].name] == after[j]);
    }
    assert forall|name: Seq<char>|
        fold_fields(after).dom().contains(name) <==> wanted.dom().contains(name) by {
        assert(has_name(after, name) <==> has_name(fields, name));
    }
    assert(fold_fields(after) =~= wanted);
}

/// Putting a field of a new name behind the others adds it under its name and
/// keeps the names distinct.
proof fn lemma_fold_push(fields: Seq<FieldView>, field: FieldView)
    ensures
        fold_fields(fields.push(field)) == fold_fields(fields).insert(field.name, field),
        distinct_names(fields) && !has_name(fields, field.name) ==> distinct_names(
            fields.push(field),
        ),
{
    assert(fields.push(field).drop_last() =~= fields);
    if distinct_names(fields) && !has_name(fields, field.name) {
        let after = fields.push(field);
        assert forall|i: int, j: int| 0 <= i < j < after.len() implies after[i].name
            != after[j].name by {
            if j == fields.len() {
                assert(fields[i].name != field.name);
            }
        }
    }
}

/// The fields of one fixed-format record, each under its name. No two fields
/// of a card share a name: a field that comes in under a name that the card
/// holds replaces the one that was there. A card is meant for the handful of
/// fields of one record, and finds a field by looking through them.
#[derive(Debug)]
pub struct Card {
    values: Vec<Field>,
}

impl View for Card {
    type V = CardView;

    closed spec fn view(&self) -> CardView {
        fold_fields(self.values.deep_view())
    }
}

impl DeepView for Card {
    type V = CardView;

    open spec fn deep_view(&self) -> CardView {
        self@
    }
}

/// Where the field of the given name stands among `values`, if one does.
fn find(values: &Vec<Field>, name: &str) -> (found: Option<usize>)
    ensures
        match found {
            Some(i) => i < values.len() && values[i as int]@.name == name@,
            None => !has_name(values.deep_view(), name@),
        },
{
    let mut i: usize = 0;
    while i < values.len()
        invariant
            i <= values.len(),
            forall|k: int| 0 <= k < i ==> values[k]@.name != name@,
        decreases values.len() - i,
    {
        if same_text(values[i].name.as_str(), name) {
            return Some(i);
        }
        i += 1;
    }
    assert forall|k: int| 0 <= k < values.deep_view().len() implies values.deep_view()[k].name
        != name@ by {
        assert(values.deep_view()[k] == values[k]@);
    }
    None
}

/// Puts a field among `values` under its name, in the place of the field that
/// had the name if there was one.
fn put(values: &mut Vec<Field>, field: Field)
    requires
        distinct_names(old(values).deep_view()),
    ensures
        distinct_names(final(values).deep_view()),
        fold_fields(final(values).deep_view()) == fold_fields(old(values).deep_view()).insert(
            field@.name,
            field@,
        ),
{
    let ghost before = values.deep_view();
    match find(values, field.name.as_str()) {
        Some(i) => {
            values[i] = field;
            proof {
                assert(values.deep_view() =~= before.update(i as int, field@));
                lemma_fold_replace(before, i as int, field@);
            }
        },
        None => {
            values.push(field);
            proof {
                assert(values.deep_view() =~= before.push(field@));
                lemma_fold_push(before, field@);
            }
        },
    }
}

impl Card {
    #[verifier::type_invariant]
    spec fn names_are_distinct(&self) -> bool {
        distinct_names(self.values.deep_view())
    }

    /// Every card is finite and holds each field under that field's own name.
    pub proof fn lemma_keyed_by_name(&self)
        ensures
            self@.dom().finite(),
            forall|name: Seq<char>|
                self@.dom().contains(name) ==> (#[trigger] self@[name]).name == name,
    {
        lemma_fold_names(self.values.deep_view());
    }

    /// The card that the fields fold into, taken from the first to the last:
    /// where two of them share a name, the later one stays.
    pub fn new(fields: Vec<Field>) -> (card: Card)
        ensures
            card@ == fold_fields(fields.deep_view()),
    {
        let ghost given = fields.deep_view();
        let mut values: Vec<Field> = Vec::new();
        assert(values.deep_view() =~= given.take(0));
        for field in it: fields
            invariant
                it.seq() == fields@,
                given == fields.deep_view(),
                distinct_names(values.deep_view()),
                fold_fields(values.deep_view()) == fold_fields(given.take(it.index() as int)),
        {
            proof {
                let n = it.index() as int;
                assert(given.take(n + 1).drop_last() =~= given.take(n));
                assert(given.take(n + 1).last() == field@);
            }
            put(&mut values, field);
        }
        assert(given.take(given.len() as int) =~= given);
        Card { values }
    }

    /// The card without fields.
    pub fn default() -> (card: Card)
        ensures
            card@ == Map::<Seq<char>, FieldView>::empty(),
    {
        let values: Vec<Field> = Vec::new();
        assert(values.deep_view() =~= Seq::empty());
        Card { values }
    }

    /// Takes every field out of the card.
    pub fn clear(&mut self)
        ensures
            final(self)@ == Map::<Seq<char>, FieldView>::empty(),
    {
        let values: Vec<Field> = Vec::new();
        assert(values.deep_view() =~= Seq::empty());
        self.values = values;
    }

    /// How many fields the card holds.
    pub fn len(&self) -> (n: usize)
        ensures
            n == self@.len(),
    {
        proof {
            use_type_invariant(self);
            lemma_fold_distinct(self.values.deep_view());
        }
        self.values.len()
    }

    /// Whether the card holds no field.
    pub fn is_empty(&self) -> (empty: bool)
        ensures
            empty == (self@ == Map::<Seq<char>, FieldView>::empty()),
    {
        proof {
            use_type_invariant(self);
            lemma_fold_distinct(self.values.deep_view());
            if self.values.len() == 0 {
                assert(self@ =~= Map::<Seq<char>, FieldView>::empty());
            }
        }
        self.values.len() == 0
    }

    /// Whether the card holds a field of the given name.
    pub fn contains_key(&self, name: &str) -> (held: bool)
        ensures
            held == self@.dom().contains(name@),
    {
        self.get(name).is_some()
    }

    /// The field that the card holds under the given name, if it holds one.
    pub fn get(&self, name: &str) -> (found: Option<&Field>)
        ensures
            match found {
                Some(field) => self@.dom().contains(name@) && field@ == self@[name@],
                None => !self@.dom().contains(name@),
            },
    {
        proof {
            use_type_invariant(self);
            lemma_fold_names(self.values.deep_view());
            lemma_fold_distinct(self.values.deep_view());
        }
        match find(&self.values, name) {
            Some(i) => {
                assert(self.values.deep_view()[i as int] == self.values[i as int]@);
                Some(&self.values[i])
            },
            None => None,
        }
    }

    /// The fields of the card, in no order that a caller may rely on. Their
    /// names are distinct, and folded they give the card again.
    pub fn fields(&self) -> (all: &Vec<Field>)
        ensures
            distinct_names(all.deep_view()),
            fold_fields(all.deep_view()) == self@,
    {
        proof {
            use_type_invariant(self);
        }
        &self.values
    }
}

impl Add<Card> for Card {
    type Output = Card;

    /// The two cards merged: the fields of both, and where both hold a name,
    /// the field of `rhs`.
    fn add(self, rhs: Card) -> (merged: Card)
        ensures
            merged@ == merge_cards(self@, rhs@),
    {
        proof {
            use_type_invariant(&self);
        }
        let ghost left = self@;
        let ghost added = rhs.values.deep_view();
        let mut values = self.values;
        assert(added.take(0) =~= Seq::empty());
        assert(merge_cards(left, fold_fields(added.take(0))) =~= left);
        for field in it: rhs.values
            invariant
                it.seq() == rhs.values@,
                added == rhs.values.deep_view(),
                distinct_names(values.deep_view()),
                fold_fields(values.deep_view()) == merge_cards(
                    left,
                    fold_fields(added.take(it.index() as int)),
                ),
        {
            proof {
                let n = it.index() as int;
                assert(added.take(n + 1).drop_last() =~= added.take(n));
                assert(added.take(n + 1).last() == field@);
                assert(merge_cards(left, fold_fields(added.take(n))).insert(field@.name, field@)
                    =~= merge_cards(left, fold_fields(added.take(n + 1))));
            }
            put(&mut values, field);
        }
        assert(added.take(added.len() as int) =~= added);
        Card { values }
    }
}

impl Add<Field> for Card {
    type Output = Card;

    /// The card with `rhs` under its name, in the place of the field that had
    /// the name if there was one.
    fn add(self, rhs: Field) -> (card: Card)
        ensures
            card@ == self@.insert(rhs@.name, rhs@),
    {
        proof {
            use_type_invariant(&self);
        }
        let mut values = self.values;
        put(&mut values, rhs);
        Card { values }
    }
}

impl AddSpecImpl<Card> for Card {
    /// `+` is stated by the view of the card it gives, see `add`, and not by
    /// naming that card: two cards of one view may store their fields in
    /// different orders.
    open spec fn obeys_add_spec() -> bool {
        false
    }

    /// Any two cards can be merged.
    open spec fn add_req(self, rhs: Card) -> bool {
        true
    }

    /// Not used, as `obeys_add_spec` says.
    open spec fn add_spec(self, rhs: Card) -> Card {
        self
    }
}

impl AddSpecImpl<Field> for Card {
    /// `+` is stated by the view of the card it gives, see `add`, and not by
    /// naming that card.
    open spec fn obeys_add_spec() -> bool {
        false
    }

    /// Any field can be put into any card.
    open spec fn add_req(self, rhs: Field) -> bool {
        true
    }

    /// Not used, as `obeys_add_spec` says.
    open spec fn add_spec(self, rhs: Field) -> Card {
        self
    }
}

impl Clone for Card {
    fn clone(&self) -> (copy: Card)
        ensures
            copy@ == self@,
    {
        proof {
            use_type_invariant(self);
        }
        let mut values: Vec<Field> = Vec::new();
        let mut i: usize = 0;
        while i < self.values.len()
            invariant
                i <= self.values.len(),
                values.len() == i,
                forall|k: int| 0 <= k < i ==> values[k]@ == self.values[k]@,
            decreases self.values.len() - i,
        {
            values.push(self.values[i].clone());
            i += 1;
        }
        assert(values.deep_view() =~= self.values.deep_view());
        Card { values }
    }
}

impl PartialEq for Card {
    fn eq(&self, other: &Card) -> (same: bool) {
        let ghost mine = self.values.deep_view();
        let ghost theirs = other.values.deep_view();
        proof {
            use_type_invariant(self);
            use_type_invariant(other);
            lemma_fold_names(mine);
            lemma_fold_names(theirs);
            lemma_fold_distinct(mine);
            lemma_fold_distinct(theirs);
        }
        if self.values.len() != other.values.len() {
            return false;
        }
        let mut i: usize = 0;
        while i < self.values.len()
            invariant
                i <= self.values.len(),
                mine == self.values.deep_view(),
                theirs == other.values.deep_view(),
                self@ == fold_fields(mine),
                other@ == fold_fields(theirs),
                forall|k: int|
                    0 <= k < mine.len() ==> self@.dom().contains(#[trigger] mine[k].name)
                        && self@[mine[k].name] == mine[k],
                forall|k: int|
                    0 <= k < theirs.len() ==> other@.dom().contains(#[trigger] theirs[k].name)
                        && other@[theirs[k].name] == theirs[k],
                forall|name: Seq<char>| self@.dom().contains(name) <==> has_name(mine, name),
                forall|name: Seq<char>| other@.dom().contains(name) <==> has_name(theirs, name),
                forall|k: int|
                    0 <= k < i ==> other@.dom().contains(#[trigger] mine[k].name)
                        && other@[mine[k].name] == mine[k],
            decreases self.values.len() - i,
        {
            assert(mine[i as int] == self.values[i as int]@);
            match find(&other.values, self.values[i].name.as_str()) {
                Some(j) => {
                    assert(theirs[j as int] == other.values[j as int]@);
                    if self.values[i] != other.values[j] {
                        assert(self@[mine[i as int].name] != other@[mine[i as int].name]);
                        return false;
                    }
                },
                None => {
                    assert(self@.dom().contains(mine[i as int].name));
                    assert(!other@.dom().contains(mine[i as int].name));
                    return false;
                },
            }
            i += 1;
        }
        proof {
            assert forall|name: Seq<char>| #[trigger]
                self@.dom().contains(name) implies other@.dom().contains(name) && other@[name]
                == self@[name] by {
                assert(has_name(mine, name));
                let k = choose|k: int| 0 <= k < mine.len() && #[trigger] mine[k].name == name;
                assert(other@.dom().contains(mine[k].name));
                assert(self@[mine[k].name] == mine[k]);
            }
            assert(self@.dom().subset_of(other@.dom()));
            lemma_subset_equality(self@.dom(), other@.dom());
            assert(self@ =~= other@);
        }
        true
    }
}

impl PartialEqSpecImpl for Card {
    open spec fn obeys_eq_spec() -> bool {
        true
    }

    /// Two cards are equal when they hold the same fields under the same
    /// names.
    open spec fn eq_spec(&self, other: &Card) -> bool {
        self@ == other@
    }
}

/// Where the right-hand card holds a name, the merged card holds the
/// right-hand card's field under it.
pub proof fn lemma_merge_right_wins(left: CardView, right: CardView, name: Seq<char>)
    requires
        right.dom().contains(name),
    ensures
        merge_cards(left, right).dom().contains(name),
        merge_cards(left, right)[name] == right[name],
{
}

/// Where only the left-hand card holds a name, the merged card holds the
/// left-hand card's field under it.
pub proof fn lemma_merge_keeps_left(left: CardView, right: CardView, name: Seq<char>)
    requires
        left.dom().contains(name),
        !right.dom().contains(name),
    ensures
        merge_cards(left, right).dom().contains(name),
        merge_cards(left, right)[name] == left[name],
{
}

/// Merging is associative: three cards merged give the same card however the
/// two merges are grouped.
pub proof fn lemma_merge_associative(first: CardView, second: CardView, third: CardView)
    ensures
        merge_cards(merge_cards(first, second), third) == merge_cards(
            first,
            merge_cards(second, third),
        ),
{
    assert(merge_cards(merge_cards(first, second), third) =~= merge_cards(
        first,
        merge_cards(second, third),
    ));
}

/// Merging is not commutative: two cards that hold different fields under one
/// name give different cards when merged in the one order and in the other.
pub proof fn lemma_merge_not_commutative(left: CardView, right: CardView, name: Seq<char>)
    requires
        left.dom().contains(name),
        right.dom().contains(name),
        left[name] != right[name],
    ensures
        merge_cards(left, right) != merge_cards(right, left),
{
    assert(merge_cards(left, right)[name] == right[name]);
    assert(merge_cards(right, left)[name] == left[name]);
}

/// Adding one field to a card is merging the card with the card of that field
/// alone.
pub proof fn lemma_insert_is_merge(card: CardView, field: FieldView)
    ensures
        card.insert(field.name, field) == merge_cards(card, fold_fields(seq![field])),
{
    let single = seq![field];
    assert(single.drop_last() =~= Seq::<FieldView>::empty());
    assert(fold_fields(single.drop_last()) == Map::<Seq<char>, FieldView>::empty());
    assert(fold_fields(single) =~= Map::<Seq<char>, FieldView>::empty().insert(field.name, field));
    assert(card.insert(field.name, field) =~= merge_cards(card, fold_fields(single)));
}

/// The error reserved for a card whose fields do not go together. No card is
/// refused at present: a field under a name that the card holds replaces the
/// one that was there.
#[derive(Debug, Clone, Copy)]
pub struct CardError;

impl CardError {
    /// The text that describes the error.
    pub fn message(&self) -> (text: String)
        ensures
            text@ == "Invalid card formulation! Must be: ..."@,
    {
        "Invalid card formulation! Must be: ...".to_owned()
    }
}

} // verus!

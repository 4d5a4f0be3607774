//! A single named, fixed-width datum of a card.

use crate::text::{copy_texts, same_texts};
use vstd::prelude::*;
use vstd::std_specs::cmp::PartialEqSpecImpl;

verus! {

/// The column width a field has when none is given.
pub const DEFAULT_WIDTH: i8 = 10;

/// What a [`Field`] holds, as plain mathematical values.
pub struct FieldView {
    pub name: Seq<char>,
    pub default: Seq<char>,
    pub help: Seq<char>,
    pub position: i8,
    pub options: Seq<Seq<char>>,
    pub width: i8,
}

/// A named, fixed-width datum with a default value, a help text, a position
/// relative to its card and a list of allowed option strings. An empty list of
/// options means that the value is not restricted; an empty name marks a blank
/// field.
#[derive(Debug)]
pub struct Field {
    pub name: String,
    pub default: String,
    pub help: String,
    pub position: i8,
    pub options: Vec<String>,
    pub width: i8,
}

impl View for Field {
    type V = FieldView;

    open spec fn view(&self) -> FieldView {
        FieldView {
            name: self.name@,
            default: self.default@,
            help: self.help@,
            position: self.position,
            options: self.options.deep_view(),
            width: self.width,
        }
    }
}

impl DeepView for Field {
    type V = FieldView;

    open spec fn deep_view(&self) -> FieldView {
        self@
    }
}

/// The zero-value field: empty texts, position 0, no options and the default
/// width.
pub open spec fn blank_field() -> FieldView {
    FieldView {
        name: Seq::empty(),
        default: Seq::empty(),
        help: Seq::empty(),
        position: 0,
        options: Seq::empty(),
        width: DEFAULT_WIDTH,
    }
}

impl FieldView {
    /// The field after it was cleared: the zero-value field, whatever it held
    /// before.
    pub open spec fn cleared(self) -> FieldView {
        blank_field()
    }
}

impl Field {
    /// The zero-value field; the same as [`Field::default`].
    pub fn new() -> (f: Field)
        ensures
            f@ == blank_field(),
    {
        Field::default()
    }

    /// The zero-value field.
    pub fn default() -> (f: Field)
        ensures
            f@ == blank_field(),
    {
        let f = Field {
            name: String::new(),
            default: String::new(),
            help: String::new(),
            position: 0,
            options: Vec::new(),
            width: DEFAULT_WIDTH,
        };
        assert(f.options.deep_view() =~= Seq::empty());
        f
    }

    /// A field made of the given attributes. No combination of attributes is
    /// refused, so the result is always `Ok`.
    pub fn build(
        name: String,
        default: String,
        help: String,
        position: i8,
        options: Vec<String>,
        width: i8,
    ) -> (built: Result<Field, FieldError>)
        ensures
            built is Ok,
            built->Ok_0@ == (FieldView {
                name: name@,
                default: default@,
                help: help@,
                position: position,
                options: options.deep_view(),
                width: width,
            }),
    {
        Ok(Field { name, default, help, position, options, width })
    }

    /// Resets the field to the zero-value field.
    pub fn clear(&mut self)
        ensures
            final(self)@ == old(self)@.cleared(),
    {
        self.update(Field::default());
    }

    /// Replaces every attribute of the field by that of `rhs`.
    pub fn update(&mut self, rhs: Field)
        ensures
            final(self)@ == rhs@,
    {
        self.name = rhs.name;
        self.default = rhs.default;
        self.help = rhs.help;
        self.position = rhs.position;
        self.options = rhs.options;
        self.width = rhs.width;
    }
}

impl Clone for Field {
    fn clone(&self) -> (copy: Field)
        ensures
            copy@ == self@,
    {
        Field {
            name: self.name.clone(),
            default: self.default.clone(),
            help: self.help.clone(),
            position: self.position,
            options: copy_texts(&self.options),
            width: self.width,
        }
    }
}

impl PartialEq for Field {
    fn eq(&self, other: &Field) -> (same: bool) {
        self.name == other.name && self.default == other.default && self.help == other.help
            && self.position == other.position && same_texts(&self.options, &other.options)
            && self.width == other.width
    }
}

impl PartialEqSpecImpl for Field {
    open spec fn obeys_eq_spec() -> bool {
        true
    }

    /// Two fields are equal when all their attributes are.
    open spec fn eq_spec(&self, other: &Field) -> bool {
        self@ == other@
    }
}

/// Clearing is idempotent: a field cleared twice is as a field cleared once,
/// the zero-value field.
pub proof fn lemma_clear_idempotent(field: FieldView)
    ensures
        field.cleared().cleared() == field.cleared(),
        field.cleared() == blank_field(),
{
}

/// The error reserved for a field whose attributes do not go together. No field
/// is refused at present.
#[derive(Debug, Clone, Copy)]
pub struct FieldError;

impl FieldError {
    /// The text that describes the error.
    pub fn message(&self) -> (text: String)
        ensures
            text@ == "Invalid field formulation! Must be: ..."@,
    {
        "Invalid field formulation! Must be: ...".to_owned()
    }
}

} // verus!

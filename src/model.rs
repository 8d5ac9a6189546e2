//! The document that a resource file becomes, and its mathematical view.
use vstd::prelude::*;

verus! {

/// A whole resource file: its sections, in order.
#[derive(Debug)]
pub struct File {
    pub sections: Vec<Section>,
}

/// A section: its keys, in the order in which they were read.
#[derive(Debug)]
pub struct Section {
    pub keys: Vec<Key>,
}

/// Represents a string resource key with its localizations.
#[derive(Debug)]
pub struct Key {
    pub name: String,
    pub localizations: Vec<LocalizedString>,
}

/// The value of a key in one language.
#[derive(Debug)]
pub struct LocalizedString {
    pub language_code: String,
    pub value: StringValue,
}

#[derive(Debug)]
pub enum StringValue {
    Single(String),
    Plural { quantities: Vec<PluralValue> },
}

/// One plural variant; `quantity` is a class such as "zero", "one", "two",
/// "few", "many" or "other", passed through as it was read.
#[derive(Debug, PartialEq)]
pub struct PluralValue {
    pub quantity: String,
    pub text: String,
}

/// What a value is: one text, or (quantity, text) pairs in order.
pub enum ValueModel {
    Single(Seq<char>),
    Plural(Seq<(Seq<char>, Seq<char>)>),
}

impl View for PluralValue {
    type V = (Seq<char>, Seq<char>);

    open spec fn view(&self) -> (Seq<char>, Seq<char>) {
        (self.quantity@, self.text@)
    }
}

impl View for StringValue {
    type V = ValueModel;

    open spec fn view(&self) -> ValueModel {
        match self {
            StringValue::Single(s) => ValueModel::Single(s@),
            StringValue::Plural { quantities } => ValueModel::Plural(
                quantities@.map_values(|q: PluralValue| q@),
            ),
        }
    }
}

impl View for LocalizedString {
    type V = (Seq<char>, ValueModel);

    open spec fn view(&self) -> (Seq<char>, ValueModel) {
        (self.language_code@, self.value@)
    }
}

impl View for Key {
    type V = (Seq<char>, Seq<(Seq<char>, ValueModel)>);

    open spec fn view(&self) -> (Seq<char>, Seq<(Seq<char>, ValueModel)>) {
        (self.name@, self.localizations@.map_values(|l: LocalizedString| l@))
    }
}

impl View for Section {
    type V = Seq<(Seq<char>, Seq<(Seq<char>, ValueModel)>)>;

    open spec fn view(&self) -> Seq<(Seq<char>, Seq<(Seq<char>, ValueModel)>)> {
        self.keys@.map_values(|k: Key| k@)
    }
}

} // verus!

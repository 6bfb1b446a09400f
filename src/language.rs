//! Language identities as produced by a content-based classifier.
use vstd::prelude::*;

verus! {

/// Coarse category of a language.
#[derive(Clone, Copy, Debug, PartialEq, Eq, Structural)]
pub enum LanguageType {
    Data,
    Markup,
    Programming,
    Prose,
}

/// The mathematical value of a [`LanguageIdentity`]: its name and category.
pub type IdentityView = (Seq<char>, LanguageType);

/// The key of an aggregate entry: `None` stands for "could not classify".
pub type KeyView = Option<IdentityView>;

/// A classified language: its name and its coarse category.
#[derive(Clone, Debug)]
pub struct LanguageIdentity {
    pub name: String,
    pub category: LanguageType,
}

impl View for LanguageIdentity {
    type V = IdentityView;

    open spec fn view(&self) -> IdentityView {
        (self.name@, self.category)
    }
}

impl PartialEq for LanguageIdentity {
    fn eq(&self, other: &LanguageIdentity) -> (r: bool) {
        self.category == other.category && self.name == other.name
    }
}

impl vstd::std_specs::cmp::PartialEqSpecImpl for LanguageIdentity {
    open spec fn obeys_eq_spec() -> bool {
        true
    }

    open spec fn eq_spec(&self, other: &LanguageIdentity) -> bool {
        self@ == other@
    }
}

impl LanguageIdentity {
    pub fn new(name: String, category: LanguageType) -> (r: LanguageIdentity)
        ensures
            r@ == (name@, category),
    {
        LanguageIdentity { name, category }
    }
}

/// The mathematical value of an optional identity.
pub open spec fn key_view(k: Option<LanguageIdentity>) -> KeyView {
    match k {
        Some(id) => Some(id@),
        None => None,
    }
}

/// Whether two aggregate keys denote the same language (or are both unclassified).
pub fn same_key(a: &Option<LanguageIdentity>, b: &Option<LanguageIdentity>) -> (r: bool)
    ensures
        r == (key_view(*a) == key_view(*b)),
{
    match (a, b) {
        (Some(x), Some(y)) => x.category == y.category && x.name == y.name,
        (None, None) => true,
        _ => false,
    }
}

/// The category of the language known by exactly this name, if any.
pub uninterp spec fn known_category(name: Seq<char>) -> Option<LanguageType>;

/// The key that a language name resolves to: the language of that name with
/// its category, or unclassified when no language has that name.
pub open spec fn resolved_key(name: Seq<char>) -> KeyView {
    match known_category(name) {
        Some(c) => Some((name, c)),
        None => None,
    }
}

/// Relies on hyperpolyglot's `Language::try_from(&str)`: a lookup in its table
/// of languages keyed by name, whose entries carry the name they are keyed by.
#[verifier::external_body]
fn lookup_language(name: &str) -> (r: Option<LanguageIdentity>)
    ensures
        key_view(r) == match known_category(name@) {
            Some(c) => Some((name@, c)),
            None => None,
        },
{
    match hyperpolyglot::Language::try_from(name) {
        Ok(l) => Some(LanguageIdentity {
            name: l.name.to_string(),
            category: match l.language_type {
                hyperpolyglot::LanguageType::Data => LanguageType::Data,
                hyperpolyglot::LanguageType::Markup => LanguageType::Markup,
                hyperpolyglot::LanguageType::Programming => LanguageType::Programming,
                hyperpolyglot::LanguageType::Prose => LanguageType::Prose,
            },
        }),
        Err(_) => None,
    }
}

/// The language of the given name, or `None` when no language has that name.
pub fn language_named(name: &str) -> (r: Option<LanguageIdentity>)
    ensures
        key_view(r) == resolved_key(name@),
{
    lookup_language(name)
}

} // verus!

//! Validated names.
//!
//! Labels, relation names, property keys, declaration names, and link aliases are all
//! identifiers under one rule: a scalar having `XID_Start` or `_`, then scalars having
//! `XID_Continue`, and never a reserved word. The types are distinct, so a function that
//! takes a [`PropertyKey`] cannot be handed a [`Label`] by accident.

use crate::id::debug_form;
use crate::id::show_debug;
use crate::text::characters;
use crate::text::is_before;
use crate::text::precedes;
use crate::text::same;
use crate::unicode::ascii_digit;
use crate::unicode::ascii_letter;
use crate::unicode::is_xid_continue;
use crate::unicode::starts_name;
use crate::unicode::xid_continue;
use crate::unicode::xid_start;
use vstd::prelude::*;
use vstd::string::StringExecFns;

verus! {

/// Words the `.nost` grammar reserves, which are therefore never identifiers.
///
/// Matching is exact and case-sensitive.
pub const RESERVED_WORDS: [&'static str; 8] = [
    "as",
    "bytes",
    "datetime",
    "edge",
    "false",
    "node",
    "schema",
    "true",
];

/// Whether `text` is a reserved word.
pub open spec fn reserved(text: Seq<char>) -> bool {
    ||| text == "as"@
    ||| text == "bytes"@
    ||| text == "datetime"@
    ||| text == "edge"@
    ||| text == "false"@
    ||| text == "node"@
    ||| text == "schema"@
    ||| text == "true"@
}

/// The first character, at or after `at`, that cannot continue a name.
pub open spec fn first_break(text: Seq<char>, at: int) -> Option<char>
    decreases text.len() - at,
{
    if at >= text.len() {
        None
    } else if !xid_continue(text[at]) {
        Some(text[at])
    } else {
        first_break(text, at + 1)
    }
}

/// What is wrong with `text` as a name, if anything is.
pub open spec fn name_fault(text: Seq<char>) -> Option<NameError> {
    if text.len() == 0 {
        Some(NameError::Empty)
    } else if !(xid_start(text[0]) || text[0] == '_') {
        Some(NameError::InvalidStart { found: text[0] })
    } else if first_break(text, 1) is Some {
        Some(NameError::InvalidContinue { found: first_break(text, 1)->0 })
    } else if reserved(text) {
        Some(NameError::Reserved)
    } else {
        None
    }
}

/// Whether `text` is a name.
pub open spec fn valid_name(text: Seq<char>) -> bool {
    name_fault(text) is None
}

/// Whether `text` has the shape of a name and is all ASCII.
pub open spec fn ascii_name(text: Seq<char>) -> bool {
    &&& text.len() > 0
    &&& ascii_letter(text[0]) || text[0] == '_'
    &&& forall|i: int|
        1 <= i < text.len() ==> ascii_letter(#[trigger] text[i]) || ascii_digit(text[i]) || text[i]
            == '_'
}

/// Why a name was rejected.
#[derive(Clone, Copy, Debug, PartialEq, Eq, Structural)]
pub enum NameError {
    /// The name was empty.
    Empty,
    /// The first character has neither `XID_Start` nor is it `_`.
    InvalidStart {
        /// The offending character.
        found: char,
    },
    /// A later character does not have `XID_Continue`.
    InvalidContinue {
        /// The offending character.
        found: char,
    },
    /// The name is a reserved word.
    Reserved,
}

impl NameError {
    /// The message this error is shown with.
    pub open spec fn spec_message(&self) -> Seq<char> {
        match self {
            NameError::Empty => "a name must not be empty"@,
            NameError::InvalidStart { found } =>
                "a name must start with XID_Start or '_', found "@ + debug_form(*found),
            NameError::InvalidContinue { found } =>
                "a name must continue with XID_Continue, found "@ + debug_form(*found),
            NameError::Reserved => "a reserved word is never a name"@,
        }
    }

    /// The message this error is shown with.
    pub fn message(&self) -> (text: String)
        ensures
            text@ == self.spec_message(),
    {
        match self {
            NameError::Empty => "a name must not be empty".to_owned(),
            NameError::InvalidStart { found } => {
                let mut text = "a name must start with XID_Start or '_', found ".to_owned();
                text.append(show_debug(*found).as_str());
                text
            }
            NameError::InvalidContinue { found } => {
                let mut text = "a name must continue with XID_Continue, found ".to_owned();
                text.append(show_debug(*found).as_str());
                text
            }
            NameError::Reserved => "a reserved word is never a name".to_owned(),
        }
    }
}

/// Whether `value` is a reserved word.
pub fn is_reserved(value: &str) -> (answer: bool)
    ensures
        answer == reserved(value@),
{
    same(value, "as") || same(value, "bytes") || same(value, "datetime") || same(value, "edge")
        || same(value, "false") || same(value, "node") || same(value, "schema") || same(
        value,
        "true",
    )
}

/// Text in the shape of an ASCII name is a name, unless it is reserved.
pub proof fn ascii_names_are_names(text: Seq<char>)
    requires
        ascii_name(text),
        !reserved(text),
    ensures
        valid_name(text),
{
    unbroken(text, 1);
}

proof fn unbroken(text: Seq<char>, at: int)
    requires
        ascii_name(text),
        1 <= at,
    ensures
        first_break(text, at) is None,
    decreases text.len() - at,
{
    if at < text.len() {
        unbroken(text, at + 1);
    }
}

fn validate(value: &str) -> (checked: Result<(), NameError>)
    ensures
        match checked {
            Ok(_) => valid_name(value@),
            Err(error) => name_fault(value@) == Some(error),
        },
{
    let all = characters(value);
    if all.len() == 0 {
        return Err(NameError::Empty);
    }
    let first: char = all[0];
    if !(starts_name(first) || first == '_') {
        return Err(NameError::InvalidStart { found: first });
    }
    let mut at: usize = 1;
    while at < all.len()
        invariant
            1 <= at <= all@.len(),
            all@ == value@,
            first_break(value@, 1) == first_break(value@, at as int),
            xid_start(value@[0]) || value@[0] == '_',
        decreases all@.len() - at,
    {
        let character: char = all[at];
        if !is_xid_continue(character) {
            assert(character == value@[at as int]);
            return Err(NameError::InvalidContinue { found: character });
        }
        at = at + 1;
    }
    if is_reserved(value) {
        return Err(NameError::Reserved);
    }
    Ok(())
}

/// A validated Node label.
#[derive(Debug, PartialEq, Eq, PartialOrd, Ord, Hash)]
pub struct Label {
    text: String,
}

impl View for Label {
    type V = Seq<char>;

    closed spec fn view(&self) -> Seq<char> {
        self.text@
    }
}

impl Label {
    #[verifier::type_invariant]
    spec fn holds_a_name(&self) -> bool {
        valid_name(self.text@)
    }

    /// Validates and wraps a Node label.
    ///
    /// The empty text, a first character lacking `XID_Start`, a later one lacking
    /// `XID_Continue`, and a reserved word are refused.
    pub fn new(value: &str) -> (made: Result<Self, NameError>)
        ensures
            match made {
                Ok(name) => valid_name(value@) && name@ == value@,
                Err(error) => name_fault(value@) == Some(error),
            },
    {
        match validate(value) {
            Err(error) => Err(error),
            Ok(_) => Ok(Label { text: value.to_owned() }),
        }
    }

    /// Wraps a text that has the shape of a name and is no reserved word.
    pub(crate) fn literal(value: &str) -> (made: Self)
        requires
            ascii_name(value@),
            !reserved(value@),
        ensures
            made@ == value@,
    {
        proof {
            ascii_names_are_names(value@);
        }
        match validate(value) {
            Ok(_) => Label { text: value.to_owned() },
            Err(_) => {
                assert(false);
                vstd::pervasive::unreached()
            }
        }
    }

    /// Borrows the name.
    pub fn as_str(&self) -> (text: &str)
        ensures
            text@ == self@,
            valid_name(text@),
    {
        proof {
            use_type_invariant(self);
        }
        self.text.as_str()
    }

    /// Unwraps into the owned string.
    pub fn into_string(self) -> (text: String)
        ensures
            text@ == self@,
            valid_name(text@),
    {
        proof {
            use_type_invariant(&self);
        }
        self.text
    }

    /// Whether two names are the same.
    pub fn same(&self, other: &Self) -> (answer: bool)
        ensures
            answer == (self@ == other@),
    {
        same(self.text.as_str(), other.text.as_str())
    }

    /// Whether this name comes before another in the order by Unicode scalar value.
    pub fn is_before(&self, other: &Self) -> (answer: bool)
        ensures
            answer == precedes(self@, other@),
    {
        is_before(self.text.as_str(), other.text.as_str())
    }
}

impl Clone for Label {
    fn clone(&self) -> (copy: Self)
        ensures
            copy@ == self@,
    {
        proof {
            use_type_invariant(self);
        }
        Label { text: self.text.clone() }
    }
}

/// A validated Edge relation name.
#[derive(Debug, PartialEq, Eq, PartialOrd, Ord, Hash)]
pub struct RelationName {
    text: String,
}

impl View for RelationName {
    type V = Seq<char>;

    closed spec fn view(&self) -> Seq<char> {
        self.text@
    }
}

impl RelationName {
    #[verifier::type_invariant]
    spec fn holds_a_name(&self) -> bool {
        valid_name(self.text@)
    }

    /// Validates and wraps a Edge relation name.
    ///
    /// The empty text, a first character lacking `XID_Start`, a later one lacking
    /// `XID_Continue`, and a reserved word are refused.
    pub fn new(value: &str) -> (made: Result<Self, NameError>)
        ensures
            match made {
                Ok(name) => valid_name(value@) && name@ == value@,
                Err(error) => name_fault(value@) == Some(error),
            },
    {
        match validate(value) {
            Err(error) => Err(error),
            Ok(_) => Ok(RelationName { text: value.to_owned() }),
        }
    }

    /// Wraps a text that has the shape of a name and is no reserved word.
    pub(crate) fn literal(value: &str) -> (made: Self)
        requires
            ascii_name(value@),
            !reserved(value@),
        ensures
            made@ == value@,
    {
        proof {
            ascii_names_are_names(value@);
        }
        match validate(value) {
            Ok(_) => RelationName { text: value.to_owned() },
            Err(_) => {
                assert(false);
                vstd::pervasive::unreached()
            }
        }
    }

    /// Borrows the name.
    pub fn as_str(&self) -> (text: &str)
        ensures
            text@ == self@,
            valid_name(text@),
    {
        proof {
            use_type_invariant(self);
        }
        self.text.as_str()
    }

    /// Unwraps into the owned string.
    pub fn into_string(self) -> (text: String)
        ensures
            text@ == self@,
            valid_name(text@),
    {
        proof {
            use_type_invariant(&self);
        }
        self.text
    }

    /// Whether two names are the same.
    pub fn same(&self, other: &Self) -> (answer: bool)
        ensures
            answer == (self@ == other@),
    {
        same(self.text.as_str(), other.text.as_str())
    }

    /// Whether this name comes before another in the order by Unicode scalar value.
    pub fn is_before(&self, other: &Self) -> (answer: bool)
        ensures
            answer == precedes(self@, other@),
    {
        is_before(self.text.as_str(), other.text.as_str())
    }
}

impl Clone for RelationName {
    fn clone(&self) -> (copy: Self)
        ensures
            copy@ == self@,
    {
        proof {
            use_type_invariant(self);
        }
        RelationName { text: self.text.clone() }
    }
}

/// A validated property key.
#[derive(Debug, PartialEq, Eq, PartialOrd, Ord, Hash)]
pub struct PropertyKey {
    text: String,
}

impl View for PropertyKey {
    type V = Seq<char>;

    closed spec fn view(&self) -> Seq<char> {
        self.text@
    }
}

impl PropertyKey {
    #[verifier::type_invariant]
    spec fn holds_a_name(&self) -> bool {
        valid_name(self.text@)
    }

    /// Validates and wraps a property key.
    ///
    /// The empty text, a first character lacking `XID_Start`, a later one lacking
    /// `XID_Continue`, and a reserved word are refused.
    pub fn new(value: &str) -> (made: Result<Self, NameError>)
        ensures
            match made {
                Ok(name) => valid_name(value@) && name@ == value@,
                Err(error) => name_fault(value@) == Some(error),
            },
    {
        match validate(value) {
            Err(error) => Err(error),
            Ok(_) => Ok(PropertyKey { text: value.to_owned() }),
        }
    }

    /// Wraps a text that has the shape of a name and is no reserved word.
    pub(crate) fn literal(value: &str) -> (made: Self)
        requires
            ascii_name(value@),
            !reserved(value@),
        ensures
            made@ == value@,
    {
        proof {
            ascii_names_are_names(value@);
        }
        match validate(value) {
            Ok(_) => PropertyKey { text: value.to_owned() },
            Err(_) => {
                assert(false);
                vstd::pervasive::unreached()
            }
        }
    }

    /// Borrows the name.
    pub fn as_str(&self) -> (text: &str)
        ensures
            text@ == self@,
            valid_name(text@),
    {
        proof {
            use_type_invariant(self);
        }
        self.text.as_str()
    }

    /// Unwraps into the owned string.
    pub fn into_string(self) -> (text: String)
        ensures
            text@ == self@,
            valid_name(text@),
    {
        proof {
            use_type_invariant(&self);
        }
        self.text
    }

    /// Whether two names are the same.
    pub fn same(&self, other: &Self) -> (answer: bool)
        ensures
            answer == (self@ == other@),
    {
        same(self.text.as_str(), other.text.as_str())
    }

    /// Whether this name comes before another in the order by Unicode scalar value.
    pub fn is_before(&self, other: &Self) -> (answer: bool)
        ensures
            answer == precedes(self@, other@),
    {
        is_before(self.text.as_str(), other.text.as_str())
    }
}

impl Clone for PropertyKey {
    fn clone(&self) -> (copy: Self)
        ensures
            copy@ == self@,
    {
        proof {
            use_type_invariant(self);
        }
        PropertyKey { text: self.text.clone() }
    }
}

/// A validated declaration name.
#[derive(Debug, PartialEq, Eq, PartialOrd, Ord, Hash)]
pub struct DeclarationName {
    text: String,
}

impl View for DeclarationName {
    type V = Seq<char>;

    closed spec fn view(&self) -> Seq<char> {
        self.text@
    }
}

impl DeclarationName {
    #[verifier::type_invariant]
    spec fn holds_a_name(&self) -> bool {
        valid_name(self.text@)
    }

    /// Validates and wraps a declaration name.
    ///
    /// The empty text, a first character lacking `XID_Start`, a later one lacking
    /// `XID_Continue`, and a reserved word are refused.
    pub fn new(value: &str) -> (made: Result<Self, NameError>)
        ensures
            match made {
                Ok(name) => valid_name(value@) && name@ == value@,
                Err(error) => name_fault(value@) == Some(error),
            },
    {
        match validate(value) {
            Err(error) => Err(error),
            Ok(_) => Ok(DeclarationName { text: value.to_owned() }),
        }
    }

    /// Wraps a text that has the shape of a name and is no reserved word.
    pub(crate) fn literal(value: &str) -> (made: Self)
        requires
            ascii_name(value@),
            !reserved(value@),
        ensures
            made@ == value@,
    {
        proof {
            ascii_names_are_names(value@);
        }
        match validate(value) {
            Ok(_) => DeclarationName { text: value.to_owned() },
            Err(_) => {
                assert(false);
                vstd::pervasive::unreached()
            }
        }
    }

    /// Borrows the name.
    pub fn as_str(&self) -> (text: &str)
        ensures
            text@ == self@,
            valid_name(text@),
    {
        proof {
            use_type_invariant(self);
        }
        self.text.as_str()
    }

    /// Unwraps into the owned string.
    pub fn into_string(self) -> (text: String)
        ensures
            text@ == self@,
            valid_name(text@),
    {
        proof {
            use_type_invariant(&self);
        }
        self.text
    }

    /// Whether two names are the same.
    pub fn same(&self, other: &Self) -> (answer: bool)
        ensures
            answer == (self@ == other@),
    {
        same(self.text.as_str(), other.text.as_str())
    }

    /// Whether this name comes before another in the order by Unicode scalar value.
    pub fn is_before(&self, other: &Self) -> (answer: bool)
        ensures
            answer == precedes(self@, other@),
    {
        is_before(self.text.as_str(), other.text.as_str())
    }
}

impl Clone for DeclarationName {
    fn clone(&self) -> (copy: Self)
        ensures
            copy@ == self@,
    {
        proof {
            use_type_invariant(self);
        }
        DeclarationName { text: self.text.clone() }
    }
}

/// A validated link alias.
#[derive(Debug, PartialEq, Eq, PartialOrd, Ord, Hash)]
pub struct LinkAlias {
    text: String,
}

impl View for LinkAlias {
    type V = Seq<char>;

    closed spec fn view(&self) -> Seq<char> {
        self.text@
    }
}

impl LinkAlias {
    #[verifier::type_invariant]
    spec fn holds_a_name(&self) -> bool {
        valid_name(self.text@)
    }

    /// Validates and wraps a link alias.
    ///
    /// The empty text, a first character lacking `XID_Start`, a later one lacking
    /// `XID_Continue`, and a reserved word are refused.
    pub fn new(value: &str) -> (made: Result<Self, NameError>)
        ensures
            match made {
                Ok(name) => valid_name(value@) && name@ == value@,
                Err(error) => name_fault(value@) == Some(error),
            },
    {
        match validate(value) {
            Err(error) => Err(error),
            Ok(_) => Ok(LinkAlias { text: value.to_owned() }),
        }
    }

    /// Wraps a text that has the shape of a name and is no reserved word.
    pub(crate) fn literal(value: &str) -> (made: Self)
        requires
            ascii_name(value@),
            !reserved(value@),
        ensures
            made@ == value@,
    {
        proof {
            ascii_names_are_names(value@);
        }
        match validate(value) {
            Ok(_) => LinkAlias { text: value.to_owned() },
            Err(_) => {
                assert(false);
                vstd::pervasive::unreached()
            }
        }
    }

    /// Borrows the name.
    pub fn as_str(&self) -> (text: &str)
        ensures
            text@ == self@,
            valid_name(text@),
    {
        proof {
            use_type_invariant(self);
        }
        self.text.as_str()
    }

    /// Unwraps into the owned string.
    pub fn into_string(self) -> (text: String)
        ensures
            text@ == self@,
            valid_name(text@),
    {
        proof {
            use_type_invariant(&self);
        }
        self.text
    }

    /// Whether two names are the same.
    pub fn same(&self, other: &Self) -> (answer: bool)
        ensures
            answer == (self@ == other@),
    {
        same(self.text.as_str(), other.text.as_str())
    }

    /// Whether this name comes before another in the order by Unicode scalar value.
    pub fn is_before(&self, other: &Self) -> (answer: bool)
        ensures
            answer == precedes(self@, other@),
    {
        is_before(self.text.as_str(), other.text.as_str())
    }
}

impl Clone for LinkAlias {
    fn clone(&self) -> (copy: Self)
        ensures
            copy@ == self@,
    {
        proof {
            use_type_invariant(self);
        }
        LinkAlias { text: self.text.clone() }
    }
}

} // verus!

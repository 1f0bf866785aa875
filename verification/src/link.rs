//! Declared links.
//!
//! A link is identified by its canonical locator. The alias is a convenience for writing
//! readable references, and is optional.

use crate::locator::scheme_of;
use crate::locator::CanonicalSourceLocator;
use crate::name::LinkAlias;
use crate::text::joined;
use vstd::prelude::*;
use vstd::string::StringExecFns;

verus! {

/// A link declaration stored in a database.
#[derive(Debug, PartialEq, Eq, PartialOrd, Ord, Hash)]
pub struct Link {
    /// The canonical locator, which is this link's identity.
    pub source: CanonicalSourceLocator,
    /// The optional alias.
    pub alias: Option<LinkAlias>,
}

/// What a link declares.
pub struct LinkModel {
    /// The locator.
    pub source: Seq<char>,
    /// The alias.
    pub alias: Option<Seq<char>>,
}

/// The text of an optional alias.
pub open spec fn alias_text(alias: Option<LinkAlias>) -> Option<Seq<char>> {
    match alias {
        Some(name) => Some(name@),
        None => None,
    }
}

impl View for Link {
    type V = LinkModel;

    open spec fn view(&self) -> LinkModel {
        LinkModel { source: self.source@, alias: alias_text(self.alias) }
    }
}

impl Link {
    /// A link with no alias.
    pub fn new(source: CanonicalSourceLocator) -> (link: Self)
        ensures
            link@ == (LinkModel { source: source@, alias: None }),
    {
        Link { source, alias: None }
    }

    /// A link with an alias.
    pub fn with_alias(source: CanonicalSourceLocator, alias: LinkAlias) -> (link: Self)
        ensures
            link@ == (LinkModel { source: source@, alias: Some(alias@) }),
    {
        Link { source, alias: Some(alias) }
    }

    /// Reports whether this link points at a remote source.
    pub fn is_remote(&self) -> (answer: bool)
        ensures
            answer == (scheme_of(self@.source) is Some),
    {
        self.source.is_remote()
    }

    /// The declaration form: the locator, and the alias behind `as`.
    pub fn to_string(&self) -> (text: String)
        ensures
            text@ == (match self@.alias {
                Some(alias) => self@.source + " as "@ + alias,
                None => self@.source,
            }),
    {
        match &self.alias {
            Some(alias) => {
                let mut text = joined(self.source.as_str(), " as ");
                text.append(alias.as_str());
                text
            }
            None => self.source.as_str().to_owned(),
        }
    }
}

impl Clone for Link {
    fn clone(&self) -> (copy: Self)
        ensures
            copy@ == self@,
    {
        Link {
            source: self.source.clone(),
            alias: match &self.alias {
                Some(alias) => Some(alias.clone()),
                None => None,
            },
        }
    }
}

} // verus!

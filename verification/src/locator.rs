//! Canonical source locators.
//!
//! A link is identified by its canonical source path or address. Two locators that differ
//! textually are two logical sources even when their current bytes are identical.
//!
//! A locator here is already canonical. What is guaranteed is what does not depend on a
//! provider: it is non-empty, trimmed, and free of control characters.

use crate::id::debug_form;
use crate::id::show_debug;
use crate::text::characters;
use crate::text::is_before;
use crate::text::precedes;
use crate::text::same;
use crate::unicode::ascii_digit;
use crate::unicode::ascii_letter;
use crate::unicode::control;
use crate::unicode::is_control;
use crate::unicode::trim_bounds;
use crate::unicode::trimmed;
use vstd::prelude::*;
use vstd::string::StrSliceExecFns;
use vstd::string::StringExecFns;

verus! {

/// The first control character, at or after `at`.
pub open spec fn first_control(text: Seq<char>, at: int) -> Option<char>
    decreases text.len() - at,
{
    if at >= text.len() {
        None
    } else if control(text[at]) {
        Some(text[at])
    } else {
        first_control(text, at + 1)
    }
}

/// What is wrong with `text` as a locator, if anything is.
pub open spec fn locator_fault(text: Seq<char>) -> Option<LocatorError> {
    if trimmed(text).len() == 0 {
        Some(LocatorError::Empty)
    } else if trimmed(text) != text {
        Some(LocatorError::Untrimmed)
    } else if first_control(text, 0) is Some {
        Some(LocatorError::ControlCharacter { found: first_control(text, 0)->0 })
    } else {
        None
    }
}

/// Whether `text` is a locator.
pub open spec fn valid_locator(text: Seq<char>) -> bool {
    locator_fault(text) is None
}

/// Where `://` first occurs at or after `at`.
pub open spec fn scheme_end(text: Seq<char>, at: int) -> Option<int>
    decreases text.len() - at,
{
    if at + 3 > text.len() {
        None
    } else if text[at] == ':' && text[at + 1] == '/' && text[at + 2] == '/' {
        Some(at)
    } else {
        scheme_end(text, at + 1)
    }
}

/// Whether `c` may stand in a URI scheme.
pub open spec fn scheme_char(c: char) -> bool {
    ascii_letter(c) || ascii_digit(c) || c == '+' || c == '-' || c == '.'
}

/// Whether `text` is a URI scheme.
pub open spec fn is_scheme(text: Seq<char>) -> bool {
    &&& text.len() > 0
    &&& ascii_letter(text[0])
    &&& forall|i: int| 0 <= i < text.len() ==> scheme_char(#[trigger] text[i])
}

/// The URI scheme of a locator, if it has one: what stands before the first `://`.
pub open spec fn scheme_of(text: Seq<char>) -> Option<Seq<char>> {
    match scheme_end(text, 0) {
        None => None,
        Some(end) => if is_scheme(text.take(end)) {
            Some(text.take(end))
        } else {
            None
        },
    }
}

/// Why a locator was rejected.
#[derive(Clone, Copy, Debug, PartialEq, Eq, Structural)]
pub enum LocatorError {
    /// The locator was empty or whitespace only.
    Empty,
    /// The locator had leading or trailing whitespace.
    Untrimmed,
    /// The locator contained a control character.
    ControlCharacter {
        /// The first control character found.
        found: char,
    },
}

impl LocatorError {
    /// The message this error is shown with.
    pub open spec fn spec_message(&self) -> Seq<char> {
        match self {
            LocatorError::Empty => "a locator must not be empty"@,
            LocatorError::Untrimmed => "a locator must not have leading or trailing whitespace"@,
            LocatorError::ControlCharacter { found } =>
                "a locator must not contain the control character "@ + debug_form(*found),
        }
    }

    /// The message this error is shown with.
    pub fn message(&self) -> (text: String)
        ensures
            text@ == self.spec_message(),
    {
        match self {
            LocatorError::Empty => "a locator must not be empty".to_owned(),
            LocatorError::Untrimmed => {
                "a locator must not have leading or trailing whitespace".to_owned()
            }
            LocatorError::ControlCharacter { found } => {
                let mut text = "a locator must not contain the control character ".to_owned();
                text.append(show_debug(*found).as_str());
                text
            }
        }
    }
}

/// An already-canonical source locator that identifies a link target.
#[derive(Debug, PartialEq, Eq, PartialOrd, Ord, Hash)]
pub struct CanonicalSourceLocator {
    text: String,
}

impl View for CanonicalSourceLocator {
    type V = Seq<char>;

    closed spec fn view(&self) -> Seq<char> {
        self.text@
    }
}

impl CanonicalSourceLocator {
    #[verifier::type_invariant]
    spec fn holds_a_locator(&self) -> bool {
        valid_locator(self.text@)
    }

    /// Wraps an already-canonical locator.
    ///
    /// A locator with surrounding white space is rejected rather than trimmed, because
    /// silently rewriting a link identity would change which target it names.
    pub fn new(value: &str) -> (made: Result<Self, LocatorError>)
        ensures
            match made {
                Ok(locator) => valid_locator(value@) && locator@ == value@,
                Err(error) => locator_fault(value@) == Some(error),
            },
    {
        let all = characters(value);
        let (from, to) = trim_bounds(&all);
        if from == to {
            return Err(LocatorError::Empty);
        }
        if from != 0 || to != all.len() {
            assert(trimmed(value@).len() == to - from);
            return Err(LocatorError::Untrimmed);
        }
        assert(trimmed(value@) =~= value@);
        let mut at: usize = 0;
        while at < all.len()
            invariant
                at <= all@.len(),
                all@ == value@,
                first_control(value@, 0) == first_control(value@, at as int),
                trimmed(value@) == value@,
                value@.len() > 0,
            decreases all@.len() - at,
        {
            let character: char = all[at];
            if is_control(character) {
                return Err(LocatorError::ControlCharacter { found: character });
            }
            at = at + 1;
        }
        Ok(CanonicalSourceLocator { text: value.to_owned() })
    }

    /// Borrows the locator.
    pub fn as_str(&self) -> (text: &str)
        ensures
            text@ == self@,
            valid_locator(text@),
    {
        proof {
            use_type_invariant(self);
        }
        self.text.as_str()
    }

    /// Unwraps into the owned string.
    pub fn into_string(self) -> (text: String)
        ensures
            text@ == self@,
            valid_locator(text@),
    {
        proof {
            use_type_invariant(&self);
        }
        self.text
    }

    /// Whether two locators are the same source.
    pub fn same(&self, other: &Self) -> (answer: bool)
        ensures
            answer == (self@ == other@),
    {
        same(self.text.as_str(), other.text.as_str())
    }

    /// Whether this locator comes before another in the order by Unicode scalar value.
    pub fn is_before(&self, other: &Self) -> (answer: bool)
        ensures
            answer == precedes(self@, other@),
    {
        is_before(self.text.as_str(), other.text.as_str())
    }

    /// Reports whether this locator names a remote source rather than a path.
    ///
    /// A remote locator carries a `<scheme>://` prefix.
    pub fn is_remote(&self) -> (answer: bool)
        ensures
            answer == (scheme_of(self@) is Some),
    {
        self.scheme().is_some()
    }

    /// The URI scheme, when the locator has one.
    pub fn scheme(&self) -> (scheme: Option<&str>)
        ensures
            match scheme {
                Some(text) => scheme_of(self@) == Some(text@),
                None => scheme_of(self@) is None,
            },
    {
        let all = characters(self.text.as_str());
        let mut end: usize = 0;
        loop
            invariant_except_break
                end <= all@.len(),
                all@ == self@,
                scheme_end(self@, 0) == scheme_end(self@, end as int),
            invariant
                all@ == self@,
            ensures
                end <= all@.len(),
                scheme_end(self@, 0) == Some(end as int),
            decreases all@.len() - end,
        {
            if all.len() - end < 3 {
                return None;
            }
            if all[end] == ':' && all[end + 1] == '/' && all[end + 2] == '/' {
                break;
            }
            end = end + 1;
        }
        let ghost found = self@.take(end as int);
        if end == 0 {
            return None;
        }
        let first: char = all[0];
        assert(found[0] == first);
        if !((first >= 'a' && first <= 'z') || (first >= 'A' && first <= 'Z')) {
            return None;
        }
        let mut at: usize = 0;
        while at < end
            invariant
                at <= end <= all@.len(),
                all@ == self@,
                found == self@.take(end as int),
                scheme_end(self@, 0) == Some(end as int),
                forall|i: int| 0 <= i < at ==> scheme_char(#[trigger] found[i]),
            decreases end - at,
        {
            let c: char = all[at];
            assert(c == found[at as int]);
            if !((c >= 'a' && c <= 'z') || (c >= 'A' && c <= 'Z') || (c >= '0' && c <= '9') || c
                == '+' || c == '-' || c == '.') {
                return None;
            }
            at = at + 1;
        }
        assert(found =~= self@.subrange(0, end as int));
        Some(self.text.as_str().substring_char(0, end))
    }
}

impl Clone for CanonicalSourceLocator {
    fn clone(&self) -> (copy: Self)
        ensures
            copy@ == self@,
    {
        proof {
            use_type_invariant(self);
        }
        CanonicalSourceLocator { text: self.text.clone() }
    }
}

} // verus!

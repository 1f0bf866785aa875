//! Text helpers: characters of a string, copies, comparison and order.
//!
//! A string is modelled by the sequence of its characters. Order is by Unicode scalar
//! value, which is also the order `str` has by its bytes.

use vstd::prelude::*;
#[allow(unused_imports)]
use vstd::std_specs::iter::IteratorSpec;
use vstd::string::StringExecFns;

verus! {

/// `String::push`: appends one character.
pub assume_specification[ std::string::String::push ](s: &mut std::string::String, c: char)
    ensures
        final(s)@ == old(s)@.push(c),
;

/// `str::eq`: two string slices are equal exactly when they hold the same characters.
pub assume_specification[ <str as PartialEq>::eq ](left: &str, right: &str) -> (outcome: bool)
    ensures
        outcome == (left@ == right@),
;

/// The models of a list of things.
pub open spec fn views<T: View>(items: Seq<T>) -> Seq<T::V> {
    Seq::new(items.len(), |i: int| items[i]@)
}

/// The model of an optional thing.
pub open spec fn view_of<T: View>(item: Option<T>) -> Option<T::V> {
    match item {
        Some(thing) => Some(thing@),
        None => None,
    }
}

/// The model of a longer list.
pub proof fn views_push<T: View>(items: Seq<T>, item: T)
    ensures
        views(items.push(item)) == views(items).push(item@),
{
    assert(views(items.push(item)) =~= views(items).push(item@));
}

/// The characters of `source`, in order.
pub fn characters(source: &str) -> (found: Vec<char>)
    ensures
        found@ == source@,
{
    let mut found: Vec<char> = Vec::new();
    for character in walk: source.chars()
        invariant
            walk.seq() == source@,
            found@ == source@.take(walk.index()),
    {
        found.push(character);
        assert(source@.take(walk.index() + 1) =~= source@.take(walk.index()).push(character));
    }
    assert(source@.take(source@.len() as int) =~= source@);
    found
}

/// The string made of `characters[from..to]`.
pub fn string_of(characters: &Vec<char>, from: usize, to: usize) -> (made: String)
    requires
        from <= to <= characters@.len(),
    ensures
        made@ == characters@.subrange(from as int, to as int),
{
    let mut made = String::new();
    let mut at: usize = from;
    while at < to
        invariant
            from <= at <= to <= characters@.len(),
            made@ == characters@.subrange(from as int, at as int),
        decreases to - at,
    {
        made.push(characters[at]);
        assert(characters@.subrange(from as int, at + 1) =~= characters@.subrange(
            from as int,
            at as int,
        ).push(characters@[at as int]));
        at = at + 1;
    }
    made
}

/// Whether two strings hold the same characters.
pub fn same(left: &str, right: &str) -> (answer: bool)
    ensures
        answer == (left@ == right@),
{
    *left == *right
}

/// `left` followed by `right`.
pub fn joined(left: &str, right: &str) -> (whole: String)
    ensures
        whole@ == left@ + right@,
{
    let mut whole = left.to_owned();
    whole.append(right);
    whole
}

/// Whether `left` comes strictly before `right` in the order by Unicode scalar value.
pub open spec fn precedes(left: Seq<char>, right: Seq<char>) -> bool
    decreases left.len(),
{
    if right.len() == 0 {
        false
    } else if left.len() == 0 {
        true
    } else if left[0] != right[0] {
        left[0] < right[0]
    } else {
        precedes(left.drop_first(), right.drop_first())
    }
}

/// The result of comparing two strings.
pub open spec fn precedes_from(left: Seq<char>, right: Seq<char>, at: int) -> bool {
    precedes(left.subrange(at, left.len() as int), right.subrange(at, right.len() as int))
}

proof fn precedes_step(left: Seq<char>, right: Seq<char>, at: int)
    requires
        0 <= at < left.len(),
        at < right.len(),
    ensures
        precedes_from(left, right, at) == (if left[at] != right[at] {
            left[at] < right[at]
        } else {
            precedes_from(left, right, at + 1)
        }),
{
    let l = left.subrange(at, left.len() as int);
    let r = right.subrange(at, right.len() as int);
    assert(l.drop_first() =~= left.subrange(at + 1, left.len() as int));
    assert(r.drop_first() =~= right.subrange(at + 1, right.len() as int));
    assert(l[0] == left[at]);
    assert(r[0] == right[at]);
}

/// Whether `left` comes strictly before `right`.
pub fn is_before(left: &str, right: &str) -> (answer: bool)
    ensures
        answer == precedes(left@, right@),
{
    let a = characters(left);
    let b = characters(right);
    let mut at: usize = 0;
    assert(a@.subrange(0, a@.len() as int) =~= a@);
    assert(b@.subrange(0, b@.len() as int) =~= b@);
    while at < a.len() && at < b.len()
        invariant
            at <= a@.len(),
            at <= b@.len(),
            a@ == left@,
            b@ == right@,
            precedes(left@, right@) == precedes_from(left@, right@, at as int),
        decreases a@.len() - at,
    {
        proof {
            precedes_step(left@, right@, at as int);
        }
        let x: char = a[at];
        let y: char = b[at];
        if x != y {
            return x < y;
        }
        at = at + 1;
    }
    at < b.len()
}

/// A string never precedes itself.
pub proof fn precedes_irreflexive(text: Seq<char>)
    ensures
        !precedes(text, text),
    decreases text.len(),
{
    if text.len() > 0 {
        precedes_irreflexive(text.drop_first());
    }
}

/// The order is transitive.
pub proof fn precedes_transitive(a: Seq<char>, b: Seq<char>, c: Seq<char>)
    requires
        precedes(a, b),
        precedes(b, c),
    ensures
        precedes(a, c),
    decreases a.len(),
{
    if a.len() > 0 && b.len() > 0 && c.len() > 0 {
        if a[0] == b[0] && b[0] == c[0] {
            precedes_transitive(a.drop_first(), b.drop_first(), c.drop_first());
        }
    }
}

/// Of two different strings one precedes the other.
pub proof fn precedes_total(a: Seq<char>, b: Seq<char>)
    ensures
        a == b || precedes(a, b) || precedes(b, a),
    decreases a.len(),
{
    if a.len() > 0 && b.len() > 0 {
        if a[0] == b[0] {
            precedes_total(a.drop_first(), b.drop_first());
            if a.drop_first() == b.drop_first() {
                assert(a =~= seq![a[0]] + a.drop_first());
                assert(b =~= seq![b[0]] + b.drop_first());
            }
        }
    } else if a.len() == 0 && b.len() == 0 {
        assert(a =~= b);
    }
}

/// Text that is known to hold at least one character.
#[derive(Debug, PartialEq, Eq)]
pub struct NonEmptyText {
    text: String,
}

/// Why a text was rejected.
#[derive(Clone, Copy, Debug, PartialEq, Eq, Structural)]
pub enum TextError {
    /// The text held no character.
    Empty,
}

impl TextError {
    /// The message this error is shown with.
    pub fn message(&self) -> (shown: String)
        ensures
            shown@ == "must not be empty"@,
    {
        "must not be empty".to_owned()
    }
}

impl View for NonEmptyText {
    type V = Seq<char>;

    closed spec fn view(&self) -> Seq<char> {
        self.text@
    }
}

impl NonEmptyText {
    #[verifier::type_invariant]
    spec fn holds_a_character(&self) -> bool {
        self.text@.len() > 0
    }

    /// Wraps `value`, refusing the empty text.
    pub fn new(value: &str) -> (made: Result<Self, TextError>)
        ensures
            made is Ok <==> value@.len() > 0,
            made matches Ok(text) ==> text@ == value@,
            made matches Err(error) ==> error == TextError::Empty,
    {
        if value.is_empty() {
            Err(TextError::Empty)
        } else {
            Ok(NonEmptyText { text: value.to_owned() })
        }
    }

    /// Wraps `value`, or `other` where that is empty.
    pub fn new_or(value: &str, other: &str) -> (made: Self)
        requires
            other@.len() > 0,
        ensures
            made@ == (if value@.len() > 0 {
                value@
            } else {
                other@
            }),
    {
        if value.is_empty() {
            NonEmptyText { text: other.to_owned() }
        } else {
            NonEmptyText { text: value.to_owned() }
        }
    }

    /// Borrows the text.
    pub fn as_str(&self) -> (text: &str)
        ensures
            text@ == self@,
            text@.len() > 0,
    {
        proof {
            use_type_invariant(self);
        }
        self.text.as_str()
    }
}

impl Clone for NonEmptyText {
    fn clone(&self) -> (copy: Self)
        ensures
            copy@ == self@,
    {
        proof {
            use_type_invariant(self);
        }
        NonEmptyText { text: self.text.clone() }
    }
}

} // verus!

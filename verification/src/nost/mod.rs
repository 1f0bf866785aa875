//! The `.nost` language: lexer, comment-preserving tree, validation, and canonical
//! formatter.
//!
//! Comments are part of the tree: `.nost` exists so a graph can be reviewed and edited in
//! Git, so every comment is retained with its attachment and reproduced on output. A
//! comment on its own line leads the next declaration or property in the same block, or
//! trails the block when nothing follows; a comment after something on the same line
//! trails it. A comment within a property, a field or the head of a declaration leads it, so
//! that the tree holds the comments in the order of the source.
//!
//! Parsing reports only what the grammar can express. An integer that does not fit in 64
//! bits, a duplicate alias, and a malformed timestamp all parse; [`validate::validate`] reports
//! those, each with its stable diagnostic code.


pub mod again;
pub mod clean;
pub mod convert;
pub mod ending;
pub mod exchange;
pub mod export;
pub mod fixed;
pub mod format;
pub mod ledger;
pub mod lexer;
pub mod parser;
pub mod parts;
pub mod remarks;
pub mod reorder;
pub mod reread;
pub mod validate;
pub mod written;

use crate::contribution::kind_of_name;
use crate::contribution::owner_kind;
use crate::contribution::OwnerKind;
use crate::copies::copy_all;
use crate::copies::copy_option;
use crate::copies::copy_plain;
use crate::copies::Copied;
use crate::diagnostic::Diagnostic;
use crate::diagnostic::DiagnosticCode;
use crate::diagnostic::DiagnosticModel;
use crate::diagnostic::Severity;
use crate::evidence::SourceRange;
use crate::number::digits_of;
use crate::number::write_digits;
use crate::property::copy_bytes;
pub use crate::schema::FieldType;
pub use crate::schema::ScalarType;
use crate::text::view_of;
use crate::text::views;
use crate::text::views_push;
use crate::text::NonEmptyText;
use vstd::prelude::*;
use vstd::string::StringExecFns;

verus! {

/// The language version this build reads and writes.
///
/// Version 1 is refused rather than parsed best-effort, because it required a module
/// declaration version 2 has no production for.
pub const LANGUAGE_VERSION: u32 = 2;

/// A syntax error.
/// 
/// Every syntax error carries a range.
#[derive(Debug, PartialEq, Eq)]
pub struct ParseError {
    /// What went wrong.
    pub message: String,
    /// Where it went wrong.
    pub range: SourceRange,
}

/// What a syntax error says.
pub struct ParseErrorModel {
    /// What went wrong.
    pub message: Seq<char>,
    /// Where it went wrong.
    pub range: SourceRange,
}

impl View for ParseError {
    type V = ParseErrorModel;

    open spec fn view(&self) -> ParseErrorModel {
        ParseErrorModel {
            message: self.message@,
            range: self.range,
        }
    }
}

impl Copied for ParseError {
    fn copied(&self) -> (copy: Self) {
        ParseError {
            message: self.message.copied(),
            range: self.range,
        }
    }
}

impl Clone for ParseError {
    fn clone(&self) -> (copy: Self)
        ensures
            copy@ == self@,
    {
        self.copied()
    }
}

impl ParseErrorModel {
    /// The error rendered as a diagnostic.
    pub open spec fn diagnostic(self) -> DiagnosticModel {
        DiagnosticModel {
            code: DiagnosticCode::NostParseError,
            severity: Severity::Error,
            message: if self.message.len() == 0 {
                "a syntax error"@
            } else {
                self.message
            },
            source: None,
            range: Some(self.range),
            details: Seq::empty(),
        }
    }

    /// How the error is shown.
    pub open spec fn text(self) -> Seq<char> {
        digits_of(self.range.from().line as nat) + ":"@ + digits_of(
            self.range.from().column as nat,
        ) + ": "@ + self.message
    }
}

impl ParseError {
    /// The stable diagnostic code for a syntax error.
    pub fn code(&self) -> (code: DiagnosticCode)
        ensures
            code == DiagnosticCode::NostParseError,
    {
        DiagnosticCode::NostParseError
    }

    /// Renders this error as a diagnostic.
    pub fn to_diagnostic(&self) -> (made: Diagnostic)
        ensures
            made@ == self@.diagnostic(),
    {
        proof {
            reveal_strlit("a syntax error");
        }
        let message = NonEmptyText::new_or(self.message.as_str(), "a syntax error");
        let made = Diagnostic {
            code: self.code(),
            severity: Severity::Error,
            message,
            source: None,
            range: Some(self.range),
            details: Vec::new(),
        };
        assert(made@.details =~= Seq::empty());
        made
    }

    /// How the error is shown: line, column and message.
    pub fn to_string(&self) -> (text: String)
        ensures
            text@ == self@.text(),
    {
        let mut text = String::new();
        write_digits(&mut text, self.range.start().line as u64);
        text.append(":");
        write_digits(&mut text, self.range.start().column as u64);
        text.append(": ");
        text.append(self.message.as_str());
        assert(text@ =~= self@.text());
        text
    }
}

/// A comment, with enough context to place it again.
#[derive(Debug, PartialEq, Eq)]
pub struct Comment {
    /// The comment text, without its delimiters.
    pub text: String,
    /// Whether it was written as a block comment.
    pub block: bool,
    /// Where it appeared.
    pub range: SourceRange,
}

/// What a comment says.
pub struct CommentModel {
    /// The comment text, without its delimiters.
    pub text: Seq<char>,
    /// Whether it was written as a block comment.
    pub block: bool,
    /// Where it appeared.
    pub range: SourceRange,
}

impl View for Comment {
    type V = CommentModel;

    open spec fn view(&self) -> CommentModel {
        CommentModel {
            text: self.text@,
            block: self.block,
            range: self.range,
        }
    }
}

impl Copied for Comment {
    fn copied(&self) -> (copy: Self) {
        Comment {
            text: self.text.copied(),
            block: self.block,
            range: self.range,
        }
    }
}

impl Clone for Comment {
    fn clone(&self) -> (copy: Self)
        ensures
            copy@ == self@,
    {
        self.copied()
    }
}

/// Comments attached to one construct.
#[derive(Debug, PartialEq, Eq)]
pub struct Comments {
    /// Comments before the construct, and those within it or its head.
    pub leading: Vec<Comment>,
    /// A comment on the same line, after the construct.
    pub trailing: Option<Comment>,
}

/// What the comments of one construct say.
pub struct CommentsModel {
    /// Comments before the construct, and those within it or its head.
    pub leading: Seq<CommentModel>,
    /// A comment on the same line, after the construct.
    pub trailing: Option<CommentModel>,
}

impl View for Comments {
    type V = CommentsModel;

    open spec fn view(&self) -> CommentsModel {
        CommentsModel {
            leading: views(self.leading@),
            trailing: view_of(self.trailing),
        }
    }
}

impl Copied for Comments {
    fn copied(&self) -> (copy: Self) {
        Comments {
            leading: copy_all(&self.leading),
            trailing: copy_option(&self.trailing),
        }
    }
}

impl Clone for Comments {
    fn clone(&self) -> (copy: Self)
        ensures
            copy@ == self@,
    {
        self.copied()
    }
}

impl CommentsModel {
    /// No comment at all.
    pub open spec fn none() -> CommentsModel {
        CommentsModel { leading: Seq::empty(), trailing: None }
    }

    /// All of the comments, in order.
    pub open spec fn all(self) -> Seq<CommentModel> {
        self.leading + optional_comment(self.trailing)
    }
}

/// The comment there may be.
pub open spec fn optional_comment(comment: Option<CommentModel>) -> Seq<CommentModel> {
    match comment {
        Some(inner) => seq![inner],
        None => Seq::empty(),
    }
}

impl Default for Comments {
    fn default() -> (none: Self)
        ensures
            none@ == CommentsModel::none(),
    {
        let none = Comments { leading: Vec::new(), trailing: None };
        assert(none@.leading =~= Seq::empty());
        none
    }
}

impl Comments {
    /// Reports whether any comment is attached.
    pub fn is_empty(&self) -> (answer: bool)
        ensures
            answer == (self@.all().len() == 0),
    {
        self.leading.len() == 0 && self.trailing.is_none()
    }

    /// Total number of comments attached.
    pub fn count(&self) -> (total: usize)
        requires
            self.leading.len() < usize::MAX,
        ensures
            total == self@.all().len(),
    {
        if self.trailing.is_some() {
            self.leading.len() + 1
        } else {
            self.leading.len()
        }
    }
}

/// A value with the range it came from.
#[derive(Debug, PartialEq, Eq)]
pub struct Spanned<T> {
    /// The value.
    pub value: T,
    /// Where it came from.
    pub range: SourceRange,
}

impl<T: View> View for Spanned<T> {
    type V = Spanned<T::V>;

    open spec fn view(&self) -> Spanned<T::V> {
        Spanned { value: self.value@, range: self.range }
    }
}

impl<T: Copied> Copied for Spanned<T> {
    fn copied(&self) -> (copy: Self) {
        Spanned { value: self.value.copied(), range: self.range }
    }
}

impl<T: Copied> Clone for Spanned<T> {
    fn clone(&self) -> (copy: Self)
        ensures
            copy@ == self@,
    {
        self.copied()
    }
}

/// A value that was written nowhere.
pub open spec fn unplaced<T>(value: T) -> Spanned<T> {
    Spanned { value, range: SourceRange::at_origin() }
}

// -- Values ------------------------------------------------------------------------

/// A property value as written.
///
/// Numbers and timestamps keep their source text, because a range violation or a
/// malformed timestamp is a semantic diagnostic rather than a syntax error.
#[derive(Debug, PartialEq, Eq)]
pub enum Value {
    /// `true` or `false`.
    Boolean(bool),
    /// An integer literal, as written.
    Integer(String),
    /// A float literal, as written.
    Float(String),
    /// A string literal, unescaped.
    String(String),
    /// A `bytes` literal, decoded, with its original digits.
    Bytes {
        /// The decoded bytes.
        decoded: Vec<u8>,
        /// The digits as written, so canonical output can normalize their case.
        digits: String,
    },
    /// A `datetime` literal, as written.
    DateTime(String),
    /// A list of scalars, which does not nest.
    List(Vec<Spanned<Value>>),
}

/// What a written value says.
pub enum ValueModel {
    /// `true` or `false`.
    Boolean(bool),
    /// An integer literal.
    Integer(Seq<char>),
    /// A float literal.
    Float(Seq<char>),
    /// A string literal.
    String(Seq<char>),
    /// A `bytes` literal.
    Bytes {
        /// The decoded bytes.
        decoded: Seq<u8>,
        /// The digits.
        digits: Seq<char>,
    },
    /// A `datetime` literal.
    DateTime(Seq<char>),
    /// A list.
    List(Seq<Spanned<ValueModel>>),
}

/// What the first `count` items of a list say.
pub open spec fn item_models(items: Seq<Spanned<Value>>, count: nat) -> Seq<Spanned<ValueModel>>
    decreases items, count,
{
    if count == 0 || count > items.len() {
        Seq::empty()
    } else {
        item_models(items, (count - 1) as nat).push(
            Spanned {
                value: written_model(items[count - 1].value),
                range: items[count - 1].range,
            },
        )
    }
}

/// What a written value says.
pub open spec fn written_model(value: Value) -> ValueModel
    decreases value, 0nat,
{
    match value {
        Value::Boolean(flag) => ValueModel::Boolean(flag),
        Value::Integer(text) => ValueModel::Integer(text@),
        Value::Float(text) => ValueModel::Float(text@),
        Value::String(text) => ValueModel::String(text@),
        Value::Bytes { decoded, digits } => ValueModel::Bytes {
            decoded: decoded@,
            digits: digits@,
        },
        Value::DateTime(text) => ValueModel::DateTime(text@),
        Value::List(items) => ValueModel::List(item_models(items@, items@.len())),
    }
}

impl View for Value {
    type V = ValueModel;

    open spec fn view(&self) -> ValueModel {
        written_model(*self)
    }
}

/// A list has as many items as were written, each of which says what was written.
pub proof fn item_models_are_views(items: Seq<Spanned<Value>>, count: nat)
    requires
        count <= items.len(),
    ensures
        item_models(items, count) == views(items).take(count as int),
    decreases count,
{
    if count > 0 {
        item_models_are_views(items, (count - 1) as nat);
    }
    assert(item_models(items, count) =~= views(items).take(count as int));
}

/// A list says what its items say.
pub proof fn list_model(items: Seq<Spanned<Value>>)
    ensures
        item_models(items, items.len()) == views(items),
{
    item_models_are_views(items, items.len());
    assert(views(items).take(items.len() as int) =~= views(items));
}

fn copy_items(items: &Vec<Spanned<Value>>) -> (copy: Vec<Spanned<Value>>)
    ensures
        views(copy@) == views(items@),
    decreases items, 0nat,
{
    let mut copy: Vec<Spanned<Value>> = Vec::new();
    let mut at: usize = 0;
    while at < items.len()
        invariant
            at <= items@.len(),
            views(copy@) =~= views(items@).take(at as int),
        decreases items@.len() - at,
    {
        assert(decreases_to!(items => items@[at as int].value));
        let item = Spanned { value: copy_value(&items[at].value), range: items[at].range };
        proof {
            views_push(copy@, item);
        }
        copy.push(item);
        at = at + 1;
    }
    assert(views(copy@) =~= views(items@));
    copy
}

fn copy_value(value: &Value) -> (copy: Value)
    ensures
        copy@ == value@,
    decreases value, 1nat,
{
    match value {
        Value::Boolean(flag) => Value::Boolean(*flag),
        Value::Integer(text) => Value::Integer(text.clone()),
        Value::Float(text) => Value::Float(text.clone()),
        Value::String(text) => Value::String(text.clone()),
        Value::Bytes { decoded, digits } => Value::Bytes {
            decoded: copy_bytes(decoded),
            digits: digits.clone(),
        },
        Value::DateTime(text) => Value::DateTime(text.clone()),
        Value::List(items) => {
            let copied = copy_items(items);
            proof {
                list_model(items@);
                list_model(copied@);
            }
            Value::List(copied)
        }
    }
}

impl Copied for Value {
    fn copied(&self) -> (copy: Self) {
        copy_value(self)
    }
}

impl Clone for Value {
    fn clone(&self) -> (copy: Self)
        ensures
            copy@ == self@,
    {
        copy_value(self)
    }
}

impl ValueModel {
    /// The name of this value's kind.
    pub open spec fn kind(self) -> Seq<char> {
        match self {
            ValueModel::Boolean(_) => "boolean"@,
            ValueModel::Integer(_) => "integer"@,
            ValueModel::Float(_) => "float"@,
            ValueModel::String(_) => "string"@,
            ValueModel::Bytes { .. } => "bytes"@,
            ValueModel::DateTime(_) => "datetime"@,
            ValueModel::List(_) => "list"@,
        }
    }
}

impl Value {
    /// The name of this value's kind, for diagnostics.
    pub fn kind_name(&self) -> (name: &'static str)
        ensures
            name@ == self@.kind(),
    {
        match self {
            Value::Boolean(_) => "boolean",
            Value::Integer(_) => "integer",
            Value::Float(_) => "float",
            Value::String(_) => "string",
            Value::Bytes { .. } => "bytes",
            Value::DateTime(_) => "datetime",
            Value::List(_) => "list",
        }
    }
}

// -- The tree ----------------------------------------------------------------------

/// A property.
#[derive(Debug, PartialEq, Eq)]
pub struct Property {
    /// The key.
    pub key: Spanned<String>,
    /// The value.
    pub value: Spanned<Value>,
    /// Attached comments.
    pub comments: Comments,
}

/// What a property says.
pub struct PropertyModel {
    /// The key.
    pub key: Spanned<Seq<char>>,
    /// The value.
    pub value: Spanned<ValueModel>,
    /// Attached comments.
    pub comments: CommentsModel,
}

impl View for Property {
    type V = PropertyModel;

    open spec fn view(&self) -> PropertyModel {
        PropertyModel {
            key: self.key@,
            value: self.value@,
            comments: self.comments@,
        }
    }
}

impl Copied for Property {
    fn copied(&self) -> (copy: Self) {
        Property {
            key: self.key.copied(),
            value: self.value.copied(),
            comments: self.comments.copied(),
        }
    }
}

impl Clone for Property {
    fn clone(&self) -> (copy: Self)
        ensures
            copy@ == self@,
    {
        self.copied()
    }
}

/// An edge endpoint.
#[derive(Debug, PartialEq, Eq)]
pub enum Endpoint {
    /// A declaration in the same file.
    Local(Spanned<String>),
    /// A declaration in a linked source, named through that link's alias.
    Aliased {
        /// The link alias.
        alias: Spanned<String>,
        /// The declaration name in that source.
        name: Spanned<String>,
    },
    /// A declaration in a linked source, named by canonical locator.
    Locator {
        /// The canonical locator.
        locator: Spanned<String>,
        /// The declaration name in that source.
        name: Spanned<String>,
    },
}

/// What an endpoint names.
pub enum EndpointModel {
    /// A declaration in the same file.
    Local(Spanned<Seq<char>>),
    /// A declaration in a linked source, named through that link's alias.
    Aliased {
        /// The link alias.
        alias: Spanned<Seq<char>>,
        /// The declaration name in that source.
        name: Spanned<Seq<char>>,
    },
    /// A declaration in a linked source, named by canonical locator.
    Locator {
        /// The canonical locator.
        locator: Spanned<Seq<char>>,
        /// The declaration name in that source.
        name: Spanned<Seq<char>>,
    },
}

impl View for Endpoint {
    type V = EndpointModel;

    open spec fn view(&self) -> EndpointModel {
        match self {
            Endpoint::Local(inner) => EndpointModel::Local(inner@),
            Endpoint::Aliased { alias, name } => EndpointModel::Aliased {
                alias: alias@,
                name: name@,
            },
            Endpoint::Locator { locator, name } => EndpointModel::Locator {
                locator: locator@,
                name: name@,
            },
        }
    }
}

impl Copied for Endpoint {
    fn copied(&self) -> (copy: Self) {
        match self {
            Endpoint::Local(inner) => Endpoint::Local(inner.copied()),
            Endpoint::Aliased { alias, name } => Endpoint::Aliased {
                alias: alias.copied(),
                name: name.copied(),
            },
            Endpoint::Locator { locator, name } => Endpoint::Locator {
                locator: locator.copied(),
                name: name.copied(),
            },
        }
    }
}

impl Clone for Endpoint {
    fn clone(&self) -> (copy: Self)
        ensures
            copy@ == self@,
    {
        self.copied()
    }
}

/// An evidence value as written.
/// 
/// The grammar admits a quoted string or a bare enumerator with an optional score. Which
/// keys accept which is a semantic rule, so the shape here stays open.
#[derive(Debug, PartialEq, Eq)]
pub enum EvidenceValue {
    /// A quoted string.
    Text(String),
    /// A bare word, optionally carrying a score, such as `inferred(0.82)`.
    Enumerator {
        /// The word.
        name: String,
        /// The score, as written, when one was supplied.
        score: Option<String>,
    },
}

/// What an evidence value says.
pub enum EvidenceValueModel {
    /// A quoted string.
    Text(Seq<char>),
    /// A bare word, optionally carrying a score, such as `inferred(0.82)`.
    Enumerator {
        /// The word.
        name: Seq<char>,
        /// The score, as written, when one was supplied.
        score: Option<Seq<char>>,
    },
}

impl View for EvidenceValue {
    type V = EvidenceValueModel;

    open spec fn view(&self) -> EvidenceValueModel {
        match self {
            EvidenceValue::Text(inner) => EvidenceValueModel::Text(inner@),
            EvidenceValue::Enumerator { name, score } => EvidenceValueModel::Enumerator {
                name: name@,
                score: view_of(*score),
            },
        }
    }
}

impl Copied for EvidenceValue {
    fn copied(&self) -> (copy: Self) {
        match self {
            EvidenceValue::Text(inner) => EvidenceValue::Text(inner.copied()),
            EvidenceValue::Enumerator { name, score } => EvidenceValue::Enumerator {
                name: name.copied(),
                score: copy_option(score),
            },
        }
    }
}

impl Clone for EvidenceValue {
    fn clone(&self) -> (copy: Self)
        ensures
            copy@ == self@,
    {
        self.copied()
    }
}

/// One key and value inside an evidence block.
#[derive(Debug, PartialEq, Eq)]
pub struct EvidenceField {
    /// The key.
    pub key: Spanned<String>,
    /// The value.
    pub value: Spanned<EvidenceValue>,
    /// Attached comments.
    pub comments: Comments,
}

/// What an evidence field says.
pub struct EvidenceFieldModel {
    /// The key.
    pub key: Spanned<Seq<char>>,
    /// The value.
    pub value: Spanned<EvidenceValueModel>,
    /// Attached comments.
    pub comments: CommentsModel,
}

impl View for EvidenceField {
    type V = EvidenceFieldModel;

    open spec fn view(&self) -> EvidenceFieldModel {
        EvidenceFieldModel {
            key: self.key@,
            value: self.value@,
            comments: self.comments@,
        }
    }
}

impl Copied for EvidenceField {
    fn copied(&self) -> (copy: Self) {
        EvidenceField {
            key: self.key.copied(),
            value: self.value.copied(),
            comments: self.comments.copied(),
        }
    }
}

impl Clone for EvidenceField {
    fn clone(&self) -> (copy: Self)
        ensures
            copy@ == self@,
    {
        self.copied()
    }
}

/// Provenance for one contribution.
#[derive(Debug, PartialEq, Eq)]
pub struct EvidenceBlock {
    /// Fields, in source order.
    pub fields: Vec<EvidenceField>,
    /// Where the block began.
    pub range: SourceRange,
    /// Attached comments.
    pub comments: Comments,
    /// Comments left at the end of the evidence block, the one behind its brace among them.
    pub block_comments: Vec<Comment>,
}

/// What an evidence block says.
pub struct EvidenceBlockModel {
    /// Fields, in source order.
    pub fields: Seq<EvidenceFieldModel>,
    /// Where the block began.
    pub range: SourceRange,
    /// Attached comments.
    pub comments: CommentsModel,
    /// Comments left at the end of the evidence block, the one behind its brace among them.
    pub block_comments: Seq<CommentModel>,
}

impl View for EvidenceBlock {
    type V = EvidenceBlockModel;

    open spec fn view(&self) -> EvidenceBlockModel {
        EvidenceBlockModel {
            fields: views(self.fields@),
            range: self.range,
            comments: self.comments@,
            block_comments: views(self.block_comments@),
        }
    }
}

impl Copied for EvidenceBlock {
    fn copied(&self) -> (copy: Self) {
        EvidenceBlock {
            fields: copy_all(&self.fields),
            range: self.range,
            comments: self.comments.copied(),
            block_comments: copy_all(&self.block_comments),
        }
    }
}

impl Clone for EvidenceBlock {
    fn clone(&self) -> (copy: Self)
        ensures
            copy@ == self@,
    {
        self.copied()
    }
}

/// Who produced a contribution, as written.
#[derive(Debug, PartialEq, Eq)]
pub enum OwnerDeclaration {
    /// `analyzer "<name>" "<version>"`
    Analyzer {
        /// The analyzer name.
        name: Spanned<String>,
        /// The analyzer version, which is part of its identity.
        version: Spanned<String>,
    },
    /// `ai "<contract-digest>"`
    Ai {
        /// Digest of the analysis contract the run used.
        contract_digest: Spanned<String>,
    },
    /// `user`
    User {
        /// Where the keyword appeared.
        range: SourceRange,
    },
    /// `"<owner>"`
    Named {
        /// The owner, as one string.
        name: Spanned<String>,
    },
}

/// What an owner is written as.
pub enum OwnerDeclarationModel {
    /// `analyzer "<name>" "<version>"`
    Analyzer {
        /// The analyzer name.
        name: Spanned<Seq<char>>,
        /// The analyzer version, which is part of its identity.
        version: Spanned<Seq<char>>,
    },
    /// `ai "<contract-digest>"`
    Ai {
        /// Digest of the analysis contract the run used.
        contract_digest: Spanned<Seq<char>>,
    },
    /// `user`
    User {
        /// Where the keyword appeared.
        range: SourceRange,
    },
    /// `"<owner>"`
    Named {
        /// The owner, as one string.
        name: Spanned<Seq<char>>,
    },
}

impl View for OwnerDeclaration {
    type V = OwnerDeclarationModel;

    open spec fn view(&self) -> OwnerDeclarationModel {
        match self {
            OwnerDeclaration::Analyzer { name, version } => OwnerDeclarationModel::Analyzer {
                name: name@,
                version: version@,
            },
            OwnerDeclaration::Ai { contract_digest } => OwnerDeclarationModel::Ai {
                contract_digest: contract_digest@,
            },
            OwnerDeclaration::User { range } => OwnerDeclarationModel::User {
                range: *range,
            },
            OwnerDeclaration::Named { name } => OwnerDeclarationModel::Named {
                name: name@,
            },
        }
    }
}

impl Copied for OwnerDeclaration {
    fn copied(&self) -> (copy: Self) {
        match self {
            OwnerDeclaration::Analyzer { name, version } => OwnerDeclaration::Analyzer {
                name: name.copied(),
                version: version.copied(),
            },
            OwnerDeclaration::Ai { contract_digest } => OwnerDeclaration::Ai {
                contract_digest: contract_digest.copied(),
            },
            OwnerDeclaration::User { range } => OwnerDeclaration::User {
                range: *range,
            },
            OwnerDeclaration::Named { name } => OwnerDeclaration::Named {
                name: name.copied(),
            },
        }
    }
}

impl Clone for OwnerDeclaration {
    fn clone(&self) -> (copy: Self)
        ensures
            copy@ == self@,
    {
        self.copied()
    }
}

impl OwnerDeclarationModel {
    /// The keyword this owner is written with.
    pub open spec fn word(self) -> Seq<char> {
        match self {
            OwnerDeclarationModel::Analyzer { .. } => "analyzer"@,
            OwnerDeclarationModel::Ai { .. } => "ai"@,
            OwnerDeclarationModel::User { .. } => "user"@,
            OwnerDeclarationModel::Named { name } => match kind_of_name(name.value) {
                OwnerKind::Analyzer => "analyzer"@,
                OwnerKind::AiAnalysis => "ai"@,
                OwnerKind::User => "user"@,
            },
        }
    }

    /// Where the owner was written.
    pub open spec fn place(self) -> SourceRange {
        match self {
            OwnerDeclarationModel::Analyzer { name, .. } => name.range,
            OwnerDeclarationModel::Ai { contract_digest } => contract_digest.range,
            OwnerDeclarationModel::User { range } => range,
            OwnerDeclarationModel::Named { name } => name.range,
        }
    }

    /// What kind of owner this is.
    pub open spec fn kind(self) -> OwnerKind {
        match self {
            OwnerDeclarationModel::Analyzer { .. } => OwnerKind::Analyzer,
            OwnerDeclarationModel::Ai { .. } => OwnerKind::AiAnalysis,
            OwnerDeclarationModel::User { .. } => OwnerKind::User,
            OwnerDeclarationModel::Named { name } => kind_of_name(name.value),
        }
    }
}

impl OwnerDeclaration {
    /// The keyword this owner is written with, or the one its name stands for.
    pub fn keyword(&self) -> (word: &'static str)
        ensures
            word@ == self@.word(),
    {
        match self {
            OwnerDeclaration::Analyzer { .. } => "analyzer",
            OwnerDeclaration::Ai { .. } => "ai",
            OwnerDeclaration::User { .. } => "user",
            OwnerDeclaration::Named { name } => match owner_kind(name.value.as_str()) {
                OwnerKind::Analyzer => "analyzer",
                OwnerKind::AiAnalysis => "ai",
                OwnerKind::User => "user",
            },
        }
    }

    /// Where the owner was written.
    pub fn range(&self) -> (place: SourceRange)
        ensures
            place == self@.place(),
    {
        match self {
            OwnerDeclaration::Analyzer { name, .. } => name.range,
            OwnerDeclaration::Ai { contract_digest } => contract_digest.range,
            OwnerDeclaration::User { range } => *range,
            OwnerDeclaration::Named { name } => name.range,
        }
    }

    /// What kind of owner this is.
    pub fn kind(&self) -> (kind: OwnerKind)
        ensures
            kind == self@.kind(),
    {
        match self {
            OwnerDeclaration::Analyzer { .. } => OwnerKind::Analyzer,
            OwnerDeclaration::Ai { .. } => OwnerKind::AiAnalysis,
            OwnerDeclaration::User { .. } => OwnerKind::User,
            OwnerDeclaration::Named { name } => owner_kind(name.value.as_str()),
        }
    }
}

/// One producer's contribution to a record.
#[derive(Debug, PartialEq, Eq)]
pub struct ContributionBlock {
    /// Who produced it.
    pub owner: OwnerDeclaration,
    /// The source unit it derives from, when stated.
    pub unit: Option<Spanned<String>>,
    /// Evidence blocks, in source order.
    pub evidence: Vec<EvidenceBlock>,
    /// Attached comments.
    pub comments: Comments,
    /// Comments left at the end of the contribution block, the one behind its brace among them.
    pub block_comments: Vec<Comment>,
}

/// What a contribution block says.
pub struct ContributionBlockModel {
    /// Who produced it.
    pub owner: OwnerDeclarationModel,
    /// The source unit it derives from, when stated.
    pub unit: Option<Spanned<Seq<char>>>,
    /// Evidence blocks, in source order.
    pub evidence: Seq<EvidenceBlockModel>,
    /// Attached comments.
    pub comments: CommentsModel,
    /// Comments left at the end of the contribution block, the one behind its brace among them.
    pub block_comments: Seq<CommentModel>,
}

impl View for ContributionBlock {
    type V = ContributionBlockModel;

    open spec fn view(&self) -> ContributionBlockModel {
        ContributionBlockModel {
            owner: self.owner@,
            unit: view_of(self.unit),
            evidence: views(self.evidence@),
            comments: self.comments@,
            block_comments: views(self.block_comments@),
        }
    }
}

impl Copied for ContributionBlock {
    fn copied(&self) -> (copy: Self) {
        ContributionBlock {
            owner: self.owner.copied(),
            unit: copy_option(&self.unit),
            evidence: copy_all(&self.evidence),
            comments: self.comments.copied(),
            block_comments: copy_all(&self.block_comments),
        }
    }
}

impl Clone for ContributionBlock {
    fn clone(&self) -> (copy: Self)
        ensures
            copy@ == self@,
    {
        self.copied()
    }
}

/// The body every record declaration shares.
#[derive(Debug, PartialEq)]
pub struct RecordBody {
    /// Properties, in source order.
    pub properties: Vec<Property>,
    /// Contribution blocks, in source order.
    pub contributions: Vec<ContributionBlock>,
    /// Attached comments.
    pub comments: Comments,
    /// Comments left at the end of the record block, the one behind its brace among them.
    pub block_comments: Vec<Comment>,
}

/// What a record body says.
pub struct RecordBodyModel {
    /// Properties, in source order.
    pub properties: Seq<PropertyModel>,
    /// Contribution blocks, in source order.
    pub contributions: Seq<ContributionBlockModel>,
    /// Attached comments.
    pub comments: CommentsModel,
    /// Comments left at the end of the record block, the one behind its brace among them.
    pub block_comments: Seq<CommentModel>,
}

impl View for RecordBody {
    type V = RecordBodyModel;

    open spec fn view(&self) -> RecordBodyModel {
        RecordBodyModel {
            properties: views(self.properties@),
            contributions: views(self.contributions@),
            comments: self.comments@,
            block_comments: views(self.block_comments@),
        }
    }
}

impl Copied for RecordBody {
    fn copied(&self) -> (copy: Self) {
        RecordBody {
            properties: copy_all(&self.properties),
            contributions: copy_all(&self.contributions),
            comments: self.comments.copied(),
            block_comments: copy_all(&self.block_comments),
        }
    }
}

impl Clone for RecordBody {
    fn clone(&self) -> (copy: Self)
        ensures
            copy@ == self@,
    {
        self.copied()
    }
}

/// A node declaration.
#[derive(Debug, PartialEq)]
pub struct NodeDeclaration {
    /// The declaration name.
    pub name: Spanned<String>,
    /// One or more schema names, each of which is also a label.
    pub schemas: Vec<Spanned<String>>,
    /// Properties and contributions.
    pub record: RecordBody,
}

/// What a node declaration says.
pub struct NodeDeclarationModel {
    /// The declaration name.
    pub name: Spanned<Seq<char>>,
    /// One or more schema names, each of which is also a label.
    pub schemas: Seq<Spanned<Seq<char>>>,
    /// Properties and contributions.
    pub record: RecordBodyModel,
}

impl View for NodeDeclaration {
    type V = NodeDeclarationModel;

    open spec fn view(&self) -> NodeDeclarationModel {
        NodeDeclarationModel {
            name: self.name@,
            schemas: views(self.schemas@),
            record: self.record@,
        }
    }
}

impl Copied for NodeDeclaration {
    fn copied(&self) -> (copy: Self) {
        NodeDeclaration {
            name: self.name.copied(),
            schemas: copy_all(&self.schemas),
            record: self.record.copied(),
        }
    }
}

impl Clone for NodeDeclaration {
    fn clone(&self) -> (copy: Self)
        ensures
            copy@ == self@,
    {
        self.copied()
    }
}

/// An edge declaration.
/// 
/// An edge carries no declaration name, because nothing references one: an endpoint names
/// a node.
#[derive(Debug, PartialEq)]
pub struct EdgeDeclaration {
    /// Where the relation starts.
    pub source: Endpoint,
    /// Where the relation ends.
    pub target: Endpoint,
    /// The single relation type, which is also the edge's schema name.
    pub relation: Spanned<String>,
    /// Properties and contributions.
    pub record: RecordBody,
}

/// What an edge declaration says.
pub struct EdgeDeclarationModel {
    /// Where the relation starts.
    pub source: EndpointModel,
    /// Where the relation ends.
    pub target: EndpointModel,
    /// The single relation type, which is also the edge's schema name.
    pub relation: Spanned<Seq<char>>,
    /// Properties and contributions.
    pub record: RecordBodyModel,
}

impl View for EdgeDeclaration {
    type V = EdgeDeclarationModel;

    open spec fn view(&self) -> EdgeDeclarationModel {
        EdgeDeclarationModel {
            source: self.source@,
            target: self.target@,
            relation: self.relation@,
            record: self.record@,
        }
    }
}

impl Copied for EdgeDeclaration {
    fn copied(&self) -> (copy: Self) {
        EdgeDeclaration {
            source: self.source.copied(),
            target: self.target.copied(),
            relation: self.relation.copied(),
            record: self.record.copied(),
        }
    }
}

impl Clone for EdgeDeclaration {
    fn clone(&self) -> (copy: Self)
        ensures
            copy@ == self@,
    {
        self.copied()
    }
}

/// One typed field of a schema.
#[derive(Debug, PartialEq, Eq)]
pub struct SchemaField {
    /// The field key.
    pub key: Spanned<String>,
    /// Whether a record may omit it.
    pub optional: bool,
    /// The declared type.
    pub field_type: Spanned<FieldType>,
    /// Attached comments.
    pub comments: Comments,
}

/// What a schema field declares.
pub struct SchemaFieldModel {
    /// The field key.
    pub key: Spanned<Seq<char>>,
    /// Whether a record may omit it.
    pub optional: bool,
    /// The declared type.
    pub field_type: Spanned<FieldType>,
    /// Attached comments.
    pub comments: CommentsModel,
}

impl View for SchemaField {
    type V = SchemaFieldModel;

    open spec fn view(&self) -> SchemaFieldModel {
        SchemaFieldModel {
            key: self.key@,
            optional: self.optional,
            field_type: self.field_type@,
            comments: self.comments@,
        }
    }
}

impl Copied for SchemaField {
    fn copied(&self) -> (copy: Self) {
        SchemaField {
            key: self.key.copied(),
            optional: self.optional,
            field_type: self.field_type.copied(),
            comments: self.comments.copied(),
        }
    }
}

impl Clone for SchemaField {
    fn clone(&self) -> (copy: Self)
        ensures
            copy@ == self@,
    {
        self.copied()
    }
}

/// The schemas an edge's endpoints must carry.
#[derive(Debug, PartialEq, Eq)]
pub struct EndpointConstraint {
    /// The schema the source record must carry.
    pub source: Spanned<String>,
    /// The schema the target record must carry.
    pub target: Spanned<String>,
}

/// What an endpoint constraint demands.
pub struct EndpointConstraintModel {
    /// The schema the source record must carry.
    pub source: Spanned<Seq<char>>,
    /// The schema the target record must carry.
    pub target: Spanned<Seq<char>>,
}

impl View for EndpointConstraint {
    type V = EndpointConstraintModel;

    open spec fn view(&self) -> EndpointConstraintModel {
        EndpointConstraintModel {
            source: self.source@,
            target: self.target@,
        }
    }
}

impl Copied for EndpointConstraint {
    fn copied(&self) -> (copy: Self) {
        EndpointConstraint {
            source: self.source.copied(),
            target: self.target.copied(),
        }
    }
}

impl Clone for EndpointConstraint {
    fn clone(&self) -> (copy: Self)
        ensures
            copy@ == self@,
    {
        self.copied()
    }
}

/// A schema declaration.
#[derive(Debug, PartialEq, Eq)]
pub struct SchemaDeclaration {
    /// The schema name, which is also the label its records carry.
    pub name: Spanned<String>,
    /// The endpoint constraint, when this schema describes an edge.
    pub endpoints: Option<EndpointConstraint>,
    /// Fields, in source order.
    pub fields: Vec<SchemaField>,
    /// Attached comments.
    pub comments: Comments,
    /// Comments left at the end of the field block, the one behind its brace among them.
    pub block_comments: Vec<Comment>,
}

/// What a schema declaration says.
pub struct SchemaDeclarationModel {
    /// The schema name, which is also the label its records carry.
    pub name: Spanned<Seq<char>>,
    /// The endpoint constraint, when this schema describes an edge.
    pub endpoints: Option<EndpointConstraintModel>,
    /// Fields, in source order.
    pub fields: Seq<SchemaFieldModel>,
    /// Attached comments.
    pub comments: CommentsModel,
    /// Comments left at the end of the field block, the one behind its brace among them.
    pub block_comments: Seq<CommentModel>,
}

impl View for SchemaDeclaration {
    type V = SchemaDeclarationModel;

    open spec fn view(&self) -> SchemaDeclarationModel {
        SchemaDeclarationModel {
            name: self.name@,
            endpoints: view_of(self.endpoints),
            fields: views(self.fields@),
            comments: self.comments@,
            block_comments: views(self.block_comments@),
        }
    }
}

impl Copied for SchemaDeclaration {
    fn copied(&self) -> (copy: Self) {
        SchemaDeclaration {
            name: self.name.copied(),
            endpoints: copy_option(&self.endpoints),
            fields: copy_all(&self.fields),
            comments: self.comments.copied(),
            block_comments: copy_all(&self.block_comments),
        }
    }
}

impl Clone for SchemaDeclaration {
    fn clone(&self) -> (copy: Self)
        ensures
            copy@ == self@,
    {
        self.copied()
    }
}

/// A link declaration.
#[derive(Debug, PartialEq, Eq)]
pub struct LinkDeclaration {
    /// The canonical locator, which is the link's identity.
    pub source: Spanned<String>,
    /// The optional alias.
    pub alias: Option<Spanned<String>>,
    /// Attached comments.
    pub comments: Comments,
}

/// What a link declaration says.
pub struct LinkDeclarationModel {
    /// The canonical locator, which is the link's identity.
    pub source: Spanned<Seq<char>>,
    /// The optional alias.
    pub alias: Option<Spanned<Seq<char>>>,
    /// Attached comments.
    pub comments: CommentsModel,
}

impl View for LinkDeclaration {
    type V = LinkDeclarationModel;

    open spec fn view(&self) -> LinkDeclarationModel {
        LinkDeclarationModel {
            source: self.source@,
            alias: view_of(self.alias),
            comments: self.comments@,
        }
    }
}

impl Copied for LinkDeclaration {
    fn copied(&self) -> (copy: Self) {
        LinkDeclaration {
            source: self.source.copied(),
            alias: copy_option(&self.alias),
            comments: self.comments.copied(),
        }
    }
}

impl Clone for LinkDeclaration {
    fn clone(&self) -> (copy: Self)
        ensures
            copy@ == self@,
    {
        self.copied()
    }
}

/// Which declaration list an entry in [`SourceFile::order`] points into.
#[derive(Clone, Copy, Debug, PartialEq, Eq, Structural)]
pub enum DeclarationRef {
    /// An index into [`SourceFile::schemas`].
    Schema(usize),
    /// An index into [`SourceFile::nodes`].
    Node(usize),
    /// An index into [`SourceFile::edges`].
    Edge(usize),
}

/// A parsed `.nost` file.
#[derive(Debug, PartialEq)]
pub struct SourceFile {
    /// The declared language version.
    pub version: Spanned<u32>,
    /// Comments attached to the version header.
    pub version_comments: Comments,
    /// Link declarations, in source order.
    pub links: Vec<LinkDeclaration>,
    /// Schema declarations, in source order.
    pub schemas: Vec<SchemaDeclaration>,
    /// Node declarations, in source order.
    pub nodes: Vec<NodeDeclaration>,
    /// Edge declarations, in source order.
    pub edges: Vec<EdgeDeclaration>,
    /// The order the schema, node, and edge declarations appeared in.
    pub order: Vec<DeclarationRef>,
    /// Own-line comments after the last declaration.
    pub trailing_comments: Vec<Comment>,
}

/// What a file says.
pub struct SourceFileModel {
    /// The declared language version.
    pub version: Spanned<u32>,
    /// Comments attached to the version header.
    pub version_comments: CommentsModel,
    /// Link declarations, in source order.
    pub links: Seq<LinkDeclarationModel>,
    /// Schema declarations, in source order.
    pub schemas: Seq<SchemaDeclarationModel>,
    /// Node declarations, in source order.
    pub nodes: Seq<NodeDeclarationModel>,
    /// Edge declarations, in source order.
    pub edges: Seq<EdgeDeclarationModel>,
    /// The order the schema, node, and edge declarations appeared in.
    pub order: Seq<DeclarationRef>,
    /// Own-line comments after the last declaration.
    pub trailing_comments: Seq<CommentModel>,
}

impl View for SourceFile {
    type V = SourceFileModel;

    open spec fn view(&self) -> SourceFileModel {
        SourceFileModel {
            version: self.version,
            version_comments: self.version_comments@,
            links: views(self.links@),
            schemas: views(self.schemas@),
            nodes: views(self.nodes@),
            edges: views(self.edges@),
            order: self.order@,
            trailing_comments: views(self.trailing_comments@),
        }
    }
}

impl Copied for SourceFile {
    fn copied(&self) -> (copy: Self) {
        SourceFile {
            version: Spanned { value: self.version.value, range: self.version.range },
            version_comments: self.version_comments.copied(),
            links: copy_all(&self.links),
            schemas: copy_all(&self.schemas),
            nodes: copy_all(&self.nodes),
            edges: copy_all(&self.edges),
            order: copy_plain(&self.order),
            trailing_comments: copy_all(&self.trailing_comments),
        }
    }
}

impl Clone for SourceFile {
    fn clone(&self) -> (copy: Self)
        ensures
            copy@ == self@,
    {
        self.copied()
    }
}

// -- Every comment -----------------------------------------------------------------

/// The comments of a list of constructs, one after the other.
pub open spec fn field_comments(fields: Seq<SchemaFieldModel>, count: int) -> Seq<CommentModel>
    decreases count,
{
    if count <= 0 {
        Seq::empty()
    } else {
        field_comments(fields, count - 1) + fields[count - 1].comments.all()
    }
}

/// The comments of a list of properties.
pub open spec fn property_comments(properties: Seq<PropertyModel>, count: int) -> Seq<CommentModel>
    decreases count,
{
    if count <= 0 {
        Seq::empty()
    } else {
        property_comments(properties, count - 1) + properties[count - 1].comments.all()
    }
}

/// The comments of a list of evidence fields.
pub open spec fn evidence_field_comments(
    fields: Seq<EvidenceFieldModel>,
    count: int,
) -> Seq<CommentModel>
    decreases count,
{
    if count <= 0 {
        Seq::empty()
    } else {
        evidence_field_comments(fields, count - 1) + fields[count - 1].comments.all()
    }
}

/// The comments of a list of evidence blocks.
pub open spec fn evidence_comments(blocks: Seq<EvidenceBlockModel>, count: int) -> Seq<CommentModel>
    decreases count,
{
    if count <= 0 {
        Seq::empty()
    } else {
        let block = blocks[count - 1];
        evidence_comments(blocks, count - 1) + block.comments.all() + evidence_field_comments(
            block.fields,
            block.fields.len() as int,
        ) + block.block_comments
    }
}

/// The comments of a list of contribution blocks.
pub open spec fn contribution_comments(
    blocks: Seq<ContributionBlockModel>,
    count: int,
) -> Seq<CommentModel>
    decreases count,
{
    if count <= 0 {
        Seq::empty()
    } else {
        let block = blocks[count - 1];
        contribution_comments(blocks, count - 1) + block.comments.all() + evidence_comments(
            block.evidence,
            block.evidence.len() as int,
        ) + block.block_comments
    }
}

/// The comments of a record.
pub open spec fn record_comments(record: RecordBodyModel) -> Seq<CommentModel> {
    record.comments.all() + property_comments(record.properties, record.properties.len() as int)
        + contribution_comments(record.contributions, record.contributions.len() as int)
        + record.block_comments
}

/// The comments of a schema.
pub open spec fn schema_comments(schema: SchemaDeclarationModel) -> Seq<CommentModel> {
    schema.comments.all() + field_comments(schema.fields, schema.fields.len() as int)
        + schema.block_comments
}

/// The comments of a list of links.
pub open spec fn link_comments(links: Seq<LinkDeclarationModel>, count: int) -> Seq<CommentModel>
    decreases count,
{
    if count <= 0 {
        Seq::empty()
    } else {
        link_comments(links, count - 1) + links[count - 1].comments.all()
    }
}

impl SourceFileModel {
    /// Whether every entry of the order points at a declaration.
    pub open spec fn ordered(self) -> bool {
        forall|i: int|
            0 <= i < self.order.len() ==> match #[trigger] self.order[i] {
                DeclarationRef::Schema(index) => index < self.schemas.len(),
                DeclarationRef::Node(index) => index < self.nodes.len(),
                DeclarationRef::Edge(index) => index < self.edges.len(),
            }
    }

    /// The comments of the first `count` declarations in source order.
    pub open spec fn declaration_comments(self, count: int) -> Seq<CommentModel>
        decreases count,
    {
        if count <= 0 {
            Seq::empty()
        } else {
            self.declaration_comments(count - 1) + (match self.order[count - 1] {
                DeclarationRef::Schema(index) => schema_comments(self.schemas[index as int]),
                DeclarationRef::Node(index) => record_comments(self.nodes[index as int].record),
                DeclarationRef::Edge(index) => record_comments(self.edges[index as int].record),
            })
        }
    }

    /// Every comment in the file, in source order.
    pub open spec fn comments(self) -> Seq<CommentModel> {
        self.version_comments.all() + link_comments(self.links, self.links.len() as int)
            + self.declaration_comments(self.order.len() as int) + self.trailing_comments
    }
}

/// The models of a list of borrowed comments.
pub open spec fn shown(comments: Seq<&Comment>) -> Seq<CommentModel> {
    Seq::new(comments.len(), |i: int| comments[i]@)
}

proof fn shown_push(comments: Seq<&Comment>, comment: &Comment)
    ensures
        shown(comments.push(comment)) == shown(comments).push(comment@),
{
    assert(shown(comments.push(comment)) =~= shown(comments).push(comment@));
}

fn extend<'a>(found: &mut Vec<&'a Comment>, more: &'a Vec<Comment>)
    ensures
        shown(final(found)@) == shown(old(found)@) + views(more@),
{
    let ghost before = shown(found@);
    let mut at: usize = 0;
    while at < more.len()
        invariant
            at <= more@.len(),
            shown(found@) =~= before + views(more@).take(at as int),
        decreases more@.len() - at,
    {
        proof {
            shown_push(found@, &more@[at as int]);
        }
        found.push(&more[at]);
        at = at + 1;
    }
    assert(views(more@).take(more@.len() as int) =~= views(more@));
}

fn extend_comments<'a>(found: &mut Vec<&'a Comment>, more: &'a Comments)
    ensures
        shown(final(found)@) == shown(old(found)@) + more@.all(),
{
    let ghost before = shown(found@);
    extend(found, &more.leading);
    match &more.trailing {
        Some(comment) => {
            proof {
                shown_push(found@, comment);
            }
            found.push(comment);
        }
        None => {}
    }
    assert(shown(found@) =~= before + more@.all());
}

fn collect_record<'a>(found: &mut Vec<&'a Comment>, record: &'a RecordBody)
    ensures
        shown(final(found)@) == shown(old(found)@) + record_comments(record@),
{
    let ghost model = record@;
    let ghost before = shown(found@);
    extend_comments(found, &record.comments);
    let mut at: usize = 0;
    while at < record.properties.len()
        invariant
            at <= record.properties@.len(),
            model == record@,
            shown(found@) =~= before + model.comments.all() + property_comments(
                model.properties,
                at as int,
            ),
        decreases record.properties@.len() - at,
    {
        extend_comments(found, &record.properties[at].comments);
        at = at + 1;
    }
    let ghost second = shown(found@);
    let mut at: usize = 0;
    while at < record.contributions.len()
        invariant
            at <= record.contributions@.len(),
            model == record@,
            shown(found@) =~= second + contribution_comments(model.contributions, at as int),
        decreases record.contributions@.len() - at,
    {
        let block = &record.contributions[at];
        let ghost third = shown(found@);
        extend_comments(found, &block.comments);
        let mut inner: usize = 0;
        while inner < block.evidence.len()
            invariant
                inner <= block.evidence@.len(),
                shown(found@) =~= third + block@.comments.all() + evidence_comments(
                    block@.evidence,
                    inner as int,
                ),
            decreases block.evidence@.len() - inner,
        {
            let evidence = &block.evidence[inner];
            let ghost fourth = shown(found@);
            extend_comments(found, &evidence.comments);
            let mut deep: usize = 0;
            while deep < evidence.fields.len()
                invariant
                    deep <= evidence.fields@.len(),
                    shown(found@) =~= fourth + evidence@.comments.all() + evidence_field_comments(
                        evidence@.fields,
                        deep as int,
                    ),
                decreases evidence.fields@.len() - deep,
            {
                extend_comments(found, &evidence.fields[deep].comments);
                deep = deep + 1;
            }
            extend(found, &evidence.block_comments);
            inner = inner + 1;
        }
        extend(found, &block.block_comments);
        at = at + 1;
    }
    extend(found, &record.block_comments);
    assert(shown(found@) =~= before + record_comments(model));
}

impl SourceFile {
    /// Every comment in the file, in source order.
    pub fn all_comments(&self) -> (found: Vec<&Comment>)
        requires
            self@.ordered(),
        ensures
            shown(found@) == self@.comments(),
    {
        let ghost model = self@;
        let mut found: Vec<&Comment> = Vec::new();
        assert(shown(found@) =~= Seq::empty());
        extend_comments(&mut found, &self.version_comments);
        let mut at: usize = 0;
        while at < self.links.len()
            invariant
                at <= self.links@.len(),
                model == self@,
                shown(found@) =~= model.version_comments.all() + link_comments(
                    model.links,
                    at as int,
                ),
            decreases self.links@.len() - at,
        {
            extend_comments(&mut found, &self.links[at].comments);
            at = at + 1;
        }
        let ghost second = shown(found@);
        let mut at: usize = 0;
        while at < self.order.len()
            invariant
                at <= self.order@.len(),
                model == self@,
                model.ordered(),
                shown(found@) =~= second + model.declaration_comments(at as int),
            decreases self.order@.len() - at,
        {
            assert(model.order[at as int] == self.order@[at as int]);
            match self.order[at] {
                DeclarationRef::Schema(index) => {
                    let schema = &self.schemas[index];
                    let ghost third = shown(found@);
                    extend_comments(&mut found, &schema.comments);
                    let mut inner: usize = 0;
                    while inner < schema.fields.len()
                        invariant
                            inner <= schema.fields@.len(),
                            shown(found@) =~= third + schema@.comments.all() + field_comments(
                                schema@.fields,
                                inner as int,
                            ),
                        decreases schema.fields@.len() - inner,
                    {
                        extend_comments(&mut found, &schema.fields[inner].comments);
                        inner = inner + 1;
                    }
                    extend(&mut found, &schema.block_comments);
                }
                DeclarationRef::Node(index) => {
                    collect_record(&mut found, &self.nodes[index].record);
                }
                DeclarationRef::Edge(index) => {
                    collect_record(&mut found, &self.edges[index].record);
                }
            }
            at = at + 1;
        }
        extend(&mut found, &self.trailing_comments);
        assert(shown(found@) =~= model.comments());
        found
    }
}

} // verus!

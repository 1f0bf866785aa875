//! What a scan of a source tree found.

use crate::evidence::ContentDigest;
use crate::locator::CanonicalSourceLocator;
use crate::text::view_of;
use crate::text::views;
use crate::text::NonEmptyText;
use vstd::prelude::*;

verus! {

/// A file the scanner reached and did not exclude.
#[derive(Debug, PartialEq, Eq)]
pub struct ScannedFile {
    /// Where it is, below the scanned directory.
    pub path: String,
    /// The language it is written in.
    pub language: String,
    /// How many bytes it holds.
    pub bytes: u64,
    /// The digest of its contents.
    pub digest: ContentDigest,
}

/// What is known of a scanned file.
pub struct FileModel {
    /// Where it is.
    pub path: Seq<char>,
    /// The language it is written in.
    pub language: Seq<char>,
    /// How many bytes it holds.
    pub bytes: u64,
    /// The digest of its contents.
    pub digest: Seq<char>,
}

impl View for ScannedFile {
    type V = FileModel;

    open spec fn view(&self) -> FileModel {
        FileModel {
            path: self.path@,
            language: self.language@,
            bytes: self.bytes,
            digest: self.digest@,
        }
    }
}

/// Why a file was excluded.
#[derive(Clone, Copy, Debug, PartialEq, Eq, PartialOrd, Ord, Hash, Structural)]
pub enum SkipReason {
    /// A rule excludes it.
    Ignored,
    /// It looks like it holds a secret.
    Sensitive,
}

/// A file that was excluded.
#[derive(Debug, PartialEq, Eq)]
pub struct SkippedSource {
    /// The source it is in.
    pub source: CanonicalSourceLocator,
    /// Where it is.
    pub path: Option<NonEmptyText>,
    /// Why it was excluded.
    pub reason: SkipReason,
}

/// What is known of a file that was excluded.
pub struct SkippedModel {
    /// The source it is in.
    pub source: Seq<char>,
    /// Where it is.
    pub path: Option<Seq<char>>,
    /// Why it was excluded.
    pub reason: SkipReason,
}

impl View for SkippedSource {
    type V = SkippedModel;

    open spec fn view(&self) -> SkippedModel {
        SkippedModel {
            source: self.source@,
            path: view_of(self.path),
            reason: self.reason,
        }
    }
}

/// What a scan found.
#[derive(Debug, PartialEq, Eq)]
pub struct Scan {
    /// The files that were reached and not excluded.
    pub files: Vec<ScannedFile>,
    /// The files that were excluded.
    pub skipped: Vec<SkippedSource>,
}

/// What a scan found.
pub struct ScanModel {
    /// The files that were reached and not excluded.
    pub files: Seq<FileModel>,
    /// The files that were excluded.
    pub skipped: Seq<SkippedModel>,
}

impl View for Scan {
    type V = ScanModel;

    open spec fn view(&self) -> ScanModel {
        ScanModel { files: views(self.files@), skipped: views(self.skipped@) }
    }
}

} // verus!

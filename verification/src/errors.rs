use vstd::prelude::*;
use vstd::string::StringExecFns;
use vstd::string::StrSliceExecFns;

verus! {

/// Why one configured document could not be indexed. Such failures are
/// collected; they do not abort the build.
#[derive(Debug, PartialEq)]
pub enum DocumentProblem {
    HtmlSelectorNotPresent(String),
    EmptyWordList,
    CannotReadSource(String),
    UnsupportedFiletype,
}

/// The mathematical shape of a `DocumentProblem`.
pub enum DocumentProblemV {
    HtmlSelectorNotPresent(Seq<char>),
    EmptyWordList,
    CannotReadSource(Seq<char>),
    UnsupportedFiletype,
}

impl View for DocumentProblem {
    type V = DocumentProblemV;

    open spec fn view(&self) -> DocumentProblemV {
        match self {
            DocumentProblem::HtmlSelectorNotPresent(s) => DocumentProblemV::HtmlSelectorNotPresent(
                s@,
            ),
            DocumentProblem::EmptyWordList => DocumentProblemV::EmptyWordList,
            DocumentProblem::CannotReadSource(s) => DocumentProblemV::CannotReadSource(s@),
            DocumentProblem::UnsupportedFiletype => DocumentProblemV::UnsupportedFiletype,
        }
    }
}

/// The reported wording for one document problem.
pub open spec fn spec_problem_string(p: DocumentProblemV) -> Seq<char> {
    match p {
        DocumentProblemV::HtmlSelectorNotPresent(sel) => "HTML selector `"@ + sel
            + "` is not present in the file"@,
        DocumentProblemV::EmptyWordList => "No words in word list"@,
        DocumentProblemV::CannotReadSource(reason) => "Cannot read source: "@ + reason,
        DocumentProblemV::UnsupportedFiletype => "Unsupported filetype"@,
    }
}

/// A per-document failure: the title of the file it struck and the problem.
#[derive(Debug, PartialEq)]
pub struct DocumentError {
    pub file_title: String,
    pub problem: DocumentProblem,
}

/// The mathematical shape of a `DocumentError`.
pub struct DocumentErrorV {
    pub file_title: Seq<char>,
    pub problem: DocumentProblemV,
}

impl View for DocumentError {
    type V = DocumentErrorV;

    open spec fn view(&self) -> DocumentErrorV {
        DocumentErrorV { file_title: self.file_title@, problem: self.problem@ }
    }
}

/// The reported wording for a whole document error.
pub open spec fn spec_document_error_string(e: DocumentErrorV) -> Seq<char> {
    "Error: "@ + spec_problem_string(e.problem) + " while indexing `"@ + e.file_title + "`"@
}

impl DocumentError {
    /// Renders the error as the one-line report the build prints per failed
    /// document.
    pub fn error_string(&self) -> (r: String)
        ensures
            r@ == spec_document_error_string(self@),
    {
        let mut s = String::new();
        s.append("Error: ");
        match &self.problem {
            DocumentProblem::HtmlSelectorNotPresent(sel) => {
                s.append("HTML selector `");
                s.append(sel.as_str());
                s.append("` is not present in the file");
            },
            DocumentProblem::EmptyWordList => {
                s.append("No words in word list");
            },
            DocumentProblem::CannotReadSource(reason) => {
                s.append("Cannot read source: ");
                s.append(reason.as_str());
            },
            DocumentProblem::UnsupportedFiletype => {
                s.append("Unsupported filetype");
            },
        }
        s.append(" while indexing `");
        s.append(self.file_title.as_str());
        s.append("`");
        proof {
            assert(s@ =~= spec_document_error_string(self@));
        }
        s
    }
}

/// The fatal outcome of a build: no configured document could be indexed.
#[derive(Clone, Copy, PartialEq, Eq, Structural, Debug)]
pub enum IndexGenerationError {
    NoValidFiles,
}

/// Why a byte blob could not be decoded into an index.
#[derive(Debug, PartialEq)]
pub enum IndexParseError {
    UnknownIndexVersion(String),
    Malformed,
}

/// The mathematical shape of an `IndexParseError`.
pub enum IndexParseErrorV {
    UnknownIndexVersion(Seq<char>),
    Malformed,
}

impl View for IndexParseError {
    type V = IndexParseErrorV;

    open spec fn view(&self) -> IndexParseErrorV {
        match self {
            IndexParseError::UnknownIndexVersion(s) => IndexParseErrorV::UnknownIndexVersion(s@),
            IndexParseError::Malformed => IndexParseErrorV::Malformed,
        }
    }
}

/// Why a cached-index search could not run.
#[derive(Clone, Copy, PartialEq, Eq, Structural, Debug)]
pub enum SearchError {
    IndexNotInCache,
}

} // verus!

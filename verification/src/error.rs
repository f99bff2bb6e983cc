//! The errors of the library.

use crate::text::join2;
use vstd::prelude::*;

verus! {

/// What can go wrong, with the words that say so.
#[derive(Debug, Clone)]
pub enum TurboError {
    Embedding(String),
    Blob(String),
    Store(String),
    Pipeline(String),
    NotFound(String),
    UnsupportedSearchType(String),
    Io(String),
    Other(String),
}

impl TurboError {
    /// The words that come before the detail.
    pub open spec fn prefix(self) -> Seq<char> {
        match self {
            TurboError::Embedding(_) => "embedding error: "@,
            TurboError::Blob(_) => "blob error: "@,
            TurboError::Store(_) => "store error: "@,
            TurboError::Pipeline(_) => "pipeline error: "@,
            TurboError::NotFound(_) => "not found: "@,
            TurboError::UnsupportedSearchType(_) => "unsupported search type for this backend: "@,
            TurboError::Io(_) => Seq::empty(),
            TurboError::Other(_) => Seq::empty(),
        }
    }

    /// The words that the error was made with.
    pub open spec fn detail(self) -> Seq<char> {
        match self {
            TurboError::Embedding(d) => d@,
            TurboError::Blob(d) => d@,
            TurboError::Store(d) => d@,
            TurboError::Pipeline(d) => d@,
            TurboError::NotFound(d) => d@,
            TurboError::UnsupportedSearchType(d) => d@,
            TurboError::Io(d) => d@,
            TurboError::Other(d) => d@,
        }
    }

    /// The error as it is shown.
    pub fn message(&self) -> (text: String)
        ensures
            text@ == self.prefix() + self.detail(),
            self matches TurboError::Embedding(words) ==> text@ == "embedding error: "@ + words@,
            self matches TurboError::Blob(words) ==> text@ == "blob error: "@ + words@,
            self matches TurboError::Store(words) ==> text@ == "store error: "@ + words@,
            self matches TurboError::Pipeline(words) ==> text@ == "pipeline error: "@ + words@,
            self matches TurboError::NotFound(words) ==> text@ == "not found: "@ + words@,
            self matches TurboError::UnsupportedSearchType(words) ==> text@
                == "unsupported search type for this backend: "@ + words@,
            self matches TurboError::Io(words) ==> text@ == words@,
            self matches TurboError::Other(words) ==> text@ == words@,
    {
        match self {
            TurboError::Embedding(d) => join2("embedding error: ", d.as_str()),
            TurboError::Blob(d) => join2("blob error: ", d.as_str()),
            TurboError::Store(d) => join2("store error: ", d.as_str()),
            TurboError::Pipeline(d) => join2("pipeline error: ", d.as_str()),
            TurboError::NotFound(d) => join2("not found: ", d.as_str()),
            TurboError::UnsupportedSearchType(d) => join2(
                "unsupported search type for this backend: ",
                d.as_str(),
            ),
            TurboError::Io(d) => d.clone(),
            TurboError::Other(d) => d.clone(),
        }
    }
}

/// An error tells all that it was made with: the words are kept whole, whatever its kind,
/// and stand at the end of what is shown.
pub proof fn law_words_are_kept(words: String)
    ensures
        TurboError::Embedding(words).detail() == words@,
        TurboError::Blob(words).detail() == words@,
        TurboError::Store(words).detail() == words@,
        TurboError::Pipeline(words).detail() == words@,
        TurboError::NotFound(words).detail() == words@,
        TurboError::UnsupportedSearchType(words).detail() == words@,
        TurboError::Io(words).detail() == words@,
        TurboError::Other(words).detail() == words@,
        TurboError::Io(words).prefix() + TurboError::Io(words).detail() == words@,
        TurboError::Other(words).prefix() + TurboError::Other(words).detail() == words@,
{
    assert(Seq::<char>::empty() + words@ =~= words@);
}

/// What comes before the words depends on the kind of the error alone: two errors of one
/// kind that are shown alike were made with the same words.
pub proof fn law_shown_errors_differ(a: TurboError, b: TurboError)
    requires
        a.prefix() == b.prefix(),
        a.prefix() + a.detail() == b.prefix() + b.detail(),
    ensures
        a.detail() == b.detail(),
{
    let n = a.prefix().len() as int;
    assert((a.prefix() + a.detail()).skip(n) =~= a.detail());
    assert((b.prefix() + b.detail()).skip(n) =~= b.detail());
}

} // verus!

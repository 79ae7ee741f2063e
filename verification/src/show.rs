//! The forms in which a project can be shown.

use vstd::prelude::*;
use vstd::string::*;
use crate::error::Error;

verus! {

/// A form in which a project can be shown.
#[derive(Debug, Clone, Copy, PartialEq, Eq, Structural)]
pub enum ShowFormat {
    /// A graph in the DOT language.
    Dot,
    /// An indented tree.
    Text,
}

/// What `str::to_lowercase` makes of a text: the text in lower case.
pub uninterp spec fn lowercase(s: Seq<char>) -> Seq<char>;

/// Calls `str::to_lowercase`, which returns the text in lower case as
/// Unicode defines it. The result is a function of the text alone; it is
/// named here, not spelled out.
#[verifier::external_body]
fn to_lowercase(s: &str) -> (r: String)
    ensures
        r@ == lowercase(s@),
{
    s.to_lowercase()
}

/// The form that a word in lower case names: `dot` names the graph, and
/// `text`, `txt` and `tree` name the tree.
pub open spec fn named_format(word: Seq<char>) -> Option<ShowFormat> {
    if word == "dot"@ {
        Some(ShowFormat::Dot)
    } else if word == "text"@ || word == "txt"@ || word == "tree"@ {
        Some(ShowFormat::Text)
    } else {
        None
    }
}

impl ShowFormat {
    /// The form that the word names, if it names one. The word is taken
    /// as it is: in lower case.
    pub fn from_word(word: &str) -> (r: Option<ShowFormat>)
        ensures
            r == named_format(word@),
    {
        let w = word.to_owned();
        if w == "dot".to_owned() {
            Some(ShowFormat::Dot)
        } else if w == "text".to_owned() || w == "txt".to_owned() || w == "tree".to_owned() {
            Some(ShowFormat::Text)
        } else {
            None
        }
    }

    /// The form that the word names, whatever its case.
    pub fn from_str(s: &str) -> (r: Result<ShowFormat, Error>)
        ensures
            match r {
                Ok(f) => named_format(lowercase(s@)) == Some(f),
                Err(Error::ParseCliArgument(a)) => named_format(lowercase(s@)) is None && a@
                    == s@,
                Err(_) => false,
            },
    {
        let lower = to_lowercase(s);
        match Self::from_word(lower.as_str()) {
            Some(f) => Ok(f),
            None => Err(Error::ParseCliArgument(s.to_owned())),
        }
    }
}

} // verus!

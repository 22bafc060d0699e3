//! The ways in which the preparation of a documentation text fails.
//!
//! Each failure depends on the input alone, so none is worth a second try:
//! the whole text is given up, and nothing is rendered in part.

use std::ops::Range;
use vstd::prelude::*;
use vstd::string::*;

verus! {

/// What was asked of an image file when it could not be found.
#[derive(Clone, Copy, Debug, PartialEq, Eq, Structural)]
pub enum Access {
    /// Its size.
    Stat,
    /// Its contents.
    Read,
}

/// Why a documentation text could not be prepared.
#[derive(Debug, PartialEq, Eq)]
pub enum Error {
    /// A math expression outside of code holds a blank line; `range` is
    /// where the expression stands in the text.
    InvalidMathBlock { range: Range<usize> },
    /// The file of a local image is missing or cannot be read; `access` is
    /// what was asked of it.
    ImageNotFound { path: String, access: Access },
    /// The file of a local image is larger than the ceiling.
    ImageTooLarge { path: String },
    /// The path of a local image has no extension, or one that stands for
    /// no known image format; `extension` is the one that it has.
    UnsupportedImageFormat { path: String, extension: Option<String> },
    /// There is no documentation to prepare.
    MissingDocumentation,
}

impl Error {
    /// The message of the error, as a sequence of characters.
    pub open spec fn message_text(&self) -> Seq<char> {
        match self {
            Error::InvalidMathBlock { .. } => "blank lines in math blocks are not supported"@,
            Error::ImageNotFound { path, access: Access::Stat } => "failed to stat image: \""@
                + path@ + "\", is the file missing?"@,
            Error::ImageNotFound { path, access: Access::Read } => "failed to read image: \""@
                + path@ + "\", is the file missing?"@,
            Error::ImageTooLarge { path } => "image file too large: \""@ + path@
                + "\", max size is 1MB"@,
            Error::UnsupportedImageFormat { path, extension: None } =>
                "image path has no extension: \""@ + path@ + "\""@,
            Error::UnsupportedImageFormat { extension: Some(name), .. } =>
                "unsupported image format: \""@ + name@ + "\""@,
            Error::MissingDocumentation => "only items with doc comments can be prepared"@,
        }
    }

    /// Describes the error for the user, with the path that it is about.
    pub fn message(&self) -> (text: String)
        ensures
            text@ == self.message_text(),
    {
        match self {
            Error::InvalidMathBlock { .. } => "blank lines in math blocks are not supported".to_owned(),
            Error::ImageNotFound { path, access: Access::Stat } => {
                let mut text = "failed to stat image: \"".to_owned();
                text.append(path.as_str());
                text.append("\", is the file missing?");
                text
            },
            Error::ImageNotFound { path, access: Access::Read } => {
                let mut text = "failed to read image: \"".to_owned();
                text.append(path.as_str());
                text.append("\", is the file missing?");
                text
            },
            Error::ImageTooLarge { path } => {
                let mut text = "image file too large: \"".to_owned();
                text.append(path.as_str());
                text.append("\", max size is 1MB");
                text
            },
            Error::UnsupportedImageFormat { path, extension: None } => {
                let mut text = "image path has no extension: \"".to_owned();
                text.append(path.as_str());
                text.append("\"");
                text
            },
            Error::UnsupportedImageFormat { extension: Some(name), .. } => {
                let mut text = "unsupported image format: \"".to_owned();
                text.append(name.as_str());
                text.append("\"");
                text
            },
            Error::MissingDocumentation => "only items with doc comments can be prepared".to_owned(),
        }
    }
}

} // verus!

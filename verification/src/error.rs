use vstd::prelude::*;

verus! {

/// Possible errors encountered while assembling a spritesheet.
#[derive(Clone, Debug, PartialEq, Eq)]
pub enum Error {
    /// A file path could not be turned into a sprite name.
    PathError(String),
    /// The PNG encoder refused the bitmap.
    PngError(String),
    /// The PNG optimiser refused the encoded image.
    OxiPngError(String),
    /// A vector image could not be read.
    SvgError(String),
    /// Reading or writing a file failed.
    IoError(String),
}

pub type SpreetResult<T> = Result<T, Error>;

impl Error {
    /// A human-readable description of the error.
    pub fn message(&self) -> (r: &String)
    {
        match self {
            Error::PathError(s) => s,
            Error::PngError(s) => s,
            Error::OxiPngError(s) => s,
            Error::SvgError(s) => s,
            Error::IoError(s) => s,
        }
    }
}

} // verus!

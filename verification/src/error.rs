use vstd::prelude::*;
use crate::text::{owned, push_str};

verus! {

/// Why no capture time could be read from a file.
#[derive(Debug)]
pub enum ExifError {
    /// The file could not be read; holds the reader's own description.
    Io(String),
    /// Neither a JPEG nor a TIFF-structured file.
    UnsupportedFormat,
    /// Not a JPEG: no start-of-image marker.
    NotJpeg,
    /// A JPEG without an EXIF (APP1) segment.
    NoExif,
    /// EXIF data without a DateTimeOriginal or DateTime tag.
    NoDateTag,
    /// EXIF data that breaks its own structure, or a date that fails to parse.
    Malformed(String),
}

/// The mathematical value of an [`ExifError`].
pub enum ExifFailure {
    Io(Seq<char>),
    UnsupportedFormat,
    NotJpeg,
    NoExif,
    NoDateTag,
    Malformed(Seq<char>),
}

impl View for ExifError {
    type V = ExifFailure;

    open spec fn view(&self) -> ExifFailure {
        match self {
            ExifError::Io(s) => ExifFailure::Io(s@),
            ExifError::UnsupportedFormat => ExifFailure::UnsupportedFormat,
            ExifError::NotJpeg => ExifFailure::NotJpeg,
            ExifError::NoExif => ExifFailure::NoExif,
            ExifError::NoDateTag => ExifFailure::NoDateTag,
            ExifError::Malformed(s) => ExifFailure::Malformed(s@),
        }
    }
}

/// The sentence that describes a failure.
pub open spec fn failure_message(e: ExifFailure) -> Seq<char> {
    match e {
        ExifFailure::Io(s) => "could not read file: "@ + s,
        ExifFailure::UnsupportedFormat =>
            "not a JPEG or TIFF-based file (no SOI marker or TIFF byte order marker found)"@,
        ExifFailure::NotJpeg => "not a JPEG file (no SOI marker found)"@,
        ExifFailure::NoExif => "no EXIF (APP1) segment found"@,
        ExifFailure::NoDateTag => "EXIF data has no DateTimeOriginal or DateTime tag"@,
        ExifFailure::Malformed(s) => "malformed EXIF data: "@ + s,
    }
}

impl ExifError {
    /// The sentence that describes this failure.
    pub fn message(&self) -> (m: String)
        ensures
            m@ == failure_message(self@),
    {
        match self {
            ExifError::Io(s) => {
                let mut m = owned("could not read file: ");
                push_str(&mut m, s.as_str());
                m
            },
            ExifError::UnsupportedFormat => owned(
                "not a JPEG or TIFF-based file (no SOI marker or TIFF byte order marker found)",
            ),
            ExifError::NotJpeg => owned("not a JPEG file (no SOI marker found)"),
            ExifError::NoExif => owned("no EXIF (APP1) segment found"),
            ExifError::NoDateTag => owned("EXIF data has no DateTimeOriginal or DateTime tag"),
            ExifError::Malformed(s) => {
                let mut m = owned("malformed EXIF data: ");
                push_str(&mut m, s.as_str());
                m
            },
        }
    }
}

} // verus!

//! The library's error type.

use vstd::prelude::*;
use crate::text::owned;

verus! {

/// What went wrong, by kind; each carries a human-readable message.
#[derive(Debug)]
pub enum CityParquetError {
    /// A file or stream could not be read or written.
    Io(std::string::String),
    /// The input does not follow the format's rules.
    Schema(std::string::String),
    /// A geometry or its per-face side data is inconsistent.
    Geometry(std::string::String),
    /// Package metadata is inconsistent.
    Metadata(std::string::String),
}

/// The message an error carries, whatever its kind.
pub open spec fn message_of(e: CityParquetError) -> Seq<char> {
    match e {
        CityParquetError::Io(t) => t@,
        CityParquetError::Schema(t) => t@,
        CityParquetError::Geometry(t) => t@,
        CityParquetError::Metadata(t) => t@,
    }
}

impl CityParquetError {
    /// The human-readable message.
    pub fn message(&self) -> (m: &str)
        ensures
            m@ == match self {
                CityParquetError::Io(t) => t@,
                CityParquetError::Schema(t) => t@,
                CityParquetError::Geometry(t) => t@,
                CityParquetError::Metadata(t) => t@,
            },
    {
        match self {
            CityParquetError::Io(t) => t.as_str(),
            CityParquetError::Schema(t) => t.as_str(),
            CityParquetError::Geometry(t) => t.as_str(),
            CityParquetError::Metadata(t) => t.as_str(),
        }
    }

    /// The error as text: its kind, then its message.
    pub fn to_string(&self) -> (r: std::string::String)
        ensures
            r@ == match self {
                CityParquetError::Io(t) => "I/O error: "@ + t@,
                CityParquetError::Schema(t) => "schema error: "@ + t@,
                CityParquetError::Geometry(t) => "geometry error: "@ + t@,
                CityParquetError::Metadata(t) => "metadata error: "@ + t@,
            },
    {
        let mut r = match self {
            CityParquetError::Io(_) => owned("I/O error: "),
            CityParquetError::Schema(_) => owned("schema error: "),
            CityParquetError::Geometry(_) => owned("geometry error: "),
            CityParquetError::Metadata(_) => owned("metadata error: "),
        };
        r.push_str(self.message());
        r
    }
}

pub type Result<T> = core::result::Result<T, CityParquetError>;

/// The error is of the `Geometry` kind.
pub open spec fn is_geometry_err<T>(r: Result<T>) -> bool {
    r matches Err(CityParquetError::Geometry(_))
}

} // verus!

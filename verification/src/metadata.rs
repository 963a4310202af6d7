//! EXIF text of a media file: the capture date and the camera, as the EXIF
//! reader gives them, and the date a file is filed under.
use vstd::prelude::*;
use crate::date::{date_view, MediaDate};
use crate::organize::{opt_text, resolve_date, resolve_date_spec};
use ::exif::{In, Reader, Tag};

verus! {

/// The text of the EXIF fields that the program uses.
#[derive(Debug, Clone)]
pub struct ExifText {
    /// Date/time the photo was taken (DateTimeOriginal), e.g. "2024:03:15 14:22:01".
    pub date_taken: Option<String>,
    /// Camera manufacturer, e.g. "Apple".
    pub make: Option<String>,
    /// Camera model, e.g. "iPhone 15 Pro".
    pub model: Option<String>,
}

/// What reading the EXIF data of a file's contents gave.
#[derive(Debug, Clone)]
pub enum ExifRead {
    /// EXIF data with these fields.
    Found(ExifText),
    /// The file holds no EXIF data (videos, PNGs without EXIF, ...).
    NoExif,
    /// The EXIF data could not be read; the message says why.
    Failed(String),
}

/// What a read gave, as text: the message of a failure, `Ok(None)` for no
/// EXIF data, otherwise the date, make and model fields.
pub open spec fn exif_read_view(r: ExifRead) -> Result<
    Option<(Option<Seq<char>>, Option<Seq<char>>, Option<Seq<char>>)>,
    Seq<char>,
> {
    match r {
        ExifRead::Found(t) => Ok(Some((opt_text(t.date_taken), opt_text(t.make), opt_text(t.model)))),
        ExifRead::NoExif => Ok(None),
        ExifRead::Failed(m) => Err(m@),
    }
}

/// What the EXIF reader gives for the file contents `data`.
pub uninterp spec fn exif_text_spec(data: Seq<u8>) -> Result<
    Option<(Option<Seq<char>>, Option<Seq<char>>, Option<Seq<char>>)>,
    Seq<char>,
>;

/// Reads the EXIF data of a file's contents with kamadak-exif's
/// `Reader::read_from_container`, taking the DateTimeOriginal, Make and
/// Model fields of the primary image as `display_value` writes them; a
/// `NotFound` or `BlankValue` error means no EXIF data, and any other error
/// is kept as its message. The contract names the result, a function of
/// `data` alone.
#[verifier::external_body]
pub fn read_exif_text(data: &[u8]) -> (r: ExifRead)
    ensures
        exif_read_view(r) == exif_text_spec(data@),
{
    match Reader::new().read_from_container(&mut std::io::Cursor::new(data)) {
        Ok(e) => ExifRead::Found(ExifText {
            date_taken: e.get_field(Tag::DateTimeOriginal, In::PRIMARY).map(|f| f.display_value().to_string()),
            make: e.get_field(Tag::Make, In::PRIMARY).map(|f| f.display_value().to_string()),
            model: e.get_field(Tag::Model, In::PRIMARY).map(|f| f.display_value().to_string()),
        }),
        Err(::exif::Error::NotFound(_)) | Err(::exif::Error::BlankValue(_)) => ExifRead::NoExif,
        Err(e) => ExifRead::Failed(e.to_string()),
    }
}

/// The EXIF date text in what a read gave, if any.
pub open spec fn exif_date_in(
    x: Result<Option<(Option<Seq<char>>, Option<Seq<char>>, Option<Seq<char>>)>, Seq<char>>,
) -> Option<Seq<char>> {
    match x {
        Ok(Some(t)) => t.0,
        _ => None,
    }
}

/// The date a file with contents `data` is filed under: its EXIF capture
/// date when that reads as a date, otherwise the date in its name.
pub fn resolve_date_from_bytes(path: &str, data: &[u8]) -> (r: Option<MediaDate>)
    ensures
        date_view(r) == resolve_date_spec(path@, exif_date_in(exif_text_spec(data@))),
{
    let exif_date = match read_exif_text(data) {
        ExifRead::Found(t) => t.date_taken,
        _ => None,
    };
    resolve_date(path, exif_date)
}

} // verus!

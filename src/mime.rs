//! Media types, from a table of file extensions or from a file's content.

use vstd::prelude::*;

use crate::text::str_eq;

verus! {

/// The media type that a file extension stands for, if the table knows it.
pub open spec fn mime_for(ext: Seq<char>) -> Option<Seq<char>> {
    if ext == "txt"@ || ext == "md"@ || ext == "toml"@ {
        Some("text/plain"@)
    } else if ext == "html"@ || ext == "htm"@ {
        Some("text/html"@)
    } else if ext == "css"@ {
        Some("text/css"@)
    } else if ext == "apng"@ {
        Some("image/apng"@)
    } else if ext == "bmp"@ {
        Some("image/bmp"@)
    } else if ext == "gif"@ {
        Some("image/gif"@)
    } else if ext == "jpeg"@ || ext == "jpg"@ {
        Some("image/jpeg"@)
    } else if ext == "png"@ {
        Some("image/png"@)
    } else if ext == "svg"@ {
        Some("image/svg+xml"@)
    } else if ext == "tif"@ || ext == "tiff"@ {
        Some("image/tiff"@)
    } else if ext == "webp"@ {
        Some("image/webp"@)
    } else if ext == "aac"@ {
        Some("audio/aac"@)
    } else if ext == "mp3"@ {
        Some("audio/mpeg"@)
    } else if ext == "oga"@ || ext == "ogg"@ {
        Some("audio/ogg"@)
    } else if ext == "opus"@ {
        Some("audio/opus"@)
    } else if ext == "wav"@ {
        Some("audio/wav"@)
    } else if ext == "weba"@ {
        Some("audio/webm"@)
    } else if ext == "3gp"@ {
        Some("video/3gpp"@)
    } else if ext == "3gp2"@ {
        Some("video/3gpp2"@)
    } else if ext == "avi"@ {
        Some("video/x-msvideo"@)
    } else if ext == "mov"@ {
        Some("video/mov"@)
    } else if ext == "mp4"@ {
        Some("video/mp4"@)
    } else if ext == "mpeg"@ {
        Some("video/mpeg"@)
    } else if ext == "ogv"@ {
        Some("video/ogv"@)
    } else if ext == "webm"@ {
        Some("video/webm"@)
    } else if ext == "json"@ {
        Some("application/json"@)
    } else {
        None
    }
}

/// Looks up the media type of a file extension.
pub fn mime_type(ext: &str) -> (r: Option<&'static str>)
    ensures
        match r {
            Some(t) => mime_for(ext@) == Some(t@),
            None => mime_for(ext@) is None,
        },
{
    if str_eq(ext, "txt") || str_eq(ext, "md") || str_eq(ext, "toml") {
        Some("text/plain")
    } else if str_eq(ext, "html") || str_eq(ext, "htm") {
        Some("text/html")
    } else if str_eq(ext, "css") {
        Some("text/css")
    } else if str_eq(ext, "apng") {
        Some("image/apng")
    } else if str_eq(ext, "bmp") {
        Some("image/bmp")
    } else if str_eq(ext, "gif") {
        Some("image/gif")
    } else if str_eq(ext, "jpeg") || str_eq(ext, "jpg") {
        Some("image/jpeg")
    } else if str_eq(ext, "png") {
        Some("image/png")
    } else if str_eq(ext, "svg") {
        Some("image/svg+xml")
    } else if str_eq(ext, "tif") || str_eq(ext, "tiff") {
        Some("image/tiff")
    } else if str_eq(ext, "webp") {
        Some("image/webp")
    } else if str_eq(ext, "aac") {
        Some("audio/aac")
    } else if str_eq(ext, "mp3") {
        Some("audio/mpeg")
    } else if str_eq(ext, "oga") || str_eq(ext, "ogg") {
        Some("audio/ogg")
    } else if str_eq(ext, "opus") {
        Some("audio/opus")
    } else if str_eq(ext, "wav") {
        Some("audio/wav")
    } else if str_eq(ext, "weba") {
        Some("audio/webm")
    } else if str_eq(ext, "3gp") {
        Some("video/3gpp")
    } else if str_eq(ext, "3gp2") {
        Some("video/3gpp2")
    } else if str_eq(ext, "avi") {
        Some("video/x-msvideo")
    } else if str_eq(ext, "mov") {
        Some("video/mov")
    } else if str_eq(ext, "mp4") {
        Some("video/mp4")
    } else if str_eq(ext, "mpeg") {
        Some("video/mpeg")
    } else if str_eq(ext, "ogv") {
        Some("video/ogv")
    } else if str_eq(ext, "webm") {
        Some("video/webm")
    } else if str_eq(ext, "json") {
        Some("application/json")
    } else {
        None
    }
}

/// Whether every byte is ASCII.
pub open spec fn all_ascii(b: Seq<u8>) -> bool {
    forall|k: int| 0 <= k < b.len() ==> #[trigger] b[k] < 0x80
}

/// The type of a file that the table does not know, told from its content.
pub open spec fn sniffed(b: Seq<u8>) -> Seq<char> {
    if all_ascii(b) {
        "text/plain"@
    } else {
        "application/octet-stream"@
    }
}

/// Plain text for content that is all ASCII, and an opaque byte stream otherwise.
pub fn sniff_type(b: &[u8]) -> (r: &'static str)
    ensures
        r@ == sniffed(b@),
{
    let mut i: usize = 0;
    while i < b.len()
        invariant
            i <= b@.len(),
            forall|k: int| 0 <= k < i ==> #[trigger] b@[k] < 0x80,
        decreases b@.len() - i,
    {
        if b[i] >= 0x80 {
            return "application/octet-stream";
        }
        i += 1;
    }
    "text/plain"
}

} // verus!

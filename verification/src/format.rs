//! The image formats a render can be encoded as.

use vstd::prelude::*;

use crate::canvas::Canvas;
use crate::chars::{ascii_lowered, lowered_chars};
use crate::html::elements::chars_are;
use crate::png::{png_encoding, raw_size, zlib_stored_size};
use crate::webp::webp_result;

verus! {

/// The image format to encode a render as. WebP is the default -- real
/// compression, versus PNG's intentionally simple, streaming, effectively
/// uncompressed encoder -- with PNG kept available as an explicit
/// fallback.
#[derive(Debug, Clone, Copy, PartialEq, Eq, Structural)]
pub enum ImageFormat {
    Png,
    Webp,
}



impl ImageFormat {
    pub const DEFAULT: ImageFormat = ImageFormat::Webp;

    /// The format a file extension names, ignoring ASCII case.
    pub fn from_extension(ext: &str) -> (f: Option<Self>)
        ensures
            f == (if ascii_lowered(ext@) == "png"@ {
                Some(ImageFormat::Png)
            } else if ascii_lowered(ext@) == "webp"@ {
                Some(ImageFormat::Webp)
            } else {
                None
            }),
    {
        let lower = lowered_chars(ext);
        if chars_are(&lower, "png") {
            Some(ImageFormat::Png)
        } else if chars_are(&lower, "webp") {
            Some(ImageFormat::Webp)
        } else {
            None
        }
    }

    pub fn extension(&self) -> (e: &'static str)
        ensures
            e@ == (match self {
                ImageFormat::Png => "png"@,
                ImageFormat::Webp => "webp"@,
            }),
    {
        match self {
            ImageFormat::Png => "png",
            ImageFormat::Webp => "webp",
        }
    }

    pub fn content_type(&self) -> (t: &'static str)
        ensures
            t@ == (match self {
                ImageFormat::Png => "image/png"@,
                ImageFormat::Webp => "image/webp"@,
            }),
    {
        match self {
            ImageFormat::Png => "image/png",
            ImageFormat::Webp => "image/webp",
        }
    }

    /// Encodes `canvas` in this format.
    pub fn encode(&self, canvas: &Canvas) -> (res: Result<Vec<u8>, String>)
        requires
            canvas.wf(),
            *self == ImageFormat::Png ==> 4 * canvas.spec_width() + 1 <= usize::MAX && 64
                + zlib_stored_size(raw_size(canvas.spec_width(), canvas.spec_height()))
                <= usize::MAX,
        ensures
            *self == ImageFormat::Png ==> (res matches Ok(bytes) && bytes@ == png_encoding(
                canvas.spec_width(),
                canvas.spec_height(),
                canvas.spec_pixels(),
            )),
            *self == ImageFormat::Webp ==> webp_result(
                canvas.spec_width(),
                canvas.spec_height(),
                canvas.spec_pixels(),
                res,
            ),
    {
        match self {
            ImageFormat::Png => Ok(crate::png::encode(canvas)),
            ImageFormat::Webp => crate::webp::encode(canvas),
        }
    }
}

/// The extension of the file that `path` names, as `std::path::Path`
/// defines it: what follows the last `.` of the file name, unless the name
/// has no `.` but a leading one.
pub uninterp spec fn path_extension(path: Seq<char>) -> Option<Seq<char>>;

/// `std::path::Path::extension`, the extension of the file that `path`
/// names, as a string (`None` also where it is not valid UTF-8, which a
/// `&str` path never is). What it is exactly is left to std; stated is
/// only what its documentation plainly says: a path without any `.` has
/// none, and an extension holds no `.` and no `/`.
#[verifier::external_body]
fn file_extension(path: &str) -> (r: Option<String>)
    ensures
        match r {
            Some(e) => path_extension(path@) == Some(e@),
            None => path_extension(path@) is None,
        },
        !path@.contains('.') ==> r is None,
        r matches Some(e) ==> !e@.contains('.') && !e@.contains('/'),
{
    std::path::Path::new(path).extension().and_then(|e| e.to_str()).map(|e| e.to_string())
}

/// The format named by a file extension, or the default where there is
/// none or it names no format.
pub fn format_for_extension(ext: Option<&str>) -> (f: ImageFormat)
    ensures
        f == (match ext {
            Some(e) => if ascii_lowered(e@) == "png"@ {
                ImageFormat::Png
            } else {
                ImageFormat::DEFAULT
            },
            None => ImageFormat::DEFAULT,
        }),
{
    match ext {
        Some(e) => match ImageFormat::from_extension(e) {
            Some(f) => f,
            None => ImageFormat::DEFAULT,
        },
        None => ImageFormat::DEFAULT,
    }
}

/// Picks a format from an output path's extension, falling back to
/// `ImageFormat::DEFAULT` when the extension is missing or unrecognized.
pub fn format_for_path(path: &str) -> (f: ImageFormat)
    ensures
        f == (match path_extension(path@) {
            Some(e) => if ascii_lowered(e) == "png"@ {
                ImageFormat::Png
            } else {
                ImageFormat::DEFAULT
            },
            None => ImageFormat::DEFAULT,
        }),
        !path@.contains('.') ==> f == ImageFormat::DEFAULT,
{
    let ext = file_extension(path);
    match ext {
        Some(e) => format_for_extension(Some(e.as_str())),
        None => format_for_extension(None),
    }
}

} // verus!

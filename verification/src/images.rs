//! Page rendering helpers: data URLs for image bytes, header-level
//! dimension probing, and the vertical band layout used to split very
//! tall pages.
//!
//! Reading files is the caller's business; every function here takes
//! the bytes (or the dimensions) as plain values.

use vstd::prelude::*;
use vstd::string::StringExecFns;
use std::io::Cursor;
use crate::classify::{get_mime_type, mime_of};
use crate::errors::ScanError;

verus! {

/// Base64 (standard alphabet, with padding) of a byte sequence. Named
/// after `base64`'s `STANDARD` engine: the encoding is a function of
/// the bytes alone.
pub uninterp spec fn base64_of(b: Seq<u8>) -> Seq<char>;

/// Longest byte buffer handed to the base64 encoder; within this bound
/// the encoder's output-length computation cannot overflow.
pub const MAX_ENCODABLE_LEN: usize = usize::MAX / 4;

/// Relies on `base64::Engine::encode` with the `STANDARD` engine: it
/// deterministically encodes the bytes, and panics only when the
/// output length overflows `usize`, which the length bound rules out.
#[verifier::external_body]
fn base64_encode(b: &[u8]) -> (r: String)
    requires
        b@.len() <= MAX_ENCODABLE_LEN,
    ensures
        r@ == base64_of(b@),
{
    base64::Engine::encode(&base64::engine::general_purpose::STANDARD, b)
}

/// Relies on `image::ImageReader` (`with_guessed_format` followed by
/// `into_dimensions`): parses pixel `(width, height)` from the header
/// bytes, reporting every failure as `None`. The reader consults the
/// codec's process-global, runtime-registered format-detection and
/// decoding hooks before its built-in signatures, so the verdict is
/// not a function of the bytes alone and no equation is stated of it.
#[verifier::external_body]
pub fn get_image_dimensions(data: &[u8]) -> Option<(u32, u32)> {
    let reader = match image::ImageReader::new(Cursor::new(data)).with_guessed_format() {
        Ok(rd) => rd,
        Err(_) => return None,
    };
    match reader.into_dimensions() {
        Ok(d) => Some(d),
        Err(_) => None,
    }
}

/// The data URL a page is served as.
pub open spec fn data_url_of(mime: Seq<char>, payload: Seq<char>) -> Seq<char> {
    "data:"@ + mime + ";base64,"@ + payload
}

fn make_data_url(mime: &str, payload: &str) -> (r: String)
    ensures
        r@ == data_url_of(mime@, payload@),
{
    let mut s = String::from_str("data:");
    s.append(mime);
    s.append(";base64,");
    s.append(payload);
    proof {
        assert(s@ =~= data_url_of(mime@, payload@));
    }
    s
}

/// Renders image bytes as a `data:` URL, the MIME type taken from the
/// path's extension.
pub fn read_image_as_base64(path: &str, data: &[u8]) -> (r: String)
    requires
        data@.len() <= MAX_ENCODABLE_LEN,
    ensures
        r@ == data_url_of(mime_of(path@), base64_of(data@)),
{
    let mime = get_mime_type(path);
    let b64 = base64_encode(data);
    make_data_url(mime, b64.as_str())
}

/// One image alongside its probe results, as handed back to the UI.
pub struct ImageInfo {
    pub index: usize,
    pub name: String,
    pub path: String,
    pub width: Option<u32>,
    pub height: Option<u32>,
}

/// Renders a batch of pages. Each item carries its path and the bytes
/// read for it, or `None` when the read failed; each output pair keeps
/// the path and holds the page's data URL, `NotFound` for an unread
/// page, or `Io` for a buffer too large to encode.
pub fn read_images_batch(items: Vec<(String, Option<Vec<u8>>)>) -> (r: Vec<
    (String, Result<String, ScanError>),
>)
    ensures
        r@.len() == items@.len(),
        forall|i: int|
            0 <= i < items@.len() ==> {
                &&& (#[trigger] r@[i]).0 == items@[i].0
                &&& (items@[i].1 is None ==> r@[i].1 == Err::<String, ScanError>(
                    ScanError::NotFound,
                ))
                &&& (items@[i].1 matches Some(d) ==> {
                    &&& (d@.len() <= MAX_ENCODABLE_LEN ==> (r@[i].1 matches Ok(s) && s@
                        == data_url_of(mime_of(items@[i].0@), base64_of(d@))))
                    &&& (d@.len() > MAX_ENCODABLE_LEN ==> r@[i].1 == Err::<String, ScanError>(
                        ScanError::Io,
                    ))
                })
            },
{
    let ghost orig = items@;
    let mut rest = items;
    let mut out: Vec<(String, Result<String, ScanError>)> = Vec::new();
    let ghost mut done: int = 0;
    proof {
        assert(orig.skip(0) =~= orig);
    }
    while rest.len() > 0
        invariant
            0 <= done <= orig.len(),
            rest@ == orig.skip(done),
            out@.len() == done,
            forall|i: int|
                0 <= i < done ==> {
                    &&& (#[trigger] out@[i]).0 == orig[i].0
                    &&& (orig[i].1 is None ==> out@[i].1 == Err::<String, ScanError>(
                        ScanError::NotFound,
                    ))
                    &&& (orig[i].1 matches Some(d) ==> {
                        &&& (d@.len() <= MAX_ENCODABLE_LEN ==> (out@[i].1 matches Ok(s) && s@
                            == data_url_of(mime_of(orig[i].0@), base64_of(d@))))
                        &&& (d@.len() > MAX_ENCODABLE_LEN ==> out@[i].1 == Err::<
                            String,
                            ScanError,
                        >(ScanError::Io))
                    })
                },
        decreases rest@.len(),
    {
        let item = rest.remove(0);
        proof {
            assert(item == orig[done]);
            assert(orig.skip(done).remove(0) =~= orig.skip(done + 1));
        }
        let (path, data) = item;
        let res: Result<String, ScanError> = match data {
            None => Err(ScanError::NotFound),
            Some(bytes) => {
                if bytes.len() <= MAX_ENCODABLE_LEN {
                    Ok(read_image_as_base64(path.as_str(), bytes.as_slice()))
                } else {
                    Err(ScanError::Io)
                }
            },
        };
        out.push((path, res));
        proof {
            done = done + 1;
        }
    }
    out
}

/// One vertical band of a page split for display.
pub struct ImageChunk {
    pub index: usize,
    pub x: u32,
    pub y: u32,
    pub width: u32,
    pub height: u32,
    pub data: String,
}

/// The vertical bands `(y, band_height)` a page of `height` pixels is
/// split into. A page no taller than two bands stays whole; otherwise
/// bands of `chunk_height` pixels follow each other, the last one
/// holding the remainder.
pub fn chunk_layout(height: u32, chunk_height: u32) -> (r: Vec<(u32, u32)>)
    requires
        chunk_height > 0,
        chunk_height <= u32::MAX / 2,
    ensures
        height <= 2 * chunk_height ==> r@ == seq![(0u32, height)],
        height > 2 * chunk_height ==> {
            &&& r@.len() == (height as int + chunk_height as int - 1) / (chunk_height as int)
            &&& forall|i: int|
                0 <= i < r@.len() ==> (#[trigger] r@[i]).0 == i * chunk_height && r@[i].1 == (
                if chunk_height <= height - i * chunk_height {
                    chunk_height as int
                } else {
                    height - i * chunk_height
                })
        },
{
    if height <= 2 * chunk_height {
        let mut whole: Vec<(u32, u32)> = Vec::new();
        whole.push((0, height));
        proof {
            assert(whole@ =~= seq![(0u32, height)]);
        }
        return whole;
    }
    let mut out: Vec<(u32, u32)> = Vec::new();
    let mut y: u32 = 0;
    while y < height
        invariant
            chunk_height > 0,
            y <= height,
            y < height ==> y as int == out@.len() * chunk_height,
            y == height ==> out@.len() >= 1 && height <= out@.len() * chunk_height && (out@.len()
                - 1) * chunk_height < height,
            forall|i: int|
                0 <= i < out@.len() ==> (#[trigger] out@[i]).0 == i * chunk_height && out@[i].1 == (
                if chunk_height <= height - i * chunk_height {
                    chunk_height as int
                } else {
                    height - i * chunk_height
                }),
        decreases height - y,
    {
        let band = if chunk_height <= height - y {
            chunk_height
        } else {
            height - y
        };
        let ghost n = out@.len() as int;
        out.push((y, band));
        proof {
            assert(out@.len() == n + 1);
            assert((n + 1) * chunk_height == n * chunk_height + chunk_height) by (nonlinear_arith);
        }
        y = y + band;
    }
    proof {
        let n = out@.len() as int;
        assert(n * chunk_height >= height);
        assert((n - 1) * chunk_height < height);
        assert(n == (height as int + chunk_height as int - 1) / (chunk_height as int))
            by (nonlinear_arith)
            requires
                chunk_height > 0,
                n * chunk_height >= height,
                (n - 1) * chunk_height < height,
                height > 0,
        ;
    }
    out
}

} // verus!

//! Media codec helpers: keyframe detection in Annex B H.264 streams and the
//! frame checks done before handing data to an encoder.

use vstd::prelude::*;

use image::ImageEncoder;

verus! {

/// 20 ms of mono audio at 48 kHz: the only frame size the audio encoder
/// accepts.
pub const OPUS_FRAME_SIZE: usize = 960;

/// Where the NAL header of a start code beginning at `i` lies: after
/// `00 00 01` or `00 00 00 01`; `None` when no start code begins at `i`.
/// Needs `i + 4 < d.len()`.
pub open spec fn start_code_header(d: Seq<u8>, i: int) -> Option<int> {
    if d[i] == 0 && d[i + 1] == 0 {
        if d[i + 2] == 1 {
            Some(i + 3)
        } else if d[i + 2] == 0 && d[i + 3] == 1 {
            Some(i + 4)
        } else {
            None
        }
    } else {
        None
    }
}

/// A start code at `i` (with at least five bytes from `i` on) whose NAL unit
/// type is 5, an IDR slice.
pub open spec fn idr_start_at(d: Seq<u8>, i: int) -> bool {
    &&& 0 <= i
    &&& i + 4 < d.len()
    &&& start_code_header(d, i) matches Some(h)
    &&& h < d.len()
    &&& d[h] & 0x1f == 5
}

/// Whether an Annex B H.264 stream holds an IDR NAL unit.
pub open spec fn is_keyframe_spec(d: Seq<u8>) -> bool {
    exists|i: int| idr_start_at(d, i)
}

/// Whether an Annex B H.264 stream holds an IDR NAL unit (a keyframe).
pub fn is_keyframe(h264_data: &[u8]) -> (b: bool)
    ensures
        b == is_keyframe_spec(h264_data@),
{
    let ghost d = h264_data@;
    let len = h264_data.len();
    let mut i: usize = 0;
    while i < len && len - i > 4
        invariant
            len == d.len(),
            d == h264_data@,
            i <= len,
            forall|p: int| 0 <= p < i ==> !#[trigger] idr_start_at(d, p),
        decreases len - i,
    {
        if h264_data[i] == 0 && h264_data[i + 1] == 0 {
            let header_idx = if h264_data[i + 2] == 1 {
                i + 3
            } else if h264_data[i + 2] == 0 && h264_data[i + 3] == 1 {
                i + 4
            } else {
                i = i + 1;
                continue;
            };
            if header_idx < len && (h264_data[header_idx] & 0x1f) == 5 {
                assert(idr_start_at(d, i as int));
                return true;
            }
            assert forall|p: int| 0 <= p < header_idx implies !#[trigger] idr_start_at(d, p) by {
                if p > i && p + 4 < d.len() {
                    if header_idx == i + 4 && p == i + 1 {
                        assert(start_code_header(d, p) == Some(header_idx as int));
                    }
                }
            }
            i = header_idx;
        } else {
            i = i + 1;
        }
    }
    assert forall|p: int| !#[trigger] idr_start_at(d, p) by {
        if 0 <= p < i {
        }
    }
    false
}

/// JPEG quality the decoded video is re-encoded with for the frontend.
pub const JPEG_QUALITY: u8 = 70;

/// Whether a raw RGBA frame buffer has exactly `width * height * 4` bytes,
/// that count fitting in `usize`.
pub open spec fn rgba_len_ok(len: int, width: u32, height: u32) -> bool {
    width * height * 4 <= usize::MAX && len == width * height * 4
}

pub fn rgba_frame_len_ok(len: usize, width: u32, height: u32) -> (b: bool)
    ensures
        b == rgba_len_ok(len as int, width, height),
{
    let w = width as u128;
    let h = height as u128;
    assert(w * h <= 0xffff_ffff * 0xffff_ffff) by (nonlinear_arith)
        requires
            w <= 0xffff_ffff,
            h <= 0xffff_ffff,
    ;
    let wh: u128 = w * h;
    let n: u128 = wh * 4;
    n <= usize::MAX as u128 && n == len as u128
}

/// The first `n` pixels of an RGBA buffer with the alpha bytes dropped.
pub open spec fn rgb_pixels(rgba: Seq<u8>, n: nat) -> Seq<u8>
    decreases n,
{
    if n == 0 {
        Seq::empty()
    } else {
        let i = 4 * (n - 1);
        rgb_pixels(rgba, (n - 1) as nat) + seq![rgba[i], rgba[i + 1], rgba[i + 2]]
    }
}

/// Drops the alpha channel of an RGBA buffer (a trailing partial pixel is
/// ignored).
pub fn rgba_to_rgb(rgba: &[u8]) -> (rgb: Vec<u8>)
    ensures
        rgb@ == rgb_pixels(rgba@, (rgba@.len() / 4) as nat),
{
    let len = rgba.len();
    let n = len / 4;
    let mut rgb: Vec<u8> = Vec::new();
    let mut k: usize = 0;
    while k < n
        invariant
            len == rgba@.len(),
            n == rgba@.len() / 4,
            k <= n,
            rgb@ == rgb_pixels(rgba@, k as nat),
        decreases n - k,
    {
        assert(4 * k + 4 <= len);
        let i = 4 * k;
        rgb.push(rgba[i]);
        rgb.push(rgba[i + 1]);
        rgb.push(rgba[i + 2]);
        k = k + 1;
        assert(rgb@ =~= rgb_pixels(rgba@, k as nat));
    }
    rgb
}

proof fn lemma_rgb_pixels_len(rgba: Seq<u8>, n: nat)
    requires
        4 * n <= rgba.len(),
    ensures
        rgb_pixels(rgba, n).len() == 3 * n,
    decreases n,
{
    if n > 0 {
        lemma_rgb_pixels_len(rgba, (n - 1) as nat);
    }
}

/// Names what the image crate's JPEG encoder writes for an RGB image at the
/// given quality: the file's bytes, or nothing when it refuses the image.
pub uninterp spec fn jpeg_encoding(rgb: Seq<u8>, width: u32, height: u32, quality: u8) -> Option<
    Seq<u8>,
>;

/// Calls the image crate's `JpegEncoder::new_with_quality(..).write_image`
/// with an RGB8 buffer. The encoder asserts that the buffer holds exactly
/// `3 * width * height` bytes, so that is required; an image with a side of
/// zero or over 65535 pixels is refused (the JPEG size fields are 16 bits).
#[verifier::external_body]
fn jpeg_encode_rgb(rgb: &[u8], width: u32, height: u32, quality: u8) -> (r: Option<Vec<u8>>)
    requires
        rgb@.len() == 3 * width * height,
    ensures
        match jpeg_encoding(rgb@, width, height, quality) {
            Some(v) => r matches Some(w) && w@ == v,
            None => r is None,
        },
        (width == 0 || height == 0 || width > 65535 || height > 65535) ==> r is None,
{
    let mut out = Vec::new();
    let encoder = image::codecs::jpeg::JpegEncoder::new_with_quality(
        std::io::Cursor::new(&mut out),
        quality,
    );
    match encoder.write_image(rgb, width, height, image::ExtendedColorType::Rgb8) {
        Ok(()) => Some(out),
        Err(_) => None,
    }
}

/// Encodes a decoded RGBA frame as JPEG for the frontend: nothing when the
/// buffer does not hold exactly `width * height` pixels, else what the JPEG
/// encoder makes of its RGB pixels.
pub fn encode_jpeg(rgba: &[u8], width: u32, height: u32, quality: u8) -> (r: Option<Vec<u8>>)
    ensures
        !rgba_len_ok(rgba@.len() as int, width, height) ==> r is None,
        rgba_len_ok(rgba@.len() as int, width, height) ==> match jpeg_encoding(
            rgb_pixels(rgba@, (width * height) as nat),
            width,
            height,
            quality,
        ) {
            Some(v) => r matches Some(w) && w@ == v,
            None => r is None,
        },
{
    if !rgba_frame_len_ok(rgba.len(), width, height) {
        return None;
    }
    let rgb = rgba_to_rgb(rgba);
    proof {
        assert(rgba@.len() / 4 == width * height) by (nonlinear_arith)
            requires
                rgba@.len() == width * height * 4,
        ;
        lemma_rgb_pixels_len(rgba@, (width * height) as nat);
        assert(rgb@.len() == 3 * width * height) by (nonlinear_arith)
            requires
                rgb@.len() == 3 * ((width * height) as nat),
        ;
    }
    jpeg_encode_rgb(rgb.as_slice(), width, height, quality)
}

} // verus!

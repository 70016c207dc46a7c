//! Encoding and decoding of sector and tile rasters.
//!
//! Rasters are persisted as single-band, LZW-compressed, strip-encoded TIFF
//! files of 16-bit signed samples.  The encoding itself is done by the tiff
//! crate behind trusted wrappers; what this module verifies is the logic
//! around it: a uniform raster (every sample equal) is written as a
//! degenerate 1x1 file, an all-zero tile as an empty file, and a decoded
//! sector file is accepted only in one of its two legal shapes.  Encoding
//! is owed to succeed for every raster the pipeline admits, and the
//! decoder is owed to read back exactly what the encoders wrote, so a
//! sample value provably survives the trip through a file.

use vstd::prelude::*;

use crate::PipelineError;

verus! {

/// Largest resolution any encoded raster can have: the base sector
/// resolution of the deepest representable level.  Within this bound the
/// encoded stream stays well inside the 32-bit offset space of a standard
/// TIFF file.
pub const MAX_RASTER_RESOLUTION: u32 = 0x8001;

/// The bytes tiff's LZW strip encoder produces for a single-band raster of
/// `width * height` 16-bit samples; a function of its arguments alone.
pub uninterp spec fn tiff_lzw_i16(width: int, height: int, data: Seq<i16>) -> Seq<u8>;

/// The bytes tiff's uncompressed encoder produces for a 1x1 single-band
/// raster holding the one sample `v`; a function of `v` alone.
pub uninterp spec fn tiff_single_i16(v: i16) -> Seq<u8>;

/// The 16-bit samples tiff's decoder reads back from a byte stream; a
/// function of the bytes alone.
pub uninterp spec fn tiff_decoded_i16(bytes: Seq<u8>) -> Seq<i16>;

/// Relies on tiff's `TiffEncoder::write_image` under `Compression::Lzw`,
/// writing to an in-memory buffer: a deterministic LZW strip encoding of
/// the raster, derived from the dimensions and samples alone (samples are
/// written in the build target's native byte order, fixed within any one
/// build).  Within the size bound the call cannot fail — a zero dimension
/// is the only rejected shape, the buffer write is infallible, and every
/// file offset stays within the 32-bit limit of a standard TIFF — and the
/// stream is never empty, since it opens with the byte-order header.
#[verifier::external_body]
fn encode_lzw_i16(width: u32, height: u32, data: &Vec<i16>) -> (r: Result<Vec<u8>, PipelineError>)
    requires
        1 <= width <= MAX_RASTER_RESOLUTION,
        1 <= height <= MAX_RASTER_RESOLUTION,
        data@.len() == width * height,
    ensures
        r is Ok,
        r matches Ok(b) ==> b@ == tiff_lzw_i16(width as int, height as int, data@) && b@.len() > 0,
{
    let mut bytes: Vec<u8> = Vec::new();
    let cursor = std::io::Cursor::new(&mut bytes);
    let ok = match tiff::encoder::TiffEncoder::new(cursor) {
        Ok(enc) => enc
            .with_compression(tiff::encoder::Compression::Lzw)
            .write_image::<tiff::encoder::colortype::GrayI16>(width, height, data.as_slice())
            .is_ok(),
        Err(_) => false,
    };
    if ok {
        Ok(bytes)
    } else {
        Err(PipelineError::EncodeFailed)
    }
}

/// Relies on tiff's `TiffEncoder::write_image` without compression, on a
/// 1x1 raster: a deterministic, never-failing, never-empty encoding of the
/// one sample, for the same reasons as the strip encoder above.
#[verifier::external_body]
fn encode_single_i16(v: i16) -> (r: Result<Vec<u8>, PipelineError>)
    ensures
        r is Ok,
        r matches Ok(b) ==> b@ == tiff_single_i16(v) && b@.len() > 0,
{
    let mut bytes: Vec<u8> = Vec::new();
    let cursor = std::io::Cursor::new(&mut bytes);
    let ok = match tiff::encoder::TiffEncoder::new(cursor) {
        Ok(mut enc) => enc.write_image::<tiff::encoder::colortype::GrayI16>(1, 1, &[v]).is_ok(),
        Err(_) => false,
    };
    if ok {
        Ok(bytes)
    } else {
        Err(PipelineError::EncodeFailed)
    }
}

/// Relies on tiff's `Decoder::read_image`: the samples it yields are a
/// function of the byte stream alone, malformed input is answered with an
/// error, and the decoder reads back exactly what the two encoders above
/// wrote — bytes equal to one of their encodings are owed a successful
/// decode to the very samples that were encoded.  The decoding limits are
/// raised to cover the largest raster the pipeline admits.
#[verifier::external_body]
fn decode_i16(bytes: &Vec<u8>) -> (r: Result<Vec<i16>, PipelineError>)
    ensures
        r matches Ok(d) ==> d@ == tiff_decoded_i16(bytes@),
        r matches Err(e) ==> e is DecodeFailed,
        r is Err ==> forall|v: i16| bytes@ != #[trigger] tiff_single_i16(v),
        r matches Ok(d) ==> forall|v: i16|
            bytes@ == #[trigger] tiff_single_i16(v) ==> d@ == seq![v],
        r is Err ==> forall|res: int, d0: Seq<i16>|
            1 <= res <= MAX_RASTER_RESOLUTION && d0.len() == res * res ==> bytes@
                != #[trigger] tiff_lzw_i16(res, res, d0),
        r matches Ok(d) ==> forall|res: int, d0: Seq<i16>|
            1 <= res <= MAX_RASTER_RESOLUTION && d0.len() == res * res && bytes@
                == #[trigger] tiff_lzw_i16(res, res, d0) ==> d@ == d0,
{
    let mut limits = tiff::decoder::Limits::unlimited();
    limits.decoding_buffer_size = 0x9000_0000;
    limits.intermediate_buffer_size = 0x9000_0000;
    limits.ifd_value_size = 0x100_0000;
    match tiff::decoder::Decoder::new(std::io::Cursor::new(bytes.as_slice())) {
        Ok(dec) => match dec.with_limits(limits).read_image() {
            Ok(tiff::decoder::DecodingResult::I16(v)) => Ok(v),
            Ok(_) => Err(PipelineError::DecodeFailed),
            Err(_) => Err(PipelineError::DecodeFailed),
        },
        Err(_) => Err(PipelineError::DecodeFailed),
    }
}

/// Whether every sample of a raster equals its first.
pub open spec fn uniform_spec(data: Seq<i16>) -> bool {
    forall|i: int| 0 <= i < data.len() ==> #[trigger] data[i] == data[0]
}

/// Whether every sample of the raster equals its first — equivalently,
/// whether its smallest and largest samples coincide.
pub fn is_uniform(data: &Vec<i16>) -> (r: bool)
    requires
        data@.len() >= 1,
    ensures
        r <==> uniform_spec(data@),
{
    let first = data[0];
    let n = data.len();
    let mut i: usize = 1;
    while i < n
        invariant
            n == data@.len(),
            1 <= i <= n,
            first == data@[0],
            forall|j: int| 0 <= j < i ==> data@[j] == first,
        decreases n - i,
    {
        if data[i] != first {
            return false;
        }
        i = i + 1;
    }
    true
}

/// The bytes a pyramid level is persisted as: the degenerate 1x1 encoding
/// when the level is uniform, else the full LZW strip encoding.
pub open spec fn sector_level_bytes_spec(data: Seq<i16>, res: int) -> Seq<u8> {
    if uniform_spec(data) {
        tiff_single_i16(data[0])
    } else {
        tiff_lzw_i16(res, res, data)
    }
}

/// Encodes one sector pyramid level.  A uniform level — smallest and
/// largest sample equal — is written as a 1x1 file.  Succeeds on every
/// level the pipeline admits, with a nonempty file.
pub fn encode_sector_level(data: &Vec<i16>, res: u32) -> (r: Result<Vec<u8>, PipelineError>)
    requires
        1 <= res <= MAX_RASTER_RESOLUTION,
        data@.len() == res * res,
    ensures
        r is Ok,
        r matches Ok(b) ==> b@ == sector_level_bytes_spec(data@, res as int) && b@.len() > 0,
{
    proof {
        assert(res * res >= 1) by (nonlinear_arith)
            requires
                res >= 1,
        ;
    }
    if is_uniform(data) {
        encode_single_i16(data[0])
    } else {
        encode_lzw_i16(res, res, data)
    }
}

/// Whether every sample of a raster is zero.
pub open spec fn all_zero_spec(data: Seq<i16>) -> bool {
    forall|i: int| 0 <= i < data.len() ==> #[trigger] data[i] == 0
}

/// The bytes a tile is persisted as: nothing at all for an all-zero tile —
/// the sparse-tile optimization — else the full LZW strip encoding.
pub open spec fn tile_bytes_spec(data: Seq<i16>, res: int) -> Seq<u8> {
    if all_zero_spec(data) {
        Seq::empty()
    } else {
        tiff_lzw_i16(res, res, data)
    }
}

/// Encodes a composited tile.  Always succeeds, and the resulting file is
/// empty exactly when every sample of the tile is zero.
pub fn encode_tile(data: &Vec<i16>, res: u32) -> (r: Result<Vec<u8>, PipelineError>)
    requires
        1 <= res <= MAX_RASTER_RESOLUTION,
        data@.len() == res * res,
    ensures
        r is Ok,
        r matches Ok(b) ==> b@ == tile_bytes_spec(data@, res as int) && (b@.len() == 0
            <==> all_zero_spec(data@)),
{
    let n = data.len();
    let mut i: usize = 0;
    let mut zero = true;
    while i < n
        invariant
            n == data@.len(),
            i <= n,
            zero <==> (forall|j: int| 0 <= j < i ==> #[trigger] data@[j] == 0),
        decreases n - i,
    {
        if data[i] != 0 {
            zero = false;
        }
        i = i + 1;
    }
    if zero {
        Ok(Vec::new())
    } else {
        encode_lzw_i16(res, res, data)
    }
}

/// Decodes a sector pyramid level file.  Accepts exactly the two shapes the
/// pipeline writes — the degenerate 1x1 uniform raster, or the full raster
/// at resolution `res` — and anything else is a decode error; on bytes the
/// pipeline's own encoders produced for this resolution, success is owed
/// and yields the encoded samples back.
pub fn decode_sector_level(bytes: &Vec<u8>, res: u32) -> (r: Result<Vec<i16>, PipelineError>)
    requires
        1 <= res <= MAX_RASTER_RESOLUTION,
    ensures
        r matches Ok(d) ==> d@ == tiff_decoded_i16(bytes@) && (d@.len() == 1 || d@.len() == res
            * res),
        r matches Err(e) ==> e is DecodeFailed,
        forall|v: i16|
            bytes@ == #[trigger] tiff_single_i16(v) ==> (r matches Ok(d) && d@ == seq![v]),
        forall|d0: Seq<i16>|
            d0.len() == res * res && bytes@ == #[trigger] tiff_lzw_i16(res as int, res as int, d0)
                ==> (r matches Ok(d) && d@ == d0),
{
    proof {
        assert(res * res <= 0x8001 * 0x8001) by (nonlinear_arith)
            requires
                1 <= res <= 0x8001,
        ;
    }
    let inner = decode_i16(bytes);
    match inner {
        Ok(d) => {
            let r_us = res as usize;
            if d.len() == 1 || d.len() == r_us * r_us {
                Ok(d)
            } else {
                proof {
                    assert forall|v: i16| bytes@ == #[trigger] tiff_single_i16(v) implies false by {
                        assert(d@ == seq![v]);
                    }
                    assert forall|d0: Seq<i16>|
                        d0.len() == res * res && bytes@ == #[trigger] tiff_lzw_i16(
                            res as int,
                            res as int,
                            d0,
                        ) implies false by {
                        assert(d@ == d0);
                    }
                }
                Err(PipelineError::DecodeFailed)
            }
        },
        Err(e) => {
            proof {
                assert forall|v: i16| bytes@ == #[trigger] tiff_single_i16(v) implies false by {
                    assert(inner is Ok);
                }
                assert forall|d0: Seq<i16>|
                    d0.len() == res * res && bytes@ == #[trigger] tiff_lzw_i16(
                        res as int,
                        res as int,
                        d0,
                    ) implies false by {
                    assert(inner is Ok);
                }
            }
            Err(e)
        },
    }
}

} // verus!

//! Decoder for the paletted image payload: fixed header, flag word,
//! two run-length pixel encodings, and an optional 256-entry palette.

use vstd::prelude::*;
use vstd::slice::slice_index_get;
use crate::bytes::le_i32_at;
use crate::bytes::le_u32_at;
use crate::bytes::read_i32_le;
use crate::bytes::read_u32_le;
use crate::error::DecodeError;

verus! {

/// The 32-bit flag word of an image record, kept whole so that unknown
/// bits survive a decode; each known bit has an accessor.
#[derive(Debug, Clone, Copy, PartialEq, Eq, Structural)]
pub struct ImageFlags {
    pub flags: u32,
}

/// Which of the two pixel decompression algorithms an image uses.
#[derive(Debug, Clone, Copy, PartialEq, Eq, Structural)]
pub enum CompressionMethod {
    Default,
    RunLengthEncoding,
}

impl ImageFlags {
    pub fn use_transparency(&self) -> (r: bool)
        ensures
            r == (self.flags & 0x01 != 0),
    {
        self.flags & 0x01 != 0
    }

    pub fn use_video_memory(&self) -> (r: bool)
        ensures
            r == (self.flags & 0x02 != 0),
    {
        self.flags & 0x02 != 0
    }

    pub fn use_system_memory(&self) -> (r: bool)
        ensures
            r == (self.flags & 0x04 != 0),
    {
        self.flags & 0x04 != 0
    }

    pub fn is_fliped_horizontally(&self) -> (r: bool)
        ensures
            r == (self.flags & 0x08 != 0),
    {
        self.flags & 0x08 != 0
    }

    pub fn is_fliped_vertically(&self) -> (r: bool)
        ensures
            r == (self.flags & 0x10 != 0),
    {
        self.flags & 0x10 != 0
    }

    pub fn compression_method(&self) -> (r: CompressionMethod)
        ensures
            r == (if self.flags & 0x20 == 0 {
                CompressionMethod::Default
            } else {
                CompressionMethod::RunLengthEncoding
            }),
    {
        if self.flags & 0x20 == 0 {
            CompressionMethod::Default
        } else {
            CompressionMethod::RunLengthEncoding
        }
    }

    pub fn has_lights(&self) -> (r: bool)
        ensures
            r == (self.flags & 0x40 != 0),
    {
        self.flags & 0x40 != 0
    }

    pub fn has_palette(&self) -> (r: bool)
        ensures
            r == (self.flags & 0x80 != 0),
    {
        self.flags & 0x80 != 0
    }
}

/// An append-only pixel sink; `write_u8` and `write_u32_le` write at the
/// current end of the data, which the position argument must name.
pub struct Buffer {
    pub data: Vec<u8>,
}

impl Buffer {
    /// An empty buffer with room reserved for `size` bytes.
    pub fn new(size: usize) -> (r: Buffer)
        ensures
            r.data@.len() == 0,
    {
        Buffer { data: Vec::<u8>::with_capacity(size) }
    }

    pub fn write_u8(&mut self, n: usize, b: u8)
        requires
            n == old(self).data@.len(),
            old(self).data@.len() < usize::MAX,
        ensures
            final(self).data@ == old(self).data@.push(b),
    {
        self.data.push(b);
    }

    pub fn write_u32_le(&mut self, n: usize, u: u32)
        requires
            n == old(self).data@.len(),
            old(self).data@.len() + 4 <= usize::MAX,
        ensures
            final(self).data@.len() == old(self).data@.len() + 4,
            final(self).data@.subrange(0, n as int) == old(self).data@,
            le_u32_at(final(self).data@, n as int) == u as int,
    {
        let b0: u8 = #[verifier::truncate] ((u & 0xff) as u8);
        let b1: u8 = #[verifier::truncate] (((u >> 8) & 0xff) as u8);
        let b2: u8 = #[verifier::truncate] (((u >> 16) & 0xff) as u8);
        let b3: u8 = #[verifier::truncate] (((u >> 24) & 0xff) as u8);
        proof {
            assert((((u & 0xff) as u8) as int) + ((((u >> 8) & 0xff) as u8) as int) * 0x100 + ((((
            u >> 16) & 0xff) as u8) as int) * 0x10000 + ((((u >> 24) & 0xff) as u8) as int)
                * 0x1000000 == u as int) by (bit_vector);
        }
        self.data.push(b0);
        self.data.push(b1);
        self.data.push(b2);
        self.data.push(b3);
        proof {
            assert(self.data@.subrange(0, n as int) =~= old(self).data@);
        }
    }
}

/// A read cursor over the image's byte buffer.
pub struct PidDataCursor<'a> {
    pub data: &'a [u8],
    pub offset: usize,
}

impl<'a> PidDataCursor<'a> {
    pub fn next_u8(&mut self) -> (r: u8)
        requires
            old(self).offset < old(self).data@.len(),
        ensures
            r == old(self).data@[old(self).offset as int],
            final(self).data@ == old(self).data@,
            final(self).offset == old(self).offset + 1,
    {
        let n: usize = self.data.len();
        assert(self.offset < n);
        let output = *slice_index_get(self.data, self.offset);
        self.offset = self.offset + 1;
        output
    }

    pub fn next_u32_le(&mut self) -> (r: u32)
        requires
            old(self).offset + 4 <= old(self).data@.len(),
        ensures
            r as int == le_u32_at(old(self).data@, old(self).offset as int),
            final(self).data@ == old(self).data@,
            final(self).offset == old(self).offset + 4,
    {
        let n: usize = self.data.len();
        assert(self.offset + 4 <= n);
        let output = read_u32_le(self.data, self.offset);
        self.offset = self.offset + 4;
        output
    }

    pub fn next_i32_le(&mut self) -> (r: i32)
        requires
            old(self).offset + 4 <= old(self).data@.len(),
        ensures
            r as int == le_i32_at(old(self).data@, old(self).offset as int),
            final(self).data@ == old(self).data@,
            final(self).offset == old(self).offset + 4,
    {
        let n: usize = self.data.len();
        assert(self.offset + 4 <= n);
        let output = read_i32_le(self.data, self.offset);
        self.offset = self.offset + 4;
        output
    }
}

/// One palette color.
#[derive(Debug, Clone, Copy, PartialEq, Eq, Structural)]
pub struct Rgb {
    pub r: u8,
    pub g: u8,
    pub b: u8,
}

/// A decoded image: header fields, the expanded pixel-index buffer of
/// exactly `width * height` bytes, and the optional 256-color palette.
#[derive(Debug)]
pub struct PidImage {
    pub id: i32,
    pub flags: ImageFlags,
    pub width: u32,
    pub height: u32,
    pub user_values: [i32; 4],
    pub pixels: Vec<u8>,
    pub palette: Option<Vec<Rgb>>,
}

/// The flag word of the image record held in `s`.
pub open spec fn spec_pid_flags(s: Seq<u8>) -> u32
    recommends
        s.len() >= 32,
{
    le_u32_at(s, 4) as u32
}

/// The pixel count `width * height` of the image record held in `s`.
pub open spec fn spec_pid_pixels_count(s: Seq<u8>) -> int
    recommends
        s.len() >= 32,
{
    le_u32_at(s, 8) * le_u32_at(s, 12)
}

/// The pixel stream of the image record held in `s`: the decompression
/// the compression-selector bit picks, run over the bytes after the
/// 32-byte header until `width * height` pixels are produced.
pub open spec fn spec_pid_pixels(s: Seq<u8>) -> Option<(Seq<u8>, int)>
    recommends
        s.len() >= 32,
{
    if spec_pid_flags(s) & 0x20 == 0 {
        spec_default_decode(s, 32, spec_pid_pixels_count(s))
    } else {
        spec_rle_decode(s, 32, spec_pid_pixels_count(s))
    }
}

/// Packed-run ("Default") decoding of `src` from position `i` until
/// exactly `remaining` pixel bytes are produced. A source byte above 192
/// names a run: the following byte repeated `a - 192` times; any other
/// source byte is itself a single literal pixel. `None` when the source
/// ends first or a run would pass the count; otherwise the pixels and
/// the position one past the last byte consumed.
pub open spec fn spec_default_decode(src: Seq<u8>, i: int, remaining: int) -> Option<(Seq<u8>, int)>
    decreases remaining,
{
    if remaining <= 0 {
        Some((Seq::<u8>::empty(), i))
    } else if !(0 <= i < src.len()) {
        None
    } else {
        let a = src[i];
        if a > 192 {
            let n = a as int - 192;
            if !(i + 1 < src.len()) {
                None
            } else if n > remaining {
                None
            } else {
                let b = src[i + 1];
                match spec_default_decode(src, i + 2, remaining - n) {
                    Some(rest) => Some((Seq::<u8>::new(n as nat, |q: int| b) + rest.0, rest.1)),
                    None => None,
                }
            }
        } else {
            match spec_default_decode(src, i + 1, remaining - 1) {
                Some(rest) => Some((Seq::<u8>::new(1, |q: int| a) + rest.0, rest.1)),
                None => None,
            }
        }
    }
}

/// Packed-run decompression is exact: a successful decode yields
/// neither more nor fewer than the requested count of pixel bytes, and
/// its end position never moves backwards nor past the source.
pub proof fn lemma_default_decode_exact(src: Seq<u8>, i: int, remaining: int)
    ensures
        spec_default_decode(src, i, remaining) matches Some(pr) ==> {
            &&& pr.0.len() == (if remaining <= 0 {
                0int
            } else {
                remaining
            })
            &&& i <= pr.1
            &&& (remaining > 0 ==> pr.1 <= src.len())
        },
    decreases remaining,
{
    if remaining <= 0 {
    } else if !(0 <= i < src.len()) {
    } else {
        let a = src[i];
        if a > 192 {
            if a as int - 192 <= remaining {
                lemma_default_decode_exact(src, i + 2, remaining - (a as int - 192));
            }
        } else {
            lemma_default_decode_exact(src, i + 1, remaining - 1);
        }
    }
}

/// Transparent-skip decompression is exact, in the same sense.
pub proof fn lemma_rle_decode_exact(src: Seq<u8>, i: int, remaining: int)
    ensures
        spec_rle_decode(src, i, remaining) matches Some(pr) ==> {
            &&& pr.0.len() == (if remaining <= 0 {
                0int
            } else {
                remaining
            })
            &&& i <= pr.1
            &&& (remaining > 0 ==> pr.1 <= src.len())
        },
    decreases remaining, src.len() - i,
{
    if remaining <= 0 {
    } else if !(0 <= i < src.len()) {
    } else {
        let a = src[i];
        if a > 128 {
            if a as int - 128 <= remaining {
                lemma_rle_decode_exact(src, i + 1, remaining - (a as int - 128));
            }
        } else {
            if a as int <= remaining && i + 1 + a as int <= src.len() {
                lemma_rle_decode_exact(src, i + 1 + a as int, remaining - a as int);
            }
        }
    }
}

/// A successful packed-run decode reads nothing at or past its end
/// position: over any source that agrees on the bytes before it, the
/// decode yields the same pixels and the same end position.
pub proof fn lemma_default_decode_frame(
    src1: Seq<u8>,
    src2: Seq<u8>,
    i: int,
    remaining: int,
    p: Seq<u8>,
    e: int,
)
    requires
        0 <= i,
        spec_default_decode(src1, i, remaining) == Some((p, e)),
        e <= src2.len(),
        forall|q: int| i <= q < e ==> src1[q] == src2[q],
    ensures
        spec_default_decode(src2, i, remaining) == Some((p, e)),
    decreases remaining,
{
    if remaining <= 0 {
    } else {
        let a = src1[i];
        if a > 192 {
            let n = a as int - 192;
            match spec_default_decode(src1, i + 2, remaining - n) {
                Some(rest) => {
                    lemma_default_decode_exact(src1, i + 2, remaining - n);
                    assert(i + 2 <= e);
                    lemma_default_decode_frame(src1, src2, i + 2, remaining - n, rest.0, e);
                    assert(src2[i] == a && src2[i + 1] == src1[i + 1]);
                },
                None => {
                    assert(false);
                },
            }
        } else {
            match spec_default_decode(src1, i + 1, remaining - 1) {
                Some(rest) => {
                    lemma_default_decode_exact(src1, i + 1, remaining - 1);
                    assert(i + 1 <= e);
                    lemma_default_decode_frame(src1, src2, i + 1, remaining - 1, rest.0, e);
                    assert(src2[i] == a);
                },
                None => {
                    assert(false);
                },
            }
        }
    }
}

/// A successful transparent-skip decode reads nothing at or past its
/// end position, in the same sense.
pub proof fn lemma_rle_decode_frame(
    src1: Seq<u8>,
    src2: Seq<u8>,
    i: int,
    remaining: int,
    p: Seq<u8>,
    e: int,
)
    requires
        0 <= i,
        spec_rle_decode(src1, i, remaining) == Some((p, e)),
        e <= src2.len(),
        forall|q: int| i <= q < e ==> src1[q] == src2[q],
    ensures
        spec_rle_decode(src2, i, remaining) == Some((p, e)),
    decreases remaining, src1.len() - i,
{
    if remaining <= 0 {
    } else {
        let a = src1[i];
        if a > 128 {
            let n = a as int - 128;
            match spec_rle_decode(src1, i + 1, remaining - n) {
                Some(rest) => {
                    lemma_rle_decode_exact(src1, i + 1, remaining - n);
                    assert(i + 1 <= e);
                    lemma_rle_decode_frame(src1, src2, i + 1, remaining - n, rest.0, e);
                    assert(src2[i] == a);
                },
                None => {
                    assert(false);
                },
            }
        } else {
            let n = a as int;
            match spec_rle_decode(src1, i + 1 + n, remaining - n) {
                Some(rest) => {
                    lemma_rle_decode_exact(src1, i + 1 + n, remaining - n);
                    assert(i + 1 + n <= e);
                    lemma_rle_decode_frame(src1, src2, i + 1 + n, remaining - n, rest.0, e);
                    assert(src2[i] == a);
                    assert(src1.subrange(i + 1, i + 1 + n) =~= src2.subrange(i + 1, i + 1 + n));
                },
                None => {
                    assert(false);
                },
            }
        }
    }
}

/// Bytes at or past the end of the pixel stream (the palette region,
/// for one) play no part in the pixel decode: a buffer that agrees on
/// everything before that end yields the same pixels and end position.
pub proof fn lemma_pid_pixels_frame(s1: Seq<u8>, s2: Seq<u8>, p: Seq<u8>, e: int)
    requires
        s1.len() >= 32,
        spec_pid_pixels(s1) == Some((p, e)),
        e <= s2.len(),
        forall|q: int| 0 <= q < e ==> s1[q] == s2[q],
    ensures
        spec_pid_pixels(s2) == Some((p, e)),
{
    if spec_pid_flags(s1) & 0x20 == 0 {
        lemma_default_decode_exact(s1, 32, spec_pid_pixels_count(s1));
    } else {
        lemma_rle_decode_exact(s1, 32, spec_pid_pixels_count(s1));
    }
    assert(32 <= e);
    assert(spec_pid_flags(s2) == spec_pid_flags(s1)) by {
        assert(s1[4] == s2[4] && s1[5] == s2[5] && s1[6] == s2[6] && s1[7] == s2[7]);
    }
    assert(spec_pid_pixels_count(s2) == spec_pid_pixels_count(s1)) by {
        assert(s1[8] == s2[8] && s1[9] == s2[9] && s1[10] == s2[10] && s1[11] == s2[11]);
        assert(s1[12] == s2[12] && s1[13] == s2[13] && s1[14] == s2[14] && s1[15] == s2[15]);
    }
    if spec_pid_flags(s1) & 0x20 == 0 {
        lemma_default_decode_frame(s1, s2, 32, spec_pid_pixels_count(s1), p, e);
    } else {
        lemma_rle_decode_frame(s1, s2, 32, spec_pid_pixels_count(s1), p, e);
    }
}

/// Expands a packed-run compressed stream into exactly `pixels_count`
/// pixel bytes, following `spec_default_decode`; on success the cursor
/// stands one past the last source byte consumed.
#[verifier::loop_isolation(false)]
pub fn decompress_default(data: &mut PidDataCursor, pixels: &mut Buffer, pixels_count: usize) -> (r:
    Result<(), DecodeError>)
    requires
        old(pixels).data@.len() == 0,
    ensures
        final(data).data@ == old(data).data@,
        match spec_default_decode(old(data).data@, old(data).offset as int, pixels_count as int) {
            Some(pr) => {
                &&& r is Ok
                &&& final(pixels).data@ == pr.0
                &&& final(pixels).data@.len() == pixels_count
                &&& final(data).offset == pr.1
            },
            None => {
                &&& r == Err::<(), DecodeError>(DecodeError::CorruptCompressedStream)
                &&& final(pixels).data@.len() < pixels_count
            },
        },
{
    let ghost src = data.data@;
    let ghost start = data.offset as int;
    let ghost whole = spec_default_decode(src, start, pixels_count as int);
    let src_len: usize = data.data.len();
    let mut pixel: usize = 0;
    while pixel < pixels_count
        invariant
            pixel <= pixels_count,
            data.data@ == src,
            src_len == src.len(),
            pixels.data@.len() == pixel,
            whole == spec_default_decode(src, start, pixels_count as int),
            ({
                let cur = spec_default_decode(src, data.offset as int, pixels_count - pixel);
                &&& (cur is Some <==> whole is Some)
                &&& (cur matches Some(pr) ==> whole == Some((pixels.data@ + pr.0, pr.1)))
            }),
        decreases pixels_count - pixel,
    {
        let ghost offset0 = data.offset as int;
        let ghost rem0 = pixels_count - pixel;
        let ghost snap = pixels.data@;
        if data.offset >= src_len {
            assert(spec_default_decode(src, offset0, rem0) is None);
            return Err(DecodeError::CorruptCompressedStream);
        }
        let a = data.next_u8();
        let n: u8;
        let b: u8;
        if a > 192 {
            n = a - 192;
            if data.offset >= src_len {
                assert(spec_default_decode(src, offset0, rem0) is None);
                return Err(DecodeError::CorruptCompressedStream);
            }
            if n as usize > pixels_count - pixel {
                assert(spec_default_decode(src, offset0, rem0) is None);
                return Err(DecodeError::CorruptCompressedStream);
            }
            b = data.next_u8();
        } else {
            n = 1;
            b = a;
        }
        let ghost chunk = Seq::<u8>::new(n as nat, |q: int| b);
        proof {
            assert(spec_default_decode(src, offset0, rem0) == (
            match spec_default_decode(src, data.offset as int, rem0 - n) {
                Some(rest) => Some((chunk + rest.0, rest.1)),
                None => None::<(Seq<u8>, int)>,
            }));
        }
        let mut j: usize = 0;
        while j < n as usize
            invariant
                j <= n as usize,
                pixel == pixels.data@.len(),
                pixel == snap.len() + j,
                snap.len() + n as usize <= pixels_count,
                pixels_count <= usize::MAX,
                pixels.data@ == snap + chunk.subrange(0, j as int),
                chunk == Seq::<u8>::new(n as nat, |q: int| b),
            decreases n as usize - j,
        {
            proof {
                assert(pixels.data@.push(b) =~= snap + chunk.subrange(0, j + 1));
            }
            pixels.write_u8(pixel, b);
            pixel = pixel + 1;
            j = j + 1;
        }
        proof {
            assert(pixels.data@ =~= snap + chunk);
            let cur = spec_default_decode(src, data.offset as int, pixels_count - pixel);
            match cur {
                Some(rest) => {
                    assert(spec_default_decode(src, offset0, rem0) == Some(
                        (chunk + rest.0, rest.1),
                    ));
                    assert(snap + (chunk + rest.0) =~= pixels.data@ + rest.0);
                    assert(whole == Some((pixels.data@ + rest.0, rest.1)));
                },
                None => {},
            }
        }
    }
    proof {
        let cur = spec_default_decode(src, data.offset as int, 0);
        assert(cur == Some((Seq::<u8>::empty(), data.offset as int)));
        assert(pixels.data@ + Seq::<u8>::empty() =~= pixels.data@);
        assert(whole == Some((pixels.data@, data.offset as int)));
    }
    Ok(())
}

/// Transparent-skip ("RunLengthEncoding") decoding of `src` from
/// position `i` until exactly `remaining` pixel bytes are produced. A
/// source byte above 128 writes `a - 128` zero-valued pixels; any other
/// source byte `a` is followed by `a` raw bytes copied verbatim (a
/// legal no-op when `a` is zero). `None` when the source ends first or
/// a run would pass the count; otherwise the pixels and the position
/// one past the last byte consumed.
pub open spec fn spec_rle_decode(src: Seq<u8>, i: int, remaining: int) -> Option<(Seq<u8>, int)>
    decreases remaining, src.len() - i,
{
    if remaining <= 0 {
        Some((Seq::<u8>::empty(), i))
    } else if !(0 <= i < src.len()) {
        None
    } else {
        let a = src[i];
        if a > 128 {
            let n = a as int - 128;
            if n > remaining {
                None
            } else {
                match spec_rle_decode(src, i + 1, remaining - n) {
                    Some(rest) => Some((Seq::<u8>::new(n as nat, |q: int| 0u8) + rest.0, rest.1)),
                    None => None,
                }
            }
        } else {
            let n = a as int;
            if n > remaining {
                None
            } else if i + 1 + n > src.len() {
                None
            } else {
                match spec_rle_decode(src, i + 1 + n, remaining - n) {
                    Some(rest) => Some((src.subrange(i + 1, i + 1 + n) + rest.0, rest.1)),
                    None => None,
                }
            }
        }
    }
}

/// Expands a transparent-skip compressed stream into exactly
/// `pixels_count` pixel bytes, following `spec_rle_decode`; on success
/// the cursor stands one past the last source byte consumed.
#[verifier::loop_isolation(false)]
pub fn decompress_run_length_encoding(
    data: &mut PidDataCursor,
    pixels: &mut Buffer,
    pixels_count: usize,
) -> (r: Result<(), DecodeError>)
    requires
        old(pixels).data@.len() == 0,
    ensures
        final(data).data@ == old(data).data@,
        match spec_rle_decode(old(data).data@, old(data).offset as int, pixels_count as int) {
            Some(pr) => {
                &&& r is Ok
                &&& final(pixels).data@ == pr.0
                &&& final(pixels).data@.len() == pixels_count
                &&& final(data).offset == pr.1
            },
            None => {
                &&& r == Err::<(), DecodeError>(DecodeError::CorruptCompressedStream)
                &&& final(pixels).data@.len() < pixels_count
            },
        },
{
    let ghost src = data.data@;
    let ghost start = data.offset as int;
    let ghost whole = spec_rle_decode(src, start, pixels_count as int);
    let src_len: usize = data.data.len();
    if pixels_count == 0 {
        proof {
            assert(whole == Some((Seq::<u8>::empty(), start)));
            assert(pixels.data@ =~= Seq::<u8>::empty());
        }
        return Ok(());
    }
    if data.offset >= src_len {
        assert(whole is None);
        return Err(DecodeError::CorruptCompressedStream);
    }
    let mut pixel: usize = 0;
    while pixel < pixels_count
        invariant
            pixel <= pixels_count,
            data.data@ == src,
            src_len == src.len(),
            data.offset <= src_len,
            pixels.data@.len() == pixel,
            ({
                let cur = spec_rle_decode(src, data.offset as int, pixels_count - pixel);
                &&& (cur is Some <==> whole is Some)
                &&& (cur matches Some(pr) ==> whole == Some((pixels.data@ + pr.0, pr.1)))
            }),
        decreases pixels_count - pixel, src_len - data.offset,
    {
        let ghost offset0 = data.offset as int;
        let ghost rem0 = pixels_count - pixel;
        let ghost snap = pixels.data@;
        if data.offset >= src_len {
            assert(spec_rle_decode(src, offset0, rem0) is None);
            return Err(DecodeError::CorruptCompressedStream);
        }
        let a = data.next_u8();
        if a > 128 {
            let n: u8 = a - 128;
            if n as usize > pixels_count - pixel {
                assert(spec_rle_decode(src, offset0, rem0) is None);
                return Err(DecodeError::CorruptCompressedStream);
            }
            let ghost chunk = Seq::<u8>::new(n as nat, |q: int| 0u8);
            proof {
                assert(spec_rle_decode(src, offset0, rem0) == (
                match spec_rle_decode(src, data.offset as int, rem0 - n) {
                    Some(rest) => Some((chunk + rest.0, rest.1)),
                    None => None::<(Seq<u8>, int)>,
                }));
            }
            let mut j: usize = 0;
            while j < n as usize
                invariant
                    j <= n as usize,
                    pixel == pixels.data@.len(),
                    pixel == snap.len() + j,
                    snap.len() + n as usize <= pixels_count,
                    pixels.data@ == snap + chunk.subrange(0, j as int),
                decreases n as usize - j,
            {
                proof {
                    assert(pixels.data@.push(0u8) =~= snap + chunk.subrange(0, j + 1));
                }
                pixels.write_u8(pixel, 0);
                pixel = pixel + 1;
                j = j + 1;
            }
            proof {
                assert(pixels.data@ =~= snap + chunk);
                let cur = spec_rle_decode(src, data.offset as int, pixels_count - pixel);
                match cur {
                    Some(rest) => {
                        assert(spec_rle_decode(src, offset0, rem0) == Some(
                            (chunk + rest.0, rest.1),
                        ));
                        assert(snap + (chunk + rest.0) =~= pixels.data@ + rest.0);
                        assert(whole == Some((pixels.data@ + rest.0, rest.1)));
                    },
                    None => {},
                }
            }
        } else {
            let n: u8 = a;
            if n as usize > pixels_count - pixel {
                assert(spec_rle_decode(src, offset0, rem0) is None);
                return Err(DecodeError::CorruptCompressedStream);
            }
            if n as usize > src_len - data.offset {
                assert(spec_rle_decode(src, offset0, rem0) is None);
                return Err(DecodeError::CorruptCompressedStream);
            }
            let ghost chunk = src.subrange(offset0 + 1, offset0 + 1 + n as int);
            proof {
                assert(spec_rle_decode(src, offset0, rem0) == (
                match spec_rle_decode(src, offset0 + 1 + n as int, rem0 - n) {
                    Some(rest) => Some((chunk + rest.0, rest.1)),
                    None => None::<(Seq<u8>, int)>,
                }));
            }
            let mut j: usize = 0;
            while j < n as usize
                invariant
                    j <= n as usize,
                    data.data@ == src,
                    data.offset == offset0 + 1 + j,
                    pixel == pixels.data@.len(),
                    pixel == snap.len() + j,
                    snap.len() + n as usize <= pixels_count,
                    offset0 + 1 + n as int <= src_len,
                    pixels.data@ == snap + chunk.subrange(0, j as int),
                decreases n as usize - j,
            {
                let b = data.next_u8();
                proof {
                    assert(pixels.data@.push(b) =~= snap + chunk.subrange(0, j + 1));
                }
                pixels.write_u8(pixel, b);
                pixel = pixel + 1;
                j = j + 1;
            }
            proof {
                assert(pixels.data@ =~= snap + chunk);
                let cur = spec_rle_decode(src, data.offset as int, pixels_count - pixel);
                match cur {
                    Some(rest) => {
                        assert(spec_rle_decode(src, offset0, rem0) == Some(
                            (chunk + rest.0, rest.1),
                        ));
                        assert(snap + (chunk + rest.0) =~= pixels.data@ + rest.0);
                        assert(whole == Some((pixels.data@ + rest.0, rest.1)));
                    },
                    None => {},
                }
            }
        }
    }
    proof {
        let cur = spec_rle_decode(src, data.offset as int, 0);
        assert(cur == Some((Seq::<u8>::empty(), data.offset as int)));
        assert(pixels.data@ + Seq::<u8>::empty() =~= pixels.data@);
        assert(whole == Some((pixels.data@, data.offset as int)));
    }
    Ok(())
}

/// Decodes an image record: the 32-byte header (id, flags, width,
/// height, four user values), the compressed pixel stream, and, when
/// the palette flag is set, the 256-entry RGB palette that follows it.
///
/// Success is owed exactly when the buffer holds the full header, the
/// selected decompression yields `width * height` pixel bytes (with a
/// count a `usize` can hold), and, if the palette flag is set, 768
/// palette bytes follow the pixel stream.
#[verifier::loop_isolation(false)]
pub fn decode_pid(data: &[u8]) -> (r: Result<PidImage, DecodeError>)
    ensures
        match r {
            Ok(img) => {
                &&& data@.len() >= 32
                &&& img.id as int == le_i32_at(data@, 0)
                &&& img.flags.flags == spec_pid_flags(data@)
                &&& img.width as int == le_u32_at(data@, 8)
                &&& img.height as int == le_u32_at(data@, 12)
                &&& forall|k: int|
                    0 <= k < 4 ==> img.user_values[k] as int == le_i32_at(data@, 16 + 4 * k)
                &&& spec_pid_pixels_count(data@) <= usize::MAX
                &&& spec_pid_pixels(data@) matches Some(pr) && {
                    &&& img.pixels@ == pr.0
                    &&& img.pixels@.len() == spec_pid_pixels_count(data@)
                    &&& if spec_pid_flags(data@) & 0x80 != 0 {
                        &&& pr.1 + 768 <= data@.len()
                        &&& img.palette matches Some(p) && p@.len() == 256 && forall|k: int|
                            0 <= k < 256 ==> p@[k] == (Rgb {
                                r: data@[pr.1 + 3 * k],
                                g: data@[pr.1 + 3 * k + 1],
                                b: data@[pr.1 + 3 * k + 2],
                            })
                    } else {
                        img.palette is None
                    }
                }
            },
            Err(e) => {
                &&& (e == DecodeError::TruncatedHeader <==> data@.len() < 32)
                &&& (e == DecodeError::TruncatedHeader || e
                    == DecodeError::CorruptCompressedStream)
                &&& e == DecodeError::CorruptCompressedStream ==> {
                    ||| spec_pid_pixels_count(data@) > usize::MAX
                    ||| spec_pid_pixels(data@) is None
                    ||| (spec_pid_pixels(data@) matches Some(pr) && spec_pid_flags(data@) & 0x80
                        != 0 && pr.1 + 768 > data@.len())
                }
            },
        },
{
    let dlen: usize = data.len();
    if dlen < 32 {
        return Err(DecodeError::TruncatedHeader);
    }
    let mut cur = PidDataCursor { data, offset: 0 };
    let id = cur.next_i32_le();
    let flags = ImageFlags { flags: cur.next_u32_le() };
    let width = cur.next_u32_le();
    let height = cur.next_u32_le();
    let v0 = cur.next_i32_le();
    let v1 = cur.next_i32_le();
    let v2 = cur.next_i32_le();
    let v3 = cur.next_i32_le();
    let user_values: [i32; 4] = [v0, v1, v2, v3];
    proof {
        assert((width as int) * (height as int) < 0x1_0000_0000_0000_0000) by (nonlinear_arith)
            requires
                (width as int) < 0x1_0000_0000,
                (height as int) < 0x1_0000_0000,
        {
        }
    }
    let pc64: u64 = (width as u64) * (height as u64);
    if pc64 > usize::MAX as u64 {
        return Err(DecodeError::CorruptCompressedStream);
    }
    let pixels_count: usize = pc64 as usize;
    let mut pixels = Buffer::new(pixels_count);
    let step = match flags.compression_method() {
        CompressionMethod::Default => decompress_default(&mut cur, &mut pixels, pixels_count),
        CompressionMethod::RunLengthEncoding => decompress_run_length_encoding(
            &mut cur,
            &mut pixels,
            pixels_count,
        ),
    };
    match step {
        Ok(()) => (),
        Err(_) => {
            return Err(DecodeError::CorruptCompressedStream);
        },
    }
    let palette = if flags.has_palette() {
        if cur.offset > dlen || dlen - cur.offset < 768 {
            return Err(DecodeError::CorruptCompressedStream);
        }
        let ghost pstart = cur.offset as int;
        let mut p: Vec<Rgb> = Vec::<Rgb>::with_capacity(256);
        let mut k: usize = 0;
        while k < 256
            invariant
                k <= 256,
                p@.len() == k,
                cur.data@ == data@,
                cur.offset == pstart + 3 * k,
                pstart + 768 <= dlen,
                forall|q: int|
                    0 <= q < k ==> p@[q] == (Rgb {
                        r: data@[pstart + 3 * q],
                        g: data@[pstart + 3 * q + 1],
                        b: data@[pstart + 3 * q + 2],
                    }),
            decreases 256 - k,
        {
            let r0 = cur.next_u8();
            let g0 = cur.next_u8();
            let b0 = cur.next_u8();
            p.push(Rgb { r: r0, g: g0, b: b0 });
            k = k + 1;
        }
        Some(p)
    } else {
        None
    };
    Ok(PidImage { id, flags, width, height, user_values, pixels: pixels.data, palette })
}

} // verus!

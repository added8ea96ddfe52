use vstd::prelude::*;

verus! {

/// Binary layout of one pixel in a buffer.
#[derive(Clone, Copy, PartialEq, Eq, Structural, Debug)]
pub enum PixelFormat {
    /// 8-bit gamma-encoded RGB, three bytes per pixel.
    Sdr8bit,
    /// 8-bit PQ-encoded wide-gamut RGB, three bytes per pixel.
    Hdr8bit,
    /// 32-bit-per-channel linear extended-range RGBA, sixteen bytes per pixel.
    HdrFloat32,
}

impl PixelFormat {
    /// Number of bytes that one pixel occupies in this format.
    pub open spec fn spec_bytes_per_pixel(self) -> nat {
        match self {
            PixelFormat::Sdr8bit => 3,
            PixelFormat::Hdr8bit => 3,
            PixelFormat::HdrFloat32 => 16,
        }
    }

    /// Number of bytes that one pixel occupies in this format.
    pub fn bytes_per_pixel(self) -> (n: usize)
        ensures
            n == self.spec_bytes_per_pixel(),
    {
        match self {
            PixelFormat::Sdr8bit => 3,
            PixelFormat::Hdr8bit => 3,
            PixelFormat::HdrFloat32 => 16,
        }
    }
}

proof fn lemma_mul_le(a: int, b: int, c: int)
    requires
        a <= b,
        0 <= c,
    ensures
        a * c <= b * c,
{
    assert(a * c <= b * c) by (nonlinear_arith)
        requires
            a <= b,
            0 <= c,
    ;
}

/// An owned rectangular array of pixels in one binary pixel encoding.
///
/// The byte store is contiguous, with a stride equal to the width: pixel
/// `i` of the raster order occupies the byte range
/// `[i * bytes_per_pixel, (i + 1) * bytes_per_pixel)`.
pub struct PixelBuffer {
    pub width: usize,
    pub height: usize,
    pub format: PixelFormat,
    pub data: Vec<u8>,
}

impl PixelBuffer {
    /// Number of pixels the buffer holds.
    pub open spec fn spec_pixel_count(self) -> int {
        self.width * self.height
    }

    /// Number of bytes the store must hold for the declared dimensions.
    pub open spec fn spec_byte_len(self) -> int {
        self.spec_pixel_count() * self.format.spec_bytes_per_pixel()
    }

    /// The byte store exactly matches the declared dimensions and format.
    pub open spec fn wf(self) -> bool {
        &&& 1 <= self.width
        &&& 1 <= self.height
        &&& self.data@.len() == self.spec_byte_len()
    }

    /// Dimensions and format are unchanged from `other`.
    pub open spec fn same_shape(self, other: Self) -> bool {
        &&& self.width == other.width
        &&& self.height == other.height
        &&& self.format == other.format
    }

    /// Bounds of pixel `i`'s byte range within a well-formed store.
    proof fn lemma_pixel_span(self, i: int)
        requires
            self.wf(),
            0 <= i < self.spec_pixel_count(),
        ensures
            0 <= i * self.format.spec_bytes_per_pixel(),
            i * self.format.spec_bytes_per_pixel() + self.format.spec_bytes_per_pixel()
                <= self.data@.len(),
    {
        let b = self.format.spec_bytes_per_pixel() as int;
        assert(0 <= i * b && i * b + b <= self.spec_pixel_count() * b) by (nonlinear_arith)
            requires
                0 <= i < self.spec_pixel_count(),
                0 <= b,
        ;
    }

    /// Allocates a buffer with a zero-filled store of exactly
    /// `width * height * bytes_per_pixel` bytes.
    pub fn new(width: usize, height: usize, format: PixelFormat) -> (buf: Self)
        requires
            1 <= width,
            1 <= height,
            width * height * format.spec_bytes_per_pixel() <= usize::MAX,
        ensures
            buf.wf(),
            buf.width == width,
            buf.height == height,
            buf.format == format,
            forall|i: int| 0 <= i < buf.data@.len() ==> buf.data@[i] == 0,
    {
        let bytes_per_pixel = format.bytes_per_pixel();
        proof {
            assert(width * bytes_per_pixel <= width * height * bytes_per_pixel && (width
                * bytes_per_pixel) * height == width * height * bytes_per_pixel)
                by (nonlinear_arith)
                requires
                    1 <= height,
                    0 <= width,
                    0 <= bytes_per_pixel,
            ;
        }
        let stride = width * bytes_per_pixel;
        let size = stride * height;
        let mut data: Vec<u8> = Vec::with_capacity(size);
        let mut i: usize = 0;
        while i < size
            invariant
                i == data@.len(),
                i <= size,
                forall|j: int| 0 <= j < i ==> data@[j] == 0,
            decreases size - i,
        {
            data.push(0);
            i = i + 1;
        }
        PixelBuffer { width, height, format, data }
    }

    /// Read-only view of the whole byte store.
    pub fn bytes(&self) -> (r: &[u8])
        ensures
            r@ == self.data@,
    {
        self.data.as_slice()
    }

    /// Number of pixels the buffer holds.
    pub fn pixel_count(&self) -> (n: usize)
        requires
            self.wf(),
        ensures
            n == self.spec_pixel_count(),
    {
        proof {
            assert(self.data.len() == self.data@.len());
            assert(self.width * self.height <= (self.width * self.height)
                * self.format.spec_bytes_per_pixel()) by (nonlinear_arith)
                requires
                    0 <= self.width,
                    0 <= self.height,
                    1 <= self.format.spec_bytes_per_pixel(),
            ;
        }
        self.width * self.height
    }

    /// Copies the encoded bytes of pixel `i` out of the store.
    pub fn read_pixel_bytes(&self, i: usize) -> (px: Vec<u8>)
        requires
            self.wf(),
            i < self.spec_pixel_count(),
        ensures
            px@.len() == self.format.spec_bytes_per_pixel(),
            forall|j: int|
                0 <= j < px@.len() ==> px@[j] == self.data@[i
                    * self.format.spec_bytes_per_pixel() + j],
    {
        let bpp = self.format.bytes_per_pixel();
        proof {
            assert(self.data.len() == self.data@.len());
            self.lemma_pixel_span(i as int);
        }
        let base = i * bpp;
        let mut px: Vec<u8> = Vec::with_capacity(bpp);
        let mut j: usize = 0;
        while j < bpp
            invariant
                j == px@.len(),
                j <= bpp,
                base == i * bpp,
                base + bpp <= self.data@.len(),
                self.data@.len() <= usize::MAX,
                forall|k: int| 0 <= k < j ==> px@[k] == self.data@[base + k],
            decreases bpp - j,
        {
            px.push(self.data[base + j]);
            j = j + 1;
        }
        px
    }

    /// Encodes pixel `i`: overwrites its byte range with `px`, leaving
    /// every other byte of the store unchanged.
    pub fn write_pixel_bytes(&mut self, i: usize, px: &[u8])
        requires
            old(self).wf(),
            i < old(self).spec_pixel_count(),
            px@.len() == old(self).format.spec_bytes_per_pixel(),
        ensures
            final(self).wf(),
            final(self).same_shape(*old(self)),
            final(self).data@.len() == old(self).data@.len(),
            forall|j: int|
                0 <= j < px@.len() ==> final(self).data@[i
                    * old(self).format.spec_bytes_per_pixel() + j] == px@[j],
            forall|k: int|
                0 <= k < old(self).data@.len() && !(i * old(self).format.spec_bytes_per_pixel()
                    <= k < i * old(self).format.spec_bytes_per_pixel() + px@.len())
                    ==> final(self).data@[k] == old(self).data@[k],
    {
        let bpp = self.format.bytes_per_pixel();
        proof {
            assert(self.data.len() == self.data@.len());
            old(self).lemma_pixel_span(i as int);
        }
        let base = i * bpp;
        let mut j: usize = 0;
        while j < bpp
            invariant
                j <= bpp,
                base == i * bpp,
                base + bpp <= self.data@.len(),
                self.data@.len() <= usize::MAX,
                bpp == px@.len(),
                bpp == self.format.spec_bytes_per_pixel(),
                self.data@.len() == old(self).data@.len(),
                self.same_shape(*old(self)),
                self.wf(),
                forall|k: int| 0 <= k < j ==> self.data@[base + k] == px@[k],
                forall|k: int|
                    0 <= k < self.data@.len() && !(base <= k < base + j) ==> self.data@[k] == old(
                        self,
                    ).data@[k],
            decreases bpp - j,
        {
            self.data[base + j] = px[j];
            j = j + 1;
        }
    }

    /// Consumes an equal-length sequence of encoded pixels and writes them
    /// into the store in matching raster order: pixel `p` of the result is
    /// exactly `pixels[p]`.  The source length must equal the buffer's
    /// pixel count; a mismatch is a caller defect, excluded here.
    pub fn fill_pixels(&mut self, pixels: &Vec<Vec<u8>>)
        requires
            old(self).wf(),
            pixels@.len() == old(self).spec_pixel_count(),
            forall|p: int|
                0 <= p < pixels@.len() ==> (#[trigger] pixels@[p])@.len() == old(
                    self,
                ).format.spec_bytes_per_pixel(),
        ensures
            final(self).wf(),
            final(self).same_shape(*old(self)),
            forall|p: int, j: int|
                0 <= p < pixels@.len() && 0 <= j < old(self).format.spec_bytes_per_pixel()
                    ==> final(self).data@[p * old(self).format.spec_bytes_per_pixel() + j]
                    == #[trigger] pixels@[p]@[j],
    {
        let count = self.pixel_count();
        let ghost bpp = self.format.spec_bytes_per_pixel() as int;
        let mut p: usize = 0;
        while p < count
            invariant
                p <= count,
                count == self.spec_pixel_count(),
                bpp == self.format.spec_bytes_per_pixel(),
                self.wf(),
                self.same_shape(*old(self)),
                pixels@.len() == count,
                forall|q: int| 0 <= q < pixels@.len() ==> (#[trigger] pixels@[q])@.len() == bpp,
                forall|q: int, j: int|
                    0 <= q < p && 0 <= j < bpp ==> self.data@[q * bpp + j]
                        == #[trigger] pixels@[q]@[j],
            decreases count - p,
        {
            self.write_pixel_bytes(p, pixels[p].as_slice());
            proof {
                assert forall|q: int, j: int|
                    0 <= q < p + 1 && 0 <= j < bpp implies self.data@[q * bpp + j]
                    == #[trigger] pixels@[q]@[j] by {
                    if q < p {
                        lemma_mul_le(q + 1, p as int, bpp);
                        assert((q + 1) * bpp == q * bpp + bpp) by (nonlinear_arith);
                        assert(q * bpp + j < p * bpp);
                    }
                }
            }
            p = p + 1;
        }
    }
}

} // verus!

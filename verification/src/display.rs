use vstd::prelude::*;

verus! {

/// QEMU virt default MMIO base for the first VirtIO device.
pub const DEFAULT_VIRTIO_MMIO_BASE: usize = 0x1000_1000;

/// Pixel storage format of framebuffer bytes.
#[derive(Clone, Copy, Debug, PartialEq, Eq, Structural)]
pub enum PixelFormat {
    /// 32-bit X8R8G8B8 (little-endian in memory).
    Xrgb8888,
    /// 32-bit A8R8G8B8 (little-endian in memory).
    Argb8888,
    /// 32-bit B8G8R8X8 (little-endian in memory).
    Bgrx8888,
    /// 32-bit B8G8R8A8 (little-endian in memory).
    Bgra8888,
    /// Unknown/unspecified format.
    Unknown,
}

/// Display-related error.
#[derive(Clone, Copy, Debug, PartialEq, Eq, Structural)]
pub enum DisplayError {
    /// Failed to create VirtIO MMIO transport.
    BadMmioTransport,
    /// Failed to initialize VirtIO GPU device.
    BadGpuDevice,
    /// GPU operation failed.
    GpuOperationFailed,
    /// Framebuffer geometry is invalid.
    InvalidFrameBuffer,
    /// Unsupported architecture placeholder.
    UnsupportedArch,
}

/// Mutable framebuffer view.
pub struct FrameBuffer<'a> {
    /// Pixel width.
    pub width: usize,
    /// Pixel height.
    pub height: usize,
    /// Bytes per scanline.
    pub stride: usize,
    /// Bytes per pixel.
    pub bytes_per_pixel: usize,
    /// Storage format.
    pub format: PixelFormat,
    /// Whether alpha channel is interpreted by scanout.
    pub has_alpha: bool,
    /// The pixel bytes.
    pub data: &'a mut [u8],
}

/// A framebuffer as a value: its geometry and its bytes.
pub struct FrameBufferView {
    pub width: usize,
    pub height: usize,
    pub stride: usize,
    pub bytes_per_pixel: usize,
    pub format: PixelFormat,
    pub has_alpha: bool,
    pub bytes: Seq<u8>,
}

impl<'a> View for FrameBuffer<'a> {
    type V = FrameBufferView;

    closed spec fn view(&self) -> FrameBufferView {
        FrameBufferView {
            width: self.width,
            height: self.height,
            stride: self.stride,
            bytes_per_pixel: self.bytes_per_pixel,
            format: self.format,
            has_alpha: self.has_alpha,
            bytes: self.data@,
        }
    }
}

/// The view of a framebuffer lists its fields.
pub broadcast proof fn lemma_frame_buffer_view(fb: &FrameBuffer)
    ensures
        #![trigger fb@]
        fb@.width == fb.width,
        fb@.height == fb.height,
        fb@.stride == fb.stride,
        fb@.bytes_per_pixel == fb.bytes_per_pixel,
        fb@.format == fb.format,
        fb@.has_alpha == fb.has_alpha,
{
}

/// Byte offset of pixel `(x, y)`.
pub open spec fn pixel_offset(v: FrameBufferView, x: int, y: int) -> int {
    y * v.stride + x * v.bytes_per_pixel
}

impl<'a> FrameBuffer<'a> {
    /// Builds the view of a scanout of `width` x `height` pixels in A8R8G8B8
    /// format, four bytes per pixel and rows packed back to back, over the
    /// first `width * 4 * height` bytes of `raw`. Fails with
    /// `InvalidFrameBuffer` when that size overflows or `raw` is shorter.
    pub fn from_scanout(width: usize, height: usize, raw: &'a mut [u8]) -> (r: Result<
        FrameBuffer<'a>,
        DisplayError,
    >)
        requires
            width * 4 <= usize::MAX,
        ensures
            (width * 4 * height > usize::MAX || old(raw)@.len() < width * 4 * height) ==> r
                == Err::<FrameBuffer<'a>, DisplayError>(DisplayError::InvalidFrameBuffer),
            !(width * 4 * height > usize::MAX || old(raw)@.len() < width * 4 * height) ==> (r matches Ok(
                fb,
            ) && fb@ == (FrameBufferView {
                width,
                height,
                stride: (width * 4) as usize,
                bytes_per_pixel: 4,
                format: PixelFormat::Argb8888,
                has_alpha: true,
                bytes: old(raw)@.subrange(0, width * 4 * height),
            })),
    {
        let stride = width * 4;
        let bytes_per_pixel = 4usize;
        let len = match stride.checked_mul(height) {
            Some(len) => len,
            None => return Err(DisplayError::InvalidFrameBuffer),
        };
        if raw.len() < len {
            return Err(DisplayError::InvalidFrameBuffer);
        }
        let (data, _) = raw.split_at_mut(len);
        Ok(
            FrameBuffer {
                width,
                height,
                stride,
                bytes_per_pixel,
                format: PixelFormat::Argb8888,
                has_alpha: true,
                data,
            },
        )
    }

    /// Returns raw framebuffer bytes.
    pub fn as_bytes_mut(&mut self) -> (r: &mut [u8])
        ensures
            r@ == old(self)@.bytes,
            final(self)@ == (FrameBufferView { bytes: final(r)@, ..old(self)@ }),
    {
        self.data
    }

    /// Returns byte offset of pixel `(x, y)`.
    pub fn byte_offset(&self, x: usize, y: usize) -> (r: Option<usize>)
        requires
            x < self@.width && y < self@.height ==> pixel_offset(self@, x as int, y as int)
                <= usize::MAX,
        ensures
            r == if x < self@.width && y < self@.height {
                Some(pixel_offset(self@, x as int, y as int) as usize)
            } else {
                None::<usize>
            },
    {
        if x >= self.width || y >= self.height {
            return None;
        }
        proof {
            lemma_offset_parts(y as int, self.stride as int, x as int, self.bytes_per_pixel as int);
        }
        Some(y * self.stride + x * self.bytes_per_pixel)
    }
}

proof fn lemma_offset_parts(y: int, stride: int, x: int, bpp: int)
    requires
        y >= 0,
        stride >= 0,
        x >= 0,
        bpp >= 0,
    ensures
        y * stride >= 0,
        x * bpp >= 0,
        y * stride <= y * stride + x * bpp,
{
    vstd::arithmetic::mul::lemma_mul_nonnegative(y, stride);
    vstd::arithmetic::mul::lemma_mul_nonnegative(x, bpp);
}

/// Pixel offsets grow in row-major order and the bytes of two different
/// pixels never overlap, for any stride that holds a row of pixels: a pixel
/// before another one (in its row or in an earlier row) ends where the
/// later one starts or earlier.
pub proof fn lemma_pixel_offsets_ordered(v: FrameBufferView, x1: int, y1: int, x2: int, y2: int)
    requires
        v.bytes_per_pixel > 0,
        v.stride >= v.width * v.bytes_per_pixel,
        0 <= x1 < v.width,
        0 <= y1 < v.height,
        0 <= x2 < v.width,
        0 <= y2 < v.height,
        y1 < y2 || (y1 == y2 && x1 < x2),
    ensures
        pixel_offset(v, x1, y1) + v.bytes_per_pixel <= pixel_offset(v, x2, y2),
{
    let s = v.stride as int;
    let b = v.bytes_per_pixel as int;
    let w = v.width as int;
    if y1 < y2 {
        assert(y1 * s + x1 * b + b <= y2 * s + x2 * b) by (nonlinear_arith)
            requires
                0 <= x1 < w,
                0 <= x2,
                b > 0,
                s >= w * b,
                0 <= y1 < y2,
        ;
    } else {
        assert(x1 * b + b <= x2 * b) by (nonlinear_arith)
            requires
                x1 < x2,
                b > 0,
        ;
    }
}

/// In a framebuffer laid out as `from_scanout` builds it (four bytes per
/// pixel, rows packed back to back), the four bytes at `byte_offset` of every
/// pixel lie inside the buffer, and two different pixels share no byte.
pub proof fn lemma_scanout_pixels(v: FrameBufferView, x1: int, y1: int, x2: int, y2: int)
    requires
        v.bytes_per_pixel == 4,
        v.stride == v.width * 4,
        v.bytes.len() == v.stride * v.height,
        0 <= x1 < v.width,
        0 <= y1 < v.height,
        0 <= x2 < v.width,
        0 <= y2 < v.height,
    ensures
        pixel_offset(v, x1, y1) + 4 <= v.bytes.len(),
        x1 != x2 || y1 != y2 ==> pixel_offset(v, x1, y1) + 4 <= pixel_offset(v, x2, y2)
            || pixel_offset(v, x2, y2) + 4 <= pixel_offset(v, x1, y1),
{
    let w = v.width as int;
    let h = v.height as int;
    assert(pixel_offset(v, x1, y1) == 4 * (y1 * w + x1)) by (nonlinear_arith)
        requires
            v.stride == w * 4,
            v.bytes_per_pixel == 4,
    ;
    assert(pixel_offset(v, x2, y2) == 4 * (y2 * w + x2)) by (nonlinear_arith)
        requires
            v.stride == w * 4,
            v.bytes_per_pixel == 4,
    ;
    assert(y1 * w + x1 + 1 <= h * w) by (nonlinear_arith)
        requires
            0 <= x1 < w,
            0 <= y1 < h,
    ;
    assert(v.bytes.len() == 4 * (h * w)) by (nonlinear_arith)
        requires
            v.bytes.len() == v.stride * v.height,
            v.stride == w * 4,
            h == v.height,
    ;
    if y1 < y2 {
        assert(y1 * w + x1 < y2 * w + x2) by (nonlinear_arith)
            requires
                0 <= x1 < w,
                0 <= x2,
                y1 < y2,
        ;
    } else if y2 < y1 {
        assert(y2 * w + x2 < y1 * w + x1) by (nonlinear_arith)
            requires
                0 <= x2 < w,
                0 <= x1,
                y2 < y1,
        ;
    }
}

/// The width and height of a scanout the device reports, accepted when both
/// are non-zero.
pub fn scanout_size(width: u32, height: u32) -> (r: Result<(usize, usize), DisplayError>)
    ensures
        r == if width == 0 || height == 0 {
            Err::<(usize, usize), DisplayError>(DisplayError::InvalidFrameBuffer)
        } else {
            Ok((width as usize, height as usize))
        },
{
    if width == 0 || height == 0 {
        return Err(DisplayError::InvalidFrameBuffer);
    }
    Ok((width as usize, height as usize))
}

/// Display device abstraction. Built for a target other than a RISC-V
/// machine with a VirtIO GPU, it has no device behind it.
pub struct Display {}

impl Display {
    /// Creates a display from a VirtIO-GPU MMIO base address; without the
    /// device this always fails with `UnsupportedArch`.
    pub fn new_virtio_gpu(mmio_base: usize) -> (r: Result<Self, DisplayError>)
        ensures
            r matches Err(e) && e == DisplayError::UnsupportedArch,
    {
        Err(DisplayError::UnsupportedArch)
    }

    /// Returns framebuffer metadata with mutable byte access; without the
    /// device this always fails with `UnsupportedArch`.
    pub fn framebuffer(&mut self) -> (r: Result<FrameBuffer<'_>, DisplayError>)
        ensures
            r matches Err(e) && e == DisplayError::UnsupportedArch,
    {
        Err(DisplayError::UnsupportedArch)
    }

    /// Flushes current framebuffer content to screen; without the device
    /// this always fails with `UnsupportedArch`.
    pub fn flush(&mut self) -> (r: Result<(), DisplayError>)
        ensures
            r == Err::<(), DisplayError>(DisplayError::UnsupportedArch),
    {
        Err(DisplayError::UnsupportedArch)
    }
}

} // verus!

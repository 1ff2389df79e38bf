use vstd::prelude::*;
use vstd::multiset::Multiset;

verus! {

/// One encoded image: an ordered list of byte buffers, one per painter chunk.
pub type Command = Vec<Vec<u8>>;

/// Wire layout of binary pixel commands.
#[derive(Clone, Copy, PartialEq, Eq, Structural, Debug)]
pub enum BinaryFormat {
    /// `P B x_lo x_hi y_lo y_hi r g b a`: little-endian u16 coordinates, RGBA.
    CoordLERGBA,
}

/// One RGBA pixel; `a == 0` means the pixel is skipped.
#[derive(Clone, Copy, PartialEq, Eq, Structural, Debug)]
pub struct Px {
    pub r: u8,
    pub g: u8,
    pub b: u8,
    pub a: u8,
}

/// How to place an image on the canvas and which commands to use for it.
#[derive(Clone, Copy, Debug)]
pub struct ImageConfig {
    /// Largest width of the image; `canvas_width - x_offset` crops at the canvas edge.
    pub width: Option<u32>,
    /// Largest height of the image; `canvas_height - y_offset` crops at the canvas edge.
    pub height: Option<u32>,
    /// At what x offset to place the image.
    pub x_offset: u32,
    /// At what y offset to place the image.
    pub y_offset: u32,
    /// Whether `OFFSET x y` anchors may shorten the pixel coordinates.
    pub offset_usage: bool,
    /// Whether `PX x y gg` may abbreviate gray pixels.
    pub gray_usage: bool,
    /// Whether pixels with partial alpha carry their alpha byte.
    pub alpha_usage: bool,
    /// Whether the draw commands are permuted before chunking.
    pub shuffle: bool,
    /// Number of output chunks, one per painter; at least 1.
    pub chunks: usize,
    /// Resize rather than crop when the target size differs.
    pub resize: bool,
    /// Use a binary command layout instead of text.
    pub binary: Option<BinaryFormat>,
}

impl ImageConfig {
    /// A config the encoder accepts.
    pub open spec fn valid(self) -> bool {
        self.chunks >= 1
    }
}

/// Step-by-step construction of an ImageConfig.
pub struct ImageConfigBuilder {
    pub width: Option<u32>,
    pub height: Option<u32>,
    pub x_offset: u32,
    pub y_offset: u32,
    pub offset_usage: bool,
    pub gray_usage: bool,
    pub alpha_usage: bool,
    pub shuffle: bool,
    pub binary: Option<BinaryFormat>,
    pub chunks: usize,
    pub resize: bool,
}

impl ImageConfigBuilder {
    /// Start from the defaults: no target size, origin placement, no dialect
    /// extensions, shuffling on, one chunk, cropping.
    pub fn new() -> (r: ImageConfigBuilder)
        ensures
            r == (ImageConfigBuilder {
                width: None,
                height: None,
                x_offset: 0,
                y_offset: 0,
                offset_usage: false,
                gray_usage: false,
                alpha_usage: false,
                shuffle: true,
                binary: None,
                chunks: 1,
                resize: false,
            }),
    {
        ImageConfigBuilder {
            width: None,
            height: None,
            x_offset: 0,
            y_offset: 0,
            offset_usage: false,
            gray_usage: false,
            alpha_usage: false,
            shuffle: true,
            binary: None,
            chunks: 1,
            resize: false,
        }
    }

    /// Largest width of the image.
    /// NOTE: this needs to be `canvas_width - x_offset` to crop at the canvas edges.
    pub fn width(self, width: u32) -> (r: ImageConfigBuilder)
        ensures
            r == (ImageConfigBuilder { width: Some(width), ..self }),
    {
        ImageConfigBuilder { width: Some(width), ..self }
    }

    /// Largest height of the image.
    /// NOTE: this needs to be `canvas_height - y_offset` to crop at the canvas edges.
    pub fn height(self, height: u32) -> (r: ImageConfigBuilder)
        ensures
            r == (ImageConfigBuilder { height: Some(height), ..self }),
    {
        ImageConfigBuilder { height: Some(height), ..self }
    }

    /// At what x offset to place the image.
    pub fn x_offset(self, x_offset: u32) -> (r: ImageConfigBuilder)
        ensures
            r == (ImageConfigBuilder { x_offset, ..self }),
    {
        ImageConfigBuilder { x_offset, ..self }
    }

    /// At what y offset to place the image.
    pub fn y_offset(self, y_offset: u32) -> (r: ImageConfigBuilder)
        ensures
            r == (ImageConfigBuilder { y_offset, ..self }),
    {
        ImageConfigBuilder { y_offset, ..self }
    }

    /// Whether the `OFFSET` command should be used.
    pub fn offset_usage(self, offset_usage: bool) -> (r: ImageConfigBuilder)
        ensures
            r == (ImageConfigBuilder { offset_usage, ..self }),
    {
        ImageConfigBuilder { offset_usage, ..self }
    }

    /// Whether the `PX x y gg` command should be used.
    pub fn gray_usage(self, gray_usage: bool) -> (r: ImageConfigBuilder)
        ensures
            r == (ImageConfigBuilder { gray_usage, ..self }),
    {
        ImageConfigBuilder { gray_usage, ..self }
    }

    /// Whether the `PX x y rrggbbaa` command should be used (or alpha ignored).
    pub fn alpha_usage(self, alpha_usage: bool) -> (r: ImageConfigBuilder)
        ensures
            r == (ImageConfigBuilder { alpha_usage, ..self }),
    {
        ImageConfigBuilder { alpha_usage, ..self }
    }

    /// Whether the `PBxyrgba` binary command with little-endian coordinates
    /// should be used.
    pub fn binary_usage(self, binary_usage: bool) -> (r: ImageConfigBuilder)
        ensures
            r == (ImageConfigBuilder {
                binary: if binary_usage {
                    Some(BinaryFormat::CoordLERGBA)
                } else {
                    None
                },
                ..self
            }),
    {
        ImageConfigBuilder {
            binary: if binary_usage {
                Some(BinaryFormat::CoordLERGBA)
            } else {
                None
            },
            ..self
        }
    }

    /// Shuffle draw commands (recommended).
    pub fn shuffle(self, shuffle: bool) -> (r: ImageConfigBuilder)
        ensures
            r == (ImageConfigBuilder { shuffle, ..self }),
    {
        ImageConfigBuilder { shuffle, ..self }
    }

    /// Number of chunks to split the image into; zero is not accepted.
    pub fn chunks(self, chunks: usize) -> (r: ImageConfigBuilder)
        requires
            chunks >= 1,
        ensures
            r == (ImageConfigBuilder { chunks, ..self }),
    {
        ImageConfigBuilder { chunks, ..self }
    }

    /// Resize rather than crop the image.
    pub fn resize(self, resize: bool) -> (r: ImageConfigBuilder)
        ensures
            r == (ImageConfigBuilder { resize, ..self }),
    {
        ImageConfigBuilder { resize, ..self }
    }

    /// Fill everything the builder leaves unset from a server's detected
    /// features: its canvas size as the default target, and its supported
    /// dialect extensions in addition to the requested ones.
    pub fn apply_features(self, features: crate::feature_detection::Features) -> (r:
        ImageConfigBuilder)
        ensures
            r == (ImageConfigBuilder {
                width: match self.width {
                    Some(w) => Some(w),
                    None => Some(features.width),
                },
                height: match self.height {
                    Some(h) => Some(h),
                    None => Some(features.height),
                },
                offset_usage: self.offset_usage || features.offset,
                gray_usage: self.gray_usage || features.px_gray,
                binary: match self.binary {
                    Some(b) => Some(b),
                    None => features.binary,
                },
                ..self
            }),
    {
        ImageConfigBuilder {
            width: match self.width {
                Some(w) => Some(w),
                None => Some(features.width),
            },
            height: match self.height {
                Some(h) => Some(h),
                None => Some(features.height),
            },
            offset_usage: self.offset_usage || features.offset,
            gray_usage: self.gray_usage || features.px_gray,
            binary: match self.binary {
                Some(b) => Some(b),
                None => features.binary,
            },
            ..self
        }
    }

    /// Build the image config.
    pub fn build(self) -> (r: ImageConfig)
        requires
            self.chunks >= 1,
        ensures
            r == (ImageConfig {
                width: self.width,
                height: self.height,
                x_offset: self.x_offset,
                y_offset: self.y_offset,
                offset_usage: self.offset_usage,
                gray_usage: self.gray_usage,
                alpha_usage: self.alpha_usage,
                shuffle: self.shuffle,
                chunks: self.chunks,
                resize: self.resize,
                binary: self.binary,
            }),
            r.valid(),
    {
        ImageConfig {
            width: self.width,
            height: self.height,
            x_offset: self.x_offset,
            y_offset: self.y_offset,
            offset_usage: self.offset_usage,
            gray_usage: self.gray_usage,
            alpha_usage: self.alpha_usage,
            shuffle: self.shuffle,
            chunks: self.chunks,
            resize: self.resize,
            binary: self.binary,
        }
    }
}

// ---------------------------------------------------------------------------
// Cell index helpers.
// ---------------------------------------------------------------------------

/// The row-major index of cell (x, y) in a grid of `chunk_width` columns.
pub fn id_for_chunk_x_y(x: u32, y: u32, chunk_width: u32) -> (r: usize)
    requires
        (x as int) + (y as int) * (chunk_width as int) <= u32::MAX as int,
    ensures
        r == (x as int) + (y as int) * (chunk_width as int),
{
    (x + y * chunk_width) as usize
}

/// The index of the 10x10 cell holding pixel (x, y).
pub fn id_for_px(x: u32, y: u32, chunk_width: u32) -> (r: usize)
    requires
        (x as int) / 10 + ((y as int) / 10) * (chunk_width as int) <= u32::MAX as int,
    ensures
        r == (x as int) / 10 + ((y as int) / 10) * (chunk_width as int),
{
    id_for_chunk_x_y(x / 10, y / 10, chunk_width)
}

// ---------------------------------------------------------------------------
// Decimal and hexadecimal rendering of coordinates and colour components.
// ---------------------------------------------------------------------------

/// The shortest base-10 rendering of `n` (valid for `0 <= n < 10000`).
pub open spec fn dec_digits(n: int) -> Seq<u8> {
    if n < 10 {
        seq![(48 + n) as u8]
    } else if n < 100 {
        seq![(48 + n / 10) as u8, (48 + n % 10) as u8]
    } else if n < 1000 {
        seq![(48 + n / 100) as u8, (48 + n / 10 % 10) as u8, (48 + n % 10) as u8]
    } else {
        seq![
            (48 + n / 1000) as u8,
            (48 + n / 100 % 10) as u8,
            (48 + n / 10 % 10) as u8,
            (48 + n % 10) as u8,
        ]
    }
}

/// One lowercase hexadecimal digit for `0 <= n < 16`.
pub open spec fn hex_digit(n: int) -> u8 {
    if n < 10 {
        (48 + n) as u8
    } else {
        (87 + n) as u8
    }
}

/// Two lowercase hexadecimal digits for one byte.
pub open spec fn hex_pair(n: u8) -> Seq<u8> {
    seq![hex_digit(n as int / 16), hex_digit(n as int % 16)]
}

/// Render one byte as two lowercase hexadecimal digits.
pub fn to_hex(number: u8) -> (r: [u8; 2])
    ensures
        r@ == hex_pair(number),
{
    let hi = number >> 4;
    let lo = number & 15;
    proof {
        assert(number >> 4 == number / 16) by (bit_vector);
        assert(number & 15 == number % 16) by (bit_vector);
    }
    let d0 = if hi < 10 {
        48 + hi
    } else {
        87 + hi
    };
    let d1 = if lo < 10 {
        48 + lo
    } else {
        87 + lo
    };
    let r = [d0, d1];
    proof {
        assert(r@ =~= hex_pair(number));
    }
    r
}

/// Render a coordinate in base 10 without leading zeros; the digits sit in
/// the first `r.1` slots of the array and the rest stay zero.
pub fn to_decimal(number: u32) -> (r: ([u8; 4], usize))
    requires
        number < 10000,
    ensures
        1 <= r.1 <= 4,
        r.0@.subrange(0, r.1 as int) == dec_digits(number as int),
        forall|i: int| r.1 <= i < 4 ==> r.0@[i] == 0,
{
    if number >= 1000 {
        let r = (
            [
                (number / 1000) as u8 + 48,
                (number / 100 % 10) as u8 + 48,
                (number / 10 % 10) as u8 + 48,
                (number % 10) as u8 + 48,
            ],
            4usize,
        );
        proof {
            assert(r.0@.subrange(0, 4) =~= dec_digits(number as int));
        }
        r
    } else if number >= 100 {
        let r = (
            [
                (number / 100) as u8 + 48,
                (number / 10 % 10) as u8 + 48,
                (number % 10) as u8 + 48,
                0u8,
            ],
            3usize,
        );
        proof {
            assert(r.0@.subrange(0, 3) =~= dec_digits(number as int));
        }
        r
    } else if number >= 10 {
        let r = ([(number / 10) as u8 + 48, (number % 10) as u8 + 48, 0u8, 0u8], 2usize);
        proof {
            assert(r.0@.subrange(0, 2) =~= dec_digits(number as int));
        }
        r
    } else {
        let r = ([number as u8 + 48, 0u8, 0u8, 0u8], 1usize);
        proof {
            assert(r.0@.subrange(0, 1) =~= dec_digits(number as int));
        }
        r
    }
}

// ---------------------------------------------------------------------------
// Per-pixel serialisation.
// ---------------------------------------------------------------------------

/// Whether the two-digit gray form applies to this pixel.
pub open spec fn gray_applies(p: Px, cfg: ImageConfig) -> bool {
    cfg.gray_usage && (!cfg.alpha_usage || p.a == 255) && p.r == p.g && p.g == p.b
}

/// The hex colour text of a visible pixel: 2 digits (gray), 6 (rgb) or 8 (rgba).
pub open spec fn colour_hex(p: Px, cfg: ImageConfig) -> Seq<u8> {
    if gray_applies(p, cfg) {
        hex_pair(p.r)
    } else if cfg.alpha_usage && p.a != 255 {
        hex_pair(p.r) + hex_pair(p.g) + hex_pair(p.b) + hex_pair(p.a)
    } else {
        hex_pair(p.r) + hex_pair(p.g) + hex_pair(p.b)
    }
}

/// Serialise one pixel's colour, or nothing for a fully transparent pixel.
/// The text sits in the first `len` slots of the returned array.
pub fn get_pixel(pixel: Px, config: ImageConfig) -> (r: Option<([u8; 8], usize)>)
    ensures
        r is None <==> pixel.a == 0,
        r matches Some(v) ==> {
            &&& 2 <= v.1 <= 8
            &&& v.1 == colour_hex(pixel, config).len()
            &&& v.0@.subrange(0, v.1 as int) == colour_hex(pixel, config)
        },
{
    if pixel.a == 0 {
        None
    } else if config.gray_usage && (!config.alpha_usage || pixel.a == 255) && pixel.r == pixel.g
        && pixel.g == pixel.b {
        let h = to_hex(pixel.r);
        let buf = [h[0], h[1], 0u8, 0u8, 0u8, 0u8, 0u8, 0u8];
        proof {
            assert(buf@.subrange(0, 2) =~= colour_hex(pixel, config));
        }
        Some((buf, 2))
    } else {
        let rr = to_hex(pixel.r);
        let gg = to_hex(pixel.g);
        let bb = to_hex(pixel.b);
        let aa = to_hex(pixel.a);
        let buf = [rr[0], rr[1], gg[0], gg[1], bb[0], bb[1], aa[0], aa[1]];
        if !config.alpha_usage || pixel.a == 255 {
            proof {
                assert(buf@.subrange(0, 6) =~= colour_hex(pixel, config));
            }
            Some((buf, 6))
        } else {
            proof {
                assert(buf@.subrange(0, 8) =~= colour_hex(pixel, config));
            }
            Some((buf, 8))
        }
    }
}

// ---------------------------------------------------------------------------
// Whole commands.
// ---------------------------------------------------------------------------

/// A full-dialect draw command: `PX <x> <y> <hex>\n` with absolute coordinates.
pub open spec fn px_cmd(x: int, y: int, hex: Seq<u8>) -> Seq<u8> {
    seq![80u8, 88u8, 32u8] + dec_digits(x) + seq![32u8] + dec_digits(y) + seq![32u8] + hex
        + seq![10u8]
}

/// An offset-dialect draw command: `PX <x%10> <y%10> <hex>\n`.
pub open spec fn offset_px_cmd(x: int, y: int, hex: Seq<u8>) -> Seq<u8> {
    seq![80u8, 88u8, 32u8, (48 + x % 10) as u8, 32u8, (48 + y % 10) as u8, 32u8] + hex
        + seq![10u8]
}

/// A binary draw command: `P B x_lo x_hi y_lo y_hi r g b a`.
pub open spec fn binary_cmd(x: int, y: int, p: Px) -> Seq<u8> {
    seq![
        80u8,
        66u8,
        (x % 256) as u8,
        (x / 256) as u8,
        (y % 256) as u8,
        (y / 256) as u8,
        p.r,
        p.g,
        p.b,
        p.a,
    ]
}

/// Copy the first `n` bytes of `src` into `dst` starting at `at`.
fn splice<const M: usize, const N: usize>(dst: &mut [u8; M], at: usize, src: &[u8; N], n: usize)
    requires
        n <= N,
        at + n <= M,
    ensures
        forall|i: int| 0 <= i < at ==> final(dst)@[i] == old(dst)@[i],
        forall|i: int| 0 <= i < n ==> final(dst)@[at + i] == src@[i],
        forall|i: int| at + n <= i < M ==> final(dst)@[i] == old(dst)@[i],
{
    let mut i: usize = 0;
    while i < n
        invariant
            i <= n,
            n <= N,
            at + n <= M,
            forall|j: int| 0 <= j < at ==> dst@[j] == old(dst)@[j],
            forall|j: int| 0 <= j < i ==> dst@[at + j] == src@[j],
            forall|j: int| at + i <= j < M ==> dst@[j] == old(dst)@[j],
        decreases n - i,
    {
        dst[at + i] = src[i];
        i += 1;
    }
}

/// Build a full-dialect command; the bytes sit in the first `r.1` slots.
#[verifier::rlimit(60)]
pub fn pixel_to_command(x: u32, y: u32, pixel: ([u8; 8], usize)) -> (r: ([u8; 22], usize))
    requires
        x < 10000,
        y < 10000,
        2 <= pixel.1 <= 8,
    ensures
        r.1 <= 22,
        r.0@.subrange(0, r.1 as int) == px_cmd(
            x as int,
            y as int,
            pixel.0@.subrange(0, pixel.1 as int),
        ),
        forall|i: int| r.1 <= i < 22 ==> r.0@[i] == 0,
{
    let mut result = [
        80u8, 88u8, 32u8, 0u8, 0u8, 0u8, 0u8, 0u8, 0u8, 0u8, 0u8, 0u8, 0u8, 0u8, 0u8, 0u8, 0u8,
        0u8, 0u8, 0u8, 0u8, 0u8,
    ];
    let mut size: usize = 3;
    let coordinate = to_decimal(x);
    splice(&mut result, size, &coordinate.0, coordinate.1);
    size += coordinate.1 + 1;
    result[size - 1] = 32u8;
    let coordinate = to_decimal(y);
    splice(&mut result, size, &coordinate.0, coordinate.1);
    size += coordinate.1 + 1;
    result[size - 1] = 32u8;
    splice(&mut result, size, &pixel.0, pixel.1);
    size += pixel.1 + 1;
    result[size - 1] = 10u8;
    proof {
        assert(result@.subrange(0, size as int) =~= px_cmd(
            x as int,
            y as int,
            pixel.0@.subrange(0, pixel.1 as int),
        ));
    }
    (result, size)
}

/// Build an offset-dialect command; the bytes sit in the first `r.1` slots.
pub fn pixel_to_offset_command(x: u32, y: u32, pixel: ([u8; 8], usize)) -> (r: ([u8; 16], usize))
    requires
        2 <= pixel.1 <= 8,
    ensures
        r.1 == pixel.1 + 8,
        r.0@.subrange(0, r.1 as int) == offset_px_cmd(
            x as int,
            y as int,
            pixel.0@.subrange(0, pixel.1 as int),
        ),
        forall|i: int| r.1 <= i < 16 ==> r.0@[i] == 0,
{
    let mut result = [
        80u8,
        88u8,
        32u8,
        (x % 10) as u8 + 48,
        32u8,
        (y % 10) as u8 + 48,
        32u8,
        0u8,
        0u8,
        0u8,
        0u8,
        0u8,
        0u8,
        0u8,
        0u8,
        0u8,
    ];
    let mut size: usize = 7;
    splice(&mut result, size, &pixel.0, pixel.1);
    size += pixel.1 + 1;
    result[size - 1] = 10u8;
    proof {
        assert(result@.subrange(0, size as int) =~= offset_px_cmd(
            x as int,
            y as int,
            pixel.0@.subrange(0, pixel.1 as int),
        ));
    }
    (result, size)
}

/// Build a binary draw command.
pub fn binary_encode(format: BinaryFormat, x: u32, y: u32, px: Px) -> (r: Vec<u8>)
    requires
        x < 65536,
        y < 65536,
    ensures
        r@ == binary_cmd(x as int, y as int, px),
{
    match format {
        BinaryFormat::CoordLERGBA => {
            let r = vec![
                80u8,
                66u8,
                (x % 256) as u8,
                (x / 256) as u8,
                (y % 256) as u8,
                (y / 256) as u8,
                px.r,
                px.g,
                px.b,
                px.a,
            ];
            proof {
                assert(r@ =~= binary_cmd(x as int, y as int, px));
            }
            r
        },
    }
}

// ---------------------------------------------------------------------------
// Raw frames.
// ---------------------------------------------------------------------------

/// A decoded image: RGBA bytes in row-major order.
pub struct Frame {
    pub width: u32,
    pub height: u32,
    pub data: Vec<u8>,
}

proof fn lemma_pixel_index_bound(w: int, h: int, x: int, y: int)
    requires
        0 <= x < w,
        0 <= y < h,
    ensures
        0 <= y * w + x,
        y * w + x < w * h,
{
    assert(0 <= y * w + x && y * w + x < w * h) by (nonlinear_arith)
        requires
            0 <= x < w,
            0 <= y < h,
    ;
}

/// The pixel at column `x`, row `y` of a row-major RGBA byte buffer of width `w`.
pub open spec fn frame_pixel(data: Seq<u8>, w: int, x: int, y: int) -> Px {
    let base = 4 * (y * w + x);
    Px { r: data[base], g: data[base + 1], b: data[base + 2], a: data[base + 3] }
}

impl Frame {
    /// The pixel buffer holds exactly its announced dimensions.
    pub open spec fn wf(self) -> bool {
        self.data@.len() == 4 * (self.width * self.height)
    }

    /// The pixel at column `x`, row `y`.
    pub open spec fn pixel(self, x: int, y: int) -> Px {
        frame_pixel(self.data@, self.width as int, x, y)
    }

    /// Read the pixel at column `x`, row `y`.
    pub fn get_px(&self, x: u32, y: u32) -> (p: Px)
        requires
            self.wf(),
            x < self.width,
            y < self.height,
        ensures
            p == self.pixel(x as int, y as int),
    {
        let len = self.data.len();
        proof {
            lemma_pixel_index_bound(self.width as int, self.height as int, x as int, y as int);
            assert((self.width as int) * (self.height as int) <= len);
        }
        let idx: usize = (y as usize) * (self.width as usize) + (x as usize);
        let base: usize = 4 * idx;
        Px {
            r: self.data[base],
            g: self.data[base + 1],
            b: self.data[base + 2],
            a: self.data[base + 3],
        }
    }
}

// ---------------------------------------------------------------------------
// Round-robin chunk partitioning.
// ---------------------------------------------------------------------------

/// The items out of the first `n` that round-robin routing sends to chunk `j`.
pub open spec fn routed_upto(s: Seq<Seq<u8>>, k: int, j: int, n: int) -> Seq<Seq<u8>>
    decreases n,
{
    if n <= 0 {
        Seq::empty()
    } else {
        let rest = routed_upto(s, k, j, n - 1);
        if (n - 1) % k == j {
            rest.push(s[n - 1])
        } else {
            rest
        }
    }
}

/// The items that round-robin routing sends to chunk `j`, in input order.
pub open spec fn routed(s: Seq<Seq<u8>>, k: int, j: int) -> Seq<Seq<u8>> {
    routed_upto(s, k, j, s.len() as int)
}

/// The round-robin partition of `s` into `k` chunks, each chunk flattened.
pub open spec fn partitioned(s: Seq<Seq<u8>>, k: int) -> Seq<Seq<u8>> {
    Seq::new(k as nat, |j: int| routed(s, k, j).flatten())
}

/// The first `n` bytes of `src` as an owned vector.
fn prefix_to_vec<const N: usize>(src: &[u8; N], n: usize) -> (r: Vec<u8>)
    requires
        n <= N,
    ensures
        r@ == src@.subrange(0, n as int),
{
    let mut r: Vec<u8> = Vec::new();
    let mut i: usize = 0;
    while i < n
        invariant
            i <= n,
            n <= N,
            r@ == src@.subrange(0, i as int),
        decreases n - i,
    {
        r.push(src[i]);
        proof {
            assert(r@ =~= src@.subrange(0, i + 1));
        }
        i += 1;
    }
    r
}

/// Shuffle the draw items if asked to, then split them into `config.chunks`
/// round-robin chunks; chunk `j` holds the bytes of items `j, j+k, j+2k, ...`.
pub fn collect_chunks(items: Vec<Vec<u8>>, config: &ImageConfig) -> (r: Command)
    requires
        config.valid(),
    ensures
        r@.len() == config.chunks,
        !config.shuffle ==> r.deep_view() == partitioned(items.deep_view(), config.chunks as int),
        config.shuffle ==> exists|s: Seq<Seq<u8>>|
            s.to_multiset() == items.deep_view().to_multiset() && r.deep_view() == partitioned(
                s,
                config.chunks as int,
            ),
{
    let ghost orig = items.deep_view();
    let mut work = items;
    if config.shuffle {
        let mut rng = crate::rng::new_rng();
        crate::rng::shuffle_slice(&mut rng, &mut work);
    }
    let ghost s = work.deep_view();
    let k = config.chunks;
    let mut result: Vec<Vec<u8>> = Vec::new();
    let mut j: usize = 0;
    while j < k
        invariant
            j <= k,
            k == config.chunks,
            k >= 1,
            result@.len() == j,
            s == work.deep_view(),
            forall|jj: int| 0 <= jj < j ==> result@[jj]@ == routed(s, k as int, jj).flatten(),
        decreases k - j,
    {
        let mut chunk: Vec<u8> = Vec::new();
        let mut i: usize = 0;
        proof {
            assert(chunk@ =~= routed_upto(s, k as int, j as int, 0).flatten());
        }
        while i < work.len()
            invariant
                i <= work.len(),
                k >= 1,
                j < k,
                s == work.deep_view(),
                chunk@ == routed_upto(s, k as int, j as int, i as int).flatten(),
            decreases work.len() - i,
        {
            if i % k == j {
                let ghost before = routed_upto(s, k as int, j as int, i as int);
                chunk.extend_from_slice(work[i].as_slice());
                proof {
                    before.lemma_flatten_push(s[i as int]);
                    assert(work@[i as int]@ =~= s[i as int]);
                    assert(chunk@ =~= before.flatten() + s[i as int]);
                    assert(before.push(s[i as int]) == routed_upto(s, k as int, j as int, i + 1));
                }
            }
            i += 1;
        }
        result.push(chunk);
        j += 1;
    }
    proof {
        assert forall|jj: int| 0 <= jj < k implies result.deep_view()[jj] == partitioned(
            s,
            k as int,
        )[jj] by {
            assert(result.deep_view()[jj] =~= result@[jj]@);
        }
        assert(result.deep_view() =~= partitioned(s, k as int));
        if config.shuffle {
            assert(s.to_multiset() == orig.to_multiset() && result.deep_view() == partitioned(
                s,
                k as int,
            ));
        }
    }
    result
}

// ---------------------------------------------------------------------------
// Encoders: one draw item per visible pixel (full and binary dialects).
// ---------------------------------------------------------------------------

pub(crate) proof fn lemma_row_bound(i: int, w: int, h: int)
    requires
        0 <= w,
        0 <= h,
        0 <= i,
        i < w * h,
    ensures
        0 < w,
        0 < h,
        0 <= i / w < h,
        0 <= i % w < w,
{
    assert(0 < w && 0 < h && 0 <= i / w < h && 0 <= i % w < w) by (nonlinear_arith)
        requires
            0 <= w,
            0 <= h,
            0 <= i,
            i < w * h,
    ;
}

/// How many of the first `n` pixels (row-major) are visible (`a != 0`).
pub open spec fn visible_upto(f: Frame, n: int) -> int
    decreases n,
{
    if n <= 0 {
        0
    } else {
        let x = (n - 1) % (f.width as int);
        let y = (n - 1) / (f.width as int);
        visible_upto(f, n - 1) + if f.pixel(x, y).a != 0 {
            1int
        } else {
            0int
        }
    }
}

/// How many pixels of the frame are visible.
pub open spec fn visible_count(f: Frame) -> int {
    visible_upto(f, (f.width * f.height) as int)
}

/// The full-dialect commands of the first `n` pixels, in row-major order.
pub open spec fn full_cmds_upto(f: Frame, cfg: ImageConfig, n: int) -> Seq<Seq<u8>>
    decreases n,
{
    if n <= 0 {
        Seq::empty()
    } else {
        let rest = full_cmds_upto(f, cfg, n - 1);
        let x = (n - 1) % (f.width as int);
        let y = (n - 1) / (f.width as int);
        let p = f.pixel(x, y);
        if p.a == 0 {
            rest
        } else {
            rest.push(px_cmd(x + cfg.x_offset, y + cfg.y_offset, colour_hex(p, cfg)))
        }
    }
}

/// One full-dialect command per visible pixel, in row-major order.
pub open spec fn full_cmds(f: Frame, cfg: ImageConfig) -> Seq<Seq<u8>> {
    full_cmds_upto(f, cfg, (f.width * f.height) as int)
}

/// The binary commands of the first `n` pixels, in row-major order.
pub open spec fn binary_cmds_upto(f: Frame, cfg: ImageConfig, n: int) -> Seq<Seq<u8>>
    decreases n,
{
    if n <= 0 {
        Seq::empty()
    } else {
        let rest = binary_cmds_upto(f, cfg, n - 1);
        let x = (n - 1) % (f.width as int);
        let y = (n - 1) / (f.width as int);
        let p = f.pixel(x, y);
        if p.a == 0 {
            rest
        } else {
            rest.push(binary_cmd(x + cfg.x_offset, y + cfg.y_offset, p))
        }
    }
}

/// One binary command per visible pixel, in row-major order.
pub open spec fn binary_cmds(f: Frame, cfg: ImageConfig) -> Seq<Seq<u8>> {
    binary_cmds_upto(f, cfg, (f.width * f.height) as int)
}

/// Encode every visible pixel as an absolute-coordinate text command and
/// split the result into chunks; also reports how many pixels were visible.
pub fn get_full_encoded(frame: &Frame, config: &ImageConfig) -> (r: (Command, usize))
    requires
        frame.wf(),
        config.valid(),
        frame.width + config.x_offset <= 10000,
        frame.height + config.y_offset <= 10000,
    ensures
        r.1 == visible_count(*frame),
        r.0@.len() == config.chunks,
        !config.shuffle ==> r.0.deep_view() == partitioned(
            full_cmds(*frame, *config),
            config.chunks as int,
        ),
        config.shuffle ==> exists|s: Seq<Seq<u8>>|
            s.to_multiset() == full_cmds(*frame, *config).to_multiset() && r.0.deep_view()
                == partitioned(s, config.chunks as int),
{
    let w = frame.width;
    let h = frame.height;
    let len = frame.data.len();
    proof {
        assert((w as int) * (h as int) <= len || (w as int) * (h as int) == 0) by (nonlinear_arith)
            requires
                len == 4 * ((w as int) * (h as int)),
        ;
    }
    let total: usize = (w as usize) * (h as usize);
    let mut items: Vec<Vec<u8>> = Vec::new();
    let mut count: usize = 0;
    let mut i: usize = 0;
    while i < total
        invariant
            i <= total,
            total == (w as int) * (h as int),
            w == frame.width,
            h == frame.height,
            frame.wf(),
            frame.width + config.x_offset <= 10000,
            frame.height + config.y_offset <= 10000,
            count <= i,
            count == visible_upto(*frame, i as int),
            items.deep_view() == full_cmds_upto(*frame, *config, i as int),
        decreases total - i,
    {
        proof {
            lemma_row_bound(i as int, w as int, h as int);
        }
        let x = (i % (w as usize)) as u32;
        let y = (i / (w as usize)) as u32;
        let p = frame.get_px(x, y);
        let ghost items_before = items.deep_view();
        match get_pixel(p, *config) {
            Some(hex) => {
                let cmd = pixel_to_command(x + config.x_offset, y + config.y_offset, hex);
                let v = prefix_to_vec(&cmd.0, cmd.1);
                items.push(v);
                count += 1;
                proof {
                    assert(items.deep_view() =~~= items_before.push(v@));
                }
            },
            None => {},
        }
        proof {
            assert(items.deep_view() == full_cmds_upto(*frame, *config, i + 1));
        }
        i += 1;
    }
    let r = collect_chunks(items, config);
    (r, count)
}

/// Encode every visible pixel as a 10-byte binary command and split the
/// result into chunks; also reports how many pixels were visible.
pub fn get_binary_encoded(frame: &Frame, config: &ImageConfig) -> (r: (Command, usize))
    requires
        frame.wf(),
        config.valid(),
        frame.width + config.x_offset <= 65536,
        frame.height + config.y_offset <= 65536,
    ensures
        r.1 == visible_count(*frame),
        r.0@.len() == config.chunks,
        !config.shuffle ==> r.0.deep_view() == partitioned(
            binary_cmds(*frame, *config),
            config.chunks as int,
        ),
        config.shuffle ==> exists|s: Seq<Seq<u8>>|
            s.to_multiset() == binary_cmds(*frame, *config).to_multiset() && r.0.deep_view()
                == partitioned(s, config.chunks as int),
{
    let w = frame.width;
    let h = frame.height;
    let len = frame.data.len();
    proof {
        assert((w as int) * (h as int) <= len || (w as int) * (h as int) == 0) by (nonlinear_arith)
            requires
                len == 4 * ((w as int) * (h as int)),
        ;
    }
    let total: usize = (w as usize) * (h as usize);
    let mut items: Vec<Vec<u8>> = Vec::new();
    let mut count: usize = 0;
    let mut i: usize = 0;
    while i < total
        invariant
            i <= total,
            total == (w as int) * (h as int),
            w == frame.width,
            h == frame.height,
            frame.wf(),
            frame.width + config.x_offset <= 65536,
            frame.height + config.y_offset <= 65536,
            count <= i,
            count == visible_upto(*frame, i as int),
            items.deep_view() == binary_cmds_upto(*frame, *config, i as int),
        decreases total - i,
    {
        proof {
            lemma_row_bound(i as int, w as int, h as int);
        }
        let x = (i % (w as usize)) as u32;
        let y = (i / (w as usize)) as u32;
        let p = frame.get_px(x, y);
        let ghost items_before = items.deep_view();
        if p.a != 0 {
            let v = binary_encode(BinaryFormat::CoordLERGBA, x + config.x_offset, y
                + config.y_offset, p);
            items.push(v);
            count += 1;
            proof {
                assert(items.deep_view() =~~= items_before.push(v@));
            }
        }
        proof {
            assert(items.deep_view() == binary_cmds_upto(*frame, *config, i + 1));
        }
        i += 1;
    }
    let r = collect_chunks(items, config);
    (r, count)
}

// ---------------------------------------------------------------------------
// Offset-dialect encoding: the canvas is split into 10x10 cells, each cell
// gets an `OFFSET` anchor followed by short relative pixel commands.
// ---------------------------------------------------------------------------

/// Number of cell columns: the width in pixels, rounded up to whole cells.
pub open spec fn cells_w(f: Frame) -> int {
    (f.width as int + 9) / 10
}

/// Number of cell rows: the height in pixels, rounded up to whole cells.
pub open spec fn cells_h(f: Frame) -> int {
    (f.height as int + 9) / 10
}

/// The anchor line of a cell: `OFFSET <col*10+ox> <row*10+oy>\n`.
pub open spec fn offset_anchor(cfg: ImageConfig, col: int, row: int) -> Seq<u8> {
    seq![79u8, 70u8, 70u8, 83u8, 69u8, 84u8, 32u8] + dec_digits(col * 10 + cfg.x_offset)
        + seq![32u8] + dec_digits(row * 10 + cfg.y_offset) + seq![10u8]
}

/// The relative pixel commands of cell (col, row) among the first `n` pixels.
pub open spec fn cell_body_upto(f: Frame, cfg: ImageConfig, col: int, row: int, n: int) -> Seq<u8>
    decreases n,
{
    if n <= 0 {
        Seq::empty()
    } else {
        let rest = cell_body_upto(f, cfg, col, row, n - 1);
        let x = (n - 1) % (f.width as int);
        let y = (n - 1) / (f.width as int);
        let p = f.pixel(x, y);
        if p.a != 0 && x / 10 == col && y / 10 == row {
            rest + offset_px_cmd(x, y, colour_hex(p, cfg))
        } else {
            rest
        }
    }
}

/// The full byte text of one cell: its anchor, then its pixel commands.
pub open spec fn cell_content(f: Frame, cfg: ImageConfig, col: int, row: int) -> Seq<u8> {
    offset_anchor(cfg, col, row) + cell_body_upto(f, cfg, col, row, (f.width * f.height) as int)
}

/// Whether cell (col, row) holds at least one visible pixel.
pub open spec fn cell_occupied(f: Frame, cfg: ImageConfig, col: int, row: int) -> bool {
    cell_body_upto(f, cfg, col, row, (f.width * f.height) as int).len() > 0
}

/// The occupied cells among the first `m`, in row-major cell order.
pub open spec fn offset_cells_upto(f: Frame, cfg: ImageConfig, m: int) -> Seq<Seq<u8>>
    decreases m,
{
    if m <= 0 {
        Seq::empty()
    } else {
        let rest = offset_cells_upto(f, cfg, m - 1);
        let col = (m - 1) % cells_w(f);
        let row = (m - 1) / cells_w(f);
        if cell_occupied(f, cfg, col, row) {
            rest.push(cell_content(f, cfg, col, row))
        } else {
            rest
        }
    }
}

/// One draw item per occupied cell, in row-major cell order.
pub open spec fn offset_cells(f: Frame, cfg: ImageConfig) -> Seq<Seq<u8>> {
    offset_cells_upto(f, cfg, cells_w(f) * cells_h(f))
}

/// Build a cell's anchor line.
fn offset_anchor_vec(col: u32, row: u32, config: &ImageConfig) -> (v: Vec<u8>)
    requires
        col * 10 + config.x_offset < 10000,
        row * 10 + config.y_offset < 10000,
    ensures
        v@ == offset_anchor(*config, col as int, row as int),
{
    let mut v: Vec<u8> = Vec::new();
    v.push(79);
    v.push(70);
    v.push(70);
    v.push(83);
    v.push(69);
    v.push(84);
    v.push(32);
    let d = to_decimal(col * 10 + config.x_offset);
    let dv = prefix_to_vec(&d.0, d.1);
    v.extend_from_slice(dv.as_slice());
    v.push(32);
    let d = to_decimal(row * 10 + config.y_offset);
    let dv = prefix_to_vec(&d.0, d.1);
    v.extend_from_slice(dv.as_slice());
    v.push(10);
    proof {
        assert(v@ =~= offset_anchor(*config, col as int, row as int));
    }
    v
}

/// Count the visible pixels of a frame.
pub fn count_visible(frame: &Frame) -> (n: usize)
    requires
        frame.wf(),
    ensures
        n == visible_count(*frame),
{
    let w = frame.width;
    let h = frame.height;
    let len = frame.data.len();
    proof {
        assert((w as int) * (h as int) <= len || (w as int) * (h as int) == 0) by (nonlinear_arith)
            requires
                len == 4 * ((w as int) * (h as int)),
        ;
    }
    let total: usize = (w as usize) * (h as usize);
    let mut count: usize = 0;
    let mut i: usize = 0;
    while i < total
        invariant
            i <= total,
            total == (w as int) * (h as int),
            w == frame.width,
            h == frame.height,
            frame.wf(),
            count <= i,
            count == visible_upto(*frame, i as int),
        decreases total - i,
    {
        proof {
            lemma_row_bound(i as int, w as int, h as int);
        }
        let x = (i % (w as usize)) as u32;
        let y = (i / (w as usize)) as u32;
        let p = frame.get_px(x, y);
        if p.a != 0 {
            count += 1;
        }
        i += 1;
    }
    count
}

/// Encode the frame with `OFFSET` anchors: one draw item per occupied 10x10
/// cell, split into chunks; also reports how many pixels were visible.
pub fn get_offset_encoded(frame: &Frame, config: &ImageConfig) -> (r: (Command, usize))
    requires
        frame.wf(),
        config.valid(),
        frame.width + config.x_offset <= 10000,
        frame.height + config.y_offset <= 10000,
    ensures
        r.1 == visible_count(*frame),
        r.0@.len() == config.chunks,
        !config.shuffle ==> r.0.deep_view() == partitioned(
            offset_cells(*frame, *config),
            config.chunks as int,
        ),
        config.shuffle ==> exists|s: Seq<Seq<u8>>|
            s.to_multiset() == offset_cells(*frame, *config).to_multiset() && r.0.deep_view()
                == partitioned(s, config.chunks as int),
{
    let w = frame.width;
    let h = frame.height;
    let len = frame.data.len();
    proof {
        assert((w as int) * (h as int) <= len || (w as int) * (h as int) == 0) by (nonlinear_arith)
            requires
                len == 4 * ((w as int) * (h as int)),
        ;
    }
    let total: usize = (w as usize) * (h as usize);
    let cw = (w + 9) / 10;
    let ch = (h + 9) / 10;
    proof {
        assert((cw as int) * (ch as int) <= 1001 * 1001) by (nonlinear_arith)
            requires
                0 <= cw as int <= 1001,
                0 <= ch as int <= 1001,
        ;
    }
    let ncells: usize = (cw as usize) * (ch as usize);
    let count = count_visible(frame);
    let mut items: Vec<Vec<u8>> = Vec::new();
    let mut m: usize = 0;
    while m < ncells
        invariant
            m <= ncells,
            ncells == cells_w(*frame) * cells_h(*frame),
            cw == cells_w(*frame),
            ch == cells_h(*frame),
            total == (w as int) * (h as int),
            w == frame.width,
            h == frame.height,
            frame.wf(),
            frame.width + config.x_offset <= 10000,
            frame.height + config.y_offset <= 10000,
            config.valid(),
            items.deep_view() == offset_cells_upto(*frame, *config, m as int),
        decreases ncells - m,
    {
        proof {
            lemma_row_bound(m as int, cw as int, ch as int);
        }
        let col = (m % (cw as usize)) as u32;
        let row = (m / (cw as usize)) as u32;
        proof {
            assert(10 * ((w as int + 9) / 10) <= w + 9);
            assert(col * 10 + config.x_offset < 10000);
            assert(10 * ((h as int + 9) / 10) <= h + 9);
            assert(row * 10 + config.y_offset < 10000);
        }
        let mut cell = offset_anchor_vec(col, row, config);
        let mut cell_px: usize = 0;
        let mut i: usize = 0;
        proof {
            assert(cell@ =~= offset_anchor(*config, col as int, row as int) + cell_body_upto(
                *frame,
                *config,
                col as int,
                row as int,
                0,
            ));
        }
        while i < total
            invariant
                i <= total,
                total == (w as int) * (h as int),
                w == frame.width,
                h == frame.height,
                frame.wf(),
                config.valid(),
                cell_px <= i,
                cell@ == offset_anchor(*config, col as int, row as int) + cell_body_upto(
                    *frame,
                    *config,
                    col as int,
                    row as int,
                    i as int,
                ),
                cell_px == 0 <==> cell_body_upto(
                    *frame,
                    *config,
                    col as int,
                    row as int,
                    i as int,
                ).len() == 0,
            decreases total - i,
        {
            proof {
                lemma_row_bound(i as int, w as int, h as int);
            }
            let x = (i % (w as usize)) as u32;
            let y = (i / (w as usize)) as u32;
            let p = frame.get_px(x, y);
            match get_pixel(p, *config) {
                Some(hex) => {
                    if x / 10 == col && y / 10 == row {
                        let cmd = pixel_to_offset_command(x, y, hex);
                        let cv = prefix_to_vec(&cmd.0, cmd.1);
                        cell.extend_from_slice(cv.as_slice());
                        cell_px += 1;
                        proof {
                            assert(cell@ =~= offset_anchor(*config, col as int, row as int)
                                + cell_body_upto(
                                *frame,
                                *config,
                                col as int,
                                row as int,
                                i + 1,
                            ));
                        }
                    }
                },
                None => {},
            }
            proof {
                assert(cell@ == offset_anchor(*config, col as int, row as int) + cell_body_upto(
                    *frame,
                    *config,
                    col as int,
                    row as int,
                    i + 1,
                ));
            }
            i += 1;
        }
        let ghost items_before = items.deep_view();
        if cell_px > 0 {
            items.push(cell);
            proof {
                assert(items.deep_view() =~~= items_before.push(
                    cell_content(*frame, *config, col as int, row as int),
                ));
            }
        }
        proof {
            assert(items.deep_view() == offset_cells_upto(*frame, *config, m + 1));
        }
        m += 1;
    }
    let r = collect_chunks(items, config);
    (r, count)
}

// ---------------------------------------------------------------------------
// Geometry: an input frame is kept, resized or cropped before encoding.
// ---------------------------------------------------------------------------

/// What the triangle-filter resampler makes of a `sw x sh` RGBA buffer when
/// asked for `w x h`; a function of its arguments alone.
pub uninterp spec fn resized_data(data: Seq<u8>, sw: int, sh: int, w: int, h: int) -> Seq<u8>;

/// Relies on image's imageops::resize with the triangle filter: it returns a
/// buffer of exactly the requested dimensions, and resampling the same bytes
/// twice gives the same result.
#[verifier::external_body]
fn resize_frame(frame: &Frame, w: u32, h: u32) -> (r: Frame)
    requires
        frame.wf(),
    ensures
        r.width == w,
        r.height == h,
        r.wf(),
        r.data@ == resized_data(
            frame.data@,
            frame.width as int,
            frame.height as int,
            w as int,
            h as int,
        ),
{
    let img: image::RgbaImage = image::ImageBuffer::from_raw(
        frame.width,
        frame.height,
        frame.data.clone(),
    ).expect("frame buffer matches its dimensions");
    let resized = image::imageops::resize(&img, w, h, image::imageops::FilterType::Triangle);
    Frame { width: w, height: h, data: resized.into_raw() }
}

/// Crop a frame to its top-left `w x h` pixels.
pub fn crop_frame(frame: &Frame, w: u32, h: u32) -> (g: Frame)
    requires
        frame.wf(),
        w <= frame.width,
        h <= frame.height,
    ensures
        g.wf(),
        g.width == w,
        g.height == h,
        forall|x: int, y: int|
            0 <= x < w && 0 <= y < h ==> g.pixel(x, y) == frame.pixel(x, y),
{
    let mut data: Vec<u8> = Vec::new();
    let mut y: u32 = 0;
    while y < h
        invariant
            y <= h,
            w <= frame.width,
            h <= frame.height,
            frame.wf(),
            data@.len() == 4 * ((y as int) * (w as int)),
            forall|xx: int, yy: int|
                0 <= xx < w && 0 <= yy < y ==> frame_pixel(data@, w as int, xx, yy)
                    == frame.pixel(xx, yy),
        decreases h - y,
    {
        let mut x: u32 = 0;
        while x < w
            invariant
                x <= w,
                y < h,
                w <= frame.width,
                h <= frame.height,
                frame.wf(),
                data@.len() == 4 * ((y as int) * (w as int) + (x as int)),
                forall|xx: int, yy: int|
                    0 <= xx < w && 0 <= yy < y ==> frame_pixel(data@, w as int, xx, yy)
                        == frame.pixel(xx, yy),
                forall|xx: int|
                    0 <= xx < x ==> frame_pixel(data@, w as int, xx, y as int) == frame.pixel(
                        xx,
                        y as int,
                    ),
            decreases w - x,
        {
            let p = frame.get_px(x, y);
            let ghost before = data@;
            data.push(p.r);
            data.push(p.g);
            data.push(p.b);
            data.push(p.a);
            proof {
                assert(data@ =~= before + seq![p.r, p.g, p.b, p.a]);
                assert(before.len() == 4 * ((y as int) * (w as int) + (x as int)));
                assert forall|xx: int, yy: int|
                    0 <= xx < w && (0 <= yy < y || (yy == y && 0 <= xx <= x)) implies frame_pixel(
                    data@,
                    w as int,
                    xx,
                    yy,
                ) == frame.pixel(xx, yy) by {
                    if yy == y as int && xx == x as int {
                        assert(frame_pixel(data@, w as int, xx, yy) == p);
                    } else {
                        assert(yy < y as int || xx < x as int);
                        assert(0 <= yy * (w as int) + xx && yy * (w as int) + xx < (y as int) * (
                        w as int) + (x as int)) by (nonlinear_arith)
                            requires
                                0 <= xx && xx < (w as int),
                                0 <= yy && yy <= (y as int),
                                yy < (y as int) || xx < (x as int),
                        ;
                        assert(frame_pixel(data@, w as int, xx, yy) == frame_pixel(
                            before,
                            w as int,
                            xx,
                            yy,
                        ));
                    }
                }
            }
            x += 1;
        }
        y += 1;
        proof {
            assert((y as int) * (w as int) == (y as int - 1) * (w as int) + (w as int))
                by (nonlinear_arith)
            ;
        }
    }
    let g = Frame { width: w, height: h, data };
    proof {
        assert(g.wf()) by {
            assert(4 * ((h as int) * (w as int)) == 4 * ((w as int) * (h as int)))
                by (nonlinear_arith)
            ;
        }
    }
    g
}

/// The width the geometry step hands to the encoder.
pub open spec fn prepared_w(fw: int, fh: int, cfg: ImageConfig) -> int {
    match (cfg.width, cfg.height) {
        (Some(w), Some(h)) => {
            if (w as int == fw && h as int == fh) || (!cfg.resize && w as int >= fw && h as int
                >= fh) {
                fw
            } else if cfg.resize {
                w as int
            } else if w as int <= fw {
                w as int
            } else {
                fw
            }
        },
        _ => fw,
    }
}

/// The height the geometry step hands to the encoder.
pub open spec fn prepared_h(fw: int, fh: int, cfg: ImageConfig) -> int {
    match (cfg.width, cfg.height) {
        (Some(w), Some(h)) => {
            if (w as int == fw && h as int == fh) || (!cfg.resize && w as int >= fw && h as int
                >= fh) {
                fh
            } else if cfg.resize {
                h as int
            } else if h as int <= fh {
                h as int
            } else {
                fh
            }
        },
        _ => fh,
    }
}

/// How the geometry result `g` relates to an input of width `fw`, height `fh`
/// and pixel bytes `fdata`: unchanged, resampled, or cropped pixel by pixel.
pub open spec fn prepares(fw: int, fh: int, fdata: Seq<u8>, cfg: ImageConfig, g: Frame) -> bool {
    &&& g.wf()
    &&& g.width == prepared_w(fw, fh, cfg)
    &&& g.height == prepared_h(fw, fh, cfg)
    &&& match (cfg.width, cfg.height) {
        (Some(w), Some(h)) => {
            if (w as int == fw && h as int == fh) || (!cfg.resize && w as int >= fw && h as int
                >= fh) {
                g.data@ == fdata
            } else if cfg.resize {
                g.data@ == resized_data(fdata, fw, fh, w as int, h as int)
            } else {
                forall|x: int, y: int|
                    0 <= x < g.width && 0 <= y < g.height ==> g.pixel(x, y) == frame_pixel(
                        fdata,
                        fw,
                        x,
                        y,
                    )
            }
        },
        _ => g.data@ == fdata,
    }
}

/// Apply the geometry step: keep the frame, resample it, or crop it,
/// following the config's target size and resize flag.
pub fn prepare_frame(frame: Frame, config: &ImageConfig) -> (g: Frame)
    requires
        frame.wf(),
    ensures
        prepares(frame.width as int, frame.height as int, frame.data@, *config, g),
{
    let ghost fw = frame.width as int;
    let ghost fh = frame.height as int;
    let ghost fdata = frame.data@;
    if let (Some(w), Some(h)) = (config.width, config.height) {
        if w == frame.width && h == frame.height {
            frame
        } else if !config.resize && w >= frame.width && h >= frame.height {
            frame
        } else if config.resize {
            resize_frame(&frame, w, h)
        } else {
            let cw = if w <= frame.width {
                w
            } else {
                frame.width
            };
            let ch = if h <= frame.height {
                h
            } else {
                frame.height
            };
            crop_frame(&frame, cw, ch)
        }
    } else {
        frame
    }
}

// ---------------------------------------------------------------------------
// The whole encoder pipeline: geometry, dialect selection, chunking.
// ---------------------------------------------------------------------------

/// The draw items of a prepared frame under the config's dialect: binary
/// wins over offset, offset over full.
pub open spec fn encoded_items(g: Frame, cfg: ImageConfig) -> Seq<Seq<u8>> {
    if cfg.binary is Some {
        binary_cmds(g, cfg)
    } else if cfg.offset_usage {
        offset_cells(g, cfg)
    } else {
        full_cmds(g, cfg)
    }
}

/// The coordinate ceiling of the config's dialect: u16 for binary commands,
/// four decimal digits for text commands.
pub open spec fn coord_limit(cfg: ImageConfig) -> int {
    if cfg.binary is Some {
        65536
    } else {
        10000
    }
}

/// Whether a source image of `fw x fh` pixels lands inside the coordinate
/// space of the config's dialect after the geometry step.
pub open spec fn frame_fits(fw: int, fh: int, cfg: ImageConfig) -> bool {
    &&& prepared_w(fw, fh, cfg) + cfg.x_offset <= coord_limit(cfg)
    &&& prepared_h(fw, fh, cfg) + cfg.y_offset <= coord_limit(cfg)
}

/// Compute the dimensions the geometry step will hand to the encoder.
pub fn prepared_dims(fw: u32, fh: u32, config: &ImageConfig) -> (r: (u32, u32))
    ensures
        r.0 == prepared_w(fw as int, fh as int, *config),
        r.1 == prepared_h(fw as int, fh as int, *config),
{
    if let (Some(w), Some(h)) = (config.width, config.height) {
        if w == fw && h == fh {
            (fw, fh)
        } else if !config.resize && w >= fw && h >= fh {
            (fw, fh)
        } else if config.resize {
            (w, h)
        } else {
            (if w <= fw { w } else { fw }, if h <= fh { h } else { fh })
        }
    } else {
        (fw, fh)
    }
}

/// Turn one frame into a chunked stream of draw commands: apply the geometry
/// step, encode every visible pixel in the selected dialect, then shuffle (if
/// asked) and split round-robin into `config.chunks` chunks.
pub fn image_to_commands(frame: Frame, config: &ImageConfig) -> (r: Command)
    requires
        frame.wf(),
        config.valid(),
        frame_fits(frame.width as int, frame.height as int, *config),
    ensures
        r@.len() == config.chunks,
        exists|g: Frame|
            {
                &&& #[trigger] prepares(
                    frame.width as int,
                    frame.height as int,
                    frame.data@,
                    *config,
                    g,
                )
                &&& (!config.shuffle ==> r.deep_view() == partitioned(
                    encoded_items(g, *config),
                    config.chunks as int,
                ))
                &&& (config.shuffle ==> exists|s: Seq<Seq<u8>>|
                    s.to_multiset() == encoded_items(g, *config).to_multiset() && r.deep_view()
                        == partitioned(s, config.chunks as int))
            },
{
    let ghost fw = frame.width as int;
    let ghost fh = frame.height as int;
    let ghost fdata = frame.data@;
    let g = prepare_frame(frame, config);
    let r = if config.binary.is_some() {
        get_binary_encoded(&g, config).0
    } else if config.offset_usage {
        get_offset_encoded(&g, config).0
    } else {
        get_full_encoded(&g, config).0
    };
    proof {
        assert(prepares(fw, fh, fdata, *config, g) && (!config.shuffle ==> r.deep_view()
            == partitioned(encoded_items(g, *config), config.chunks as int)) && (config.shuffle
            ==> exists|s: Seq<Seq<u8>>|
            s.to_multiset() == encoded_items(g, *config).to_multiset() && r.deep_view()
                == partitioned(s, config.chunks as int)));
    }
    r
}

// ---------------------------------------------------------------------------
// Loading frames from encoded image bytes.
// ---------------------------------------------------------------------------

/// The encoded image formats the loader accepts, matching the codecs that
/// are compiled in.
#[derive(Clone, Copy, PartialEq, Eq, Structural, Debug)]
pub enum FrameFormat {
    Bmp,
    Png,
    Jpeg,
}

/// What the BMP decoder makes of a byte stream: nothing, or a width, height
/// and RGBA buffer; a function of the bytes alone.
pub uninterp spec fn bmp_frame_of(bytes: Seq<u8>) -> Option<(nat, nat, Seq<u8>)>;

/// What the PNG decoder makes of a byte stream; a function of the bytes alone.
pub uninterp spec fn png_frame_of(bytes: Seq<u8>) -> Option<(nat, nat, Seq<u8>)>;

/// What the JPEG decoder makes of a byte stream; a function of the bytes alone.
pub uninterp spec fn jpeg_frame_of(bytes: Seq<u8>) -> Option<(nat, nat, Seq<u8>)>;

/// What the decoder for the given format makes of a byte stream.
pub open spec fn decoded_frame(bytes: Seq<u8>, format: FrameFormat) -> Option<(nat, nat, Seq<u8>)> {
    match format {
        FrameFormat::Bmp => bmp_frame_of(bytes),
        FrameFormat::Png => png_frame_of(bytes),
        FrameFormat::Jpeg => jpeg_frame_of(bytes),
    }
}

#[verifier::external_type_specification]
#[verifier::external_body]
pub struct ExImageError(image::ImageError);

/// Relies on image's load_from_memory_with_format with the BMP decoder:
/// whether and what it decodes depends on the bytes alone, and `to_rgba8`
/// lays the pixels out as RGBA rows matching the image's dimensions.
#[verifier::external_body]
fn decode_bmp(bytes: &Vec<u8>) -> (r: Result<Frame, image::ImageError>)
    ensures
        r is Ok <==> bmp_frame_of(bytes@) is Some,
        r matches Ok(f) ==> {
            let t = bmp_frame_of(bytes@)->Some_0;
            &&& f.wf()
            &&& f.width as int == t.0 as int
            &&& f.height as int == t.1 as int
            &&& f.data@ == t.2
        },
{
    let img = image::load_from_memory_with_format(bytes, image::ImageFormat::Bmp)?.to_rgba8();
    Ok(Frame { width: img.width(), height: img.height(), data: img.into_raw() })
}

/// Relies on image's load_from_memory_with_format with the PNG decoder, as
/// the BMP one above.
#[verifier::external_body]
fn decode_png(bytes: &Vec<u8>) -> (r: Result<Frame, image::ImageError>)
    ensures
        r is Ok <==> png_frame_of(bytes@) is Some,
        r matches Ok(f) ==> {
            let t = png_frame_of(bytes@)->Some_0;
            &&& f.wf()
            &&& f.width as int == t.0 as int
            &&& f.height as int == t.1 as int
            &&& f.data@ == t.2
        },
{
    let img = image::load_from_memory_with_format(bytes, image::ImageFormat::Png)?.to_rgba8();
    Ok(Frame { width: img.width(), height: img.height(), data: img.into_raw() })
}

/// Relies on image's load_from_memory_with_format with the JPEG decoder, as
/// the BMP one above.
#[verifier::external_body]
fn decode_jpeg(bytes: &Vec<u8>) -> (r: Result<Frame, image::ImageError>)
    ensures
        r is Ok <==> jpeg_frame_of(bytes@) is Some,
        r matches Ok(f) ==> {
            let t = jpeg_frame_of(bytes@)->Some_0;
            &&& f.wf()
            &&& f.width as int == t.0 as int
            &&& f.height as int == t.1 as int
            &&& f.data@ == t.2
        },
{
    let img = image::load_from_memory_with_format(bytes, image::ImageFormat::Jpeg)?.to_rgba8();
    Ok(Frame { width: img.width(), height: img.height(), data: img.into_raw() })
}

/// Decode one image of the given format into a frame.
fn decode_frame(bytes: &Vec<u8>, format: FrameFormat) -> (r: Result<Frame, image::ImageError>)
    ensures
        r is Ok <==> decoded_frame(bytes@, format) is Some,
        r matches Ok(f) ==> {
            let t = decoded_frame(bytes@, format)->Some_0;
            &&& f.wf()
            &&& f.width as int == t.0 as int
            &&& f.height as int == t.1 as int
            &&& f.data@ == t.2
        },
{
    match format {
        FrameFormat::Bmp => decode_bmp(bytes),
        FrameFormat::Png => decode_png(bytes),
        FrameFormat::Jpeg => decode_jpeg(bytes),
    }
}

/// Why a byte stream yielded no commands.
#[derive(Clone, Copy, PartialEq, Eq, Structural, Debug)]
pub enum LoadError {
    /// The bytes were not a decodable image.
    Undecodable,
    /// The decoded image would not fit the dialect's coordinate space.
    TooLarge,
}

/// Decode one image of the given format from memory and encode it as draw
/// commands.
pub fn load_from_memory(input: &Vec<u8>, config: &ImageConfig, format: FrameFormat) -> (r: Result<
    Command,
    LoadError,
>)
    requires
        config.valid(),
    ensures
        r == Err::<Command, LoadError>(LoadError::Undecodable) <==> decoded_frame(input@, format)
            is None,
        r is Ok <==> (decoded_frame(input@, format) matches Some(t) && frame_fits(
            t.0 as int,
            t.1 as int,
            *config,
        )),
        r matches Ok(cmd) ==> {
            let t = decoded_frame(input@, format)->Some_0;
            &&& cmd@.len() == config.chunks
            &&& exists|g: Frame|
                {
                    &&& #[trigger] prepares(t.0 as int, t.1 as int, t.2, *config, g)
                    &&& (!config.shuffle ==> cmd.deep_view() == partitioned(
                        encoded_items(g, *config),
                        config.chunks as int,
                    ))
                    &&& (config.shuffle ==> exists|s: Seq<Seq<u8>>|
                        s.to_multiset() == encoded_items(g, *config).to_multiset()
                            && cmd.deep_view() == partitioned(s, config.chunks as int))
                }
        },
{
    match decode_frame(input, format) {
        Ok(f) => {
            let dims = prepared_dims(f.width, f.height, config);
            let limit: u64 = if config.binary.is_some() {
                65536
            } else {
                10000
            };
            if (dims.0 as u64) + (config.x_offset as u64) <= limit && (dims.1 as u64)
                + (config.y_offset as u64) <= limit {
                let ghost fw = f.width as int;
                let ghost fh = f.height as int;
                let cmd = image_to_commands(f, config);
                Ok(cmd)
            } else {
                Err(LoadError::TooLarge)
            }
        },
        Err(_) => Err(LoadError::Undecodable),
    }
}

// ---------------------------------------------------------------------------
// Laws of the encoder.
// ---------------------------------------------------------------------------

proof fn lemma_totality_upto(f: Frame, cfg: ImageConfig, n: int)
    ensures
        full_cmds_upto(f, cfg, n).len() == visible_upto(f, n),
        binary_cmds_upto(f, cfg, n).len() == visible_upto(f, n),
    decreases n,
{
    if n > 0 {
        lemma_totality_upto(f, cfg, n - 1);
    }
}

/// Encoder totality: in the full and binary dialects there is exactly one
/// draw command per visible pixel; fully transparent pixels produce none.
pub proof fn lemma_encoder_totality(f: Frame, cfg: ImageConfig)
    ensures
        full_cmds(f, cfg).len() == visible_count(f),
        binary_cmds(f, cfg).len() == visible_count(f),
{
    lemma_totality_upto(f, cfg, (f.width * f.height) as int);
}

/// Alpha policy: with `alpha_usage` off the colour text is never eight
/// digits; with it on, a pixel with full alpha still gets the short form and
/// only partial alpha gets eight digits.
pub proof fn lemma_alpha_policy(p: Px, cfg: ImageConfig)
    ensures
        !cfg.alpha_usage ==> colour_hex(p, cfg).len() == 2 || colour_hex(p, cfg).len() == 6,
        cfg.alpha_usage && p.a == 255 ==> colour_hex(p, cfg).len() == 2 || colour_hex(p, cfg).len()
            == 6,
        cfg.alpha_usage && p.a != 255 ==> colour_hex(p, cfg).len() == 8,
{
}

/// Gray policy: a fully opaque pixel with equal channels and `gray_usage` on
/// is rendered as exactly the two lowercase hex digits of its gray value.
pub proof fn lemma_gray_policy(p: Px, cfg: ImageConfig)
    requires
        cfg.gray_usage,
        p.r == p.g,
        p.g == p.b,
        p.a == 255,
    ensures
        colour_hex(p, cfg) == hex_pair(p.r),
        colour_hex(p, cfg).len() == 2,
{
}

/// Union of the multisets of items routed (out of the first `n`) to the
/// first `j` chunks.
pub open spec fn routed_union(s: Seq<Seq<u8>>, k: int, n: int, j: int) -> Multiset<Seq<u8>>
    decreases j,
{
    if j <= 0 {
        Multiset::empty()
    } else {
        routed_union(s, k, n, j - 1).add(routed_upto(s, k, j - 1, n).to_multiset())
    }
}

proof fn lemma_routed_union_empty(s: Seq<Seq<u8>>, k: int, j: int)
    ensures
        routed_union(s, k, 0, j) =~= Multiset::empty(),
    decreases j,
{
    if j > 0 {
        lemma_routed_union_empty(s, k, j - 1);
        routed_upto(s, k, j - 1, 0).to_multiset_ensures();
        assert(routed_upto(s, k, j - 1, 0).to_multiset() =~= Multiset::empty());
    }
}

proof fn lemma_routed_union_step(s: Seq<Seq<u8>>, k: int, n: int, j: int)
    requires
        k >= 1,
        0 <= n,
    ensures
        routed_union(s, k, n + 1, j) =~= if n % k < j {
            routed_union(s, k, n, j).insert(s[n])
        } else {
            routed_union(s, k, n, j)
        },
    decreases j,
{
    broadcast use vstd::seq_lib::group_to_multiset_ensures;

    if j > 0 {
        lemma_routed_union_step(s, k, n, j - 1);
        if n % k == j - 1 {
            assert(routed_upto(s, k, j - 1, n + 1) == routed_upto(s, k, j - 1, n).push(s[n]));
            assert(routed_upto(s, k, j - 1, n).push(s[n]).to_multiset() =~= routed_upto(
                s,
                k,
                j - 1,
                n,
            ).to_multiset().insert(s[n]));
        } else {
            assert(routed_upto(s, k, j - 1, n + 1) == routed_upto(s, k, j - 1, n));
        }
    }
}

proof fn lemma_routed_union_all(s: Seq<Seq<u8>>, k: int, n: int)
    requires
        k >= 1,
        0 <= n <= s.len(),
    ensures
        routed_union(s, k, n, k) =~= s.take(n).to_multiset(),
    decreases n,
{
    broadcast use vstd::seq_lib::group_to_multiset_ensures;

    if n == 0 {
        lemma_routed_union_empty(s, k, k);
        s.take(0).to_multiset_ensures();
        assert(s.take(0) =~= Seq::<Seq<u8>>::empty());
        assert(s.take(0).to_multiset() =~= Multiset::empty());
    } else {
        lemma_routed_union_all(s, k, n - 1);
        lemma_routed_union_step(s, k, n - 1, k);
        assert(0 <= (n - 1) % k < k);
        assert(s.take(n) =~= s.take(n - 1).push(s[n - 1]));
        assert(s.take(n - 1).push(s[n - 1]).to_multiset() =~= s.take(n - 1).to_multiset().insert(
            s[n - 1],
        ));
    }
}

proof fn lemma_routed_identity(s: Seq<Seq<u8>>, n: int)
    requires
        0 <= n <= s.len(),
    ensures
        routed_upto(s, 1, 0, n) == s.take(n),
    decreases n,
{
    if n > 0 {
        lemma_routed_identity(s, n - 1);
        assert(s.take(n) =~= s.take(n - 1).push(s[n - 1]));
    }
}

/// Chunk partition: the output has exactly `k` chunks; chunk `j` is the
/// concatenation of the items routed to it; the items of all chunks together
/// are a permutation of the input items; and a single-chunk partition is the
/// plain concatenation of everything.
pub proof fn lemma_chunk_partition(s: Seq<Seq<u8>>, k: int)
    requires
        k >= 1,
    ensures
        partitioned(s, k).len() == k,
        forall|j: int| 0 <= j < k ==> partitioned(s, k)[j] == routed(s, k, j).flatten(),
        routed_union(s, k, s.len() as int, k) == s.to_multiset(),
        partitioned(s, 1)[0] == s.flatten(),
{
    lemma_routed_union_all(s, k, s.len() as int);
    assert(s.take(s.len() as int) =~= s);
    lemma_routed_identity(s, s.len() as int);
}

proof fn lemma_pixel_congruence_upto(g1: Frame, g2: Frame, cfg: ImageConfig, n: int)
    requires
        g1.width == g2.width,
        g1.height == g2.height,
        n <= (g1.width * g1.height) as int,
        forall|x: int, y: int|
            0 <= x < g1.width && 0 <= y < g1.height ==> g1.pixel(x, y) == g2.pixel(x, y),
    ensures
        full_cmds_upto(g1, cfg, n) == full_cmds_upto(g2, cfg, n),
        binary_cmds_upto(g1, cfg, n) == binary_cmds_upto(g2, cfg, n),
        visible_upto(g1, n) == visible_upto(g2, n),
    decreases n,
{
    if n > 0 {
        lemma_pixel_congruence_upto(g1, g2, cfg, n - 1);
        lemma_row_bound(n - 1, g1.width as int, g1.height as int);
    }
}

proof fn lemma_cell_body_congruence(g1: Frame, g2: Frame, cfg: ImageConfig, col: int, row: int, n: int)
    requires
        g1.width == g2.width,
        g1.height == g2.height,
        n <= (g1.width * g1.height) as int,
        forall|x: int, y: int|
            0 <= x < g1.width && 0 <= y < g1.height ==> g1.pixel(x, y) == g2.pixel(x, y),
    ensures
        cell_body_upto(g1, cfg, col, row, n) == cell_body_upto(g2, cfg, col, row, n),
    decreases n,
{
    if n > 0 {
        lemma_cell_body_congruence(g1, g2, cfg, col, row, n - 1);
        lemma_row_bound(n - 1, g1.width as int, g1.height as int);
    }
}

proof fn lemma_cells_congruence(g1: Frame, g2: Frame, cfg: ImageConfig, m: int)
    requires
        g1.width == g2.width,
        g1.height == g2.height,
        forall|x: int, y: int|
            0 <= x < g1.width && 0 <= y < g1.height ==> g1.pixel(x, y) == g2.pixel(x, y),
    ensures
        offset_cells_upto(g1, cfg, m) == offset_cells_upto(g2, cfg, m),
    decreases m,
{
    if m > 0 {
        lemma_cells_congruence(g1, g2, cfg, m - 1);
        let cw = cells_w(g1);
        lemma_cell_body_congruence(
            g1,
            g2,
            cfg,
            (m - 1) % cw,
            (m - 1) / cw,
            (g1.width * g1.height) as int,
        );
    }
}

/// Two frames of the same dimensions whose pixels agree encode identically
/// in every dialect.
pub proof fn lemma_encode_congruence(g1: Frame, g2: Frame, cfg: ImageConfig)
    requires
        g1.width == g2.width,
        g1.height == g2.height,
        forall|x: int, y: int|
            0 <= x < g1.width && 0 <= y < g1.height ==> g1.pixel(x, y) == g2.pixel(x, y),
    ensures
        encoded_items(g1, cfg) == encoded_items(g2, cfg),
        visible_count(g1) == visible_count(g2),
{
    lemma_pixel_congruence_upto(g1, g2, cfg, (g1.width * g1.height) as int);
    lemma_cells_congruence(g1, g2, cfg, cells_w(g1) * cells_h(g1));
}

/// Shuffle idempotence: with shuffling off, the geometry step and the
/// encoder pin the output completely, so two encodings of the same frame
/// under the same config are byte-identical.
pub proof fn lemma_shuffle_idempotence(
    f: Frame,
    cfg: ImageConfig,
    g1: Frame,
    g2: Frame,
    r1: Seq<Seq<u8>>,
    r2: Seq<Seq<u8>>,
)
    requires
        !cfg.shuffle,
        prepares(f.width as int, f.height as int, f.data@, cfg, g1),
        prepares(f.width as int, f.height as int, f.data@, cfg, g2),
        r1 == partitioned(encoded_items(g1, cfg), cfg.chunks as int),
        r2 == partitioned(encoded_items(g2, cfg), cfg.chunks as int),
    ensures
        r1 == r2,
{
    assert forall|x: int, y: int|
        0 <= x < g1.width && 0 <= y < g1.height implies g1.pixel(x, y) == g2.pixel(x, y) by {
        match (cfg.width, cfg.height) {
            (Some(w), Some(h)) => {
                if (w as int == f.width as int && h as int == f.height as int) || (!cfg.resize
                    && w as int >= f.width as int && h as int >= f.height as int) {
                    assert(g1.data@ == g2.data@);
                } else if cfg.resize {
                    assert(g1.data@ == g2.data@);
                } else {
                    assert(g1.pixel(x, y) == frame_pixel(f.data@, f.width as int, x, y));
                    assert(g2.pixel(x, y) == frame_pixel(f.data@, f.width as int, x, y));
                }
            },
            _ => {
                assert(g1.data@ == g2.data@);
            },
        }
    }
    lemma_encode_congruence(g1, g2, cfg);
}

} // verus!

//! The layout of a TIFF file: its directory, its blocks of pixels and where they stand.

use crate::bytes::{
    all32, bytes32, le16, le32, lemma_all32, lemma_read16, lemma_read32, push_bytes, push_u16,
    push_u32, read16, read32,
};
use crate::error::{fails_with, is_invalid, ErrorView, Result, RustySatError};
use crate::geo_keys::{TIFFTAG_GEO_ASCII_PARAMS, TIFFTAG_GEO_DOUBLE_PARAMS};
use crate::text::join2;
use flate2::write::DeflateEncoder;
use flate2::Compression;
use std::io::Write;
use vstd::prelude::*;

verus! {

pub const TIFF_MAGIC: u16 = 42;

/// Where the directory of the file stands.
pub const IFD_OFFSET: u32 = 8;

pub const TAG_IMAGE_WIDTH: u16 = 256;

pub const TAG_IMAGE_LENGTH: u16 = 257;

pub const TAG_BITS_PER_SAMPLE: u16 = 258;

pub const TAG_COMPRESSION: u16 = 259;

pub const TAG_PHOTOMETRIC_INTERPRETATION: u16 = 262;

pub const TAG_STRIP_OFFSETS: u16 = 273;

pub const TAG_SAMPLES_PER_PIXEL: u16 = 277;

pub const TAG_ROWS_PER_STRIP: u16 = 278;

pub const TAG_STRIP_BYTE_COUNTS: u16 = 279;

pub const TAG_TILE_WIDTH: u16 = 322;

pub const TAG_TILE_LENGTH: u16 = 323;

pub const TAG_TILE_OFFSETS: u16 = 324;

pub const TAG_TILE_BYTE_COUNTS: u16 = 325;

pub const TAG_SAMPLE_FORMAT: u16 = 339;

pub const TAG_MODEL_PIXEL_SCALE: u16 = 33550;

pub const TAG_MODEL_TIEPOINT: u16 = 33922;

pub const TAG_GEO_KEY_DIRECTORY: u16 = 34735;

pub const TYPE_ASCII: u16 = 2;

pub const TYPE_SHORT: u16 = 3;

pub const TYPE_LONG: u16 = 4;

pub const TYPE_DOUBLE: u16 = 12;

pub const COMPRESSION_NONE: u16 = 1;

pub const COMPRESSION_DEFLATE: u16 = 32946;

pub const PHOTOMETRIC_BLACK_IS_ZERO: u16 = 1;

/// How the blocks of pixels are compressed.
#[derive(Clone, Copy, Debug, PartialEq, Eq, Structural)]
pub enum TiffCompression {
    Uncompressed,
    Deflate,
}

/// The size of the tiles of a file.
#[derive(Clone, Copy, Debug, PartialEq, Eq, Structural)]
pub struct TiffTileOptions {
    pub width: usize,
    pub height: usize,
}

impl Default for TiffTileOptions {
    fn default() -> (r: Self)
        ensures
            r == (TiffTileOptions { width: 256, height: 256 }),
    {
        TiffTileOptions { width: 256, height: 256 }
    }
}

/// The number of tiles along an axis.
pub open spec fn tiles_along(size: int, tile: int) -> int {
    (size + tile - 1) / tile
}

/// The sizes of an image, of its tiles and of a pixel.
pub struct TileShape {
    pub width: int,
    pub height: int,
    pub tile_width: int,
    pub tile_height: int,
    pub pixel: int,
}

/// The byte `k` of a tile. Tiles reach beyond the image; what lies there is zero.
pub open spec fn tile_byte(pixels: Seq<u8>, s: TileShape, ty: int, tx: int, k: int) -> u8 {
    let y = ty * s.tile_height + k / s.pixel / s.tile_width;
    let x = tx * s.tile_width + k / s.pixel % s.tile_width;
    if y < s.height && x < s.width {
        pixels[(y * s.width + x) * s.pixel + k % s.pixel]
    } else {
        0
    }
}

/// The bytes of a tile.
pub open spec fn tile_block(pixels: Seq<u8>, s: TileShape, ty: int, tx: int) -> Seq<u8> {
    Seq::new(
        (s.tile_width * s.tile_height * s.pixel) as nat,
        |k: int| tile_byte(pixels, s, ty, tx, k),
    )
}

/// The tiles of an image, row by row. Without a size there is one block.
pub open spec fn tile_blocks(pixels: Seq<u8>, s: TileShape) -> Seq<Seq<u8>> {
    if s.tile_width == 0 || s.tile_height == 0 {
        seq![pixels]
    } else {
        let across = tiles_along(s.width, s.tile_width);
        Seq::new(
            (across * tiles_along(s.height, s.tile_height)) as nat,
            |t: int| tile_block(pixels, s, t / across, t % across),
        )
    }
}

/// Blocks as a mathematical value.
pub open spec fn blocks_view(blocks: Seq<Vec<u8>>) -> Seq<Seq<u8>> {
    Seq::new(blocks.len(), |i: int| blocks[i]@)
}

/// The parts of a position in a tile are in range.
proof fn lemma_tile_position(k: int, tile_width: int, tile_height: int, pixel: int)
    requires
        0 <= k < tile_width * tile_height * pixel,
        tile_width > 0,
        tile_height > 0,
        pixel > 0,
    ensures
        0 <= k / pixel < tile_width * tile_height,
        0 <= k % pixel < pixel,
        0 <= k / pixel % tile_width < tile_width,
        0 <= k / pixel / tile_width < tile_height,
{
    vstd::arithmetic::div_mod::lemma_fundamental_div_mod(k, pixel);
    let p = k / pixel;
    assert(0 <= p < tile_width * tile_height) by (nonlinear_arith)
        requires
            k == pixel * p + k % pixel,
            0 <= k % pixel < pixel,
            0 <= k < tile_width * tile_height * pixel,
            pixel > 0,
    ;
    vstd::arithmetic::div_mod::lemma_fundamental_div_mod(p, tile_width);
    assert(0 <= p / tile_width < tile_height) by (nonlinear_arith)
        requires
            p == tile_width * (p / tile_width) + p % tile_width,
            0 <= p % tile_width < tile_width,
            0 <= p < tile_width * tile_height,
            tile_width > 0,
    ;
}

/// The number of tiles along an axis covers the axis.
pub proof fn lemma_tiles_along(size: int, tile: int)
    requires
        size > 0,
        tile > 0,
    ensures
        0 < tiles_along(size, tile) <= size,
        (tiles_along(size, tile) - 1) * tile < size <= tiles_along(size, tile) * tile,
{
    let n = tiles_along(size, tile);
    vstd::arithmetic::div_mod::lemma_fundamental_div_mod(size + tile - 1, tile);
    assert((n - 1) * tile < size <= n * tile && 0 < n <= size) by (nonlinear_arith)
        requires
            size + tile - 1 == tile * n + (size + tile - 1) % tile,
            0 <= (size + tile - 1) % tile < tile,
            size > 0,
            tile > 0,
    ;
}

fn count_tiles(size: usize, tile: usize) -> (r: usize)
    requires
        size > 0,
        tile > 0,
    ensures
        r == tiles_along(size as int, tile as int),
        0 < r <= size,
{
    let n: usize = (size - 1) / tile + 1;
    proof {
        lemma_tiles_along(size as int, tile as int);
        vstd::arithmetic::div_mod::lemma_fundamental_div_mod(size - 1, tile as int);
        let q = (size - 1) / (tile as int);
        let m = (size - 1) % (tile as int);
        let t = tiles_along(size as int, tile as int);
        assert(q + 1 == t && q + 1 <= size) by (nonlinear_arith)
            requires
                size - 1 == tile * q + m,
                0 <= m < tile,
                (t - 1) * tile < size <= t * tile,
                size > 0,
                tile > 0,
        ;
    }
    n
}

/// One tile of an image.
fn build_tile(
    pixels: &Vec<u8>,
    width: usize,
    height: usize,
    tile_width: usize,
    tile_height: usize,
    pixel: usize,
    ty: usize,
    tx: usize,
) -> (r: Vec<u8>)
    requires
        tile_width > 0,
        tile_height > 0,
        pixel > 0,
        width > 0,
        height > 0,
        tile_width * tile_height * pixel <= usize::MAX,
        pixels@.len() == (width * height) * pixel,
        pixels@.len() <= usize::MAX,
        ty < tiles_along(height as int, tile_height as int),
        tx < tiles_along(width as int, tile_width as int),
    ensures
        r@ == tile_block(
            pixels@,
            TileShape {
                width: width as int,
                height: height as int,
                tile_width: tile_width as int,
                tile_height: tile_height as int,
                pixel: pixel as int,
            },
            ty as int,
            tx as int,
        ),
{
    let ghost s = TileShape {
        width: width as int,
        height: height as int,
        tile_width: tile_width as int,
        tile_height: tile_height as int,
        pixel: pixel as int,
    };
    proof {
        lemma_tiles_along(height as int, tile_height as int);
        lemma_tiles_along(width as int, tile_width as int);
        assert(ty * tile_height < height) by (nonlinear_arith)
            requires
                ty <= tiles_along(height as int, tile_height as int) - 1,
                (tiles_along(height as int, tile_height as int) - 1) * tile_height < height,
                tile_height > 0,
        ;
        assert(tx * tile_width < width) by (nonlinear_arith)
            requires
                tx <= tiles_along(width as int, tile_width as int) - 1,
                (tiles_along(width as int, tile_width as int) - 1) * tile_width < width,
                tile_width > 0,
        ;
        assert(tile_width * tile_height <= tile_width * tile_height * pixel && 0 <= tile_width
            * tile_height) by (nonlinear_arith)
            requires
                pixel > 0,
                tile_width > 0,
                tile_height > 0,
        ;
        assert(0 <= ty * tile_height && 0 <= tx * tile_width) by (nonlinear_arith);
    }
    let y_start: usize = ty * tile_height;
    let x_start: usize = tx * tile_width;
    let rows: usize = height - y_start;
    let columns: usize = width - x_start;
    let area: usize = tile_width * tile_height;
    let size: usize = area * pixel;
    let mut tile: Vec<u8> = Vec::new();
    let mut k: usize = 0;
    while k < size
        invariant
            k <= size,
            size == tile_width * tile_height * pixel,
            tile_width > 0,
            tile_height > 0,
            pixel > 0,
            width > 0,
            height > 0,
            pixels@.len() == (width * height) * pixel,
            pixels@.len() <= usize::MAX,
            y_start == ty * tile_height,
            x_start == tx * tile_width,
            y_start < height,
            x_start < width,
            rows == height - y_start,
            columns == width - x_start,
            s == (TileShape {
                width: width as int,
                height: height as int,
                tile_width: tile_width as int,
                tile_height: tile_height as int,
                pixel: pixel as int,
            }),
            tile@.len() == k,
            forall|j: int|
                0 <= j < k ==> tile@[j] == tile_byte(pixels@, s, ty as int, tx as int, j),
        decreases size - k,
    {
        proof {
            lemma_tile_position(
                k as int,
                tile_width as int,
                tile_height as int,
                pixel as int,
            );
        }
        let p: usize = k / pixel;
        let b: usize = k % pixel;
        let local_y: usize = p / tile_width;
        let local_x: usize = p % tile_width;
        if local_y < rows && local_x < columns {
            let y: usize = y_start + local_y;
            let x: usize = x_start + local_x;
            proof {
                lemma_pixel_bytes(y as int, x as int, b as int, s, pixels@.len() as int);
            }
            tile.push(pixels[(y * width + x) * pixel + b]);
        } else {
            tile.push(0);
        }
        k = k + 1;
    }
    assert(tile@ =~= tile_block(pixels@, s, ty as int, tx as int));
    tile
}

/// The bytes of a pixel lie among those of the image.
proof fn lemma_pixel_bytes(y: int, x: int, b: int, s: TileShape, len: int)
    requires
        0 <= y < s.height,
        0 <= x < s.width,
        0 <= b < s.pixel,
        len == (s.width * s.height) * s.pixel,
    ensures
        0 <= y * s.width <= y * s.width + x <= (y * s.width + x) * s.pixel,
        0 <= (y * s.width + x) * s.pixel + b < len,
{
    let w = s.width;
    let h = s.height;
    let n = s.pixel;
    assert(0 <= y * w && y * w + x < w * h) by (nonlinear_arith)
        requires
            0 <= y < h,
            0 <= x < w,
    ;
    let i = y * w + x;
    assert(i <= i * n && i * n + b < (w * h) * n) by (nonlinear_arith)
        requires
            0 <= i < w * h,
            0 <= b < n,
    ;
}

/// Cuts an image into tiles.
pub fn build_tile_blocks(
    pixels: &Vec<u8>,
    width: usize,
    height: usize,
    tile_width: usize,
    tile_height: usize,
    pixel: usize,
) -> (r: Vec<Vec<u8>>)
    requires
        pixel > 0,
        width > 0,
        height > 0,
        tile_width * tile_height * pixel <= usize::MAX,
        pixels@.len() == (width * height) * pixel,
    ensures
        blocks_view(r@) == tile_blocks(
            pixels@,
            TileShape {
                width: width as int,
                height: height as int,
                tile_width: tile_width as int,
                tile_height: tile_height as int,
                pixel: pixel as int,
            },
        ),
{
    let ghost s = TileShape {
        width: width as int,
        height: height as int,
        tile_width: tile_width as int,
        tile_height: tile_height as int,
        pixel: pixel as int,
    };
    let total: usize = pixels.len();
    let mut blocks: Vec<Vec<u8>> = Vec::new();
    if tile_width == 0 || tile_height == 0 {
        let mut block: Vec<u8> = Vec::new();
        push_bytes(&mut block, pixels);
        assert(block@ =~= pixels@);
        blocks.push(block);
        assert(blocks_view(blocks@) =~= tile_blocks(pixels@, s));
        return blocks;
    }
    let across: usize = count_tiles(width, tile_width);
    let down: usize = count_tiles(height, tile_height);
    proof {
        assert(0 <= across * down <= width * height <= (width * height) * pixel)
            by (nonlinear_arith)
            requires
                0 <= across <= width,
                0 <= down <= height,
                pixel > 0,
        ;
    }
    let count: usize = across * down;
    let mut t: usize = 0;
    while t < count
        invariant
            t <= count,
            count == across * down,
            across > 0,
            across == tiles_along(width as int, tile_width as int),
            down == tiles_along(height as int, tile_height as int),
            tile_width > 0,
            tile_height > 0,
            pixel > 0,
            width > 0,
            height > 0,
            tile_width * tile_height * pixel <= usize::MAX,
            pixels@.len() == (width * height) * pixel,
            pixels@.len() <= usize::MAX,
            s == (TileShape {
                width: width as int,
                height: height as int,
                tile_width: tile_width as int,
                tile_height: tile_height as int,
                pixel: pixel as int,
            }),
            blocks@.len() == t,
            forall|j: int|
                0 <= j < t ==> (#[trigger] blocks@[j])@ == tile_block(
                    pixels@,
                    s,
                    j / (across as int),
                    j % (across as int),
                ),
        decreases count - t,
    {
        proof {
            vstd::arithmetic::div_mod::lemma_fundamental_div_mod(t as int, across as int);
            let q = (t as int) / (across as int);
            let m = (t as int) % (across as int);
            assert(q < down) by (nonlinear_arith)
                requires
                    t == across * q + m,
                    0 <= m < across,
                    t < across * down,
            ;
        }
        let block = build_tile(
            pixels,
            width,
            height,
            tile_width,
            tile_height,
            pixel,
            t / across,
            t % across,
        );
        blocks.push(block);
        t = t + 1;
    }
    assert(blocks_view(blocks@) =~= tile_blocks(pixels@, s));
    blocks
}

/// Each pixel of an image is found in its tile: byte `b` of the pixel at row `y` and
/// column `x` stands in the tile over it, at the place of the pixel in the tile.
pub proof fn lemma_pixel_in_tile(pixels: Seq<u8>, s: TileShape, y: int, x: int, b: int)
    requires
        s.tile_width > 0,
        s.tile_height > 0,
        0 <= y < s.height,
        0 <= x < s.width,
        0 <= b < s.pixel,
    ensures
        ({
            let across = tiles_along(s.width, s.tile_width);
            let t = y / s.tile_height * across + x / s.tile_width;
            let k = (y % s.tile_height * s.tile_width + x % s.tile_width) * s.pixel + b;
            &&& 0 <= t < tile_blocks(pixels, s).len()
            &&& 0 <= k < tile_blocks(pixels, s)[t].len()
            &&& tile_blocks(pixels, s)[t][k] == pixels[(y * s.width + x) * s.pixel + b]
        }),
{
    let tw = s.tile_width;
    let th = s.tile_height;
    let n = s.pixel;
    let across = tiles_along(s.width, tw);
    let down = tiles_along(s.height, th);
    let ty = y / th;
    let tx = x / tw;
    let ly = y % th;
    let lx = x % tw;
    let t = ty * across + tx;
    let p = ly * tw + lx;
    let k = p * n + b;
    lemma_tiles_along(s.width, tw);
    lemma_tiles_along(s.height, th);
    vstd::arithmetic::div_mod::lemma_fundamental_div_mod(y, th);
    vstd::arithmetic::div_mod::lemma_fundamental_div_mod(x, tw);
    assert(0 <= ty < down) by (nonlinear_arith)
        requires
            y == th * ty + ly,
            0 <= ly < th,
            0 <= y < s.height,
            s.height <= down * th,
    ;
    assert(0 <= tx < across) by (nonlinear_arith)
        requires
            x == tw * tx + lx,
            0 <= lx < tw,
            0 <= x < s.width,
            s.width <= across * tw,
    ;
    assert(0 <= t < across * down) by (nonlinear_arith)
        requires
            t == ty * across + tx,
            0 <= ty < down,
            0 <= tx < across,
    ;
    assert(0 <= p < tw * th) by (nonlinear_arith)
        requires
            p == ly * tw + lx,
            0 <= ly < th,
            0 <= lx < tw,
    ;
    assert(0 <= k < tw * th * n) by (nonlinear_arith)
        requires
            k == p * n + b,
            0 <= p < tw * th,
            0 <= b < n,
    ;
    vstd::arithmetic::div_mod::lemma_fundamental_div_mod_converse(t, across, ty, tx);
    vstd::arithmetic::div_mod::lemma_fundamental_div_mod_converse(k, n, p, b);
    vstd::arithmetic::div_mod::lemma_fundamental_div_mod_converse(p, tw, ly, lx);
    assert(ty * th + ly == y && tx * tw + lx == x) by (nonlinear_arith)
        requires
            y == th * ty + ly,
            x == tw * tx + lx,
    ;
}

/// What `flate2` makes of bytes at its default level of compression, as a raw stream
/// without a header, or the text of its error.
pub uninterp spec fn deflated(data: Seq<u8>) -> core::result::Result<Seq<u8>, Seq<char>>;

/// What `flate2` reads from a raw stream: the bytes that the stream was made of.
pub uninterp spec fn inflated(stream: Seq<u8>) -> Seq<u8>;

/// A compressed block, or the text of the error, as mathematical values.
pub open spec fn deflate_view(r: core::result::Result<Vec<u8>, String>) -> core::result::Result<
    Seq<u8>,
    Seq<char>,
> {
    match r {
        Ok(v) => Ok(v@),
        Err(e) => Err(e@),
    }
}

/// `flate2::write::DeflateEncoder` over a `Vec` at the default level: writes the bytes
/// and finishes the stream. The stream is a function of the bytes, and
/// `flate2::read::DeflateDecoder` reads the bytes back from it; how it looks, and that it
/// is smaller than the bytes, is not said.
#[verifier::external_body]
pub(crate) fn deflate(data: &Vec<u8>) -> (r: core::result::Result<Vec<u8>, String>)
    ensures
        deflate_view(r) == deflated(data@),
        r is Ok ==> inflated(r->Ok_0@) == data@,
{
    let mut encoder = DeflateEncoder::new(Vec::new(), Compression::default());
    match encoder.write_all(data.as_slice()) {
        Ok(()) => match encoder.finish() {
            Ok(out) => Ok(out),
            Err(err) => Err(err.to_string()),
        },
        Err(err) => Err(err.to_string()),
    }
}

/// The blocks in compressed form, or the first obstacle.
pub open spec fn compressed(blocks: Seq<Seq<u8>>) -> core::result::Result<
    Seq<Seq<u8>>,
    Seq<char>,
>
    decreases blocks.len(),
{
    if blocks.len() == 0 {
        Ok(Seq::empty())
    } else {
        match compressed(blocks.drop_last()) {
            Err(e) => Err(e),
            Ok(before) => match deflated(blocks.last()) {
                Err(e) => Err(e),
                Ok(block) => Ok(before.push(block)),
            },
        }
    }
}

/// The blocks as they stand in the file.
pub open spec fn stored(compression: TiffCompression, blocks: Seq<Seq<u8>>) -> core::result::Result<
    Seq<Seq<u8>>,
    Seq<char>,
> {
    match compression {
        TiffCompression::Uncompressed => Ok(blocks),
        TiffCompression::Deflate => compressed(blocks),
    }
}

proof fn lemma_compressed_error(blocks: Seq<Seq<u8>>, n: int)
    requires
        0 <= n <= blocks.len(),
        compressed(blocks.take(n)) is Err,
    ensures
        compressed(blocks) == compressed(blocks.take(n)),
    decreases blocks.len() - n,
{
    if n < blocks.len() {
        assert(blocks.take(n + 1).drop_last() =~= blocks.take(n));
        lemma_compressed_error(blocks, n + 1);
    } else {
        assert(blocks.take(n) =~= blocks);
    }
}

/// There are as many blocks behind the compression as before it.
pub proof fn lemma_stored_count(compression: TiffCompression, blocks: Seq<Seq<u8>>)
    ensures
        stored(compression, blocks) is Ok ==> stored(compression, blocks)->Ok_0.len()
            == blocks.len(),
{
    lemma_compressed_count(blocks);
}

proof fn lemma_compressed_count(blocks: Seq<Seq<u8>>)
    ensures
        compressed(blocks) is Ok ==> compressed(blocks)->Ok_0.len() == blocks.len(),
    decreases blocks.len(),
{
    if blocks.len() > 0 {
        lemma_compressed_count(blocks.drop_last());
    }
}

/// Whether blocks as they stand in a file are read back as the blocks of the image.
pub open spec fn read_back_as(
    compression: TiffCompression,
    written: Seq<Seq<u8>>,
    blocks: Seq<Seq<u8>>,
) -> bool {
    &&& written.len() == blocks.len()
    &&& forall|i: int|
        0 <= i < blocks.len() ==> unpacked(compression, #[trigger] written[i]) == blocks[i]
}

/// A block of a file without its compression.
pub open spec fn unpacked(compression: TiffCompression, block: Seq<u8>) -> Seq<u8> {
    match compression {
        TiffCompression::Uncompressed => block,
        TiffCompression::Deflate => inflated(block),
    }
}

/// Compresses the blocks where that is asked for.
pub fn compress_blocks(blocks: Vec<Vec<u8>>, compression: TiffCompression) -> (r: Result<
    Vec<Vec<u8>>,
>)
    ensures
        match stored(compression, blocks_view(blocks@)) {
            Err(e) => is_invalid(r, "DEFLATE compression failed: "@ + e),
            Ok(out) => r is Ok && blocks_view(r->Ok_0@) == out && read_back_as(
                compression,
                out,
                blocks_view(blocks@),
            ),
        },
{
    match compression {
        TiffCompression::Uncompressed => {
            return Ok(blocks);
        },
        TiffCompression::Deflate => {},
    }
    let ghost all = blocks_view(blocks@);
    let mut out: Vec<Vec<u8>> = Vec::new();
    let mut i: usize = 0;
    proof {
        assert(all.take(0) =~= Seq::empty());
        assert(blocks_view(out@) =~= Seq::empty());
    }
    while i < blocks.len()
        invariant
            i <= blocks@.len(),
            all == blocks_view(blocks@),
            compression == TiffCompression::Deflate,
            compressed(all.take(i as int)) == core::result::Result::<
                Seq<Seq<u8>>,
                Seq<char>,
            >::Ok(blocks_view(out@)),
            out@.len() == i,
            forall|j: int| 0 <= j < i ==> inflated(#[trigger] out@[j]@) == all[j],
        decreases blocks@.len() - i,
    {
        proof {
            assert(all.take(i + 1).drop_last() =~= all.take(i as int));
            assert(all.take(i + 1).last() == all[i as int]);
        }
        match deflate(&blocks[i]) {
            Ok(block) => {
                let ghost before = blocks_view(out@);
                out.push(block);
                assert(blocks_view(out@) =~= before.push(block@));
            },
            Err(e) => {
                proof {
                    lemma_compressed_error(all, i + 1);
                }
                let text = join2("DEFLATE compression failed: ", e.as_str());
                return Err(RustySatError::invalid_input(text.as_str()));
            },
        }
        i = i + 1;
    }
    proof {
        assert(all.take(all.len() as int) =~= all);
        assert forall|j: int| 0 <= j < all.len() implies unpacked(
            compression,
            #[trigger] blocks_view(out@)[j],
        ) == all[j] by {
            assert(inflated(out@[j]@) == all[j]);
        }
    }
    Ok(out)
}

/// An entry of the directory with a short value.
pub open spec fn short_entry(tag: u16, value: u16) -> Seq<u8> {
    le16(tag) + le16(TYPE_SHORT) + le32(1) + le16(value) + le16(0)
}

/// An entry of the directory with a long value.
pub open spec fn long_entry(tag: u16, value: u32) -> Seq<u8> {
    le16(tag) + le16(TYPE_LONG) + le32(1) + le32(value)
}

/// An entry of the directory whose values stand elsewhere.
pub open spec fn offset_entry(tag: u16, field_type: u16, count: u32, offset: u32) -> Seq<u8> {
    le16(tag) + le16(field_type) + le32(count) + le32(offset)
}

/// Parts, one behind the other.
pub open spec fn joined(parts: Seq<Seq<u8>>) -> Seq<u8>
    decreases parts.len(),
{
    if parts.len() == 0 {
        Seq::empty()
    } else {
        joined(parts.drop_last()) + parts.last()
    }
}

/// One more part stands behind the others.
proof fn lemma_joined_push(parts: Seq<Seq<u8>>, part: Seq<u8>)
    ensures
        joined(parts.push(part)) == joined(parts) + part,
{
    assert(parts.push(part).drop_last() =~= parts);
}

/// A part stands behind those before it.
pub proof fn lemma_joined_at(parts: Seq<Seq<u8>>, i: int)
    requires
        0 <= i < parts.len(),
    ensures
        joined(parts.take(i)).len() + parts[i].len() <= joined(parts).len(),
        joined(parts).subrange(
            joined(parts.take(i)).len() as int,
            (joined(parts.take(i)).len() + parts[i].len()) as int,
        ) == parts[i],
    decreases parts.len(),
{
    let last = parts.len() - 1;
    if i == last {
        assert(parts.take(i) =~= parts.drop_last());
        assert(joined(parts).subrange(
            joined(parts.take(i)).len() as int,
            (joined(parts.take(i)).len() + parts[i].len()) as int,
        ) =~= parts[i]);
    } else {
        let before = parts.drop_last();
        lemma_joined_at(before, i);
        assert(before.take(i) =~= parts.take(i));
        let a = joined(parts.take(i)).len() as int;
        assert(joined(parts).subrange(a, a + parts[i].len()) =~= joined(before).subrange(
            a,
            a + parts[i].len(),
        ));
    }
}

/// Parts of one size.
proof fn lemma_joined_size(parts: Seq<Seq<u8>>, n: nat)
    requires
        forall|i: int| 0 <= i < parts.len() ==> (#[trigger] parts[i]).len() == n,
    ensures
        joined(parts).len() == parts.len() * n,
    decreases parts.len(),
{
    if parts.len() > 0 {
        lemma_joined_size(parts.drop_last(), n);
        let m = parts.len();
        assert(m * n == (m - 1) * n + n) by (nonlinear_arith);
    } else {
        assert(0 * n == 0) by (nonlinear_arith);
    }
}

/// The data that tie an image to the earth, as mathematical values.
pub struct ExtraView {
    pub pixel_scale: Seq<u8>,
    pub tiepoint: Seq<u8>,
    pub directory: Seq<u8>,
    pub ascii: Seq<u8>,
    pub doubles: Seq<u8>,
}

/// The data that tie an image to the earth.
#[derive(Clone, Debug, PartialEq)]
pub struct GeoTiffExtraData {
    pub pixel_scale: Vec<u8>,
    pub tiepoint: Vec<u8>,
    pub geo_key_directory: Vec<u8>,
    pub geo_ascii_params: Vec<u8>,
    pub geo_double_params: Vec<u8>,
}

impl View for GeoTiffExtraData {
    type V = ExtraView;

    open spec fn view(&self) -> ExtraView {
        ExtraView {
            pixel_scale: self.pixel_scale@,
            tiepoint: self.tiepoint@,
            directory: self.geo_key_directory@,
            ascii: self.geo_ascii_params@,
            doubles: self.geo_double_params@,
        }
    }
}

/// The data one behind the other.
pub open spec fn extra_bytes(e: ExtraView) -> Seq<u8> {
    e.pixel_scale + e.tiepoint + e.directory + e.ascii + e.doubles
}

/// The entries of the directory for the data, which stand from `offset` on.
pub open spec fn extra_entries(e: ExtraView, offset: int) -> Seq<Seq<u8>> {
    let tiepoint = offset + e.pixel_scale.len();
    let directory = tiepoint + e.tiepoint.len();
    let ascii = directory + e.directory.len();
    let doubles = ascii + e.ascii.len();
    let first = seq![
        offset_entry(TAG_MODEL_PIXEL_SCALE, TYPE_DOUBLE, 3, offset as u32),
        offset_entry(TAG_MODEL_TIEPOINT, TYPE_DOUBLE, 6, tiepoint as u32),
        offset_entry(
            TAG_GEO_KEY_DIRECTORY,
            TYPE_SHORT,
            (e.directory.len() / 2) as u32,
            directory as u32,
        ),
        offset_entry(TIFFTAG_GEO_ASCII_PARAMS, TYPE_ASCII, e.ascii.len() as u32, ascii as u32),
    ];
    if e.doubles.len() > 0 {
        first.push(
            offset_entry(
                TIFFTAG_GEO_DOUBLE_PARAMS,
                TYPE_DOUBLE,
                (e.doubles.len() / 8) as u32,
                doubles as u32,
            ),
        )
    } else {
        first
    }
}

/// The number of entries of the directory.
pub open spec fn entry_total(tiles: Option<TiffTileOptions>, extra: Option<ExtraView>) -> int {
    (if tiles is Some {
        11int
    } else {
        10int
    }) + match extra {
        Some(e) => if e.doubles.len() > 0 {
            5int
        } else {
            4int
        },
        None => 0int,
    }
}

/// The end of the directory.
pub open spec fn directory_end(tiles: Option<TiffTileOptions>, extra: Option<ExtraView>) -> int {
    IFD_OFFSET + 2 + 12 * entry_total(tiles, extra) + 4
}

/// The number of bytes before the blocks.
pub open spec fn front_size(tiles: Option<TiffTileOptions>, extra: Option<ExtraView>) -> int {
    directory_end(tiles, extra) + match extra {
        Some(e) => extra_bytes(e).len() as int,
        None => 0int,
    }
}

/// What a file is made of. The blocks are as they stand in the file.
pub struct TiffPlan {
    pub width: u32,
    pub height: u32,
    pub bits_per_sample: u16,
    pub sample_format: u16,
    pub compression: u16,
    pub tiles: Option<TiffTileOptions>,
    pub extra: Option<ExtraView>,
    pub blocks: Seq<Seq<u8>>,
}

impl TiffPlan {
    /// The number of entries of the directory.
    pub open spec fn entry_count(self) -> int {
        entry_total(self.tiles, self.extra)
    }

    /// Where the data that tie the image to the earth stand: behind the directory.
    pub open spec fn extra_offset(self) -> int {
        directory_end(self.tiles, self.extra)
    }

    /// Where the first block stands.
    pub open spec fn pixel_offset(self) -> int {
        front_size(self.tiles, self.extra)
    }

    /// Where the block `i` stands.
    pub open spec fn block_offset(self, i: int) -> int {
        self.pixel_offset() + joined(self.blocks.take(i)).len()
    }

    /// The end of the blocks.
    pub open spec fn blocks_end(self) -> int {
        self.pixel_offset() + joined(self.blocks).len()
    }

    /// The places of the blocks.
    pub open spec fn offsets(self) -> Seq<u32> {
        Seq::new(self.blocks.len(), |i: int| self.block_offset(i) as u32)
    }

    /// The sizes of the blocks.
    pub open spec fn counts(self) -> Seq<u32> {
        Seq::new(self.blocks.len(), |i: int| self.blocks[i].len() as u32)
    }

    /// The entries of the directory that every file has.
    pub open spec fn first_entries(self) -> Seq<Seq<u8>> {
        seq![
            long_entry(TAG_IMAGE_WIDTH, self.width),
            long_entry(TAG_IMAGE_LENGTH, self.height),
            short_entry(TAG_BITS_PER_SAMPLE, self.bits_per_sample),
            short_entry(TAG_COMPRESSION, self.compression),
            short_entry(TAG_PHOTOMETRIC_INTERPRETATION, PHOTOMETRIC_BLACK_IS_ZERO),
        ]
    }

    /// The entries of the directory for the blocks. The places and the sizes of tiles
    /// stand behind the blocks.
    pub open spec fn block_entries(self) -> Seq<Seq<u8>> {
        match self.tiles {
            Some(t) => seq![
                long_entry(TAG_TILE_WIDTH, ((t.width as u64) % 0x1_0000_0000) as u32),
                long_entry(TAG_TILE_LENGTH, ((t.height as u64) % 0x1_0000_0000) as u32),
                offset_entry(
                    TAG_TILE_OFFSETS,
                    TYPE_LONG,
                    self.blocks.len() as u32,
                    self.blocks_end() as u32,
                ),
                offset_entry(
                    TAG_TILE_BYTE_COUNTS,
                    TYPE_LONG,
                    self.blocks.len() as u32,
                    (self.blocks_end() + 4 * self.blocks.len()) as u32,
                ),
                short_entry(TAG_SAMPLES_PER_PIXEL, 1),
                short_entry(TAG_SAMPLE_FORMAT, self.sample_format),
            ],
            None => seq![
                long_entry(TAG_STRIP_OFFSETS, self.pixel_offset() as u32),
                short_entry(TAG_SAMPLES_PER_PIXEL, 1),
                long_entry(TAG_ROWS_PER_STRIP, self.height),
                long_entry(TAG_STRIP_BYTE_COUNTS, self.blocks[0].len() as u32),
                short_entry(TAG_SAMPLE_FORMAT, self.sample_format),
            ],
        }
    }

    /// The entries of the directory.
    pub open spec fn entries(self) -> Seq<Seq<u8>> {
        self.first_entries() + self.block_entries() + match self.extra {
            Some(e) => extra_entries(e, self.extra_offset()),
            None => Seq::empty(),
        }
    }

    /// The bytes before the entries.
    pub open spec fn head(self) -> Seq<u8> {
        seq![73u8, 73u8] + le16(TIFF_MAGIC) + le32(IFD_OFFSET) + le16(self.entry_count() as u16)
    }

    /// The bytes before the blocks.
    pub open spec fn front(self) -> Seq<u8> {
        self.head() + joined(self.entries()) + le32(0) + match self.extra {
            Some(e) => extra_bytes(e),
            None => Seq::empty(),
        }
    }

    /// The bytes behind the blocks.
    pub open spec fn tail(self) -> Seq<u8> {
        match self.tiles {
            Some(_) => all32(self.offsets()) + all32(self.counts()),
            None => Seq::empty(),
        }
    }

    /// The bytes of the file.
    pub open spec fn file(self) -> Seq<u8> {
        self.front() + joined(self.blocks) + self.tail()
    }

    /// The obstacle that keeps the first `n` blocks from being placed, if there is one.
    pub open spec fn block_error(self, n: nat) -> Option<ErrorView>
        decreases n,
    {
        if n == 0 {
            None
        } else if self.block_error((n - 1) as nat) is Some {
            self.block_error((n - 1) as nat)
        } else if self.blocks[n - 1].len() > u32::MAX {
            Some(ErrorView::InvalidInput("TIFF block byte count overflow"@))
        } else if self.block_offset(n - 1) + self.blocks[n - 1].len() > u32::MAX {
            Some(ErrorView::InvalidInput("float TIFF block offset overflow"@))
        } else {
            None
        }
    }

    /// The first obstacle that keeps the parts from being placed, if there is one.
    pub open spec fn error(self) -> Option<ErrorView> {
        if self.pixel_offset() > u32::MAX {
            Some(ErrorView::InvalidInput("float TIFF pixel offset overflow"@))
        } else if self.block_error(self.blocks.len()) is Some {
            self.block_error(self.blocks.len())
        } else if self.tiles is Some && 4 * self.blocks.len() > u32::MAX {
            Some(ErrorView::InvalidInput("TIFF tile offsets overflow"@))
        } else if self.tiles is Some && self.blocks_end() + 4 * self.blocks.len() > u32::MAX {
            Some(ErrorView::InvalidInput("float TIFF tile offsets overflow"@))
        } else if self.tiles is Some && self.blocks_end() + 8 * self.blocks.len() > u32::MAX {
            Some(ErrorView::InvalidInput("float TIFF tile byte counts overflow"@))
        } else {
            None
        }
    }
}

/// The entries take twelve bytes each, and there are as many as the directory says.
pub proof fn lemma_entries(p: TiffPlan)
    ensures
        p.entries().len() == p.entry_count(),
        forall|i: int| 0 <= i < p.entries().len() ==> (#[trigger] p.entries()[i]).len() == 12,
        p.front().len() == p.pixel_offset(),
{
    let entries = p.entries();
    assert forall|i: int| 0 <= i < entries.len() implies (#[trigger] entries[i]).len() == 12 by {
        let a = p.first_entries();
        let b = p.block_entries();
        if i < a.len() {
            assert(entries[i] == a[i]);
        } else if i < a.len() + b.len() {
            assert(entries[i] == b[i - a.len()]);
        } else {
            let c = extra_entries(p.extra->Some_0, p.extra_offset());
            assert(entries[i] == c[i - a.len() - b.len()]);
        }
    }
    lemma_joined_size(entries, 12);
}

/// The directory of a file stands where its head says, and the entry `i` of it twelve
/// bytes behind the one before it.
pub proof fn lemma_directory_of_file(p: TiffPlan, i: int)
    requires
        0 <= i < p.entry_count(),
    ensures
        p.file().subrange(0, 2) == seq![73u8, 73u8],
        p.file().subrange(2, 4) == le16(TIFF_MAGIC),
        p.file().subrange(4, 8) == le32(IFD_OFFSET),
        p.file().subrange(8, 10) == le16(p.entry_count() as u16),
        p.file().len() >= 10 + 12 * p.entry_count(),
        p.file().subrange(10 + 12 * i, 22 + 12 * i) == p.entries()[i],
{
    lemma_entries(p);
    let entries = p.entries();
    lemma_joined_size(entries, 12);
    lemma_joined_size(entries.take(i), 12);
    lemma_joined_at(entries, i);
    let f = p.file();
    assert(p.head().len() == 10);
    assert(f.subrange(0, 2) =~= seq![73u8, 73u8]);
    assert(f.subrange(2, 4) =~= le16(TIFF_MAGIC));
    assert(f.subrange(4, 8) =~= le32(IFD_OFFSET));
    assert(f.subrange(8, 10) =~= le16(p.entry_count() as u16));
    assert(f.subrange(10 + 12 * i, 22 + 12 * i) =~= joined(entries).subrange(12 * i, 12 * i + 12));
}

/// Each block stands in the file at its place. The place of the only block of a file
/// without tiles is that of the entry for strips; the places of tiles are listed behind
/// the blocks, and their sizes behind these.
pub proof fn lemma_block_in_file(p: TiffPlan, i: int)
    requires
        0 <= i < p.blocks.len(),
    ensures
        p.block_offset(i) + p.blocks[i].len() <= p.file().len(),
        p.file().subrange(p.block_offset(i), p.block_offset(i) + p.blocks[i].len())
            == p.blocks[i],
        p.tiles is Some ==> {
            let at = p.blocks_end() + 4 * i;
            let size = p.blocks_end() + 4 * p.blocks.len() + 4 * i;
            &&& size + 4 <= p.file().len()
            &&& p.file().subrange(at, at + 4) == le32(p.block_offset(i) as u32)
            &&& p.file().subrange(size, size + 4) == le32(p.blocks[i].len() as u32)
        },
{
    lemma_entries(p);
    lemma_joined_at(p.blocks, i);
    let f = p.file();
    let a = joined(p.blocks.take(i)).len() as int;
    let n = p.blocks[i].len() as int;
    assert(f.subrange(p.block_offset(i), p.block_offset(i) + n) =~= joined(p.blocks).subrange(
        a,
        a + n,
    ));
    if p.tiles is Some {
        lemma_all32(p.offsets());
        lemma_all32(p.counts());
        let at = p.blocks_end() + 4 * i;
        let size = p.blocks_end() + 4 * p.blocks.len() + 4 * i;
        assert(p.offsets()[i] == p.block_offset(i) as u32);
        assert(p.counts()[i] == p.blocks[i].len() as u32);
        assert(f.subrange(at, at + 4) =~= all32(p.offsets()).subrange(4 * i, 4 * i + 4));
        assert(f.subrange(size, size + 4) =~= all32(p.counts()).subrange(4 * i, 4 * i + 4));
    }
}

/// The blocks do not overlap: each begins where the one before it ends.
pub proof fn lemma_blocks_adjoin(p: TiffPlan, i: int)
    requires
        0 <= i < p.blocks.len(),
    ensures
        p.block_offset(0) == p.pixel_offset(),
        p.block_offset(i + 1) == p.block_offset(i) + p.blocks[i].len(),
        p.block_offset(p.blocks.len() as int) == p.blocks_end(),
{
    assert(p.blocks.take(0) =~= Seq::empty());
    assert(p.blocks.take(i + 1).drop_last() =~= p.blocks.take(i));
    assert(p.blocks.take(p.blocks.len() as int) =~= p.blocks);
}

/// A directory under construction.
struct Directory {
    bytes: Vec<u8>,
    entries: Ghost<Seq<Seq<u8>>>,
    start: Ghost<Seq<u8>>,
}

impl Directory {
    spec fn ok(self) -> bool {
        self.bytes@ == self.start@ + joined(self.entries@)
    }

    fn begin(start: Vec<u8>) -> (r: Self)
        ensures
            r.ok(),
            r.entries@ == Seq::<Seq<u8>>::empty(),
            r.start@ == start@,
    {
        let ghost none = Seq::<Seq<u8>>::empty();
        let ghost first = start@;
        assert(first + joined(none) =~= first);
        Directory { bytes: start, entries: Ghost(none), start: Ghost(first) }
    }

    fn short(&mut self, tag: u16, value: u16)
        requires
            old(self).ok(),
        ensures
            final(self).ok(),
            final(self).entries@ == old(self).entries@.push(short_entry(tag, value)),
            final(self).start@ == old(self).start@,
    {
        let ghost before = self.bytes@;
        push_u16(&mut self.bytes, tag);
        push_u16(&mut self.bytes, TYPE_SHORT);
        push_u32(&mut self.bytes, 1);
        push_u16(&mut self.bytes, value);
        push_u16(&mut self.bytes, 0);
        proof {
            lemma_joined_push(self.entries@, short_entry(tag, value));
            assert(self.bytes@ =~= before + short_entry(tag, value));
            assert(self.bytes@ =~= self.start@ + (joined(self.entries@) + short_entry(tag, value)));
        }
        self.entries = Ghost(self.entries@.push(short_entry(tag, value)));
    }

    fn offset(&mut self, tag: u16, field_type: u16, count: u32, offset: u32)
        requires
            old(self).ok(),
        ensures
            final(self).ok(),
            final(self).entries@ == old(self).entries@.push(
                offset_entry(tag, field_type, count, offset),
            ),
            final(self).start@ == old(self).start@,
    {
        let ghost before = self.bytes@;
        let ghost entry = offset_entry(tag, field_type, count, offset);
        push_u16(&mut self.bytes, tag);
        push_u16(&mut self.bytes, field_type);
        push_u32(&mut self.bytes, count);
        push_u32(&mut self.bytes, offset);
        proof {
            lemma_joined_push(self.entries@, entry);
            assert(self.bytes@ =~= before + entry);
            assert(self.bytes@ =~= self.start@ + (joined(self.entries@) + entry));
        }
        self.entries = Ghost(self.entries@.push(entry));
    }

    fn long(&mut self, tag: u16, value: u32)
        requires
            old(self).ok(),
        ensures
            final(self).ok(),
            final(self).entries@ == old(self).entries@.push(long_entry(tag, value)),
            final(self).start@ == old(self).start@,
    {
        self.offset(tag, TYPE_LONG, 1, value);
    }
}

/// What a file is made of. The blocks are as they stand in the file.
pub struct TiffParts {
    pub width: u32,
    pub height: u32,
    pub bits_per_sample: u16,
    pub sample_format: u16,
    pub compression: TiffCompression,
    pub tiles: Option<TiffTileOptions>,
    pub extra: Option<GeoTiffExtraData>,
    pub blocks: Vec<Vec<u8>>,
}

/// The number that names a compression in a file.
pub open spec fn compression_code(compression: TiffCompression) -> u16 {
    match compression {
        TiffCompression::Uncompressed => COMPRESSION_NONE,
        TiffCompression::Deflate => COMPRESSION_DEFLATE,
    }
}

/// The data that tie an image to the earth, where there are any.
pub open spec fn extra_view(extra: Option<GeoTiffExtraData>) -> Option<ExtraView> {
    match extra {
        Some(e) => Some(e@),
        None => None,
    }
}

impl View for TiffParts {
    type V = TiffPlan;

    open spec fn view(&self) -> TiffPlan {
        TiffPlan {
            width: self.width,
            height: self.height,
            bits_per_sample: self.bits_per_sample,
            sample_format: self.sample_format,
            compression: compression_code(self.compression),
            tiles: self.tiles,
            extra: extra_view(self.extra),
            blocks: blocks_view(self.blocks@),
        }
    }
}

/// An obstacle to the first blocks is one to all.
proof fn lemma_block_error(p: TiffPlan, n: nat, m: nat)
    requires
        n <= m,
        p.block_error(n) is Some,
    ensures
        p.block_error(m) == p.block_error(n),
    decreases m - n,
{
    if n < m {
        lemma_block_error(p, n, (m - 1) as nat);
    }
}

/// Places the blocks: their offsets, and their end.
fn place_blocks(parts: &TiffParts, pixel_offset: u32) -> (r: Result<(Vec<u32>, u32)>)
    requires
        pixel_offset == parts@.pixel_offset(),
    ensures
        match parts@.block_error(parts@.blocks.len()) {
            Some(e) => fails_with(r, e),
            None => r is Ok && r->Ok_0.0@ == parts@.offsets() && r->Ok_0.1 == parts@.blocks_end(),
        },
{
    let ghost p = parts@;
    let mut offsets: Vec<u32> = Vec::new();
    let mut current: u32 = pixel_offset;
    let mut i: usize = 0;
    assert(p.blocks.take(0) =~= Seq::empty());
    while i < parts.blocks.len()
        invariant
            i <= parts.blocks@.len(),
            p == parts@,
            p.block_error(i as nat) is None,
            current == p.block_offset(i as int),
            offsets@.len() == i,
            forall|j: int| 0 <= j < i ==> offsets@[j] == p.block_offset(j) as u32,
        decreases parts.blocks@.len() - i,
    {
        let size: usize = parts.blocks[i].len();
        proof {
            assert(p.blocks[i as int].len() == size);
            lemma_blocks_adjoin(p, i as int);
        }
        offsets.push(current);
        if size as u64 > 0xffff_ffff {
            proof {
                lemma_block_error(p, (i + 1) as nat, p.blocks.len());
            }
            return Err(RustySatError::invalid_input("TIFF block byte count overflow"));
        }
        match current.checked_add(size as u32) {
            Some(next) => {
                current = next;
            },
            None => {
                proof {
                    lemma_block_error(p, (i + 1) as nat, p.blocks.len());
                }
                return Err(RustySatError::invalid_input("float TIFF block offset overflow"));
            },
        }
        i = i + 1;
    }
    proof {
        assert(p.blocks.take(p.blocks.len() as int) =~= p.blocks);
        assert(offsets@ =~= p.offsets());
    }
    Ok((offsets, current))
}

fn block_sizes(blocks: &Vec<Vec<u8>>, Ghost(p): Ghost<TiffPlan>) -> (r: Vec<u32>)
    requires
        p.blocks == blocks_view(blocks@),
        p.block_error(p.blocks.len()) is None,
    ensures
        r@ == p.counts(),
{
    let mut out: Vec<u32> = Vec::new();
    let mut i: usize = 0;
    while i < blocks.len()
        invariant
            i <= blocks@.len(),
            p.blocks == blocks_view(blocks@),
            p.block_error(p.blocks.len()) is None,
            out@.len() == i,
            forall|j: int| 0 <= j < i ==> out@[j] == p.counts()[j],
        decreases blocks@.len() - i,
    {
        let size: usize = blocks[i].len();
        proof {
            assert(p.blocks[i as int].len() == size);
            if p.block_error((i + 1) as nat) is Some {
                lemma_block_error(p, (i + 1) as nat, p.blocks.len());
            }
        }
        out.push(size as u32);
        i = i + 1;
    }
    assert(out@ =~= p.counts());
    out
}

/// Appends the entries for the data that tie the image to the earth.
fn push_extra_entries(directory: &mut Directory, extra: &GeoTiffExtraData, offset: u32)
    requires
        old(directory).ok(),
        offset + extra_bytes(extra@).len() <= u32::MAX,
    ensures
        final(directory).ok(),
        final(directory).entries@ == old(directory).entries@ + extra_entries(
            extra@,
            offset as int,
        ),
        final(directory).start@ == old(directory).start@,
{
    let ghost before = directory.entries@;
    let tiepoint: u32 = offset + extra.pixel_scale.len() as u32;
    let keys: u32 = tiepoint + extra.tiepoint.len() as u32;
    let ascii: u32 = keys + extra.geo_key_directory.len() as u32;
    let doubles: u32 = ascii + extra.geo_ascii_params.len() as u32;
    directory.offset(TAG_MODEL_PIXEL_SCALE, TYPE_DOUBLE, 3, offset);
    directory.offset(TAG_MODEL_TIEPOINT, TYPE_DOUBLE, 6, tiepoint);
    directory.offset(
        TAG_GEO_KEY_DIRECTORY,
        TYPE_SHORT,
        (extra.geo_key_directory.len() / 2) as u32,
        keys,
    );
    directory.offset(
        TIFFTAG_GEO_ASCII_PARAMS,
        TYPE_ASCII,
        extra.geo_ascii_params.len() as u32,
        ascii,
    );
    if extra.geo_double_params.len() > 0 {
        directory.offset(
            TIFFTAG_GEO_DOUBLE_PARAMS,
            TYPE_DOUBLE,
            (extra.geo_double_params.len() / 8) as u32,
            doubles,
        );
    }
    assert(directory.entries@ =~= before + extra_entries(extra@, offset as int));
}

/// Appends the data that tie the image to the earth.
fn push_extra_bytes(out: &mut Vec<u8>, extra: &GeoTiffExtraData)
    ensures
        final(out)@ == old(out)@ + extra_bytes(extra@),
{
    push_bytes(out, &extra.pixel_scale);
    push_bytes(out, &extra.tiepoint);
    push_bytes(out, &extra.geo_key_directory);
    push_bytes(out, &extra.geo_ascii_params);
    push_bytes(out, &extra.geo_double_params);
    assert(out@ =~= old(out)@ + extra_bytes(extra@));
}

/// Appends blocks.
fn push_blocks(out: &mut Vec<u8>, blocks: &Vec<Vec<u8>>)
    ensures
        final(out)@ == old(out)@ + joined(blocks_view(blocks@)),
{
    let ghost start = out@;
    let ghost all = blocks_view(blocks@);
    let mut i: usize = 0;
    assert(all.take(0) =~= Seq::empty());
    assert(start + joined(all.take(0)) =~= start);
    while i < blocks.len()
        invariant
            i <= blocks@.len(),
            all == blocks_view(blocks@),
            out@ == start + joined(all.take(i as int)),
        decreases blocks@.len() - i,
    {
        push_bytes(out, &blocks[i]);
        proof {
            assert(all.take(i + 1).drop_last() =~= all.take(i as int));
            assert(out@ =~= start + joined(all.take(i + 1)));
        }
        i = i + 1;
    }
    assert(all.take(all.len() as int) =~= all);
}

/// The bytes before the blocks.
fn encode_front(
    parts: &TiffParts,
    entry_count: u16,
    extra_offset: u32,
    pixel_offset: u32,
    end: u32,
) -> (r: Vec<u8>)
    requires
        entry_count == parts@.entry_count(),
        extra_offset == parts@.extra_offset(),
        pixel_offset == parts@.pixel_offset(),
        end == parts@.blocks_end(),
        parts@.error() is None,
        parts@.tiles is None ==> parts@.blocks.len() == 1,
    ensures
        r@ == parts@.front(),
{
    let ghost p = parts@;
    let mut head: Vec<u8> = Vec::new();
    head.push(73);
    head.push(73);
    push_u16(&mut head, TIFF_MAGIC);
    push_u32(&mut head, IFD_OFFSET);
    push_u16(&mut head, entry_count);
    assert(head@ =~= p.head());
    let mut directory = Directory::begin(head);
    let code: u16 = match parts.compression {
        TiffCompression::Uncompressed => COMPRESSION_NONE,
        TiffCompression::Deflate => COMPRESSION_DEFLATE,
    };
    directory.long(TAG_IMAGE_WIDTH, parts.width);
    directory.long(TAG_IMAGE_LENGTH, parts.height);
    directory.short(TAG_BITS_PER_SAMPLE, parts.bits_per_sample);
    directory.short(TAG_COMPRESSION, code);
    directory.short(TAG_PHOTOMETRIC_INTERPRETATION, PHOTOMETRIC_BLACK_IS_ZERO);
    assert(directory.entries@ =~= p.first_entries());
    push_block_entries(parts, &mut directory, pixel_offset, end);
    match &parts.extra {
        Some(extra) => {
            push_extra_entries(&mut directory, extra, extra_offset);
        },
        None => {},
    }
    assert(directory.entries@ =~= p.entries());
    let mut out = directory.bytes;
    push_u32(&mut out, 0);
    match &parts.extra {
        Some(extra) => {
            push_extra_bytes(&mut out, extra);
        },
        None => {},
    }
    assert(out@ =~= p.front());
    out
}

/// Appends the entries for the blocks.
fn push_block_entries(
    parts: &TiffParts,
    directory: &mut Directory,
    pixel_offset: u32,
    end: u32,
)
    requires
        old(directory).ok(),
        old(directory).entries@ == parts@.first_entries(),
        pixel_offset == parts@.pixel_offset(),
        end == parts@.blocks_end(),
        parts@.error() is None,
        parts@.tiles is None ==> parts@.blocks.len() == 1,
    ensures
        final(directory).ok(),
        final(directory).entries@ == parts@.first_entries() + parts@.block_entries(),
        final(directory).start@ == old(directory).start@,
{
    let ghost p = parts@;
    match &parts.tiles {
        Some(tiles) => {
            let n: u32 = parts.blocks.len() as u32;
            directory.long(TAG_TILE_WIDTH, (tiles.width as u64 % 0x1_0000_0000) as u32);
            directory.long(TAG_TILE_LENGTH, (tiles.height as u64 % 0x1_0000_0000) as u32);
            directory.offset(TAG_TILE_OFFSETS, TYPE_LONG, n, end);
            directory.offset(TAG_TILE_BYTE_COUNTS, TYPE_LONG, n, end + 4 * n);
            directory.short(TAG_SAMPLES_PER_PIXEL, 1);
            directory.short(TAG_SAMPLE_FORMAT, parts.sample_format);
            assert(directory.entries@ =~= p.first_entries() + p.block_entries());
        },
        None => {
            proof {
                lemma_blocks_adjoin(p, 0);
                assert(p.blocks[0] == parts.blocks@[0]@);
                assert(p.block_error(1) is None);
            }
            let size: u32 = parts.blocks[0].len() as u32;
            directory.long(TAG_STRIP_OFFSETS, pixel_offset);
            directory.short(TAG_SAMPLES_PER_PIXEL, 1);
            directory.long(TAG_ROWS_PER_STRIP, parts.height);
            directory.long(TAG_STRIP_BYTE_COUNTS, size);
            directory.short(TAG_SAMPLE_FORMAT, parts.sample_format);
            assert(directory.entries@ =~= p.first_entries() + p.block_entries());
        },
    }
}

fn count_entries(tiles: &Option<TiffTileOptions>, extra: &Option<GeoTiffExtraData>) -> (r: u16)
    ensures
        r == entry_total(*tiles, extra_view(*extra)),
        r <= 16,
{
    let base: u16 = match tiles {
        Some(_) => 11,
        None => 10,
    };
    let more: u16 = match extra {
        Some(e) => if e.geo_double_params.len() > 0 {
            5
        } else {
            4
        },
        None => 0,
    };
    base + more
}

/// The number of bytes before the blocks, where the file has room for them.
pub fn front_bytes(tiles: &Option<TiffTileOptions>, extra: &Option<GeoTiffExtraData>) -> (r: Option<
    u32,
>)
    ensures
        r is Some <==> front_size(*tiles, extra_view(*extra)) <= u32::MAX,
        r is Some ==> r->Some_0 == front_size(*tiles, extra_view(*extra)),
{
    let entry_count: u16 = count_entries(tiles, extra);
    let end: u128 = (IFD_OFFSET + 2 + 12 * (entry_count as u32) + 4) as u128;
    let more: u128 = match extra {
        Some(e) => e.pixel_scale.len() as u128 + e.tiepoint.len() as u128
            + e.geo_key_directory.len() as u128 + e.geo_ascii_params.len() as u128
            + e.geo_double_params.len() as u128,
        None => 0,
    };
    if end + more > 0xffff_ffff {
        None
    } else {
        Some((end + more) as u32)
    }
}

/// The bytes of a file.
pub fn encode_tiff(parts: &TiffParts) -> (r: Result<Vec<u8>>)
    requires
        parts.tiles is None ==> parts.blocks@.len() == 1,
    ensures
        match parts@.error() {
            Some(e) => fails_with(r, e),
            None => r is Ok && r->Ok_0@ == parts@.file(),
        },
{
    let ghost p = parts@;
    let entry_count: u16 = count_entries(&parts.tiles, &parts.extra);
    let extra_offset: u32 = IFD_OFFSET + 2 + 12 * (entry_count as u32) + 4;
    let pixel_offset: u32 = match front_bytes(&parts.tiles, &parts.extra) {
        Some(offset) => offset,
        None => {
            return Err(RustySatError::invalid_input("float TIFF pixel offset overflow"));
        },
    };
    assert(pixel_offset == p.pixel_offset());
    let (offsets, end) = match place_blocks(parts, pixel_offset) {
        Ok(placed) => placed,
        Err(e) => {
            return Err(e);
        },
    };
    if parts.tiles.is_some() {
        let n: usize = parts.blocks.len();
        let most: u64 = 0xffff_ffff;
        if n as u64 > most / 4 {
            return Err(RustySatError::invalid_input("TIFF tile offsets overflow"));
        }
        let list: u64 = 4 * (n as u64);
        if end as u64 + list > most {
            return Err(RustySatError::invalid_input("float TIFF tile offsets overflow"));
        }
        if end as u64 + 2 * list > most {
            return Err(RustySatError::invalid_input("float TIFF tile byte counts overflow"));
        }
    }
    let mut out = encode_front(parts, entry_count, extra_offset, pixel_offset, end);
    push_blocks(&mut out, &parts.blocks);
    if parts.tiles.is_some() {
        let sizes = block_sizes(&parts.blocks, Ghost(p));
        let first = bytes32(&offsets);
        let second = bytes32(&sizes);
        push_bytes(&mut out, &first);
        push_bytes(&mut out, &second);
    }
    assert(out@ =~= p.file());
    Ok(out)
}

/// Where the entry for strips holds the place of the strip.
pub const STRIP_OFFSETS_PLACE: usize = 78;

/// Where the entry for the places of tiles holds the place of their list.
pub const TILE_OFFSETS_PLACE: usize = 102;

/// Where the entry for the sizes of blocks holds the size of the strip, or the place of
/// the list of the sizes of tiles.
pub const BYTE_COUNTS_PLACE: usize = 114;

/// The bytes that a reader of a file takes for the block `i`: it follows the entries of the
/// directory to the place and the size of the block.
pub open spec fn found_block(file: Seq<u8>, tiled: bool, i: int) -> Seq<u8> {
    let at = if tiled {
        read32(file, read32(file, TILE_OFFSETS_PLACE as int) + 4 * i)
    } else {
        read32(file, STRIP_OFFSETS_PLACE as int)
    };
    let size = if tiled {
        read32(file, read32(file, BYTE_COUNTS_PLACE as int) + 4 * i)
    } else {
        read32(file, BYTE_COUNTS_PLACE as int)
    };
    file.subrange(at, at + size)
}

proof fn lemma_no_block_error(p: TiffPlan, n: nat, i: int)
    requires
        p.block_error(n) is None,
        0 <= i < n,
    ensures
        p.block_offset(i) + p.blocks[i].len() <= u32::MAX,
    decreases n,
{
    if i < n - 1 {
        lemma_no_block_error(p, (n - 1) as nat, i);
    }
}

/// A reader finds the block `i` of a file: the entry for strips holds the place of the
/// only block, the entry for tiles that of the list of their places.
pub proof fn lemma_block_is_found(p: TiffPlan, i: int)
    requires
        p.error() is None,
        0 <= i < p.blocks.len(),
        p.tiles is None ==> p.blocks.len() == 1,
    ensures
        p.tiles is None ==> read32(p.file(), STRIP_OFFSETS_PLACE as int) == p.block_offset(i),
        p.tiles is Some ==> read32(
            p.file(),
            read32(p.file(), TILE_OFFSETS_PLACE as int) + 4 * i,
        ) == p.block_offset(i),
        found_block(p.file(), p.tiles is Some, i) == p.blocks[i],
{
    let f = p.file();
    lemma_entries(p);
    lemma_no_block_error(p, p.blocks.len(), i);
    lemma_block_in_file(p, i);
    let a = p.first_entries();
    let b = p.block_entries();
    assert(a.len() == 5);
    match p.tiles {
        None => {
            let place = p.pixel_offset() as u32;
            lemma_directory_of_file(p, 5);
            assert(p.entries()[5] == b[0]);
            let e = f.subrange(70, 82);
            assert(e == long_entry(TAG_STRIP_OFFSETS, place));
            assert(f.subrange(78, 82) =~= e.subrange(8, 12));
            assert(e.subrange(8, 12) =~= le32(place));
            lemma_read32(f, 78, place);
            assert(p.blocks.take(0) =~= Seq::empty());
            let size = p.blocks[0].len() as u32;
            lemma_directory_of_file(p, 8);
            assert(p.entries()[8] == b[3]);
            let c = f.subrange(106, 118);
            assert(c == long_entry(TAG_STRIP_BYTE_COUNTS, size));
            assert(f.subrange(114, 118) =~= c.subrange(8, 12));
            assert(c.subrange(8, 12) =~= le32(size));
            lemma_read32(f, 114, size);
        },
        Some(_) => {
            let list = p.blocks_end() as u32;
            lemma_directory_of_file(p, 7);
            assert(p.entries()[7] == b[2]);
            let e = f.subrange(94, 106);
            assert(e == offset_entry(TAG_TILE_OFFSETS, TYPE_LONG, p.blocks.len() as u32, list));
            assert(f.subrange(102, 106) =~= e.subrange(8, 12));
            assert(e.subrange(8, 12) =~= le32(list));
            lemma_read32(f, 102, list);
            lemma_read32(f, p.blocks_end() + 4 * i, p.block_offset(i) as u32);
            let sizes = (p.blocks_end() + 4 * p.blocks.len()) as u32;
            lemma_directory_of_file(p, 8);
            assert(p.entries()[8] == b[3]);
            let c = f.subrange(106, 118);
            assert(c == offset_entry(
                TAG_TILE_BYTE_COUNTS,
                TYPE_LONG,
                p.blocks.len() as u32,
                sizes,
            ));
            assert(f.subrange(114, 118) =~= c.subrange(8, 12));
            assert(c.subrange(8, 12) =~= le32(sizes));
            lemma_read32(f, 114, sizes);
            lemma_read32(f, sizes + 4 * i, p.blocks[i].len() as u32);
        },
    }
}

/// Whether the entry `i` of the directory of a file has a tag, a type, a count and a value of 32
/// bits.
#[verifier::opaque]
pub open spec fn entry_says(
    file: Seq<u8>,
    i: int,
    tag: int,
    field_type: int,
    count: int,
    value: int,
) -> bool {
    &&& read16(file, 10 + 12 * i) == tag
    &&& read16(file, 12 + 12 * i) == field_type
    &&& read32(file, 14 + 12 * i) == count
    &&& read32(file, 18 + 12 * i) == value
}

proof fn lemma_bytes_say(
    f: Seq<u8>,
    i: int,
    tag: u16,
    field_type: u16,
    count: u32,
    value: u32,
)
    requires
        0 <= i,
        f.len() >= 22 + 12 * i,
        f.subrange(10 + 12 * i, 22 + 12 * i) == offset_entry(tag, field_type, count, value),
    ensures
        entry_says(f, i, tag as int, field_type as int, count as int, value as int),
{
    reveal(entry_says);
    let at = 10 + 12 * i;
    let e = f.subrange(at, at + 12);
    assert(e == offset_entry(tag, field_type, count, value));
    assert(f.subrange(at, at + 2) =~= le16(tag)) by {
        assert(f.subrange(at, at + 2) =~= e.subrange(0, 2));
        assert(e.subrange(0, 2) =~= le16(tag));
    }
    assert(f.subrange(at + 2, at + 4) =~= le16(field_type)) by {
        assert(f.subrange(at + 2, at + 4) =~= e.subrange(2, 4));
        assert(e.subrange(2, 4) =~= le16(field_type));
    }
    assert(f.subrange(at + 4, at + 8) =~= le32(count)) by {
        assert(f.subrange(at + 4, at + 8) =~= e.subrange(4, 8));
        assert(e.subrange(4, 8) =~= le32(count));
    }
    assert(f.subrange(at + 8, at + 12) =~= le32(value)) by {
        assert(f.subrange(at + 8, at + 12) =~= e.subrange(8, 12));
        assert(e.subrange(8, 12) =~= le32(value));
    }
    lemma_read16(f, at, tag);
    lemma_read16(f, at + 2, field_type);
    lemma_read32(f, at + 4, count);
    lemma_read32(f, at + 8, value);
}

proof fn lemma_entry_says(
    p: TiffPlan,
    i: int,
    tag: u16,
    field_type: u16,
    count: u32,
    value: u32,
)
    requires
        0 <= i < p.entry_count(),
        p.entries()[i] == offset_entry(tag, field_type, count, value),
    ensures
        entry_says(
            p.file(),
            i,
            tag as int,
            field_type as int,
            count as int,
            value as int,
        ),
{
    lemma_directory_of_file(p, i);
    lemma_bytes_say(p.file(), i, tag, field_type, count, value);
}

proof fn lemma_short_is_long(tag: u16, value: u16)
    ensures
        short_entry(tag, value) == offset_entry(tag, TYPE_SHORT, 1, value as u32),
{
    assert(short_entry(tag, value) =~= offset_entry(tag, TYPE_SHORT, 1, value as u32));
}

/// The directory of a file says what the image is: its width and its height, the bits and the
/// kind of its samples, one for each pixel and black where it is zero, and its compression.
pub proof fn lemma_file_says_image(p: TiffPlan)
    ensures
        entry_says(p.file(), 0, 256, 4, 1, p.width as int),
        entry_says(p.file(), 1, 257, 4, 1, p.height as int),
        entry_says(p.file(), 2, 258, 3, 1, p.bits_per_sample as int),
        entry_says(p.file(), 3, 259, 3, 1, p.compression as int),
        entry_says(p.file(), 4, 262, 3, 1, 1),
        p.tiles is None ==> {
            &&& entry_says(p.file(), 6, 277, 3, 1, 1)
            &&& entry_says(p.file(), 7, 278, 4, 1, p.height as int)
            &&& entry_says(p.file(), 9, 339, 3, 1, p.sample_format as int)
        },
        p.tiles is Some ==> {
            &&& p.tiles->Some_0.width <= u32::MAX ==> entry_says(
                p.file(),
                5,
                322,
                4,
                1,
                p.tiles->Some_0.width as int,
            )
            &&& p.tiles->Some_0.height <= u32::MAX ==> entry_says(
                p.file(),
                6,
                323,
                4,
                1,
                p.tiles->Some_0.height as int,
            )
            &&& entry_says(p.file(), 9, 277, 3, 1, 1)
            &&& entry_says(p.file(), 10, 339, 3, 1, p.sample_format as int)
        },
{
    let e = p.entries();
    let (a, b) = (p.first_entries(), p.block_entries());
    assert(e[0] == a[0] && e[1] == a[1] && e[2] == a[2] && e[3] == a[3] && e[4] == a[4]);
    assert(forall|i: int| 0 <= i < b.len() ==> e[5 + i] == #[trigger] b[i]);
    lemma_entry_says(p, 0, 256, 4, 1, p.width);
    lemma_entry_says(p, 1, 257, 4, 1, p.height);
    lemma_short_is_long(258, p.bits_per_sample);
    lemma_entry_says(p, 2, 258, 3, 1, p.bits_per_sample as u32);
    lemma_short_is_long(259, p.compression);
    lemma_entry_says(p, 3, 259, 3, 1, p.compression as u32);
    lemma_short_is_long(262, 1);
    lemma_entry_says(p, 4, 262, 3, 1, 1);
    lemma_short_is_long(277, 1);
    lemma_short_is_long(339, p.sample_format);
    match p.tiles {
        None => {
            assert(e[6] == b[1] && e[7] == b[2] && e[9] == b[4]);
            lemma_entry_says(p, 6, 277, 3, 1, 1);
            lemma_entry_says(p, 7, 278, 4, 1, p.height);
            lemma_entry_says(p, 9, 339, 3, 1, p.sample_format as u32);
        },
        Some(t) => {
            assert(e[5] == b[0] && e[6] == b[1] && e[9] == b[4] && e[10] == b[5]);
            if t.width <= u32::MAX {
                lemma_entry_says(p, 5, 322, 4, 1, t.width as u32);
            }
            if t.height <= u32::MAX {
                lemma_entry_says(p, 6, 323, 4, 1, t.height as u32);
            }
            lemma_entry_says(p, 9, 277, 3, 1, 1);
            lemma_entry_says(p, 10, 339, 3, 1, p.sample_format as u32);
        },
    }
}

proof fn lemma_five_parts(
    before: Seq<u8>,
    a: Seq<u8>,
    b: Seq<u8>,
    c: Seq<u8>,
    d: Seq<u8>,
    e: Seq<u8>,
    behind: Seq<u8>,
)
    ensures
        ({
            let f = before + (a + b + c + d + e) + behind;
            let i = before.len() as int;
            let j = i + a.len();
            let k = j + b.len();
            let l = k + c.len();
            let m = l + d.len();
            &&& f.subrange(i, j) == a
            &&& f.subrange(j, k) == b
            &&& f.subrange(k, l) == c
            &&& f.subrange(l, m) == d
            &&& f.subrange(m, m + e.len()) == e
        }),
{
    let f = before + (a + b + c + d + e) + behind;
    let i = before.len() as int;
    let j = i + a.len();
    let k = j + b.len();
    let l = k + c.len();
    let m = l + d.len();
    assert(f.subrange(i, j) =~= a);
    assert(f.subrange(j, k) =~= b);
    assert(f.subrange(k, l) =~= c);
    assert(f.subrange(l, m) =~= d);
    assert(f.subrange(m, m + e.len()) =~= e);
}

proof fn lemma_ties_in_file(p: TiffPlan)
    requires
        p.extra is Some,
        p.extra->Some_0.pixel_scale.len() == 24,
        p.extra->Some_0.tiepoint.len() == 48,
    ensures
        ({
            let e = p.extra->Some_0;
            let at = p.extra_offset();
            let directory = at + 72;
            let ascii = directory + e.directory.len();
            let doubles = ascii + e.ascii.len();
            let f = p.file();
            &&& f.subrange(at, at + 24) == e.pixel_scale
            &&& f.subrange(at + 24, at + 72) == e.tiepoint
            &&& f.subrange(directory, ascii) == e.directory
            &&& f.subrange(ascii, doubles) == e.ascii
            &&& f.subrange(doubles, doubles + e.doubles.len()) == e.doubles
        }),
{
    let e = p.extra->Some_0;
    let at = p.extra_offset();
    let f = p.file();
    let entries = p.entries();
    lemma_entries(p);
    lemma_joined_size(entries, 12);
    let before = p.head() + joined(entries) + le32(0);
    assert(before.len() == at);
    let behind = joined(p.blocks) + p.tail();
    assert(p.front() == before + extra_bytes(e));
    assert(f =~= before + extra_bytes(e) + behind);
    lemma_five_parts(before, e.pixel_scale, e.tiepoint, e.directory, e.ascii, e.doubles, behind);
}

/// The directory of a file leads to the data that tie the image to the earth: three numbers for
/// the sizes of a pixel, six for a point, and the directory, the texts and the numbers of keys.
pub proof fn lemma_file_says_ties(p: TiffPlan) -> (at: int)
    requires
        p.extra is Some,
        p.pixel_offset() <= u32::MAX,
        p.extra->Some_0.pixel_scale.len() == 24,
        p.extra->Some_0.tiepoint.len() == 48,
    ensures
        ({
            let e = p.extra->Some_0;
            let n = if p.tiles is Some {
                11int
            } else {
                10int
            };
            let directory = at + 72;
            let ascii = directory + e.directory.len();
            let doubles = ascii + e.ascii.len();
            let f = p.file();
            &&& 0 <= at
            &&& entry_says(f, n, 33550, 12, 3, at)
            &&& f.subrange(at, at + 24) == e.pixel_scale
            &&& entry_says(f, n + 1, 33922, 12, 6, at + 24)
            &&& f.subrange(at + 24, at + 72) == e.tiepoint
            &&& entry_says(f, n + 2, 34735, 3, e.directory.len() as int / 2, directory)
            &&& f.subrange(directory, ascii) == e.directory
            &&& entry_says(f, n + 3, 34737, 2, e.ascii.len() as int, ascii)
            &&& f.subrange(ascii, doubles) == e.ascii
            &&& e.doubles.len() > 0 ==> {
                &&& entry_says(f, n + 4, 34736, 12, e.doubles.len() as int / 8, doubles)
                &&& f.subrange(doubles, doubles + e.doubles.len()) == e.doubles
            }
        }),
{
    let e = p.extra->Some_0;
    let n = if p.tiles is Some {
        11int
    } else {
        10int
    };
    let at = p.extra_offset();
    let f = p.file();
    let entries = p.entries();
    let c = extra_entries(e, at);
    assert(p.first_entries().len() + p.block_entries().len() == n);
    assert(forall|i: int| 0 <= i < c.len() ==> entries[n + i] == #[trigger] c[i]);
    assert(entries[n] == c[0] && entries[n + 1] == c[1] && entries[n + 2] == c[2] && entries[n + 3]
        == c[3]);
    let directory = at + 72;
    let ascii = directory + e.directory.len();
    let doubles = ascii + e.ascii.len();
    assert(p.pixel_offset() == doubles + e.doubles.len());
    lemma_entry_says(p, n, 33550, 12, 3, at as u32);
    lemma_entry_says(p, n + 1, 33922, 12, 6, (at + 24) as u32);
    lemma_entry_says(
        p,
        n + 2,
        34735,
        3,
        (e.directory.len() / 2) as u32,
        directory as u32,
    );
    lemma_entry_says(p, n + 3, 34737, 2, e.ascii.len() as u32, ascii as u32);
    if e.doubles.len() > 0 {
        assert(entries[n + 4] == c[4]);
        lemma_entry_says(
            p,
            n + 4,
            34736,
            12,
            (e.doubles.len() / 8) as u32,
            doubles as u32,
        );
    }
    lemma_ties_in_file(p);
    at
}

/// The numbers that name a compression: 1 for none, 32946 for Deflate.
pub proof fn lemma_compression_code(c: TiffCompression)
    ensures
        compression_code(c) == if c is Uncompressed {
            1u16
        } else {
            32946u16
        },
{
}

} // verus!

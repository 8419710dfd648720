//! Images of grey levels or colours, and their files.

use crate::array::{any_array_ok, are_numbers, copy_values};
use crate::dataset::{Dataset, DatasetView};
use crate::error::{fails_with, is_invalid, is_unsupported, ErrorView, Result, RustySatError};
use crate::number::F64;
use crate::pgm::{
    is_contrast, is_grey, is_plane_array, is_seen, lemma_levels_show_plane, levels_outcome,
    not_a_plane, plane_dims, plane_levels, shape_of,
};
use crate::text::{join2, join3, lower_text, lowered, owned, same_text, trim_text, trimmed};
use vstd::prelude::*;

verus! {

/// What the bytes of a pixel are.
#[derive(Clone, Copy, Debug, PartialEq, Eq, Structural)]
pub enum ImageMode {
    Luma,
    Rgb,
    Rgba,
}

impl ImageMode {
    /// The number of bytes of a pixel.
    pub open spec fn bytes(self) -> u8 {
        match self {
            ImageMode::Luma => 1,
            ImageMode::Rgb => 3,
            ImageMode::Rgba => 4,
        }
    }

    pub fn channels(self) -> (r: u8)
        ensures
            r == self.bytes(),
    {
        match self {
            ImageMode::Luma => 1,
            ImageMode::Rgb => 3,
            ImageMode::Rgba => 4,
        }
    }
}

/// An image as a mathematical value.
#[verifier::ext_equal]
pub struct ImageView {
    pub mode: ImageMode,
    pub height: usize,
    pub width: usize,
    pub pixels: Seq<u8>,
}

/// Whether an image has the bytes of its pixels.
pub open spec fn image_ok(v: ImageView) -> bool {
    v.pixels.len() == v.height * v.width * v.mode.bytes()
}

/// A finished image: the bytes of its pixels, row by row.
#[derive(Debug, PartialEq, Eq)]
pub struct Image {
    mode: ImageMode,
    height: usize,
    width: usize,
    pixels: Vec<u8>,
}

impl View for Image {
    type V = ImageView;

    closed spec fn view(&self) -> ImageView {
        ImageView {
            mode: self.mode,
            height: self.height,
            width: self.width,
            pixels: self.pixels@,
        }
    }
}

impl Clone for Image {
    fn clone(&self) -> (r: Self)
        ensures
            r@ == self@,
    {
        proof {
            use_type_invariant(self);
        }
        Image {
            mode: self.mode,
            height: self.height,
            width: self.width,
            pixels: copy_values(&self.pixels),
        }
    }
}

impl Image {
    #[verifier::type_invariant]
    pub open spec fn inv(&self) -> bool {
        image_ok(self@)
    }

    pub fn from_pixels(mode: ImageMode, height: usize, width: usize, pixels: Vec<u8>) -> (r: Result<
        Self,
    >)
        ensures
            ({
                let v = ImageView { mode, height, width, pixels: pixels@ };
                &&& !image_ok(v) ==> is_invalid(r, "image pixel count must match its shape"@)
                &&& image_ok(v) ==> r is Ok && r->Ok_0@ == v
            }),
    {
        let _count: usize = pixels.len();
        let channels: usize = mode.channels() as usize;
        let matches = match height.checked_mul(width) {
            Some(size) => match size.checked_mul(channels) {
                Some(count) => pixels.len() == count,
                None => false,
            },
            None => {
                proof {
                    assert(height * width * channels >= height * width) by (nonlinear_arith)
                        requires
                            channels >= 1,
                            height >= 0,
                            width >= 0,
                    ;
                }
                false
            },
        };
        if !matches {
            return Err(RustySatError::invalid_input("image pixel count must match its shape"));
        }
        Ok(Image { mode, height, width, pixels })
    }

    pub fn mode(&self) -> (r: ImageMode)
        ensures
            r == self@.mode,
    {
        self.mode
    }

    /// The height and the width.
    pub fn shape(&self) -> (r: (usize, usize))
        ensures
            r == (self@.height, self@.width),
    {
        (self.height, self.width)
    }

    pub fn pixels(&self) -> (r: &Vec<u8>)
        ensures
            r@ == self@.pixels,
    {
        &self.pixels
    }

    /// The image of the grey levels of a data set, scaled to its values. `level` gives the
    /// grey level of a value between two bounds, and `next` one more than a number.
    pub fn from_luma_dataset<L: Fn(F64, F64, F64) -> F64, N: Fn(F64) -> F64>(
        dataset: &Dataset,
        level: &L,
        next: &N,
    ) -> (r: Result<Self>)
        requires
            forall|v: F64, a: F64, b: F64| #[trigger] level.requires((v, a, b)),
            forall|v: F64| #[trigger] next.requires((v,)),
        ensures
            luma_outcome(r, dataset@, *level, *next),
    {
        let array = match dataset.array() {
            Some(a) => a,
            None => {
                return Err(
                    RustySatError::invalid_input("simple image requires dataset array data"),
                );
            },
        };
        if !is_plane_array(array) {
            return Err(
                RustySatError::invalid_input(
                    "array dimensions do not match expected [\"y\", \"x\"]",
                ),
            );
        }
        let (height, width) = shape_of(array);
        let numbers = array.numbers();
        assert(are_numbers(dataset@.array->Some_0, numbers@));
        let p = plane_levels(&numbers, array.mask(), None, 0, level, next);
        assert(levels_outcome(
            p,
            numbers@,
            dataset@.array->Some_0.mask(),
            None,
            0,
            *level,
            *next,
        ));
        match p {
            Ok(pixels) => {
                proof {
                    let shape = array@.shape();
                    crate::array::lemma_plane_size(height, width);
                    assert(shape =~= seq![height, width]);
                    assert(height * width * 1 == height * width) by (nonlinear_arith);
                }
                Self::from_pixels(ImageMode::Luma, height, width, pixels)
            },
            Err(e) => Err(e),
        }
    }
}

/// Whether `r` is the image of the grey levels of a data set, or the first obstacle.
pub open spec fn luma_outcome<L: Fn(F64, F64, F64) -> F64, N: Fn(F64) -> F64>(
    r: Result<Image>,
    d: DatasetView,
    level: L,
    next: N,
) -> bool {
    match d.array {
        None => is_invalid(r, "simple image requires dataset array data"@),
        Some(v) => if !plane_dims(v) {
            is_invalid(r, not_a_plane())
        } else {
            exists|numbers: Seq<F64>, p: Result<Vec<u8>>| #[trigger]
                are_numbers(v, numbers) && #[trigger] levels_outcome(
                    p,
                    numbers,
                    v.mask(),
                    None,
                    0,
                    level,
                    next,
                ) && match p {
                    Err(e) => fails_with(r, e@),
                    Ok(pixels) => r is Ok && r->Ok_0@ == (ImageView {
                        mode: ImageMode::Luma,
                        height: v.shape()[0],
                        width: v.shape()[1],
                        pixels: pixels@,
                    }),
                }
        },
    }
}

/// Whether `r` is the file of the grey levels of a data set, or the first obstacle.
pub open spec fn image_dataset_outcome<L: Fn(F64, F64, F64) -> F64, N: Fn(F64) -> F64>(
    r: Result<Vec<u8>>,
    d: DatasetView,
    depth: SimpleImageDatasetBitDepth,
    extension: Option<Seq<char>>,
    level: L,
    next: N,
) -> bool {
    if depth is Sixteen {
        is_unsupported(r, "16-bit simple image dataset output"@)
    } else {
        exists|image: Result<Image>| #[trigger]
            luma_outcome(image, d, level, next) && match image {
                Err(e) => fails_with(r, e@),
                Ok(i) => png_outcome(r, i@, extension),
            }
    }
}

/// The PNG file that `image::write_buffer_with_format` makes of the bytes of an image, or
/// the text of its error.
pub uninterp spec fn png_file(pixels: Seq<u8>, width: u32, height: u32, channels: u8) -> core::result::Result<Seq<u8>, Seq<char>>;

/// What `image::codecs::png::PngDecoder` reads from a PNG file: the bytes of the image, its
/// width and its height, and the number of bytes of a pixel.
pub uninterp spec fn png_content(file: Seq<u8>) -> (Seq<u8>, u32, u32, u8);

/// Encodes an image by `image::write_buffer_with_format` for the PNG format. The file, or
/// the text of the error, depends on the bytes, the sizes and the number of bytes of a
/// pixel alone, and `image::codecs::png::PngDecoder` reads them back from the file: the
/// format loses nothing of pixels of eight bits. The outside function panics where the
/// number of bytes is another one than the sizes ask for.
#[verifier::external_body]
fn write_png(pixels: &Vec<u8>, width: u32, height: u32, mode: ImageMode) -> (r: core::result::Result<Vec<u8>, String>)
    requires
        pixels@.len() == width * height * mode.bytes(),
    ensures
        match r {
            Ok(file) => png_file(pixels@, width, height, mode.bytes()) == Ok::<Seq<u8>, Seq<char>>(file@),
            Err(text) => png_file(pixels@, width, height, mode.bytes()) == Err::<Seq<u8>, Seq<char>>(text@),
        },
        r is Ok ==> png_content(r->Ok_0@) == (pixels@, width, height, mode.bytes()),
{
    let color = match mode {
        ImageMode::Luma => image::ColorType::L8,
        ImageMode::Rgb => image::ColorType::Rgb8,
        ImageMode::Rgba => image::ColorType::Rgba8,
    };
    let mut out = std::io::Cursor::new(Vec::new());
    match image::write_buffer_with_format(&mut out, pixels, width, height, color, image::ImageFormat::Png) {
        Ok(()) => Ok(out.into_inner()),
        Err(err) => Err(format!("{}", err)),
    }
}

/// The error for a name of a file whose image is not a PNG one, if it is such.
pub open spec fn format_error(extension: Option<Seq<char>>) -> Option<ErrorView> {
    match extension {
        None => Some(ErrorView::InvalidInput("image filename must include an extension"@)),
        Some(text) => if lowered(text) == "png"@ {
            None
        } else {
            Some(ErrorView::Unsupported("simple image format '"@ + text + "'"@))
        },
    }
}

fn validate_format(extension: Option<&str>) -> (r: Result<()>)
    ensures
        match format_error(
            match extension {
                Some(t) => Some(t@),
                None => None,
            },
        ) {
            Some(e) => fails_with(r, e),
            None => r is Ok,
        },
{
    let text = match extension {
        Some(t) => t,
        None => {
            return Err(
                RustySatError::invalid_input("image filename must include an extension"),
            );
        },
    };
    let lower = lower_text(text);
    if !same_text(lower.as_str(), "png") {
        let message = join3("simple image format '", text, "'");
        return Err(RustySatError::unsupported(message.as_str()));
    }
    Ok(())
}

/// What becomes of the reply of the encoder: the file, or an error with its text.
pub open spec fn png_reply(reply: core::result::Result<Seq<u8>, Seq<char>>) -> core::result::Result<Seq<u8>, ErrorView> {
    match reply {
        Ok(file) => Ok(file),
        Err(text) => Err(ErrorView::InvalidInput("failed to save PNG image: "@ + text)),
    }
}

/// Whether `r` is the PNG file of an image, or the first obstacle.
pub open spec fn png_outcome(
    r: Result<Vec<u8>>,
    v: ImageView,
    extension: Option<Seq<char>>,
) -> bool {
    match format_error(extension) {
        Some(e) => fails_with(r, e),
        None => if v.width > u32::MAX {
            is_invalid(r, "image width does not fit u32"@)
        } else if v.height > u32::MAX {
            is_invalid(r, "image height does not fit u32"@)
        } else {
            match png_reply(
                png_file(v.pixels, v.width as u32, v.height as u32, v.mode.bytes()),
            ) {
                Ok(file) => r is Ok && r->Ok_0@ == file && png_content(file) == (
                    v.pixels,
                    v.width as u32,
                    v.height as u32,
                    v.mode.bytes(),
                ),
                Err(e) => fails_with(r, e),
            }
        },
    }
}

/// What becomes of the reply of the encoder.
pub fn finish_png(reply: core::result::Result<Vec<u8>, String>) -> (r: Result<Vec<u8>>)
    ensures
        match reply {
            Ok(file) => r is Ok && r->Ok_0@ == file@,
            Err(text) => is_invalid(r, "failed to save PNG image: "@ + text@),
        },
{
    match reply {
        Ok(file) => Ok(file),
        Err(text) => {
            let message = join2("failed to save PNG image: ", text.as_str());
            Err(RustySatError::invalid_input(message.as_str()))
        },
    }
}

/// The PNG file of an image, for a file with the extension of a name.
pub fn encode_png_image(image: &Image, extension: Option<&str>) -> (r: Result<Vec<u8>>)
    ensures
        png_outcome(
            r,
            image@,
            match extension {
                Some(t) => Some(t@),
                None => None,
            },
        ),
{
    proof {
        use_type_invariant(image);
    }
    match validate_format(extension) {
        Ok(()) => {},
        Err(e) => {
            return Err(e);
        },
    }
    if image.width as u64 > u32::MAX as u64 {
        return Err(RustySatError::invalid_input("image width does not fit u32"));
    }
    if image.height as u64 > u32::MAX as u64 {
        return Err(RustySatError::invalid_input("image height does not fit u32"));
    }
    proof {
        assert(image.height * image.width == image.width * image.height) by (nonlinear_arith);
    }
    let reply = write_png(&image.pixels, image.width as u32, image.height as u32, image.mode);
    finish_png(reply)
}

/// How many bits a grey level of a data set gets.
#[derive(Clone, Copy, Debug, PartialEq, Eq, Structural)]
pub enum SimpleImageDatasetBitDepth {
    Eight,
    Sixteen,
}

/// How images are written, as a mathematical value.
#[verifier::ext_equal]
pub struct SimpleImageView {
    pub name: Seq<char>,
    pub bit_depth: SimpleImageDatasetBitDepth,
}

/// How images are written.
#[derive(Clone, Debug, PartialEq, Eq)]
pub struct SimpleImageWriter {
    name: String,
    dataset_bit_depth: SimpleImageDatasetBitDepth,
}

impl View for SimpleImageWriter {
    type V = SimpleImageView;

    closed spec fn view(&self) -> SimpleImageView {
        SimpleImageView { name: self.name@, bit_depth: self.dataset_bit_depth }
    }
}

/// A writer with a name and nothing else chosen.
pub open spec fn plain_image_writer(name: Seq<char>) -> SimpleImageView {
    SimpleImageView { name, bit_depth: SimpleImageDatasetBitDepth::Eight }
}

impl Default for SimpleImageWriter {
    fn default() -> (r: Self)
        ensures
            r@ == plain_image_writer("simple_image"@),
    {
        SimpleImageWriter {
            name: owned("simple_image"),
            dataset_bit_depth: SimpleImageDatasetBitDepth::Eight,
        }
    }
}

impl SimpleImageWriter {
    pub fn new(name: &str) -> (r: Result<Self>)
        ensures
            trimmed(name@).len() == 0 ==> is_invalid(
                r,
                "simple image writer name cannot be empty"@,
            ),
            trimmed(name@).len() > 0 ==> r is Ok && r->Ok_0@ == plain_image_writer(name@),
    {
        if trim_text(name).as_str().is_empty() {
            return Err(RustySatError::invalid_input("simple image writer name cannot be empty"));
        }
        Ok(
            SimpleImageWriter {
                name: owned(name),
                dataset_bit_depth: SimpleImageDatasetBitDepth::Eight,
            },
        )
    }

    pub fn with_dataset_bit_depth(self, bit_depth: SimpleImageDatasetBitDepth) -> (r: Self)
        ensures
            r@ == (SimpleImageView { bit_depth, ..self@ }),
    {
        SimpleImageWriter { name: self.name, dataset_bit_depth: bit_depth }
    }

    pub fn with_16_bit_dataset_output(self) -> (r: Self)
        ensures
            r@ == (SimpleImageView { bit_depth: SimpleImageDatasetBitDepth::Sixteen, ..self@ }),
    {
        self.with_dataset_bit_depth(SimpleImageDatasetBitDepth::Sixteen)
    }

    pub fn name(&self) -> (r: &str)
        ensures
            r@ == self@.name,
    {
        self.name.as_str()
    }

    pub fn dataset_bit_depth(&self) -> (r: SimpleImageDatasetBitDepth)
        ensures
            r == self@.bit_depth,
    {
        self.dataset_bit_depth
    }

    /// The file of an image.
    pub fn encode_image(&self, image: &Image, extension: Option<&str>) -> (r: Result<Vec<u8>>)
        ensures
            png_outcome(
                r,
                image@,
                match extension {
                    Some(t) => Some(t@),
                    None => None,
                },
            ),
    {
        encode_png_image(image, extension)
    }

    /// The file of the grey levels of a data set. Levels of sixteen bits are not offered.
    pub fn encode_dataset<L: Fn(F64, F64, F64) -> F64, N: Fn(F64) -> F64>(
        &self,
        dataset: &Dataset,
        extension: Option<&str>,
        level: &L,
        next: &N,
    ) -> (r: Result<Vec<u8>>)
        requires
            forall|v: F64, a: F64, b: F64| #[trigger] level.requires((v, a, b)),
            forall|v: F64| #[trigger] next.requires((v,)),
        ensures
            image_dataset_outcome(
                r,
                dataset@,
                self@.bit_depth,
                match extension {
                    Some(t) => Some(t@),
                    None => None,
                },
                *level,
                *next,
            ),
    {
        match self.dataset_bit_depth {
            SimpleImageDatasetBitDepth::Sixteen => {
                return Err(RustySatError::unsupported("16-bit simple image dataset output"));
            },
            SimpleImageDatasetBitDepth::Eight => {},
        }
        let image = Image::from_luma_dataset(dataset, level, next);
        assert(luma_outcome(image, dataset@, *level, *next));
        match image {
            Ok(i) => encode_png_image(&i, extension),
            Err(e) => Err(e),
        }
    }
}

/// The image of a data set has one grey level for each pixel of its plane, black where nothing
/// is shown.
pub proof fn lemma_luma_shows_plane<L: Fn(F64, F64, F64) -> F64, N: Fn(F64) -> F64>(
    r: Result<Image>,
    d: DatasetView,
    level: L,
    next: N,
) -> (out: (Seq<F64>, Result<Vec<u8>>, (F64, F64)))
    requires
        luma_outcome(r, d, level, next),
        r is Ok,
        d.array is Some ==> any_array_ok(d.array->Some_0),
    ensures
        d.array is Some,
        ({
            let v = d.array->Some_0;
            let (numbers, pixels, bounds) = out;
            &&& v.dims() == seq!["y"@, "x"@]
            &&& are_numbers(v, numbers)
            &&& is_contrast(bounds.0, bounds.1, None, numbers, v.mask(), next)
            &&& r->Ok_0@.mode is Luma
            &&& r->Ok_0@.height == v.shape()[0]
            &&& r->Ok_0@.width == v.shape()[1]
            &&& r->Ok_0@.pixels.len() == numbers.len()
            &&& forall|i: int|
                0 <= i < numbers.len() ==> if is_seen(numbers, v.mask(), i) {
                    is_grey(numbers[i], bounds.0, bounds.1, level, #[trigger] r->Ok_0@.pixels[i])
                } else {
                    r->Ok_0@.pixels[i] == 0
                }
        }),
{
    let v = d.array->Some_0;
    let (numbers, pixels) = choose|numbers: Seq<F64>, p: Result<Vec<u8>>| #[trigger]
        are_numbers(v, numbers) && #[trigger] levels_outcome(
            p,
            numbers,
            v.mask(),
            None,
            0,
            level,
            next,
        ) && match p {
            Err(e) => fails_with(r, e@),
            Ok(pixels) => r is Ok && r->Ok_0@ == (ImageView {
                mode: ImageMode::Luma,
                height: v.shape()[0],
                width: v.shape()[1],
                pixels: pixels@,
            }),
        };
    let bounds = lemma_levels_show_plane(pixels, numbers, v.mask(), None, 0, level, next);
    assert forall|i: int| 0 <= i < numbers.len() implies if is_seen(numbers, v.mask(), i) {
        is_grey(numbers[i], bounds.0, bounds.1, level, #[trigger] r->Ok_0@.pixels[i])
    } else {
        r->Ok_0@.pixels[i] == 0
    } by {
        assert(pixels->Ok_0@[i] == r->Ok_0@.pixels[i]);
    }
    (numbers, pixels, bounds)
}

/// A PNG file holds the pixels of the image, its size and the bytes of a pixel: one of grey,
/// three of a colour, four of a colour with opacity.
pub proof fn lemma_png_holds_image(r: Result<Vec<u8>>, v: ImageView, extension: Option<Seq<char>>)
    requires
        png_outcome(r, v, extension),
        r is Ok,
    ensures
        extension is Some && lowered(extension->Some_0) == "png"@,
        png_content(r->Ok_0@).0 == v.pixels,
        png_content(r->Ok_0@).1 == v.width,
        png_content(r->Ok_0@).2 == v.height,
        png_content(r->Ok_0@).3 == if v.mode is Luma {
            1u8
        } else if v.mode is Rgb {
            3u8
        } else {
            4u8
        },
{
}

} // verus!

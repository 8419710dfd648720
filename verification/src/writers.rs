//! The choice of a writer by the name of a file.

use crate::dataset::Dataset;
use crate::error::{fails_with, is_invalid, is_unsupported, ErrorView, Result, RustySatError};
use crate::float_tiff::{
    plain_writer, policy_bits, scale_ok, str_view, tiff_file_outcome, FloatTiffWriter,
    TiffSamplePolicy, TiffWriterView,
};
use crate::number::{F32, F64, INFINITE_32, NAN_BITS_32};
use crate::pgm::{pgm_dataset_outcome, PgmWriter};
use crate::simple_image::{
    image_dataset_outcome, plain_image_writer, png_outcome, Image, SimpleImageDatasetBitDepth,
    SimpleImageView, SimpleImageWriter,
};
use crate::text::{
    join2, join3, lower_char, lower_text, lowered, part_of, same_text, to_chars, trim_text,
    trimmed, trimmed_end, trimmed_start,
};
use vstd::prelude::*;

verus! {

/// A way to write images and data sets to files. One that does not say how is refused.
pub trait Writer {
    /// The name of the writer.
    fn name(&self) -> &str;

    /// Writes an image to the file with a path.
    fn save_image(&self, image: &Image, path: &str) -> (r: Result<()>)
        default_ensures
            exists|n: &str| #[trigger]
                call_ensures(Self::name, (self,), n) && is_unsupported(r, n@ + " writer"@),
    {
        let name = self.name();
        assert(call_ensures(Self::name, (self,), name));
        let text = join2(name, " writer");
        Err(RustySatError::unsupported(text.as_str()))
    }

    /// Writes a data set to the file with a path.
    fn save_dataset(&self, dataset: &Dataset, path: &str) -> (r: Result<()>)
        default_ensures
            exists|n: &str| #[trigger]
                call_ensures(Self::name, (self,), n) && is_unsupported(r, n@ + " dataset writer"@),
    {
        let name = self.name();
        assert(call_ensures(Self::name, (self,), name));
        let text = join2(name, " dataset writer");
        Err(RustySatError::unsupported(text.as_str()))
    }
}

/// The kinds of writers.
#[derive(Clone, Copy, Debug, PartialEq, Eq, Structural)]
pub enum BuiltinWriterKind {
    Pgm,
    SimpleImage,
    FloatTiff,
}

/// A writer for a kind of file.
#[derive(Clone, Debug)]
pub enum BuiltinWriter {
    Pgm(PgmWriter),
    SimpleImage(SimpleImageWriter),
    FloatTiff(FloatTiffWriter),
}

/// A writer as a mathematical value.
#[verifier::ext_equal]
pub enum BuiltinView {
    Pgm(PgmWriter),
    SimpleImage(SimpleImageView),
    FloatTiff(TiffWriterView),
}

impl View for BuiltinWriter {
    type V = BuiltinView;

    open spec fn view(&self) -> BuiltinView {
        match self {
            BuiltinWriter::Pgm(w) => BuiltinView::Pgm(*w),
            BuiltinWriter::SimpleImage(w) => BuiltinView::SimpleImage(w@),
            BuiltinWriter::FloatTiff(w) => BuiltinView::FloatTiff(w@),
        }
    }
}

impl BuiltinView {
    pub open spec fn kind(self) -> BuiltinWriterKind {
        match self {
            BuiltinView::Pgm(_) => BuiltinWriterKind::Pgm,
            BuiltinView::SimpleImage(_) => BuiltinWriterKind::SimpleImage,
            BuiltinView::FloatTiff(_) => BuiltinWriterKind::FloatTiff,
        }
    }

    pub open spec fn label(self) -> Seq<char> {
        match self {
            BuiltinView::Pgm(_) => "pgm"@,
            BuiltinView::SimpleImage(w) => w.name,
            BuiltinView::FloatTiff(w) => w.name,
        }
    }
}

impl BuiltinWriter {
    pub fn kind(&self) -> (r: BuiltinWriterKind)
        ensures
            r == self@.kind(),
    {
        match self {
            BuiltinWriter::Pgm(_) => BuiltinWriterKind::Pgm,
            BuiltinWriter::SimpleImage(_) => BuiltinWriterKind::SimpleImage,
            BuiltinWriter::FloatTiff(_) => BuiltinWriterKind::FloatTiff,
        }
    }

    pub fn name(&self) -> (r: &str)
        ensures
            r@ == self@.label(),
    {
        match self {
            BuiltinWriter::Pgm(writer) => writer.name(),
            BuiltinWriter::SimpleImage(writer) => writer.name(),
            BuiltinWriter::FloatTiff(writer) => writer.name(),
        }
    }

    /// The writer, with sixteen bits for a grey level where it writes images.
    pub fn with_16_bit_png_dataset_output(self) -> (r: Self)
        ensures
            r@ == match self@ {
                BuiltinView::SimpleImage(w) => BuiltinView::SimpleImage(
                    SimpleImageView { bit_depth: SimpleImageDatasetBitDepth::Sixteen, ..w },
                ),
                other => other,
            },
    {
        match self {
            BuiltinWriter::SimpleImage(writer) => BuiltinWriter::SimpleImage(
                writer.with_16_bit_dataset_output(),
            ),
            BuiltinWriter::Pgm(writer) => BuiltinWriter::Pgm(writer),
            BuiltinWriter::FloatTiff(writer) => BuiltinWriter::FloatTiff(writer),
        }
    }

    /// The writer, with numbers of 64 bits where it writes TIFF files.
    pub fn with_float64_tiff_output(self, fill_value: F64) -> (r: Self)
        ensures
            r@ == match self@ {
                BuiltinView::FloatTiff(w) => BuiltinView::FloatTiff(
                    TiffWriterView {
                        sample_policy: TiffSamplePolicy::Float64 { fill_value },
                        ..w
                    },
                ),
                other => other,
            },
    {
        match self {
            BuiltinWriter::FloatTiff(writer) => BuiltinWriter::FloatTiff(
                writer.with_float64_output(fill_value),
            ),
            BuiltinWriter::Pgm(writer) => BuiltinWriter::Pgm(writer),
            BuiltinWriter::SimpleImage(writer) => BuiltinWriter::SimpleImage(writer),
        }
    }

    /// The writer, with scaled integers of 16 bits where it writes TIFF files.
    pub fn with_u16_scaled_tiff_output(self, min: F64, max: F64, fill_value: u16) -> (r: Result<Self>)
        ensures
            match self@ {
                BuiltinView::FloatTiff(w) => if scale_ok(min, max) {
                    r is Ok && r->Ok_0@ == BuiltinView::FloatTiff(
                        TiffWriterView {
                            sample_policy: TiffSamplePolicy::UInt16Scaled {
                                min: Some(min),
                                max: Some(max),
                                fill_value,
                            },
                            ..w
                        },
                    )
                } else {
                    is_invalid(
                        r,
                        "u16 scaled TIFF output requires finite max greater than min"@,
                    )
                },
                other => r is Ok && r->Ok_0@ == other,
            },
    {
        match self {
            BuiltinWriter::FloatTiff(writer) => match writer.with_u16_scaled_output(
                min,
                max,
                fill_value,
            ) {
                Ok(w) => Ok(BuiltinWriter::FloatTiff(w)),
                Err(e) => Err(e),
            },
            BuiltinWriter::Pgm(writer) => Ok(BuiltinWriter::Pgm(writer)),
            BuiltinWriter::SimpleImage(writer) => Ok(BuiltinWriter::SimpleImage(writer)),
        }
    }

    /// The file of an image. Only a writer of images makes one.
    pub fn encode_image(&self, image: &Image, extension: Option<&str>) -> (r: Result<Vec<u8>>)
        ensures
            match self@ {
                BuiltinView::Pgm(_) => is_unsupported(
                    r,
                    "PGM writer cannot save finalized RGB/RGBA image buffers"@,
                ),
                BuiltinView::FloatTiff(_) => is_unsupported(
                    r,
                    "float TIFF image writing from finalized display images"@,
                ),
                BuiltinView::SimpleImage(_) => png_outcome(
                    r,
                    image@,
                    match extension {
                        Some(t) => Some(t@),
                        None => None,
                    },
                ),
            },
    {
        match self {
            BuiltinWriter::Pgm(_) => Err(
                RustySatError::unsupported("PGM writer cannot save finalized RGB/RGBA image buffers"),
            ),
            BuiltinWriter::FloatTiff(_) => Err(
                RustySatError::unsupported("float TIFF image writing from finalized display images"),
            ),
            BuiltinWriter::SimpleImage(writer) => writer.encode_image(image, extension),
        }
    }

    /// The file of a data set. `level` and `next` serve the writers of grey levels, the other
    /// functions the writer of TIFF files.
    pub fn encode_dataset<
        G: Fn(F64, F64, F64) -> F64,
        A: Fn(F64) -> F64,
        U: Fn(F64, F64, F64) -> F64,
        Z: Fn(F64, F64, usize) -> F64,
        S: Fn(F64, F64) -> F64,
        L: Fn(F64, F64) -> F64,
        T: Fn(F64, F64) -> F64,
        P: Fn(String) -> Option<(F64, String)>,
        M: Fn(F64, F64) -> (F64, String),
    >(
        &self,
        dataset: &Dataset,
        extension: Option<&str>,
        level: &G,
        next: &A,
        scaled: &U,
        pixel_size: &Z,
        spacing: &S,
        left: &L,
        top: &T,
        read: &P,
        minor: &M,
    ) -> (r: Result<Vec<u8>>)
        requires
            self matches BuiltinWriter::FloatTiff(w) ==> w@.tiles is Some
                ==> w@.tiles->Some_0.width * w@.tiles->Some_0.height * (policy_bits(
                w@.sample_policy,
            ) / 8) <= usize::MAX,
            forall|v: F64, a: F64, b: F64| #[trigger] level.requires((v, a, b)),
            forall|v: F64| #[trigger] next.requires((v,)),
            forall|v: F64, low: F64, high: F64| #[trigger] scaled.requires((v, low, high)),
            forall|a: F64, b: F64, n: usize| #[trigger] pixel_size.requires((a, b, n)),
            forall|a: F64, b: F64| #[trigger] spacing.requires((a, b)),
            forall|a: F64, b: F64| #[trigger] left.requires((a, b)),
            forall|a: F64, b: F64| #[trigger] top.requires((a, b)),
            forall|s: String| #[trigger] read.requires((s,)),
            forall|a: F64, rf: F64| #[trigger] minor.requires((a, rf)),
        ensures
            match self {
                BuiltinWriter::Pgm(w) => pgm_dataset_outcome(
                    r,
                    dataset@,
                    w.scale_of(),
                    w.fill(),
                    *level,
                    *next,
                ),
                BuiltinWriter::SimpleImage(w) => image_dataset_outcome(
                    r,
                    dataset@,
                    w@.bit_depth,
                    str_view(extension),
                    *level,
                    *next,
                ),
                BuiltinWriter::FloatTiff(w) => tiff_file_outcome(
                    r,
                    dataset@,
                    str_view(extension),
                    w@.sample_policy,
                    w@.compression,
                    w@.tiles,
                    *scaled,
                    *pixel_size,
                    *spacing,
                    *left,
                    *top,
                    *read,
                    *minor,
                ),
            },
    {
        match self {
            BuiltinWriter::Pgm(writer) => writer.encode_dataset(dataset, level, next),
            BuiltinWriter::SimpleImage(writer) => writer.encode_dataset(
                dataset,
                extension,
                level,
                next,
            ),
            BuiltinWriter::FloatTiff(writer) => writer.encode_dataset(
                dataset,
                extension,
                scaled,
                pixel_size,
                spacing,
                left,
                top,
                read,
                minor,
            ),
        }
    }
}

/// A text without its leading dots.
pub open spec fn without_dots(s: Seq<char>) -> Seq<char>
    decreases s.len(),
{
    if s.len() > 0 && s[0] == '.' {
        without_dots(s.drop_first())
    } else {
        s
    }
}

fn strip_dots(text: &str) -> (r: String)
    ensures
        r@ == without_dots(text@),
{
    let chars = to_chars(text);
    let ghost s = text@;
    let mut i: usize = 0;
    assert(s.skip(0) =~= s);
    while i < chars.len() && chars[i] == '.'
        invariant
            i <= chars@.len(),
            chars@ == s,
            without_dots(s) == without_dots(s.skip(i as int)),
        decreases chars@.len() - i,
    {
        assert(s.skip(i as int).drop_first() =~= s.skip(i + 1));
        assert(s.skip(i as int)[0] == '.');
        i = i + 1;
    }
    proof {
        let rest = s.skip(i as int);
        if rest.len() > 0 {
            assert(rest[0] == chars@[i as int]);
        }
        assert(s.subrange(i as int, s.len() as int) =~= rest);
    }
    part_of(&chars, i, chars.len())
}

/// What an extension stands for, whatever its case, the dots before it and the space
/// around it.
pub open spec fn extension_key(extension: Seq<char>) -> Seq<char> {
    lowered(without_dots(trimmed(extension)))
}

/// The error for samples that a TIFF file cannot have, if it cannot.
pub open spec fn factory_policy_error(policy: TiffSamplePolicy) -> Option<ErrorView> {
    match policy {
        TiffSamplePolicy::Float32 { fill_value } => if fill_value.magnitude() == INFINITE_32 {
            Some(
                ErrorView::InvalidInput("float32 TIFF fill value"@ + " must be finite or NaN"@),
            )
        } else {
            None
        },
        TiffSamplePolicy::Float64 { fill_value } => if !fill_value.finite() && !fill_value.nan() {
            Some(
                ErrorView::InvalidInput("float64 TIFF fill value"@ + " must be finite or NaN"@),
            )
        } else {
            None
        },
        TiffSamplePolicy::UInt16Scaled { min, max, .. } => if (min is None && max is None) || (
        min is Some && max is Some && scale_ok(min->Some_0, max->Some_0)) {
            None
        } else {
            Some(
                ErrorView::InvalidInput(
                    "u16 scaled TIFF output requires finite max greater than min, or autoscale"@,
                ),
            )
        },
    }
}

fn refuse_fill(name: &str) -> (r: RustySatError)
    ensures
        r@ == ErrorView::InvalidInput(name@ + " must be finite or NaN"@),
{
    let text = join2(name, " must be finite or NaN");
    RustySatError::invalid_input(text.as_str())
}

fn validate_tiff_sample_policy(sample_policy: &TiffSamplePolicy) -> (r: Result<()>)
    ensures
        match factory_policy_error(*sample_policy) {
            Some(e) => fails_with(r, e),
            None => r is Ok,
        },
{
    match *sample_policy {
        TiffSamplePolicy::Float32 { fill_value } => {
            let bits: u32 = fill_value.bits;
            if bits == INFINITE_32 || bits == 0xff80_0000 {
                return Err(refuse_fill("float32 TIFF fill value"));
            }
            Ok(())
        },
        TiffSamplePolicy::Float64 { fill_value } => {
            if !fill_value.is_finite() && !fill_value.is_nan() {
                return Err(refuse_fill("float64 TIFF fill value"));
            }
            Ok(())
        },
        TiffSamplePolicy::UInt16Scaled { min, max, .. } => {
            let accepted = match min {
                Some(low) => match max {
                    Some(high) => low.is_finite() && high.is_finite() && !high.le(low),
                    None => false,
                },
                None => max.is_none(),
            };
            if !accepted {
                return Err(
                    RustySatError::invalid_input(
                        "u16 scaled TIFF output requires finite max greater than min, or autoscale",
                    ),
                );
            }
            Ok(())
        },
    }
}

/// What a factory makes writers with, as a mathematical value.
pub struct FactoryView {
    pub png_bit_depth: SimpleImageDatasetBitDepth,
    pub tiff_sample_policy: TiffSamplePolicy,
}

/// What writers are made with.
#[derive(Debug, PartialEq)]
pub struct BuiltinWriterFactory {
    png_bit_depth: SimpleImageDatasetBitDepth,
    tiff_sample_policy: TiffSamplePolicy,
}

impl View for BuiltinWriterFactory {
    type V = FactoryView;

    closed spec fn view(&self) -> FactoryView {
        FactoryView {
            png_bit_depth: self.png_bit_depth,
            tiff_sample_policy: self.tiff_sample_policy,
        }
    }
}

impl Clone for BuiltinWriterFactory {
    fn clone(&self) -> (r: Self)
        ensures
            r@ == self@,
    {
        proof {
            use_type_invariant(self);
        }
        BuiltinWriterFactory {
            png_bit_depth: self.png_bit_depth,
            tiff_sample_policy: self.tiff_sample_policy,
        }
    }
}

/// A factory with nothing chosen.
pub open spec fn plain_factory() -> FactoryView {
    FactoryView {
        png_bit_depth: SimpleImageDatasetBitDepth::Eight,
        tiff_sample_policy: TiffSamplePolicy::Float32 { fill_value: F32 { bits: NAN_BITS_32 } },
    }
}

/// The kind of writer for an extension.
pub open spec fn kind_for(key: Seq<char>) -> core::result::Result<BuiltinWriterKind, ErrorView> {
    if key == "pgm"@ {
        Ok(BuiltinWriterKind::Pgm)
    } else if key == "png"@ || key == "jpg"@ || key == "jpeg"@ {
        Ok(BuiltinWriterKind::SimpleImage)
    } else if key == "tif"@ || key == "tiff"@ {
        Ok(BuiltinWriterKind::FloatTiff)
    } else if key.len() == 0 {
        Err(ErrorView::InvalidInput("writer selection requires a non-empty extension"@))
    } else {
        Err(ErrorView::Unsupported("built-in writer for extension '"@ + key + "'"@))
    }
}

/// Whether `r` is the writer for an extension, or the obstacle.
pub open spec fn writer_outcome(
    r: Result<BuiltinWriter>,
    factory: FactoryView,
    extension: Seq<char>,
) -> bool {
    match kind_for(extension_key(extension)) {
        Err(e) => fails_with(r, e),
        Ok(BuiltinWriterKind::Pgm) => r is Ok && r->Ok_0 is Pgm && r->Ok_0->Pgm_0.scale_of() is None
            && r->Ok_0->Pgm_0.fill() == 0,
        Ok(BuiltinWriterKind::SimpleImage) => r is Ok && r->Ok_0@ == BuiltinView::SimpleImage(
            SimpleImageView {
                bit_depth: factory.png_bit_depth,
                ..plain_image_writer("simple_image"@)
            },
        ),
        Ok(BuiltinWriterKind::FloatTiff) => r is Ok && r->Ok_0@ == BuiltinView::FloatTiff(
            TiffWriterView {
                sample_policy: factory.tiff_sample_policy,
                ..plain_writer("float_tiff"@)
            },
        ),
    }
}

impl Default for BuiltinWriterFactory {
    fn default() -> (r: Self)
        ensures
            r@ == plain_factory(),
    {
        BuiltinWriterFactory {
            png_bit_depth: SimpleImageDatasetBitDepth::Eight,
            tiff_sample_policy: TiffSamplePolicy::Float32 { fill_value: F32 { bits: NAN_BITS_32 } },
        }
    }
}

impl BuiltinWriterFactory {
    /// The samples are such as a TIFF file can have.
    #[verifier::type_invariant]
    pub open spec fn inv(&self) -> bool {
        factory_policy_error(self@.tiff_sample_policy) is None
    }

    pub fn new() -> (r: Self)
        ensures
            r@ == plain_factory(),
    {
        Self::default()
    }

    pub fn with_png_bit_depth(self, bit_depth: SimpleImageDatasetBitDepth) -> (r: Self)
        ensures
            r@ == (FactoryView { png_bit_depth: bit_depth, ..self@ }),
    {
        proof {
            use_type_invariant(&self);
        }
        BuiltinWriterFactory {
            png_bit_depth: bit_depth,
            tiff_sample_policy: self.tiff_sample_policy,
        }
    }

    pub fn with_tiff_sample_policy(self, sample_policy: TiffSamplePolicy) -> (r: Result<Self>)
        ensures
            match factory_policy_error(sample_policy) {
                Some(e) => fails_with(r, e),
                None => r is Ok && r->Ok_0@ == (FactoryView {
                    tiff_sample_policy: sample_policy,
                    ..self@
                }),
            },
    {
        match validate_tiff_sample_policy(&sample_policy) {
            Ok(()) => {},
            Err(e) => {
                return Err(e);
            },
        }
        Ok(
            BuiltinWriterFactory {
                png_bit_depth: self.png_bit_depth,
                tiff_sample_policy: sample_policy,
            },
        )
    }

    /// The writer for the extension of the name of a file, where it has one.
    pub fn writer_for_path(&self, extension: Option<&str>) -> (r: Result<BuiltinWriter>)
        ensures
            match extension {
                None => is_invalid(r, "writer selection requires a filename extension"@),
                Some(text) => writer_outcome(r, self@, text@),
            },
    {
        match extension {
            Some(text) => self.writer_for_extension(text),
            None => Err(
                RustySatError::invalid_input("writer selection requires a filename extension"),
            ),
        }
    }

    /// The writer for an extension.
    pub fn writer_for_extension(&self, extension: &str) -> (r: Result<BuiltinWriter>)
        ensures
            writer_outcome(r, self@, extension@),
    {
        let bare = trim_text(extension);
        let undotted = strip_dots(bare.as_str());
        let lower = lower_text(undotted.as_str());
        let key = lower.as_str();
        if same_text(key, "pgm") {
            Ok(BuiltinWriter::Pgm(PgmWriter::new()))
        } else if same_text(key, "png") || same_text(key, "jpg") || same_text(key, "jpeg") {
            Ok(
                BuiltinWriter::SimpleImage(
                    SimpleImageWriter::default().with_dataset_bit_depth(self.png_bit_depth),
                ),
            )
        } else if same_text(key, "tif") || same_text(key, "tiff") {
            match float_tiff_writer_from_policy(&self.tiff_sample_policy) {
                Ok(writer) => {
                    proof {
                        use_type_invariant(self);
                    }
                    Ok(BuiltinWriter::FloatTiff(writer))
                },
                Err(e) => {
                    proof {
                        use_type_invariant(self);
                    }
                    Err(e)
                },
            }
        } else if key.is_empty() {
            Err(RustySatError::invalid_input("writer selection requires a non-empty extension"))
        } else {
            let text = join3("built-in writer for extension '", key, "'");
            Err(RustySatError::unsupported(text.as_str()))
        }
    }
}

/// The writer of TIFF files with such samples.
fn float_tiff_writer_from_policy(sample_policy: &TiffSamplePolicy) -> (r: Result<FloatTiffWriter>)
    ensures
        match factory_policy_error(*sample_policy) {
            Some(e) => fails_with(r, e),
            None => r is Ok && r->Ok_0@ == (TiffWriterView {
                sample_policy: *sample_policy,
                ..plain_writer("float_tiff"@)
            }),
        },
{
    match validate_tiff_sample_policy(sample_policy) {
        Ok(()) => {},
        Err(e) => {
            return Err(e);
        },
    }
    Ok(FloatTiffWriter::default().with_sample_policy(*sample_policy))
}

/// The writer for the extension of the name of a file, with nothing chosen.
pub fn writer_for_path(extension: Option<&str>) -> (r: Result<BuiltinWriter>)
    ensures
        match extension {
            None => is_invalid(r, "writer selection requires a filename extension"@),
            Some(text) => writer_outcome(r, plain_factory(), text@),
        },
{
    BuiltinWriterFactory::default().writer_for_path(extension)
}

/// The writer for an extension, with nothing chosen.
pub fn writer_for_extension(extension: &str) -> (r: Result<BuiltinWriter>)
    ensures
        writer_outcome(r, plain_factory(), extension@),
{
    BuiltinWriterFactory::default().writer_for_extension(extension)
}

proof fn lemma_lower_space(c: char)
    ensures
        crate::text::is_space(lower_char(c)) == crate::text::is_space(c),
        (lower_char(c) == '.') == (c == '.'),
{
}

proof fn lemma_trimmed_start_lowered(s: Seq<char>)
    ensures
        lowered(trimmed_start(s)) == trimmed_start(lowered(s)),
    decreases s.len(),
{
    if s.len() > 0 {
        lemma_lower_space(s[0]);
        assert(lowered(s)[0] == lower_char(s[0]));
        if crate::text::is_space(s[0]) {
            lemma_trimmed_start_lowered(s.drop_first());
            assert(lowered(s).drop_first() =~= lowered(s.drop_first()));
        }
    }
}

proof fn lemma_trimmed_end_lowered(s: Seq<char>)
    ensures
        lowered(trimmed_end(s)) == trimmed_end(lowered(s)),
    decreases s.len(),
{
    if s.len() > 0 {
        lemma_lower_space(s.last());
        assert(lowered(s).last() == lower_char(s.last()));
        if crate::text::is_space(s.last()) {
            lemma_trimmed_end_lowered(s.drop_last());
            assert(lowered(s).drop_last() =~= lowered(s.drop_last()));
        }
    }
}

proof fn lemma_without_dots_lowered(s: Seq<char>)
    ensures
        lowered(without_dots(s)) == without_dots(lowered(s)),
    decreases s.len(),
{
    if s.len() > 0 {
        lemma_lower_space(s[0]);
        assert(lowered(s)[0] == lower_char(s[0]));
        if s[0] == '.' {
            lemma_without_dots_lowered(s.drop_first());
            assert(lowered(s).drop_first() =~= lowered(s.drop_first()));
        }
    }
}

/// Two extensions that differ in nothing but their case stand for the same.
pub proof fn lemma_extension_case(a: Seq<char>, b: Seq<char>)
    requires
        lowered(a) == lowered(b),
    ensures
        extension_key(a) == extension_key(b),
{
    lemma_trimmed_start_lowered(a);
    lemma_trimmed_end_lowered(trimmed_start(a));
    lemma_without_dots_lowered(trimmed(a));
    lemma_trimmed_start_lowered(b);
    lemma_trimmed_end_lowered(trimmed_start(b));
    lemma_without_dots_lowered(trimmed(b));
}

/// An extension without space around it stands for the same with a dot before it.
pub proof fn lemma_extension_dot(extension: Seq<char>)
    requires
        trimmed(extension) == extension,
    ensures
        extension_key(seq!['.'] + extension) == extension_key(extension),
{
    let dotted = seq!['.'] + extension;
    assert(dotted[0] == '.');
    assert(!crate::text::is_space('.'));
    assert(trimmed_start(dotted) == dotted);
    assert(trimmed_end(dotted) == dotted) by {
        if extension.len() > 0 {
            assert(dotted.last() == extension.last());
            lemma_trimmed_fixed(extension);
        } else {
            assert(dotted.last() == '.');
        }
    }
    assert(dotted.drop_first() =~= extension);
}

/// A text without space around it does not end with space.
proof fn lemma_trimmed_fixed(s: Seq<char>)
    requires
        trimmed(s) == s,
        s.len() > 0,
    ensures
        !crate::text::is_space(s.last()),
{
    let start = trimmed_start(s);
    lemma_start_is_suffix(s);
    lemma_end_not_space(start);
}

proof fn lemma_start_is_suffix(s: Seq<char>)
    ensures
        trimmed_start(s).len() <= s.len(),
    decreases s.len(),
{
    if s.len() > 0 && crate::text::is_space(s[0]) {
        lemma_start_is_suffix(s.drop_first());
    }
}

proof fn lemma_end_not_space(s: Seq<char>)
    ensures
        trimmed_end(s).len() > 0 ==> !crate::text::is_space(trimmed_end(s).last()),
    decreases s.len(),
{
    if s.len() > 0 && crate::text::is_space(s.last()) {
        lemma_end_not_space(s.drop_last());
    }
}

/// The writer for an extension: graymaps for `pgm`, images for `png`, `jpg` and `jpeg`, and TIFF
/// files for `tif` and `tiff`, with what the factory has chosen; there is none for another.
pub proof fn lemma_writer_of_extension(
    r: Result<BuiltinWriter>,
    factory: FactoryView,
    extension: Seq<char>,
)
    requires
        writer_outcome(r, factory, extension),
    ensures
        ({
            let key = lowered(without_dots(trimmed(extension)));
            let map = key == "pgm"@;
            let image = key == "png"@ || key == "jpg"@ || key == "jpeg"@;
            let tiff = key == "tif"@ || key == "tiff"@;
            &&& r is Ok <==> map || image || tiff
            &&& map ==> r->Ok_0 is Pgm && r->Ok_0->Pgm_0.scale_of() is None
                && r->Ok_0->Pgm_0.fill() == 0
            &&& image ==> r->Ok_0@ is SimpleImage && r->Ok_0@->SimpleImage_0.bit_depth
                == factory.png_bit_depth && r->Ok_0@->SimpleImage_0.name == "simple_image"@
            &&& tiff ==> r->Ok_0@ is FloatTiff && r->Ok_0@->FloatTiff_0.sample_policy
                == factory.tiff_sample_policy && r->Ok_0@->FloatTiff_0.compression is Uncompressed
                && r->Ok_0@->FloatTiff_0.tiles is None && r->Ok_0@->FloatTiff_0.name
                == "float_tiff"@
        }),
{
    reveal_strlit("pgm");
    reveal_strlit("png");
    reveal_strlit("jpg");
    reveal_strlit("jpeg");
    reveal_strlit("tif");
    reveal_strlit("tiff");
    assert("pgm"@.len() == 3 && "pgm"@[1] == 'g');
    assert("png"@.len() == 3 && "png"@[1] == 'n');
    assert("jpg"@.len() == 3 && "jpg"@[0] == 'j');
    assert("tif"@.len() == 3 && "tif"@[0] == 't');
    assert("jpeg"@.len() == 4 && "jpeg"@[0] == 'j');
    assert("tiff"@.len() == 4 && "tiff"@[0] == 't');
}

/// A text without its leading dots begins with another character, and only dots are before it.
pub proof fn lemma_without_dots(s: Seq<char>) -> (n: int)
    ensures
        0 <= n <= s.len(),
        without_dots(s) == s.skip(n),
        forall|i: int| 0 <= i < n ==> #[trigger] s[i] == '.',
        n < s.len() ==> s[n] != '.',
    decreases s.len(),
{
    if s.len() > 0 && s[0] == '.' {
        let m = lemma_without_dots(s.drop_first());
        assert(s.drop_first().skip(m) =~= s.skip(m + 1));
        assert forall|i: int| 0 <= i < m + 1 implies #[trigger] s[i] == '.' by {
            if i > 0 {
                assert(s.drop_first()[i - 1] == '.');
            }
        }
        if m + 1 < s.len() {
            assert(s[m + 1] == s.drop_first()[m]);
        }
        m + 1
    } else {
        assert(s.skip(0) =~= s);
        0
    }
}

} // verus!

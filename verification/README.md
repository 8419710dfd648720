# rusty_sat

Resampling of satellite data between swaths and areas, and the files that hold the
results, written in Verus.

The library in `src/` decides and proves: which source pixels a target pixel takes, how
planes are cut, repeated, averaged and assembled, what a reference system means, which
bytes a file holds. Each public function states in its contract what it returns and every
error with the inputs that give it. Numbers with a fraction are carried as IEEE 754 bit
patterns; comparing, rounding, widening, narrowing and encoding them is verified, while
sums, products and the like are handed in as functions and appear in the contracts as
such.

## Layout

| Modules | What they hold |
| --- | --- |
| `number`, `rounding`, `widening`, `narrowing`, `bytes`, `text`, `text_map` | numbers by their bits, rounding and conversion, byte order, texts, ordered maps |
| `array`, `nd_utils`, `chunks`, `assemble`, `dataset`, `metadata` | arrays with named dimensions, planes in chunks, data sets |
| `area`, `swath`, `geometry`, `crs`, `geo_keys` | geometries, reference systems and their keys in files |
| `yaml`, `area_config`, `swath_config` | geometries that are described in YAML |
| `spatial_index`, `neighbour_search`, `neighbour` | nearest points and sampling by neighbours |
| `nearest`, `bilinear`, `bucket`, `bucket_fraction`, `ewa`, `native`, `native_resampler`, `linesample` | the resampling methods |
| `slicer`, `reduction`, `data_reduce` | which part of the data is needed |
| `arithmetic`, `resampler`, `pipeline`, `source_geometry`, `scene`, `image_container` | choosing, preparing and running a resampler, with the functions of numbers it is given |
| `pgm`, `simple_image`, `tiff_layout`, `float_tiff`, `writers` | graymaps, PNG images, TIFF files, and the choice between them |

Laws that span several functions are public proof functions beside the functions they
speak of, such as `float_tiff::lemma_sample_read_back` (what is written is read back),
`nearest::lemma_chunks_agree_with_plane` (chunks give what the whole plane gives),
`native::lemma_mean_of_repeated` (averaging undoes repetition),
`linesample::lemma_sampled_twice` (sampling twice is sampling once) and `crs::lemma_read_again`
(the text form of a reference system names it). Where a law rests on the arithmetic that is
handed in, such as that it gives one result for each argument, its `requires` says so.

`app/` does the floating-point arithmetic and the work with files, `tests/` runs the
library with both.

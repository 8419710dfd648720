//! Resampling of satellite data between swaths and areas, and the files that hold the
//! results.
//!
//! Numbers with a fraction are carried as their bit patterns; what has to be computed
//! with them is handed in by the caller as a function.

#![allow(unused_imports)]

pub mod area;
pub mod area_config;
pub mod arithmetic;
pub mod array;
pub mod assemble;
pub mod bilinear;
pub mod bucket;
pub mod bucket_fraction;
pub mod bytes;
pub mod chunks;
pub mod crs;
pub mod data_reduce;
pub mod dataset;
pub mod error;
pub mod ewa;
pub mod float_tiff;
pub mod geo_keys;
pub mod geometry;
pub mod image_container;
pub mod linesample;
pub mod metadata;
pub mod narrowing;
pub mod native;
pub mod native_resampler;
pub mod nd_utils;
pub mod nearest;
pub mod neighbour;
pub mod neighbour_search;
pub mod number;
pub mod pgm;
pub mod pipeline;
pub mod reduction;
pub mod resampler;
pub mod rounding;
pub mod scene;
pub mod selection;
pub mod simple_image;
pub mod slicer;
pub mod source_geometry;
pub mod spatial_index;
pub mod swath;
pub mod swath_config;
pub mod text;
pub mod text_map;
pub mod tiff_layout;
pub mod widening;
pub mod writers;
pub mod yaml;

#![allow(unused_imports)]
//! Pull-based geospatial pipelines: caps negotiation, chunk caching and the
//! rules of the tile and zonal-statistics server, as verified code.

pub mod assemble;
pub mod assemble_laws;
pub mod band_math;
pub mod bandwise;
pub mod bytes;
pub mod cache;
pub mod cache_laws;
pub mod caps;
pub mod caps_laws;
pub mod chunk;
pub mod chunk_ops;
pub mod cog;
pub mod composite;
pub mod composite_laws;
pub mod config;
pub mod cutting;
pub mod dissolve;
pub mod element_laws;
pub mod elements;
pub mod encode;
pub mod engine;
pub mod engine_laws;
pub mod error;
pub mod folding;
pub mod eval_laws;
pub mod formula;
pub mod formula_laws;
pub mod fragments;
pub mod geometry;
pub mod geometry_laws;
pub mod graph;
pub mod join_laws;
pub mod json;
pub mod las_source;
pub mod lexing_laws;
pub mod messages;
pub mod number;
pub mod offer_laws;
pub mod pixel_laws;
pub mod plug;
pub mod plug_laws;
pub mod pyramid;
pub mod range_cache;
pub mod ranks;
pub mod reproject;
pub mod request;
pub mod request_laws;
pub mod resample;
pub mod rfc3339;
pub mod search_cache;
pub mod sampling;
pub mod seams;
pub mod server_laws;
pub mod solver;
pub mod solver_laws;
pub mod source_laws;
pub mod spill;
pub mod spill_laws;
pub mod stac;
pub mod stac_items;
pub mod stages;
pub mod strips;
pub mod sums;
pub mod table;
pub mod tensor;
pub mod tensor_laws;
pub mod text;
pub mod time;
pub mod vec_laws;
pub mod vec_ops;
pub mod vec_source;
pub mod vector;
pub mod window;
pub mod zonal;
pub mod zonal_laws;
pub mod zones;

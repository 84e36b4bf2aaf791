//! A spectral renderer whose arithmetic is part of the proof.
//!
//! Numbers are IEEE 754 encodings ([`scalar::Scalar`], [`double::Double`]), and
//! every operation on them is proved to be the exact result rounded to the
//! nearest number. On top of that stand the random streams, the scene and its
//! intersections, the materials, the path tracer, the light tracer and the haze
//! estimators, each with a contract that gives its result to the bit, and the
//! host's half of the device programs: their parameters, layouts, dispatches
//! and films.
//!
//! Sines, powers and exponentials are the caller's: they come in as functions
//! that have one result for each argument ([`supplied`]).

pub mod accum;
pub mod albedo;
pub mod aperture;
pub mod args;
pub mod arith;
pub mod binding;
pub mod brush;
pub mod bytes;
pub mod camera;
pub mod canvas;
pub mod capture;
pub mod cie;
pub mod comb;
pub mod constants;
pub mod convert;
pub mod data;
pub mod device;
pub mod dispersion;
pub mod double;
pub mod doubling;
pub mod error;
pub mod exact;
pub mod exposure;
pub mod film;
pub mod fine;
pub mod flight;
pub mod frame;
pub mod fresnel;
pub mod geom;
pub mod glasses;
pub mod globe;
pub mod grazing;
pub mod haze;
pub mod inscatter;
pub mod interior;
pub mod interpolation;
pub mod lighttrace;
pub mod lobe;
pub mod material;
pub mod meters;
pub mod mirror;
pub mod norm;
pub mod optics;
pub mod orbit;
pub mod order;
pub mod photons;
pub mod picture;
pub mod polarisation;
pub mod primaries;
pub mod projection;
pub mod raster;
pub mod refraction;
pub mod relative;
pub mod reversal;
pub mod rng;
pub mod scalar;
pub mod scene;
pub mod segment;
pub mod sellmeier;
pub mod sight;
pub mod snell;
pub mod sorting;
pub mod spectrum;
pub mod splat;
pub mod squares;
pub mod stage;
pub mod stride;
pub mod supplied;
pub mod text;
pub mod tone;
pub mod tracer;
pub mod transmission;
pub mod triple;
pub mod upload;
pub mod vector;
pub mod viewer;
pub mod viewport;
pub mod volume;
pub mod walk;
pub mod wiring;

//! Core of a Whitted-style ray tracer: the pixel raster with its exact
//! PPM serialisation, the structural OBJ mesh parser, the ordered
//! intersection bookkeeping with refractive-media tracking, and the
//! homogeneous-coordinate typing discipline for points and vectors.
//!
//! Geometry is carried through these modules in caller-supplied integer
//! encodings, so that every rule about ordering, selection, grouping and
//! serialisation is stated and proved here; the numeric kernel that
//! produces those encodings lives with the renderer that drives the
//! library.

pub mod canvas;
pub mod intersections;
pub mod light;
pub mod obj;
pub mod object;
pub mod patterns;
pub mod shapes;
pub mod tuple;

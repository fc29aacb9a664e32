//! The verified core of a CPU ray tracer: everything that is decided on
//! whole numbers and on order.
//!
//! Scalars of the scene come in as ordered integer keys (`coord`), so the
//! library compares, sorts and selects exactly as the numbers would, and
//! leaves their arithmetic to the caller.
//!
//! - `geometry`: where a ray enters and leaves a box, which root counts.
//! - `bvh`: the median-split bounding-volume hierarchy and its construction.
//! - `traverse`: the nearest hit, through the hierarchy or by linear scan.
//! - `scene`: the objects of a scene, its hierarchy, and queries of both.
//! - `shading`: when a ray ends, what a hit is made of, which lights cast
//!   shadows.
//! - `scheduler`: which pixels a frame shades, which it reuses, and how a
//!   reduced frame is enlarged.
//! - `options`: the quality settings and the commands that change them.
//! - `obj`: the fields, indices and faces of a model file.

pub mod bvh;
pub mod coord;
pub mod geometry;
pub mod obj;
pub mod options;
pub mod scene;
pub mod scheduler;
pub mod shading;
pub mod traverse;

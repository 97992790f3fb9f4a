//! Convex hulls of finite point sets in the plane, computed with Andrew's
//! monotone chain algorithm over exact integer coordinates.

pub mod geometry;
pub mod sorting;
pub mod hull;
pub mod convexity;

//! Classification of image pixels into intensity bands with a histogram-based
//! k-means, and the share of pixels that fall in the highest band.

pub mod classes;
pub mod classify;
pub mod error;
pub mod histogram;
pub mod kmeans;
pub mod raster;

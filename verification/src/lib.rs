//! Verified core of a k-nearest-neighbour fraud scorer over int16-quantized
//! transaction vectors, with an IVF (inverted file) index for fast queries.

pub mod distance;
pub mod selection;
pub mod knn;
pub mod ivf;
pub mod float_order;
pub mod kmeans;
pub mod dataset;
pub mod classifier;
pub mod mcc_risk;
pub mod encoding;
pub mod ivf_format;
pub mod reference_store;
pub mod eval;
pub mod exactness;

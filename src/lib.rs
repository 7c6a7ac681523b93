//! Loading of per-frame driving-sensor data: calibration records, object
//! annotations in three formats, binary point clouds, the assembly of a
//! frame's bundle, a bounded least-recently-used frame cache, and the
//! viewer's navigation state. Numbers from text are exact decimals; floats
//! appear only as the bit patterns of point-cloud values.
use vstd::prelude::*;

pub mod decimal;
pub mod text;
pub mod calib;
pub mod bbox;
pub mod objects;
pub mod supervisely;
pub mod pcd;
pub mod frame;
pub mod cache;
pub mod viewer;
pub mod names;

verus! {

/// Which annotation convention a text label file follows.
#[derive(Debug, Clone, Copy, PartialEq, Eq, Structural, Hash)]
pub enum PcdFormat {
    Libpcl,
    Philly,
}

} // verus!

//! Port identifiers of the control signals exchanged between the telescope's
//! actors. Each names one signal; it carries no data.
use vstd::prelude::*;

verus! {

/// Port identifier of the mount encoder readings.
pub struct MountEncoders;

/// Port identifier of the mount set point.
pub struct MountSetPoint;

/// Port identifier of the mount drive torques.
pub struct MountTorques;

/// Port identifier of the residual secondary mirror modes.
pub struct ResidualM2modes;

} // verus!

//! Deterministic fixed-point core of a small 2D arena simulation.
//!
//! Every quantity is an integer count of millionths: positions, speeds,
//! radii, health and colour channels are stored in `1 / UNIT` steps, time in
//! microseconds. The same inputs therefore give the same world on every
//! machine, and every rule of the simulation is stated over mathematical
//! integers and proved.

pub mod fixed;
pub mod vector;
pub mod entity;
pub mod world;
pub mod collision;
pub mod total;
pub mod damage;
pub mod kinematics;
pub mod intent;
pub mod feedback;
pub mod lifecycle;
pub mod tick;

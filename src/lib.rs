//! Move-and-slide resolution, depenetration and contact events for entities
//! of a 2D simulation, in fixed-point arithmetic.
pub mod geom;
pub mod mover;
pub mod mover_laws;
pub mod entity;
pub mod world;

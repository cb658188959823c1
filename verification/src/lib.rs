//! A packed-operand convolution engine.
//!
//! A strided, dilated 1-D convolution is reframed as a register-blocked matrix
//! multiply.  Two integer offset tables encode the convolution geometry as pure
//! address arithmetic, a packer rearranges the filter tensor into panel-major
//! layout for a microkernel's row-tile width, and a driver walks full and
//! partial tiles, routing partial tiles through a scratch buffer so that no
//! write ever leaves the real output rectangle.

pub mod conv;
pub mod geometry;
pub mod kernel;
pub mod laws;
pub mod tidy;

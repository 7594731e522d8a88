pub mod scalar;
pub mod vector;
pub mod segment;
pub mod frame;
pub mod shape;
pub mod painter;
pub mod composite_painter;

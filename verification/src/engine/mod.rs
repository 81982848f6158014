pub mod minimap;
pub mod raycasting;

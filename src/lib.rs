//! Level and character simulation core of a 2D platformer: collider reduction of a tile
//! occupancy grid, layered tileset assembly, frame-timed sprite animation, the jump state
//! machine of a kinematic character controller, level assembly from editor data, collision
//! layers, and hex colours.
pub mod animation;
pub mod controller;
pub mod enemy;
pub mod geom;
pub mod level;
pub mod level_collision;
pub mod physics;
pub mod theme;
pub mod tileset_image;

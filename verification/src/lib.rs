//! Game logic of a raycasting maze shooter.
pub mod grid;
pub mod bfs;
pub mod level;
pub mod sprites;
pub mod combat;
pub mod game;
pub mod color;
pub mod framebuffer;
pub mod draw;
pub mod hud;
pub mod textures;
pub mod map_view;
pub mod world_renderer;
pub mod caster;

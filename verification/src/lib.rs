//! Work distribution, framed transport and bookkeeping for a ray tracer
//! that renders one image on many threads or on many machines.

pub mod camera;
pub mod frame_buffer;
pub mod helpers;
pub mod init;
pub mod net;
pub mod num;
pub mod octree;
pub mod random_iterator;
pub mod renderer;
pub mod resolution;
pub mod scene_readers;
pub mod util;
pub mod vector;

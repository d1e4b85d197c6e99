//! The decisions of a small OpenGL scene viewer: vertex data layout, held
//! keys and the camera moves they make, window events, the scene graph and
//! the order in which drawing walks it, and the scene that is shown.

pub mod keys;
pub mod layout;
pub mod scene;
pub mod window;
pub mod world;

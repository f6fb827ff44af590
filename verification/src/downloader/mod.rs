pub mod enc;
pub mod fetch;
pub mod playlist;
pub mod vid;
pub mod sub;
pub mod drm;
pub mod step;

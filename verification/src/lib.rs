pub mod cameraframe;
pub mod framestats;
pub mod framewriter;
pub mod serfile;
pub mod starfinder;

pub use starfinder::find_stars;

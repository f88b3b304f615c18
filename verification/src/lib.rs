//! Decoder for the fixed-layout fishing-game data images: chained offset
//! tables of spot identifiers, the bait rating grid, and the rotation
//! scoring engine that averages the best per-fisher totals over every
//! rotation assignment.

pub mod image;
pub mod ratings;
pub mod scoring;
pub mod spots;
pub mod weights;

pub use image::Rom;
pub use image::RomError;
pub use image::Version;
pub use scoring::ScoreStats;

pub mod cycle_image;
pub mod indexed_image;
pub mod living_world;
pub mod rgb_image;

pub use self::cycle_image::CycleImage;
pub use self::indexed_image::IndexedImage;
pub use self::rgb_image::RgbImage;
pub use self::living_world::{LivingWorld, TimedEvent};

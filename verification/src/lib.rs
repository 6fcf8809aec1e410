pub mod chance;
pub mod dice_thrower;
pub mod characterize;
pub mod results;
pub mod order;
pub mod battle;
pub mod aggregate;
pub mod runner;

pub use characterize::CharacterStruct;
pub use characterize::HealthState;
pub use characterize::Team;

pub mod generate;
pub mod params;
pub mod passphrase;
pub mod rng;

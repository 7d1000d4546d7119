pub mod distribution;
pub mod history;
pub mod mirostat;
pub mod penalties;
pub mod rng;
pub mod sampler;
pub mod temperature;

pub mod checks;
pub mod handoff;
pub mod hooks;
pub mod markdown;
pub mod trust;

//! Verified decision logic of the CrabCage sandbox launcher and filtering proxy.

pub mod config;
pub mod environment;
pub mod paths;
pub mod proxy;
pub mod sandbox;
pub mod session;
pub mod setup;
pub mod text;
pub mod unicode;

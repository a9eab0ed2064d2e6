//! Deterministic, headless card-game simulation engine: the verified core.
#![allow(unused_imports)]

pub mod types;
pub mod operations;
pub mod resolver;
pub mod error;
pub mod trace;
pub mod rng;
pub mod world;
pub mod sorting;
pub mod enchantment;
pub mod aura;
pub mod aura_refresh;
pub mod zone;
pub mod player;
pub mod action_validation;
pub mod action;
pub mod event_resolver;
pub mod driver;
pub mod resolution_validation;
pub mod setup;
pub mod snapshot;
pub mod trigger;
pub mod simulation;
pub mod checkpoint;
pub mod checkpoint_roundtrip;

//! Client-side logic for controlling a single smart-plug entity exposed by a
//! home-automation server: the entity data model, the JSON wire codec, the
//! request builders for the state and service endpoints, and the toggle
//! decision rule.

pub mod client;
pub mod entity;
pub mod json;
pub mod strutil;

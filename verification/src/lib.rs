//! The model layer of a desktop assistant, with every rule it follows stated and proved.

pub mod heartbeat;
pub mod images;
pub mod instructions;
pub mod jobs;
pub mod json;
pub mod lists;
pub mod lookout;
pub mod magpie;
pub mod memory;
pub mod news;
pub mod office;
pub mod planner;
pub mod project;
pub mod text;
pub mod thread;
pub mod time;
pub mod tools;
pub mod web;
pub mod wire;

pub mod actuate;
pub mod blocks;
pub mod custom;
pub mod event;
pub mod graph;
pub mod live;
pub mod memory;
pub mod model;
pub mod ollama;
pub mod perceive;
pub mod plan;
pub mod rig;
pub mod runner;
pub mod sense;
pub mod source;
pub mod talk;
pub mod trace;
pub mod value;
pub mod walk;

//! Save and restore desktop window layouts: the verified planning core.

pub mod app_support;
pub mod capture;
pub mod cli;
pub mod configure;
pub mod error;
pub mod execute;
pub mod filter;
pub mod laws;
pub mod model;
pub mod order;
pub mod plan;
pub mod plan_laws;
pub mod restore;
pub mod script;
pub mod selftest;
pub mod storage;
pub mod style;
pub mod tabs;
pub mod text;
pub mod title;
pub mod verify;
pub mod world;

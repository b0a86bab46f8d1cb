//! `photoflow`: the verified core of a personal photography-library tool.

pub mod commands;
pub mod config;
pub mod fs_util;
pub mod naming;
pub mod order;
pub mod path;
pub mod text;

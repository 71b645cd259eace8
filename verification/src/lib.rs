use vstd::prelude::*;

pub mod text;
pub mod changelog;
pub mod update;
pub mod pricing;
pub mod theme;
pub mod notes;
pub mod layout;

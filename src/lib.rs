use vstd::prelude::*;

pub mod text;
pub mod directives;
pub mod links;
pub mod metadata;
pub mod order;
pub mod tags;
pub mod page;
pub mod site;

pub use page::TemplateSource;

//! Trail: the verified core of a static documentation-site builder.
pub mod article;
pub mod cli;
pub mod export;
pub mod highlight;
pub mod json;
pub mod images;
pub mod linking;
pub mod links;
pub mod load;
pub mod prose;
pub mod markdown;
pub mod markup;
pub mod mirror;
pub mod outline;
pub mod refs;
pub mod render;
pub mod rollup;
pub mod search;
pub mod site;
pub mod tabs;
pub mod text;
pub mod validate;

//! A static-site content pipeline with verified contracts: article metadata,
//! HTML output shaping, index and feed generation, and the source snapshot map.

pub mod text;
pub mod meta;
pub mod html;
pub mod feed;
pub mod article;
pub mod snapshot;
pub mod settings;
pub mod theme;

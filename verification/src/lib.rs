//! The Open Knowledge Format toolkit: concept documents, markdown links and
//! headings, the search scorer and query syntax, the site configuration and
//! page layout, and the studio's document renderer and file tree.
pub mod chars;
pub mod text;
pub mod markdown;
pub mod concept_id;
pub mod links;
pub mod fuzzy;
pub mod lifecycle;
pub mod search;
pub mod slugs;
pub mod document;
pub mod frontmatter;
pub mod studio;
pub mod studio_step;
pub mod yaml;
pub mod css;
pub mod config;
pub mod site;
pub mod dashboard;
pub mod concept_page;
pub mod graph_page;
pub mod directory_page;
pub mod nav;
pub mod body_html;
pub mod cli;
pub mod pane;
pub mod file_tree;

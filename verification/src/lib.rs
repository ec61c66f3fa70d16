pub mod text;
pub mod strmap;
pub mod dom;
pub mod scan;
pub mod html_lex;
pub mod html;
pub mod css;
pub mod length;
pub mod sheet;
pub mod style;
pub mod atlas;
pub mod num;
pub mod fetch;
pub mod http;
pub mod crypto;
pub mod base64;
pub mod query;
pub mod cells;
pub mod bridge;
pub mod identity;
pub mod classlist;
pub mod inline_style;
pub mod tree_nav;
pub mod font;
pub mod access;
pub mod cli;
pub mod edges;
pub mod sources;
pub mod colors;
pub mod canvas;

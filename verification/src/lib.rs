//! Arena-based Markdown trees (MDAST) and their HTML (HAST) counterparts:
//! the node arena and its builder, binary codecs, the raw wire buffer,
//! structural patching, line/column lookup and HTML rendering.
pub mod node;
pub mod text;
pub mod arena;
pub mod builder;
pub mod codec;
pub mod raw_buffer;
pub mod html;
pub mod line_index;
pub mod hast;
pub mod properties;
pub mod rebuild;
pub mod read_arena;
pub mod ascii;
pub mod autolink;
pub mod mdx;
pub mod jsx;
pub mod label;
pub mod label_nodes;
pub mod mdx_text;
pub mod source_map;
pub mod autolink_pass;
pub mod autolink_nodes;
pub mod autolink_plan;
pub mod autolink_arena;
pub mod jsx_arena;

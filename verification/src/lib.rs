//! Verified core of the Miasma poison server: the crawl-size arithmetic,
//! HTML escaping of the poison stream, request admission and content
//! negotiation, and the release check.

pub mod calculate_nodes;
pub mod chunk;
pub mod html_escaper;
pub mod routes;
pub mod version_check;

pub use calculate_nodes::page_count_per_bot;
pub use html_escaper::{escape_html_chunk, escape_html_item};
pub use routes::{handle_request, QueryParams};
pub use version_check::new_version_available;

//! An engine that blocks network requests and hides page elements by the rules
//! of filter lists.
//!
//! `engine` puts the parts together. `blocker` decides on requests, by the rules
//! of `filters::network`; `cosmetic_filter_cache` decides what is done to pages,
//! by the rules of `filters::cosmetic`. `lists` reads filter lists, `data_format`
//! saves engines and loads them. `outside` holds what is believed of other crates.
//!
//! What holds of all this is stated in modules of its own. `laws` speaks of every engine,
//! `list_laws`, `verdict_laws` and `page_laws` of those that are made of lines: what becomes
//! of requests and what is done on pages. `line_laws`, `option_laws` and `cosmetic_laws` say
//! what a line means, `match_laws` where a rule applies. `request_laws`, `resource_laws`,
//! `data_laws` and `text_laws` speak of requests, resources, saved engines and texts.

pub mod blocker;
pub mod codec;
pub mod cosmetic_filter_cache;
pub mod cosmetic_laws;
pub mod data_format;
pub mod data_laws;
pub mod directory;
pub mod engine;
pub mod filters;
pub mod laws;
pub mod layout;
pub mod line_laws;
pub mod list_laws;
pub mod lists;
pub mod match_laws;
pub mod msgpack;
pub mod optimizer;
pub mod option_laws;
pub mod option_names;
pub mod outside;
pub mod page_laws;
pub mod request;
pub mod request_laws;
pub mod resource_laws;
pub mod resources;
pub mod seqs;
pub mod text;
pub mod text_laws;
pub mod url_parser;
pub mod verdict_laws;

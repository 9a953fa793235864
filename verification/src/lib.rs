//! Discovery, canonical grouping, selection and persistence planning for web
//! fonts referenced by a page: stylesheet scanning with a bounded, cycle-safe
//! import crawl, a token-based family fingerprint heuristic, criteria
//! resolution over the discovered records, and collision-safe file naming.
pub mod text;

pub mod order;

pub mod model;

pub mod errors;

pub mod selection;

pub mod fingerprint;

pub mod inspect;

pub mod download;

pub mod resolve;

pub mod cssdecl;

pub mod cssscan;

pub mod cssparse;

pub mod extract;

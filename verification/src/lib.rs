//! Verified core of a game mod runtime: status codes, mod package metadata,
//! dependency resolution, patch reservations, input decoding and export names.

pub mod text;
pub mod status;
pub mod input;
pub mod ime;
pub mod patch;
pub mod export;
pub mod keyed;
pub mod version;
pub mod manifest;
pub mod resolve;
pub mod catalog;
pub mod hooks;
pub mod pack;
pub mod diagnostics;
pub mod host;
pub mod sdk;
pub mod launch;
pub mod lifecycle;
pub mod texture;
pub mod bytes_editor;
pub mod drafts;

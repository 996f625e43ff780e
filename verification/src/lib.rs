//! LunarAST interface-contract engine: route models, contract alignment,
//! intent overlays, topology maps and the small text protocols the CLI speaks.

pub mod text;
pub mod route;
pub mod interfaces;
pub mod topology;
pub mod patch;
pub mod guide;
pub mod types;
pub mod ci144;
pub mod changes;
pub mod review;
pub mod prompt;
pub mod pull;
pub mod menu;
pub mod share;
pub mod doctor;
pub mod repos;
pub mod totp;
pub mod keygen;
pub mod cleanup;
pub mod adapter;
pub mod mapping;

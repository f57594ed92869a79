//! Verified core of dom2figma: configuration rules, route slugs, screen
//! de-duplication and the text artefacts handed to the browser and to Figma.

pub mod text;
pub mod output;
pub mod config;
pub mod assets;
pub mod capture;
pub mod doctor;
pub mod serve;

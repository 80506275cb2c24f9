//! Start-up launcher logic: the list of items to launch, how a dropped path
//! or URL becomes an item, how an argument line is split, how an icon bitmap
//! becomes a data URL, and how a launch run is planned and reported.

pub mod text;
pub mod host;
pub mod config;
pub mod base64;
pub mod bmp;
pub mod icon;
pub mod launch;
pub mod commands;

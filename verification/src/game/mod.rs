//! Game-domain vocabulary shared by both apps.

pub mod map;

//! Combat statistics from the game's network traffic: packet decoding, target
//! identification and damage bookkeeping.
pub mod abyss;
pub mod advvision_index;
pub mod aliases;
pub mod attribution;
pub mod bits;
pub mod capture;
pub mod characters;
pub mod class_hint;
pub mod decimal;
pub mod display;
pub mod export;
pub mod figures;
pub mod float;
pub mod hexadecimal;
pub mod hit_context;
pub mod hotkey;
pub mod identifier;
pub mod import;
pub mod json;
pub mod model;
pub mod net_event;
pub mod net_identity;
pub mod network;
pub mod object_state;
pub mod parser;
pub mod protocol;
pub mod recognition;
pub mod resource_index;
pub mod runs;
pub mod runtime_mapping;
pub mod scene;
pub mod session;
pub mod sorting;
pub mod target_fact;
pub mod target_identity;
pub mod target_instance;
pub mod target_resolver;
pub mod target_track;
pub mod text;

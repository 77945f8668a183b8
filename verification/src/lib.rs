//! Verified core of the agent mission control panel and the workcat map.
//!
//! Mission control triages agent threads: [`markup`] takes Markdown out of
//! what they say, [`triage`] decides, [`digest`] reads stored threads,
//! [`mission`] lists them. The workcat map shows work items of a database of
//! briefs and events: [`brief`], [`events`], [`log`] and [`db`] read and
//! write it, [`map`] and the modules named after it hold the view, and
//! [`checkpoint`] commits, with [`restore`] for what it set aside.

pub mod text;
pub mod order;
pub mod textmap;
pub mod number;
pub mod time;
pub mod json;

pub mod markup;
pub mod markup_laws;
pub mod triage;
pub mod triage_laws;
pub mod case_laws;
pub mod ask_laws;
pub mod digest;
pub mod digest_laws;
pub mod fixtures;
pub mod mission;

pub mod status;
pub mod model;
pub mod brief;
pub mod brief_laws;
pub mod events;
pub mod fold_laws;
pub mod log;
pub mod log_laws;
pub mod db;
pub mod checkpoint;
pub mod restore;
pub mod cycle;
pub mod base_laws;

pub mod geometry;
pub mod graph;
pub mod graph_laws;
pub mod number_laws;
pub mod layers;
pub mod squeeze;

pub mod map;
pub mod map_edit;
pub mod map_gesture;
pub mod map_lens;
pub mod map_session;
pub mod map_laws;
pub mod scene_laws;
pub mod edit_laws;
pub mod lens_laws;
pub mod undo_laws;
pub mod map_render;
pub mod detail;
pub mod panel_laws;
pub mod record_laws;
pub mod checkpoint_laws;

//! Branching from the middle of an assistant's reply.
//!
//! A snippet that was copied from a reply is located in the conversation, the history of
//! the thread is cut behind the paragraph or list item in which the snippet starts, and the
//! parent thread shows where its branches left. `branch_context` states what holds of all
//! of this together.
pub mod agent_markers;
pub mod anchor;
pub mod branch_chrome;
pub mod branch_context;
pub mod branch_list;
pub mod branch_locator;
pub mod branch_navigator;
pub mod branch_notice;
pub mod branching;
pub mod child_load;
pub mod child_markers;
pub mod decoration;
pub mod history_cell;
pub mod line_split;
pub mod marker_position;
pub mod normalized;
pub mod pending_marker;
pub mod protocol;
pub mod ranking;
pub mod read_point;
pub mod replay;
pub mod responses;
pub mod rollout;
pub mod snippet;
pub mod strings;
pub mod structure;
pub mod styled;
pub mod text;
pub mod threads;

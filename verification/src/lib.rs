//! A global-hotkey engine: combo compilation into canonical key sequences,
//! held-key tracking, exact matching, and child-process bookkeeping.

mod canon;
mod config;
mod dispatch;
mod engine;
mod errors;
mod matcher;
mod tracker;

pub use canon::canonical;
pub use canon::code_le;
pub use canon::lemma_canonical_order_independent;
pub use canon::lemma_canonical_shape;
pub use config::all_resolve;
pub use config::compile_err_ok;
pub use config::compile_hotkeys;
pub use config::compile_ok;
pub use config::compiled_keys;
pub use config::lemma_compile_order_independent;
pub use config::lemma_split_plus_len;
pub use config::resolved_codes;
pub use config::split_plus;
pub use config::table_lookup;
pub use config::token_views;
pub use config::Config;
pub use config::Hotkey;
pub use config::ParsedHotkey;
pub use dispatch::build_command;
pub use dispatch::command_argv;
pub use dispatch::count_true;
pub use dispatch::env_keys;
pub use dispatch::joined_keys;
pub use dispatch::lemma_count_true_bound;
pub use dispatch::lemma_reap_never_repeats;
pub use dispatch::lemma_reap_partition;
pub use dispatch::reaped;
pub use dispatch::remaining;
pub use dispatch::ProcessTable;
pub use engine::handle_event;
pub use engine::handle_events;
pub use engine::held_after;
pub use engine::step_held;
pub use engine::KeyEvent;
pub use engine::KeyState;
pub use errors::HotkeyError;
pub use matcher::candidate_of;
pub use matcher::is_match_result;
pub use matcher::lemma_shared_combo_both_fire;
pub use matcher::match_hotkeys;
pub use tracker::ascending;
pub use tracker::lemma_release_unheld;
pub use tracker::lemma_repress_held;
pub use tracker::lemma_seq_insert_members;
pub use tracker::lemma_seq_remove_members;
pub use tracker::seq_insert;
pub use tracker::seq_remove;
pub use tracker::HeldKeys;

//! The messages of the user interface, in one language.
use vstd::prelude::*;

verus! {

/// All translatable messages.
#[derive(Debug, Clone)]
pub struct Messages {
    pub cancelled: &'static str,
    pub no_entries_found: &'static str,
    pub reload_hint: &'static str,
    pub tui_title: &'static str,
    pub tui_help_title: &'static str,
    pub tui_entry_details_title: &'static str,
    pub tui_confirm_delete_title: &'static str,
    pub tui_delete_prompt: &'static str,
    pub tui_yes_no: &'static str,
    pub tui_confirm_quit_hint: &'static str,
    pub tui_entry_deleted: &'static str,
    pub tui_msg_clipboard_empty: &'static str,
    pub tui_msg_nothing_to_undo: &'static str,
    pub tui_help_quit: &'static str,
    pub tui_help_save: &'static str,
    pub tui_help_delete: &'static str,
    pub tui_help_search: &'static str,
    pub tui_help_add: &'static str,
    pub tui_help_edit_entry: &'static str,
    pub tui_help_move: &'static str,
    pub tui_help_toggle_select: &'static str,
    pub tui_help_undo: &'static str,
    pub tui_help_paste: &'static str,
    pub tui_help_help_key: &'static str,
}

} // verus!

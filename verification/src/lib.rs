//! Crust: the verified core of a small project manager that keeps an index of
//! Rust projects under registered locations, offers command completion and
//! decides what each command line asks for.

pub mod text;
pub mod models;
pub mod index;
pub mod completion;
pub mod command;

pub use text::{views, split_seq, starts_with, contains_char, same_text, chars_from, concat3, split_on, holds_text};
pub use models::{Path, NewPath, Project, NewProject, new_path_row, new_project_row};
pub use index::{
    Index, PathIndex, FileEntry, DirEntry, ScannedProject, Reconciliation, build_index, initialize,
    projects_listing, rust_projects, reconcile,
};
pub use completion::{complete, hint, highlight_prompt, highlight_hint};
pub use command::{Action, interpret};

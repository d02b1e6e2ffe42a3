//! Reports of the list actions, rendered as tables.
pub mod openai_assistants_list;
pub mod openai_files_list;
pub mod openai_runs_list;

//! Port-block allocation and configuration patching for parallel worktrees.

pub mod clock;
pub mod cmd;
pub mod codex;
pub mod completions;
pub mod db;
pub mod gitx;
pub mod patch_laws;
pub mod patch_shapes;
pub mod pm;
pub mod state;
pub mod supabase;
pub mod text;
pub mod util;
pub mod worktree;

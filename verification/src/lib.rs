//! Keeping an agent's skill directory in step with the skill it was made from.
//!
//! The library decides; the program around it acts. Every operation on disk is a
//! *run*: a value that names the next request to the file system, takes the reply,
//! and ends with an outcome. The contract of each step says what a run does on any reply.
//! The contract of the function that starts a run says which requests the run makes and how
//! it ends, for every file system that answers the same request in the same way. Requests
//! name what they are about, so that a run has no cause to repeat one as long as a listing
//! names each entry once.

pub mod companion;
pub mod companion_laws;
pub mod copy;
pub mod copy_laws;
pub mod current;
pub mod guard;
pub mod mode;
pub mod path;
pub mod protocol;
pub mod removal;
pub mod report;
pub mod safety;
pub mod scene;
pub mod shared_dir;
pub mod shelf;
pub mod sync;
pub mod text;
pub mod tree;

pub use companion::{sync_companion_files, written_path};
pub use copy::copy_dir_recursive;
pub use current::{is_target_current, symlink_points_to};
pub use guard::ensure_dst_not_inside_src;
pub use mode::{sync_mode_for_tool, Platform, SyncMode};
pub use path::{target_dir_name, SkillPath};
pub use removal::remove_target;
pub use sync::sync_skill;

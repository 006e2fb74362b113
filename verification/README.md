# sync_engine

Keeps an agent's skill directories in step with a central store of skills, by links or
by copies, and proves with Verus that it does so safely.

- `src/` decides. Every operation is a *run* that names the next request to the file
  system, takes the reply and ends with an outcome. The contracts say what each step does
  on any reply, and which requests a run makes and how it ends on a file system that
  answers the same request in the same way. `safety.rs`, `tree.rs` and
  `shared_dir.rs` state what holds of every sync, copy and companion sync; `scene.rs` and
  `shelf.rs` state what they leave behind, and what the next one then finds.
- `app/` acts: it carries out the requests of a run on the disk and hands back the
  replies.
- `tests/` runs the library against a disk that is kept in memory.

Trusted without proof are two readings of file names as text, in `src/text.rs`.

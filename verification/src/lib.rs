//! A round-based task scheduler ordered by prerequisite facts.
//!
//! Tasks declare the facts that must hold before they may run. A run proceeds
//! in rounds: every pending task whose prerequisites are all present is handed
//! out, the facts that the finished tasks report are merged, and the next round
//! is chosen from what is still pending.
//!
//! Beside the scheduler stand the pieces of work that its tasks are made of
//! here: counting the words of texts, and comparing how the words of two
//! tables sound.

pub mod facts;
pub mod lyrics;
pub mod rounds;
pub mod scheduler;
pub mod sounds;
pub mod task;

pub use facts::{FactSet, Prerequisite};
pub use lyrics::{really_common, split_words, WordCounts, COMMON_COUNT, COMMON_LENGTH};
pub use scheduler::{DeadlockError, Execution, RunSummary, Scheduler, Step};
pub use sounds::{compare_sounds, sound_codes, SoundOverlap};
pub use task::{Task, TaskResult};

//! Publish-layout checks for trained checkpoints.

use vstd::prelude::*;

use crate::error::{Error, Result};
use crate::text::{chars_of, string_of};
use crate::infer::checkpoint::{required_file, resolved_under, CheckpointPaths};

verus! {

/// On-disk layout expected when publishing a trained checkpoint.
#[derive(Debug, Clone, PartialEq, Eq)]
pub struct PublishLayout {
    /// Checkpoint root that hosts will load.
    pub root: String,
}

impl PublishLayout {
    /// Validate that `root` matches the stable host load contract.
    pub fn validate(root: &str) -> (r: Result<Self>)
        ensures
            match r {
                Ok(l) => l.root@ == root@,
                Err(e) => resolved_under(root@, Err(e)),
            },
    {
        match CheckpointPaths::resolve(root) {
            Ok(paths) => Ok(PublishLayout { root: paths.root }),
            Err(e) => Err(e),
        }
    }

    /// Required relative paths inside a published checkpoint.
    pub fn required_files() -> (r: &'static [&'static str])
        ensures
            r@.len() == 4,
            forall|i: int| 0 <= i < 4 ==> #[trigger] r@[i]@ == required_file(i),
    {
        let files: &'static [&'static str] = &[
            "rl_agent_config.json",
            "model.safetensors",
            "encoder/config.json",
            "tokenizer/tokenizer.json",
        ];
        files
    }
}

/// Message when a fine-tune run allows no update.
pub open spec fn no_updates_message() -> Seq<char> {
    "fine-tune max_updates must be >= 1"@
}

/// What a fine-tune sanity check gives once the base checkpoint was resolved:
/// the resolution error, else an error when no update is allowed.
pub fn fine_tune_outcome(base: Result<CheckpointPaths>, max_updates: u64) -> (r: Result<()>)
    ensures
        match base {
            Err(e) => r == Err::<(), Error>(e),
            Ok(_) => if max_updates == 0 {
                r matches Err(Error::Checkpoint(m)) && m@ == no_updates_message()
            } else {
                r is Ok
            },
        },
{
    match base {
        Err(e) => Err(e),
        Ok(_) => {
            if max_updates == 0 {
                Err(Error::Checkpoint(string_of(chars_of("fine-tune max_updates must be >= 1").as_slice())))
            } else {
                Ok(())
            }
        },
    }
}

/// Basic sanity checks before a host starts a fine-tune loop: the base
/// checkpoint has the host load layout, and at least one update is allowed.
pub fn validate_fine_tune(base_checkpoint: &str, max_updates: u64) -> (r: Result<()>)
    ensures
        r is Ok ==> max_updates >= 1,
        max_updates == 0 ==> r is Err,
        r matches Err(e) ==> resolved_under(base_checkpoint@, Err(e)) || (max_updates == 0 && (
        e matches Error::Checkpoint(m) && m@ == no_updates_message())),
{
    fine_tune_outcome(CheckpointPaths::resolve(base_checkpoint), max_updates)
}

} // verus!

//! Checkpoint directory layout.

use vstd::prelude::*;

use crate::error::{Error, Result};
use crate::route::CheckpointId;
use crate::text::{append_str, string_of};

verus! {

/// What `Path::join` gives for a base path and a relative part.
pub uninterp spec fn joined_path(base: Seq<char>, part: Seq<char>) -> Seq<char>;

/// Calls `Path::join` on two UTF-8 paths; the joined path is named by its
/// arguments.
#[verifier::external_body]
fn join_path(base: &str, part: &str) -> (r: String)
    ensures
        r@ == joined_path(base@, part@),
{
    std::path::Path::new(base).join(part).to_string_lossy().into_owned()
}

/// Calls `Path::is_file`. Nothing is stated of the answer: it depends on what
/// is on disk at the time of the call.
#[verifier::external_body]
fn is_file(path: &str) -> (r: bool) {
    std::path::Path::new(path).is_file()
}

/// On-disk paths for one checkpoint tree.
#[derive(Debug, Clone)]
pub struct CheckpointPaths {
    /// Root directory.
    pub root: String,
    /// `rl_agent_config.json`.
    pub agent_config: String,
    /// `model.safetensors`.
    pub weights: String,
    /// `encoder/config.json`.
    pub encoder_config: String,
    /// `tokenizer/tokenizer.json`.
    pub tokenizer: String,
}

/// Files a checkpoint must hold, relative to its root, in checking order.
pub open spec fn required_file(i: int) -> Seq<char> {
    if i == 0 {
        "rl_agent_config.json"@
    } else if i == 1 {
        "model.safetensors"@
    } else if i == 2 {
        "encoder/config.json"@
    } else {
        "tokenizer/tokenizer.json"@
    }
}

/// The four file paths of the standard layout under `root`, in checking order.
pub open spec fn layout_files(root: Seq<char>) -> Seq<Seq<char>> {
    seq![
        joined_path(root, "rl_agent_config.json"@),
        joined_path(root, "model.safetensors"@),
        joined_path(joined_path(root, "encoder"@), "config.json"@),
        joined_path(joined_path(root, "tokenizer"@), "tokenizer.json"@),
    ]
}

/// The four file paths of a value, in checking order.
pub open spec fn file_views(p: CheckpointPaths) -> Seq<Seq<char>> {
    seq![p.agent_config@, p.weights@, p.encoder_config@, p.tokenizer@]
}

/// `p` holds the standard layout under `root`.
pub open spec fn is_layout(p: CheckpointPaths, root: Seq<char>) -> bool {
    p.root@ == root && file_views(p) == layout_files(root)
}

/// Message for a required file that is not there.
pub open spec fn missing_message(label: Seq<char>, path: Seq<char>) -> Seq<char> {
    "missing "@ + label + " at "@ + path
}

/// What resolving a layout under `root` may give: the layout, or the error
/// for one of the four required files.
pub open spec fn resolved_under(root: Seq<char>, r: Result<CheckpointPaths>) -> bool {
    match r {
        Ok(p) => is_layout(p, root),
        Err(e) => exists|i: int|
            0 <= i < 4 && (e matches Error::Checkpoint(m) && m@ == missing_message(
                #[trigger] required_file(i),
                layout_files(root)[i],
            )),
    }
}

/// Where the English checkpoint's agent config is looked for inside a bundle:
/// `bundle/english/rl_agent_config.json`.
pub open spec fn english_probe(bundle: Seq<char>) -> Seq<char> {
    joined_path(joined_path(bundle, "english"@), "rl_agent_config.json"@)
}

/// Directory a named checkpoint lives in inside a bundle. English is
/// `bundle/english` when the probe found a file there (`nested_present`),
/// else the bundle root; the others have fixed directories.
pub open spec fn named_dir_spec(bundle: Seq<char>, id: CheckpointId, nested_present: bool) -> Seq<
    char,
> {
    match id {
        CheckpointId::English => if nested_present {
            joined_path(bundle, "english"@)
        } else {
            bundle
        },
        CheckpointId::Multilingual => joined_path(bundle, "multilingual"@),
        CheckpointId::TypedDecisions => joined_path(bundle, "typed-decisions"@),
    }
}

/// The path probed for a nested English checkpoint (see [`english_probe`]).
pub fn english_probe_path(bundle: &str) -> (r: String)
    ensures
        r@ == english_probe(bundle@),
{
    let nested = join_path(bundle, "english");
    join_path(nested.as_str(), "rl_agent_config.json")
}

/// Directory of a named checkpoint, given whether the English probe found a
/// file (see [`named_dir_spec`]).
pub fn named_dir(bundle: &str, id: CheckpointId, nested_present: bool) -> (r: String)
    ensures
        r@ == named_dir_spec(bundle@, id, nested_present),
{
    match id {
        CheckpointId::English => if nested_present {
            join_path(bundle, "english")
        } else {
            String::from_str(bundle)
        },
        CheckpointId::Multilingual => join_path(bundle, "multilingual"),
        CheckpointId::TypedDecisions => join_path(bundle, "typed-decisions"),
    }
}

fn missing(label: &str, path: &str) -> (e: Error)
    ensures
        e matches Error::Checkpoint(m) && m@ == missing_message(label@, path@),
{
    let mut text: Vec<char> = Vec::new();
    append_str(&mut text, "missing ");
    append_str(&mut text, label);
    append_str(&mut text, " at ");
    append_str(&mut text, path);
    Error::Checkpoint(string_of(text.as_slice()))
}

impl CheckpointPaths {
    /// The standard layout under `root`, without looking at the disk.
    pub fn layout(root: &str) -> (r: Self)
        ensures
            is_layout(r, root@),
    {
        let encoder = join_path(root, "encoder");
        let tok = join_path(root, "tokenizer");
        let r = CheckpointPaths {
            root: String::from_str(root),
            agent_config: join_path(root, "rl_agent_config.json"),
            weights: join_path(root, "model.safetensors"),
            encoder_config: join_path(encoder.as_str(), "config.json"),
            tokenizer: join_path(tok.as_str(), "tokenizer.json"),
        };
        proof {
            assert(file_views(r) =~= layout_files(root@));
        }
        r
    }

    /// Accept a layout given which of its four files are present (in checking
    /// order); the first absent one is reported.
    pub fn check(self, present: &[bool]) -> (r: Result<Self>)
        requires
            present@.len() == 4,
        ensures
            (forall|i: int| 0 <= i < 4 ==> present@[i]) ==> r == Ok::<Self, Error>(self),
            forall|i: int|
                0 <= i < 4 && !present@[i] && (forall|k: int| 0 <= k < i ==> present@[k])
                    ==> (r matches Err(Error::Checkpoint(m)) && m@ == missing_message(
                    required_file(i),
                    file_views(self)[i],
                )),
    {
        if !present[0] {
            return Err(missing("rl_agent_config.json", self.agent_config.as_str()));
        }
        if !present[1] {
            return Err(missing("model.safetensors", self.weights.as_str()));
        }
        if !present[2] {
            return Err(missing("encoder/config.json", self.encoder_config.as_str()));
        }
        if !present[3] {
            return Err(missing("tokenizer/tokenizer.json", self.tokenizer.as_str()));
        }
        Ok(self)
    }

    /// Resolve and validate the standard checkpoint layout under `root`.
    pub fn resolve(root: &str) -> (r: Result<Self>)
        ensures
            resolved_under(root@, r),
    {
        let paths = Self::layout(root);
        let present = vec![
            is_file(paths.agent_config.as_str()),
            is_file(paths.weights.as_str()),
            is_file(paths.encoder_config.as_str()),
            is_file(paths.tokenizer.as_str()),
        ];
        let r = paths.check(present.as_slice());
        proof {
            if r is Err {
                let i = if !present@[0] {
                    0int
                } else if !present@[1] {
                    1int
                } else if !present@[2] {
                    2int
                } else {
                    3int
                };
                assert(0 <= i < 4 && !present@[i] && (forall|k: int| 0 <= k < i ==> present@[k]));
            }
        }
        r
    }

    /// Resolve a named checkpoint inside a bundle directory.
    ///
    /// Bundle layout:
    /// - `english` at `bundle/english/` **or** the bundle root itself
    /// - `multilingual` at `bundle/multilingual/`
    /// - `typed-decisions` at `bundle/typed-decisions/`
    pub fn resolve_named(bundle: &str, id: CheckpointId) -> (r: Result<Self>)
        ensures
            id is English ==> exists|p: bool| resolved_under(#[trigger] named_dir_spec(bundle@, id, p), r),
            !(id is English) ==> resolved_under(named_dir_spec(bundle@, id, false), r),
    {
        let nested_present = match id {
            CheckpointId::English => {
                let probe = english_probe_path(bundle);
                is_file(probe.as_str())
            },
            _ => false,
        };
        let dir = named_dir(bundle, id, nested_present);
        let r = Self::resolve(dir.as_str());
        assert(resolved_under(named_dir_spec(bundle@, id, nested_present), r));
        r
    }
}

/// Model name reported when the agent config names none.
pub fn default_model_name() -> (r: String)
    ensures
        r@ == "apofasi"@,
{
    String::from_str("apofasi")
}

} // verus!

//! Machine configuration: an optional global budget and the scan roots of
//! scheduled runs.

use vstd::prelude::*;
use vstd::string::StringExecFns;
use crate::budget::{parse_size_parts, spec_size_parts};

verus! {

pub struct MachineConfig {
    /// Human size ("20GB", "1.5TiB"), read by `parse_size_parts`.
    pub budget: Option<String>,
    /// Roots scanned by scheduled runs in addition to registry entries.
    pub roots: Vec<String>,
    /// Scheduled runs also reclaim debug symbols (the opt-in `.pdb` tier).
    pub pdbs: bool,
}

impl Default for MachineConfig {
    fn default() -> (c: MachineConfig)
        ensures
            c.budget is None,
            c.roots@.len() == 0,
            !c.pdbs,
    {
        MachineConfig { budget: None, roots: Vec::new(), pdbs: false }
    }
}

/// How Rust's `Debug` writes a string: quoted, with escapes.
pub uninterp spec fn debug_quoted(s: Seq<char>) -> Seq<char>;

/// `format!("{s:?}")`, std's `Debug` for `str`: trusted to depend on `s`
/// alone. What the quoting and escaping look like is not stated.
#[verifier::external_body]
fn debug_quote(s: &str) -> (r: String)
    ensures
        r@ == debug_quoted(s@),
{
    format!("{s:?}")
}

/// The error for a budget that is not a size.
pub open spec fn invalid_budget_message(s: Seq<char>) -> Seq<char> {
    "invalid budget size: "@ + debug_quoted(s)
}

impl MachineConfig {
    /// The budget in bytes: `None` when unset, an error when it is not a
    /// size. `bytes` is the caller's floating-point evaluation of the size's
    /// parts (number times multiplier, truncated), `None` when the number is
    /// negative.
    pub fn budget_bytes(&self, bytes: Option<u64>) -> (r: Result<Option<u64>, String>)
        ensures
            match self.budget {
                None => r == Ok::<Option<u64>, String>(None),
                Some(s) => match (spec_size_parts(s@), bytes) {
                    (Some(_), Some(v)) => r == Ok::<Option<u64>, String>(Some(v)),
                    _ => r matches Err(m) && m@ == invalid_budget_message(s@),
                },
            },
    {
        match &self.budget {
            None => Ok(None),
            Some(s) => match (parse_size_parts(s.as_str()), bytes) {
                (Some(_), Some(v)) => Ok(Some(v)),
                _ => {
                    let mut m = String::from_str("invalid budget size: ");
                    m.append(debug_quote(s.as_str()).as_str());
                    Err(m)
                },
            },
        }
    }
}

} // verus!

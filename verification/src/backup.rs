//! The backup namer: deriving a timestamped, non-colliding destination path
//! for a backup of a configuration file, and deciding whether a backup may
//! proceed at all.

use vstd::prelude::*;
use vstd::string::StringExecFns;

verus! {

/// The destination path for a backup of `source` taken at `stamp`: the
/// source path with a `.bak.<stamp>` suffix appended, in the same directory.
pub open spec fn backup_name(source: Seq<char>, stamp: Seq<char>) -> Seq<char> {
    source + ".bak."@ + stamp
}

/// Law: a backup destination never equals its source path.
pub proof fn lemma_backup_name_differs(source: Seq<char>, stamp: Seq<char>)
    ensures
        backup_name(source, stamp) != source,
{
    reveal_strlit(".bak.");
    assert(backup_name(source, stamp).len() == source.len() + 5 + stamp.len());
}

/// Relies on `chrono::Local::now` and chrono's `%Y%m%d_%H%M%S` formatting: a
/// reading of the local wall clock at second granularity, rendered as a
/// string. The value depends on the clock, so nothing is assumed about it.
#[verifier::external_body]
fn current_timestamp() -> (stamp: String) {
    chrono::Local::now().format("%Y%m%d_%H%M%S").to_string()
}

/// Appends the `.bak.<stamp>` suffix to `source`, yielding a destination
/// that differs from the source whatever the stamp is.
pub fn backup_destination(source: &str, stamp: &str) -> (dest: String)
    ensures
        dest@ == backup_name(source@, stamp@),
        dest@ != source@,
{
    let mut dest = source.to_owned();
    dest.append(".bak.");
    dest.append(stamp);
    proof {
        lemma_backup_name_differs(source@, stamp@);
    }
    dest
}

/// Names a backup destination for `source` from the clock's current reading:
/// some second-granularity stamp is appended, and the destination never
/// equals the source.
pub fn backup_destination_now(source: &str) -> (dest: String)
    ensures
        exists|stamp: Seq<char>| dest@ == backup_name(source@, stamp),
        dest@ != source@,
{
    let stamp = current_timestamp();
    let dest = backup_destination(source, stamp.as_str());
    proof {
        assert(dest@ == backup_name(source@, stamp@));
    }
    dest
}

/// The decision a backup operation takes once the caller has looked up
/// whether the source file exists.
pub enum BackupPlan {
    /// The source file does not exist: report it and copy nothing.
    MissingSource,
    /// Copy the source, byte for byte, to the named destination.
    CopyTo(String),
}

/// Decides a backup: a missing source is reported and nothing is copied;
/// otherwise the copy targets a freshly stamped destination distinct from
/// the source.
pub fn plan_backup(source_exists: bool, source: &str) -> (plan: BackupPlan)
    ensures
        !source_exists ==> plan matches BackupPlan::MissingSource,
        source_exists ==> (plan matches BackupPlan::CopyTo(dest) && dest@ != source@ && exists|
            stamp: Seq<char>,
        | dest@ == backup_name(source@, stamp)),
{
    if source_exists {
        BackupPlan::CopyTo(backup_destination_now(source))
    } else {
        BackupPlan::MissingSource
    }
}

} // verus!

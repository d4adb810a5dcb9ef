//! The versions of the database schema.
//!
//! The database records how many migration scripts have been applied to it.
//! Bringing it up to date means running the scripts it has not seen, in
//! order, and recording the new count.

use vstd::prelude::*;

verus! {

/// The script that creates the tables of the first version.
pub const INITIAL_SCHEMA: &'static str =
    "CREATE TABLE guilds (id INTEGER PRIMARY KEY, data TEXT NOT NULL, updated_at INTEGER NOT NULL); CREATE TABLE channels (id INTEGER PRIMARY KEY, guild_id INTEGER REFERENCES guilds (id), data TEXT NOT NULL, updated_at INTEGER NOT NULL); CREATE TABLE messages (id INTEGER PRIMARY KEY, channel_id INTEGER NOT NULL, data TEXT NOT NULL); CREATE TABLE message_ranges (channel_id INTEGER NOT NULL, after_id INTEGER NOT NULL, last_id INTEGER NOT NULL, PRIMARY KEY (channel_id, after_id));";

/// The number of migration scripts, which is the version of an up-to-date
/// database.
pub const LATEST_VERSION: usize = 1;

/// The migration scripts, oldest first.
pub open spec fn spec_migrations() -> Seq<Seq<char>> {
    seq![INITIAL_SCHEMA@]
}

/// Why a database cannot be brought up to date.
#[derive(Clone, Copy, Debug, PartialEq, Eq, Structural)]
pub enum MigrationError {
    /// The database is of a later version than this library knows.
    CannotDowngrade,
}

/// What brings a database up to date.
pub struct MigrationPlan {
    /// The scripts to run, in order, within one transaction.
    pub scripts: Vec<&'static str>,
    /// The version to record once the scripts have run.
    pub user_version: usize,
}

/// The migration scripts, oldest first.
pub fn migrations() -> (scripts: Vec<&'static str>)
    ensures
        scripts@.len() == LATEST_VERSION,
        scripts@.len() == spec_migrations().len(),
        forall|i: int| 0 <= i < scripts@.len() ==> (#[trigger] scripts@[i])@ == spec_migrations()[i],
{
    let mut scripts: Vec<&'static str> = Vec::new();
    scripts.push(INITIAL_SCHEMA);
    scripts
}

/// Plans the upgrade of a database that records the version
/// `current_version`: the scripts from that version on are to run, and the
/// latest version is to be recorded, also where no script is left to run. A
/// database of a later version than the latest is refused.
pub fn run_migrations(current_version: usize) -> (r: Result<MigrationPlan, MigrationError>)
    ensures
        match r {
            Ok(plan) => current_version <= LATEST_VERSION && plan.user_version == LATEST_VERSION
                && plan.scripts@.len() == LATEST_VERSION - current_version && forall|i: int|
                0 <= i < plan.scripts@.len() ==> (#[trigger] plan.scripts@[i])@
                    == spec_migrations()[current_version + i],
            Err(e) => current_version > LATEST_VERSION && e == MigrationError::CannotDowngrade,
        },
{
    let all = migrations();
    let latest_version: usize = all.len();
    if current_version > latest_version {
        return Err(MigrationError::CannotDowngrade);
    }
    let mut scripts: Vec<&'static str> = Vec::new();
    let mut i: usize = 0;
    while i < all.len()
        invariant
            0 <= i <= all@.len(),
            all@.len() == LATEST_VERSION,
            current_version <= LATEST_VERSION,
            scripts@.len() == (if i <= current_version {
                0
            } else {
                i - current_version
            }),
            forall|k: int|
                0 <= k < scripts@.len() ==> (#[trigger] scripts@[k]) == all@[current_version + k],
        decreases all@.len() - i,
    {
        if current_version <= i {
            scripts.push(all[i]);
        }
        i += 1;
    }
    Ok(MigrationPlan { scripts, user_version: latest_version })
}

} // verus!

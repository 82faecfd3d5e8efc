//! Schema migrations of the persistence collaborator: each carries the
//! version it brings the store to, and one applies exactly when the
//! store's current version is older.

use vstd::prelude::*;
use crate::parse::{version_lt, version_lt_spec};

verus! {

/// One schema migration: the version it establishes and the statements
/// that do so. The statements are opaque text to the engine; which
/// migrations run is the engine's rule.
pub struct Migration {
    pub version: String,
    pub sql: String,
}

/// The migrations that a store at `current` still needs, in order: those
/// whose version is newer than the current one.
#[verifier::loop_isolation(false)]
pub fn pending_migrations(current: &String, migrations: &Vec<Migration>) -> (r: Vec<usize>)
    ensures
        forall|k: int|
            0 <= k < r@.len() ==> (#[trigger] r@[k]) < migrations@.len() && version_lt_spec(
                current@,
                migrations@[r@[k] as int].version@,
            ),
        forall|j: int|
            0 <= j < migrations@.len() && version_lt_spec(
                current@,
                (#[trigger] migrations@[j]).version@,
            ) ==> r@.contains(j as usize),
        forall|k1: int, k2: int| 0 <= k1 < k2 < r@.len() ==> (#[trigger] r@[k1]) < (#[trigger] r@[k2]),
{
    let mut r: Vec<usize> = Vec::new();
    let mut i: usize = 0;
    while i < migrations.len()
        invariant
            i <= migrations@.len(),
            forall|k: int|
                0 <= k < r@.len() ==> (#[trigger] r@[k]) < i && version_lt_spec(
                    current@,
                    migrations@[r@[k] as int].version@,
                ),
            forall|j: int|
                0 <= j < i && version_lt_spec(current@, (#[trigger] migrations@[j]).version@)
                    ==> r@.contains(j as usize),
            forall|k1: int, k2: int|
                0 <= k1 < k2 < r@.len() ==> (#[trigger] r@[k1]) < (#[trigger] r@[k2]),
        decreases migrations@.len() - i,
    {
        if version_lt(current.as_str(), migrations[i].version.as_str()) {
            let ghost prev = r@;
            r.push(i);
            proof {
                assert(r@[r@.len() - 1] == i);
                assert forall|j: int|
                    0 <= j < i + 1 && version_lt_spec(
                        current@,
                        (#[trigger] migrations@[j]).version@,
                    ) implies r@.contains(j as usize) by {
                    if j < i {
                        let w = choose|w: int| 0 <= w < prev.len() && prev[w] == j as usize;
                        assert(r@[w] == j as usize);
                    } else {
                        assert(r@[r@.len() - 1] == j as usize);
                    }
                };
            }
        }
        i = i + 1;
    }
    r
}

/// A label a trade may carry.
pub struct Label {
    pub id: Option<i64>,
    pub name: String,
}

} // verus!

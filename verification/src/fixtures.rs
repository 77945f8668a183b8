//! Realistic fixture digests for tests and headless rendering.

use crate::digest::{DigestView, ThreadDigest, ThreadEnd};
use crate::time::Timestamp;
use crate::triage::Role;
use vstd::prelude::*;

verus! {

/// What the agent of `fixture-01` said last.
pub const SAID_00: &'static str = "What I set out to do: run the dev half of the 6-cell matrix plus the tlul \
    test_0006 regression. What I did: all six cells pass with the three required \
    assertions; pushed the branch and opened the PR with green CI. What is left: \
    nothing on my side. What I need from you: merge PR #134";

/// What the agent of `fixture-02` said last.
pub const SAID_01: &'static str = "The crash was an off-by-one in the turn accounting; the fix is small and \
    covered by a new regression test. All suites pass locally. What I need from \
    you: decide whether we raise the turn limit to 50 or keep 40 and split the \
    search into two passes.";

/// What the agent of `fixture-03` said last.
pub const SAID_02: &'static str = "The gauntlet failed twice on the same seed, which looks environmental rather \
    than a real regression from the zstd bump. Do you want me to re-run the \
    gauntlet? (yes/no)";

/// What the agent of `fixture-04` said last.
pub const SAID_03: &'static str = "The audit is complete and documented. I opened a pull request with the \
    protection changes; CI is green and it is awaiting review.";

/// What the agent of `fixture-05` said last.
pub const SAID_04: &'static str = "The migration runs cleanly against a copy of the production database and all \
    58 tests pass. Note: I did not commit the generated migration file; the \
    changes are still uncommitted on the worktree pending your review of the \
    column rename.";

/// What the agent of `fixture-06` said last.
pub const SAID_05: &'static str = "";

/// What the agent of `fixture-07` said last.
pub const SAID_06: &'static str = "The blank-text repro is confirmed: the headless context falls back to \
    NoopTextSystem when font-kit is disabled. Rebuilding with the feature enabled \
    now to verify the fix.";

/// What the agent of `fixture-08` said last.
pub const SAID_07: &'static str = "The Tailscale section is rewritten and validated against the live eda-lab host \
    list. Say the word and I'll apply the same restructuring to the Twingate \
    section.";

/// What the agent of `fixture-09` said last.
pub const SAID_08: &'static str = "Deduplicated eleven crates down to workspace versions, rebuilt from a clean \
    target directory, and verified the binary size dropped by 4%. The lockfile \
    diff contains only the expected removals.";

/// What the agent of `fixture-11` said last.
pub const SAID_09: &'static str = "What I set out to do: harden the connector retry backoff. What I did: capped \
    the exponent, added jitter, and property-tested the schedule. What is left: \
    nothing. **What I need from you**: merge PR #140";

/// What the agent of `fixture-10` said last.
pub const SAID_10: &'static str = "The skill is finished and exercised end to end against sixty real threads. \
    Classification matches the manual audit on every thread, and the README \
    documents the two known schema variants.";

/// One fixture: id, title, age in minutes, number of messages, who spoke
/// last, what the agent said last, and whether it used tools then.
pub struct Fixture {
    pub id: &'static str,
    pub title: &'static str,
    pub minutes_ago: i64,
    pub message_count: usize,
    pub last_role: Role,
    pub text: &'static str,
    pub has_tool_use: bool,
}

/// The number of fixtures.
pub const FIXTURES: usize = 11;

/// The fixture at a place.
pub open spec fn fixture_at(k: int) -> Fixture {
    if k == 0 {
        Fixture {
            id: "fixture-01",
            title: "movellus 6-cell: dev half + tlul test_0006",
            minutes_ago: 135,
            message_count: 42,
            last_role: Role::Agent,
            text: SAID_00,
            has_tool_use: false,
        }
    } else if k == 1 {
        Fixture {
            id: "fixture-02",
            title: "Fix cgx search turn-limit crash",
            minutes_ago: 48,
            message_count: 17,
            last_role: Role::Agent,
            text: SAID_01,
            has_tool_use: false,
        }
    } else if k == 2 {
        Fixture {
            id: "fixture-03",
            title: "Gauntlet re-run after zstd bump",
            minutes_ago: 230,
            message_count: 23,
            last_role: Role::Agent,
            text: SAID_02,
            has_tool_use: false,
        }
    } else if k == 3 {
        Fixture {
            id: "fixture-04",
            title: "Rung 7 branch protection audit",
            minutes_ago: 2900,
            message_count: 31,
            last_role: Role::Agent,
            text: SAID_03,
            has_tool_use: false,
        }
    } else if k == 4 {
        Fixture {
            id: "fixture-05",
            title: "Panel persistence migration",
            minutes_ago: 1500,
            message_count: 26,
            last_role: Role::Agent,
            text: SAID_04,
            has_tool_use: false,
        }
    } else if k == 5 {
        Fixture {
            id: "fixture-06",
            title: "Refactor eda-connector job dispatch",
            minutes_ago: 8,
            message_count: 11,
            last_role: Role::User,
            text: SAID_05,
            has_tool_use: false,
        }
    } else if k == 6 {
        Fixture {
            id: "fixture-07",
            title: "Visual test runner font fix",
            minutes_ago: 3,
            message_count: 29,
            last_role: Role::Agent,
            text: SAID_06,
            has_tool_use: true,
        }
    } else if k == 7 {
        Fixture {
            id: "fixture-08",
            title: "VPN host access doc update",
            minutes_ago: 720,
            message_count: 9,
            last_role: Role::Agent,
            text: SAID_07,
            has_tool_use: false,
        }
    } else if k == 8 {
        Fixture {
            id: "fixture-09",
            title: "Workspace dep dedupe sweep",
            minutes_ago: 4300,
            message_count: 14,
            last_role: Role::Agent,
            text: SAID_08,
            has_tool_use: false,
        }
    } else if k == 9 {
        Fixture {
            id: "fixture-11",
            title: "Connector retry backoff hardening",
            minutes_ago: 75,
            message_count: 21,
            last_role: Role::Agent,
            text: SAID_09,
            has_tool_use: false,
        }
    } else {
        Fixture {
            id: "fixture-10",
            title: "Threads.db introspection skill",
            minutes_ago: 5800,
            message_count: 38,
            last_role: Role::Agent,
            text: SAID_10,
            has_tool_use: false,
        }
    }
}

fn fixture(k: usize) -> (r: Fixture)
    ensures
        r == fixture_at(k as int),
{
    if k == 0 {
        Fixture {
            id: "fixture-01",
            title: "movellus 6-cell: dev half + tlul test_0006",
            minutes_ago: 135,
            message_count: 42,
            last_role: Role::Agent,
            text: SAID_00,
            has_tool_use: false,
        }
    } else if k == 1 {
        Fixture {
            id: "fixture-02",
            title: "Fix cgx search turn-limit crash",
            minutes_ago: 48,
            message_count: 17,
            last_role: Role::Agent,
            text: SAID_01,
            has_tool_use: false,
        }
    } else if k == 2 {
        Fixture {
            id: "fixture-03",
            title: "Gauntlet re-run after zstd bump",
            minutes_ago: 230,
            message_count: 23,
            last_role: Role::Agent,
            text: SAID_02,
            has_tool_use: false,
        }
    } else if k == 3 {
        Fixture {
            id: "fixture-04",
            title: "Rung 7 branch protection audit",
            minutes_ago: 2900,
            message_count: 31,
            last_role: Role::Agent,
            text: SAID_03,
            has_tool_use: false,
        }
    } else if k == 4 {
        Fixture {
            id: "fixture-05",
            title: "Panel persistence migration",
            minutes_ago: 1500,
            message_count: 26,
            last_role: Role::Agent,
            text: SAID_04,
            has_tool_use: false,
        }
    } else if k == 5 {
        Fixture {
            id: "fixture-06",
            title: "Refactor eda-connector job dispatch",
            minutes_ago: 8,
            message_count: 11,
            last_role: Role::User,
            text: SAID_05,
            has_tool_use: false,
        }
    } else if k == 6 {
        Fixture {
            id: "fixture-07",
            title: "Visual test runner font fix",
            minutes_ago: 3,
            message_count: 29,
            last_role: Role::Agent,
            text: SAID_06,
            has_tool_use: true,
        }
    } else if k == 7 {
        Fixture {
            id: "fixture-08",
            title: "VPN host access doc update",
            minutes_ago: 720,
            message_count: 9,
            last_role: Role::Agent,
            text: SAID_07,
            has_tool_use: false,
        }
    } else if k == 8 {
        Fixture {
            id: "fixture-09",
            title: "Workspace dep dedupe sweep",
            minutes_ago: 4300,
            message_count: 14,
            last_role: Role::Agent,
            text: SAID_08,
            has_tool_use: false,
        }
    } else if k == 9 {
        Fixture {
            id: "fixture-11",
            title: "Connector retry backoff hardening",
            minutes_ago: 75,
            message_count: 21,
            last_role: Role::Agent,
            text: SAID_09,
            has_tool_use: false,
        }
    } else {
        Fixture {
            id: "fixture-10",
            title: "Threads.db introspection skill",
            minutes_ago: 5800,
            message_count: 38,
            last_role: Role::Agent,
            text: SAID_10,
            has_tool_use: false,
        }
    }
}

/// The point in time so many minutes before another, if it is one.
pub open spec fn minutes_before(now: (int, int), minutes: int) -> Option<(int, int)> {
    if crate::time::is_instant(now.0 - 60 * minutes, now.1) {
        Some((now.0 - 60 * minutes, now.1))
    } else {
        None
    }
}

/// The digest of a fixture.
pub open spec fn fixture_digest(fixture: Fixture, now: (int, int)) -> DigestView {
    DigestView::of(
        fixture.id@,
        fixture.title@,
        minutes_before(now, fixture.minutes_ago as int),
        fixture.message_count as nat,
        ThreadEnd {
            last_role: Some(fixture.last_role),
            text: fixture.text@,
            has_tool_use: fixture.has_tool_use,
        },
    )
}

fn digest(fixture: Fixture, now: Timestamp) -> (r: ThreadDigest)
    requires
        0 <= fixture.minutes_ago <= 1_000_000,
    ensures
        r@ == fixture_digest(fixture, now@),
{
    let seconds = now.seconds();
    let updated_at = if seconds < i64::MIN + 60_000_000 {
        None
    } else {
        Timestamp::new(seconds - 60 * fixture.minutes_ago, now.nanos())
    };
    ThreadDigest::new(
        fixture.id.to_owned(),
        fixture.title.to_owned(),
        updated_at,
        fixture.message_count,
        Some(fixture.last_role),
        fixture.text.to_owned(),
        fixture.has_tool_use,
    )
}

/// Eleven realistic threads covering all four triage states, with ages
/// counted back from `now`.
pub fn fixture_digests(now: Timestamp) -> (r: Vec<ThreadDigest>)
    ensures
        r@.len() == FIXTURES,
        forall|k: int|
            0 <= k < FIXTURES ==> (#[trigger] r@[k])@ == fixture_digest(fixture_at(k), now@),
{
    let mut out: Vec<ThreadDigest> = Vec::new();
    let mut k: usize = 0;
    while k < FIXTURES
        invariant
            k <= FIXTURES,
            out@.len() == k,
            forall|j: int|
                0 <= j < k ==> (#[trigger] out@[j])@ == fixture_digest(fixture_at(j), now@),
        decreases FIXTURES - k,
    {
        out.push(digest(fixture(k), now));
        k += 1;
    }
    out
}

} // verus!

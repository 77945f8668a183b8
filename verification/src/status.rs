//! The workcat status vocabulary.

use crate::text::same_text;
use vstd::prelude::*;

verus! {

/// The status of a work item.
#[derive(Debug, Clone, Copy, PartialEq, Eq, Hash, Structural)]
pub enum Status {
    NotStarted,
    Started,
    Paused,
    Blocked,
    Implemented,
    Merged,
    Complete,
    Canceled,
    Unknown,
}

/// All statuses in lifecycle order. Keyboard bindings 1-9 follow this
/// order, and the context menu lists them in this order.
pub const ALL_STATUSES: [Status; 9] = [
    Status::NotStarted,
    Status::Started,
    Status::Paused,
    Status::Blocked,
    Status::Implemented,
    Status::Merged,
    Status::Complete,
    Status::Canceled,
    Status::Unknown,
];

/// The status that a stored name denotes.
pub open spec fn status_named(s: Seq<char>) -> Option<Status> {
    if s == "not_started"@ {
        Some(Status::NotStarted)
    } else if s == "started"@ {
        Some(Status::Started)
    } else if s == "paused"@ {
        Some(Status::Paused)
    } else if s == "blocked"@ {
        Some(Status::Blocked)
    } else if s == "implemented"@ {
        Some(Status::Implemented)
    } else if s == "merged"@ {
        Some(Status::Merged)
    } else if s == "complete"@ {
        Some(Status::Complete)
    } else if s == "canceled"@ {
        Some(Status::Canceled)
    } else if s == "unknown"@ {
        Some(Status::Unknown)
    } else {
        None
    }
}

impl Status {
    /// The name under which a status is stored.
    pub open spec fn name(self) -> Seq<char> {
        match self {
            Status::NotStarted => "not_started"@,
            Status::Started => "started"@,
            Status::Paused => "paused"@,
            Status::Blocked => "blocked"@,
            Status::Implemented => "implemented"@,
            Status::Merged => "merged"@,
            Status::Complete => "complete"@,
            Status::Canceled => "canceled"@,
            Status::Unknown => "unknown"@,
        }
    }

    /// The name under which a status is shown.
    pub open spec fn label_text(self) -> Seq<char> {
        match self {
            Status::NotStarted => "Not started"@,
            Status::Started => "Started"@,
            Status::Paused => "Paused"@,
            Status::Blocked => "Blocked"@,
            Status::Implemented => "Implemented"@,
            Status::Merged => "Merged"@,
            Status::Complete => "Complete"@,
            Status::Canceled => "Canceled"@,
            Status::Unknown => "Unknown"@,
        }
    }

    /// The place of a status in [`ALL_STATUSES`].
    pub open spec fn rank(self) -> int {
        match self {
            Status::NotStarted => 0,
            Status::Started => 1,
            Status::Paused => 2,
            Status::Blocked => 3,
            Status::Implemented => 4,
            Status::Merged => 5,
            Status::Complete => 6,
            Status::Canceled => 7,
            Status::Unknown => 8,
        }
    }

    /// Whether the default map scope shows items of this status.
    pub open spec fn in_scope(self) -> bool {
        self != Status::Complete && self != Status::Canceled
    }

    pub fn parse(s: &str) -> (r: Option<Self>)
        ensures
            r == status_named(s@),
    {
        if same_text(s, "not_started") {
            Some(Status::NotStarted)
        } else if same_text(s, "started") {
            Some(Status::Started)
        } else if same_text(s, "paused") {
            Some(Status::Paused)
        } else if same_text(s, "blocked") {
            Some(Status::Blocked)
        } else if same_text(s, "implemented") {
            Some(Status::Implemented)
        } else if same_text(s, "merged") {
            Some(Status::Merged)
        } else if same_text(s, "complete") {
            Some(Status::Complete)
        } else if same_text(s, "canceled") {
            Some(Status::Canceled)
        } else if same_text(s, "unknown") {
            Some(Status::Unknown)
        } else {
            None
        }
    }

    pub fn as_str(self) -> (r: &'static str)
        ensures
            r@ == self.name(),
    {
        match self {
            Status::NotStarted => "not_started",
            Status::Started => "started",
            Status::Paused => "paused",
            Status::Blocked => "blocked",
            Status::Implemented => "implemented",
            Status::Merged => "merged",
            Status::Complete => "complete",
            Status::Canceled => "canceled",
            Status::Unknown => "unknown",
        }
    }

    pub fn label(self) -> (r: &'static str)
        ensures
            r@ == self.label_text(),
    {
        match self {
            Status::NotStarted => "Not started",
            Status::Started => "Started",
            Status::Paused => "Paused",
            Status::Blocked => "Blocked",
            Status::Implemented => "Implemented",
            Status::Merged => "Merged",
            Status::Complete => "Complete",
            Status::Canceled => "Canceled",
            Status::Unknown => "Unknown",
        }
    }

    /// The default map scope: the incomplete rollup (`not_started` through
    /// `merged`) plus `unknown`. Terminal items (`complete`, `canceled`)
    /// are hidden.
    pub fn in_default_scope(self) -> (r: bool)
        ensures
            r == self.in_scope(),
    {
        match self {
            Status::Complete | Status::Canceled => false,
            _ => true,
        }
    }

    /// Sort rank for the initial layout: urgent-ish first, unknown last
    /// so its visual distinctness clusters.
    pub fn layout_rank(self) -> (r: usize)
        ensures
            r == self.rank(),
            r < 9,
            ALL_STATUSES[r as int] == self,
    {
        match self {
            Status::NotStarted => 0,
            Status::Started => 1,
            Status::Paused => 2,
            Status::Blocked => 3,
            Status::Implemented => 4,
            Status::Merged => 5,
            Status::Complete => 6,
            Status::Canceled => 7,
            Status::Unknown => 8,
        }
    }

    /// Whether this status is an off-lifecycle terminal choice
    /// (`Canceled`, `Unknown`). The status menu draws these below a
    /// divider, separating them from the ordinary forward flow.
    pub fn is_terminal_choice(self) -> (r: bool)
        ensures
            r == (self == Status::Canceled || self == Status::Unknown),
    {
        match self {
            Status::Canceled | Status::Unknown => true,
            _ => false,
        }
    }
}

/// A set of statuses.
#[derive(Debug, Clone, Copy, PartialEq, Eq)]
pub struct StatusSet {
    members: [bool; 9],
}

impl View for StatusSet {
    type V = Set<Status>;

    closed spec fn view(&self) -> Set<Status> {
        Set::new(|s: Status| self.members[s.rank()])
    }
}

impl StatusSet {
    /// The set with no members.
    pub fn new() -> (r: StatusSet)
        ensures
            r@ == Set::<Status>::empty(),
    {
        let r = StatusSet {
            members: [false, false, false, false, false, false, false, false, false],
        };
        assert(r@ =~= Set::<Status>::empty());
        r
    }

    pub fn contains(&self, status: &Status) -> (r: bool)
        ensures
            r == self@.contains(*status),
    {
        self.members[status.layout_rank()]
    }

    /// Add a status; tells whether it is new.
    pub fn insert(&mut self, status: Status) -> (r: bool)
        ensures
            final(self)@ == old(self)@.insert(status),
            r == !old(self)@.contains(status),
    {
        let ix = status.layout_rank();
        let new = !self.members[ix];
        self.members[ix] = true;
        assert(self@ =~= old(self)@.insert(status)) by {
            assert forall|s: Status| self@.contains(s) == old(self)@.insert(status).contains(s) by {
                assert(s.rank() == status.rank() ==> s == status);
            }
        }
        new
    }

    /// Take a status out; tells whether it was there.
    pub fn remove(&mut self, status: &Status) -> (r: bool)
        ensures
            final(self)@ == old(self)@.remove(*status),
            r == old(self)@.contains(*status),
    {
        let ix = status.layout_rank();
        let was = self.members[ix];
        self.members[ix] = false;
        assert(self@ =~= old(self)@.remove(*status)) by {
            assert forall|s: Status| self@.contains(s) == old(self)@.remove(*status).contains(s) by {
                assert(s.rank() == status.rank() ==> s == *status);
            }
        }
        was
    }

    /// How many members the set has.
    pub fn len(&self) -> (r: usize)
        ensures
            self@.finite(),
            r == self@.len(),
    {
        let mut n: usize = 0;
        let mut i: usize = 0;
        let ghost mut counted = Set::<Status>::empty();
        while i < 9
            invariant
                i <= 9,
                n <= i,
                counted.finite(),
                counted.len() == n,
                forall|s: Status| counted.contains(s) == (s.rank() < i && self@.contains(s)),
            decreases 9 - i,
        {
            let status = ALL_STATUSES[i];
            assert(status.rank() == i);
            if self.members[i] {
                proof {
                    counted = counted.insert(status);
                    assert forall|s: Status|
                        counted.contains(s) == (s.rank() < i + 1 && self@.contains(s)) by {
                        assert(s.rank() == i ==> s == status);
                    }
                }
                n += 1;
            } else {
                assert forall|s: Status|
                    counted.contains(s) == (s.rank() < i + 1 && self@.contains(s)) by {
                    assert(s.rank() == i ==> s == status);
                }
            }
            i += 1;
        }
        assert(counted =~= self@);
        n
    }

    /// Whether two sets have the same members.
    pub fn same(&self, other: &StatusSet) -> (r: bool)
        ensures
            r == (self@ == other@),
    {
        let mut i: usize = 0;
        while i < 9
            invariant
                i <= 9,
                forall|s: Status| s.rank() < i ==> self@.contains(s) == other@.contains(s),
            decreases 9 - i,
        {
            let status = ALL_STATUSES[i];
            assert(status.rank() == i);
            if self.members[i] != other.members[i] {
                assert(self@.contains(status) != other@.contains(status));
                return false;
            }
            assert forall|s: Status| s.rank() < i + 1 implies self@.contains(s) == other@.contains(
                s,
            ) by {
                assert(s.rank() == i ==> s == status);
            }
            i += 1;
        }
        assert(self@ =~= other@);
        true
    }

    /// The statuses in default scope.
    pub fn in_default_scope() -> (r: StatusSet)
        ensures
            r@ == Set::new(|s: Status| s.in_scope()),
    {
        let mut r = StatusSet::new();
        let mut i: usize = 0;
        while i < 9
            invariant
                i <= 9,
                forall|s: Status| #[trigger] r@.contains(s) == (s.rank() < i && s.in_scope()),
            decreases 9 - i,
        {
            let status = ALL_STATUSES[i];
            assert(status.rank() == i);
            let ghost before = r@;
            if status.in_default_scope() {
                r.insert(status);
            }
            assert forall|s: Status| r@.contains(s) == (s.rank() < i + 1 && s.in_scope()) by {
                assert(before.contains(s) == (s.rank() < i && s.in_scope()));
                assert(s.rank() == i ==> s == status);
            }
            i += 1;
        }
        assert(r@ =~= Set::new(|s: Status| s.in_scope()));
        r
    }
}

/// Every status is read back from the name under which it is stored.
pub proof fn law_status_round_trips(status: Status)
    ensures
        status_named(status.name()) == Some(status),
{
    reveal_strlit("not_started");
    reveal_strlit("started");
    reveal_strlit("paused");
    reveal_strlit("blocked");
    reveal_strlit("implemented");
    reveal_strlit("merged");
    reveal_strlit("complete");
    reveal_strlit("canceled");
    reveal_strlit("unknown");
    assert("started"@[0] == 's');
    assert("paused"@[0] == 'p');
    assert("blocked"@[0] == 'b');
    assert("implemented"@[0] == 'i');
    assert("merged"@[0] == 'm');
    assert("complete"@[0] == 'c' && "complete"@[1] == 'o');
    assert("canceled"@[0] == 'c' && "canceled"@[1] == 'a');
    assert("unknown"@[0] == 'u');
    assert("not_started"@[0] == 'n');
}

/// A name denotes a status only if it is the name under which that status
/// is stored.
pub proof fn law_status_names_are_exact(s: Seq<char>)
    ensures
        status_named(s) matches Some(status) ==> status.name() == s,
{
}

} // verus!

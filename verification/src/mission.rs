//! The triage list of the mission control panel: which threads it shows, in
//! which groups, and what it says of each.

use crate::brief::joined;
use crate::digest::{digest_views, DigestView, ThreadDigest};
use crate::map_edit::counted_text;
use crate::text::{
    chars_of, decimal, first_filled, first_filled_line, join, lines, lines_of, rest, rows,
    same_text, string_of, text_opt, to_decimal, trim, trimmed,
};
use crate::time::{age_text, relative_age, whole_seconds, Timestamp};
use crate::triage::{Role, TriageState};
use vstd::prelude::*;

verus! {

/// How many lines of the final agent message an expanded row shows.
pub const EXPANDED_LINES: usize = 6;

/// How many characters of them it shows.
pub const EXPANDED_CHARS: usize = 600;

/// The state of the triage list.
#[derive(Debug)]
pub struct MissionControlView {
    pub digests: Vec<ThreadDigest>,
    pub filter_needs_me: bool,
    pub expanded: Option<String>,
    pub loading: bool,
    pub error: Option<String>,
}

/// The mathematical value of a [`MissionControlView`].
pub struct MissionState {
    pub digests: Seq<DigestView>,
    pub filter_needs_me: bool,
    pub expanded: Option<Seq<char>>,
    pub loading: bool,
    pub error: Option<Seq<char>>,
}

impl View for MissionControlView {
    type V = MissionState;

    open spec fn view(&self) -> MissionState {
        MissionState {
            digests: digest_views(self.digests@),
            filter_needs_me: self.filter_needs_me,
            expanded: text_opt(self.expanded),
            loading: self.loading,
            error: text_opt(self.error),
        }
    }
}

// ---------------------------------------------------------------------
// State
// ---------------------------------------------------------------------

impl MissionControlView {
    fn base() -> (r: Self)
        ensures
            r@ == (MissionState {
                digests: Seq::empty(),
                filter_needs_me: false,
                expanded: None,
                loading: false,
                error: None,
            }),
    {
        let digests: Vec<ThreadDigest> = Vec::new();
        let r = MissionControlView {
            digests,
            filter_needs_me: false,
            expanded: None,
            loading: false,
            error: None,
        };
        assert(r@.digests =~= Seq::empty());
        r
    }

    /// A view that awaits its first load.
    pub fn live() -> (r: Self)
        ensures
            r@ == (MissionState {
                digests: Seq::empty(),
                filter_needs_me: false,
                expanded: None,
                loading: true,
                error: None,
            }),
    {
        let mut r = Self::base();
        r.loading = true;
        r
    }

    /// A view of given digests.
    pub fn with_digests(digests: Vec<ThreadDigest>) -> (r: Self)
        ensures
            r@ == (MissionState {
                digests: digest_views(digests@),
                filter_needs_me: false,
                expanded: None,
                loading: false,
                error: None,
            }),
    {
        let mut r = Self::base();
        r.digests = digests;
        r
    }

    pub fn set_filter_needs_me(&mut self, filter: bool)
        ensures
            final(self)@ == (MissionState { filter_needs_me: filter, ..old(self)@ }),
    {
        self.filter_needs_me = filter;
    }

    /// Note that a load has started.
    pub fn refresh(&mut self)
        ensures
            final(self)@ == (MissionState { loading: true, ..old(self)@ }),
    {
        self.loading = true;
    }

    /// Take over what a load gave. An error leaves the digests as they were.
    pub fn apply_load_result(&mut self, result: Result<Vec<ThreadDigest>, String>)
        ensures
            final(self)@ == (match result {
                Ok(digests) => MissionState {
                    digests: digest_views(digests@),
                    loading: false,
                    error: None,
                    ..old(self)@
                },
                Err(error) => MissionState {
                    loading: false,
                    error: Some(error@),
                    ..old(self)@
                },
            }),
    {
        self.loading = false;
        match result {
            Ok(digests) => {
                self.digests = digests;
                self.error = None;
            },
            Err(error) => {
                self.error = Some(error);
            },
        }
    }

    /// Expand a row, or collapse it if it is expanded.
    pub fn toggle_expanded(&mut self, id: &str)
        ensures
            final(self)@ == (MissionState {
                expanded: if old(self)@.expanded == Some(id@) {
                    None
                } else {
                    Some(id@)
                },
                ..old(self)@
            }),
    {
        if self.is_expanded(id) {
            self.expanded = None;
        } else {
            self.expanded = Some(id.to_owned());
        }
    }

    /// Whether a row is expanded.
    pub fn is_expanded(&self, id: &str) -> (r: bool)
        ensures
            r == (self@.expanded == Some(id@)),
    {
        match &self.expanded {
            Some(expanded) => same_text(expanded.as_str(), id),
            None => false,
        }
    }
}

// ---------------------------------------------------------------------
// Texts
// ---------------------------------------------------------------------

/// How many digests are in one of two states.
pub open spec fn state_count(digests: Seq<DigestView>, a: TriageState, b: TriageState) -> nat
    decreases digests.len(),
{
    if digests.len() == 0 {
        0
    } else {
        state_count(digests.drop_last(), a, b) + if digests.last().state == a
            || digests.last().state == b {
            1nat
        } else {
            0nat
        }
    }
}

/// What stands under a thread's title: its ask, else what it is doing, else
/// the first line of its final message.
pub open spec fn secondary_of(digest: DigestView) -> Option<Seq<char>> {
    match digest.ask {
        Some(ask) => Some(ask),
        None => if digest.state == TriageState::Running {
            Some(
                if digest.last_role == Some(Role::User) {
                    "Waiting for the agent to reply"@
                } else {
                    "Agent is mid-work"@
                },
            )
        } else {
            first_filled(lines_of(digest.final_agent_text))
        },
    }
}

/// The end of the final agent message: its last lines, and of these the last
/// characters.
pub open spec fn tail_of(text: Seq<char>) -> Seq<char> {
    if trimmed(text).len() == 0 {
        "(no agent message yet)"@
    } else {
        let all = lines_of(trimmed(text));
        let first = if all.len() > EXPANDED_LINES {
            all.len() - EXPANDED_LINES
        } else {
            0
        };
        let tail = joined(all.skip(first));
        if tail.len() > EXPANDED_CHARS {
            seq!['\u{2026}'] + tail.skip(tail.len() - EXPANDED_CHARS)
        } else {
            tail
        }
    }
}

/// How long ago a thread was updated; a dash when that is not known.
pub open spec fn age_of(digest: DigestView, now: (int, int)) -> Seq<char> {
    match digest.updated_at {
        Some(updated_at) => age_text(whole_seconds(updated_at, now)),
        None => "\u{2014}"@,
    }
}

fn count_states(digests: &Vec<ThreadDigest>, a: TriageState, b: TriageState) -> (r: usize)
    ensures
        r == state_count(digest_views(digests@), a, b),
{
    let ghost all = digest_views(digests@);
    let mut n: usize = 0;
    let mut i: usize = 0;
    while i < digests.len()
        invariant
            i <= digests@.len(),
            n <= i,
            all == digest_views(digests@),
            n == state_count(all.take(i as int), a, b),
        decreases digests@.len() - i,
    {
        assert(all.take(i + 1).last() == digests@[i as int]@);
        assert(all.take(i + 1).drop_last() == all.take(i as int));
        let state = digests[i].state;
        if state == a || state == b {
            n += 1;
        }
        i += 1;
    }
    assert(all.take(digests@.len() as int) == all);
    n
}

/// Lines joined by line feeds.
fn join_lines(all: &Vec<Vec<char>>, first: usize) -> (r: Vec<char>)
    requires
        first <= all@.len(),
    ensures
        r@ == joined(rows(all@).skip(first as int)),
{
    let ghost tail = rows(all@).skip(first as int);
    let total: usize = all.len();
    let mut out: Vec<char> = Vec::new();
    let mut i: usize = first;
    assert(out@ =~= joined(tail.take(0)));
    while i < total
        invariant
            first <= i <= total,
            total == all@.len(),
            tail == rows(all@).skip(first as int),
            out@ == joined(tail.take(i - first)),
        decreases total - i,
    {
        let line = all[i].as_slice();
        let ghost now = tail.take(i - first + 1);
        assert(now.last() == line@);
        assert(now.drop_last() =~= tail.take(i - first));
        if i > first {
            out.push('\n');
        }
        let ghost start = out@;
        let mut k: usize = 0;
        while k < line.len()
            invariant
                k <= line@.len(),
                out@ == start + line@.take(k as int),
            decreases line@.len() - k,
        {
            out.push(line[k]);
            assert(line@.take(k + 1) =~= line@.take(k as int).push(line@[k as int]));
            k += 1;
        }
        assert(line@.take(line@.len() as int) =~= line@);
        assert(out@ =~= joined(now));
        i += 1;
    }
    assert(tail.take(total - first) =~= tail);
    out
}

impl MissionControlView {
    /// The summary in the header.
    pub fn count_summary(&self) -> (r: String)
        ensures
            r@ == decimal(
                state_count(self@.digests, TriageState::NeedsYou, TriageState::AwaitingMerge),
            ) + " need you \u{b7} "@ + decimal(
                state_count(self@.digests, TriageState::Running, TriageState::Running),
            ) + " running"@,
    {
        let needs_you = count_states(
            &self.digests,
            TriageState::NeedsYou,
            TriageState::AwaitingMerge,
        );
        let running = count_states(&self.digests, TriageState::Running, TriageState::Running);
        let start = join(to_decimal(needs_you as u64).as_str(), " need you \u{b7} ");
        counted_text(start.as_str(), running, " running")
    }

    /// What stands under a thread's title.
    pub fn secondary_line(digest: &ThreadDigest) -> (r: Option<String>)
        ensures
            text_opt(r) == secondary_of(digest@),
    {
        if let Some(ask) = &digest.ask {
            return Some(ask.clone());
        }
        match digest.state {
            TriageState::Running => {
                let waiting = match digest.last_role {
                    Some(role) => role == Role::User,
                    None => false,
                };
                Some(
                    if waiting {
                        "Waiting for the agent to reply".to_owned()
                    } else {
                        "Agent is mid-work".to_owned()
                    },
                )
            },
            _ => {
                let chars = chars_of(digest.final_agent_text.as_str());
                match first_filled_line(chars.as_slice()) {
                    Some(line) => Some(string_of(line.as_slice())),
                    None => None,
                }
            },
        }
    }

    /// The last few lines of the final agent message, for the expanded row.
    pub fn expanded_text(digest: &ThreadDigest) -> (r: String)
        ensures
            r@ == tail_of(digest@.final_agent_text),
    {
        let chars = chars_of(digest.final_agent_text.as_str());
        let text = trim(chars.as_slice());
        if text.len() == 0 {
            return "(no agent message yet)".to_owned();
        }
        let all = lines(text);
        let first = if all.len() > EXPANDED_LINES {
            all.len() - EXPANDED_LINES
        } else {
            0
        };
        let tail = join_lines(&all, first);
        if tail.len() > EXPANDED_CHARS {
            let mut out = String::new();
            out.push('\u{2026}');
            let end = string_of(rest(tail.as_slice(), tail.len() - EXPANDED_CHARS));
            let r = join(out.as_str(), end.as_str());
            assert(r@ =~= tail_of(digest@.final_agent_text));
            r
        } else {
            string_of(tail.as_slice())
        }
    }

    /// How long ago a thread was updated; a dash when that is not known.
    pub fn age(digest: &ThreadDigest, now: Timestamp) -> (r: String)
        ensures
            r@ == age_of(digest@, now@),
    {
        match digest.updated_at {
            Some(updated_at) => relative_age(updated_at, now),
            None => "\u{2014}".to_owned(),
        }
    }
}

// ---------------------------------------------------------------------
// The list
// ---------------------------------------------------------------------

/// The states that the list shows, in order.
pub open spec fn states_shown(needs_me: bool) -> Seq<TriageState> {
    if needs_me {
        seq![TriageState::NeedsYou, TriageState::AwaitingMerge]
    } else {
        seq![
            TriageState::NeedsYou,
            TriageState::AwaitingMerge,
            TriageState::Running,
            TriageState::Done,
        ]
    }
}

/// The places of the digests in a state.
pub open spec fn places_in(digests: Seq<DigestView>, state: TriageState) -> Seq<usize>
    decreases digests.len(),
{
    if digests.len() == 0 {
        Seq::empty()
    } else {
        let before = places_in(digests.drop_last(), state);
        if digests.last().state == state {
            before.push((digests.len() - 1) as usize)
        } else {
            before
        }
    }
}

/// One line of the list.
#[derive(Debug, PartialEq)]
pub enum ListLine {
    /// Loading failed.
    Error(String),
    /// A remark in place of rows.
    Note(String),
    /// The heading of a group.
    Group(TriageState, String),
    /// The digest at a place.
    Row(usize),
}

/// The mathematical value of a [`ListLine`].
pub enum ListLineView {
    Error(Seq<char>),
    Note(Seq<char>),
    Group(TriageState, Seq<char>),
    Row(usize),
}

impl View for ListLine {
    type V = ListLineView;

    open spec fn view(&self) -> ListLineView {
        match self {
            ListLine::Error(text) => ListLineView::Error(text@),
            ListLine::Note(text) => ListLineView::Note(text@),
            ListLine::Group(state, text) => ListLineView::Group(*state, text@),
            ListLine::Row(ix) => ListLineView::Row(*ix),
        }
    }
}

pub open spec fn line_views(v: Seq<ListLine>) -> Seq<ListLineView> {
    v.map_values(|line: ListLine| line@)
}

/// The lines of one group; none when it is empty.
pub open spec fn group_lines(digests: Seq<DigestView>, state: TriageState) -> Seq<ListLineView> {
    let places = places_in(digests, state);
    if places.len() == 0 {
        Seq::empty()
    } else {
        seq![
            ListLineView::Group(
                state,
                state.label_text() + " \u{b7} "@ + decimal(places.len()),
            ),
        ] + places.map_values(|ix: usize| ListLineView::Row(ix))
    }
}

/// The lines of the first `k` groups.
pub open spec fn grouped_lines(
    digests: Seq<DigestView>,
    states: Seq<TriageState>,
    k: nat,
) -> Seq<ListLineView>
    decreases k,
{
    if k == 0 {
        Seq::empty()
    } else {
        grouped_lines(digests, states, (k - 1) as nat) + group_lines(digests, states[k - 1])
    }
}

impl MissionState {
    /// The lines of the list.
    pub open spec fn list(self) -> Seq<ListLineView> {
        let errors = match self.error {
            Some(error) => seq![ListLineView::Error("Failed to load threads: "@ + error)],
            None => Seq::empty(),
        };
        let states = states_shown(self.filter_needs_me);
        let groups = grouped_lines(self.digests, states, states.len());
        if self.loading && self.digests.len() == 0 {
            errors.push(ListLineView::Note("Loading threads\u{2026}"@))
        } else if groups.len() == 0 && self.error is None {
            seq![ListLineView::Note("No threads found"@)]
        } else {
            errors + groups
        }
    }
}

impl MissionControlView {
    /// The states that the list shows, in order.
    pub fn visible_states(&self) -> (r: Vec<TriageState>)
        ensures
            r@ == states_shown(self@.filter_needs_me),
    {
        let r = if self.filter_needs_me {
            vec![TriageState::NeedsYou, TriageState::AwaitingMerge]
        } else {
            vec![
                TriageState::NeedsYou,
                TriageState::AwaitingMerge,
                TriageState::Running,
                TriageState::Done,
            ]
        };
        assert(r@ =~= states_shown(self@.filter_needs_me));
        r
    }

    fn group(&self, state: TriageState) -> (r: Vec<usize>)
        ensures
            r@ == places_in(self@.digests, state),
    {
        let mut out: Vec<usize> = Vec::new();
        let mut i: usize = 0;
        while i < self.digests.len()
            invariant
                i <= self.digests@.len(),
                out@ == places_in(self@.digests.take(i as int), state),
            decreases self.digests@.len() - i,
        {
            assert(self@.digests.take(i + 1).last() == self.digests@[i as int]@);
            assert(self@.digests.take(i + 1).drop_last() == self@.digests.take(i as int));
            if self.digests[i].state == state {
                out.push(i);
            }
            i += 1;
        }
        assert(self@.digests.take(self.digests@.len() as int) == self@.digests);
        out
    }

    /// The lines of the list: an error, then the groups that have members.
    pub fn list(&self) -> (r: Vec<ListLine>)
        ensures
            line_views(r@) == self@.list(),
    {
        let mut out: Vec<ListLine> = Vec::new();
        let ghost errors: Seq<ListLineView> = match self@.error {
            Some(error) => seq![ListLineView::Error("Failed to load threads: "@ + error)],
            None => Seq::empty(),
        };
        if let Some(error) = &self.error {
            out.push(ListLine::Error(join("Failed to load threads: ", error.as_str())));
        }
        assert(line_views(out@) =~= errors);
        let with_error: usize = out.len();
        if self.loading && self.digests.len() == 0 {
            let note = ListLine::Note("Loading threads\u{2026}".to_owned());
            out.push(note);
            assert(line_views(out@) =~= errors.push(note@));
            return out;
        }
        let states = self.visible_states();
        let mut s: usize = 0;
        assert(errors + grouped_lines(self@.digests, states@, 0) =~= errors);
        while s < states.len()
            invariant
                s <= states@.len(),
                with_error == errors.len(),
                line_views(out@) == errors + grouped_lines(self@.digests, states@, s as nat),
            decreases states@.len() - s,
        {
            let state = states[s];
            let places = self.group(state);
            let ghost before = out@;
            let ghost wanted = group_lines(self@.digests, state);
            if places.len() > 0 {
                let start = join(state.label(), " \u{b7} ");
                let heading = counted_text(start.as_str(), places.len(), "");
                proof {
                    reveal_strlit("");
                    assert(heading@ =~= state.label_text() + " \u{b7} "@ + decimal(
                        places@.len(),
                    ));
                }
                out.push(ListLine::Group(state, heading));
                assert(line_views(out@) =~= line_views(before) + wanted.take(1));
                let mut k: usize = 0;
                while k < places.len()
                    invariant
                        k <= places@.len(),
                        places@ == places_in(self@.digests, state),
                        places@.len() > 0,
                        wanted == group_lines(self@.digests, state),
                        line_views(out@) == line_views(before) + wanted.take(k + 1),
                    decreases places@.len() - k,
                {
                    let ghost prior = out@;
                    out.push(ListLine::Row(places[k]));
                    assert(line_views(out@) =~= line_views(prior).push(wanted[k + 1]));
                    assert(wanted.take(k + 2) =~= wanted.take(k + 1).push(wanted[k + 1]));
                    assert(line_views(out@) =~= line_views(before) + wanted.take(k + 2));
                    k += 1;
                }
                assert(wanted.take(wanted.len() as int) =~= wanted);
            }
            assert(line_views(out@) =~= line_views(before) + wanted);
            assert(line_views(out@) =~= errors + grouped_lines(self@.digests, states@, (s + 1) as nat));
            s += 1;
        }
        assert(line_views(out@).len() == out@.len());
        if out.len() == with_error && self.error.is_none() {
            out.push(ListLine::Note("No threads found".to_owned()));
            assert(line_views(out@) =~= seq![ListLineView::Note("No threads found"@)]);
        }
        out
    }
}

// ---------------------------------------------------------------------
// Laws
// ---------------------------------------------------------------------

pub(crate) proof fn lemma_place_in(digests: Seq<DigestView>, state: TriageState, i: int)
    requires
        0 <= i < digests.len() <= usize::MAX,
    ensures
        places_in(digests, state).contains(i as usize) == (digests[i].state == state),
    decreases digests.len(),
{
    let before = places_in(digests.drop_last(), state);
    let last = (digests.len() - 1) as usize;
    let after = before.push(last);
    assert(after[before.len() as int] == last);
    lemma_places_below(digests.drop_last(), state);
    if i < digests.len() - 1 {
        lemma_place_in(digests.drop_last(), state, i);
        if before.contains(i as usize) {
            let k = choose|k: int| 0 <= k < before.len() && before[k] == i as usize;
            assert(after[k] == i as usize);
        }
        if after.contains(i as usize) {
            let k = choose|k: int| 0 <= k < after.len() && after[k] == i as usize;
            assert(before[k] == i as usize);
        }
    } else if before.contains(last) {
        let k = choose|k: int| 0 <= k < before.len() && before[k] == last;
        assert(before[k] < digests.len() - 1);
    }
}

proof fn lemma_places_below(digests: Seq<DigestView>, state: TriageState)
    requires
        digests.len() <= usize::MAX,
    ensures
        forall|k: int|
            0 <= k < places_in(digests, state).len() ==> (#[trigger] places_in(digests, state)[k])
                < digests.len(),
    decreases digests.len(),
{
    if digests.len() > 0 {
        let before = places_in(digests.drop_last(), state);
        lemma_places_below(digests.drop_last(), state);
        assert forall|k: int| 0 <= k < places_in(digests, state).len() implies (
        #[trigger] places_in(digests, state)[k]) < digests.len() by {
            if k < before.len() {
                assert(before[k] < digests.len() - 1);
            }
        }
    }
}

/// Without the filter every thread stands in exactly one group: that of its
/// state.
pub proof fn law_every_thread_is_listed(digests: Seq<DigestView>, i: int, state: TriageState)
    requires
        0 <= i < digests.len() <= usize::MAX,
    ensures
        states_shown(false).contains(digests[i].state),
        places_in(digests, state).contains(i as usize) == (digests[i].state == state),
{
    lemma_place_in(digests, state, i);
    let all = states_shown(false);
    assert(all[0] == TriageState::NeedsYou);
    assert(all[1] == TriageState::AwaitingMerge);
    assert(all[2] == TriageState::Running);
    assert(all[3] == TriageState::Done);
}

/// The "Needs me" filter shows the states that wait for the user, and no
/// others.
pub proof fn law_filter_shows_what_needs_me(state: TriageState)
    ensures
        states_shown(true).contains(state) == (state == TriageState::NeedsYou || state
            == TriageState::AwaitingMerge),
{
    let shown = states_shown(true);
    assert(shown[0] == TriageState::NeedsYou);
    assert(shown[1] == TriageState::AwaitingMerge);
}

} // verus!

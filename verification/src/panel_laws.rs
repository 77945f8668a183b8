//! What the panels say of threads and items, told by what they are made of.

use crate::detail::{
    dependency_text, elided, filled_section, hazards_on, other_sections, parts_of, without_bullets,
};
use crate::digest::DigestView;
use crate::digest_laws::lined_up;
use crate::log::filled;
use crate::log_laws::{lemma_trim_empty, says_something};
use crate::map::MapState;
use crate::map_render::{
    color_of, status_choices, status_count, Border, MenuActionView, MenuLineView,
};
use crate::mission::{
    group_lines, grouped_lines, places_in, secondary_of, state_count, states_shown, tail_of,
    ListLineView, MissionState,
};
use crate::model::{section_body, section_place, ItemView};
use crate::status::Status;
use crate::text::{decimal, digit, first_filled, first_of, lines_of, lowered, trimmed};
use crate::time::age_text;
use crate::triage::{Role, TriageState};
use vstd::prelude::*;

verus! {

// ---------------------------------------------------------------------
// Numbers and ages
// ---------------------------------------------------------------------

/// The number that decimal digits denote.
pub open spec fn number_read(s: Seq<char>) -> nat
    decreases s.len(),
{
    if s.len() == 0 {
        0
    } else {
        10 * number_read(s.drop_last()) + ((s.last() as u32 - 48) as nat)
    }
}

/// A number is written in decimal digits, reads back as it was, and starts
/// with no zero unless it is zero.
pub proof fn law_decimal_reads_back(n: nat)
    ensures
        decimal(n).len() > 0,
        forall|i: int| 0 <= i < decimal(n).len() ==> '0' <= #[trigger] decimal(n)[i] <= '9',
        number_read(decimal(n)) == n,
        n > 0 ==> decimal(n)[0] != '0',
        n == 0 ==> decimal(n).len() == 1,
    decreases n,
{
    if n < 10 {
        assert(decimal(n) =~= seq![digit(n)]);
        assert(decimal(n).drop_last() =~= Seq::<char>::empty());
        assert(number_read(decimal(n).drop_last()) == 0);
    } else {
        law_decimal_reads_back(n / 10);
        assert(decimal(n).drop_last() =~= decimal(n / 10));
        assert(decimal(n).last() == digit(n % 10));
    }
}

/// An age is told in the largest unit that it fills: "now" within the first
/// minute, then whole minutes, hours and days, rounded down.
pub proof fn law_age_is_told_in_whole_units(seconds: int, n: nat)
    ensures
        seconds < 60 ==> age_text(seconds) == "now"@,
        60 <= seconds < 3600 && n * 60 <= seconds < (n + 1) * 60 ==> age_text(seconds) == decimal(n)
            + "m"@,
        3600 <= seconds < 86400 && n * 3600 <= seconds < (n + 1) * 3600 ==> age_text(seconds)
            == decimal(n) + "h"@,
        86400 <= seconds && n * 86400 <= seconds < (n + 1) * 86400 ==> age_text(seconds) == decimal(
            n,
        ) + "d"@,
{
    assert(n * 60 <= seconds < (n + 1) * 60 ==> seconds / 60 == n);
    assert(n * 3600 <= seconds < (n + 1) * 3600 ==> seconds / 3600 == n);
    assert(n * 86400 <= seconds < (n + 1) * 86400 ==> seconds / 86400 == n);
}

// ---------------------------------------------------------------------
// The triage list
// ---------------------------------------------------------------------

proof fn lemma_first_filled(lines: Seq<Seq<char>>, p: int)
    requires
        0 <= p < lines.len(),
        says_something(lines[p]),
        forall|m: int| 0 <= m < p ==> !says_something(#[trigger] lines[m]),
    ensures
        first_filled(lines) == Some(trimmed(lines[p])),
    decreases lines.len(),
{
    lemma_trim_empty(lines[0]);
    if p > 0 {
        assert(!says_something(lines[0]));
        let rest = lines.skip(1);
        assert forall|m: int| 0 <= m < p - 1 implies !says_something(#[trigger] rest[m]) by {
            assert(rest[m] == lines[m + 1]);
        }
        lemma_first_filled(rest, p - 1);
    }
}

/// Under a thread's title stands its ask or offer; without one, what a Running
/// thread waits for; else the first line of its message that says something.
pub proof fn law_second_line_of_a_thread(digest: DigestView, p: int)
    ensures
        digest.ask is Some ==> secondary_of(digest) == digest.ask,
        digest.ask is None && digest.state == TriageState::Running ==> secondary_of(digest) == Some(
            if digest.last_role == Some(Role::User) {
                "Waiting for the agent to reply"@
            } else {
                "Agent is mid-work"@
            },
        ),
        ({
            let lines = lines_of(digest.final_agent_text);
            digest.ask is None && digest.state != TriageState::Running && 0 <= p < lines.len()
                && says_something(lines[p]) && (forall|m: int|
                0 <= m < p ==> !says_something(#[trigger] lines[m])) ==> secondary_of(digest)
                == Some(trimmed(lines[p]))
        }),
{
    let lines = lines_of(digest.final_agent_text);
    if 0 <= p < lines.len() && says_something(lines[p]) && (forall|m: int|
        0 <= m < p ==> !says_something(#[trigger] lines[m])) {
        lemma_first_filled(lines, p);
    }
}

/// An expanded row shows the last six lines of the message, and of these the
/// last 600 characters, with an ellipsis before them where there are more.
pub proof fn law_expanded_row_shows_the_tail(text: Seq<char>, first: int)
    requires
        says_something(text),
        0 <= first <= lines_of(trimmed(text)).len(),
        lines_of(trimmed(text)).len() - first <= 6,
        first > 0 ==> lines_of(trimmed(text)).len() - first == 6,
    ensures
        ({
            let tail = lined_up(lines_of(trimmed(text)).skip(first));
            tail_of(text) == if tail.len() <= 600 {
                tail
            } else {
                seq!['…'] + tail.skip(tail.len() - 600)
            }
        }),
{
    lemma_trim_empty(text);
    crate::brief_laws::lemma_joined(lines_of(trimmed(text)).skip(first));
}

/// A thread without a message says so when it is expanded.
pub proof fn law_silent_row_says_so(text: Seq<char>)
    requires
        !says_something(text),
    ensures
        tail_of(text) == "(no agent message yet)"@,
{
    lemma_trim_empty(text);
}

/// Threads are counted one by one: the counts of two lists add up, and one
/// thread counts just when it is in one of the two states.
pub proof fn law_threads_are_counted(
    x: Seq<DigestView>,
    y: Seq<DigestView>,
    one: DigestView,
    a: TriageState,
    b: TriageState,
)
    ensures
        state_count(x + y, a, b) == state_count(x, a, b) + state_count(y, a, b),
        state_count(seq![one], a, b) == if one.state == a || one.state == b {
            1nat
        } else {
            0nat
        },
    decreases y.len(),
{
    assert(seq![one].drop_last() =~= Seq::<DigestView>::empty());
    assert(state_count(seq![one].drop_last(), a, b) == 0);
    if y.len() == 0 {
        assert(x + y =~= x);
    } else {
        law_threads_are_counted(x, y.drop_last(), one, a, b);
        assert((x + y).drop_last() =~= x + y.drop_last());
        assert((x + y).last() == y.last());
    }
}

proof fn lemma_places_ascend(digests: Seq<DigestView>, state: TriageState)
    requires
        digests.len() <= usize::MAX,
    ensures
        forall|i: int, j: int|
            0 <= i < j < places_in(digests, state).len() ==> (#[trigger] places_in(
                digests,
                state,
            )[i]) < (#[trigger] places_in(digests, state)[j]),
        forall|i: int|
            0 <= i < places_in(digests, state).len() ==> (#[trigger] places_in(digests, state)[i])
                < digests.len(),
    decreases digests.len(),
{
    if digests.len() > 0 {
        lemma_places_ascend(digests.drop_last(), state);
        let before = places_in(digests.drop_last(), state);
        let all = places_in(digests, state);
        assert forall|i: int| 0 <= i < all.len() implies (#[trigger] all[i]) < digests.len() by {
            if i < before.len() {
                assert(all[i] == before[i]);
            }
        }
        assert forall|i: int, j: int| 0 <= i < j < all.len() implies (#[trigger] all[i]) < (
        #[trigger] all[j]) by {
            assert(all[i] == before[i]);
            if j < before.len() {
                assert(all[j] == before[j]);
            }
        }
    }
}

/// Within its group a thread stands where it stands among all threads.
pub proof fn law_groups_keep_the_order(
    digests: Seq<DigestView>,
    state: TriageState,
    i: int,
    j: int,
)
    requires
        digests.len() <= usize::MAX,
        0 <= i < j < places_in(digests, state).len(),
    ensures
        places_in(digests, state)[i] < places_in(digests, state)[j],
        places_in(digests, state)[j] < digests.len(),
        digests[places_in(digests, state)[i] as int].state == state,
{
    lemma_places_ascend(digests, state);
    let ix = places_in(digests, state)[i];
    crate::mission::lemma_place_in(digests, state, ix as int);
    assert(places_in(digests, state).contains(ix));
}

/// A group with members has its heading, with their number, and one row for
/// each of them; a group without has no line.
pub proof fn law_group_has_a_row_for_each(digests: Seq<DigestView>, state: TriageState, k: int)
    ensures
        ({
            let places = places_in(digests, state);
            let lines = group_lines(digests, state);
            &&& places.len() == 0 ==> lines.len() == 0
            &&& places.len() > 0 ==> {
                &&& lines.len() == places.len() + 1
                &&& lines[0] == ListLineView::Group(
                    state,
                    state.label_text() + " · "@ + decimal(places.len()),
                )
                &&& 0 <= k < places.len() ==> lines[k + 1] == ListLineView::Row(places[k])
            }
        }),
{
}

/// The groups stand in the order of attention, and while threads are shown
/// nothing else does but an error before them.
pub proof fn law_list_is_its_groups(state: MissionState)
    requires
        !(state.loading && state.digests.len() == 0),
    ensures
        ({
            let of = |s: TriageState| group_lines(state.digests, s);
            let urgent = of(TriageState::NeedsYou) + of(TriageState::AwaitingMerge);
            let groups = if state.filter_needs_me {
                urgent
            } else {
                urgent + of(TriageState::Running) + of(TriageState::Done)
            };
            &&& groups.len() > 0 && state.error is None ==> state.list() == groups
            &&& state.error is Some ==> state.list() == seq![
                ListLineView::Error("Failed to load threads: "@ + state.error->0),
            ] + groups
            &&& groups.len() == 0 && state.error is None ==> state.list() == seq![
                ListLineView::Note("No threads found"@),
            ]
        }),
{
    let shown = states_shown(state.filter_needs_me);
    let d = state.digests;
    reveal_with_fuel(grouped_lines, 5);
    let urgent = group_lines(d, TriageState::NeedsYou) + group_lines(d, TriageState::AwaitingMerge);
    assert(grouped_lines(d, shown, 2) =~= urgent);
    if !state.filter_needs_me {
        assert(grouped_lines(d, shown, 4) =~= urgent + group_lines(d, TriageState::Running)
            + group_lines(d, TriageState::Done));
    }
    if state.error is None {
        let groups = grouped_lines(d, shown, shown.len());
        assert(Seq::<ListLineView>::empty() + groups =~= groups);
    }
}

// ---------------------------------------------------------------------
// The detail panel
// ---------------------------------------------------------------------

proof fn lemma_parts_len(path: Seq<char>)
    ensures
        parts_of(path).len() > 0,
    decreases path.len(),
{
}

proof fn lemma_last_part(path: Seq<char>, b: int)
    requires
        0 <= b < path.len(),
        path[b] == '/',
        forall|m: int| b < m < path.len() ==> #[trigger] path[m] != '/',
    ensures
        parts_of(path).len() >= 2,
        parts_of(path).last() == path.skip(b + 1),
    decreases path.len(),
{
    let n = first_of(path, '/') as int;
    crate::text::lemma_first_of(path, '/');
    if n > b {
        assert(path[b] != '/');
    }
    let rest = path.skip(n + 1);
    lemma_parts_len(rest);
    if n == b {
        crate::text::lemma_first_of(rest, '/');
        if first_of(rest, '/') < rest.len() {
            assert(path[n + 1 + first_of(rest, '/')] == '/');
        }
    } else {
        assert(rest[b - n - 1] == '/');
        assert forall|m: int| b - n - 1 < m < rest.len() implies #[trigger] rest[m] != '/' by {
            assert(rest[m] == path[m + n + 1]);
        }
        lemma_last_part(rest, b - n - 1);
        assert(rest.skip(b - n) =~= path.skip(b + 1));
    }
    let all = parts_of(path);
    assert(all == seq![path.take(n)] + parts_of(rest));
    assert(all.last() == parts_of(rest).last());
}

/// A path of more than two parts is elided between its first and its last
/// slash.
pub proof fn law_long_path_is_elided(path: Seq<char>, a: int, b: int)
    requires
        0 <= a < b < path.len(),
        path[a] == '/',
        path[b] == '/',
        forall|m: int| 0 <= m < a ==> #[trigger] path[m] != '/',
        forall|m: int| b < m < path.len() ==> #[trigger] path[m] != '/',
    ensures
        elided(path) == path.take(a) + "/…/"@ + path.skip(b + 1),
{
    crate::text::lemma_first_is(path, '/', a);
    let rest = path.skip(a + 1);
    assert(rest[b - a - 1] == '/');
    assert forall|m: int| b - a - 1 < m < rest.len() implies #[trigger] rest[m] != '/' by {
        assert(rest[m] == path[m + a + 1]);
    }
    lemma_last_part(rest, b - a - 1);
    lemma_last_part(path, b);
    assert(parts_of(path) == seq![path.take(a)] + parts_of(rest));
}

/// A path of one or two parts stays as it is.
pub proof fn law_short_path_stays(path: Seq<char>, a: int)
    requires
        0 <= a <= path.len(),
        forall|m: int| 0 <= m < path.len() && m != a ==> #[trigger] path[m] != '/',
    ensures
        elided(path) == path,
{
    let n = first_of(path, '/') as int;
    crate::text::lemma_first_of(path, '/');
    if n < path.len() {
        assert(n == a);
        let rest = path.skip(n + 1);
        crate::text::lemma_first_of(rest, '/');
        if first_of(rest, '/') < rest.len() {
            assert(path[n + 1 + first_of(rest, '/')] == '/');
        }
        assert(parts_of(rest) == seq![rest]);
        assert(parts_of(path).len() == 2);
    } else {
        assert(parts_of(path).len() == 1);
    }
}

/// A section is found by its heading, whatever the case, and the first of
/// several counts.
pub proof fn law_first_section_counts(
    sections: Seq<(Seq<char>, Seq<char>)>,
    name: Seq<char>,
    p: int,
)
    requires
        0 <= p < sections.len(),
        lowered(sections[p].0) == lowered(name),
        forall|m: int| 0 <= m < p ==> lowered((#[trigger] sections[m]).0) != lowered(name),
    ensures
        section_body(sections, name) == Some(sections[p].1),
        filled_section(sections, name) == (if says_something(sections[p].1) {
            Some(sections[p].1)
        } else {
            None
        }),
{
    lemma_section_place(sections, name, p);
    lemma_trim_empty(sections[p].1);
}

proof fn lemma_section_place(
    sections: Seq<(Seq<char>, Seq<char>)>,
    name: Seq<char>,
    p: int,
)
    requires
        0 <= p < sections.len(),
        lowered(sections[p].0) == lowered(name),
        forall|m: int| 0 <= m < p ==> lowered((#[trigger] sections[m]).0) != lowered(name),
    ensures
        section_place(sections, name) == p,
    decreases sections.len(),
{
    if p > 0 {
        assert(lowered(sections[0].0) != lowered(name));
        let rest = sections.skip(1);
        assert forall|m: int| 0 <= m < p - 1 implies lowered((#[trigger] rest[m]).0) != lowered(
            name,
        ) by {
            assert(rest[m] == sections[m + 1]);
        }
        lemma_section_place(rest, name, p - 1);
    }
}

/// The panel's own sections are not shown again, every other one is, with all
/// its lines and in order.
pub proof fn law_other_sections_are_shown(
    a: Seq<(Seq<char>, Seq<char>)>,
    b: Seq<(Seq<char>, Seq<char>)>,
    one: (Seq<char>, Seq<char>),
)
    ensures
        other_sections(a + b) == other_sections(a) + other_sections(b),
        ({
            let name = lowered(one.0);
            let own = name == lowered("next"@) || name == lowered("context"@) || name == lowered(
                "hazards"@,
            ) || name == lowered("notes"@);
            if own {
                other_sections(seq![one]).len() == 0
            } else {
                other_sections(seq![one]) == seq![(one.0, lines_of(one.1))]
            }
        }),
    decreases b.len(),
{
    let none = Seq::<(Seq<char>, Seq<char>)>::empty();
    assert(seq![one].drop_last() =~= none);
    assert(other_sections(none).len() == 0);
    if !crate::detail::has_own_place(one.0) {
        assert(other_sections(seq![one]) =~= seq![(one.0, lines_of(one.1))]);
    }
    if b.len() == 0 {
        assert(a + b =~= a);
        assert(other_sections(a) + other_sections(b) =~= other_sections(a));
    } else {
        law_other_sections_are_shown(a, b.drop_last(), one);
        assert((a + b).drop_last() =~= a + b.drop_last());
        assert((a + b).last() == b.last());
        assert(other_sections(a + b) =~= other_sections(a) + other_sections(b));
    }
}

/// A list marker is taken off, however often it stands there, and nothing
/// else is.
pub proof fn law_bullet_is_taken_off(s: Seq<char>)
    ensures
        without_bullets("- "@ + s) == without_bullets(s),
        !"- "@.is_prefix_of(s) ==> without_bullets(s) == s,
{
    reveal_strlit("- ");
    let t = "- "@ + s;
    assert(t[0] == '-' && t[1] == ' ');
    assert(t.skip(2) =~= s);
    if s.len() >= 2 && s[0] == '-' && s[1] == ' ' {
        assert(s.subrange(0, 2) =~= "- "@);
    }
}

/// Every line that names a hazard is shown, in order, without whitespace
/// around it and without list markers.
pub proof fn law_every_hazard_is_shown(a: Seq<Seq<char>>, b: Seq<Seq<char>>, one: Seq<char>)
    ensures
        hazards_on(a + b) == hazards_on(a) + hazards_on(b),
        without_bullets(trimmed(one)).len() > 0 ==> hazards_on(seq![one]) == seq![
            without_bullets(trimmed(one)),
        ],
        without_bullets(trimmed(one)).len() == 0 ==> hazards_on(seq![one]).len() == 0,
    decreases b.len(),
{
    let none = Seq::<Seq<char>>::empty();
    assert(seq![one].drop_last() =~= none);
    assert(hazards_on(none).len() == 0);
    if without_bullets(trimmed(one)).len() > 0 {
        assert(hazards_on(seq![one]) =~= seq![without_bullets(trimmed(one))]);
    }
    if b.len() == 0 {
        assert(a + b =~= a);
        assert(hazards_on(a) + hazards_on(b) =~= hazards_on(a));
    } else {
        law_every_hazard_is_shown(a, b.drop_last(), one);
        assert((a + b).drop_last() =~= a + b.drop_last());
        assert((a + b).last() == b.last());
        assert(hazards_on(a + b) =~= hazards_on(a) + hazards_on(b));
    }
}

/// Of lines, just those that say something are kept, in order.
pub proof fn law_blank_lines_are_left_out(a: Seq<Seq<char>>, b: Seq<Seq<char>>, one: Seq<char>)
    ensures
        filled(a + b) == filled(a) + filled(b),
        says_something(one) ==> filled(seq![one]) == seq![one],
        !says_something(one) ==> filled(seq![one]).len() == 0,
    decreases b.len(),
{
    lemma_trim_empty(one);
    let none = Seq::<Seq<char>>::empty();
    assert(seq![one].drop_last() =~= none);
    assert(filled(none).len() == 0);
    if says_something(one) {
        assert(filled(seq![one]) =~= seq![one]);
    }
    if b.len() == 0 {
        assert(a + b =~= a);
        assert(filled(a) + filled(b) =~= filled(a));
    } else {
        law_blank_lines_are_left_out(a, b.drop_last(), one);
        assert((a + b).drop_last() =~= a + b.drop_last());
        assert((a + b).last() == b.last());
        assert(filled(a + b) =~= filled(a) + filled(b));
    }
}

/// One dependency is told in the singular, any other number in the plural.
pub proof fn law_dependencies_are_told(count: nat)
    ensures
        count == 1 ==> dependency_text(count) == decimal(1) + " "@ + "dependency"@,
        count != 1 ==> dependency_text(count) == decimal(count) + " "@ + "dependencies"@,
{
}

// ---------------------------------------------------------------------
// What the map draws
// ---------------------------------------------------------------------

/// Items are counted one by one: the counts of two lists add up, and one item
/// counts just under its status.
pub proof fn law_items_are_counted(
    a: Seq<ItemView>,
    b: Seq<ItemView>,
    one: ItemView,
    status: Status,
)
    ensures
        status_count(a + b, status) == status_count(a, status) + status_count(b, status),
        status_count(seq![one], status) == if one.status == status {
            1nat
        } else {
            0nat
        },
    decreases b.len(),
{
    assert(seq![one].drop_last() =~= Seq::<ItemView>::empty());
    assert(status_count(seq![one].drop_last(), status) == 0);
    if b.len() == 0 {
        assert(a + b =~= a);
    } else {
        law_items_are_counted(a, b.drop_last(), one, status);
        assert((a + b).drop_last() =~= a + b.drop_last());
        assert((a + b).last() == b.last());
    }
}

/// A node is drawn in the color of its item's status; only an unknown item is
/// dashed; the focused node and what is dragged have the focus border, other
/// selected nodes the selection's; focused and selected nodes have the
/// stronger tint.
pub proof fn law_node_is_drawn(state: MapState, node: usize)
    ensures
        ({
            let style = state.style(node);
            let item = state.items[state.nodes[node as int].item_ix as int];
            let focused = state.focused_node == Some(node);
            let selected = state.selected.contains(item.id);
            let dragged = state.drag is Some && (state.drag->0.pressed_ix == node || exists|k: int|
                0 <= k < state.drag->0.starts.len() && (#[trigger] state.drag->0.starts[k]).0
                    == node);
            &&& style.color == color_of(item.status)
            &&& style.dashed == (item.status == Status::Unknown)
            &&& (style.border == Border::Focused) == (focused || dragged)
            &&& (style.border == Border::Selected) == (selected && !focused && !dragged)
            &&& style.strong_tint == (focused || selected)
        }),
{
}

/// Each status has its color.
pub proof fn law_colors_are_these()
    ensures
        color_of(Status::NotStarted) == 0x888780,
        color_of(Status::Started) == 0x378add,
        color_of(Status::Paused) == 0xef9f27,
        color_of(Status::Blocked) == 0xe24b4a,
        color_of(Status::Implemented) == 0x97c459,
        color_of(Status::Merged) == 0x639922,
        color_of(Status::Complete) == 0x3b6d11,
        color_of(Status::Canceled) == 0xb4b2a9,
        color_of(Status::Unknown) == 0xc9c7be,
{
}

/// The status menu offers every status once, in lifecycle order, marks the
/// current one, and has a divider before the last two.
pub proof fn law_status_menu_offers_all(current: Option<Status>)
    ensures
        ({
            let offer = |s: Status|
                MenuLineView::Choice(
                    s.label_text(),
                    current == Some(s),
                    MenuActionView::SetStatus(s),
                );
            status_choices(current, 9) == seq![
                MenuLineView::Header("Set status"@),
                offer(Status::NotStarted),
                offer(Status::Started),
                offer(Status::Paused),
                offer(Status::Blocked),
                offer(Status::Implemented),
                offer(Status::Merged),
                offer(Status::Complete),
                MenuLineView::Separator,
                offer(Status::Canceled),
                offer(Status::Unknown),
            ]
        }),
{
    reveal_with_fuel(status_choices, 10);
    let offer = |s: Status|
        MenuLineView::Choice(s.label_text(), current == Some(s), MenuActionView::SetStatus(s));
    assert(status_choices(current, 9) =~= seq![
        MenuLineView::Header("Set status"@),
        offer(Status::NotStarted),
        offer(Status::Started),
        offer(Status::Paused),
        offer(Status::Blocked),
        offer(Status::Implemented),
        offer(Status::Merged),
        offer(Status::Complete),
        MenuLineView::Separator,
        offer(Status::Canceled),
        offer(Status::Unknown),
    ]);
}

} // verus!

//! Filters and lenses of the map.

use crate::events::lens_views;
use crate::map::{short_ids_fit, MapState, WorkcatMapView, DEFAULT_LENS};
use crate::map_edit::{event_views, lemma_same_scene, MapEvent, MapEventView};
use crate::model::{placed_views, statuses_named, FilterState, FilterView, Lens, LensView, Position};
use crate::status::{law_status_round_trips, status_named, Status, ALL_STATUSES};
use crate::text::{chars_of, join, same_text, string_of, texts, trim, trimmed};
use vstd::prelude::*;

verus! {

/// The names of those of the first `k` statuses that are visible.
pub open spec fn visible_names(visible: Set<Status>, k: nat) -> Seq<Seq<char>>
    decreases k,
{
    if k == 0 {
        Seq::empty()
    } else {
        let before = visible_names(visible, (k - 1) as nat);
        let status = ALL_STATUSES[k - 1];
        if visible.contains(status) {
            before.push(status.name())
        } else {
            before
        }
    }
}

/// Positions with the first `k` placements put over them.
pub open spec fn overlaid(
    positions: Map<Seq<char>, Position>,
    placed: Seq<(Seq<char>, Position)>,
    k: nat,
) -> Map<Seq<char>, Position>
    decreases k,
{
    if k == 0 {
        positions
    } else {
        overlaid(positions, placed, (k - 1) as nat).insert(placed[k - 1].0, placed[k - 1].1)
    }
}

impl MapState {
    /// The state after a change of the filter, which leaves every lens.
    pub open spec fn refiltered(self, filter: FilterView) -> MapState {
        MapState { filter, active_lens: None, ..self }.rebuilt()
    }

    /// The state after a change of the search text.
    pub open spec fn searched(self, query: Seq<char>) -> MapState {
        if self.filter.query == query {
            self
        } else {
            self.refiltered(FilterView { query, ..self.filter })
        }
    }

    /// The state with a lens applied: its filter, and the positions it was
    /// saved with.
    pub open spec fn with_lens(self, name: Seq<char>) -> MapState {
        if self.lenses.dom().contains(name) {
            let lens = self.lenses[name];
            MapState {
                filter: lens.filter(),
                active_lens: Some(name),
                positions: overlaid(self.positions, lens.positions, lens.positions.len()),
                ..self
            }.rebuilt().saying("lens: "@ + name)
        } else {
            self.saying("no lens named "@ + name)
        }
    }

    /// All visible nodes' geometry.
    pub open spec fn node_places(self) -> Seq<(Seq<char>, Position)> {
        Seq::new(self.nodes.len(), |k: int| (self.node_id(k), self.nodes[k].at))
    }

    /// The lens that the current filter, search and layout make.
    pub open spec fn lens_named(self, name: Seq<char>) -> LensView {
        LensView {
            name,
            visible_statuses: visible_names(self.filter.visible, 9),
            query: trimmed(self.filter.query),
            positions: self.node_places(),
        }
    }

    /// The state with the current filter and layout saved as a lens, and the
    /// events that record it.
    pub open spec fn lens_saved(self, name: Seq<char>) -> (MapState, Seq<MapEventView>) {
        let lens = self.lens_named(name);
        (
            MapState {
                lenses: self.lenses.insert(name, lens),
                active_lens: Some(name),
                ..self
            }.with_pending(1).saying("saved lens "@ + name),
            seq![MapEventView::LensSaved(lens)],
        )
    }

    /// The state with the active lens saved anew.
    pub open spec fn active_lens_saved(self) -> (MapState, Seq<MapEventView>) {
        match self.active_lens {
            Some(name) => self.lens_saved(name),
            None => (
                self.saying("no active lens \u{2014} use + to create one"@),
                Seq::empty(),
            ),
        }
    }

    /// The state without a lens. A lens that is not there changes nothing.
    pub open spec fn lens_deleted(self, name: Seq<char>) -> (MapState, Seq<MapEventView>) {
        if self.lenses.dom().contains(name) {
            (
                MapState {
                    lenses: self.lenses.remove(name),
                    active_lens: if self.active_lens == Some(name) {
                        None
                    } else {
                        self.active_lens
                    },
                    ..self
                }.with_pending(1).saying("deleted lens "@ + name),
                seq![MapEventView::LensDeleted(name)],
            )
        } else {
            (self, Seq::empty())
        }
    }

    /// The state after a name was typed for a new lens. A blank name is
    /// refused.
    pub open spec fn lens_confirmed(self, typed: Seq<char>) -> (MapState, Seq<MapEventView>) {
        let name = trimmed(typed);
        if name.len() == 0 {
            (self.saying("lens needs a name"@), Seq::empty())
        } else {
            let (state, events) = self.lens_saved(name);
            (MapState { naming_lens: false, ..state }, events)
        }
    }

    /// The state with the default lens applied, once, after the load.
    pub open spec fn opened(self) -> MapState {
        if self.needs_default_lens && !self.loading {
            let state = MapState { needs_default_lens: false, ..self };
            if self.lenses.dom().contains(DEFAULT_LENS@) {
                state.with_lens(DEFAULT_LENS@)
            } else {
                state
            }
        } else {
            self
        }
    }
}

impl WorkcatMapView {
    /// Show or hide the items of a status.
    pub fn toggle_status_filter(&mut self, status: Status)
        requires
            old(self)@.well_formed(),
            short_ids_fit(old(self)@.items, old(self)@.filter.toggled(status).visible),
        ensures
            final(self)@ == old(self)@.refiltered(old(self)@.filter.toggled(status)),
            final(self)@.well_formed(),
    {
        self.filter.toggle_status(status);
        self.active_lens = None;
        proof {
            lemma_same_scene(old(self)@, self@);
        }
        self.rebuild_scene();
    }

    /// Reset filters and search to the default scope.
    pub fn clear_filter(&mut self)
        requires
            old(self)@.well_formed(),
            short_ids_fit(old(self)@.items, FilterView::default_scope().visible),
        ensures
            final(self)@ == old(self)@.refiltered(FilterView::default_scope()),
            final(self)@.well_formed(),
    {
        self.filter = FilterState::default();
        self.active_lens = None;
        proof {
            lemma_same_scene(old(self)@, self@);
        }
        self.rebuild_scene();
    }

    /// Take over the text of the search box.
    pub fn set_query(&mut self, query: String)
        requires
            old(self)@.well_formed(),
        ensures
            final(self)@ == old(self)@.searched(query@),
            final(self)@.well_formed(),
    {
        if !same_text(self.filter.query.as_str(), query.as_str()) {
            self.filter.query = query;
            self.active_lens = None;
            proof {
                lemma_same_scene(old(self)@, self@);
            }
            self.rebuild_scene();
        }
    }

    /// Apply a saved lens: its filter, and the geometry it was saved with.
    pub fn apply_lens(&mut self, name: &str)
        requires
            old(self)@.well_formed(),
            old(self)@.lenses.dom().contains(name@) ==> short_ids_fit(
                old(self)@.items,
                old(self)@.lenses[name@].filter().visible,
            ),
        ensures
            final(self)@ == old(self)@.with_lens(name@),
            final(self)@.well_formed(),
    {
        let ghost start = self@;
        let found: Option<Lens> = match self.lenses.get(name) {
            Some(lens) => Some(lens.clone()),
            None => None,
        };
        assert(start.lenses.dom().contains(name@) == self.lenses@.dom().contains(name@));
        let lens = match found {
            Some(lens) => lens,
            None => {
                self.say(join("no lens named ", name));
                return;
            },
        };
        assert(start.lenses[name@] == lens@);
        self.filter = lens.to_filter();
        self.active_lens = Some(name.to_owned());
        let ghost placed = placed_views(lens.positions@);
        let ghost mid = self@;
        let mut k: usize = 0;
        while k < lens.positions.len()
            invariant
                k <= lens.positions@.len(),
                placed == placed_views(lens.positions@),
                self@ == (MapState { positions: overlaid(start.positions, placed, k as nat), ..mid }),
            decreases lens.positions@.len() - k,
        {
            assert(placed[k as int] == (lens.positions@[k as int].0@, lens.positions@[k as int].1));
            self.positions.insert(lens.positions[k].0.clone(), lens.positions[k].1);
            k += 1;
        }
        proof {
            lemma_same_scene(start, self@);
        }
        self.rebuild_scene();
        self.say(join("lens: ", name));
    }

    /// All currently-visible nodes' geometry, snapshotted into a lens.
    pub fn current_positions(&self) -> (r: Vec<(String, Position)>)
        requires
            self@.well_formed(),
        ensures
            placed_views(r@) == self@.node_places(),
    {
        let ghost wanted = self@.node_places();
        let mut out: Vec<(String, Position)> = Vec::new();
        let mut k: usize = 0;
        while k < self.nodes.len()
            invariant
                k <= self.nodes@.len(),
                self@.well_formed(),
                wanted == self@.node_places(),
                placed_views(out@) == wanted.take(k as int),
            decreases self.nodes@.len() - k,
        {
            assert(self@.nodes[k as int] == self.nodes@[k as int]@);
            let item_ix = self.nodes[k].item_ix;
            assert(self@.nodes[k as int].item_ix < self@.items.len());
            assert(self@.items[item_ix as int] == self.items@[item_ix as int]@);
            let ghost before = out@;
            out.push((self.items[item_ix].id.clone(), self.nodes[k].at));
            assert(placed_views(out@) =~= placed_views(before).push(wanted[k as int]));
            assert(wanted.take(k + 1) =~= wanted.take(k as int).push(wanted[k as int]));
            k += 1;
        }
        assert(wanted.take(self.nodes@.len() as int) =~= wanted);
        out
    }

    fn visible_status_names(&self) -> (r: Vec<String>)
        ensures
            texts(r@) == visible_names(self@.filter.visible, 9),
    {
        let mut out: Vec<String> = Vec::new();
        let mut k: usize = 0;
        assert(texts(out@) =~= visible_names(self@.filter.visible, 0));
        while k < 9
            invariant
                k <= 9,
                texts(out@) == visible_names(self@.filter.visible, k as nat),
            decreases 9 - k,
        {
            let status = ALL_STATUSES[k];
            if self.filter.visible_statuses.contains(&status) {
                let ghost before = out@;
                out.push(status.as_str().to_owned());
                assert(texts(out@) =~= texts(before).push(status.name()));
            }
            k += 1;
        }
        out
    }

    /// Save the current filter + query + layout under `name`, giving
    /// a `lens_saved` event and folding it in memory (last-write-wins).
    pub fn save_lens(&mut self, name: String) -> (r: Vec<MapEvent>)
        requires
            old(self)@.well_formed(),
        ensures
            (final(self)@, event_views(r@)) == old(self)@.lens_saved(name@),
            final(self)@.well_formed(),
    {
        let ghost start = self@;
        let query_chars = chars_of(self.filter.query.as_str());
        let lens = Lens {
            name: name.clone(),
            visible_statuses: self.visible_status_names(),
            query: string_of(trim(query_chars.as_slice())),
            positions: self.current_positions(),
        };
        assert(lens@ == start.lens_named(name@));
        let event = MapEvent::LensSaved(lens.clone());
        let status = join("saved lens ", name.as_str());
        let ghost lenses = self.lenses@;
        self.lenses.insert(name.clone(), lens);
        assert(lens_views(self.lenses@) =~= lens_views(lenses).insert(name@, lens@));
        self.active_lens = Some(name);
        proof {
            lemma_same_scene(start, self@);
        }
        self.count_events(1);
        self.say(status);
        let events = vec![event];
        assert(event_views(events@) =~= seq![MapEventView::LensSaved(lens@)]);
        events
    }

    /// Overwrite the active lens in place. With no active lens there is
    /// nothing to update.
    pub fn save_active_lens(&mut self) -> (r: Vec<MapEvent>)
        requires
            old(self)@.well_formed(),
        ensures
            (final(self)@, event_views(r@)) == old(self)@.active_lens_saved(),
            final(self)@.well_formed(),
    {
        let active: Option<String> = match &self.active_lens {
            Some(name) => Some(name.clone()),
            None => None,
        };
        match active {
            Some(name) => self.save_lens(name),
            None => {
                self.say("no active lens \u{2014} use + to create one".to_owned());
                let events: Vec<MapEvent> = Vec::new();
                assert(event_views(events@) =~= Seq::empty());
                events
            },
        }
    }

    /// Delete a saved lens.
    pub fn delete_lens(&mut self, name: &str) -> (r: Vec<MapEvent>)
        requires
            old(self)@.well_formed(),
        ensures
            (final(self)@, event_views(r@)) == old(self)@.lens_deleted(name@),
            final(self)@.well_formed(),
    {
        let ghost start = self@;
        let ghost lenses = self.lenses@;
        let present = self.lenses.remove(name);
        assert(lens_views(self.lenses@) =~= lens_views(lenses).remove(name@));
        if !present {
            assert(self@.lenses =~= start.lenses);
            let events: Vec<MapEvent> = Vec::new();
            assert(event_views(events@) =~= Seq::empty());
            return events;
        }
        let was_active = match &self.active_lens {
            Some(active) => same_text(active.as_str(), name),
            None => false,
        };
        if was_active {
            self.active_lens = None;
        }
        proof {
            lemma_same_scene(start, self@);
        }
        self.count_events(1);
        self.say(join("deleted lens ", name));
        let events = vec![MapEvent::LensDeleted(name.to_owned())];
        assert(event_views(events@) =~= seq![MapEventView::LensDeleted(name@)]);
        events
    }

    /// Start naming a new lens.
    pub fn save_lens_prompt(&mut self)
        requires
            old(self)@.well_formed(),
        ensures
            final(self)@ == (MapState { naming_lens: true, ..old(self)@ }),
            final(self)@.well_formed(),
    {
        self.naming_lens = true;
        proof {
            lemma_same_scene(old(self)@, self@);
        }
    }

    /// Save a lens under the name that was typed.
    pub fn confirm_lens_name(&mut self, typed: &str) -> (r: Vec<MapEvent>)
        requires
            old(self)@.well_formed(),
        ensures
            (final(self)@, event_views(r@)) == old(self)@.lens_confirmed(typed@),
            final(self)@.well_formed(),
    {
        let chars = chars_of(typed);
        let name = trim(chars.as_slice());
        if name.len() == 0 {
            self.say("lens needs a name".to_owned());
            let events: Vec<MapEvent> = Vec::new();
            assert(event_views(events@) =~= Seq::empty());
            return events;
        }
        let name = string_of(name);
        let events = self.save_lens(name);
        let ghost mid = self@;
        self.naming_lens = false;
        proof {
            lemma_same_scene(mid, self@);
        }
        events
    }

    /// Once loaded, restore the saved startup arrangement by applying the
    /// default lens.
    pub fn open_default_lens(&mut self)
        requires
            old(self)@.well_formed(),
            old(self)@.needs_default_lens && !old(self)@.loading
                && old(self)@.lenses.dom().contains(DEFAULT_LENS@) ==> short_ids_fit(
                old(self)@.items,
                old(self)@.lenses[DEFAULT_LENS@].filter().visible,
            ),
        ensures
            final(self)@ == old(self)@.opened(),
            final(self)@.well_formed(),
    {
        if self.needs_default_lens && !self.loading {
            self.needs_default_lens = false;
            proof {
                lemma_same_scene(old(self)@, self@);
            }
            if self.lenses.contains_key(DEFAULT_LENS) {
                self.apply_lens(DEFAULT_LENS);
            }
        }
    }
}

// ---------------------------------------------------------------------
// Laws
// ---------------------------------------------------------------------

proof fn lemma_all_statuses(status: Status)
    ensures
        0 <= status.rank() < 9,
        ALL_STATUSES[status.rank()] == status,
{
}

proof fn lemma_visible_names(visible: Set<Status>, k: nat, status: Status)
    requires
        k <= 9,
    ensures
        statuses_named(visible_names(visible, k)).contains(status) == (visible.contains(status)
            && status.rank() < k),
    decreases k,
{
    let names = visible_names(visible, k);
    if k == 0 {
    } else {
        let before = visible_names(visible, (k - 1) as nat);
        let last = ALL_STATUSES[k - 1];
        lemma_visible_names(visible, (k - 1) as nat, status);
        law_status_round_trips(last);
        lemma_all_statuses(status);
        assert(last.rank() == k - 1);
        if statuses_named(before).contains(status) {
            let i = choose|i: int|
                0 <= i < before.len() && #[trigger] status_named(before[i]) == Some(status);
            assert(status_named(names[i]) == Some(status));
        }
        if visible.contains(last) {
            assert(names[before.len() as int] == last.name());
            assert(status_named(names[before.len() as int]) == Some(last));
        }
        if statuses_named(names).contains(status) {
            let i = choose|i: int|
                0 <= i < names.len() && #[trigger] status_named(names[i]) == Some(status);
            if i < before.len() {
                assert(status_named(before[i]) == Some(status));
            }
        }
        if status.rank() == k - 1 {
            assert(status == last);
        }
    }
}

/// A lens restores the statuses that were visible when it was saved, and the
/// search text without the whitespace around it.
pub proof fn law_lens_restores_filter(state: MapState, name: Seq<char>)
    ensures
        state.lens_named(name).filter() == (FilterView {
            visible: state.filter.visible,
            query: trimmed(state.filter.query),
        }),
{
    let names = visible_names(state.filter.visible, 9);
    assert forall|status: Status|
        statuses_named(names).contains(status) == state.filter.visible.contains(status) by {
        lemma_visible_names(state.filter.visible, 9, status);
        lemma_all_statuses(status);
    }
    assert(statuses_named(names) =~= state.filter.visible);
}

/// Placements that name different nodes all take effect.
proof fn lemma_overlaid(
    positions: Map<Seq<char>, Position>,
    placed: Seq<(Seq<char>, Position)>,
    k: nat,
    i: int,
)
    requires
        0 <= i < k <= placed.len(),
        forall|a: int, b: int|
            0 <= a < b < placed.len() ==> (#[trigger] placed[a]).0 != (#[trigger] placed[b]).0,
    ensures
        overlaid(positions, placed, k).dom().contains(placed[i].0),
        overlaid(positions, placed, k)[placed[i].0] == placed[i].1,
    decreases k,
{
    if i < k - 1 {
        lemma_overlaid(positions, placed, (k - 1) as nat, i);
        assert(placed[i].0 != placed[k - 1].0);
    }
}

/// A lens restores the place of every node that was visible when it was
/// saved, provided that they show items with different ids.
pub proof fn law_lens_restores_places(
    state: MapState,
    name: Seq<char>,
    positions: Map<Seq<char>, Position>,
    node: int,
)
    requires
        0 <= node < state.nodes.len(),
        forall|a: int, b: int|
            0 <= a < b < state.nodes.len() ==> #[trigger] state.node_id(a) != #[trigger] state.node_id(
                b,
            ),
    ensures
        ({
            let placed = state.lens_named(name).positions;
            let restored = overlaid(positions, placed, placed.len());
            &&& restored.dom().contains(state.node_id(node))
            &&& restored[state.node_id(node)] == state.nodes[node].at
        }),
{
    let placed = state.lens_named(name).positions;
    assert forall|a: int, b: int| 0 <= a < b < placed.len() implies (#[trigger] placed[a]).0 != (
    #[trigger] placed[b]).0 by {
        assert(state.node_id(a) != state.node_id(b));
    }
    lemma_overlaid(positions, placed, placed.len(), node);
}

/// A deleted lens is gone, and deleting it again does nothing.
pub proof fn law_deleted_lens_is_gone(state: MapState, name: Seq<char>)
    ensures
        !state.lens_deleted(name).0.lenses.dom().contains(name),
        state.lens_deleted(name).0.lens_deleted(name) == (
            state.lens_deleted(name).0,
            Seq::<MapEventView>::empty(),
        ),
{
}

} // verus!

//! The course of a session: loading, status changes, edits of brief sections
//! and checkpoints.

use crate::db::item_views;
use crate::events::lens_views;
use crate::map::{short_ids_fit, MapNode, MapState, WorkcatMapView};
use crate::map_edit::{
    counted_text, event_views, item_with_id, lemma_same_scene, with_item_status, MapEvent,
    MapEventView,
};
use crate::model::{
    find_section, has_id8, id8_of, lowercase, section_body, section_place, section_views,
    FilterState, FilterView, ItemMeta, ItemView, Lens, LensView, Op, OpView, Position, StackView,
    UndoStack,
};
use crate::status::{status_named, Status};
use crate::text::{decimal, join, same_text};
use crate::textmap::TextMap;
use vstd::prelude::*;

verus! {

/// How many seconds the map waits after the last mutation before it
/// checkpoints on its own.
pub const AUTO_CHECKPOINT_SECONDS: u64 = 5;


// ---------------------------------------------------------------------
// Loading
// ---------------------------------------------------------------------

impl MapState {
    /// The state before anything is loaded.
    pub open spec fn initial() -> MapState {
        MapState {
            items: Seq::empty(),
            positions: Map::empty(),
            nodes: Seq::empty(),
            edges: Seq::empty(),
            focused_node: None,
            selected: Set::empty(),
            drag: None,
            filter: FilterView::default_scope(),
            lenses: Map::empty(),
            active_lens: None,
            naming_lens: false,
            undo_stack: StackView::empty(),
            status: "loading workcat-db..."@,
            loading: true,
            pending_events: 0,
            checkpoint_running: false,
            needs_default_lens: true,
        }
    }

    /// The state after the database was loaded.
    pub open spec fn loaded(
        self,
        items: Seq<ItemView>,
        positions: Map<Seq<char>, Position>,
        lenses: Map<Seq<char>, LensView>,
    ) -> MapState {
        let state = MapState { items, positions, lenses, loading: false, ..self }.rebuilt();
        state.saying(
            decimal(state.nodes.len()) + " of "@ + decimal(items.len()) + " items in scope, "@
                + decimal(state.edges.len()) + " edges"@,
        )
    }
}

/// The number of dependencies of the first `k` items.
pub open spec fn dependency_count(items: Seq<ItemView>, k: nat) -> nat
    decreases k,
{
    if k == 0 {
        0
    } else {
        dependency_count(items, (k - 1) as nat) + items[k - 1].depends_on.len()
    }
}

/// The number of dependencies of all items.
pub fn count_dependencies(items: &Vec<ItemMeta>) -> (r: u128)
    ensures
        r == dependency_count(item_views(items@), items@.len()),
{
    let ghost all = item_views(items@);
    let count: usize = items.len();
    let mut total: u128 = 0;
    let mut i: usize = 0;
    while i < count
        invariant
            i <= count,
            count == items@.len(),
            all == item_views(items@),
            total == dependency_count(all, i as nat),
            total <= i * 0xffff_ffff_ffff_ffff,
        decreases count - i,
    {
        let n: usize = items[i].depends_on.len();
        assert(all[i as int].depends_on.len() == n);
        proof {
            assert(i * 0xffff_ffff_ffff_ffff + 0xffff_ffff_ffff_ffff == (i + 1)
                * 0xffff_ffff_ffff_ffff);
        }
        total = total + n as u128;
        i += 1;
    }
    total
}

impl WorkcatMapView {
    /// The view before anything is loaded.
    pub fn new() -> (r: WorkcatMapView)
        ensures
            r@ == MapState::initial(),
            r@.well_formed(),
    {
        let items: Vec<ItemMeta> = Vec::new();
        let nodes: Vec<MapNode> = Vec::new();
        let r = WorkcatMapView {
            items,
            positions: TextMap::new(),
            nodes,
            edges: Vec::new(),
            focused_node: None,
            selected: TextMap::new(),
            drag: None,
            filter: FilterState::default(),
            lenses: TextMap::new(),
            active_lens: None,
            naming_lens: false,
            undo_stack: UndoStack::default(),
            status: "loading workcat-db...".to_owned(),
            loading: true,
            pending_events: 0,
            checkpoint_running: false,
            needs_default_lens: true,
        };
        proof {
            assert(r@.items =~= Seq::empty());
            assert(r@.nodes =~= Seq::empty());
            assert(r@.edges =~= Seq::empty());
            assert(r@.selected =~= Set::empty());
            assert(r@.lenses =~= Map::empty());
        }
        r
    }

    /// Take over what was loaded from the database.
    pub fn apply_loaded(
        &mut self,
        items: Vec<ItemMeta>,
        positions: TextMap<Position>,
        lenses: TextMap<Lens>,
    )
        requires
            old(self)@.well_formed(),
            short_ids_fit(item_views(items@), old(self)@.filter.visible),
        ensures
            final(self)@ == old(self)@.loaded(
                item_views(items@),
                positions@,
                lens_views(lenses@),
            ),
            final(self)@.well_formed(),
    {
        let total: usize = items.len();
        self.items = items;
        self.positions = positions;
        self.lenses = lenses;
        self.loading = false;
        self.rebuild_scene();
        let shown = counted_text("", self.nodes.len(), " of ");
        let of = counted_text(shown.as_str(), total, " items in scope, ");
        proof {
            reveal_strlit("");
            assert(""@ + decimal(self@.nodes.len()) =~= decimal(self@.nodes.len()));
        }
        self.say(counted_text(of.as_str(), self.edges.len(), " edges"));
    }

    /// Report that loading failed.
    pub fn load_failed(&mut self, error: &str)
        requires
            old(self)@.well_formed(),
        ensures
            final(self)@ == (MapState { loading: false, ..old(self)@ }).saying(
                "load failed: "@ + error@,
            ),
            final(self)@.well_formed(),
    {
        self.loading = false;
        proof {
            lemma_same_scene(old(self)@, self@);
        }
        self.say(join("load failed: ", error));
    }

    /// Report that an event could not be appended to the log.
    pub fn append_failed(&mut self, error: &str)
        requires
            old(self)@.well_formed(),
        ensures
            final(self)@ == old(self)@.saying("event append failed: "@ + error@),
            final(self)@.well_formed(),
    {
        self.say(join("event append failed: ", error));
    }
}

// ---------------------------------------------------------------------
// Status changes
// ---------------------------------------------------------------------

impl MapState {
    /// The state with the focused item's status set, and the events that
    /// record it. The scene is made anew only where the item drops out of it.
    pub open spec fn status_changed(self, status: Status) -> (MapState, Seq<MapEventView>) {
        match self.focused_node {
            None => (self.saying("no focused item to set status on"@), Seq::empty()),
            Some(node) => {
                let ix = self.nodes[node as int].item_ix as int;
                let item = self.items[ix];
                if item.status == status {
                    (self, Seq::empty())
                } else {
                    let changed = MapState {
                        items: with_item_status(self.items, ix, status),
                        undo_stack: self.undo_stack.pushed(
                            OpView::SetStatus(item.id, item.status, status),
                        ),
                        ..self
                    };
                    let scene = if self.filter.visible.contains(status) {
                        changed
                    } else {
                        changed.rebuilt()
                    };
                    (
                        scene.saying(
                            "status: "@ + id8_of(item.id) + " -> "@ + status.label_text(),
                        ).with_pending(1),
                        seq![MapEventView::StatusSet(item.id, status)],
                    )
                }
            },
        }
    }

    /// The state with the focused item's status set by name. A name that
    /// denotes no status is refused.
    pub open spec fn status_chosen(self, name: Seq<char>) -> (MapState, Seq<MapEventView>) {
        match status_named(name) {
            Some(status) => self.status_changed(status),
            None => (self.saying("unknown status: "@ + name), Seq::empty()),
        }
    }
}

impl WorkcatMapView {
    /// Set the focused item's status by value.
    pub fn set_focused_status(&mut self, status: Status) -> (r: Vec<MapEvent>)
        requires
            old(self)@.well_formed(),
        ensures
            (final(self)@, event_views(r@)) == old(self)@.status_changed(status),
            final(self)@.well_formed(),
    {
        let ghost start = self@;
        let none: Vec<MapEvent> = Vec::new();
        assert(event_views(none@) =~= Seq::empty());
        let node = match self.focused_node {
            Some(node) => node,
            None => {
                self.say("no focused item to set status on".to_owned());
                return none;
            },
        };
        assert(self@.nodes[node as int] == self.nodes@[node as int]@);
        let item_ix = self.nodes[node].item_ix;
        assert(self@.nodes[node as int].item_ix < self@.items.len());
        assert(self@.items[item_ix as int] == self.items@[item_ix as int]@);
        assert(has_id8(self@.items[item_ix as int].id));
        let previous = self.items[item_ix].status;
        if previous == status {
            return none;
        }
        let id = self.items[item_ix].id.clone();
        let id8 = self.items[item_ix].id8().to_owned();
        self.set_item_status(item_ix, status);
        let ghost mid = self@;
        self.undo_stack.push(Op::SetStatus(id.clone(), previous, status));
        proof {
            lemma_same_scene(mid, self@);
        }
        if !self.filter.visible_statuses.contains(&status) {
            self.rebuild_scene();
        }
        let from = join("status: ", id8.as_str());
        let arrow = join(from.as_str(), " -> ");
        self.say(join(arrow.as_str(), status.label()));
        self.count_events(1);
        let events = vec![MapEvent::StatusSet(id, status)];
        assert(event_views(events@) =~= seq![MapEventView::StatusSet(id@, status)]);
        events
    }

    /// Set the focused item's status by name.
    pub fn set_status(&mut self, name: &str) -> (r: Vec<MapEvent>)
        requires
            old(self)@.well_formed(),
        ensures
            (final(self)@, event_views(r@)) == old(self)@.status_chosen(name@),
            final(self)@.well_formed(),
    {
        match Status::parse(name) {
            Some(status) => self.set_focused_status(status),
            None => {
                self.say(join("unknown status: ", name));
                let events: Vec<MapEvent> = Vec::new();
                assert(event_views(events@) =~= Seq::empty());
                events
            },
        }
    }
}

// ---------------------------------------------------------------------
// Brief sections
// ---------------------------------------------------------------------

/// Sections with the text under a heading replaced; a heading that is not
/// there is added.
pub open spec fn with_section(
    sections: Seq<(Seq<char>, Seq<char>)>,
    heading: Seq<char>,
    text: Seq<char>,
) -> Seq<(Seq<char>, Seq<char>)> {
    let p = section_place(sections, heading) as int;
    if p < sections.len() {
        sections.update(p, (sections[p].0, text))
    } else {
        sections.push((heading, text))
    }
}

impl MapState {
    /// The state with a section of an item's brief replaced, the events that
    /// record it, and the line that reports it. A text that is already there
    /// changes nothing.
    pub open spec fn section_saved(self, id: Seq<char>, heading: Seq<char>, text: Seq<char>) -> (
        MapState,
        Seq<MapEventView>,
        Seq<char>,
    ) {
        let ix = item_with_id(self.items, id, 0);
        if ix >= self.items.len() {
            (self, Seq::empty(), "no item "@ + id)
        } else {
            let item = self.items[ix];
            let existing = match section_body(item.sections, heading) {
                Some(body) => body,
                None => Seq::empty(),
            };
            if existing == text {
                (self, Seq::empty(), lowercase(heading) + " unchanged"@)
            } else {
                let message = lowercase(heading) + " saved (uncommitted)"@;
                (
                    MapState {
                        items: self.items.update(
                            ix,
                            ItemView {
                                sections: with_section(item.sections, heading, text),
                                ..item
                            },
                        ),
                        ..self
                    }.with_pending(1).saying(message),
                    seq![MapEventView::BriefEdited(id, heading, text)],
                    message,
                )
            }
        }
    }
}

impl WorkcatMapView {
    /// Replace a section of an item's brief in memory.
    fn replace_section(&mut self, ix: usize, heading: &str, text: String)
        requires
            old(self)@.well_formed(),
            ix < old(self)@.items.len(),
        ensures
            final(self)@ == (MapState {
                items: old(self)@.items.update(
                    ix as int,
                    ItemView {
                        sections: with_section(
                            old(self)@.items[ix as int].sections,
                            heading@,
                            text@,
                        ),
                        ..old(self)@.items[ix as int]
                    },
                ),
                ..old(self)@
            }),
            final(self)@.well_formed(),
    {
        let ghost before = self@.items;
        let ghost items0 = self.items@;
        let mut item = ItemMeta {
            id: String::new(),
            subject: String::new(),
            reference: String::new(),
            status: Status::Unknown,
            updated_at: None,
            depends_on: Vec::new(),
            sections: Vec::new(),
        };
        std::mem::swap(&mut item, &mut self.items[ix]);
        assert(item@ == before[ix as int]) by {
            assert(items0[ix as int]@ == before[ix as int]);
        }
        let p = find_section(&item.sections, heading);
        let ghost sections = section_views(item.sections@);
        if p < item.sections.len() {
            let name = item.sections[p].0.clone();
            assert(sections[p as int].0 == name@);
            item.sections.set(p, (name, text));
        } else {
            item.sections.push((heading.to_owned(), text));
        }
        assert(section_views(item.sections@) =~= with_section(sections, heading@, text@));
        self.items.set(ix, item);
        proof {
            assert(self@.items =~= before.update(
                ix as int,
                ItemView {
                    sections: with_section(before[ix as int].sections, heading@, text@),
                    ..before[ix as int]
                },
            ));
            assert forall|i: int| 0 <= i < self@.items.len() implies (
            #[trigger] self@.items[i]).id == before[i].id && self@.items[i].status
                == before[i].status by {}
        }
    }

    /// Whole-section replace of any brief section. Gives a
    /// human-readable status line; no-ops (and says so) when the text is
    /// unchanged.
    pub fn save_section_for(&mut self, id: &str, heading: &str, text: String) -> (r: (
        Vec<MapEvent>,
        String,
    ))
        requires
            old(self)@.well_formed(),
        ensures
            (final(self)@, event_views(r.0@), r.1@) == old(self)@.section_saved(
                id@,
                heading@,
                text@,
            ),
            final(self)@.well_formed(),
    {
        let ghost start = self@;
        let none: Vec<MapEvent> = Vec::new();
        assert(event_views(none@) =~= Seq::empty());
        let ix = self.find_item(id);
        if ix >= self.items.len() {
            return (none, join("no item ", id));
        }
        assert(self@.items[ix as int] == self.items@[ix as int]@);
        let p = find_section(&self.items[ix].sections, heading);
        let unchanged = if p < self.items[ix].sections.len() {
            assert(section_views(self.items@[ix as int].sections@)[p as int].1
                == self.items@[ix as int].sections@[p as int].1@);
            same_text(self.items[ix].sections[p].1.as_str(), text.as_str())
        } else {
            assert(text@.len() == 0 ==> text@ =~= Seq::<char>::empty());
            text.as_str().is_empty()
        };
        let name = heading.to_lowercase();
        if unchanged {
            return (none, join(name.as_str(), " unchanged"));
        }
        let event = MapEvent::BriefEdited(id.to_owned(), heading.to_owned(), text.clone());
        self.replace_section(ix, heading, text);
        self.count_events(1);
        let message = join(name.as_str(), " saved (uncommitted)");
        self.say(message.clone());
        let events = vec![event];
        assert(event_views(events@) =~= seq![MapEventView::BriefEdited(id@, heading@, text@)]);
        (events, message)
    }

    /// Whole-section replace of an item's `## Notes`.
    pub fn save_notes_for(&mut self, id: &str, text: String) -> (r: (Vec<MapEvent>, String))
        requires
            old(self)@.well_formed(),
        ensures
            (final(self)@, event_views(r.0@), r.1@) == old(self)@.section_saved(
                id@,
                "Notes"@,
                text@,
            ),
            final(self)@.well_formed(),
    {
        self.save_section_for(id, "Notes", text)
    }
}

/// A section that was saved reads back.
pub proof fn law_saved_section_reads_back(
    sections: Seq<(Seq<char>, Seq<char>)>,
    heading: Seq<char>,
    text: Seq<char>,
)
    ensures
        section_body(with_section(sections, heading, text), heading) == Some(text),
    decreases sections.len(),
{
    let after = with_section(sections, heading, text);
    if sections.len() == 0 {
    } else if section_place(sections, heading) == 0 {
        assert(after[0].0 == sections[0].0);
    } else {
        law_saved_section_reads_back(sections.skip(1), heading, text);
        assert(after.skip(1) =~= with_section(sections.skip(1), heading, text));
        assert(after[0] == sections[0]);
    }
}

// ---------------------------------------------------------------------
// Detail panel
// ---------------------------------------------------------------------

/// What `enter` does on the map.
#[derive(Debug, PartialEq, Eq)]
pub enum EnterAction {
    /// A lens is being named: its name is confirmed.
    ConfirmLensName,
    /// No item is focused.
    Nothing,
    /// The detail panel opens on the focused item.
    OpenDetail,
}

impl WorkcatMapView {
    /// `enter`: open the detail panel on the focused item, or, while
    /// naming a lens, confirm the name instead.
    pub fn toggle_detail(&mut self) -> (r: EnterAction)
        requires
            old(self)@.well_formed(),
        ensures
            r is ConfirmLensName == old(self)@.naming_lens,
            r is Nothing == (!old(self)@.naming_lens && old(self)@.focused_node is None),
            final(self)@ == (if r is Nothing {
                old(self)@.saying("no focused item"@)
            } else {
                old(self)@
            }),
            final(self)@.well_formed(),
    {
        if self.naming_lens {
            return EnterAction::ConfirmLensName;
        }
        if self.focused_node.is_none() {
            self.say("no focused item".to_owned());
            return EnterAction::Nothing;
        }
        EnterAction::OpenDetail
    }
}

// ---------------------------------------------------------------------
// Checkpoints
// ---------------------------------------------------------------------

/// How a checkpoint ended.
#[derive(Debug, PartialEq)]
pub enum CheckpointEnd {
    /// Committed and pushed, under this short sha.
    Committed(String),
    /// There was nothing to commit.
    Nothing,
    /// It failed, with this error.
    Failed(String),
}

impl MapState {
    /// The state after a checkpoint is asked for. One that runs is not
    /// disturbed.
    pub open spec fn checkpoint_asked(self) -> MapState {
        if self.checkpoint_running {
            self.saying("checkpoint already running; event queued for the next one"@)
        } else {
            MapState { checkpoint_running: true, ..self }.saying("checkpoint starting..."@)
        }
    }

    /// The state after a checkpoint ended. Only one that did not fail leaves
    /// no event pending.
    pub open spec fn checkpoint_ended(self, end: CheckpointEnd) -> MapState {
        let idle = MapState { checkpoint_running: false, ..self };
        match end {
            CheckpointEnd::Committed(sha) => MapState { pending_events: 0, ..idle }.saying(
                "checkpointed @ "@ + sha@,
            ),
            CheckpointEnd::Nothing => MapState { pending_events: 0, ..idle }.saying(
                "nothing to checkpoint"@,
            ),
            CheckpointEnd::Failed(error) => idle.saying("checkpoint failed: "@ + error@),
        }
    }
}

impl WorkcatMapView {
    /// Ask for a checkpoint; tells whether one is to start.
    pub fn begin_checkpoint(&mut self) -> (r: bool)
        requires
            old(self)@.well_formed(),
        ensures
            r == !old(self)@.checkpoint_running,
            final(self)@ == old(self)@.checkpoint_asked(),
            final(self)@.well_formed(),
    {
        if self.checkpoint_running {
            self.say("checkpoint already running; event queued for the next one".to_owned());
            return false;
        }
        self.checkpoint_running = true;
        proof {
            lemma_same_scene(old(self)@, self@);
        }
        self.say("checkpoint starting...".to_owned());
        true
    }

    /// Take note of how a checkpoint ended.
    pub fn finish_checkpoint(&mut self, end: CheckpointEnd)
        requires
            old(self)@.well_formed(),
        ensures
            final(self)@ == old(self)@.checkpoint_ended(end),
            final(self)@.well_formed(),
    {
        self.checkpoint_running = false;
        proof {
            lemma_same_scene(old(self)@, self@);
        }
        let ghost idle = self@;
        match end {
            CheckpointEnd::Committed(sha) => {
                self.pending_events = 0;
                proof {
                    lemma_same_scene(idle, self@);
                }
                self.say(join("checkpointed @ ", sha.as_str()));
            },
            CheckpointEnd::Nothing => {
                self.pending_events = 0;
                proof {
                    lemma_same_scene(idle, self@);
                }
                self.say("nothing to checkpoint".to_owned());
            },
            CheckpointEnd::Failed(error) => {
                self.say(join("checkpoint failed: ", error.as_str()));
            },
        }
    }

    /// Whether the debounced auto-checkpoint has something to do.
    pub fn auto_checkpoint_due(&self) -> (r: bool)
        ensures
            r == (self@.pending_events > 0 && !self@.checkpoint_running),
    {
        self.pending_events > 0 && !self.checkpoint_running
    }
}

/// Whether an edit sets a status.
pub open spec fn sets_status(events: Seq<MapEventView>) -> bool {
    exists|i: int| 0 <= i < events.len() && (#[trigger] events[i]) is StatusSet
}

/// Whether the events of a fresh edit call for a checkpoint at once: a status
/// change does, other edits wait until activity settles.
pub fn checkpoints_at_once(events: &Vec<MapEvent>) -> (r: bool)
    ensures
        r == sets_status(event_views(events@)),
{
    let ghost all = event_views(events@);
    let mut i: usize = 0;
    while i < events.len()
        invariant
            i <= events@.len(),
            all == event_views(events@),
            forall|k: int| 0 <= k < i ==> !((#[trigger] all[k]) is StatusSet),
        decreases events@.len() - i,
    {
        assert(all[i as int] == events@[i as int]@);
        if let MapEvent::StatusSet(_, _) = &events[i] {
            return true;
        }
        i += 1;
    }
    false
}

} // verus!

//! What the map shows beside its nodes: colors and borders, filter chips, and
//! menus.

use crate::map::{MapState, WorkcatMapView};
use crate::model::{FilterView, ItemView};
use crate::status::{Status, ALL_STATUSES};
use crate::text::{decimal, join, same_text, text_opt, texts, to_decimal};
use crate::textmap::text_lt;
use vstd::prelude::*;

verus! {

// ---------------------------------------------------------------------
// Colors
// ---------------------------------------------------------------------

/// The color of a status, as red, green and blue.
pub open spec fn color_of(status: Status) -> u32 {
    match status {
        Status::NotStarted => 0x888780,
        Status::Started => 0x378add,
        Status::Paused => 0xef9f27,
        Status::Blocked => 0xe24b4a,
        Status::Implemented => 0x97c459,
        Status::Merged => 0x639922,
        Status::Complete => 0x3b6d11,
        Status::Canceled => 0xb4b2a9,
        Status::Unknown => 0xc9c7be,
    }
}

/// No two statuses share a color.
pub proof fn law_colors_differ(a: Status, b: Status)
    requires
        a != b,
    ensures
        color_of(a) != color_of(b),
{
}

/// How the border of a node is drawn.
#[derive(Debug, Clone, Copy, PartialEq, Eq, Structural)]
pub enum Border {
    /// Focused or being dragged: thick, in the focus color.
    Focused,
    /// Selected: thick, in the accent color.
    Selected,
    /// Thin, in the status color.
    Plain,
}

/// How a node is drawn.
#[derive(Debug, Clone, Copy, PartialEq, Eq, Structural)]
pub struct NodeStyle {
    pub color: u32,
    /// Unknown items are visually distinct via a dashed border.
    pub dashed: bool,
    pub border: Border,
    /// Focused and selected nodes get a slightly stronger tint.
    pub strong_tint: bool,
}

impl MapState {
    /// Whether a node takes part in the drag.
    pub open spec fn dragging(self, node: usize) -> bool {
        self.drag matches Some(drag) && (drag.pressed_ix == node || exists|k: int|
            0 <= k < drag.starts.len() && (#[trigger] drag.starts[k]).0 == node)
    }

    /// How a node is drawn.
    pub open spec fn style(self, node: usize) -> NodeStyle {
        let status = self.items[self.nodes[node as int].item_ix as int].status;
        let focused = self.focused_node == Some(node);
        let selected = self.selected.contains(self.node_id(node as int));
        NodeStyle {
            color: color_of(status),
            dashed: status == Status::Unknown,
            border: if focused || self.dragging(node) {
                Border::Focused
            } else if selected {
                Border::Selected
            } else {
                Border::Plain
            },
            strong_tint: focused || selected,
        }
    }
}

impl WorkcatMapView {
    /// The single status->color source of truth: one saturated "dot"
    /// color per status. Pill tints, the status menu, lens chips, and
    /// node fills all derive from these.
    pub fn status_color(status: Status) -> (r: u32)
        ensures
            r == color_of(status),
    {
        match status {
            Status::NotStarted => 0x888780,
            Status::Started => 0x378add,
            Status::Paused => 0xef9f27,
            Status::Blocked => 0xe24b4a,
            Status::Implemented => 0x97c459,
            Status::Merged => 0x639922,
            Status::Complete => 0x3b6d11,
            Status::Canceled => 0xb4b2a9,
            Status::Unknown => 0xc9c7be,
        }
    }

    fn is_dragging(&self, node: usize) -> (r: bool)
        ensures
            r == self@.dragging(node),
    {
        match &self.drag {
            Some(drag) => {
                if drag.pressed_ix == node {
                    return true;
                }
                let mut k: usize = 0;
                while k < drag.starts.len()
                    invariant
                        k <= drag.starts@.len(),
                        self.drag == Some(*drag),
                        drag.pressed_ix != node,
                        forall|j: int| 0 <= j < k ==> (#[trigger] drag.starts@[j]).0 != node,
                    decreases drag.starts@.len() - k,
                {
                    if drag.starts[k].0 == node {
                        assert(self@.drag->0.starts[k as int].0 == node);
                        return true;
                    }
                    k += 1;
                }
                false
            },
            None => false,
        }
    }

    /// How a node is drawn.
    pub fn node_style(&self, node_ix: usize) -> (r: NodeStyle)
        requires
            self@.well_formed(),
            node_ix < self@.nodes.len(),
        ensures
            r == self@.style(node_ix),
    {
        assert(self@.nodes[node_ix as int] == self.nodes@[node_ix as int]@);
        let item_ix = self.nodes[node_ix].item_ix;
        assert(self@.nodes[node_ix as int].item_ix < self@.items.len());
        assert(self@.items[item_ix as int] == self.items@[item_ix as int]@);
        let status = self.items[item_ix].status;
        let focused = match self.focused_node {
            Some(ix) => ix == node_ix,
            None => false,
        };
        let selected = self.node_selected(node_ix);
        let border = if focused || self.is_dragging(node_ix) {
            Border::Focused
        } else if selected {
            Border::Selected
        } else {
            Border::Plain
        };
        NodeStyle {
            color: WorkcatMapView::status_color(status),
            dashed: status == Status::Unknown,
            border,
            strong_tint: focused || selected,
        }
    }

    /// The edges, each with whether it touches the focused node.
    pub fn lit_edges(&self) -> (r: Vec<(usize, usize, bool)>)
        ensures
            r@ == self@.edges.map_values(
                |e: (usize, usize)|
                    (
                        e.0,
                        e.1,
                        self@.focused_node == Some(e.0) || self@.focused_node == Some(e.1),
                    ),
            ),
    {
        let mut out: Vec<(usize, usize, bool)> = Vec::new();
        let ghost wanted = self@.edges.map_values(
            |e: (usize, usize)|
                (
                    e.0,
                    e.1,
                    self@.focused_node == Some(e.0) || self@.focused_node == Some(e.1),
                ),
        );
        let mut k: usize = 0;
        while k < self.edges.len()
            invariant
                k <= self.edges@.len(),
                wanted == self@.edges.map_values(
                    |e: (usize, usize)|
                        (
                            e.0,
                            e.1,
                            self@.focused_node == Some(e.0) || self@.focused_node == Some(e.1),
                        ),
                ),
                out@ == wanted.take(k as int),
            decreases self.edges@.len() - k,
        {
            let (from, to) = self.edges[k];
            let lit = match self.focused_node {
                Some(ix) => ix == from || ix == to,
                None => false,
            };
            out.push((from, to, lit));
            assert(wanted.take(k + 1) =~= wanted.take(k as int).push(wanted[k as int]));
            k += 1;
        }
        assert(wanted.take(self.edges@.len() as int) =~= wanted);
        out
    }
}

// ---------------------------------------------------------------------
// Header and filter row
// ---------------------------------------------------------------------

/// How many items have a status.
pub open spec fn status_count(items: Seq<ItemView>, status: Status) -> nat
    decreases items.len(),
{
    if items.len() == 0 {
        0
    } else {
        status_count(items.drop_last(), status) + if items.last().status == status {
            1nat
        } else {
            0nat
        }
    }
}

/// One toggle of the filter row.
#[derive(Debug)]
pub struct Chip {
    pub status: Status,
    /// How many items have the status, shown or not.
    pub count: usize,
    /// Whether the filter shows them.
    pub visible: bool,
    /// Zero-count lenses read as dimmed but stay clickable.
    pub dimmed: bool,
    pub tooltip: String,
}

/// What hovering over a chip shows.
pub open spec fn chip_tooltip(status: Status, visible: bool) -> Seq<char> {
    status.label_text() + " \u{2014} click to "@ + if visible {
        "hide"@
    } else {
        "show"@
    }
}

/// Whether a chip is that of the status in this state.
pub open spec fn is_chip(chip: Chip, state: MapState, status: Status) -> bool {
    &&& chip.status == status
    &&& chip.count == status_count(state.items, status)
    &&& chip.visible == state.filter.visible.contains(status)
    &&& chip.dimmed == (status_count(state.items, status) == 0)
    &&& chip.tooltip@ == chip_tooltip(status, state.filter.visible.contains(status))
}

impl WorkcatMapView {
    fn count_status(&self, status: Status) -> (r: usize)
        ensures
            r == status_count(self@.items, status),
    {
        let mut n: usize = 0;
        let mut i: usize = 0;
        while i < self.items.len()
            invariant
                i <= self.items@.len(),
                n <= i,
                n == status_count(self@.items.take(i as int), status),
            decreases self.items@.len() - i,
        {
            assert(self@.items.take(i + 1).last() == self.items@[i as int]@);
            assert(self@.items.take(i + 1).drop_last() == self@.items.take(i as int));
            if self.items[i].status == status {
                n += 1;
            }
            i += 1;
        }
        assert(self@.items.take(self.items@.len() as int) == self@.items);
        n
    }

    /// The toggles of the filter row, one for each status in lifecycle order.
    pub fn filter_chips(&self) -> (r: Vec<Chip>)
        ensures
            r@.len() == 9,
            forall|k: int| 0 <= k < 9 ==> is_chip(#[trigger] r@[k], self@, ALL_STATUSES[k]),
    {
        let mut out: Vec<Chip> = Vec::new();
        let mut k: usize = 0;
        while k < 9
            invariant
                k <= 9,
                out@.len() == k,
                forall|j: int| 0 <= j < k ==> is_chip(#[trigger] out@[j], self@, ALL_STATUSES[j]),
            decreases 9 - k,
        {
            let status = ALL_STATUSES[k];
            let count = self.count_status(status);
            let visible = self.filter.visible_statuses.contains(&status);
            let start = join(status.label(), " \u{2014} click to ");
            let tooltip = join(
                start.as_str(),
                if visible {
                    "hide"
                } else {
                    "show"
                },
            );
            out.push(Chip { status, count, visible, dimmed: count == 0, tooltip });
            k += 1;
        }
        out
    }

    /// What the header says of the active lens.
    pub fn lens_label(&self) -> (r: Option<String>)
        ensures
            text_opt(r) == (match self@.active_lens {
                Some(name) => Some("lens: "@ + name),
                None => None,
            }),
    {
        match &self.active_lens {
            Some(name) => Some(join("lens: ", name.as_str())),
            None => None,
        }
    }

    /// What the header says of the events that are not committed.
    pub fn pending_label(&self) -> (r: Option<String>)
        ensures
            text_opt(r) == (if self@.pending_events > 0 {
                Some(decimal(self@.pending_events) + " uncommitted"@)
            } else {
                None
            }),
    {
        if self.pending_events > 0 {
            Some(join(to_decimal(self.pending_events as u64).as_str(), " uncommitted"))
        } else {
            None
        }
    }
}

/// Every item is counted on exactly one chip.
pub proof fn law_chips_count_every_item(items: Seq<ItemView>)
    ensures
        status_count(items, ALL_STATUSES[0]) + status_count(items, ALL_STATUSES[1]) + status_count(
            items,
            ALL_STATUSES[2],
        ) + status_count(items, ALL_STATUSES[3]) + status_count(items, ALL_STATUSES[4])
            + status_count(items, ALL_STATUSES[5]) + status_count(items, ALL_STATUSES[6])
            + status_count(items, ALL_STATUSES[7]) + status_count(items, ALL_STATUSES[8])
            == items.len(),
    decreases items.len(),
{
    if items.len() > 0 {
        law_chips_count_every_item(items.drop_last());
    }
}

// ---------------------------------------------------------------------
// Menus
// ---------------------------------------------------------------------

/// What a menu entry does.
#[derive(Debug, PartialEq)]
pub enum MenuAction {
    Fit,
    Squeeze,
    AutoArrange,
    ZoomIn,
    ZoomOut,
    ZoomReset,
    Undo,
    Redo,
    ApplyLens(String),
    SaveActiveLens,
    SaveLensPrompt,
    DeleteLens(String),
    ClearFilter,
    ToggleDetail,
    Checkpoint,
    SetStatus(Status),
}

/// The mathematical value of a [`MenuAction`].
pub enum MenuActionView {
    Fit,
    Squeeze,
    AutoArrange,
    ZoomIn,
    ZoomOut,
    ZoomReset,
    Undo,
    Redo,
    ApplyLens(Seq<char>),
    SaveActiveLens,
    SaveLensPrompt,
    DeleteLens(Seq<char>),
    ClearFilter,
    ToggleDetail,
    Checkpoint,
    SetStatus(Status),
}

impl View for MenuAction {
    type V = MenuActionView;

    open spec fn view(&self) -> MenuActionView {
        match self {
            MenuAction::Fit => MenuActionView::Fit,
            MenuAction::Squeeze => MenuActionView::Squeeze,
            MenuAction::AutoArrange => MenuActionView::AutoArrange,
            MenuAction::ZoomIn => MenuActionView::ZoomIn,
            MenuAction::ZoomOut => MenuActionView::ZoomOut,
            MenuAction::ZoomReset => MenuActionView::ZoomReset,
            MenuAction::Undo => MenuActionView::Undo,
            MenuAction::Redo => MenuActionView::Redo,
            MenuAction::ApplyLens(name) => MenuActionView::ApplyLens(name@),
            MenuAction::SaveActiveLens => MenuActionView::SaveActiveLens,
            MenuAction::SaveLensPrompt => MenuActionView::SaveLensPrompt,
            MenuAction::DeleteLens(name) => MenuActionView::DeleteLens(name@),
            MenuAction::ClearFilter => MenuActionView::ClearFilter,
            MenuAction::ToggleDetail => MenuActionView::ToggleDetail,
            MenuAction::Checkpoint => MenuActionView::Checkpoint,
            MenuAction::SetStatus(status) => MenuActionView::SetStatus(*status),
        }
    }
}

/// One line of a menu.
#[derive(Debug, PartialEq)]
pub enum MenuLine {
    Separator,
    Header(String),
    Entry(String, MenuAction),
    /// An entry that can be checked, and whether it is.
    Choice(String, bool, MenuAction),
}

/// The mathematical value of a [`MenuLine`].
pub enum MenuLineView {
    Separator,
    Header(Seq<char>),
    Entry(Seq<char>, MenuActionView),
    Choice(Seq<char>, bool, MenuActionView),
}

impl View for MenuLine {
    type V = MenuLineView;

    open spec fn view(&self) -> MenuLineView {
        match self {
            MenuLine::Separator => MenuLineView::Separator,
            MenuLine::Header(text) => MenuLineView::Header(text@),
            MenuLine::Entry(label, action) => MenuLineView::Entry(label@, action@),
            MenuLine::Choice(label, checked, action) => MenuLineView::Choice(
                label@,
                *checked,
                action@,
            ),
        }
    }
}

pub open spec fn menu_views(v: Seq<MenuLine>) -> Seq<MenuLineView> {
    v.map_values(|line: MenuLine| line@)
}

fn push_line(menu: &mut Vec<MenuLine>, line: MenuLine)
    ensures
        menu_views(final(menu)@) == menu_views(old(menu)@).push(line@),
{
    menu.push(line);
    assert(menu_views(menu@) =~= menu_views(old(menu)@).push(line@));
}

fn push_entry(menu: &mut Vec<MenuLine>, label: &str, action: MenuAction)
    ensures
        menu_views(final(menu)@) == menu_views(old(menu)@).push(
            MenuLineView::Entry(label@, action@),
        ),
{
    push_line(menu, MenuLine::Entry(label.to_owned(), action));
}

/// The choices of the first `k` statuses in lifecycle order, with a divider
/// before the terminal ones.
pub open spec fn status_choices(current: Option<Status>, k: nat) -> Seq<MenuLineView>
    decreases k,
{
    if k == 0 {
        seq![MenuLineView::Header("Set status"@)]
    } else {
        let before = status_choices(current, (k - 1) as nat);
        let status = ALL_STATUSES[k - 1];
        let divided = if status == Status::Canceled {
            before.push(MenuLineView::Separator)
        } else {
            before
        };
        divided.push(
            MenuLineView::Choice(
                status.label_text(),
                current == Some(status),
                MenuActionView::SetStatus(status),
            ),
        )
    }
}

/// Shared "Set status" menu section: one component so the map node menu and
/// the detail-panel pill never drift in order, labels or the current-status
/// check. Statuses run in lifecycle order with a divider before the terminal
/// choices.
pub fn status_menu(current: Option<Status>) -> (r: Vec<MenuLine>)
    ensures
        menu_views(r@) == status_choices(current, 9),
{
    let mut menu: Vec<MenuLine> = Vec::new();
    push_line(&mut menu, MenuLine::Header("Set status".to_owned()));
    assert(menu_views(menu@) =~= status_choices(current, 0));
    let mut divided = false;
    let mut k: usize = 0;
    while k < 9
        invariant
            k <= 9,
            divided == (k > 7),
            menu_views(menu@) == status_choices(current, k as nat),
        decreases 9 - k,
    {
        let status = ALL_STATUSES[k];
        if status.is_terminal_choice() && !divided {
            push_line(&mut menu, MenuLine::Separator);
            divided = true;
        }
        let checked = match current {
            Some(now) => now == status,
            None => false,
        };
        push_line(
            &mut menu,
            MenuLine::Choice(status.label().to_owned(), checked, MenuAction::SetStatus(status)),
        );
        k += 1;
    }
    menu
}

/// The menu of a node: its status, then what else can be done.
pub open spec fn node_menu_lines(current: Option<Status>) -> Seq<MenuLineView> {
    status_choices(current, 9).push(MenuLineView::Separator).push(
        MenuLineView::Entry("Open detail panel"@, MenuActionView::ToggleDetail),
    ).push(MenuLineView::Entry("Checkpoint now"@, MenuActionView::Checkpoint))
}

/// The menu of a node.
pub fn node_menu(current: Option<Status>) -> (r: Vec<MenuLine>)
    ensures
        menu_views(r@) == node_menu_lines(current),
{
    let mut menu = status_menu(current);
    push_line(&mut menu, MenuLine::Separator);
    push_entry(&mut menu, "Open detail panel", MenuAction::ToggleDetail);
    push_entry(&mut menu, "Checkpoint now", MenuAction::Checkpoint);
    menu
}

/// The entries of the first `k` lenses, the active one marked.
pub open spec fn lens_entries(
    names: Seq<Seq<char>>,
    active: Option<Seq<char>>,
    k: nat,
) -> Seq<MenuLineView>
    decreases k,
{
    if k == 0 {
        seq![
            MenuLineView::Entry("Fit"@, MenuActionView::Fit),
            MenuLineView::Entry("Squeeze"@, MenuActionView::Squeeze),
            MenuLineView::Entry("Auto-arrange"@, MenuActionView::AutoArrange),
            MenuLineView::Entry("Zoom In"@, MenuActionView::ZoomIn),
            MenuLineView::Entry("Zoom Out"@, MenuActionView::ZoomOut),
            MenuLineView::Entry("Zoom 100%"@, MenuActionView::ZoomReset),
            MenuLineView::Entry("Undo"@, MenuActionView::Undo),
            MenuLineView::Entry("Redo"@, MenuActionView::Redo),
            MenuLineView::Separator,
            MenuLineView::Header("Lenses"@),
        ]
    } else {
        let name = names[k - 1];
        lens_entries(names, active, (k - 1) as nat).push(
            MenuLineView::Entry(
                if active == Some(name) {
                    name + " (active)"@
                } else {
                    name
                },
                MenuActionView::ApplyLens(name),
            ),
        )
    }
}

/// The menu of the background: map-wide operations and the lenses. With no
/// active lens, only a new one can be saved.
pub open spec fn background_lines(
    names: Seq<Seq<char>>,
    active: Option<Seq<char>>,
    default_filter: bool,
) -> Seq<MenuLineView> {
    let lenses = lens_entries(names, active, names.len());
    let saved = match active {
        Some(name) => lenses.push(
            MenuLineView::Entry("Save "@ + name, MenuActionView::SaveActiveLens),
        ),
        None => lenses,
    };
    let new = saved.push(
        MenuLineView::Entry("New lens\u{2026}"@, MenuActionView::SaveLensPrompt),
    );
    let deleted = match active {
        Some(name) => new.push(
            MenuLineView::Entry("Delete Lens "@ + name, MenuActionView::DeleteLens(name)),
        ),
        None => new,
    };
    let cleared = if default_filter {
        deleted
    } else {
        deleted.push(MenuLineView::Entry("Clear Filter"@, MenuActionView::ClearFilter))
    };
    cleared.push(MenuLineView::Separator).push(
        MenuLineView::Entry("Checkpoint Now"@, MenuActionView::Checkpoint),
    )
}

/// The menu of the background, for lenses of these names.
pub fn background_menu_of(names: &Vec<String>, active: &Option<String>, default_filter: bool) -> (r:
    Vec<MenuLine>)
    ensures
        menu_views(r@) == background_lines(texts(names@), text_opt(*active), default_filter),
{
    let ghost all = texts(names@);
    let ghost current = text_opt(*active);
    let mut menu: Vec<MenuLine> = Vec::new();
    push_entry(&mut menu, "Fit", MenuAction::Fit);
    push_entry(&mut menu, "Squeeze", MenuAction::Squeeze);
    push_entry(&mut menu, "Auto-arrange", MenuAction::AutoArrange);
    push_entry(&mut menu, "Zoom In", MenuAction::ZoomIn);
    push_entry(&mut menu, "Zoom Out", MenuAction::ZoomOut);
    push_entry(&mut menu, "Zoom 100%", MenuAction::ZoomReset);
    push_entry(&mut menu, "Undo", MenuAction::Undo);
    push_entry(&mut menu, "Redo", MenuAction::Redo);
    push_line(&mut menu, MenuLine::Separator);
    push_line(&mut menu, MenuLine::Header("Lenses".to_owned()));
    assert(menu_views(menu@) =~= lens_entries(all, current, 0));
    let mut k: usize = 0;
    while k < names.len()
        invariant
            k <= names@.len(),
            all == texts(names@),
            current == text_opt(*active),
            menu_views(menu@) == lens_entries(all, current, k as nat),
        decreases names@.len() - k,
    {
        let name = &names[k];
        assert(all[k as int] == name@);
        let is_active = match active {
            Some(active) => same_text(active.as_str(), name.as_str()),
            None => false,
        };
        let label = if is_active {
            join(name.as_str(), " (active)")
        } else {
            name.clone()
        };
        push_line(&mut menu, MenuLine::Entry(label, MenuAction::ApplyLens(name.clone())));
        k += 1;
    }
    if let Some(active) = active {
        let label = join("Save ", active.as_str());
        push_line(&mut menu, MenuLine::Entry(label, MenuAction::SaveActiveLens));
    }
    push_entry(&mut menu, "New lens\u{2026}", MenuAction::SaveLensPrompt);
    if let Some(active) = active {
        let label = join("Delete Lens ", active.as_str());
        push_line(&mut menu, MenuLine::Entry(label, MenuAction::DeleteLens(active.clone())));
    }
    if !default_filter {
        push_entry(&mut menu, "Clear Filter", MenuAction::ClearFilter);
    }
    push_line(&mut menu, MenuLine::Separator);
    push_entry(&mut menu, "Checkpoint Now", MenuAction::Checkpoint);
    menu
}

/// Whether `names` are the members of a set, in order.
pub open spec fn lists_in_order(names: Seq<Seq<char>>, members: Set<Seq<char>>) -> bool {
    &&& forall|i: int, j: int|
        0 <= i < j < names.len() ==> text_lt(#[trigger] names[i], #[trigger] names[j])
    &&& forall|name: Seq<char>| #[trigger] names.contains(name) == members.contains(name)
}

impl WorkcatMapView {
    /// Right-click on the background: map-wide operations, and the lenses in
    /// the order of their names.
    pub fn background_menu(&self) -> (r: Vec<MenuLine>)
        ensures
            exists|names: Seq<Seq<char>>| #[trigger]
                lists_in_order(names, self@.lenses.dom()) && menu_views(r@) == background_lines(
                    names,
                    self@.active_lens,
                    self@.filter == FilterView::default_scope(),
                ),
    {
        let names = self.lenses.keys();
        let default_filter = self.filter.is_default();
        let menu = background_menu_of(&names, &self.active_lens, default_filter);
        proof {
            let all = texts(names@);
            assert forall|i: int, j: int| 0 <= i < j < all.len() implies text_lt(
                #[trigger] all[i],
                #[trigger] all[j],
            ) by {
                assert(text_lt(names@[i]@, names@[j]@));
            }
            assert forall|name: Seq<char>| #[trigger] all.contains(name)
                == self@.lenses.dom().contains(name) by {
                assert(self.lenses@.dom().contains(name) == self@.lenses.dom().contains(name));
            }
            assert(lists_in_order(all, self@.lenses.dom()));
        }
        menu
    }
}

/// The key context of the map. While a text input has the focus, the
/// bare-letter and digit bindings are dropped, so that typing a lens name does
/// not fire them.
pub fn key_context(input_focused: bool) -> (r: &'static str)
    ensures
        r@ == (if input_focused {
            "WorkcatMapInput"@
        } else {
            "WorkcatMap"@
        }),
{
    if input_focused {
        "WorkcatMapInput"
    } else {
        "WorkcatMap"
    }
}

} // verus!

//! Work items, the visibility filter, lenses and the undo stack.

use crate::number::{narrow, narrowed};
use crate::status::{status_named, Status, StatusSet};
use crate::text::{
    chars_of, contains, has, lowered, same_ignoring_case, text_opt, texts, trim, trimmed,
};
use vstd::prelude::*;
use vstd::utf8::{decode_utf8, encode_utf8, is_ascii_chars, is_char_boundary};
#[allow(unused_imports)]
use vstd::utf8::{encode_utf8_decode_utf8, is_ascii_chars_encode_utf8};

verus! {

/// A point of the map field. Its coordinates have single precision and are
/// held as the bit patterns of the same values in double precision.
#[derive(Debug, Clone, Copy, PartialEq, Eq, Structural)]
pub struct Position {
    pub x: u64,
    pub y: u64,
}

/// The position with the given coordinates, in single precision.
pub open spec fn placed_at(x: u64, y: u64) -> Position {
    Position { x: narrowed(x), y: narrowed(y) }
}

pub fn place(x: u64, y: u64) -> (r: Position)
    ensures
        r == placed_at(x, y),
{
    Position { x: narrow(x), y: narrow(y) }
}

// ---------------------------------------------------------------------
// Items
// ---------------------------------------------------------------------

/// One work item's metadata, parsed from its brief file.
#[derive(Debug, Clone, PartialEq)]
pub struct ItemMeta {
    /// Full uuid.
    pub id: String,
    pub subject: String,
    /// The item's `ref` field (identity key).
    pub reference: String,
    pub status: Status,
    /// The `updated_at` metadata field verbatim (ISO-ish), if present.
    pub updated_at: Option<String>,
    /// Dependencies as id8 prefixes (first 8 hex digits of the dep uuid).
    pub depends_on: Vec<String>,
    /// Brief body sections in file order: (heading, body text).
    pub sections: Vec<(String, String)>,
}

/// The mathematical value of an [`ItemMeta`].
pub struct ItemView {
    pub id: Seq<char>,
    pub subject: Seq<char>,
    pub reference: Seq<char>,
    pub status: Status,
    pub updated_at: Option<Seq<char>>,
    pub depends_on: Seq<Seq<char>>,
    pub sections: Seq<(Seq<char>, Seq<char>)>,
}

pub open spec fn section_views(v: Seq<(String, String)>) -> Seq<(Seq<char>, Seq<char>)> {
    v.map_values(|s: (String, String)| (s.0@, s.1@))
}

impl View for ItemMeta {
    type V = ItemView;

    open spec fn view(&self) -> ItemView {
        ItemView {
            id: self.id@,
            subject: self.subject@,
            reference: self.reference@,
            status: self.status,
            updated_at: text_opt(self.updated_at),
            depends_on: texts(self.depends_on@),
            sections: section_views(self.sections@),
        }
    }
}

/// The place of the first section whose heading is `name` up to the case of
/// ASCII letters; the number of sections when there is none.
pub open spec fn section_place(sections: Seq<(Seq<char>, Seq<char>)>, name: Seq<char>) -> nat
    decreases sections.len(),
{
    if sections.len() == 0 || lowered(sections[0].0) == lowered(name) {
        0
    } else {
        1 + section_place(sections.skip(1), name)
    }
}

/// The body of the first section with that heading.
pub open spec fn section_body(
    sections: Seq<(Seq<char>, Seq<char>)>,
    name: Seq<char>,
) -> Option<Seq<char>> {
    let p = section_place(sections, name) as int;
    if p < sections.len() {
        Some(sections[p].1)
    } else {
        None
    }
}

/// The place of the first section with that heading; the number of sections
/// when there is none.
pub fn find_section(sections: &Vec<(String, String)>, name: &str) -> (r: usize)
    ensures
        r == section_place(section_views(sections@), name@),
        r <= sections@.len(),
{
    let ghost all = section_views(sections@);
    let mut i: usize = 0;
    assert(all.skip(0) == all);
    while i < sections.len()
        invariant
            i <= sections@.len(),
            all == section_views(sections@),
            i + section_place(all.skip(i as int), name@) == section_place(all, name@),
        decreases sections@.len() - i,
    {
        assert(all.skip(i as int)[0] == all[i as int]);
        if same_ignoring_case(sections[i].0.as_str(), name) {
            return i;
        }
        assert(all.skip(i as int).skip(1) == all.skip(i + 1));
        i += 1;
    }
    i
}

/// The short id of `id` in UTF-8: its first eight bytes, or all of it when
/// it is shorter.
pub open spec fn id8_bytes(id: Seq<char>) -> Seq<u8> {
    let bytes = encode_utf8(id);
    bytes.take(if bytes.len() < 8 { bytes.len() as int } else { 8 })
}

/// The short id of `id`.
pub open spec fn id8_of(id: Seq<char>) -> Seq<char> {
    decode_utf8(id8_bytes(id))
}

/// Whether the short id ends between two characters of `id`.
pub open spec fn has_id8(id: Seq<char>) -> bool {
    is_char_boundary(encode_utf8(id), id8_bytes(id).len() as int)
}

impl ItemMeta {
    /// The `## Notes` section body, if the brief has one.
    pub fn notes(&self) -> (r: Option<&str>)
        ensures
            r is Some == section_body(self@.sections, "notes"@) is Some,
            r is Some ==> r->0@ == section_body(self@.sections, "notes"@)->0,
    {
        let p = find_section(&self.sections, "notes");
        if p < self.sections.len() {
            Some(self.sections[p].1.as_str())
        } else {
            None
        }
    }

    /// Whether the short id ends between two characters of the id.
    pub fn id8_fits(&self) -> (r: bool)
        ensures
            r == has_id8(self.id@),
    {
        let id = self.id.as_str();
        let n = id.as_bytes().len();
        id.is_char_boundary(
            if n < 8 {
                n
            } else {
                8
            },
        )
    }

    /// The short id.
    pub fn id8(&self) -> (r: &str)
        requires
            has_id8(self.id@),
        ensures
            encode_utf8(r@) == id8_bytes(self.id@),
            r@ == id8_of(self.id@),
    {
        let id = self.id.as_str();
        let n = id.as_bytes().len();
        let r = id.split_at(
            if n < 8 {
                n
            } else {
                8
            },
        ).0;
        proof {
            encode_utf8_decode_utf8(r@);
        }
        r
    }
}

/// The short id of an ASCII id is its first eight characters.
pub proof fn law_ascii_id8(id: Seq<char>)
    requires
        is_ascii_chars(id),
    ensures
        has_id8(id),
        id8_of(id) == id.take(if id.len() < 8 { id.len() as int } else { 8 }),
{
    let n = if id.len() < 8 {
        id.len() as int
    } else {
        8
    };
    is_ascii_chars_encode_utf8(id);
    let short = id.take(n);
    assert(is_ascii_chars(short));
    is_ascii_chars_encode_utf8(short);
    assert(encode_utf8(short) =~= id8_bytes(id));
    encode_utf8_decode_utf8(short);
    vstd::utf8::encode_utf8_valid_utf8(id);
    if n == id.len() {
        vstd::utf8::is_char_boundary_start_end_of_seq(encode_utf8(id));
    } else {
        vstd::utf8::is_char_boundary_iff_not_is_continuation_byte(encode_utf8(id), n);
        let b = encode_utf8(id)[n];
        assert(b == id[n] as u8);
        assert(b < 128);
        vstd::utf8::utf8_byte_ranges_bitwise(b);
    }
}

// ---------------------------------------------------------------------
// Filters
// ---------------------------------------------------------------------

/// The Unicode lower-case form of a text.
pub uninterp spec fn lowercase(text: Seq<char>) -> Seq<char>;

/// `str::to_lowercase` maps a text to lower case. The contract names the
/// result, which depends on the text alone, and says what it is for ASCII.
pub assume_specification[ str::to_lowercase ](s: &str) -> (r: String)
    ensures
        r@ == lowercase(s@),
        is_ascii_chars(s@) ==> r@ == lowered(s@),
;

/// The visibility filter over the map: which statuses show, plus a
/// free-text query matched against subject and ref (case-insensitive).
/// The default shows the incomplete rollup plus `unknown`; terminal
/// statuses are hidden.
#[derive(Debug, Clone, PartialEq)]
pub struct FilterState {
    pub visible_statuses: StatusSet,
    pub query: String,
}

/// The mathematical value of a [`FilterState`].
pub struct FilterView {
    pub visible: Set<Status>,
    pub query: Seq<char>,
}

impl View for FilterState {
    type V = FilterView;

    open spec fn view(&self) -> FilterView {
        FilterView { visible: self.visible_statuses@, query: self.query@ }
    }
}

impl FilterView {
    /// The default scope with no query.
    pub open spec fn default_scope() -> FilterView {
        FilterView { visible: Set::new(|s: Status| s.in_scope()), query: Seq::empty() }
    }

    /// Whether the filter shows an item of this status, subject and ref.
    pub open spec fn shows(self, status: Status, subject: Seq<char>, reference: Seq<char>) -> bool {
        let query = trimmed(self.query);
        &&& self.visible.contains(status)
        &&& query.len() == 0 || query_hits(
            lowercase(query),
            lowercase(subject),
            lowercase(reference),
        )
    }

    /// The filter with the visibility of one status flipped.
    pub open spec fn toggled(self, status: Status) -> FilterView {
        FilterView {
            visible: if self.visible.contains(status) {
                self.visible.remove(status)
            } else {
                self.visible.insert(status)
            },
            query: self.query,
        }
    }
}

/// Whether a query stands in a subject or in a ref.
pub open spec fn query_hits(query: Seq<char>, subject: Seq<char>, reference: Seq<char>) -> bool {
    has(subject, query) || has(reference, query)
}

/// Whether a query stands in a subject or in a ref, all in lower case.
pub fn hits(query: &str, subject: &str, reference: &str) -> (r: bool)
    ensures
        r == query_hits(query@, subject@, reference@),
{
    let query = chars_of(query);
    contains(chars_of(subject).as_slice(), query.as_slice()) || contains(
        chars_of(reference).as_slice(),
        query.as_slice(),
    )
}

impl Default for FilterState {
    fn default() -> (r: Self)
        ensures
            r@ == FilterView::default_scope(),
    {
        FilterState { visible_statuses: StatusSet::in_default_scope(), query: String::new() }
    }
}

impl FilterState {
    pub fn matches(&self, item: &ItemMeta) -> (r: bool)
        ensures
            r == self@.shows(item.status, item.subject@, item.reference@),
    {
        if !self.visible_statuses.contains(&item.status) {
            return false;
        }
        let chars = chars_of(self.query.as_str());
        let query = trim(chars.as_slice());
        if query.len() == 0 {
            return true;
        }
        let query = crate::text::string_of(query);
        hits(
            query.as_str().to_lowercase().as_str(),
            item.subject.as_str().to_lowercase().as_str(),
            item.reference.as_str().to_lowercase().as_str(),
        )
    }

    pub fn toggle_status(&mut self, status: Status)
        ensures
            final(self)@ == old(self)@.toggled(status),
    {
        if !self.visible_statuses.remove(&status) {
            self.visible_statuses.insert(status);
            assert(self.visible_statuses@ =~= old(self).visible_statuses@.insert(status));
        }
    }

    pub fn is_default(&self) -> (r: bool)
        ensures
            r == (self@ == FilterView::default_scope()),
    {
        let scope = StatusSet::in_default_scope();
        let r = self.visible_statuses.same(&scope) && self.query.as_str().is_empty();
        assert(self.query@.len() == 0 ==> self.query@ == Seq::<char>::empty());
        r
    }
}

/// Flipping the visibility of a status twice changes nothing.
pub proof fn law_toggle_twice_restores(filter: FilterView, status: Status)
    ensures
        filter.toggled(status).toggled(status) == filter,
{
    assert(filter.toggled(status).toggled(status).visible =~= filter.visible);
}

/// Flipping the visibility of a status changes that of no other.
pub proof fn law_toggle_leaves_others(filter: FilterView, status: Status, other: Status)
    requires
        other != status,
    ensures
        filter.toggled(status).visible.contains(status) != filter.visible.contains(status),
        filter.toggled(status).visible.contains(other) == filter.visible.contains(other),
        filter.toggled(status).query == filter.query,
{
}

/// The default filter shows exactly the items in default scope.
pub proof fn law_default_filter_shows_scope(
    status: Status,
    subject: Seq<char>,
    reference: Seq<char>,
)
    ensures
        FilterView::default_scope().shows(status, subject, reference) == status.in_scope(),
{
    assert(trimmed(Seq::<char>::empty()).len() == 0);
}

// ---------------------------------------------------------------------
// Lenses
// ---------------------------------------------------------------------

/// A saved lens: a named filter, with the node positions captured when it
/// was saved. Applying it restores them at that moment only.
#[derive(Debug, PartialEq)]
pub struct Lens {
    pub name: String,
    pub visible_statuses: Vec<String>,
    pub query: String,
    pub positions: Vec<(String, Position)>,
}

/// The mathematical value of a [`Lens`].
pub struct LensView {
    pub name: Seq<char>,
    pub visible_statuses: Seq<Seq<char>>,
    pub query: Seq<char>,
    pub positions: Seq<(Seq<char>, Position)>,
}

pub open spec fn placed_views(v: Seq<(String, Position)>) -> Seq<(Seq<char>, Position)> {
    v.map_values(|p: (String, Position)| (p.0@, p.1))
}

impl View for Lens {
    type V = LensView;

    open spec fn view(&self) -> LensView {
        LensView {
            name: self.name@,
            visible_statuses: texts(self.visible_statuses@),
            query: self.query@,
            positions: placed_views(self.positions@),
        }
    }
}

/// The statuses that some of the names denote.
pub open spec fn statuses_named(names: Seq<Seq<char>>) -> Set<Status> {
    Set::new(
        |s: Status|
            exists|i: int| 0 <= i < names.len() && #[trigger] status_named(names[i]) == Some(s),
    )
}

impl LensView {
    /// The filter that a lens stands for.
    pub open spec fn filter(self) -> FilterView {
        FilterView { visible: statuses_named(self.visible_statuses), query: self.query }
    }
}

impl Clone for Lens {
    fn clone(&self) -> (r: Self)
        ensures
            r@ == self@,
    {
        let mut visible_statuses: Vec<String> = Vec::new();
        let mut i: usize = 0;
        while i < self.visible_statuses.len()
            invariant
                i <= self.visible_statuses@.len(),
                visible_statuses@.len() == i,
                forall|k: int|
                    0 <= k < i ==> (#[trigger] visible_statuses@[k])@
                        == self.visible_statuses@[k]@,
            decreases self.visible_statuses@.len() - i,
        {
            visible_statuses.push(self.visible_statuses[i].clone());
            i += 1;
        }
        let mut positions: Vec<(String, Position)> = Vec::new();
        let mut k: usize = 0;
        while k < self.positions.len()
            invariant
                k <= self.positions@.len(),
                positions@.len() == k,
                forall|j: int|
                    0 <= j < k ==> (#[trigger] positions@[j]).0@ == self.positions@[j].0@
                        && positions@[j].1 == self.positions@[j].1,
            decreases self.positions@.len() - k,
        {
            positions.push((self.positions[k].0.clone(), self.positions[k].1));
            k += 1;
        }
        assert(texts(visible_statuses@) =~= texts(self.visible_statuses@));
        assert(placed_views(positions@) =~= placed_views(self.positions@));
        Lens { name: self.name.clone(), visible_statuses, query: self.query.clone(), positions }
    }
}

impl Lens {
    pub fn to_filter(&self) -> (r: FilterState)
        ensures
            r@ == self@.filter(),
    {
        let mut visible = StatusSet::new();
        let ghost names = texts(self.visible_statuses@);
        let mut i: usize = 0;
        while i < self.visible_statuses.len()
            invariant
                i <= self.visible_statuses@.len(),
                names == texts(self.visible_statuses@),
                forall|s: Status| #[trigger]
                    visible@.contains(s) == exists|k: int|
                        0 <= k < i && #[trigger] status_named(names[k]) == Some(s),
            decreases self.visible_statuses@.len() - i,
        {
            let ghost before = visible@;
            let parsed = Status::parse(self.visible_statuses[i].as_str());
            assert(names[i as int] == self.visible_statuses@[i as int]@);
            assert(parsed == status_named(names[i as int]));
            if let Some(status) = parsed {
                visible.insert(status);
            }
            proof {
                assert forall|s: Status| #[trigger] visible@.contains(s) == exists|k: int|
                    0 <= k < i + 1 && #[trigger] status_named(names[k]) == Some(s) by {
                    assert(before.contains(s) == exists|k: int|
                        0 <= k < i && #[trigger] status_named(names[k]) == Some(s));
                    if exists|k: int|
                        0 <= k < i + 1 && #[trigger] status_named(names[k]) == Some(s) {
                        let k = choose|k: int|
                            0 <= k < i + 1 && #[trigger] status_named(names[k]) == Some(s);
                        if k < i {
                            assert(before.contains(s));
                        }
                    }
                }
            }
            i += 1;
        }
        let query = self.query.clone();
        assert(visible@ =~= statuses_named(names));
        FilterState { visible_statuses: visible, query }
    }
}

// ---------------------------------------------------------------------
// Undo
// ---------------------------------------------------------------------

/// One undoable operation. Undoing appends new events that restore the
/// prior value; history is never rewritten.
#[derive(Debug, PartialEq)]
pub enum Op {
    /// One gesture's node moves (a single drag or a group drag or an
    /// auto-arrange): `(id, from, to)` per node.
    Move(Vec<(String, Position, Position)>),
    /// A status change: `(id, from, to)`.
    SetStatus(String, Status, Status),
}

/// The mathematical value of an [`Op`].
pub enum OpView {
    Move(Seq<(Seq<char>, Position, Position)>),
    SetStatus(Seq<char>, Status, Status),
}

pub open spec fn move_views(
    v: Seq<(String, Position, Position)>,
) -> Seq<(Seq<char>, Position, Position)> {
    v.map_values(|m: (String, Position, Position)| (m.0@, m.1, m.2))
}

impl View for Op {
    type V = OpView;

    open spec fn view(&self) -> OpView {
        match self {
            Op::Move(moves) => OpView::Move(move_views(moves@)),
            Op::SetStatus(id, from, to) => OpView::SetStatus(id@, *from, *to),
        }
    }
}

impl Clone for Op {
    fn clone(&self) -> (r: Self)
        ensures
            r@ == self@,
    {
        match self {
            Op::Move(moves) => {
                let mut out: Vec<(String, Position, Position)> = Vec::new();
                let mut i: usize = 0;
                while i < moves.len()
                    invariant
                        i <= moves@.len(),
                        out@.len() == i,
                        forall|k: int|
                            0 <= k < i ==> (#[trigger] out@[k]).0@ == moves@[k].0@ && out@[k].1
                                == moves@[k].1 && out@[k].2 == moves@[k].2,
                    decreases moves@.len() - i,
                {
                    out.push((moves[i].0.clone(), moves[i].1, moves[i].2));
                    i += 1;
                }
                assert(move_views(out@) =~= move_views(moves@));
                Op::Move(out)
            },
            Op::SetStatus(id, from, to) => Op::SetStatus(id.clone(), *from, *to),
        }
    }
}

/// How many steps the undo stack holds.
pub const UNDO_CAPACITY: usize = 200;

/// A bounded undo/redo stack.
#[derive(Debug)]
pub struct UndoStack {
    undo: Vec<Op>,
    redo: Vec<Op>,
}

/// The mathematical value of an [`UndoStack`]: the most recent operation of
/// each side comes last.
pub struct StackView {
    pub undo: Seq<OpView>,
    pub redo: Seq<OpView>,
}

pub open spec fn op_views(v: Seq<Op>) -> Seq<OpView> {
    v.map_values(|op: Op| op@)
}

impl View for UndoStack {
    type V = StackView;

    closed spec fn view(&self) -> StackView {
        StackView { undo: op_views(self.undo@), redo: op_views(self.redo@) }
    }
}

pub open spec fn op_opt(op: Option<Op>) -> Option<OpView> {
    match op {
        Some(op) => Some(op@),
        None => None,
    }
}

/// Whether the item of a status change has a short id.
pub open spec fn op_id_fits(op: OpView) -> bool {
    match op {
        OpView::SetStatus(id, _, _) => has_id8(id),
        OpView::Move(_) => true,
    }
}

impl StackView {
    /// The stack without operations.
    pub open spec fn empty() -> StackView {
        StackView { undo: Seq::empty(), redo: Seq::empty() }
    }

    /// Both sides together stay within capacity.
    pub open spec fn well_formed(self) -> bool {
        self.undo.len() + self.redo.len() <= UNDO_CAPACITY
    }

    /// Whether the items of all status changes have short ids.
    pub open spec fn ids_fit(self) -> bool {
        &&& forall|i: int| 0 <= i < self.undo.len() ==> op_id_fits(#[trigger] self.undo[i])
        &&& forall|i: int| 0 <= i < self.redo.len() ==> op_id_fits(#[trigger] self.redo[i])
    }

    /// The stack after a new operation: redo is gone, and the oldest
    /// operation falls off a full stack.
    pub open spec fn pushed(self, op: OpView) -> StackView {
        let undo = self.undo.push(op);
        StackView {
            undo: if undo.len() > UNDO_CAPACITY {
                undo.skip(1)
            } else {
                undo
            },
            redo: Seq::empty(),
        }
    }

    /// The stack after an undo, and the operation undone.
    pub open spec fn undone(self) -> (StackView, Option<OpView>) {
        if self.undo.len() == 0 {
            (self, None)
        } else {
            (
                StackView { undo: self.undo.drop_last(), redo: self.redo.push(self.undo.last()) },
                Some(self.undo.last()),
            )
        }
    }

    /// The stack after a redo, and the operation redone.
    pub open spec fn redone(self) -> (StackView, Option<OpView>) {
        if self.redo.len() == 0 {
            (self, None)
        } else {
            (
                StackView { undo: self.undo.push(self.redo.last()), redo: self.redo.drop_last() },
                Some(self.redo.last()),
            )
        }
    }
}

impl Default for UndoStack {
    fn default() -> (r: Self)
        ensures
            r@ == StackView::empty(),
            r@.well_formed(),
    {
        let r = UndoStack { undo: Vec::new(), redo: Vec::new() };
        assert(r@.undo =~= Seq::<OpView>::empty());
        assert(r@.redo =~= Seq::<OpView>::empty());
        r
    }
}

impl UndoStack {
    /// Record a newly-performed operation.
    pub fn push(&mut self, op: Op)
        requires
            old(self)@.well_formed(),
        ensures
            final(self)@ == old(self)@.pushed(op@),
            final(self)@.well_formed(),
    {
        self.redo.clear();
        self.undo.push(op);
        assert(op_views(self.undo@) =~= old(self)@.undo.push(op@));
        if self.undo.len() > UNDO_CAPACITY {
            self.undo.remove(0);
            assert(op_views(self.undo@) =~= old(self)@.undo.push(op@).skip(1));
        }
        assert(op_views(self.redo@) =~= Seq::<OpView>::empty());
    }

    /// Pop the most recent op for undoing; the caller applies the
    /// compensation, then the op moves to the redo side.
    pub fn undo(&mut self) -> (r: Option<Op>)
        requires
            old(self)@.well_formed(),
        ensures
            (final(self)@, op_opt(r)) == old(self)@.undone(),
            final(self)@.well_formed(),
    {
        match self.undo.pop() {
            Some(op) => {
                self.redo.push(op.clone());
                assert(op_views(self.undo@) =~= old(self)@.undo.drop_last());
                assert(op_views(self.redo@) =~= old(self)@.redo.push(op@));
                Some(op)
            },
            None => None,
        }
    }

    /// Take back the most recent undo.
    pub fn redo(&mut self) -> (r: Option<Op>)
        requires
            old(self)@.well_formed(),
        ensures
            (final(self)@, op_opt(r)) == old(self)@.redone(),
            final(self)@.well_formed(),
    {
        match self.redo.pop() {
            Some(op) => {
                self.undo.push(op.clone());
                assert(op_views(self.redo@) =~= old(self)@.redo.drop_last());
                assert(op_views(self.undo@) =~= old(self)@.undo.push(op@));
                Some(op)
            },
            None => None,
        }
    }

    pub fn undo_len(&self) -> (r: usize)
        ensures
            r == self@.undo.len(),
    {
        self.undo.len()
    }

    pub fn redo_len(&self) -> (r: usize)
        ensures
            r == self@.redo.len(),
    {
        self.redo.len()
    }
}

/// Redoing what was just undone gives the stack back, and hands out the
/// same operation.
pub proof fn law_redo_reverts_undo(stack: StackView)
    requires
        stack.undo.len() > 0,
    ensures
        stack.undone().0.redone() == (stack, stack.undone().1),
{
    assert(stack.undo.drop_last().push(stack.undo.last()) =~= stack.undo);
    assert(stack.redo.push(stack.undo.last()).drop_last() =~= stack.redo);
}

/// Undoing what was just redone gives the stack back, and hands out the
/// same operation.
pub proof fn law_undo_reverts_redo(stack: StackView)
    requires
        stack.redo.len() > 0,
    ensures
        stack.redone().0.undone() == (stack, stack.redone().1),
{
    assert(stack.redo.drop_last().push(stack.redo.last()) =~= stack.redo);
    assert(stack.undo.push(stack.redo.last()).drop_last() =~= stack.undo);
}

/// A new operation is the next to be undone, and nothing is left to redo.
pub proof fn law_push_is_undone_next(stack: StackView, op: OpView)
    requires
        stack.well_formed(),
    ensures
        stack.pushed(op).undone().1 == Some(op),
        stack.pushed(op).redone().1 is None,
        stack.pushed(op).well_formed(),
{
}

} // verus!

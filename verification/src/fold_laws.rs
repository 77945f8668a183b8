//! What the log of events folds to, told by the fields of the events.

use crate::events::{
    documents_on, lenses_after, moved, placed, placed_among, positions_after,
    texts_among,
};
use crate::json::{json_document, lookup, JsonView};
use crate::log_laws::says_something;
use crate::model::{placed_at, Position};
use crate::number::narrowed;
use crate::text::trimmed;
use vstd::prelude::*;

verus! {

// ---------------------------------------------------------------------
// Documents
// ---------------------------------------------------------------------

/// A field of an object is the first with its key.
pub proof fn law_field_is_the_first_of_its_key(
    fields: Seq<(Seq<char>, JsonView)>,
    key: Seq<char>,
    i: int,
)
    requires
        0 <= i < fields.len(),
        fields[i].0 == key,
        forall|k: int| 0 <= k < i ==> (#[trigger] fields[k]).0 != key,
    ensures
        JsonView::Object(fields).field(key) == Some(fields[i].1),
    decreases i,
{
    if i > 0 {
        assert(fields[0].0 != key);
        let rest = fields.skip(1);
        assert forall|k: int| 0 <= k < i - 1 implies (#[trigger] rest[k]).0 != key by {
            assert(rest[k] == fields[k + 1]);
        }
        law_field_is_the_first_of_its_key(rest, key, i - 1);
    }
}

/// An object without a key has no field under it, and what is no object has
/// no field at all.
pub proof fn law_no_key_no_field(value: JsonView, key: Seq<char>)
    ensures
        value matches JsonView::Object(fields) ==> ((forall|k: int|
            0 <= k < fields.len() ==> (#[trigger] fields[k]).0 != key) ==> value.field(key) is None),
        value !is Object ==> value.field(key) is None,
    decreases value,
{
    if let JsonView::Object(fields) = value {
        lemma_no_key(fields, key);
    }
}

proof fn lemma_no_key(fields: Seq<(Seq<char>, JsonView)>, key: Seq<char>)
    ensures
        (forall|k: int| 0 <= k < fields.len() ==> (#[trigger] fields[k]).0 != key) ==> lookup(
            fields,
            key,
        ) is None,
    decreases fields.len(),
{
    if fields.len() > 0 && (forall|k: int|
        0 <= k < fields.len() ==> (#[trigger] fields[k]).0 != key) {
        assert(fields[0].0 != key);
        let rest = fields.skip(1);
        assert forall|k: int| 0 <= k < rest.len() implies (#[trigger] rest[k]).0 != key by {
            assert(rest[k] == fields[k + 1]);
        }
        lemma_no_key(rest, key);
    }
}

/// A line of the log gives the document that it denotes but for whitespace
/// around it, and no line that is blank or malformed gives any.
pub proof fn law_line_gives_its_document(line: Seq<char>)
    ensures
        says_something(line) && json_document(trimmed(line)) is Some ==> documents_on(seq![line])
            == seq![json_document(trimmed(line))->0],
        !says_something(line) || json_document(trimmed(line)) is None ==> documents_on(
            seq![line],
        ).len() == 0,
{
    crate::log_laws::lemma_trim_empty(line);
    assert(seq![line].drop_last() =~= Seq::<Seq<char>>::empty());
    assert(documents_on(seq![line].drop_last()).len() == 0);
    if says_something(line) && json_document(trimmed(line)) is Some {
        assert(documents_on(seq![line]) =~= seq![json_document(trimmed(line))->0]);
    }
}

/// The lines of the log are read in order, and none is passed over.
pub proof fn law_lines_are_read_in_order(a: Seq<Seq<char>>, b: Seq<Seq<char>>)
    ensures
        documents_on(a + b) == documents_on(a) + documents_on(b),
    decreases b.len(),
{
    if b.len() == 0 {
        assert(a + b =~= a);
        assert(documents_on(a) + documents_on(b) =~= documents_on(a));
    } else {
        law_lines_are_read_in_order(a, b.drop_last());
        assert((a + b).drop_last() =~= a + b.drop_last());
        assert((a + b).last() == b.last());
        assert(documents_on(a + b) =~= documents_on(a) + documents_on(b));
    }
}

// ---------------------------------------------------------------------
// Positions
// ---------------------------------------------------------------------

/// Whether an event moves a node to a place: it is of the kind "node_moved",
/// and names the node and two numbers.
pub open spec fn moves_to(event: JsonView, id: Seq<char>, x: u64, y: u64) -> bool {
    &&& event.text_field("kind"@) == Some("node_moved"@)
    &&& event.text_field("id"@) == Some(id)
    &&& event.number_field("x"@) == Some(x)
    &&& event.number_field("y"@) == Some(y)
}

/// Whether an event moves a node somewhere.
pub open spec fn moves(event: JsonView, id: Seq<char>) -> bool {
    exists|x: u64, y: u64| #[trigger] moves_to(event, id, x, y)
}

proof fn lemma_moves(event: JsonView, id: Seq<char>)
    ensures
        moves(event, id) == (moved(event) matches Some(m) && m.0 == id),
        forall|x: u64, y: u64| #[trigger] moves_to(event, id, x, y) ==> moved(event) == Some(
            (id, placed_at(x, y)),
        ),
{
    if let Some(m) = moved(event) {
        if m.0 == id {
            assert(moves_to(
                event,
                id,
                event.number_field("x"@)->0,
                event.number_field("y"@)->0,
            ));
        }
    }
}

/// The last write wins: a node stands where the last event that moves it says,
/// in single precision, whoever wrote that event and whatever else is in it.
pub proof fn law_node_stands_where_last_moved(
    events: Seq<JsonView>,
    id: Seq<char>,
    i: int,
    x: u64,
    y: u64,
)
    requires
        0 <= i < events.len(),
        moves_to(events[i], id, x, y),
        forall|j: int| i < j < events.len() ==> !moves(#[trigger] events[j], id),
    ensures
        positions_after(events).dom().contains(id),
        positions_after(events)[id].x == narrowed(x),
        positions_after(events)[id].y == narrowed(y),
    decreases events.len(),
{
    lemma_moves(events.last(), id);
    if i < events.len() - 1 {
        assert(!moves(events[events.len() - 1], id));
        let front = events.drop_last();
        assert forall|j: int| i < j < front.len() implies !moves(#[trigger] front[j], id) by {
            assert(front[j] == events[j]);
        }
        law_node_stands_where_last_moved(front, id, i, x, y);
    }
}

/// A node has a place just when some event moves it.
pub proof fn law_only_moved_nodes_have_a_place(events: Seq<JsonView>, id: Seq<char>)
    ensures
        positions_after(events).dom().contains(id) == exists|j: int|
            0 <= j < events.len() && moves(#[trigger] events[j], id),
    decreases events.len(),
{
    if events.len() > 0 {
        let front = events.drop_last();
        lemma_moves(events.last(), id);
        law_only_moved_nodes_have_a_place(front, id);
        if exists|j: int| 0 <= j < front.len() && moves(#[trigger] front[j], id) {
            let j = choose|j: int| 0 <= j < front.len() && moves(#[trigger] front[j], id);
            assert(moves(events[j], id));
        }
        if moves(events.last(), id) {
            assert(moves(events[events.len() - 1], id));
        }
        if exists|j: int| 0 <= j < events.len() && moves(#[trigger] events[j], id) {
            let j = choose|j: int| 0 <= j < events.len() && moves(#[trigger] events[j], id);
            if j < front.len() {
                assert(moves(front[j], id));
            }
        }
    }
}

// ---------------------------------------------------------------------
// Lenses
// ---------------------------------------------------------------------

/// Whether an event saves a lens of this name.
pub open spec fn saves(event: JsonView, name: Seq<char>) -> bool {
    event.text_field("kind"@) == Some("lens_saved"@) && event.text_field("name"@) == Some(name)
}

/// Whether an event deletes the lens of this name.
pub open spec fn deletes(event: JsonView, name: Seq<char>) -> bool {
    event.text_field("kind"@) == Some("lens_deleted"@) && event.text_field("name"@) == Some(name)
}

proof fn lemma_kinds_differ()
    ensures
        "lens_saved"@ != "lens_deleted"@,
{
    reveal_strlit("lens_saved");
    reveal_strlit("lens_deleted");
    assert("lens_saved"@.len() != "lens_deleted"@.len());
}

/// A lens is what the last event says that saves or deletes it: saved, it has
/// the statuses, the search text and the places that the event lists, and
/// deleted it is gone.
pub proof fn law_last_lens_event_decides(events: Seq<JsonView>, name: Seq<char>, i: int)
    requires
        0 <= i < events.len(),
        saves(events[i], name) || deletes(events[i], name),
        forall|j: int|
            i < j < events.len() ==> !saves(#[trigger] events[j], name) && !deletes(events[j], name),
    ensures
        lenses_after(events).dom().contains(name) == saves(events[i], name),
        saves(events[i], name) ==> {
            let lens = lenses_after(events)[name];
            let event = events[i];
            &&& lens.name == name
            &&& event.items_field("visible_statuses"@) matches Some(items)
                ==> lens.visible_statuses == texts_among(items)
            &&& event.items_field("visible_statuses"@) is None ==> lens.visible_statuses.len() == 0
            &&& event.text_field("query"@) matches Some(query) ==> lens.query == query
            &&& event.text_field("query"@) is None ==> lens.query.len() == 0
            &&& event.items_field("positions"@) matches Some(items) ==> lens.positions
                == placed_among(items)
            &&& event.items_field("positions"@) is None ==> lens.positions.len() == 0
        },
    decreases events.len(),
{
    lemma_kinds_differ();
    if i < events.len() - 1 {
        let last = events[events.len() - 1];
        assert(!saves(last, name) && !deletes(last, name));
        let front = events.drop_last();
        assert forall|j: int| i < j < front.len() implies !saves(#[trigger] front[j], name)
            && !deletes(front[j], name) by {
            assert(front[j] == events[j]);
        }
        law_last_lens_event_decides(front, name, i);
        assert(front[i] == events[i]);
    }
}

/// A lens that no event saves is not there.
pub proof fn law_unsaved_lens_is_not_there(events: Seq<JsonView>, name: Seq<char>)
    requires
        forall|j: int| 0 <= j < events.len() ==> !saves(#[trigger] events[j], name),
    ensures
        !lenses_after(events).dom().contains(name),
    decreases events.len(),
{
    if events.len() > 0 {
        let front = events.drop_last();
        assert(!saves(events[events.len() - 1], name));
        assert forall|j: int| 0 <= j < front.len() implies !saves(#[trigger] front[j], name) by {
            assert(front[j] == events[j]);
        }
        law_unsaved_lens_is_not_there(front, name);
    }
}

/// The texts of a list are all its texts, in order, and nothing else.
pub proof fn law_texts_of_a_list(a: Seq<JsonView>, b: Seq<JsonView>, text: Seq<char>, other: JsonView)
    requires
        other !is Text,
    ensures
        texts_among(a + b) == texts_among(a) + texts_among(b),
        texts_among(seq![JsonView::Text(text)]) == seq![text],
        texts_among(seq![other]).len() == 0,
    decreases b.len(),
{
    let one = seq![JsonView::Text(text)];
    assert(one.drop_last() =~= Seq::<JsonView>::empty());
    assert(texts_among(one.drop_last()) =~= Seq::<Seq<char>>::empty());
    assert(texts_among(one) =~= seq![text]);
    assert(seq![other].drop_last() =~= Seq::<JsonView>::empty());
    assert(texts_among(seq![other].drop_last()) =~= Seq::<Seq<char>>::empty());
    if b.len() == 0 {
        assert(a + b =~= a);
        assert(texts_among(a) + texts_among(b) =~= texts_among(a));
    } else {
        law_texts_of_a_list(a, b.drop_last(), text, other);
        assert((a + b).drop_last() =~= a + b.drop_last());
        assert((a + b).last() == b.last());
        assert(texts_among(a + b) =~= texts_among(a) + texts_among(b));
    }
}

/// The places of a list are those of all entries that name a node and two
/// numbers, in order, and no others.
pub proof fn law_places_of_a_list(a: Seq<JsonView>, b: Seq<JsonView>, entry: JsonView)
    ensures
        placed_among(a + b) == placed_among(a) + placed_among(b),
        ({
            let id = entry.text_field("id"@);
            let x = entry.number_field("x"@);
            let y = entry.number_field("y"@);
            if id is Some && x is Some && y is Some {
                placed_among(seq![entry]) == seq![
                    (id->0, Position { x: narrowed(x->0), y: narrowed(y->0) }),
                ]
            } else {
                placed_among(seq![entry]).len() == 0
            }
        }),
    decreases b.len(),
{
    assert(seq![entry].drop_last() =~= Seq::<JsonView>::empty());
    assert(placed_among(seq![entry].drop_last()) =~= Seq::<(Seq<char>, Position)>::empty());
    if placed(entry) is Some {
        assert(placed_among(seq![entry]) =~= seq![placed(entry)->0]);
    }
    if b.len() == 0 {
        assert(a + b =~= a);
        assert(placed_among(a) + placed_among(b) =~= placed_among(a));
    } else {
        law_places_of_a_list(a, b.drop_last(), entry);
        assert((a + b).drop_last() =~= a + b.drop_last());
        assert((a + b).last() == b.last());
        assert(placed_among(a + b) =~= placed_among(a) + placed_among(b));
    }
}

} // verus!

//! What is recorded and read back: the fields of events, stored times, rows,
//! notes, and the order in which edits are taken back.

use crate::detail::DetailState;
use crate::digest::{digests_of, skipped_of, DigestView, Row};
use crate::events::{brief_edited, lens_deleted, lens_saved, node_moved, status_set};
use crate::fold_laws::law_field_is_the_first_of_its_key;
use crate::json::JsonView;
use crate::mission::{age_of, ListLineView, MissionState};
use crate::model::{OpView, StackView};
use crate::time::{formatted_instant, rfc3339_instant, stored_instant, whole_seconds};
use vstd::prelude::*;

verus! {

// ---------------------------------------------------------------------
// Events
// ---------------------------------------------------------------------

proof fn lemma_keys()
    ensures
        "ts"@.len() == 2 && "ts"@[0] == 't',
        "actor"@.len() == 5 && "actor"@[0] == 'a',
        "kind"@.len() == 4 && "kind"@[0] == 'k',
        "id"@.len() == 2 && "id"@[0] == 'i',
        "x"@.len() == 1 && "x"@[0] == 'x',
        "y"@.len() == 1 && "y"@[0] == 'y',
        "status"@.len() == 6 && "status"@[0] == 's',
        "name"@.len() == 4 && "name"@[0] == 'n',
        "visible_statuses"@.len() == 16 && "visible_statuses"@[0] == 'v',
        "query"@.len() == 5 && "query"@[0] == 'q',
        "positions"@.len() == 9 && "positions"@[0] == 'p',
        "section"@.len() == 7 && "section"@[0] == 's',
        "text"@.len() == 4 && "text"@[0] == 't',
{
    reveal_strlit("ts");
    reveal_strlit("actor");
    reveal_strlit("kind");
    reveal_strlit("id");
    reveal_strlit("x");
    reveal_strlit("y");
    reveal_strlit("status");
    reveal_strlit("name");
    reveal_strlit("visible_statuses");
    reveal_strlit("query");
    reveal_strlit("positions");
    reveal_strlit("section");
    reveal_strlit("text");
}

/// Whether an event tells when it happened, that the map recorded it, and what
/// kind it is.
pub open spec fn is_told(event: JsonView, ts: Seq<char>, kind: Seq<char>) -> bool {
    &&& event.text_field("ts"@) == Some(ts)
    &&& event.text_field("actor"@) == Some("workcat-map"@)
    &&& event.text_field("kind"@) == Some(kind)
}

/// A move tells which node moved and where to.
pub proof fn law_move_is_told(ts: Seq<char>, id: Seq<char>, x: JsonView, y: JsonView)
    ensures
        ({
            let event = node_moved(ts, id, x, y);
            &&& is_told(event, ts, "node_moved"@)
            &&& event.text_field("id"@) == Some(id)
            &&& event.field("x"@) == Some(x)
            &&& event.field("y"@) == Some(y)
        }),
{
    let fields = node_moved(ts, id, x, y)->Object_0;
    lemma_keys();
    law_field_is_the_first_of_its_key(fields, "ts"@, 0);
    law_field_is_the_first_of_its_key(fields, "actor"@, 1);
    law_field_is_the_first_of_its_key(fields, "kind"@, 2);
    law_field_is_the_first_of_its_key(fields, "id"@, 3);
    law_field_is_the_first_of_its_key(fields, "x"@, 4);
    law_field_is_the_first_of_its_key(fields, "y"@, 5);
}

/// A status change tells which item it was and its new status.
pub proof fn law_status_change_is_told(ts: Seq<char>, id: Seq<char>, status: Seq<char>)
    ensures
        ({
            let event = status_set(ts, id, status);
            &&& is_told(event, ts, "status_set"@)
            &&& event.text_field("id"@) == Some(id)
            &&& event.text_field("status"@) == Some(status)
        }),
{
    let fields = status_set(ts, id, status)->Object_0;
    lemma_keys();
    law_field_is_the_first_of_its_key(fields, "ts"@, 0);
    law_field_is_the_first_of_its_key(fields, "actor"@, 1);
    law_field_is_the_first_of_its_key(fields, "kind"@, 2);
    law_field_is_the_first_of_its_key(fields, "id"@, 3);
    law_field_is_the_first_of_its_key(fields, "status"@, 4);
}

/// A saved lens tells its name, every visible status, the search text and
/// every placement.
pub proof fn law_saved_lens_is_told(
    ts: Seq<char>,
    name: Seq<char>,
    visible: Seq<Seq<char>>,
    query: Seq<char>,
    placements: Seq<(Seq<char>, JsonView, JsonView)>,
    i: int,
)
    ensures
        ({
            let event = lens_saved(ts, name, visible, query, placements);
            let statuses = event.items_field("visible_statuses"@);
            let places = event.items_field("positions"@);
            &&& is_told(event, ts, "lens_saved"@)
            &&& event.text_field("name"@) == Some(name)
            &&& event.text_field("query"@) == Some(query)
            &&& statuses is Some && statuses->0.len() == visible.len()
            &&& 0 <= i < visible.len() ==> statuses->0[i] == JsonView::Text(visible[i])
            &&& places is Some && places->0.len() == placements.len()
            &&& 0 <= i < placements.len() ==> places->0[i].text_field("id"@) == Some(
                placements[i].0,
            ) && places->0[i].field("x"@) == Some(placements[i].1) && places->0[i].field("y"@)
                == Some(placements[i].2)
        }),
{
    let event = lens_saved(ts, name, visible, query, placements);
    let fields = event->Object_0;
    lemma_keys();
    law_field_is_the_first_of_its_key(fields, "ts"@, 0);
    law_field_is_the_first_of_its_key(fields, "actor"@, 1);
    law_field_is_the_first_of_its_key(fields, "kind"@, 2);
    law_field_is_the_first_of_its_key(fields, "name"@, 3);
    law_field_is_the_first_of_its_key(fields, "visible_statuses"@, 4);
    law_field_is_the_first_of_its_key(fields, "query"@, 5);
    law_field_is_the_first_of_its_key(fields, "positions"@, 6);
    if 0 <= i < placements.len() {
        let entry = event.items_field("positions"@)->0[i]->Object_0;
        law_field_is_the_first_of_its_key(entry, "id"@, 0);
        law_field_is_the_first_of_its_key(entry, "x"@, 1);
        law_field_is_the_first_of_its_key(entry, "y"@, 2);
    }
}

/// A deleted lens is told by name.
pub proof fn law_deleted_lens_is_told(ts: Seq<char>, name: Seq<char>)
    ensures
        is_told(lens_deleted(ts, name), ts, "lens_deleted"@),
        lens_deleted(ts, name).text_field("name"@) == Some(name),
{
    let fields = lens_deleted(ts, name)->Object_0;
    lemma_keys();
    law_field_is_the_first_of_its_key(fields, "ts"@, 0);
    law_field_is_the_first_of_its_key(fields, "actor"@, 1);
    law_field_is_the_first_of_its_key(fields, "kind"@, 2);
    law_field_is_the_first_of_its_key(fields, "name"@, 3);
}

/// An edited brief tells the item, the section and its whole new text.
pub proof fn law_edited_brief_is_told(
    ts: Seq<char>,
    id: Seq<char>,
    section: Seq<char>,
    text: Seq<char>,
)
    ensures
        ({
            let event = brief_edited(ts, id, section, text);
            &&& is_told(event, ts, "brief_edited"@)
            &&& event.text_field("id"@) == Some(id)
            &&& event.text_field("section"@) == Some(section)
            &&& event.text_field("text"@) == Some(text)
        }),
{
    let fields = brief_edited(ts, id, section, text)->Object_0;
    lemma_keys();
    law_field_is_the_first_of_its_key(fields, "ts"@, 0);
    law_field_is_the_first_of_its_key(fields, "actor"@, 1);
    law_field_is_the_first_of_its_key(fields, "kind"@, 2);
    law_field_is_the_first_of_its_key(fields, "id"@, 3);
    law_field_is_the_first_of_its_key(fields, "section"@, 4);
    law_field_is_the_first_of_its_key(fields, "text"@, 5);
}

// ---------------------------------------------------------------------
// Times
// ---------------------------------------------------------------------

/// A stored time is read as RFC 3339 where it is that, else without an offset,
/// a `T` between date and time of day before a blank; what is none of these is
/// no time.
pub proof fn law_stored_time_is_read(raw: Seq<char>)
    ensures
        ({
            let full = rfc3339_instant(raw);
            let with_t = formatted_instant(raw, "%Y-%m-%dT%H:%M:%S%.f"@);
            let with_blank = formatted_instant(raw, "%Y-%m-%d %H:%M:%S%.f"@);
            &&& full is Some ==> stored_instant(raw) == full
            &&& full is None && with_t is Some ==> stored_instant(raw) == with_t
            &&& full is None && with_t is None ==> stored_instant(raw) == with_blank
        }),
{
}

/// Between two times without leap seconds lie as many whole seconds as fit
/// into the nanoseconds between them, counted backward for an earlier time.
pub proof fn law_seconds_between_are_whole(from: (int, int), to: (int, int))
    requires
        0 <= from.1 < 1_000_000_000,
        0 <= to.1 < 1_000_000_000,
    ensures
        ({
            let span = (to.0 - from.0) * 1_000_000_000 + (to.1 - from.1);
            let seconds = whole_seconds(from, to);
            &&& span >= 0 ==> seconds * 1_000_000_000 <= span < (seconds + 1) * 1_000_000_000
            &&& span <= 0 ==> (seconds - 1) * 1_000_000_000 < span <= seconds * 1_000_000_000
        }),
{
    let diff = to.1 - from.1;
    assert(diff >= 0 ==> diff / 1_000_000_000 == 0 && diff % 1_000_000_000 == diff);
    assert(diff < 0 ==> diff / 1_000_000_000 == -1 && diff % 1_000_000_000 == diff
        + 1_000_000_000);
}

/// A thread whose time is not known shows a dash for its age.
pub proof fn law_unknown_age_is_a_dash(
    digest: DigestView,
    now: (int, int),
)
    requires
        digest.updated_at is None,
    ensures
        age_of(digest, now) == "\u{2014}"@,
{
}

// ---------------------------------------------------------------------
// Rows and lists
// ---------------------------------------------------------------------

/// A row that can be read gives its digest and no refusal; one that cannot
/// gives the refusal under its id and no digest.
pub proof fn law_row_gives_digest_or_refusal(row: Row)
    ensures
        row.digest() matches Ok(digest) ==> digests_of(seq![row]) == seq![digest] && skipped_of(
            seq![row],
        ).len() == 0,
        row.digest() matches Err(error) ==> digests_of(seq![row]).len() == 0 && skipped_of(
            seq![row],
        ) == seq![(row.id@, error)],
{
    let one = seq![row];
    assert(one.last() == row);
    assert(one.drop_last() =~= Seq::<Row>::empty());
    assert(digests_of(one.drop_last()).len() == 0);
    assert(skipped_of(one.drop_last()).len() == 0);
    match row.digest() {
        Ok(digest) => {
            assert(digests_of(one) =~= seq![digest]);
        },
        Err(error) => {
            assert(skipped_of(one) =~= seq![(row.id@, error)]);
        },
    }
}

/// While the first load runs, the list says so, after an error if there is
/// one.
pub proof fn law_first_load_is_told(state: MissionState)
    requires
        state.loading,
        state.digests.len() == 0,
    ensures
        state.error is None ==> state.list() == seq![
            ListLineView::Note("Loading threads\u{2026}"@),
        ],
        state.error is Some ==> state.list() == seq![
            ListLineView::Error("Failed to load threads: "@ + state.error->0),
            ListLineView::Note("Loading threads\u{2026}"@),
        ],
{
}

// ---------------------------------------------------------------------
// Notes
// ---------------------------------------------------------------------

/// The notes field takes over the notes of an item when the focus comes to it,
/// keeps what was typed while the focus stays, and is let go with the focus.
pub proof fn law_notes_follow_the_focus(
    state: DetailState,
    id: Seq<char>,
    notes: Option<Seq<char>>,
)
    ensures
        state.notes_item == Some(id) ==> state.synced(Some((id, notes))) == (
            state,
            None::<Seq<char>>,
        ),
        state.notes_item != Some(id) ==> ({
            let (after, text) = state.synced(Some((id, notes)));
            &&& after.notes_item == Some(id)
            &&& after.status.len() == 0
            &&& text == Some(
                if notes is Some {
                    notes->0
                } else {
                    Seq::empty()
                },
            )
        }),
        state.synced(None).0.notes_item is None,
        state.synced(None).0.status == state.status,
        state.synced(None).1 is None,
{
}

// ---------------------------------------------------------------------
// Undo
// ---------------------------------------------------------------------

/// Edits are taken back last first: of two edits the second is undone before
/// the first, and redone after it.
pub proof fn law_last_edit_is_undone_first(stack: StackView, first: OpView, second: OpView)
    requires
        stack.well_formed(),
    ensures
        ({
            let both = stack.pushed(first).pushed(second);
            let once = both.undone();
            let twice = once.0.undone();
            let again = twice.0.redone();
            let all = again.0.redone();
            &&& once.1 == Some(second)
            &&& twice.1 == Some(first)
            &&& again.1 == Some(first)
            &&& all.1 == Some(second)
            &&& all.0 == both
            &&& both.redone().1 is None
            &&& StackView::empty().undone().1 is None
        }),
{
    let both = stack.pushed(first).pushed(second);
    let once = both.undone();
    let twice = once.0.undone();
    let again = twice.0.redone();
    let all = again.0.redone();
    assert(both.undo.last() == second);
    assert(once.0.undo.last() == first);
    assert(all.0.undo =~= both.undo);
    assert(all.0.redo =~= both.redo);
}

} // verus!

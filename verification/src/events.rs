//! The event log: the events that this client writes, the lines that hold
//! them, and the folds that read node positions and lenses back.

use crate::json::{
    distinct_keys, document_text, document_view, document_views, field_views, json_document,
    json_views, list_value, lookup, nests_within, object_value, on_one_line, parse_json,
    text_value, writes, Json, JsonView,
};
use crate::model::{place, placed_at, placed_views, Lens, LensView, Position};
use crate::number::{is_single, law_narrowing_settles};
use crate::text::{
    chars_of, first_of, join, lemma_first_of, lines, lines_of, same_text, string_of, texts, trim,
    trimmed, without_leading_space, without_return,
};
use crate::textmap::TextMap;
use crate::time::{is_instant, now, rfc3339_text};
use vstd::prelude::*;

verus! {

/// The actor recorded on every event this client writes.
pub const ACTOR: &'static str = "workcat-map";

// ---------------------------------------------------------------------
// Events
// ---------------------------------------------------------------------

/// A node's move, as an event.
pub open spec fn node_moved(ts: Seq<char>, id: Seq<char>, x: JsonView, y: JsonView) -> JsonView {
    JsonView::Object(
        seq![
            ("ts"@, JsonView::Text(ts)),
            ("actor"@, JsonView::Text(ACTOR@)),
            ("kind"@, JsonView::Text("node_moved"@)),
            ("id"@, JsonView::Text(id)),
            ("x"@, x),
            ("y"@, y),
        ],
    )
}

/// A status change, as an event.
pub open spec fn status_set(ts: Seq<char>, id: Seq<char>, status: Seq<char>) -> JsonView {
    JsonView::Object(
        seq![
            ("ts"@, JsonView::Text(ts)),
            ("actor"@, JsonView::Text(ACTOR@)),
            ("kind"@, JsonView::Text("status_set"@)),
            ("id"@, JsonView::Text(id)),
            ("status"@, JsonView::Text(status)),
        ],
    )
}

proof fn lemma_keys_differ()
    ensures
        "ts"@ != "actor"@,
        "ts"@ != "kind"@,
        "ts"@ != "id"@,
        "ts"@ != "x"@,
        "ts"@ != "y"@,
        "ts"@ != "status"@,
        "ts"@ != "name"@,
        "ts"@ != "visible_statuses"@,
        "ts"@ != "query"@,
        "ts"@ != "positions"@,
        "actor"@ != "kind"@,
        "actor"@ != "id"@,
        "actor"@ != "x"@,
        "actor"@ != "y"@,
        "actor"@ != "status"@,
        "actor"@ != "name"@,
        "actor"@ != "visible_statuses"@,
        "actor"@ != "query"@,
        "actor"@ != "positions"@,
        "kind"@ != "id"@,
        "kind"@ != "x"@,
        "kind"@ != "y"@,
        "kind"@ != "status"@,
        "kind"@ != "name"@,
        "kind"@ != "visible_statuses"@,
        "kind"@ != "query"@,
        "kind"@ != "positions"@,
        "id"@ != "x"@,
        "id"@ != "y"@,
        "id"@ != "status"@,
        "x"@ != "y"@,
        "name"@ != "visible_statuses"@,
        "name"@ != "query"@,
        "name"@ != "positions"@,
        "visible_statuses"@ != "query"@,
        "visible_statuses"@ != "positions"@,
        "query"@ != "positions"@,
{
    reveal_strlit("ts");
    reveal_strlit("actor");
    reveal_strlit("kind");
    reveal_strlit("id");
    reveal_strlit("x");
    reveal_strlit("y");
    reveal_strlit("status");
    reveal_strlit("name");
    reveal_strlit("visible_statuses");
    reveal_strlit("query");
    reveal_strlit("positions");
    assert("ts"@[0] == 't' && "id"@[0] == 'i' && "x"@[0] == 'x' && "y"@[0] == 'y');
    assert("kind"@[0] == 'k' && "name"@[0] == 'n');
    assert("actor"@[0] == 'a' && "query"@[0] == 'q');
    assert("visible_statuses"@[0] == 'v' && "positions"@[0] == 'p');
}

/// An event that starts with the time and the actor, and one field more.
fn event_start(ts: &str, kind: &str) -> (r: Vec<(String, serde_json::Value)>)
    ensures
        field_views(r@) == seq![
            ("ts"@, JsonView::Text(ts@)),
            ("actor"@, JsonView::Text(ACTOR@)),
            ("kind"@, JsonView::Text(kind@)),
        ],
{
    let mut fields: Vec<(String, serde_json::Value)> = Vec::new();
    fields.push(("ts".to_owned(), text_value(ts)));
    fields.push(("actor".to_owned(), text_value(ACTOR)));
    fields.push(("kind".to_owned(), text_value(kind)));
    assert(field_views(fields@) =~= seq![
        ("ts"@, JsonView::Text(ts@)),
        ("actor"@, JsonView::Text(ACTOR@)),
        ("kind"@, JsonView::Text(kind@)),
    ]);
    fields
}

proof fn lemma_distinct(v: Seq<(String, serde_json::Value)>, views: Seq<(Seq<char>, JsonView)>)
    requires
        field_views(v) == views,
        forall|i: int, j: int|
            0 <= i < j < views.len() ==> (#[trigger] views[i]).0 != (#[trigger] views[j]).0,
    ensures
        distinct_keys(v),
{
    assert forall|i: int, j: int| 0 <= i < j < v.len() implies (#[trigger] v[i]).0@ != (
    #[trigger] v[j]).0@ by {
        assert(views[i].0 == v[i].0@);
        assert(views[j].0 == v[j].0@);
    }
}

/// A node's move at the given time. The coordinates are JSON numbers, or null
/// where they are not finite.
pub fn node_moved_event_at(
    ts: &str,
    id: &str,
    x: serde_json::Value,
    y: serde_json::Value,
) -> (r: serde_json::Value)
    ensures
        document_view(r) == node_moved(ts@, id@, document_view(x), document_view(y)),
{
    let mut fields = event_start(ts, "node_moved");
    let ghost start = field_views(fields@);
    fields.push(("id".to_owned(), text_value(id)));
    fields.push(("x".to_owned(), x));
    fields.push(("y".to_owned(), y));
    proof {
        let views = node_moved(ts@, id@, document_view(x), document_view(y))->Object_0;
        assert(field_views(fields@) =~= start + seq![
            ("id"@, JsonView::Text(id@)),
            ("x"@, document_view(x)),
            ("y"@, document_view(y)),
        ]);
        assert(field_views(fields@) =~= views);
        lemma_keys_differ();
        lemma_distinct(fields@, views);
    }
    object_value(fields)
}

/// A status change at the given time.
pub fn status_set_event_at(ts: &str, id: &str, status: &str) -> (r: serde_json::Value)
    ensures
        document_view(r) == status_set(ts@, id@, status@),
{
    let mut fields = event_start(ts, "status_set");
    let ghost start = field_views(fields@);
    fields.push(("id".to_owned(), text_value(id)));
    fields.push(("status".to_owned(), text_value(status)));
    proof {
        let views = status_set(ts@, id@, status@)->Object_0;
        assert(field_views(fields@) =~= start + seq![
            ("id"@, JsonView::Text(id@)),
            ("status"@, JsonView::Text(status@)),
        ]);
        assert(field_views(fields@) =~= views);
        lemma_keys_differ();
        lemma_distinct(fields@, views);
    }
    object_value(fields)
}

/// Whether `ts` is a point in time as events record it: its RFC 3339 text,
/// where a `T` parts the date from the time of day.
pub open spec fn is_recorded_time(ts: Seq<char>) -> bool {
    &&& exists|t: (int, int)| is_instant(t.0, t.1) && ts == #[trigger] rfc3339_text(t.0, t.1)
    &&& ts.contains('T')
}

/// The current time as events record it.
fn timestamp() -> (r: String)
    ensures
        is_recorded_time(r@),
{
    let t = now();
    let r = t.to_rfc3339();
    assert(is_instant(t@.0, t@.1) && r@ == rfc3339_text(t@.0, t@.1));
    r
}

/// A node's move, now.
pub fn node_moved_event(id: &str, x: serde_json::Value, y: serde_json::Value) -> (r:
    serde_json::Value)
    ensures
        exists|ts: Seq<char>|
            is_recorded_time(ts) && document_view(r) == #[trigger] node_moved(
                ts,
                id@,
                document_view(x),
                document_view(y),
            ),
{
    let ts = timestamp();
    node_moved_event_at(ts.as_str(), id, x, y)
}

/// A status change, now.
pub fn status_set_event(id: &str, status: &str) -> (r: serde_json::Value)
    ensures
        exists|ts: Seq<char>|
            is_recorded_time(ts) && document_view(r) == #[trigger] status_set(ts, id@, status@),
{
    let ts = timestamp();
    status_set_event_at(ts.as_str(), id, status)
}

// ---------------------------------------------------------------------
// Lens and brief events
// ---------------------------------------------------------------------

/// A node's placement in a lens.
pub open spec fn placement(id: Seq<char>, x: JsonView, y: JsonView) -> JsonView {
    JsonView::Object(seq![("id"@, JsonView::Text(id)), ("x"@, x), ("y"@, y)])
}

/// Texts as a list.
pub open spec fn text_list(texts: Seq<Seq<char>>) -> JsonView {
    JsonView::List(texts.map_values(|t: Seq<char>| JsonView::Text(t)))
}

/// Placements as a list.
pub open spec fn placement_list(placements: Seq<(Seq<char>, JsonView, JsonView)>) -> JsonView {
    JsonView::List(
        placements.map_values(|p: (Seq<char>, JsonView, JsonView)| placement(p.0, p.1, p.2)),
    )
}

/// A saved lens, as an event.
pub open spec fn lens_saved(
    ts: Seq<char>,
    name: Seq<char>,
    visible: Seq<Seq<char>>,
    query: Seq<char>,
    placements: Seq<(Seq<char>, JsonView, JsonView)>,
) -> JsonView {
    JsonView::Object(
        seq![
            ("ts"@, JsonView::Text(ts)),
            ("actor"@, JsonView::Text(ACTOR@)),
            ("kind"@, JsonView::Text("lens_saved"@)),
            ("name"@, JsonView::Text(name)),
            ("visible_statuses"@, text_list(visible)),
            ("query"@, JsonView::Text(query)),
            ("positions"@, placement_list(placements)),
        ],
    )
}

/// A lens's deletion, as an event.
pub open spec fn lens_deleted(ts: Seq<char>, name: Seq<char>) -> JsonView {
    JsonView::Object(
        seq![
            ("ts"@, JsonView::Text(ts)),
            ("actor"@, JsonView::Text(ACTOR@)),
            ("kind"@, JsonView::Text("lens_deleted"@)),
            ("name"@, JsonView::Text(name)),
        ],
    )
}

/// The replacement of a whole brief section, as an event.
pub open spec fn brief_edited(
    ts: Seq<char>,
    id: Seq<char>,
    section: Seq<char>,
    text: Seq<char>,
) -> JsonView {
    JsonView::Object(
        seq![
            ("ts"@, JsonView::Text(ts)),
            ("actor"@, JsonView::Text(ACTOR@)),
            ("kind"@, JsonView::Text("brief_edited"@)),
            ("id"@, JsonView::Text(id)),
            ("section"@, JsonView::Text(section)),
            ("text"@, JsonView::Text(text)),
        ],
    )
}

/// The views of placements whose coordinates are documents.
pub open spec fn placement_views(
    v: Seq<(String, serde_json::Value, serde_json::Value)>,
) -> Seq<(Seq<char>, JsonView, JsonView)> {
    v.map_values(
        |p: (String, serde_json::Value, serde_json::Value)|
            (p.0@, document_view(p.1), document_view(p.2)),
    )
}

fn text_list_value(items: &Vec<String>) -> (r: serde_json::Value)
    ensures
        document_view(r) == text_list(texts(items@)),
{
    let mut out: Vec<serde_json::Value> = Vec::new();
    let mut i: usize = 0;
    while i < items.len()
        invariant
            i <= items@.len(),
            out@.len() == i,
            forall|k: int|
                0 <= k < i ==> document_view(#[trigger] out@[k]) == JsonView::Text(items@[k]@),
        decreases items@.len() - i,
    {
        out.push(text_value(items[i].as_str()));
        i += 1;
    }
    assert(document_views(out@) =~= text_list(texts(items@))->List_0);
    list_value(out)
}

fn placement_list_value(items: Vec<(String, serde_json::Value, serde_json::Value)>) -> (r:
    serde_json::Value)
    ensures
        document_view(r) == placement_list(placement_views(items@)),
{
    let ghost all = items@;
    let total: usize = items.len();
    let mut rest = items;
    let mut out: Vec<serde_json::Value> = Vec::new();
    while rest.len() > 0
        invariant
            total == all.len(),
            rest@.len() <= total,
            rest@ == all.skip(total - rest@.len()),
            out@.len() == total - rest@.len(),
            forall|k: int|
                0 <= k < out@.len() ==> document_view(#[trigger] out@[k]) == placement(
                    all[k].0@,
                    document_view(all[k].1),
                    document_view(all[k].2),
                ),
        decreases rest@.len(),
    {
        let (id, x, y) = rest.remove(0);
        let mut fields: Vec<(String, serde_json::Value)> = Vec::new();
        fields.push(("id".to_owned(), text_value(id.as_str())));
        fields.push(("x".to_owned(), x));
        fields.push(("y".to_owned(), y));
        proof {
            let views = placement(id@, document_view(x), document_view(y))->Object_0;
            assert(field_views(fields@) =~= views);
            lemma_keys_differ();
            lemma_distinct(fields@, views);
        }
        out.push(object_value(fields));
    }
    assert(document_views(out@) =~= placement_list(placement_views(all))->List_0);
    list_value(out)
}

/// The saving of a lens at the given time.
pub fn lens_saved_event_at(
    ts: &str,
    name: &str,
    visible: &Vec<String>,
    query: &str,
    positions: Vec<(String, serde_json::Value, serde_json::Value)>,
) -> (r: serde_json::Value)
    ensures
        document_view(r) == lens_saved(
            ts@,
            name@,
            texts(visible@),
            query@,
            placement_views(positions@),
        ),
{
    let ghost placements = placement_views(positions@);
    let mut fields = event_start(ts, "lens_saved");
    let ghost start = field_views(fields@);
    fields.push(("name".to_owned(), text_value(name)));
    fields.push(("visible_statuses".to_owned(), text_list_value(visible)));
    fields.push(("query".to_owned(), text_value(query)));
    fields.push(("positions".to_owned(), placement_list_value(positions)));
    proof {
        let views = lens_saved(ts@, name@, texts(visible@), query@, placements)->Object_0;
        assert(field_views(fields@) =~= start + seq![
            ("name"@, JsonView::Text(name@)),
            ("visible_statuses"@, text_list(texts(visible@))),
            ("query"@, JsonView::Text(query@)),
            ("positions"@, placement_list(placements)),
        ]);
        assert(field_views(fields@) =~= views);
        lemma_keys_differ();
        lemma_distinct(fields@, views);
    }
    object_value(fields)
}

/// The deletion of a lens at the given time.
pub fn lens_deleted_event_at(ts: &str, name: &str) -> (r: serde_json::Value)
    ensures
        document_view(r) == lens_deleted(ts@, name@),
{
    let mut fields = event_start(ts, "lens_deleted");
    let ghost start = field_views(fields@);
    fields.push(("name".to_owned(), text_value(name)));
    proof {
        let views = lens_deleted(ts@, name@)->Object_0;
        assert(field_views(fields@) =~= start + seq![("name"@, JsonView::Text(name@))]);
        assert(field_views(fields@) =~= views);
        lemma_keys_differ();
        lemma_distinct(fields@, views);
    }
    object_value(fields)
}

/// The replacement of a brief section at the given time.
pub fn brief_edited_event_at(ts: &str, id: &str, section: &str, text: &str) -> (r:
    serde_json::Value)
    ensures
        document_view(r) == brief_edited(ts@, id@, section@, text@),
{
    let mut fields = event_start(ts, "brief_edited");
    let ghost start = field_views(fields@);
    fields.push(("id".to_owned(), text_value(id)));
    fields.push(("section".to_owned(), text_value(section)));
    fields.push(("text".to_owned(), text_value(text)));
    proof {
        let views = brief_edited(ts@, id@, section@, text@)->Object_0;
        assert(field_views(fields@) =~= start + seq![
            ("id"@, JsonView::Text(id@)),
            ("section"@, JsonView::Text(section@)),
            ("text"@, JsonView::Text(text@)),
        ]);
        assert(field_views(fields@) =~= views);
        lemma_keys_differ();
        reveal_strlit("section");
        reveal_strlit("text");
        assert("section"@[0] == 's' && "text"@[0] == 't');
        assert("section"@.len() == 7 && "text"@.len() == 4);
        reveal_strlit("ts");
        reveal_strlit("actor");
        reveal_strlit("kind");
        reveal_strlit("id");
        assert("kind"@[0] == 'k');
        lemma_distinct(fields@, views);
    }
    object_value(fields)
}

/// The saving of a lens, now.
pub fn lens_saved_event(
    name: &str,
    visible: &Vec<String>,
    query: &str,
    positions: Vec<(String, serde_json::Value, serde_json::Value)>,
) -> (r: serde_json::Value)
    ensures
        exists|ts: Seq<char>|
            is_recorded_time(ts) && document_view(r) == #[trigger] lens_saved(
                ts,
                name@,
                texts(visible@),
                query@,
                placement_views(positions@),
            ),
{
    let ts = timestamp();
    lens_saved_event_at(ts.as_str(), name, visible, query, positions)
}

/// The deletion of a lens, now.
pub fn lens_deleted_event(name: &str) -> (r: serde_json::Value)
    ensures
        exists|ts: Seq<char>|
            is_recorded_time(ts) && document_view(r) == #[trigger] lens_deleted(ts, name@),
{
    let ts = timestamp();
    lens_deleted_event_at(ts.as_str(), name)
}

/// The replacement of a brief section, now.
pub fn brief_edited_event(id: &str, section: &str, text: &str) -> (r: serde_json::Value)
    ensures
        exists|ts: Seq<char>|
            is_recorded_time(ts) && document_view(r) == #[trigger] brief_edited(
                ts,
                id@,
                section@,
                text@,
            ),
{
    let ts = timestamp();
    brief_edited_event_at(ts.as_str(), id, section, text)
}

// ---------------------------------------------------------------------
// Log lines
// ---------------------------------------------------------------------

/// The event as one line of the log, with the line feed that ends it.
pub fn event_line(event: &serde_json::Value) -> (r: String)
    ensures
        r@.len() > 0,
        r@.last() == '\n',
        on_one_line(r@.drop_last(), document_view(*event)),
        nests_within(document_view(*event), 127) ==> writes(
            r@.drop_last(),
            document_view(*event),
        ),
{
    let line = document_text(event).unwrap();
    let r = join(line.as_str(), "\n");
    proof {
        reveal_strlit("\n");
        assert(r@.drop_last() =~= line@);
    }
    r
}

// ---------------------------------------------------------------------
// Reading the log
// ---------------------------------------------------------------------

/// The views of a sequence of string slices.
pub open spec fn slices(v: Seq<&str>) -> Seq<Seq<char>> {
    v.map_values(|s: &str| s@)
}

/// The document on a line of the log; a blank or malformed line has none.
pub open spec fn line_document(line: Seq<char>) -> Option<JsonView> {
    if trimmed(line).len() == 0 {
        None
    } else {
        json_document(trimmed(line))
    }
}

/// The documents on the lines of the log, in order.
pub open spec fn documents_on(lines: Seq<Seq<char>>) -> Seq<JsonView>
    decreases lines.len(),
{
    if lines.len() == 0 {
        Seq::empty()
    } else {
        let before = documents_on(lines.drop_last());
        match line_document(lines.last()) {
            Some(document) => before.push(document),
            None => before,
        }
    }
}

/// Parse the lines of the log, skipping blank and malformed ones.
pub fn parse_events(lines: &[&str]) -> (r: Vec<Json>)
    ensures
        json_views(r@) == documents_on(slices(lines@)),
{
    let ghost ls = slices(lines@);
    let mut out: Vec<Json> = Vec::new();
    let mut i: usize = 0;
    assert(json_views(out@) == documents_on(ls.take(0)));
    while i < lines.len()
        invariant
            i <= lines@.len(),
            ls == slices(lines@),
            json_views(out@) == documents_on(ls.take(i as int)),
        decreases lines@.len() - i,
    {
        let chars = chars_of(lines[i]);
        let line = trim(chars.as_slice());
        assert(ls.take(i + 1).last() == lines@[i as int]@);
        assert(ls.take(i + 1).drop_last() == ls.take(i as int));
        if line.len() > 0 {
            let ghost before = out@;
            let text = string_of(line);
            if let Some(event) = parse_json(text.as_str()) {
                out.push(event);
                assert(json_views(out@) == json_views(before).push(event@));
            }
        }
        i += 1;
    }
    assert(ls.take(lines@.len() as int) == ls);
    out
}

// ---------------------------------------------------------------------
// Positions
// ---------------------------------------------------------------------

/// The node that an event moves, and where to.
pub open spec fn moved(event: JsonView) -> Option<(Seq<char>, Position)> {
    if event.text_field("kind"@) != Some("node_moved"@) {
        None
    } else {
        match (event.text_field("id"@), event.number_field("x"@), event.number_field("y"@)) {
            (Some(id), Some(x), Some(y)) => Some((id, placed_at(x, y))),
            _ => None,
        }
    }
}

/// Where the nodes stand after the given events.
pub open spec fn positions_after(events: Seq<JsonView>) -> Map<Seq<char>, Position>
    decreases events.len(),
{
    if events.len() == 0 {
        Map::empty()
    } else {
        let before = positions_after(events.drop_last());
        match moved(events.last()) {
            Some((id, position)) => before.insert(id, position),
            None => before,
        }
    }
}

/// The node that an event moves, and where to.
pub fn moved_node(event: &Json) -> (r: Option<(String, Position)>)
    ensures
        r is Some == moved(event@) is Some,
        r matches Some(m) ==> Some((m.0@, m.1)) == moved(event@),
{
    match event.text_at("kind") {
        Some(kind) => if !same_text(kind.as_str(), "node_moved") {
            return None;
        },
        None => {
            return None;
        },
    }
    match (event.text_at("id"), event.number_at("x"), event.number_at("y")) {
        (Some(id), Some(x), Some(y)) => Some((id.clone(), place(x, y))),
        _ => None,
    }
}

/// Fold `node_moved` events, last-write-wins per item id.
pub fn fold_position_events(events: &[Json]) -> (r: TextMap<Position>)
    ensures
        r@ == positions_after(json_views(events@)),
{
    let ghost es = json_views(events@);
    let mut out: TextMap<Position> = TextMap::new();
    let mut i: usize = 0;
    while i < events.len()
        invariant
            i <= events@.len(),
            es == json_views(events@),
            out@ == positions_after(es.take(i as int)),
        decreases events@.len() - i,
    {
        assert(es.take(i + 1).last() == events@[i as int]@);
        assert(es.take(i + 1).drop_last() == es.take(i as int));
        if let Some((id, position)) = moved_node(&events[i]) {
            out.insert(id, position);
        }
        i += 1;
    }
    assert(es.take(events@.len() as int) == es);
    out
}

/// Fold `node_moved` events (last-write-wins per item id) from raw
/// JSON-lines. Lines that fail to parse or are not `node_moved` are
/// ignored; callers feed every log line in log order.
pub fn fold_node_positions(lines: &[&str]) -> (r: TextMap<Position>)
    ensures
        r@ == positions_after(documents_on(slices(lines@))),
{
    let events = parse_events(lines);
    fold_position_events(events.as_slice())
}

// ---------------------------------------------------------------------
// Lenses
// ---------------------------------------------------------------------

/// The texts among the items of a list.
pub open spec fn texts_among(items: Seq<JsonView>) -> Seq<Seq<char>>
    decreases items.len(),
{
    if items.len() == 0 {
        Seq::empty()
    } else {
        let before = texts_among(items.drop_last());
        match items.last().text() {
            Some(text) => before.push(text),
            None => before,
        }
    }
}

/// The node and position that an entry of a lens names.
pub open spec fn placed(entry: JsonView) -> Option<(Seq<char>, Position)> {
    match (entry.text_field("id"@), entry.number_field("x"@), entry.number_field("y"@)) {
        (Some(id), Some(x), Some(y)) => Some((id, placed_at(x, y))),
        _ => None,
    }
}

/// The placements among the items of a list.
pub open spec fn placed_among(items: Seq<JsonView>) -> Seq<(Seq<char>, Position)>
    decreases items.len(),
{
    if items.len() == 0 {
        Seq::empty()
    } else {
        let before = placed_among(items.drop_last());
        match placed(items.last()) {
            Some(p) => before.push(p),
            None => before,
        }
    }
}

/// What an event does to the saved lenses.
pub enum LensEdit<T, L> {
    Save(L),
    Delete(T),
    Nothing,
}

/// The edit that an event makes. What a saved lens leaves out is empty.
pub open spec fn lens_edit(event: JsonView) -> LensEdit<Seq<char>, LensView> {
    match (event.text_field("kind"@), event.text_field("name"@)) {
        (Some(kind), Some(name)) => if kind == "lens_saved"@ {
            LensEdit::Save(
                LensView {
                    name,
                    visible_statuses: match event.items_field("visible_statuses"@) {
                        Some(items) => texts_among(items),
                        None => Seq::empty(),
                    },
                    query: match event.text_field("query"@) {
                        Some(query) => query,
                        None => Seq::empty(),
                    },
                    positions: match event.items_field("positions"@) {
                        Some(items) => placed_among(items),
                        None => Seq::empty(),
                    },
                },
            )
        } else if kind == "lens_deleted"@ {
            LensEdit::Delete(name)
        } else {
            LensEdit::Nothing
        },
        _ => LensEdit::Nothing,
    }
}

/// The saved lenses, by name, after the given events.
pub open spec fn lenses_after(events: Seq<JsonView>) -> Map<Seq<char>, LensView>
    decreases events.len(),
{
    if events.len() == 0 {
        Map::empty()
    } else {
        let before = lenses_after(events.drop_last());
        match lens_edit(events.last()) {
            LensEdit::Save(lens) => before.insert(lens.name, lens),
            LensEdit::Delete(name) => before.remove(name),
            LensEdit::Nothing => before,
        }
    }
}

/// The views of a map of lenses.
pub open spec fn lens_views(lenses: Map<Seq<char>, Lens>) -> Map<Seq<char>, LensView> {
    lenses.map_values(|lens: Lens| lens@)
}

fn collect_texts(items: &Vec<Json>) -> (r: Vec<String>)
    ensures
        texts(r@) == texts_among(json_views(items@)),
{
    let ghost all = json_views(items@);
    let mut out: Vec<String> = Vec::new();
    let mut i: usize = 0;
    assert(texts(out@) == texts_among(all.take(0)));
    while i < items.len()
        invariant
            i <= items@.len(),
            all == json_views(items@),
            texts(out@) == texts_among(all.take(i as int)),
        decreases items@.len() - i,
    {
        assert(all.take(i + 1).last() == items@[i as int]@);
        assert(all.take(i + 1).drop_last() == all.take(i as int));
        if let Some(text) = items[i].as_text() {
            let ghost before = out@;
            out.push(text.clone());
            assert(texts(out@) == texts(before).push(text@));
        }
        i += 1;
    }
    assert(all.take(items@.len() as int) == all);
    out
}

fn collect_placed(items: &Vec<Json>) -> (r: Vec<(String, Position)>)
    ensures
        placed_views(r@) == placed_among(json_views(items@)),
{
    let ghost all = json_views(items@);
    let mut out: Vec<(String, Position)> = Vec::new();
    let mut i: usize = 0;
    assert(placed_views(out@) == placed_among(all.take(0)));
    while i < items.len()
        invariant
            i <= items@.len(),
            all == json_views(items@),
            placed_views(out@) == placed_among(all.take(i as int)),
        decreases items@.len() - i,
    {
        assert(all.take(i + 1).last() == items@[i as int]@);
        assert(all.take(i + 1).drop_last() == all.take(i as int));
        let entry = &items[i];
        if let (Some(id), Some(x), Some(y)) = (
            entry.text_at("id"),
            entry.number_at("x"),
            entry.number_at("y"),
        ) {
            let ghost before = out@;
            out.push((id.clone(), place(x, y)));
            assert(placed_views(out@) == placed_views(before).push((id@, placed_at(x, y))));
        }
        i += 1;
    }
    assert(all.take(items@.len() as int) == all);
    out
}

/// The edit that an event makes to the saved lenses.
pub fn read_lens_edit(event: &Json) -> (r: LensEdit<String, Lens>)
    ensures
        (match r {
            LensEdit::Save(lens) => LensEdit::Save(lens@),
            LensEdit::Delete(name) => LensEdit::Delete(name@),
            LensEdit::Nothing => LensEdit::Nothing,
        }) == lens_edit(event@),
{
    match (event.text_at("kind"), event.text_at("name")) {
        (Some(kind), Some(name)) => if same_text(kind.as_str(), "lens_saved") {
            let visible_statuses: Vec<String> = match event.list_at("visible_statuses") {
                Some(items) => collect_texts(items),
                None => Vec::new(),
            };
            let query = match event.text_at("query") {
                Some(query) => query.clone(),
                None => String::new(),
            };
            let positions: Vec<(String, Position)> = match event.list_at("positions") {
                Some(items) => collect_placed(items),
                None => Vec::new(),
            };
            let lens = Lens { name: name.clone(), visible_statuses, query, positions };
            proof {
                let wanted = lens_edit(event@);
                assert(wanted is Save);
                assert(lens@.visible_statuses =~= wanted->Save_0.visible_statuses);
                assert(lens@.query =~= wanted->Save_0.query);
                assert(lens@.positions =~= wanted->Save_0.positions);
            }
            LensEdit::Save(lens)
        } else if same_text(kind.as_str(), "lens_deleted") {
            LensEdit::Delete(name.clone())
        } else {
            LensEdit::Nothing
        },
        _ => LensEdit::Nothing,
    }
}

/// Fold `lens_saved`/`lens_deleted` events, last-write-wins per lens name.
pub fn fold_lens_events(events: &[Json]) -> (r: TextMap<Lens>)
    ensures
        lens_views(r@) == lenses_after(json_views(events@)),
{
    let ghost es = json_views(events@);
    let mut out: TextMap<Lens> = TextMap::new();
    let mut i: usize = 0;
    assert(lens_views(out@) =~= lenses_after(es.take(0)));
    while i < events.len()
        invariant
            i <= events@.len(),
            es == json_views(events@),
            lens_views(out@) == lenses_after(es.take(i as int)),
        decreases events@.len() - i,
    {
        let ghost before = out@;
        assert(es.take(i + 1).last() == events@[i as int]@);
        assert(es.take(i + 1).drop_last() == es.take(i as int));
        match read_lens_edit(&events[i]) {
            LensEdit::Save(lens) => {
                out.insert(lens.name.clone(), lens);
                assert(lens_views(out@) =~= lens_views(before).insert(lens@.name, lens@));
            },
            LensEdit::Delete(name) => {
                let _ = out.remove(name.as_str());
                assert(lens_views(out@) =~= lens_views(before).remove(name@));
            },
            LensEdit::Nothing => {},
        }
        i += 1;
    }
    assert(es.take(events@.len() as int) == es);
    out
}

/// Fold `lens_saved`/`lens_deleted` events (last-write-wins per lens
/// name) from raw JSON-lines, the same shape as the position fold.
pub fn fold_lenses(lines: &[&str]) -> (r: TextMap<Lens>)
    ensures
        lens_views(r@) == lenses_after(documents_on(slices(lines@))),
{
    let events = parse_events(lines);
    fold_lens_events(events.as_slice())
}

// ---------------------------------------------------------------------
// Laws
// ---------------------------------------------------------------------

proof fn lemma_lookup_here(fields: Seq<(Seq<char>, JsonView)>, key: Seq<char>, i: int)
    requires
        0 <= i < fields.len(),
        fields[i].0 == key,
        forall|k: int| 0 <= k < i ==> (#[trigger] fields[k]).0 != key,
    ensures
        lookup(fields, key) == Some(fields[i].1),
    decreases i,
{
    if i > 0 {
        assert(fields[0].0 != key);
        assert forall|k: int| 0 <= k < i - 1 implies (#[trigger] fields.skip(1)[k]).0 != key by {
            assert(fields[k + 1].0 != key);
        }
        lemma_lookup_here(fields.skip(1), key, i - 1);
    }
}

/// What a move event says is what was put into it, in single precision; a
/// single-precision position reads back as it was.
pub proof fn law_move_event_reads_back(ts: Seq<char>, id: Seq<char>, x: JsonView, y: JsonView)
    requires
        x.number() is Some,
        y.number() is Some,
    ensures
        moved(node_moved(ts, id, x, y)) == Some(
            (id, placed_at(x.number()->0, y.number()->0)),
        ),
        is_single(x.number()->0) && is_single(y.number()->0) ==> moved(node_moved(ts, id, x, y))
            == Some((id, Position { x: x.number()->0, y: y.number()->0 })),
{
    let fields = node_moved(ts, id, x, y)->Object_0;
    lemma_keys_differ();
    lemma_lookup_here(fields, "kind"@, 2);
    lemma_lookup_here(fields, "id"@, 3);
    lemma_lookup_here(fields, "x"@, 4);
    lemma_lookup_here(fields, "y"@, 5);
}

/// Positions that the log gives have single precision, whatever its numbers:
/// written again, they read back as they are.
pub proof fn law_read_positions_are_single(events: Seq<JsonView>, id: Seq<char>)
    requires
        positions_after(events).dom().contains(id),
    ensures
        is_single(positions_after(events)[id].x),
        is_single(positions_after(events)[id].y),
    decreases events.len(),
{
    let event = events.last();
    let moves = moved(event) matches Some(m) && m.0 == id;
    if moves {
        law_narrowing_settles(event.number_field("x"@)->0);
        law_narrowing_settles(event.number_field("y"@)->0);
    } else {
        law_read_positions_are_single(events.drop_last(), id);
    }
}

/// A status event moves no node and edits no lens.
pub proof fn law_status_event_moves_nothing(ts: Seq<char>, id: Seq<char>, status: Seq<char>)
    ensures
        moved(status_set(ts, id, status)) is None,
        lens_edit(status_set(ts, id, status)) is Nothing,
{
    let fields = status_set(ts, id, status)->Object_0;
    lemma_keys_differ();
    lemma_lookup_here(fields, "kind"@, 2);
    reveal_strlit("status_set");
    reveal_strlit("node_moved");
    reveal_strlit("lens_saved");
    reveal_strlit("lens_deleted");
    assert("status_set"@[0] == 's' && "node_moved"@[0] == 'n');
    assert("lens_saved"@[0] == 'l' && "lens_deleted"@[0] == 'l');
}

proof fn lemma_flat_nests(fields: Seq<(Seq<char>, JsonView)>, depth: nat)
    requires
        depth > 0,
        forall|i: int|
            0 <= i < fields.len() ==> nests_within(
                (#[trigger] fields[i]).1,
                (depth - 1) as nat,
            ),
    ensures
        nests_within(JsonView::Object(fields), depth),
{
}

/// The events of this client nest far less deep than a log line may.
pub proof fn law_events_fit_a_line(
    ts: Seq<char>,
    id: Seq<char>,
    x: JsonView,
    y: JsonView,
    status: Seq<char>,
)
    requires
        !(x is List || x is Object),
        !(y is List || y is Object),
    ensures
        nests_within(node_moved(ts, id, x, y), 127),
        nests_within(status_set(ts, id, status), 127),
        nests_within(lens_deleted(ts, id), 127),
{
    assert(nests_within(x, 126) && nests_within(y, 126));
    lemma_flat_nests(node_moved(ts, id, x, y)->Object_0, 127);
    lemma_flat_nests(status_set(ts, id, status)->Object_0, 127);
    lemma_flat_nests(lens_deleted(ts, id)->Object_0, 127);
}

/// A saved lens nests far less deep than a log line may.
pub proof fn law_lens_event_fits_a_line(
    ts: Seq<char>,
    name: Seq<char>,
    visible: Seq<Seq<char>>,
    query: Seq<char>,
    placements: Seq<(Seq<char>, JsonView, JsonView)>,
)
    requires
        forall|i: int|
            0 <= i < placements.len() ==> !((#[trigger] placements[i]).1 is List
                || placements[i].1 is Object || placements[i].2 is List
                || placements[i].2 is Object),
    ensures
        nests_within(lens_saved(ts, name, visible, query, placements), 127),
{
    let items = placement_list(placements)->List_0;
    assert forall|i: int| 0 <= i < items.len() implies nests_within(#[trigger] items[i], 125) by {
        let p = placements[i];
        assert(nests_within(p.1, 124) && nests_within(p.2, 124));
        assert(items[i] == placement(p.0, p.1, p.2));
        lemma_flat_nests(placement(p.0, p.1, p.2)->Object_0, 125);
    }
    assert(nests_within(placement_list(placements), 126));
    let names = text_list(visible)->List_0;
    assert forall|i: int| 0 <= i < names.len() implies nests_within(#[trigger] names[i], 125) by {
        assert(names[i] == JsonView::Text(visible[i]));
    }
    assert(nests_within(text_list(visible), 126));
    lemma_flat_nests(lens_saved(ts, name, visible, query, placements)->Object_0, 127);
}

pub(crate) proof fn lemma_first_of_append(a: Seq<char>, b: Seq<char>, c: char)
    requires
        first_of(a, c) < a.len(),
    ensures
        first_of(a + b, c) == first_of(a, c),
    decreases a.len(),
{
    assert((a + b)[0] == a[0]);
    if a[0] != c {
        assert((a + b).skip(1) =~= a.skip(1) + b);
        lemma_first_of_append(a.skip(1), b, c);
    }
}

pub(crate) proof fn lemma_first_of_present(a: Seq<char>, c: char)
    requires
        a.contains(c),
    ensures
        first_of(a, c) < a.len(),
    decreases a.len(),
{
    let i = choose|i: int| 0 <= i < a.len() && a[i] == c;
    if a[0] != c {
        assert(a.skip(1)[i - 1] == c);
        lemma_first_of_present(a.skip(1), c);
    }
}

pub(crate) proof fn lemma_first_of_absent(a: Seq<char>, c: char)
    requires
        !a.contains(c),
    ensures
        first_of(a, c) == a.len(),
    decreases a.len(),
{
    if a.len() > 0 {
        assert(a[0] != c);
        assert forall|i: int| 0 <= i < a.skip(1).len() implies a.skip(1)[i] != c by {
            assert(a.contains(a[i + 1]));
        }
        lemma_first_of_absent(a.skip(1), c);
    }
}

/// Whether every line of a text is ended.
pub open spec fn complete(text: Seq<char>) -> bool {
    text.len() == 0 || text.last() == '\n'
}

/// The lines of two texts in a row, of which the first is complete.
pub proof fn lemma_lines_append(a: Seq<char>, b: Seq<char>)
    requires
        complete(a),
    ensures
        lines_of(a + b) == lines_of(a) + lines_of(b),
    decreases a.len(),
{
    if a.len() == 0 {
        assert(a + b =~= b);
        assert(lines_of(a) + lines_of(b) =~= lines_of(b));
    } else {
        let n = first_of(a, '\n') as int;
        assert(a.contains(a.last()));
        lemma_first_of_present(a, '\n');
        lemma_first_of_append(a, b, '\n');
        assert((a + b).take(n) =~= a.take(n));
        assert((a + b).skip(n + 1) =~= a.skip(n + 1) + b);
        assert(a.skip(n + 1).len() > 0 ==> a.skip(n + 1).last() == a.last());
        lemma_lines_append(a.skip(n + 1), b);
        let first = seq![without_return(a.take(n))];
        assert(first + (lines_of(a.skip(n + 1)) + lines_of(b)) =~= (first + lines_of(
            a.skip(n + 1),
        )) + lines_of(b));
    }
}

/// The only line of an ended line is that line.
pub(crate) proof fn lemma_lines_of_one(line: Seq<char>)
    requires
        !line.contains('\n'),
    ensures
        lines_of(line.push('\n')) == seq![without_return(line)],
{
    let text = line.push('\n');
    assert(text[text.len() - 1] == '\n');
    assert(text.contains('\n'));
    lemma_first_of_present(text, '\n');
    let n = first_of(text, '\n') as int;
    lemma_first_of(text, '\n');
    if n < line.len() {
        assert(line[n] == text[n]);
        assert(line.contains('\n'));
    }
    assert(text.take(n) =~= line);
    assert(text.skip(n + 1) =~= Seq::<char>::empty());
    assert(lines_of(text.skip(n + 1)) =~= Seq::<Seq<char>>::empty());
    assert(seq![without_return(line)] + Seq::<Seq<char>>::empty() =~= seq![without_return(line)]);
}

/// An ended line that writes an event adds that event to the log, and
/// changes nothing before it.
pub proof fn law_append_reads_back(log: Seq<char>, line: Seq<char>, event: JsonView)
    requires
        complete(log),
        event is Object,
        line.len() > 0,
        line.last() == '\n',
        writes(line.drop_last(), event),
    ensures
        documents_on(lines_of(log + line)) == documents_on(lines_of(log)).push(event),
        complete(log + line),
{
    let bare = line.drop_last();
    lemma_lines_append(log, line);
    assert(bare.push('\n') =~= line);
    lemma_lines_of_one(bare);
    assert(without_return(bare) == bare);
    assert(without_leading_space(bare) == bare);
    assert(trimmed(bare) == bare);
    let before = lines_of(log);
    let after = before.push(bare);
    assert(lines_of(log + line) =~= after);
    assert(after.drop_last() =~= before);
}

/// Appending a move and loading the log again gives the node its new place,
/// and leaves every other where it was.
pub proof fn law_append_then_load(
    log: Seq<char>,
    line: Seq<char>,
    ts: Seq<char>,
    id: Seq<char>,
    x: JsonView,
    y: JsonView,
)
    requires
        complete(log),
        line.len() > 0,
        line.last() == '\n',
        writes(line.drop_last(), node_moved(ts, id, x, y)),
        x.number() is Some,
        y.number() is Some,
    ensures
        positions_after(documents_on(lines_of(log + line))) == positions_after(
            documents_on(lines_of(log)),
        ).insert(id, placed_at(x.number()->0, y.number()->0)),
{
    let event = node_moved(ts, id, x, y);
    law_append_reads_back(log, line, event);
    law_move_event_reads_back(ts, id, x, y);
    let before = documents_on(lines_of(log));
    assert(before.push(event).drop_last() =~= before);
}

/// Whether an event moves the node `id`.
pub open spec fn moves(event: JsonView, id: Seq<char>) -> bool {
    moved(event) matches Some(m) && m.0 == id
}

/// A node stands where the last event that moves it put it.
pub proof fn law_last_move_wins(events: Seq<JsonView>, id: Seq<char>, i: int)
    requires
        0 <= i < events.len(),
        moves(events[i], id),
        forall|j: int| i < j < events.len() ==> !moves(#[trigger] events[j], id),
    ensures
        positions_after(events).dom().contains(id),
        Some((id, positions_after(events)[id])) == moved(events[i]),
    decreases events.len(),
{
    if i < events.len() - 1 {
        assert(!moves(events[events.len() - 1], id));
        assert forall|j: int| i < j < events.drop_last().len() implies !moves(
            #[trigger] events.drop_last()[j],
            id,
        ) by {
            assert(!moves(events[j], id));
        }
        law_last_move_wins(events.drop_last(), id, i);
    }
}

/// A node that no event moves has no place.
pub proof fn law_unmoved_has_no_place(events: Seq<JsonView>, id: Seq<char>)
    requires
        forall|i: int| 0 <= i < events.len() ==> !moves(#[trigger] events[i], id),
    ensures
        !positions_after(events).dom().contains(id),
    decreases events.len(),
{
    if events.len() > 0 {
        assert(!moves(events[events.len() - 1], id));
        assert forall|i: int| 0 <= i < events.drop_last().len() implies !moves(
            #[trigger] events.drop_last()[i],
            id,
        ) by {
            assert(!moves(events[i], id));
        }
        law_unmoved_has_no_place(events.drop_last(), id);
    }
}

proof fn lemma_text_list(all: Seq<Seq<char>>)
    ensures
        texts_among(text_list(all)->List_0) == all,
    decreases all.len(),
{
    let items = text_list(all)->List_0;
    if all.len() == 0 {
        assert(texts_among(items) =~= all);
    } else {
        lemma_text_list(all.drop_last());
        assert(items.drop_last() =~= text_list(all.drop_last())->List_0);
        assert(items.last() == JsonView::Text(all.last()));
        assert(all.drop_last().push(all.last()) =~= all);
    }
}

/// Placements in single precision.
pub open spec fn placed_bits(
    placements: Seq<(Seq<char>, JsonView, JsonView)>,
) -> Seq<(Seq<char>, Position)> {
    placements.map_values(
        |p: (Seq<char>, JsonView, JsonView)|
            (p.0, placed_at(p.1.number()->0, p.2.number()->0)),
    )
}

proof fn lemma_placement_list(all: Seq<(Seq<char>, JsonView, JsonView)>)
    requires
        forall|i: int|
            0 <= i < all.len() ==> (#[trigger] all[i]).1.number() is Some
                && all[i].2.number() is Some,
    ensures
        placed_among(placement_list(all)->List_0) == placed_bits(all),
    decreases all.len(),
{
    let items = placement_list(all)->List_0;
    if all.len() == 0 {
        assert(placed_among(items) =~= placed_bits(all));
    } else {
        lemma_placement_list(all.drop_last());
        assert(items.drop_last() =~= placement_list(all.drop_last())->List_0);
        let p = all[all.len() - 1];
        let fields = placement(p.0, p.1, p.2)->Object_0;
        assert(items.last() == JsonView::Object(fields));
        lemma_keys_differ();
        lemma_lookup_here(fields, "id"@, 0);
        lemma_lookup_here(fields, "x"@, 1);
        lemma_lookup_here(fields, "y"@, 2);
        assert(placed_bits(all.drop_last()).push(placed_bits(all).last()) =~= placed_bits(all));
    }
}

/// A saved lens reads back as it was saved.
pub proof fn law_saved_lens_reads_back(
    ts: Seq<char>,
    name: Seq<char>,
    visible: Seq<Seq<char>>,
    query: Seq<char>,
    placements: Seq<(Seq<char>, JsonView, JsonView)>,
)
    requires
        forall|i: int|
            0 <= i < placements.len() ==> (#[trigger] placements[i]).1.number() is Some
                && placements[i].2.number() is Some,
    ensures
        lens_edit(lens_saved(ts, name, visible, query, placements)) == LensEdit::<
            Seq<char>,
            LensView,
        >::Save(
            LensView {
                name,
                visible_statuses: visible,
                query,
                positions: placed_bits(placements),
            },
        ),
{
    let fields = lens_saved(ts, name, visible, query, placements)->Object_0;
    lemma_keys_differ();
    lemma_lookup_here(fields, "kind"@, 2);
    lemma_lookup_here(fields, "name"@, 3);
    lemma_lookup_here(fields, "visible_statuses"@, 4);
    lemma_lookup_here(fields, "query"@, 5);
    lemma_lookup_here(fields, "positions"@, 6);
    lemma_text_list(visible);
    lemma_placement_list(placements);
}

/// A lens's deletion reads back as the deletion of that lens.
pub proof fn law_deleted_lens_reads_back(ts: Seq<char>, name: Seq<char>)
    ensures
        lens_edit(lens_deleted(ts, name)) == LensEdit::<Seq<char>, LensView>::Delete(name),
{
    let fields = lens_deleted(ts, name)->Object_0;
    lemma_keys_differ();
    lemma_lookup_here(fields, "kind"@, 2);
    lemma_lookup_here(fields, "name"@, 3);
    reveal_strlit("lens_saved");
    reveal_strlit("lens_deleted");
    assert("lens_saved"@.len() != "lens_deleted"@.len());
}

/// The name of the lens that an event edits.
pub open spec fn edited_lens(event: JsonView) -> Option<Seq<char>> {
    match lens_edit(event) {
        LensEdit::Save(lens) => Some(lens.name),
        LensEdit::Delete(name) => Some(name),
        LensEdit::Nothing => None,
    }
}

/// The last event that edits a lens decides whether it is there and what it
/// holds.
pub proof fn law_last_lens_edit_wins(events: Seq<JsonView>, name: Seq<char>, i: int)
    requires
        0 <= i < events.len(),
        edited_lens(events[i]) == Some(name),
        forall|j: int| i < j < events.len() ==> edited_lens(#[trigger] events[j]) != Some(name),
    ensures
        lenses_after(events).dom().contains(name) == lens_edit(events[i]) is Save,
        lens_edit(events[i]) matches LensEdit::Save(lens) ==> lenses_after(events)[name] == lens,
    decreases events.len(),
{
    if i < events.len() - 1 {
        assert(edited_lens(events[events.len() - 1]) != Some(name));
        assert forall|j: int| i < j < events.drop_last().len() implies edited_lens(
            #[trigger] events.drop_last()[j],
        ) != Some(name) by {
            assert(edited_lens(events[j]) != Some(name));
        }
        law_last_lens_edit_wins(events.drop_last(), name, i);
    }
}

/// A lens is filed under its own name.
pub proof fn law_lenses_are_filed_by_name(events: Seq<JsonView>, name: Seq<char>)
    requires
        lenses_after(events).dom().contains(name),
    ensures
        lenses_after(events)[name].name == name,
    decreases events.len(),
{
    if events.len() > 0 && edited_lens(events.last()) != Some(name) {
        law_lenses_are_filed_by_name(events.drop_last(), name);
    }
}

} // verus!

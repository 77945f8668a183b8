//! The workcat database as the contents of its files: which files are read
//! and in what order, and what they hold together.

use crate::brief::{brief_item, parse_brief};
use crate::events::{
    complete, documents_on, fold_lenses, fold_node_positions, lemma_lines_append,
    lemma_lines_of_one, lens_views, lenses_after, line_document, positions_after, slices,
};
use crate::json::JsonView;
use crate::model::{ItemMeta, ItemView, Lens, Position};
use crate::order::{
    is_stable_order, key_lt, keys_of, law_stable_order_exists, lemma_key_irreflexive,
    lemma_key_transitive, sorts_before, stable_order, stable_order_of, text_key, text_keys,
};
use crate::text::{
    chars_of, first_of, is_space, join, lines, lines_of, rest, rows, same, string_of, texts,
    trimmed, without_leading_space, without_return,
};
use crate::textmap::{text_lt, TextMap};
use vstd::prelude::*;

verus! {

// ---------------------------------------------------------------------
// Places
// ---------------------------------------------------------------------

/// Environment variable that overrides the workcat-db directory.
pub const DB_DIR_ENV_VAR: &'static str = "WORKCAT_DB_DIR";

/// Resolve the db directory: the value of the environment variable, if it is
/// set, else the default.
pub fn resolve_db_dir(from_env: Option<String>, default_dir: String) -> (r: String)
    ensures
        r == (match from_env {
            Some(dir) => dir,
            None => default_dir,
        }),
{
    match from_env {
        Some(dir) => dir,
        None => default_dir,
    }
}

/// The log that events of a month like "2026-07" are appended to, below the
/// database directory.
pub fn log_path(month: &str) -> (r: String)
    ensures
        r@ == "events/"@ + month@ + "/log.jsonl"@,
{
    let shard = join("events/", month);
    join(shard.as_str(), "/log.jsonl")
}

// ---------------------------------------------------------------------
// Directory listings
// ---------------------------------------------------------------------

/// Whether a file name has an extension, after a dot that is not its first
/// character.
pub open spec fn has_extension(name: Seq<char>, ext: Seq<char>) -> bool {
    let dot = name.len() - ext.len() - 1;
    dot > 0 && name[dot] == '.' && name.skip(dot + 1) == ext
}

/// The places of the names with an extension.
pub open spec fn with_extension(names: Seq<Seq<char>>, ext: Seq<char>) -> Seq<usize>
    decreases names.len(),
{
    if names.len() == 0 {
        Seq::empty()
    } else {
        let before = with_extension(names.drop_last(), ext);
        if has_extension(names.last(), ext) {
            before.push((names.len() - 1) as usize)
        } else {
            before
        }
    }
}

/// The names at the given places.
pub open spec fn names_at(names: Seq<Seq<char>>, places: Seq<usize>) -> Seq<Seq<char>> {
    places.map_values(|i: usize| names[i as int])
}

/// The places of the names with an extension, in the order of the names.
pub open spec fn listing(names: Seq<Seq<char>>, ext: Seq<char>) -> Seq<usize> {
    let places = with_extension(names, ext);
    stable_order_of(text_keys(names_at(names, places))).map_values(|k: usize| places[k as int])
}

fn ends_with_extension(name: &str, ext: &str) -> (r: bool)
    ensures
        r == has_extension(name@, ext@),
{
    let name = chars_of(name);
    let ext = chars_of(ext);
    if name.len() < ext.len() || name.len() - ext.len() < 2 {
        return false;
    }
    let dot = name.len() - ext.len() - 1;
    name[dot] == '.' && same(rest(name.as_slice(), dot + 1), ext.as_slice())
}

proof fn lemma_places_in_range(names: Seq<Seq<char>>, ext: Seq<char>)
    requires
        names.len() <= usize::MAX,
    ensures
        with_extension(names, ext).len() <= names.len(),
        forall|k: int|
            0 <= k < with_extension(names, ext).len() ==> 0 <= #[trigger] with_extension(
                names,
                ext,
            )[k] < names.len(),
    decreases names.len(),
{
    if names.len() > 0 {
        lemma_places_in_range(names.drop_last(), ext);
    }
}

/// The places of the file names with an extension, in the order of the names.
pub fn list_files(names: &Vec<String>, ext: &str) -> (r: Vec<usize>)
    ensures
        r@ == listing(texts(names@), ext@),
{
    let ghost all = texts(names@);
    let mut places: Vec<usize> = Vec::new();
    let mut chosen: Vec<String> = Vec::new();
    let mut i: usize = 0;
    assert(texts(chosen@) == names_at(all, places@));
    while i < names.len()
        invariant
            i <= names@.len(),
            all == texts(names@),
            places@ == with_extension(all.take(i as int), ext@),
            places@.len() == chosen@.len(),
            texts(chosen@) == names_at(all, places@),
        decreases names@.len() - i,
    {
        assert(all.take(i + 1).last() == names@[i as int]@);
        assert(all.take(i + 1).drop_last() == all.take(i as int));
        if ends_with_extension(names[i].as_str(), ext) {
            let ghost before = chosen@;
            let ghost old_places = places@;
            places.push(i);
            chosen.push(names[i].clone());
            assert(texts(chosen@) == texts(before).push(all[i as int]));
            assert(names_at(all, places@) == names_at(all, old_places).push(all[i as int]));
        }
        i += 1;
    }
    assert(all.take(names@.len() as int) == all);
    let keys = keys_of(&chosen);
    let order = stable_order(&keys);
    let mut out: Vec<usize> = Vec::new();
    let mut k: usize = 0;
    let ghost wanted = listing(all, ext@);
    while k < order.len()
        invariant
            k <= order@.len(),
            is_stable_order(order@, text_keys(names_at(all, places@))),
            order@ == stable_order_of(text_keys(names_at(all, places@))),
            places@ == with_extension(all, ext@),
            wanted == listing(all, ext@),
            out@ == wanted.take(k as int),
        decreases order@.len() - k,
    {
        out.push(places[order[k]]);
        assert(wanted.take(k + 1) == wanted.take(k as int).push(wanted[k as int]));
        k += 1;
    }
    assert(wanted.take(order@.len() as int) == wanted);
    out
}

/// The places of directory names, in the order of the names.
pub fn list_dirs(names: &Vec<String>) -> (r: Vec<usize>)
    ensures
        r@ == stable_order_of(text_keys(texts(names@))),
        is_stable_order(r@, text_keys(texts(names@))),
{
    let keys = keys_of(names);
    stable_order(&keys)
}

proof fn lemma_place_chosen(names: Seq<Seq<char>>, ext: Seq<char>, i: int)
    requires
        names.len() <= usize::MAX,
        0 <= i < names.len(),
    ensures
        with_extension(names, ext).contains(i as usize) == has_extension(names[i], ext),
    decreases names.len(),
{
    let before = with_extension(names.drop_last(), ext);
    let last = (names.len() - 1) as usize;
    lemma_places_in_range(names.drop_last(), ext);
    if before.contains(last) {
        let k = choose|k: int| 0 <= k < before.len() && before[k] == last;
        assert(0 <= before[k] < names.len() - 1);
    }
    if i < names.len() - 1 {
        lemma_place_chosen(names.drop_last(), ext, i);
        let now = before.push(last);
        if before.contains(i as usize) {
            let k = choose|k: int| 0 <= k < before.len() && before[k] == i as usize;
            assert(now[k] == i as usize);
        }
        if now.contains(i as usize) {
            let k = choose|k: int| 0 <= k < now.len() && now[k] == i as usize;
            assert(before[k] == i as usize);
        }
    } else {
        assert(before.push(last)[before.len() as int] == last);
    }
}

/// A listing holds exactly the names with the extension.
pub proof fn law_listing_is_complete(names: Seq<Seq<char>>, ext: Seq<char>, i: int)
    requires
        names.len() <= usize::MAX,
        0 <= i < names.len(),
    ensures
        listing(names, ext).contains(i as usize) == has_extension(names[i], ext),
{
    let places = with_extension(names, ext);
    let keys = text_keys(names_at(names, places));
    let order = stable_order_of(keys);
    let out = listing(names, ext);
    lemma_places_in_range(names, ext);
    law_stable_order_exists(keys);
    lemma_place_chosen(names, ext, i);
    if places.contains(i as usize) {
        let k = choose|k: int| 0 <= k < places.len() && places[k] == i as usize;
        assert(order.contains(k as usize));
        let j = choose|j: int| 0 <= j < order.len() && order[j] == k as usize;
        assert(out[j] == i as usize);
    }
    if out.contains(i as usize) {
        let j = choose|j: int| 0 <= j < out.len() && out[j] == i as usize;
        assert(places[order[j] as int] == i as usize);
    }
}

/// A listing is in the order of the names.
pub proof fn law_listing_is_sorted(names: Seq<Seq<char>>, ext: Seq<char>, i: int, j: int)
    requires
        names.len() <= usize::MAX,
        0 <= i < j < listing(names, ext).len(),
    ensures
        !text_lt(names[listing(names, ext)[j] as int], names[listing(names, ext)[i] as int]),
{
    let places = with_extension(names, ext);
    let keys = text_keys(names_at(names, places));
    let order = stable_order_of(keys);
    lemma_places_in_range(names, ext);
    law_stable_order_exists(keys);
    let a = order[i] as int;
    let b = order[j] as int;
    assert(sorts_before(keys, a, b));
    assert(keys[a] == text_key(names[places[a] as int]));
    assert(keys[b] == text_key(names[places[b] as int]));
    lemma_key_irreflexive(keys[a]);
    if key_lt(keys[a], keys[b]) && key_lt(keys[b], keys[a]) {
        lemma_key_transitive(keys[a], keys[b], keys[a]);
    }
}

// ---------------------------------------------------------------------
// Briefs
// ---------------------------------------------------------------------

/// The items of the briefs that describe one, in order.
pub open spec fn items_in(briefs: Seq<Seq<char>>) -> Seq<ItemView>
    decreases briefs.len(),
{
    if briefs.len() == 0 {
        Seq::empty()
    } else {
        let before = items_in(briefs.drop_last());
        match brief_item(briefs.last()) {
            Some(item) => before.push(item),
            None => before,
        }
    }
}

/// The places of the briefs that describe no item.
pub open spec fn unparsed_in(briefs: Seq<Seq<char>>) -> Seq<usize>
    decreases briefs.len(),
{
    if briefs.len() == 0 {
        Seq::empty()
    } else {
        let before = unparsed_in(briefs.drop_last());
        if brief_item(briefs.last()) is None {
            before.push((briefs.len() - 1) as usize)
        } else {
            before
        }
    }
}

/// The views of a sequence of items.
pub open spec fn item_views(v: Seq<ItemMeta>) -> Seq<ItemView> {
    v.map_values(|item: ItemMeta| item@)
}

/// Every item's metadata from the texts of the briefs, and the places of the
/// briefs that describe none.
pub fn load_items(briefs: &Vec<String>) -> (r: (Vec<ItemMeta>, Vec<usize>))
    ensures
        item_views(r.0@) == items_in(texts(briefs@)),
        r.1@ == unparsed_in(texts(briefs@)),
{
    let ghost all = texts(briefs@);
    let mut items: Vec<ItemMeta> = Vec::new();
    let mut unparsed: Vec<usize> = Vec::new();
    let mut i: usize = 0;
    assert(item_views(items@) == items_in(all.take(0)));
    while i < briefs.len()
        invariant
            i <= briefs@.len(),
            all == texts(briefs@),
            item_views(items@) == items_in(all.take(i as int)),
            unparsed@ == unparsed_in(all.take(i as int)),
        decreases briefs@.len() - i,
    {
        assert(all.take(i + 1).last() == briefs@[i as int]@);
        assert(all.take(i + 1).drop_last() == all.take(i as int));
        let ghost before = items@;
        match parse_brief(briefs[i].as_str()) {
            Some(item) => {
                items.push(item);
                assert(item_views(items@) == item_views(before).push(item@));
            },
            None => unparsed.push(i),
        }
        i += 1;
    }
    assert(all.take(briefs@.len() as int) == all);
    (items, unparsed)
}

/// Every brief either gives one item or is reported.
pub proof fn law_no_brief_is_dropped(briefs: Seq<Seq<char>>)
    ensures
        items_in(briefs).len() + unparsed_in(briefs).len() == briefs.len(),
    decreases briefs.len(),
{
    if briefs.len() > 0 {
        law_no_brief_is_dropped(briefs.drop_last());
    }
}

// ---------------------------------------------------------------------
// Logs
// ---------------------------------------------------------------------

/// The texts of the logs in a row, a line feed after each.
pub open spec fn log_text(logs: Seq<Seq<char>>) -> Seq<char>
    decreases logs.len(),
{
    if logs.len() == 0 {
        Seq::empty()
    } else {
        log_text(logs.drop_last()) + logs.last().push('\n')
    }
}

/// The events of the logs, in order.
pub open spec fn log_events(logs: Seq<Seq<char>>) -> Seq<JsonView> {
    documents_on(lines_of(log_text(logs)))
}

fn log_lines(logs: &Vec<String>) -> (r: Vec<String>)
    ensures
        texts(r@) == lines_of(log_text(texts(logs@))),
{
    let ghost all = texts(logs@);
    let mut text = String::new();
    let mut i: usize = 0;
    assert(text@ == log_text(all.take(0)));
    while i < logs.len()
        invariant
            i <= logs@.len(),
            all == texts(logs@),
            text@ == log_text(all.take(i as int)),
        decreases logs@.len() - i,
    {
        assert(all.take(i + 1).last() == logs@[i as int]@);
        assert(all.take(i + 1).drop_last() == all.take(i as int));
        let ghost before = text@;
        text.append(logs[i].as_str());
        text.push('\n');
        assert(text@ =~= before + logs@[i as int]@.push('\n'));
        i += 1;
    }
    assert(all.take(logs@.len() as int) == all);
    let found = lines(chars_of(text.as_str()).as_slice());
    let mut out: Vec<String> = Vec::new();
    let mut k: usize = 0;
    while k < found.len()
        invariant
            k <= found@.len(),
            texts(out@) == rows(found@).take(k as int),
        decreases found@.len() - k,
    {
        let ghost before = out@;
        out.push(string_of(found[k].as_slice()));
        assert(texts(out@) == texts(before).push(found@[k as int]@));
        k += 1;
    }
    assert(rows(found@).take(found@.len() as int) == rows(found@));
    out
}

fn borrowed(all: &Vec<String>) -> (r: Vec<&str>)
    ensures
        slices(r@) == texts(all@),
{
    let mut out: Vec<&str> = Vec::new();
    let mut i: usize = 0;
    while i < all.len()
        invariant
            i <= all@.len(),
            slices(out@) == texts(all@).take(i as int),
        decreases all@.len() - i,
    {
        let ghost before = out@;
        out.push(all[i].as_str());
        assert(slices(out@) == slices(before).push(all@[i as int]@));
        i += 1;
    }
    assert(texts(all@).take(all@.len() as int) == texts(all@));
    out
}

/// Fold node positions from the texts of the event logs, in log order.
pub fn load_positions(logs: &Vec<String>) -> (r: TextMap<Position>)
    ensures
        r@ == positions_after(log_events(texts(logs@))),
{
    let lines = log_lines(logs);
    let lines = borrowed(&lines);
    fold_node_positions(lines.as_slice())
}

/// Fold the saved lenses from the texts of the event logs, in log order.
pub fn load_lenses(logs: &Vec<String>) -> (r: TextMap<Lens>)
    ensures
        lens_views(r@) == lenses_after(log_events(texts(logs@))),
{
    let lines = log_lines(logs);
    let lines = borrowed(&lines);
    fold_lenses(lines.as_slice())
}

proof fn lemma_documents_sum(a: Seq<Seq<char>>, b: Seq<Seq<char>>)
    ensures
        documents_on(a + b) == documents_on(a) + documents_on(b),
    decreases b.len(),
{
    if b.len() == 0 {
        assert(a + b =~= a);
        assert(documents_on(a) + documents_on(b) =~= documents_on(a));
    } else {
        assert((a + b).drop_last() =~= a + b.drop_last());
        lemma_documents_sum(a, b.drop_last());
        if let Some(document) = line_document(b.last()) {
            assert((documents_on(a) + documents_on(b.drop_last())).push(document)
                =~= documents_on(a) + documents_on(b.drop_last()).push(document));
        }
    }
}

/// A trailing whitespace character does not show in a trimmed text.
proof fn lemma_trim_last(s: Seq<char>)
    requires
        s.len() > 0,
        is_space(s.last()),
    ensures
        trimmed(s) == trimmed(s.drop_last()),
    decreases s.len(),
{
    let short = s.drop_last();
    if is_space(s[0]) {
        if s.len() == 1 {
            assert(without_leading_space(s.skip(1)) =~= short);
        } else {
            assert(short.skip(1) =~= s.skip(1).drop_last());
            lemma_trim_last(s.skip(1));
        }
    } else {
        assert(without_leading_space(short) == short);
    }
}

/// Ending the last line of a text changes none of its documents.
proof fn lemma_ended_documents(s: Seq<char>)
    ensures
        documents_on(lines_of(s.push('\n'))) == documents_on(lines_of(s)),
    decreases s.len(),
{
    let n = first_of(s, '\n') as int;
    if s.len() > 0 && n < s.len() {
        let first = seq![without_return(s.take(n))];
        let ended = s.push('\n');
        crate::events::lemma_first_of_append(s, seq!['\n'], '\n');
        assert(ended =~= s + seq!['\n']);
        assert(ended.take(n) =~= s.take(n));
        assert(ended.skip(n + 1) =~= s.skip(n + 1).push('\n'));
        lemma_ended_documents(s.skip(n + 1));
        lemma_documents_sum(first, lines_of(s.skip(n + 1)));
        lemma_documents_sum(first, lines_of(ended.skip(n + 1)));
    } else {
        if s.contains('\n') {
            crate::events::lemma_first_of_present(s, '\n');
        }
        lemma_lines_of_one(s);
        let one = seq![without_return(s)];
        assert(one.drop_last() =~= Seq::<Seq<char>>::empty());
        if s.len() == 0 {
            assert(line_document(s) is None);
            assert(documents_on(one) =~= documents_on(lines_of(s)));
        } else {
            assert(seq![s].drop_last() =~= Seq::<Seq<char>>::empty());
            if s.last() == '\r' {
                lemma_trim_last(s);
            }
        }
    }
}

proof fn lemma_log_complete(logs: Seq<Seq<char>>)
    ensures
        complete(log_text(logs)),
{
}

/// Logs read one after the other: the events of each follow those of the one
/// before, whether or not its last line is ended.
pub proof fn law_logs_read_in_order(logs: Seq<Seq<char>>, log: Seq<char>)
    ensures
        log_events(logs.push(log)) == log_events(logs) + documents_on(lines_of(log)),
{
    assert(logs.push(log).drop_last() =~= logs);
    lemma_log_complete(logs);
    lemma_lines_append(log_text(logs), log.push('\n'));
    lemma_documents_sum(lines_of(log_text(logs)), lines_of(log.push('\n')));
    lemma_ended_documents(log);
}

} // verus!

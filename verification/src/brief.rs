//! Brief files: the heading, the metadata block and the body sections of a
//! work item.
//!
//! ```text
//! # Subject line
//!
//! - id: <uuid>
//! - ref: <ref>
//! - status: <status>
//! - created_at: ...
//! - updated_at: ...
//! - depends_on: []            (or a nested list of brief filenames)
//! ```

use crate::model::{id8_of, law_ascii_id8, section_views, ItemMeta, ItemView};
use crate::status::{status_named, Status};
use crate::text::{
    chars_of, head, lines, lines_of, rows, same, starts_with, string_of, strip, text_opt, texts,
    trim, trim_end, trimmed, without_trailing_space,
};
use vstd::prelude::*;
use vstd::utf8::is_ascii_chars;

verus! {

/// The first eight characters of a `depends_on` entry, which is a brief
/// filename (`<id8>-<slug>.md`) or a bare uuid.
pub open spec fn dep_prefix(entry: Seq<char>) -> Seq<char> {
    entry.take(if entry.len() < 8 { entry.len() as int } else { 8 })
}

/// The short id of the item that a `depends_on` entry names.
pub fn dep_id8(entry: &str) -> (r: String)
    ensures
        r@ == dep_prefix(entry@),
{
    let chars = chars_of(entry);
    let n = if chars.len() < 8 {
        chars.len()
    } else {
        8
    };
    string_of(head(chars.as_slice(), n))
}

/// A `depends_on` entry names an item by its whole id, or by its short id
/// and a slug: both reduce to the short id of the item.
pub proof fn law_dependency_names_item(id: Seq<char>, slug: Seq<char>)
    requires
        is_ascii_chars(id),
        id.len() >= 8,
    ensures
        dep_prefix(id) == id8_of(id),
        dep_prefix(id8_of(id) + slug) == id8_of(id),
{
    law_ascii_id8(id);
}

/// Whether a line opens a body section.
pub open spec fn opens_section(line: Seq<char>) -> bool {
    "## "@.is_prefix_of(line)
}

/// The place of the first line that opens a section; the number of lines
/// when there is none.
pub open spec fn block_end(lines: Seq<Seq<char>>) -> nat
    decreases lines.len(),
{
    if lines.len() == 0 || opens_section(lines[0]) {
        0
    } else {
        1 + block_end(lines.skip(1))
    }
}

/// What follows `prefix` on the first line that starts with it, trimmed.
pub open spec fn first_after(lines: Seq<Seq<char>>, prefix: Seq<char>) -> Option<Seq<char>>
    decreases lines.len(),
{
    if lines.len() == 0 {
        None
    } else if prefix.is_prefix_of(lines[0]) {
        Some(trimmed(lines[0].skip(prefix.len() as int)))
    } else {
        first_after(lines.skip(1), prefix)
    }
}

/// What follows `prefix` on the last line that starts with it, trimmed.
pub open spec fn last_after(lines: Seq<Seq<char>>, prefix: Seq<char>) -> Option<Seq<char>>
    decreases lines.len(),
{
    if lines.len() == 0 {
        None
    } else if prefix.is_prefix_of(lines.last()) {
        Some(trimmed(lines.last().skip(prefix.len() as int)))
    } else {
        last_after(lines.drop_last(), prefix)
    }
}

/// Whether a line opens the nested list of dependencies.
pub open spec fn opens_list(line: Seq<char>) -> bool {
    "- "@.is_prefix_of(line) && without_trailing_space(line.skip("- "@.len() as int))
        == "depends_on:"@
}

/// Whether the line after `lines` may be an entry of the dependency list:
/// only entries and headings stand between it and the line that opened the
/// list.
pub open spec fn in_list(lines: Seq<Seq<char>>) -> bool
    decreases lines.len(),
{
    if lines.len() == 0 {
        false
    } else {
        let line = lines.last();
        let before = lines.drop_last();
        if "# "@.is_prefix_of(line) || (in_list(before) && "  - "@.is_prefix_of(line)) {
            in_list(before)
        } else {
            opens_list(line)
        }
    }
}

/// The entries of the dependency list, as short ids.
pub open spec fn dependencies(lines: Seq<Seq<char>>) -> Seq<Seq<char>>
    decreases lines.len(),
{
    if lines.len() == 0 {
        Seq::empty()
    } else {
        let line = lines.last();
        let before = lines.drop_last();
        if !"# "@.is_prefix_of(line) && in_list(before) && "  - "@.is_prefix_of(line) {
            dependencies(before).push(dep_prefix(trimmed(line.skip("  - "@.len() as int))))
        } else {
            dependencies(before)
        }
    }
}

/// Lines joined by line feeds.
pub open spec fn joined(lines: Seq<Seq<char>>) -> Seq<char>
    decreases lines.len(),
{
    if lines.len() == 0 {
        Seq::empty()
    } else if lines.len() == 1 {
        lines[0]
    } else {
        joined(lines.drop_last()).push('\n') + lines.last()
    }
}

/// The body sections: each heading with the lines under it.
pub open spec fn raw_sections(lines: Seq<Seq<char>>) -> Seq<(Seq<char>, Seq<Seq<char>>)>
    decreases lines.len(),
{
    if lines.len() == 0 {
        Seq::empty()
    } else {
        let line = lines.last();
        let before = raw_sections(lines.drop_last());
        if opens_section(line) {
            before.push((trimmed(line.skip("## "@.len() as int)), Seq::empty()))
        } else if before.len() == 0 {
            before
        } else {
            before.drop_last().push((before.last().0, before.last().1.push(line)))
        }
    }
}

/// The body sections: each heading with the text under it, trimmed.
pub open spec fn sections_of(lines: Seq<Seq<char>>) -> Seq<(Seq<char>, Seq<char>)> {
    raw_sections(lines).map_values(
        |s: (Seq<char>, Seq<Seq<char>>)| (s.0, trimmed(joined(s.1))),
    )
}

/// The item that a brief describes: it has a subject, an id, a ref and a
/// status of the vocabulary. The metadata block ends where the body
/// sections begin; a repeated field counts as given last.
pub open spec fn brief_item(text: Seq<char>) -> Option<ItemView> {
    let all = lines_of(text);
    let block = all.take(block_end(all) as int);
    match (
        first_after(block, "# "@),
        last_after(block, "- id: "@),
        last_after(block, "- ref: "@),
        last_after(block, "- status: "@),
    ) {
        (Some(subject), Some(id), Some(reference), Some(name)) => match status_named(name) {
            Some(status) => Some(
                ItemView {
                    id,
                    subject,
                    reference,
                    status,
                    updated_at: last_after(block, "- updated_at: "@),
                    depends_on: dependencies(block),
                    sections: sections_of(all),
                },
            ),
            None => None,
        },
        _ => None,
    }
}

pub open spec fn item_opt(item: Option<ItemMeta>) -> Option<ItemView> {
    match item {
        Some(item) => Some(item@),
        None => None,
    }
}

fn find_block_end(all: &Vec<Vec<char>>) -> (r: usize)
    ensures
        r == block_end(rows(all@)),
        r <= all@.len(),
{
    let ghost ls = rows(all@);
    let mut i: usize = 0;
    assert(ls.skip(0) == ls);
    while i < all.len()
        invariant
            i <= all@.len(),
            ls == rows(all@),
            i + block_end(ls.skip(i as int)) == block_end(ls),
        decreases all@.len() - i,
    {
        assert(ls.skip(i as int)[0] == all@[i as int]@);
        if starts_with(all[i].as_slice(), "## ") {
            return i;
        }
        assert(ls.skip(i as int).skip(1) == ls.skip(i + 1));
        i += 1;
    }
    i
}

fn find_first(all: &Vec<Vec<char>>, end: usize, prefix: &str) -> (r: Option<String>)
    requires
        end <= all@.len(),
    ensures
        text_opt(r) == first_after(rows(all@).take(end as int), prefix@),
{
    let ghost ls = rows(all@).take(end as int);
    let mut i: usize = 0;
    assert(ls.skip(0) == ls);
    while i < end
        invariant
            i <= end <= all@.len(),
            ls == rows(all@).take(end as int),
            first_after(ls.skip(i as int), prefix@) == first_after(ls, prefix@),
        decreases end - i,
    {
        assert(ls.skip(i as int)[0] == all@[i as int]@);
        if let Some(value) = strip(all[i].as_slice(), prefix) {
            return Some(string_of(trim(value)));
        }
        assert(ls.skip(i as int).skip(1) == ls.skip(i + 1));
        i += 1;
    }
    None
}

fn find_last(all: &Vec<Vec<char>>, end: usize, prefix: &str) -> (r: Option<String>)
    requires
        end <= all@.len(),
    ensures
        text_opt(r) == last_after(rows(all@).take(end as int), prefix@),
{
    let ghost ls = rows(all@);
    let mut n: usize = end;
    while n > 0
        invariant
            n <= end <= all@.len(),
            ls == rows(all@),
            last_after(ls.take(n as int), prefix@) == last_after(ls.take(end as int), prefix@),
        decreases n,
    {
        assert(ls.take(n as int).last() == all@[n - 1]@);
        if let Some(value) = strip(all[n - 1].as_slice(), prefix) {
            return Some(string_of(trim(value)));
        }
        assert(ls.take(n as int).drop_last() == ls.take(n - 1));
        n -= 1;
    }
    None
}

fn is_list_start(line: &[char]) -> (r: bool)
    ensures
        r == opens_list(line@),
{
    match strip(line, "- ") {
        Some(value) => same(trim_end(value), chars_of("depends_on:").as_slice()),
        None => false,
    }
}

fn collect_dependencies(all: &Vec<Vec<char>>, end: usize) -> (r: Vec<String>)
    requires
        end <= all@.len(),
    ensures
        texts(r@) == dependencies(rows(all@).take(end as int)),
{
    let ghost ls = rows(all@);
    let mut out: Vec<String> = Vec::new();
    let mut open = false;
    let mut i: usize = 0;
    assert(texts(out@) == dependencies(ls.take(0)));
    while i < end
        invariant
            i <= end <= all@.len(),
            ls == rows(all@),
            open == in_list(ls.take(i as int)),
            texts(out@) == dependencies(ls.take(i as int)),
        decreases end - i,
    {
        let line = all[i].as_slice();
        let ghost now = ls.take(i + 1);
        assert(now.last() == line@);
        assert(now.drop_last() == ls.take(i as int));
        if !starts_with(line, "# ") {
            let entry = strip(line, "  - ");
            if open && entry.is_some() {
                let entry = string_of(trim(entry.unwrap()));
                let ghost before = out@;
                out.push(dep_id8(entry.as_str()));
                assert(texts(out@) == texts(before).push(out@.last()@));
            } else {
                open = is_list_start(line);
            }
        }
        i += 1;
    }
    out
}

/// The views of sections whose text is still being gathered.
spec fn gathered(v: Seq<(String, Vec<char>)>) -> Seq<(Seq<char>, Seq<char>)> {
    v.map_values(|s: (String, Vec<char>)| (s.0@, s.1@))
}

spec fn joined_sections(
    raw: Seq<(Seq<char>, Seq<Seq<char>>)>,
) -> Seq<(Seq<char>, Seq<char>)> {
    raw.map_values(|s: (Seq<char>, Seq<Seq<char>>)| (s.0, joined(s.1)))
}

fn gather_sections(all: &Vec<Vec<char>>) -> (r: Vec<(String, Vec<char>)>)
    ensures
        gathered(r@) == joined_sections(raw_sections(rows(all@))),
{
    let ghost ls = rows(all@);
    let mut out: Vec<(String, Vec<char>)> = Vec::new();
    // Whether the last section has no line yet.
    let mut fresh = true;
    let mut i: usize = 0;
    assert(gathered(out@) == joined_sections(raw_sections(ls.take(0))));
    while i < all.len()
        invariant
            i <= all@.len(),
            ls == rows(all@),
            gathered(out@) == joined_sections(raw_sections(ls.take(i as int))),
            out@.len() > 0 ==> fresh == (raw_sections(ls.take(i as int)).last().1.len() == 0),
        decreases all@.len() - i,
    {
        let line = all[i].as_slice();
        let ghost now = ls.take(i + 1);
        let ghost raw = raw_sections(ls.take(i as int));
        let ghost before = out@;
        assert(now.last() == line@);
        assert(now.drop_last() == ls.take(i as int));
        assert(gathered(before).len() == raw.len());
        if let Some(heading) = strip(line, "## ") {
            out.push((string_of(trim(heading)), Vec::new()));
            fresh = true;
            assert(out@.last().1@ =~= joined(Seq::empty()));
            proof {
                let target = joined_sections(raw_sections(now));
                assert forall|j: int| 0 <= j < out@.len() implies gathered(out@)[j] == target[j] by {
                    if j < out@.len() - 1 {
                        assert(gathered(out@)[j] == gathered(before)[j]);
                        assert(target[j] == joined_sections(raw)[j]);
                    }
                }
                assert(gathered(out@) =~= target);
            }
        } else if out.len() > 0 {
            let (heading, mut body) = out.pop().unwrap();
            let ghost under = raw.last().1;
            assert(gathered(before).last() == joined_sections(raw).last());
            assert(body@ == joined(under));
            assert(under.push(line@).drop_last() == under);
            if !fresh {
                body.push('\n');
            }
            let ghost start = body@;
            let mut k: usize = 0;
            while k < line.len()
                invariant
                    k <= line@.len(),
                    body@ == start + line@.take(k as int),
                decreases line@.len() - k,
            {
                body.push(line[k]);
                assert(line@.take(k + 1) == line@.take(k as int).push(line@[k as int]));
                k += 1;
            }
            assert(line@.take(line@.len() as int) == line@);
            assert(body@ == joined(under.push(line@)));
            out.push((heading, body));
            fresh = false;
            proof {
                let target = joined_sections(raw_sections(now));
                assert forall|j: int| 0 <= j < out@.len() implies gathered(out@)[j] == target[j] by {
                    if j < out@.len() - 1 {
                        assert(gathered(out@)[j] == gathered(before)[j]);
                        assert(target[j] == joined_sections(raw)[j]);
                    }
                }
                assert(gathered(out@) =~= target);
            }
        }
        i += 1;
    }
    assert(ls.take(all@.len() as int) == ls);
    out
}

fn collect_sections(all: &Vec<Vec<char>>) -> (r: Vec<(String, String)>)
    ensures
        section_views(r@) == sections_of(rows(all@)),
{
    let parts = gather_sections(all);
    let mut out: Vec<(String, String)> = Vec::new();
    let ghost raw = raw_sections(rows(all@));
    let mut i: usize = 0;
    assert(gathered(parts@).len() == raw.len());
    while i < parts.len()
        invariant
            i <= parts@.len(),
            raw == raw_sections(rows(all@)),
            gathered(parts@) == joined_sections(raw),
            parts@.len() == raw.len(),
            section_views(out@) == sections_of(rows(all@)).take(i as int),
        decreases parts@.len() - i,
    {
        assert(gathered(parts@)[i as int] == joined_sections(raw)[i as int]);
        let ghost before = out@;
        out.push((parts[i].0.clone(), string_of(trim(parts[i].1.as_slice()))));
        assert(section_views(out@) =~= section_views(before).push(
            sections_of(rows(all@))[i as int],
        ));
        i += 1;
    }
    assert(sections_of(rows(all@)).take(raw.len() as int) == sections_of(rows(all@)));
    out
}

/// Parse one brief file's H1 subject, metadata block and body sections.
pub fn parse_brief(text: &str) -> (r: Option<ItemMeta>)
    ensures
        item_opt(r) == brief_item(text@),
{
    let chars = chars_of(text);
    let all = lines(chars.as_slice());
    let end = find_block_end(&all);
    let subject = find_first(&all, end, "# ");
    let id = find_last(&all, end, "- id: ");
    let reference = find_last(&all, end, "- ref: ");
    let status = match find_last(&all, end, "- status: ") {
        Some(name) => Status::parse(name.as_str()),
        None => None,
    };
    let updated_at = find_last(&all, end, "- updated_at: ");
    match (subject, id, reference, status) {
        (Some(subject), Some(id), Some(reference), Some(status)) => {
            let depends_on = collect_dependencies(&all, end);
            let sections = collect_sections(&all);
            Some(ItemMeta { id, subject, reference, status, updated_at, depends_on, sections })
        },
        _ => None,
    }
}

} // verus!

//! What a brief says, told by its lines: which lines make up a section, where
//! a field stands, which entries are dependencies.

use crate::brief::{
    block_end, brief_item, dep_prefix, dependencies, first_after, in_list, joined, last_after,
    opens_list, opens_section, raw_sections, sections_of,
};
use crate::digest_laws::lined_up;
use crate::status::status_named;
use crate::text::{is_space, lines_of, trimmed, without_trailing_space};
use vstd::prelude::*;

verus! {

/// Whether a line is the heading of a section.
pub open spec fn is_heading(line: Seq<char>) -> bool {
    line.len() >= 3 && line[0] == '#' && line[1] == '#' && line[2] == ' '
}

proof fn lemma_heading(line: Seq<char>)
    ensures
        opens_section(line) == is_heading(line),
        "## "@.len() == 3,
{
    reveal_strlit("## ");
    if is_heading(line) {
        assert(line.subrange(0, 3) =~= "## "@);
    }
    if opens_section(line) {
        assert(line.subrange(0, 3) == "## "@);
        assert(line.subrange(0, 3)[0] == line[0]);
        assert(line.subrange(0, 3)[1] == line[1]);
        assert(line.subrange(0, 3)[2] == line[2]);
    }
}

/// How many of the first `n` lines are headings.
pub open spec fn headings_in(lines: Seq<Seq<char>>, n: int) -> nat
    decreases n,
{
    if n <= 0 {
        0
    } else {
        headings_in(lines, n - 1) + if is_heading(lines[n - 1]) {
            1nat
        } else {
            0nat
        }
    }
}

// ---------------------------------------------------------------------
// Sections
// ---------------------------------------------------------------------

proof fn lemma_section_count(lines: Seq<Seq<char>>, n: int)
    requires
        0 <= n <= lines.len(),
    ensures
        raw_sections(lines.take(n)).len() == headings_in(lines, n),
    decreases n,
{
    if n > 0 {
        lemma_section_count(lines, n - 1);
        lemma_heading(lines[n - 1]);
        assert(lines.take(n).drop_last() =~= lines.take(n - 1));
        assert(lines.take(n).last() == lines[n - 1]);
    }
}

/// Whether a section opens at line `h` and runs up to line `e`.
pub open spec fn section_runs(lines: Seq<Seq<char>>, h: int, e: int) -> bool {
    &&& 0 <= h < e <= lines.len()
    &&& is_heading(lines[h])
    &&& forall|m: int| h < m < e ==> !is_heading(#[trigger] lines[m])
    &&& e == lines.len() || is_heading(lines[e])
}

proof fn lemma_section(lines: Seq<Seq<char>>, h: int, e: int, n: int)
    requires
        section_runs(lines, h, e),
        h < n <= lines.len(),
    ensures
        headings_in(lines, h) < raw_sections(lines.take(n)).len(),
        n <= e ==> raw_sections(lines.take(n)).len() == headings_in(lines, h) + 1,
        raw_sections(lines.take(n))[headings_in(lines, h) as int] == (
            trimmed(lines[h].skip(3)),
            lines.subrange(h + 1, if n < e { n } else { e }),
        ),
    decreases n,
{
    let k = headings_in(lines, h) as int;
    let line = lines[n - 1];
    let now = raw_sections(lines.take(n));
    let before = raw_sections(lines.take(n - 1));
    lemma_heading(line);
    assert(lines.take(n).drop_last() =~= lines.take(n - 1));
    assert(lines.take(n).last() == line);
    if n == h + 1 {
        lemma_section_count(lines, h);
        assert(lines.subrange(h + 1, h + 1) =~= Seq::<Seq<char>>::empty());
    } else {
        lemma_section(lines, h, e, n - 1);
        if n <= e {
            assert(!is_heading(lines[n - 1]));
            assert(now == before.drop_last().push((before.last().0, before.last().1.push(line))));
            assert(lines.subrange(h + 1, n) =~= lines.subrange(h + 1, n - 1).push(line));
        } else if n - 1 == e {
            assert(is_heading(line));
            assert(now[k] == before[k]);
        } else {
            lemma_section_after(lines, h, e, n - 1);
            assert(now[k] == before[k]);
        }
    }
}

proof fn lemma_section_after(lines: Seq<Seq<char>>, h: int, e: int, n: int)
    requires
        section_runs(lines, h, e),
        e < n <= lines.len(),
    ensures
        headings_in(lines, h) + 1 < raw_sections(lines.take(n)).len(),
    decreases n,
{
    lemma_section_count(lines, n);
    lemma_headings_grow(lines, h + 1, e);
    lemma_headings_grow(lines, e + 1, n);
    assert(headings_in(lines, h + 1) == headings_in(lines, h) + 1);
    assert(headings_in(lines, e + 1) == headings_in(lines, e) + 1);
}

proof fn lemma_headings_grow(lines: Seq<Seq<char>>, m: int, n: int)
    requires
        0 <= m <= n,
    ensures
        headings_in(lines, m) <= headings_in(lines, n),
    decreases n - m,
{
    if m < n {
        lemma_headings_grow(lines, m, n - 1);
    }
}

pub(crate) proof fn lemma_joined(lines: Seq<Seq<char>>)
    ensures
        joined(lines) == lined_up(lines),
    decreases lines.len(),
{
    if lines.len() > 1 {
        lemma_joined(lines.drop_last());
        crate::digest_laws::lemma_lined_up_push(lines.drop_last(), lines.last());
        assert(lines.drop_last().push(lines.last()) =~= lines);
    }
}

/// No line of a section is lost: a section that opens at line `h` and runs up
/// to line `e` has the heading's text as its name, and as its body all lines
/// between, with line feeds between them and without the whitespace around
/// them. It stands among the sections in the place of its heading among the
/// headings.
pub proof fn law_section_is_its_lines(text: Seq<char>, h: int, e: int)
    requires
        section_runs(lines_of(text), h, e),
        brief_item(text) is Some,
    ensures
        ({
            let lines = lines_of(text);
            let sections = brief_item(text)->0.sections;
            let k = headings_in(lines, h) as int;
            &&& sections.len() == headings_in(lines, lines.len() as int)
            &&& k < sections.len()
            &&& sections[k] == (
                trimmed(lines[h].skip(3)),
                trimmed(lined_up(lines.subrange(h + 1, e))),
            )
        }),
{
    let lines = lines_of(text);
    let n = lines.len() as int;
    assert(lines.take(n) =~= lines);
    lemma_section_count(lines, n);
    lemma_section(lines, h, e, n);
    lemma_joined(lines.subrange(h + 1, e));
}

/// A brief without headings has no sections.
pub proof fn law_no_heading_no_section(text: Seq<char>)
    requires
        forall|m: int| 0 <= m < lines_of(text).len() ==> !is_heading(#[trigger] lines_of(text)[m]),
        brief_item(text) is Some,
    ensures
        brief_item(text)->0.sections.len() == 0,
{
    let lines = lines_of(text);
    let n = lines.len() as int;
    assert(lines.take(n) =~= lines);
    lemma_section_count(lines, n);
    lemma_no_headings(lines, n);
}

proof fn lemma_no_headings(lines: Seq<Seq<char>>, n: int)
    requires
        0 <= n <= lines.len(),
        forall|m: int| 0 <= m < lines.len() ==> !is_heading(#[trigger] lines[m]),
    ensures
        headings_in(lines, n) == 0,
    decreases n,
{
    if n > 0 {
        lemma_no_headings(lines, n - 1);
        assert(!is_heading(lines[n - 1]));
    }
}

// ---------------------------------------------------------------------
// Fields
// ---------------------------------------------------------------------

/// Whether the metadata block ends before line `b`, the first heading.
pub open spec fn block_runs(lines: Seq<Seq<char>>, b: int) -> bool {
    &&& 0 <= b <= lines.len()
    &&& forall|m: int| 0 <= m < b ==> !is_heading(#[trigger] lines[m])
    &&& b == lines.len() || is_heading(lines[b])
}

/// Whether line `p` is the first before `b` that starts with `prefix`.
pub open spec fn first_line(lines: Seq<Seq<char>>, b: int, prefix: Seq<char>, p: int) -> bool {
    &&& 0 <= p < b
    &&& prefix.is_prefix_of(lines[p])
    &&& forall|m: int| 0 <= m < p ==> !prefix.is_prefix_of(#[trigger] lines[m])
}

/// Whether line `p` is the last before `b` that starts with `prefix`.
pub open spec fn last_line(lines: Seq<Seq<char>>, b: int, prefix: Seq<char>, p: int) -> bool {
    &&& 0 <= p < b
    &&& prefix.is_prefix_of(lines[p])
    &&& forall|m: int| p < m < b ==> !prefix.is_prefix_of(#[trigger] lines[m])
}

/// Whether no line before `b` starts with `prefix`.
pub open spec fn no_line(lines: Seq<Seq<char>>, b: int, prefix: Seq<char>) -> bool {
    forall|m: int| 0 <= m < b ==> !prefix.is_prefix_of(#[trigger] lines[m])
}

proof fn lemma_block(lines: Seq<Seq<char>>, b: int)
    requires
        block_runs(lines, b),
    ensures
        block_end(lines) == b,
    decreases lines.len(),
{
    if lines.len() > 0 {
        lemma_heading(lines[0]);
        if b > 0 {
            assert(!is_heading(lines[0]));
            let rest = lines.skip(1);
            assert forall|m: int| 0 <= m < b - 1 implies !is_heading(#[trigger] rest[m]) by {
                assert(rest[m] == lines[m + 1]);
            }
            lemma_block(rest, b - 1);
        }
    }
}

proof fn lemma_first(lines: Seq<Seq<char>>, b: int, prefix: Seq<char>, p: int)
    requires
        b <= lines.len(),
        first_line(lines, b, prefix, p),
    ensures
        first_after(lines.take(b), prefix) == Some(trimmed(lines[p].skip(prefix.len() as int))),
    decreases p,
{
    let block = lines.take(b);
    assert(block[0] == lines[0]);
    if p > 0 {
        assert(!prefix.is_prefix_of(lines[0]));
        let rest = lines.skip(1);
        assert forall|m: int| 0 <= m < p - 1 implies !prefix.is_prefix_of(#[trigger] rest[m]) by {
            assert(rest[m] == lines[m + 1]);
        }
        lemma_first(rest, b - 1, prefix, p - 1);
        assert(block.skip(1) =~= rest.take(b - 1));
    }
}

proof fn lemma_none_first(lines: Seq<Seq<char>>, b: int, prefix: Seq<char>)
    requires
        0 <= b <= lines.len(),
        no_line(lines, b, prefix),
    ensures
        first_after(lines.take(b), prefix) is None,
    decreases b,
{
    let block = lines.take(b);
    if b > 0 {
        assert(block[0] == lines[0]);
        assert(!prefix.is_prefix_of(lines[0]));
        let rest = lines.skip(1);
        assert forall|m: int| 0 <= m < b - 1 implies !prefix.is_prefix_of(#[trigger] rest[m]) by {
            assert(rest[m] == lines[m + 1]);
        }
        lemma_none_first(rest, b - 1, prefix);
        assert(block.skip(1) =~= rest.take(b - 1));
    }
}

proof fn lemma_last(lines: Seq<Seq<char>>, b: int, prefix: Seq<char>, p: int)
    requires
        b <= lines.len(),
        last_line(lines, b, prefix, p),
    ensures
        last_after(lines.take(b), prefix) == Some(trimmed(lines[p].skip(prefix.len() as int))),
    decreases b,
{
    let block = lines.take(b);
    assert(block.last() == lines[b - 1]);
    if p < b - 1 {
        assert(!prefix.is_prefix_of(lines[b - 1]));
        lemma_last(lines, b - 1, prefix, p);
        assert(block.drop_last() =~= lines.take(b - 1));
    }
}

proof fn lemma_none_last(lines: Seq<Seq<char>>, b: int, prefix: Seq<char>)
    requires
        0 <= b <= lines.len(),
        no_line(lines, b, prefix),
    ensures
        last_after(lines.take(b), prefix) is None,
    decreases b,
{
    let block = lines.take(b);
    if b > 0 {
        assert(block.last() == lines[b - 1]);
        assert(!prefix.is_prefix_of(lines[b - 1]));
        lemma_none_last(lines, b - 1, prefix);
        assert(block.drop_last() =~= lines.take(b - 1));
    }
}

/// The fields stand where they are written: before the first section, the
/// subject on the first line that starts with "# ", and id, ref and status
/// each on the last line that starts with its name. With these, and a status
/// of the vocabulary, a brief describes an item.
pub proof fn law_fields_are_read(text: Seq<char>, b: int, s: int, i: int, r: int, t: int)
    requires
        block_runs(lines_of(text), b),
        first_line(lines_of(text), b, "# "@, s),
        last_line(lines_of(text), b, "- id: "@, i),
        last_line(lines_of(text), b, "- ref: "@, r),
        last_line(lines_of(text), b, "- status: "@, t),
    ensures
        ({
            let lines = lines_of(text);
            let status = status_named(trimmed(lines[t].skip(10)));
            &&& brief_item(text) is Some == status is Some
            &&& brief_item(text) is Some ==> {
                let item = brief_item(text)->0;
                &&& item.subject == trimmed(lines[s].skip(2))
                &&& item.id == trimmed(lines[i].skip(6))
                &&& item.reference == trimmed(lines[r].skip(7))
                &&& Some(item.status) == status
            }
        }),
{
    let lines = lines_of(text);
    lemma_block(lines, b);
    lemma_first(lines, b, "# "@, s);
    lemma_last(lines, b, "- id: "@, i);
    lemma_last(lines, b, "- ref: "@, r);
    lemma_last(lines, b, "- status: "@, t);
    reveal_strlit("# ");
    reveal_strlit("- id: ");
    reveal_strlit("- ref: ");
    reveal_strlit("- status: ");
}

/// A brief that lacks its subject, id, ref or status before the first section
/// describes no item.
pub proof fn law_missing_field_is_refused(text: Seq<char>, b: int)
    requires
        block_runs(lines_of(text), b),
        no_line(lines_of(text), b, "# "@) || no_line(lines_of(text), b, "- id: "@) || no_line(
            lines_of(text),
            b,
            "- ref: "@,
        ) || no_line(lines_of(text), b, "- status: "@),
    ensures
        brief_item(text) is None,
{
    let lines = lines_of(text);
    lemma_block(lines, b);
    if no_line(lines, b, "# "@) {
        lemma_none_first(lines, b, "# "@);
    } else if no_line(lines, b, "- id: "@) {
        lemma_none_last(lines, b, "- id: "@);
    } else if no_line(lines, b, "- ref: "@) {
        lemma_none_last(lines, b, "- ref: "@);
    } else {
        lemma_none_last(lines, b, "- status: "@);
    }
}

/// The time of the last update is what the last line that names it says, and
/// unknown where none does.
pub proof fn law_update_time_is_read(text: Seq<char>, b: int, p: int)
    requires
        block_runs(lines_of(text), b),
        brief_item(text) is Some,
    ensures
        last_line(lines_of(text), b, "- updated_at: "@, p) ==> brief_item(text)->0.updated_at
            == Some(trimmed(lines_of(text)[p].skip(14))),
        no_line(lines_of(text), b, "- updated_at: "@) ==> brief_item(text)->0.updated_at is None,
{
    let lines = lines_of(text);
    lemma_block(lines, b);
    reveal_strlit("- updated_at: ");
    if last_line(lines, b, "- updated_at: "@, p) {
        lemma_last(lines, b, "- updated_at: "@, p);
    }
    if no_line(lines, b, "- updated_at: "@) {
        lemma_none_last(lines, b, "- updated_at: "@);
    }
}

// ---------------------------------------------------------------------
// Dependencies
// ---------------------------------------------------------------------

/// Whether a line opens the list of dependencies: it says "- depends_on:" and
/// no more than whitespace after it.
pub open spec fn starts_list(line: Seq<char>) -> bool {
    &&& "- depends_on:"@.is_prefix_of(line)
    &&& forall|m: int| 13 <= m < line.len() ==> is_space(#[trigger] line[m])
}

/// Whether a line is an entry of a list within the block.
pub open spec fn is_entry(line: Seq<char>) -> bool {
    line.len() >= 4 && line[0] == ' ' && line[1] == ' ' && line[2] == '-' && line[3] == ' '
}

/// The first eight characters of a text, or all of it when it is shorter.
pub open spec fn first_eight(s: Seq<char>) -> Seq<char> {
    if s.len() <= 8 {
        s
    } else {
        s.take(8)
    }
}

proof fn lemma_entry(line: Seq<char>)
    ensures
        "  - "@.is_prefix_of(line) == is_entry(line),
        "  - "@.len() == 4,
{
    reveal_strlit("  - ");
    if is_entry(line) {
        assert(line.subrange(0, 4) =~= "  - "@);
    }
    if "  - "@.is_prefix_of(line) {
        assert(line.subrange(0, 4) == "  - "@);
        assert(line.subrange(0, 4)[0] == line[0]);
        assert(line.subrange(0, 4)[1] == line[1]);
        assert(line.subrange(0, 4)[2] == line[2]);
        assert(line.subrange(0, 4)[3] == line[3]);
    }
}

proof fn lemma_starts_list(line: Seq<char>)
    ensures
        opens_list(line) == starts_list(line),
        starts_list(line) ==> !"# "@.is_prefix_of(line) && !is_entry(line),
{
    reveal_strlit("- ");
    reveal_strlit("# ");
    reveal_strlit("depends_on:");
    reveal_strlit("- depends_on:");
    let name = "depends_on:"@;
    let whole = "- depends_on:"@;
    if starts_list(line) {
        assert(line.subrange(0, 13) == whole);
        assert(line.subrange(0, 13)[0] == '-' && line.subrange(0, 13)[1] == ' ');
        assert(line.subrange(0, 2) =~= "- "@);
        let rest = line.skip(2);
        assert(rest.take(11) =~= name) by {
            assert forall|m: int| 0 <= m < 11 implies rest.take(11)[m] == name[m] by {
                assert(line.subrange(0, 13)[m + 2] == whole[m + 2]);
            }
        }
        assert(rest[10] == ':') by {
            assert(rest.take(11)[10] == name[10]);
        }
        assert forall|m: int| 11 <= m < rest.len() implies is_space(#[trigger] rest[m]) by {
            assert(rest[m] == line[m + 2]);
        }
        crate::ask_laws::lemma_trailing(rest, 11);
        if "# "@.is_prefix_of(line) {
            assert(line.subrange(0, 2)[0] == '#');
        }
    }
    if opens_list(line) {
        let rest = line.skip(2);
        assert(line.subrange(0, 2)[0] == '-' && line.subrange(0, 2)[1] == ' ');
        lemma_trailing_spaces(rest);
        let kept = without_trailing_space(rest);
        assert(kept == name);
        assert(line.subrange(0, 13) =~= whole) by {
            assert forall|m: int| 0 <= m < 13 implies line.subrange(0, 13)[m] == whole[m] by {
                if m >= 2 {
                    assert(kept[m - 2] == rest[m - 2]);
                    assert(name[m - 2] == whole[m]);
                }
            }
        }
        assert forall|m: int| 13 <= m < line.len() implies is_space(#[trigger] line[m]) by {
            assert(rest[m - 2] == line[m]);
        }
    }
}

proof fn lemma_trailing_spaces(s: Seq<char>)
    ensures
        without_trailing_space(s).len() <= s.len(),
        forall|m: int|
            0 <= m < without_trailing_space(s).len() ==> #[trigger] without_trailing_space(s)[m]
                == s[m],
        forall|m: int|
            without_trailing_space(s).len() <= m < s.len() ==> is_space(#[trigger] s[m]),
    decreases s.len(),
{
    if s.len() > 0 && is_space(s.last()) {
        lemma_trailing_spaces(s.drop_last());
        assert forall|m: int| without_trailing_space(s).len() <= m < s.len() implies is_space(
            #[trigger] s[m],
        ) by {
            if m < s.len() - 1 {
                assert(s.drop_last()[m] == s[m]);
            }
        }
    }
}

proof fn lemma_no_list(lines: Seq<Seq<char>>, n: int)
    requires
        0 <= n <= lines.len(),
        forall|m: int| 0 <= m < n ==> !starts_list(#[trigger] lines[m]),
    ensures
        !in_list(lines.take(n)),
        dependencies(lines.take(n)) == Seq::<Seq<char>>::empty(),
    decreases n,
{
    if n > 0 {
        lemma_no_list(lines, n - 1);
        assert(lines.take(n).drop_last() =~= lines.take(n - 1));
        assert(lines.take(n).last() == lines[n - 1]);
        lemma_starts_list(lines[n - 1]);
        assert(!starts_list(lines[n - 1]));
    }
}

/// Whether the dependency list opens at line `o` and its entries run up to
/// line `z`, in a block that ends before line `b` and opens no other list.
pub open spec fn list_runs(lines: Seq<Seq<char>>, o: int, z: int, b: int) -> bool {
    &&& 0 <= o < z <= b <= lines.len()
    &&& starts_list(lines[o])
    &&& forall|m: int| o < m < z ==> is_entry(#[trigger] lines[m])
    &&& z < b ==> !is_entry(lines[z]) && !"# "@.is_prefix_of(lines[z])
    &&& forall|m: int| 0 <= m < b && m != o ==> !starts_list(#[trigger] lines[m])
}

/// The short ids that the entries between lines `o` and `n` name.
pub open spec fn entries_of(lines: Seq<Seq<char>>, o: int, n: int) -> Seq<Seq<char>> {
    Seq::new(
        (n - o - 1) as nat,
        |m: int| first_eight(trimmed(lines[o + 1 + m].skip(4))),
    )
}

proof fn lemma_list(lines: Seq<Seq<char>>, o: int, z: int, b: int, n: int)
    requires
        list_runs(lines, o, z, b),
        o < n <= b,
    ensures
        in_list(lines.take(n)) == (n <= z),
        dependencies(lines.take(n)) == entries_of(lines, o, if n < z { n } else { z }),
    decreases n,
{
    let line = lines[n - 1];
    assert(lines.take(n).drop_last() =~= lines.take(n - 1));
    assert(lines.take(n).last() == line);
    lemma_starts_list(line);
    lemma_entry(line);
    if n == o + 1 {
        lemma_no_list(lines, o);
        assert(entries_of(lines, o, n) =~= Seq::<Seq<char>>::empty());
        assert(dependencies(lines.take(n)) =~= entries_of(lines, o, n));
    } else {
        lemma_list(lines, o, z, b, n - 1);
        if n <= z {
            assert(is_entry(line));
            reveal_strlit("# ");
            if "# "@.is_prefix_of(line) {
                assert(line.subrange(0, 2)[0] == '#');
                assert(line[0] == '#');
            }
            let said = trimmed(line.skip(4));
            assert(said.take(said.len() as int) =~= said);
            assert(crate::brief::dep_prefix(said) == first_eight(said));
            assert(dependencies(lines.take(n)) == entries_of(lines, o, n - 1).push(
                first_eight(said),
            ));
            assert(entries_of(lines, o, n - 1).push(first_eight(said)) =~= entries_of(lines, o, n));
        } else {
            assert(!starts_list(line));
        }
    }
}

/// The dependencies are the entries of the list, all of them and in order:
/// each by the first eight characters of what it says.
pub proof fn law_dependencies_are_the_entries(text: Seq<char>, b: int, o: int, z: int)
    requires
        brief_item(text) is Some,
        block_runs(lines_of(text), b),
        list_runs(lines_of(text), o, z, b),
    ensures
        brief_item(text)->0.depends_on == entries_of(lines_of(text), o, z),
{
    let lines = lines_of(text);
    lemma_block(lines, b);
    lemma_list(lines, o, z, b, b);
}

/// A brief whose block opens no list has no dependencies.
pub proof fn law_no_list_no_dependencies(text: Seq<char>, b: int)
    requires
        brief_item(text) is Some,
        block_runs(lines_of(text), b),
        forall|m: int| 0 <= m < b ==> !starts_list(#[trigger] lines_of(text)[m]),
    ensures
        brief_item(text)->0.depends_on.len() == 0,
{
    let lines = lines_of(text);
    lemma_block(lines, b);
    lemma_no_list(lines, b);
}

/// Whether a list is open before line `n`: one was opened, and since then only
/// entries and subject lines came.
pub open spec fn list_is_open(lines: Seq<Seq<char>>, n: int) -> bool {
    exists|o: int|
        0 <= o < n && starts_list(#[trigger] lines[o]) && forall|m: int|
            o < m < n ==> is_entry(#[trigger] lines[m]) || "# "@.is_prefix_of(lines[m])
}

/// How many of the first `n` lines are entries of an open list.
pub open spec fn entries_in(lines: Seq<Seq<char>>, n: int) -> nat
    decreases n,
{
    if n <= 0 {
        0
    } else {
        entries_in(lines, n - 1) + if is_entry(lines[n - 1]) && list_is_open(lines, n - 1) {
            1nat
        } else {
            0nat
        }
    }
}

proof fn lemma_kinds(line: Seq<char>)
    ensures
        starts_list(line) ==> !is_entry(line) && !"# "@.is_prefix_of(line),
        is_entry(line) ==> !"# "@.is_prefix_of(line),
{
    reveal_strlit("- depends_on:");
    reveal_strlit("# ");
    if starts_list(line) {
        assert(line.subrange(0, 13) == "- depends_on:"@);
        assert(line.subrange(0, 13)[0] == line[0]);
    }
    if "# "@.is_prefix_of(line) {
        assert(line.subrange(0, 2) == "# "@);
        assert(line.subrange(0, 2)[0] == line[0]);
    }
}

proof fn lemma_list_is_open(lines: Seq<Seq<char>>, n: int)
    requires
        0 <= n <= lines.len(),
    ensures
        in_list(lines.take(n)) == list_is_open(lines, n),
    decreases n,
{
    if n > 0 {
        let line = lines[n - 1];
        lemma_list_is_open(lines, n - 1);
        assert(lines.take(n).drop_last() =~= lines.take(n - 1));
        assert(lines.take(n).last() == line);
        lemma_starts_list(line);
        lemma_entry(line);
        lemma_kinds(line);
        if list_is_open(lines, n) {
            let o = choose|o: int|
                0 <= o < n && starts_list(#[trigger] lines[o]) && forall|m: int|
                    o < m < n ==> is_entry(#[trigger] lines[m]) || "# "@.is_prefix_of(lines[m]);
            if o < n - 1 {
                assert(is_entry(lines[n - 1]) || "# "@.is_prefix_of(lines[n - 1]));
                assert(list_is_open(lines, n - 1));
            }
        }
        if list_is_open(lines, n - 1) && (is_entry(line) || "# "@.is_prefix_of(line)) {
            let o = choose|o: int|
                0 <= o < n - 1 && starts_list(#[trigger] lines[o]) && forall|m: int|
                    o < m < n - 1 ==> is_entry(#[trigger] lines[m]) || "# "@.is_prefix_of(
                        lines[m],
                    );
            assert(starts_list(lines[o]));
            assert(list_is_open(lines, n));
        }
        if starts_list(line) {
            assert(starts_list(lines[n - 1]));
            assert(list_is_open(lines, n));
        }
    }
}

proof fn lemma_entries(lines: Seq<Seq<char>>, m: int, n: int)
    requires
        0 <= n <= lines.len(),
    ensures
        dependencies(lines.take(n)).len() == entries_in(lines, n),
        0 <= m < n && is_entry(lines[m]) && list_is_open(lines, m) ==> entries_in(lines, m)
            < entries_in(lines, n) && dependencies(lines.take(n))[entries_in(lines, m) as int]
            == first_eight(trimmed(lines[m].skip(4))),
    decreases n,
{
    if n > 0 {
        let line = lines[n - 1];
        lemma_entries(lines, m, n - 1);
        assert(lines.take(n).drop_last() =~= lines.take(n - 1));
        assert(lines.take(n).last() == line);
        lemma_list_is_open(lines, n - 1);
        lemma_entry(line);
        lemma_kinds(line);
        assert(dep_prefix(trimmed(line.skip(4))) =~= first_eight(trimmed(line.skip(4))));
    }
}

/// Every entry of a list counts, whichever list of the block it stands in: a
/// line is an entry while a list is open, and the dependencies are the entries
/// in order, each by the first eight characters of what it says.
pub proof fn law_every_entry_is_a_dependency(text: Seq<char>, b: int, m: int)
    requires
        brief_item(text) is Some,
        block_runs(lines_of(text), b),
    ensures
        ({
            let lines = lines_of(text);
            let deps = brief_item(text)->0.depends_on;
            &&& deps.len() == entries_in(lines, b)
            &&& 0 <= m < b && is_entry(lines[m]) && list_is_open(lines, m) ==> entries_in(lines, m)
                < deps.len() && deps[entries_in(lines, m) as int] == first_eight(
                trimmed(lines[m].skip(4)),
            )
        }),
{
    let lines = lines_of(text);
    lemma_block(lines, b);
    lemma_entries(lines, m, b);
}

} // verus!

//! The detail panel: what it shows of the focused item, and how its notes
//! field follows the focus and saves.

use crate::log::blank;
use crate::map_edit::counted_text;
use crate::model::{find_section, has_id8, id8_of, section_body, section_views, ItemMeta, ItemView};
use crate::status::Status;
use crate::text::{
    chars_of, decimal, find_from, first_of, join, lines, lines_of, lowered, rest, rows,
    same_ignoring_case, same_text, string_of, text_opt, texts, trim, trimmed,
};
use vstd::prelude::*;

verus! {

// ---------------------------------------------------------------------
// References
// ---------------------------------------------------------------------

/// The parts of a path between slashes.
pub open spec fn parts_of(path: Seq<char>) -> Seq<Seq<char>>
    decreases path.len(),
{
    let n = first_of(path, '/') as int;
    if n >= path.len() {
        seq![path]
    } else {
        seq![path.take(n)] + parts_of(path.skip(n + 1))
    }
}

/// A path with its middle elided: the first and the last part stay.
pub open spec fn elided(path: Seq<char>) -> Seq<char> {
    let parts = parts_of(path);
    if parts.len() <= 2 {
        path
    } else {
        parts[0] + "/\u{2026}/"@ + parts.last()
    }
}

fn split_path(path: &[char]) -> (r: Vec<Vec<char>>)
    ensures
        rows(r@) == parts_of(path@),
        r@.len() > 0,
{
    let mut out: Vec<Vec<char>> = Vec::new();
    let mut start: usize = 0;
    assert(path@.skip(0) =~= path@);
    assert(rows(out@) + parts_of(path@) =~= parts_of(path@));
    loop
        invariant
            start <= path@.len(),
            rows(out@) + parts_of(path@.skip(start as int)) == parts_of(path@),
        decreases path@.len() - start,
    {
        let end = find_from(path, '/', start);
        let ghost tail = path@.skip(start as int);
        let ghost before = out@;
        let part = crate::text::owned(vstd::slice::slice_subrange(path, start, end));
        out.push(part);
        assert(rows(out@) =~= rows(before).push(part@));
        if end >= path.len() {
            assert(part@ =~= tail);
            assert(rows(out@) =~= rows(before) + seq![tail]);
            return out;
        }
        proof {
            let n = (end - start) as int;
            assert(part@ =~= tail.take(n));
            assert(tail.skip(n + 1) =~= path@.skip(end + 1));
            assert(rows(out@) + parts_of(path@.skip(end + 1)) =~= rows(before) + (seq![
                tail.take(n),
            ] + parts_of(path@.skip(end + 1))));
        }
        start = end + 1;
    }
}

/// Elide the middle of a path so a long `ref` fits on one line
/// (`a/b/c/d.md` -> `a/…/d.md`).
pub fn shorten_reference(reference: &str) -> (r: String)
    ensures
        r@ == elided(reference@),
{
    let chars = chars_of(reference);
    let parts = split_path(chars.as_slice());
    if parts.len() <= 2 {
        return reference.to_owned();
    }
    let first = string_of(parts[0].as_slice());
    let last = string_of(parts[parts.len() - 1].as_slice());
    let start = join(first.as_str(), "/\u{2026}/");
    join(start.as_str(), last.as_str())
}

// ---------------------------------------------------------------------
// Sections
// ---------------------------------------------------------------------

/// The body of a section that holds more than whitespace.
pub open spec fn filled_section(
    sections: Seq<(Seq<char>, Seq<char>)>,
    name: Seq<char>,
) -> Option<Seq<char>> {
    match section_body(sections, name) {
        Some(body) => if blank(body) {
            None
        } else {
            Some(body)
        },
        None => None,
    }
}

/// The lines that are not blank.
pub open spec fn filled_lines(lines: Seq<Seq<char>>) -> Seq<Seq<char>> {
    crate::log::filled(lines)
}

/// A text without the list markers at its start.
pub open spec fn without_bullets(s: Seq<char>) -> Seq<char>
    decreases s.len(),
{
    if s.len() >= 2 && s[0] == '-' && s[1] == ' ' {
        without_bullets(s.skip(2))
    } else {
        s
    }
}

/// The hazards that lines list: each without whitespace around it and without
/// list markers, unless nothing is left.
pub open spec fn hazards_on(lines: Seq<Seq<char>>) -> Seq<Seq<char>>
    decreases lines.len(),
{
    if lines.len() == 0 {
        Seq::empty()
    } else {
        let before = hazards_on(lines.drop_last());
        let hazard = without_bullets(trimmed(lines.last()));
        if hazard.len() == 0 {
            before
        } else {
            before.push(hazard)
        }
    }
}

/// Whether a section has a place of its own in the panel.
pub open spec fn has_own_place(heading: Seq<char>) -> bool {
    let name = lowered(heading);
    name == lowered("next"@) || name == lowered("context"@) || name == lowered("hazards"@) || name
        == lowered("notes"@)
}

/// The sections without a place of their own: each heading with its lines.
pub open spec fn other_sections(sections: Seq<(Seq<char>, Seq<char>)>) -> Seq<
    (Seq<char>, Seq<Seq<char>>),
>
    decreases sections.len(),
{
    if sections.len() == 0 {
        Seq::empty()
    } else {
        let before = other_sections(sections.drop_last());
        let (heading, body) = sections.last();
        if has_own_place(heading) {
            before
        } else {
            before.push((heading, lines_of(body)))
        }
    }
}

/// What the panel shows of an item.
#[derive(Debug)]
pub struct DetailContent {
    pub id: String,
    pub id8: String,
    pub subject: String,
    pub status: Status,
    /// The Next callout.
    pub next: String,
    /// The item's `ref`, and its short form.
    pub reference: String,
    pub short_reference: String,
    /// The lines of the Context section that are not blank.
    pub context: Vec<String>,
    /// The sections without a place of their own, in file order, with their
    /// lines.
    pub sections: Vec<(String, Vec<String>)>,
    /// The hazards; none when nothing is recorded.
    pub hazards: Vec<String>,
    /// The dependency count.
    pub footer: String,
}

pub open spec fn lined_views(v: Seq<(String, Vec<String>)>) -> Seq<(Seq<char>, Seq<Seq<char>>)> {
    v.map_values(|s: (String, Vec<String>)| (s.0@, texts(s.1@)))
}

/// The dependency count in words.
pub open spec fn dependency_text(count: nat) -> Seq<char> {
    decimal(count) + " "@ + if count == 1 {
        "dependency"@
    } else {
        "dependencies"@
    }
}

/// Whether the content is that of an item.
pub open spec fn shows_item(content: DetailContent, item: ItemView) -> bool {
    &&& content.id@ == item.id
    &&& content.id8@ == id8_of(item.id)
    &&& content.subject@ == item.subject
    &&& content.status == item.status
    &&& content.next@ == (match filled_section(item.sections, "Next"@) {
        Some(body) => body,
        None => "No next step recorded."@,
    })
    &&& content.reference@ == item.reference
    &&& content.short_reference@ == elided(item.reference)
    &&& texts(content.context@) == (match filled_section(item.sections, "Context"@) {
        Some(body) => filled_lines(lines_of(body)),
        None => Seq::empty(),
    })
    &&& lined_views(content.sections@) == other_sections(item.sections)
    &&& texts(content.hazards@) == (match filled_section(item.sections, "Hazards"@) {
        Some(body) => hazards_on(lines_of(body)),
        None => Seq::empty(),
    })
    &&& content.footer@ == dependency_text(item.depends_on.len())
}

fn find_filled(sections: &Vec<(String, String)>, name: &str) -> (r: Option<String>)
    ensures
        text_opt(r) == filled_section(section_views(sections@), name@),
{
    let p = find_section(sections, name);
    if p >= sections.len() {
        return None;
    }
    assert(section_views(sections@)[p as int].1 == sections@[p as int].1@);
    let chars = chars_of(sections[p].1.as_str());
    if trim(chars.as_slice()).len() == 0 {
        None
    } else {
        Some(sections[p].1.clone())
    }
}

fn text_lines(body: &str) -> (r: Vec<String>)
    ensures
        texts(r@) == lines_of(body@),
{
    let chars = chars_of(body);
    let all = lines(chars.as_slice());
    let mut out: Vec<String> = Vec::new();
    let mut i: usize = 0;
    while i < all.len()
        invariant
            i <= all@.len(),
            texts(out@) == rows(all@).take(i as int),
        decreases all@.len() - i,
    {
        let ghost before = out@;
        out.push(string_of(all[i].as_slice()));
        assert(texts(out@) =~= texts(before).push(all@[i as int]@));
        assert(rows(all@).take(i + 1) =~= rows(all@).take(i as int).push(all@[i as int]@));
        i += 1;
    }
    assert(rows(all@).take(all@.len() as int) =~= rows(all@));
    out
}

fn keep_filled(all: &Vec<String>) -> (r: Vec<String>)
    ensures
        texts(r@) == filled_lines(texts(all@)),
{
    let ghost ls = texts(all@);
    let mut out: Vec<String> = Vec::new();
    let mut i: usize = 0;
    assert(texts(out@) =~= filled_lines(ls.take(0)));
    while i < all.len()
        invariant
            i <= all@.len(),
            ls == texts(all@),
            texts(out@) == filled_lines(ls.take(i as int)),
        decreases all@.len() - i,
    {
        assert(ls.take(i + 1).last() == all@[i as int]@);
        assert(ls.take(i + 1).drop_last() =~= ls.take(i as int));
        let chars = chars_of(all[i].as_str());
        if trim(chars.as_slice()).len() > 0 {
            let ghost before = out@;
            out.push(all[i].clone());
            assert(texts(out@) =~= texts(before).push(all@[i as int]@));
        }
        i += 1;
    }
    assert(ls.take(all@.len() as int) =~= ls);
    out
}

fn strip_bullets(chars: &[char]) -> (r: &[char])
    ensures
        r@ == without_bullets(chars@),
{
    let mut i: usize = 0;
    assert(chars@.skip(0) =~= chars@);
    while chars.len() - i >= 2 && chars[i] == '-' && chars[i + 1] == ' '
        invariant
            i <= chars@.len(),
            without_bullets(chars@.skip(i as int)) == without_bullets(chars@),
        decreases chars@.len() - i,
    {
        assert(chars@.skip(i as int).skip(2) =~= chars@.skip(i + 2));
        i += 2;
    }
    rest(chars, i)
}

fn collect_hazards(all: &Vec<String>) -> (r: Vec<String>)
    ensures
        texts(r@) == hazards_on(texts(all@)),
{
    let ghost ls = texts(all@);
    let mut out: Vec<String> = Vec::new();
    let mut i: usize = 0;
    assert(texts(out@) =~= hazards_on(ls.take(0)));
    while i < all.len()
        invariant
            i <= all@.len(),
            ls == texts(all@),
            texts(out@) == hazards_on(ls.take(i as int)),
        decreases all@.len() - i,
    {
        assert(ls.take(i + 1).last() == all@[i as int]@);
        assert(ls.take(i + 1).drop_last() =~= ls.take(i as int));
        let chars = chars_of(all[i].as_str());
        let hazard = strip_bullets(trim(chars.as_slice()));
        if hazard.len() > 0 {
            let ghost before = out@;
            out.push(string_of(hazard));
            assert(texts(out@) =~= texts(before).push(hazard@));
        }
        i += 1;
    }
    assert(ls.take(all@.len() as int) =~= ls);
    out
}

fn placed_elsewhere(heading: &str) -> (r: bool)
    ensures
        r == has_own_place(heading@),
{
    same_ignoring_case(heading, "next") || same_ignoring_case(heading, "context")
        || same_ignoring_case(heading, "hazards") || same_ignoring_case(heading, "notes")
}

fn collect_others(sections: &Vec<(String, String)>) -> (r: Vec<(String, Vec<String>)>)
    ensures
        lined_views(r@) == other_sections(section_views(sections@)),
{
    let ghost all = section_views(sections@);
    let mut out: Vec<(String, Vec<String>)> = Vec::new();
    let mut i: usize = 0;
    assert(lined_views(out@) =~= other_sections(all.take(0)));
    while i < sections.len()
        invariant
            i <= sections@.len(),
            all == section_views(sections@),
            lined_views(out@) == other_sections(all.take(i as int)),
        decreases sections@.len() - i,
    {
        assert(all.take(i + 1).last() == (sections@[i as int].0@, sections@[i as int].1@));
        assert(all.take(i + 1).drop_last() =~= all.take(i as int));
        if !placed_elsewhere(sections[i].0.as_str()) {
            let ghost before = out@;
            let body = text_lines(sections[i].1.as_str());
            out.push((sections[i].0.clone(), body));
            assert(lined_views(out@) =~= lined_views(before).push(
                (sections@[i as int].0@, lines_of(sections@[i as int].1@)),
            ));
        }
        i += 1;
    }
    assert(all.take(sections@.len() as int) =~= all);
    out
}

/// What the panel shows of an item.
pub fn detail_content(item: &ItemMeta) -> (r: DetailContent)
    requires
        has_id8(item.id@),
    ensures
        shows_item(r, item@),
{
    let next = match find_filled(&item.sections, "Next") {
        Some(body) => body,
        None => "No next step recorded.".to_owned(),
    };
    let context: Vec<String> = match find_filled(&item.sections, "Context") {
        Some(body) => keep_filled(&text_lines(body.as_str())),
        None => Vec::new(),
    };
    let hazards: Vec<String> = match find_filled(&item.sections, "Hazards") {
        Some(body) => collect_hazards(&text_lines(body.as_str())),
        None => Vec::new(),
    };
    let deps = item.depends_on.len();
    let count = counted_text("", deps, " ");
    let footer = join(
        count.as_str(),
        if deps == 1 {
            "dependency"
        } else {
            "dependencies"
        },
    );
    proof {
        reveal_strlit("");
        assert(""@ + decimal(deps as nat) =~= decimal(deps as nat));
        assert(texts(item.depends_on@).len() == deps);
    }
    let r = DetailContent {
        id: item.id.clone(),
        id8: item.id8().to_owned(),
        subject: item.subject.clone(),
        status: item.status,
        next,
        reference: item.reference.clone(),
        short_reference: shorten_reference(item.reference.as_str()),
        context,
        sections: collect_others(&item.sections),
        hazards,
        footer,
    };
    proof {
        if filled_section(item@.sections, "Context"@) is None {
            assert(texts(r.context@) =~= Seq::empty());
        }
        if filled_section(item@.sections, "Hazards"@) is None {
            assert(texts(r.hazards@) =~= Seq::empty());
        }
    }
    r
}

// ---------------------------------------------------------------------
// The primary action
// ---------------------------------------------------------------------

/// What the primary button of the panel does.
#[derive(Debug, Clone, Copy, PartialEq, Eq, Structural)]
pub enum PrimaryAction {
    /// The status has no forward transition: there is no button.
    Nothing,
    /// The focused item takes this status.
    Apply(Status),
    /// The transition only prompts: the full status menu opens.
    OpenMenu,
}

/// The primary split button: apply the forward transition of the focused
/// item's status, or, where it leads to no one status, open the full status
/// menu. A transition is the verb on the button and the status it leads to.
pub fn primary_action(transition: &Option<(String, Option<Status>)>) -> (r: PrimaryAction)
    ensures
        r == match *transition {
            None => PrimaryAction::Nothing,
            Some((_, Some(to))) => PrimaryAction::Apply(to),
            Some((_, None)) => PrimaryAction::OpenMenu,
        },
{
    match transition {
        None => PrimaryAction::Nothing,
        Some((_, Some(to))) => PrimaryAction::Apply(*to),
        Some((_, None)) => PrimaryAction::OpenMenu,
    }
}

// ---------------------------------------------------------------------
// Notes
// ---------------------------------------------------------------------

/// The state of the detail view: which item the notes field holds text for,
/// and the line under it.
#[derive(Debug)]
pub struct WorkcatDetailView {
    pub notes_item: Option<String>,
    pub status: String,
}

/// The mathematical value of a [`WorkcatDetailView`].
pub struct DetailState {
    pub notes_item: Option<Seq<char>>,
    pub status: Seq<char>,
}

impl View for WorkcatDetailView {
    type V = DetailState;

    open spec fn view(&self) -> DetailState {
        DetailState { notes_item: text_opt(self.notes_item), status: self.status@ }
    }
}

/// What saving the notes comes to.
#[derive(Debug, PartialEq)]
pub enum NotesSave {
    /// The field holds no item's notes.
    Nothing,
    /// The map is not there to save them.
    NoMap,
    /// The notes of this item are saved as this text.
    Save(String, String),
}

impl DetailState {
    /// The state after the focus moved to an item, and the text that the notes
    /// field takes over. A field that already holds the item's notes keeps
    /// its text.
    pub open spec fn synced(self, item: Option<(Seq<char>, Option<Seq<char>>)>) -> (
        DetailState,
        Option<Seq<char>>,
    ) {
        match item {
            None => (DetailState { notes_item: None, ..self }, None),
            Some((id, notes)) => if self.notes_item == Some(id) {
                (self, None)
            } else {
                (
                    DetailState { notes_item: Some(id), status: Seq::empty() },
                    Some(
                        match notes {
                            Some(text) => text,
                            None => Seq::empty(),
                        },
                    ),
                )
            },
        }
    }
}

impl WorkcatDetailView {
    /// The view before an item is focused.
    pub fn new() -> (r: WorkcatDetailView)
        ensures
            r@ == (DetailState { notes_item: None, status: Seq::empty() }),
    {
        let r = WorkcatDetailView { notes_item: None, status: String::new() };
        assert(r@.status =~= Seq::empty());
        r
    }

    /// Keep the notes field in step with the focused item; gives the text that
    /// it takes over.
    pub fn sync_notes(&mut self, item: Option<&ItemMeta>) -> (r: Option<String>)
        ensures
            (final(self)@, text_opt(r)) == old(self)@.synced(
                match item {
                    Some(item) => Some((item@.id, section_body(item@.sections, "notes"@))),
                    None => None,
                },
            ),
    {
        let item = match item {
            Some(item) => item,
            None => {
                self.notes_item = None;
                return None;
            },
        };
        let held = match &self.notes_item {
            Some(id) => same_text(id.as_str(), item.id.as_str()),
            None => false,
        };
        if held {
            return None;
        }
        self.notes_item = Some(item.id.clone());
        self.status = String::new();
        assert(self.status@ =~= Seq::empty());
        match item.notes() {
            Some(notes) => Some(notes.to_owned()),
            None => {
                let empty = String::new();
                assert(empty@ =~= Seq::empty());
                Some(empty)
            },
        }
    }

    /// Note an edit of the notes field.
    pub fn note_edit(&mut self)
        ensures
            final(self)@ == (DetailState { status: "Saving\u{2026}"@, ..old(self)@ }),
    {
        self.status = "Saving\u{2026}".to_owned();
    }

    /// What saving the text of the notes field comes to.
    pub fn save_notes(&mut self, map_loaded: bool, text: &str) -> (r: NotesSave)
        ensures
            match (old(self)@.notes_item, r) {
                (None, NotesSave::Nothing) => final(self)@ == old(self)@,
                (Some(id), NotesSave::NoMap) => !map_loaded && final(self)@ == (DetailState {
                    status: "map panel not loaded"@,
                    ..old(self)@
                }),
                (Some(id), NotesSave::Save(to, body)) => map_loaded && to@ == id && body@
                    == trimmed(text@) && final(self)@ == old(self)@,
                _ => false,
            },
    {
        let id: String = match &self.notes_item {
            Some(id) => id.clone(),
            None => {
                return NotesSave::Nothing;
            },
        };
        if !map_loaded {
            self.status = "map panel not loaded".to_owned();
            return NotesSave::NoMap;
        }
        let chars = chars_of(text);
        NotesSave::Save(id, string_of(trim(chars.as_slice())))
    }

    /// Report whether the handoff of an item could be opened.
    pub fn report_opened(&mut self, reference: &str, found: bool)
        ensures
            final(self)@ == (DetailState {
                status: if found {
                    "opening "@ + reference@
                } else {
                    "handoff not in project: "@ + reference@
                },
                ..old(self)@
            }),
    {
        self.status = if found {
            join("opening ", reference)
        } else {
            join("handoff not in project: ", reference)
        };
    }
}

} // verus!

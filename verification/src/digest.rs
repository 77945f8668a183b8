//! Thread digests: plain summaries of agent threads, and how they are read
//! from stored rows.

use crate::json::{json_views, parse_json_bytes, Json, JsonView};
use crate::text::{chars_of, same_text, text_opt, texts, trim, trimmed};
use crate::time::{parse_timestamp, stored_instant, view_opt, Timestamp};
use crate::triage::{triage, triage_of, Role, TriageInput, TriageState};
use vstd::prelude::*;

verus! {

/// A plain summary of one agent thread, ready for triage and display.
#[derive(Debug, Clone)]
pub struct ThreadDigest {
    pub id: String,
    pub title: String,
    pub updated_at: Option<Timestamp>,
    pub message_count: usize,
    /// Role of the very last message in the thread.
    pub last_role: Option<Role>,
    /// Concatenated text of the last agent message.
    pub final_agent_text: String,
    /// Whether the last agent message contains tool uses.
    pub final_agent_has_tool_use: bool,
    /// Triage result, computed at load time.
    pub state: TriageState,
    /// The extracted ask, when the agent left one.
    pub ask: Option<String>,
}

/// The mathematical value of a [`ThreadDigest`].
pub struct DigestView {
    pub id: Seq<char>,
    pub title: Seq<char>,
    pub updated_at: Option<(int, int)>,
    pub message_count: nat,
    pub last_role: Option<Role>,
    pub final_agent_text: Seq<char>,
    pub final_agent_has_tool_use: bool,
    pub state: TriageState,
    pub ask: Option<Seq<char>>,
}

impl View for ThreadDigest {
    type V = DigestView;

    open spec fn view(&self) -> DigestView {
        DigestView {
            id: self.id@,
            title: self.title@,
            updated_at: view_opt(self.updated_at),
            message_count: self.message_count as nat,
            last_role: self.last_role,
            final_agent_text: self.final_agent_text@,
            final_agent_has_tool_use: self.final_agent_has_tool_use,
            state: self.state,
            ask: text_opt(self.ask),
        }
    }
}

impl DigestView {
    /// The digest made of these parts, triaged.
    pub open spec fn of(
        id: Seq<char>,
        title: Seq<char>,
        updated_at: Option<(int, int)>,
        message_count: nat,
        end: ThreadEnd,
    ) -> DigestView {
        let triage = triage_of(end.last_role, end.has_tool_use, end.text);
        DigestView {
            id,
            title,
            updated_at,
            message_count,
            last_role: end.last_role,
            final_agent_text: end.text,
            final_agent_has_tool_use: end.has_tool_use,
            state: triage.0,
            ask: triage.1,
        }
    }
}

impl ThreadDigest {
    /// Build a digest from raw parts, computing the triage state.
    pub fn new(
        id: String,
        title: String,
        updated_at: Option<Timestamp>,
        message_count: usize,
        last_role: Option<Role>,
        final_agent_text: String,
        final_agent_has_tool_use: bool,
    ) -> (r: Self)
        ensures
            r@ == DigestView::of(
                id@,
                title@,
                view_opt(updated_at),
                message_count as nat,
                ThreadEnd {
                    last_role,
                    text: final_agent_text@,
                    has_tool_use: final_agent_has_tool_use,
                },
            ),
    {
        let result = triage(
            &TriageInput {
                last_role,
                final_agent_text: final_agent_text.as_str(),
                final_agent_has_tool_use,
            },
        );
        Self {
            id,
            title,
            updated_at,
            message_count,
            last_role,
            final_agent_text,
            final_agent_has_tool_use,
            state: result.state,
            ask: result.ask,
        }
    }
}

// ---------------------------------------------------------------------
// Stored threads
// ---------------------------------------------------------------------

/// The text segments of an agent message, joined by line feeds, and whether
/// it uses tools.
pub open spec fn content_of(segments: Seq<JsonView>) -> (Seq<char>, bool)
    decreases segments.len(),
{
    if segments.len() == 0 {
        (Seq::empty(), false)
    } else {
        let (text, uses) = content_of(segments.drop_last());
        match segments.last().text_field("Text"@) {
            Some(more) => (
                if text.len() == 0 {
                    more
                } else {
                    text.push('\n') + more
                },
                uses,
            ),
            None => (text, uses || segments.last().field("ToolUse"@) is Some),
        }
    }
}

/// The content of an agent message; nothing when it has no content list.
pub open spec fn message_content(message: JsonView) -> (Seq<char>, bool) {
    match message.items_field("content"@) {
        Some(segments) => content_of(segments),
        None => (Seq::empty(), false),
    }
}

/// Collect the text segments and tool-use flag of one agent message.
pub fn agent_message_content(agent_message: &Json) -> (r: (String, bool))
    ensures
        (r.0@, r.1) == message_content(agent_message@),
{
    let mut text = String::new();
    let mut has_tool_use = false;
    if let Some(segments) = agent_message.list_at("content") {
        let ghost all = json_views(segments@);
        let mut i: usize = 0;
        while i < segments.len()
            invariant
                i <= segments@.len(),
                all == json_views(segments@),
                (text@, has_tool_use) == content_of(all.take(i as int)),
            decreases segments@.len() - i,
        {
            let segment = &segments[i];
            proof {
                assert(all.take(i + 1).drop_last() == all.take(i as int));
                assert(all.take(i + 1).last() == segment@);
            }
            if let Some(more) = segment.text_at("Text") {
                if !text.as_str().is_empty() {
                    text.push('\n');
                } else {
                    assert(text@ + more@ == more@);
                }
                text.append(more.as_str());
            } else if segment.has_key("ToolUse") {
                has_tool_use = true;
            }
            i += 1;
        }
        assert(all.take(all.len() as int) == all);
    }
    (text, has_tool_use)
}

/// How a thread ends: who spoke last, and the content of the last agent
/// message.
pub struct ThreadEnd {
    pub last_role: Option<Role>,
    pub text: Seq<char>,
    pub has_tool_use: bool,
}

/// How a thread of these messages ends. A message is an object keyed by the
/// role of its author; others count for nothing.
pub open spec fn end_of(messages: Seq<JsonView>) -> ThreadEnd
    decreases messages.len(),
{
    if messages.len() == 0 {
        ThreadEnd { last_role: None, text: Seq::empty(), has_tool_use: false }
    } else {
        let before = end_of(messages.drop_last());
        if messages.last().field("User"@) is Some {
            ThreadEnd { last_role: Some(Role::User), ..before }
        } else {
            match messages.last().field("Agent"@) {
                Some(message) => {
                    let (text, has_tool_use) = message_content(message);
                    ThreadEnd { last_role: Some(Role::Agent), text, has_tool_use }
                },
                None => before,
            }
        }
    }
}

fn find_end(messages: &Vec<Json>) -> (r: (Option<Role>, String, bool))
    ensures
        (ThreadEnd { last_role: r.0, text: r.1@, has_tool_use: r.2 }) == end_of(
            json_views(messages@),
        ),
{
    let mut last_role: Option<Role> = None;
    let mut text = String::new();
    let mut has_tool_use = false;
    let ghost all = json_views(messages@);
    let mut i: usize = 0;
    while i < messages.len()
        invariant
            i <= messages@.len(),
            all == json_views(messages@),
            (ThreadEnd { last_role, text: text@, has_tool_use }) == end_of(all.take(i as int)),
        decreases messages@.len() - i,
    {
        let message = &messages[i];
        proof {
            assert(all.take(i + 1).drop_last() == all.take(i as int));
            assert(all.take(i + 1).last() == message@);
        }
        if message.has_key("User") {
            last_role = Some(Role::User);
        } else if let Some(agent_message) = message.get("Agent") {
            last_role = Some(Role::Agent);
            let content = agent_message_content(agent_message);
            text = content.0;
            has_tool_use = content.1;
        }
        i += 1;
    }
    assert(all.take(all.len() as int) == all);
    (last_role, text, has_tool_use)
}

/// The messages of a thread document; none when it lists none.
pub open spec fn messages_of(value: JsonView) -> Seq<JsonView> {
    match value.items_field("messages"@) {
        Some(messages) => messages,
        None => Seq::empty(),
    }
}

/// The title of a thread document, or the row's summary when the document
/// has none that shows.
pub open spec fn title_of(value: JsonView, summary: Seq<char>) -> Seq<char> {
    match value.text_field("title"@) {
        Some(title) => if trimmed(title).len() > 0 {
            title
        } else {
            summary
        },
        None => summary,
    }
}

/// When a thread document was updated, or else when its row was.
pub open spec fn updated_of(value: JsonView, row_updated_at: Seq<char>) -> Option<(int, int)> {
    let own = match value.text_field("updated_at"@) {
        Some(raw) => stored_instant(raw),
        None => None,
    };
    match own {
        Some(t) => Some(t),
        None => stored_instant(row_updated_at),
    }
}

/// The digest of a thread document.
pub open spec fn document_digest(
    id: Seq<char>,
    summary: Seq<char>,
    row_updated_at: Seq<char>,
    value: JsonView,
) -> DigestView {
    DigestView::of(
        id,
        title_of(value, summary),
        updated_of(value, row_updated_at),
        messages_of(value).len(),
        end_of(messages_of(value)),
    )
}

/// Turn one parsed thread document into a digest.
pub fn digest_from_document(
    id: &str,
    summary: &str,
    row_updated_at: &str,
    value: &Json,
) -> (r: ThreadDigest)
    ensures
        r@ == document_digest(id@, summary@, row_updated_at@, value@),
{
    let mut title = summary.to_owned();
    if let Some(own) = value.text_at("title") {
        let chars = chars_of(own.as_str());
        if trim(chars.as_slice()).len() > 0 {
            title = own.clone();
        }
    }
    let mut updated_at: Option<Timestamp> = None;
    if let Some(raw) = value.text_at("updated_at") {
        updated_at = parse_timestamp(raw.as_str());
    }
    if updated_at.is_none() {
        updated_at = parse_timestamp(row_updated_at);
    }
    let empty: Vec<Json> = Vec::new();
    assert(json_views(empty@) == Seq::<JsonView>::empty());
    let messages = match value.list_at("messages") {
        Some(messages) => messages,
        None => &empty,
    };
    let count = messages.len();
    let (last_role, text, has_tool_use) = find_end(messages);
    ThreadDigest::new(id.to_owned(), title, updated_at, count, last_role, text, has_tool_use)
}

/// The content of a zstd frame, when the bytes are well-formed.
pub uninterp spec fn zstd_content(data: Seq<u8>) -> Option<Seq<u8>>;

pub open spec fn bytes_opt(v: Option<Vec<u8>>) -> Option<Seq<u8>> {
    match v {
        Some(v) => Some(v@),
        None => None,
    }
}

/// `zstd::decode_all` decompresses a whole buffer, or fails. The contract
/// names the content, which depends on the bytes alone; it does not say
/// which bytes are well-formed.
#[verifier::external_body]
fn zstd_decode(data: &[u8]) -> (r: Option<Vec<u8>>)
    ensures
        bytes_opt(r) == zstd_content(data@),
{
    zstd::decode_all(data).ok()
}

/// Why a stored row yields no digest.
#[derive(Debug, Clone, Copy, PartialEq, Eq, Structural)]
pub enum RowError {
    /// The data does not decompress.
    Decompress,
    /// The data is not JSON.
    Parse,
}

/// The document bytes of a row: decompressed when its type says zstd.
pub open spec fn row_bytes(data_type: Seq<char>, data: Seq<u8>) -> Option<Seq<u8>> {
    if data_type == "zstd"@ {
        zstd_content(data)
    } else {
        Some(data)
    }
}

/// The digest of a stored row.
pub open spec fn row_digest(
    id: Seq<char>,
    summary: Seq<char>,
    row_updated_at: Seq<char>,
    data_type: Seq<char>,
    data: Seq<u8>,
) -> Result<DigestView, RowError> {
    match row_bytes(data_type, data) {
        Some(bytes) => match crate::json::json_document_in(bytes) {
            Some(value) => Ok(document_digest(id, summary, row_updated_at, value)),
            None => Err(RowError::Parse),
        },
        None => Err(RowError::Decompress),
    }
}

pub open spec fn digest_result(r: Result<ThreadDigest, RowError>) -> Result<DigestView, RowError> {
    match r {
        Ok(d) => Ok(d@),
        Err(e) => Err(e),
    }
}

/// Turn the document bytes of a row, if they could be had, into a digest.
pub fn digest_from_bytes(
    id: &str,
    summary: &str,
    row_updated_at: &str,
    bytes: &[u8],
) -> (r: Result<ThreadDigest, RowError>)
    ensures
        digest_result(r) == (match crate::json::json_document_in(bytes@) {
            Some(value) => Ok::<DigestView, RowError>(
                document_digest(id@, summary@, row_updated_at@, value),
            ),
            None => Err(RowError::Parse),
        }),
{
    match parse_json_bytes(bytes) {
        Some(value) => Ok(digest_from_document(id, summary, row_updated_at, &value)),
        None => Err(RowError::Parse),
    }
}

/// Turn one raw database row into a digest.
pub fn digest_from_row(
    id: &str,
    summary: &str,
    row_updated_at: &str,
    data_type: &str,
    data: &[u8],
) -> (r: Result<ThreadDigest, RowError>)
    ensures
        digest_result(r) == row_digest(id@, summary@, row_updated_at@, data_type@, data@),
{
    if same_text(data_type, "zstd") {
        match zstd_decode(data) {
            Some(bytes) => digest_from_bytes(id, summary, row_updated_at, bytes.as_slice()),
            None => Err(RowError::Decompress),
        }
    } else {
        digest_from_bytes(id, summary, row_updated_at, data)
    }
}

/// One stored thread.
#[derive(Debug, Clone, PartialEq, Eq)]
pub struct Row {
    pub id: String,
    pub summary: String,
    pub updated_at: String,
    pub data_type: String,
    pub data: Vec<u8>,
}

impl Row {
    pub open spec fn digest(self) -> Result<DigestView, RowError> {
        row_digest(self.id@, self.summary@, self.updated_at@, self.data_type@, self.data@)
    }
}

/// The digests of the rows that yield one, in row order.
pub open spec fn digests_of(rows: Seq<Row>) -> Seq<DigestView>
    decreases rows.len(),
{
    if rows.len() == 0 {
        Seq::empty()
    } else {
        match rows.last().digest() {
            Ok(d) => digests_of(rows.drop_last()).push(d),
            Err(_) => digests_of(rows.drop_last()),
        }
    }
}

/// The ids of the rows that yield no digest, each with the reason.
pub open spec fn skipped_of(rows: Seq<Row>) -> Seq<(Seq<char>, RowError)>
    decreases rows.len(),
{
    if rows.len() == 0 {
        Seq::empty()
    } else {
        match rows.last().digest() {
            Ok(_) => skipped_of(rows.drop_last()),
            Err(e) => skipped_of(rows.drop_last()).push((rows.last().id@, e)),
        }
    }
}

/// The views of a sequence of digests.
pub open spec fn digest_views(v: Seq<ThreadDigest>) -> Seq<DigestView> {
    v.map_values(|d: ThreadDigest| d@)
}

pub open spec fn skipped_views(v: Seq<(String, RowError)>) -> Seq<(Seq<char>, RowError)> {
    v.map_values(|s: (String, RowError)| (s.0@, s.1))
}

/// Turn raw rows into digests. A row that yields none is skipped and
/// reported.
pub fn load_digests(rows: &Vec<Row>) -> (r: (Vec<ThreadDigest>, Vec<(String, RowError)>))
    ensures
        digest_views(r.0@) == digests_of(rows@),
        skipped_views(r.1@) == skipped_of(rows@),
{
    let mut digests: Vec<ThreadDigest> = Vec::new();
    let mut skipped: Vec<(String, RowError)> = Vec::new();
    let mut i: usize = 0;
    assert(digest_views(digests@) == Seq::<DigestView>::empty());
    assert(skipped_views(skipped@) == Seq::<(Seq<char>, RowError)>::empty());
    while i < rows.len()
        invariant
            i <= rows@.len(),
            digest_views(digests@) == digests_of(rows@.take(i as int)),
            skipped_views(skipped@) == skipped_of(rows@.take(i as int)),
        decreases rows@.len() - i,
    {
        let row = &rows[i];
        proof {
            assert(rows@.take(i + 1).drop_last() == rows@.take(i as int));
            assert(rows@.take(i + 1).last() == *row);
        }
        let ghost d0 = digest_views(digests@);
        let ghost s0 = skipped_views(skipped@);
        match digest_from_row(
            row.id.as_str(),
            row.summary.as_str(),
            row.updated_at.as_str(),
            row.data_type.as_str(),
            row.data.as_slice(),
        ) {
            Ok(digest) => {
                digests.push(digest);
                assert(digest_views(digests@) == d0.push(digest@));
            },
            Err(error) => {
                skipped.push((row.id.clone(), error));
                assert(skipped_views(skipped@) == s0.push((row.id@, error)));
            },
        }
        i += 1;
    }
    assert(rows@.take(rows@.len() as int) == rows@);
    (digests, skipped)
}

/// No row is dropped in silence: each one yields a digest or is reported
/// with the reason why it does not.
pub proof fn law_every_row_is_accounted_for(rows: Seq<Row>, i: int)
    requires
        0 <= i < rows.len(),
    ensures
        digests_of(rows).len() + skipped_of(rows).len() == rows.len(),
        match rows[i].digest() {
            Ok(d) => digests_of(rows).contains(d),
            Err(e) => skipped_of(rows).contains((rows[i].id@, e)),
        },
    decreases rows.len(),
{
    let before = rows.drop_last();
    if before.len() > 0 {
        law_every_row_is_accounted_for(before, if i < before.len() { i } else { 0 });
    } else {
        assert(digests_of(before).len() == 0);
        assert(skipped_of(before).len() == 0);
    }
    match rows.last().digest() {
        Ok(d) => {
            let had = digests_of(before);
            assert(digests_of(rows) == had.push(d));
            assert(had.push(d)[had.len() as int] == d);
            if i < before.len() && rows[i].digest() is Ok {
                let k = choose|k: int| 0 <= k < had.len() && had[k] == rows[i].digest()->Ok_0;
                assert(had.push(d)[k] == rows[i].digest()->Ok_0);
            }
        },
        Err(e) => {
            let had = skipped_of(before);
            let skip = (rows.last().id@, e);
            assert(skipped_of(rows) == had.push(skip));
            assert(had.push(skip)[had.len() as int] == skip);
            if i < before.len() && rows[i].digest() is Err {
                let it = (rows[i].id@, rows[i].digest()->Err_0);
                let k = choose|k: int| 0 <= k < had.len() && had[k] == it;
                assert(had.push(skip)[k] == it);
            }
        },
    }
}

/// The titles of loaded threads, in order.
pub fn load_recent_titles(digests: &Vec<ThreadDigest>) -> (titles: Vec<String>)
    ensures
        texts(titles@) == digests@.map_values(|d: ThreadDigest| d.title@),
{
    let mut titles: Vec<String> = Vec::new();
    let mut i: usize = 0;
    while i < digests.len()
        invariant
            i <= digests@.len(),
            titles@.len() == i,
            forall|k: int| 0 <= k < i ==> (#[trigger] titles@[k])@ == digests@[k].title@,
        decreases digests@.len() - i,
    {
        titles.push(digests[i].title.clone());
        i += 1;
    }
    assert(texts(titles@) =~= digests@.map_values(|d: ThreadDigest| d.title@));
    titles
}

/// Environment variable that overrides the threads database path.
pub const DB_PATH_ENV_VAR: &'static str = "MISSION_CONTROL_THREADS_DB";

/// Default number of threads to load.
pub const DEFAULT_LIMIT: usize = 50;

/// Resolve the database path: explicit override, then the environment's
/// choice, then the default.
pub fn resolve_db_path(
    override_path: Option<String>,
    env_path: Option<String>,
    default_path: String,
) -> (r: String)
    ensures
        r == (match override_path {
            Some(path) => path,
            None => match env_path {
                Some(path) => path,
                None => default_path,
            },
        }),
{
    match override_path {
        Some(path) => path,
        None => match env_path {
            Some(path) => path,
            None => default_path,
        },
    }
}

} // verus!

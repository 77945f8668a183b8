//! What a digest tells of a stored thread, told by its messages.

use crate::digest::{
    content_of, digests_of, document_digest, end_of, message_content, skipped_of, zstd_content,
    DigestView, Row, RowError,
};
use crate::json::{json_document_in, JsonView};
use crate::log_laws::says_something;
use crate::text::{has, occurs_at};
use crate::time::stored_instant;
use crate::triage::{triage_of, Role};
use vstd::prelude::*;

verus! {

/// Whether a message is keyed by the user.
pub open spec fn by_user(message: JsonView) -> bool {
    message.field("User"@) is Some
}

/// Whether a message is keyed by the agent, and not by the user.
pub open spec fn by_agent(message: JsonView) -> bool {
    message.field("User"@) is None && message.field("Agent"@) is Some
}

/// The last agent message decides: what a thread's end says is what that
/// message says, whatever stands in the messages before it.
pub proof fn law_last_agent_message_decides(messages: Seq<JsonView>, i: int)
    requires
        0 <= i < messages.len(),
        by_agent(messages[i]),
        forall|j: int| i < j < messages.len() ==> !by_agent(#[trigger] messages[j]),
    ensures
        (end_of(messages).text, end_of(messages).has_tool_use) == message_content(
            messages[i].field("Agent"@)->0,
        ),
    decreases messages.len(),
{
    if i < messages.len() - 1 {
        assert(!by_agent(messages[messages.len() - 1]));
        assert forall|j: int| i < j < messages.drop_last().len() implies !by_agent(
            #[trigger] messages.drop_last()[j],
        ) by {
            assert(messages.drop_last()[j] == messages[j]);
        }
        law_last_agent_message_decides(messages.drop_last(), i);
    }
}

/// A thread in which the agent said nothing ends with nothing said.
pub proof fn law_silent_agent_ends_empty(messages: Seq<JsonView>)
    requires
        forall|j: int| 0 <= j < messages.len() ==> !by_agent(#[trigger] messages[j]),
    ensures
        end_of(messages).text == Seq::<char>::empty(),
        !end_of(messages).has_tool_use,
    decreases messages.len(),
{
    if messages.len() > 0 {
        assert(!by_agent(messages[messages.len() - 1]));
        assert forall|j: int| 0 <= j < messages.drop_last().len() implies !by_agent(
            #[trigger] messages.drop_last()[j],
        ) by {
            assert(messages.drop_last()[j] == messages[j]);
        }
        law_silent_agent_ends_empty(messages.drop_last());
    }
}

/// Who spoke last is who the last message with an author is by.
pub proof fn law_last_author_spoke_last(messages: Seq<JsonView>, i: int)
    requires
        0 <= i < messages.len(),
        by_user(messages[i]) || by_agent(messages[i]),
        forall|j: int|
            i < j < messages.len() ==> !by_user(#[trigger] messages[j]) && !by_agent(messages[j]),
    ensures
        end_of(messages).last_role == Some(
            if by_user(messages[i]) {
                Role::User
            } else {
                Role::Agent
            },
        ),
    decreases messages.len(),
{
    if i < messages.len() - 1 {
        assert(!by_user(messages[messages.len() - 1]));
        assert forall|j: int| i < j < messages.drop_last().len() implies !by_user(
            #[trigger] messages.drop_last()[j],
        ) && !by_agent(messages.drop_last()[j]) by {
            assert(messages.drop_last()[j] == messages[j]);
        }
        law_last_author_spoke_last(messages.drop_last(), i);
    }
}

/// A thread whose messages have no author was spoken in by nobody.
pub proof fn law_no_author_no_role(messages: Seq<JsonView>)
    requires
        forall|j: int|
            0 <= j < messages.len() ==> !by_user(#[trigger] messages[j]) && !by_agent(messages[j]),
    ensures
        end_of(messages).last_role is None,
    decreases messages.len(),
{
    if messages.len() > 0 {
        assert(!by_user(messages[messages.len() - 1]));
        assert forall|j: int| 0 <= j < messages.drop_last().len() implies !by_user(
            #[trigger] messages.drop_last()[j],
        ) && !by_agent(messages.drop_last()[j]) by {
            assert(messages.drop_last()[j] == messages[j]);
        }
        law_no_author_no_role(messages.drop_last());
    }
}

// ---------------------------------------------------------------------
// Content
// ---------------------------------------------------------------------

/// Whether a segment is a use of a tool: it holds no text, and is keyed so.
pub open spec fn uses_tool(segment: JsonView) -> bool {
    segment.text_field("Text"@) is None && segment.field("ToolUse"@) is Some
}

/// A message uses tools just when one of its segments does.
pub proof fn law_tool_use_is_seen(segments: Seq<JsonView>)
    ensures
        content_of(segments).1 == exists|i: int|
            0 <= i < segments.len() && uses_tool(#[trigger] segments[i]),
    decreases segments.len(),
{
    if segments.len() > 0 {
        let front = segments.drop_last();
        law_tool_use_is_seen(front);
        if content_of(front).1 {
            let i = choose|i: int| 0 <= i < front.len() && uses_tool(#[trigger] front[i]);
            assert(uses_tool(segments[i]));
        }
        if uses_tool(segments.last()) {
            assert(uses_tool(segments[segments.len() - 1]));
        }
        if exists|i: int| 0 <= i < segments.len() && uses_tool(#[trigger] segments[i]) {
            let i = choose|i: int| 0 <= i < segments.len() && uses_tool(#[trigger] segments[i]);
            if i < front.len() {
                assert(uses_tool(front[i]));
            }
        }
    }
}

/// The texts of a message's segments, in order.
pub open spec fn texts_said(segments: Seq<JsonView>) -> Seq<Seq<char>>
    decreases segments.len(),
{
    if segments.len() == 0 {
        Seq::empty()
    } else {
        match segments[0].text_field("Text"@) {
            Some(text) => seq![text] + texts_said(segments.skip(1)),
            None => texts_said(segments.skip(1)),
        }
    }
}

/// Texts with a line feed between each two of them.
pub open spec fn lined_up(texts: Seq<Seq<char>>) -> Seq<char>
    decreases texts.len(),
{
    if texts.len() == 0 {
        Seq::empty()
    } else if texts.len() == 1 {
        texts[0]
    } else {
        texts[0].push('\n') + lined_up(texts.skip(1))
    }
}

pub(crate) proof fn lemma_lined_up_push(texts: Seq<Seq<char>>, more: Seq<char>)
    requires
        texts.len() > 0,
    ensures
        lined_up(texts.push(more)) == lined_up(texts).push('\n') + more,
    decreases texts.len(),
{
    let all = texts.push(more);
    if texts.len() == 1 {
        assert(all.skip(1) =~= seq![more]);
        assert(lined_up(seq![more]) == more);
    } else {
        assert(all.skip(1) =~= texts.skip(1).push(more));
        lemma_lined_up_push(texts.skip(1), more);
        assert(texts[0].push('\n') + (lined_up(texts.skip(1)).push('\n') + more) =~= (
        texts[0].push('\n') + lined_up(texts.skip(1))).push('\n') + more);
    }
}

proof fn lemma_lined_up_len(texts: Seq<Seq<char>>)
    requires
        texts.len() > 0,
        forall|i: int| 0 <= i < texts.len() ==> (#[trigger] texts[i]).len() > 0,
    ensures
        lined_up(texts).len() > 0,
{
    assert(texts[0].len() > 0);
}

proof fn lemma_texts_said_push(segments: Seq<JsonView>, last: JsonView)
    ensures
        texts_said(segments.push(last)) == (match last.text_field("Text"@) {
            Some(text) => texts_said(segments).push(text),
            None => texts_said(segments),
        }),
    decreases segments.len(),
{
    let all = segments.push(last);
    if segments.len() == 0 {
        assert(all.skip(1) =~= Seq::empty());
        assert(texts_said(all.skip(1)) =~= Seq::<Seq<char>>::empty());
        assert(texts_said(all) =~= match last.text_field("Text"@) {
            Some(text) => texts_said(segments).push(text),
            None => texts_said(segments),
        });
    } else {
        assert(all.skip(1) =~= segments.skip(1).push(last));
        lemma_texts_said_push(segments.skip(1), last);
        assert(texts_said(all) =~= match last.text_field("Text"@) {
            Some(text) => texts_said(segments).push(text),
            None => texts_said(segments),
        });
    }
}

/// What a message says is what its content list says, all of it; a message
/// without one says nothing.
pub proof fn law_message_is_its_content(message: JsonView)
    ensures
        message.items_field("content"@) is Some ==> message_content(message) == content_of(
            message.items_field("content"@)->0,
        ),
        message.items_field("content"@) is None ==> message_content(message).0.len() == 0
            && !message_content(message).1,
{
}

/// Nothing that a message says is lost: its text is that of all its segments
/// in order, with a line feed between each two, given that none is empty.
pub proof fn law_every_text_is_kept(segments: Seq<JsonView>)
    requires
        forall|i: int|
            0 <= i < texts_said(segments).len() ==> (#[trigger] texts_said(segments)[i]).len() > 0,
    ensures
        content_of(segments).0 == lined_up(texts_said(segments)),
    decreases segments.len(),
{
    if segments.len() > 0 {
        let front = segments.drop_last();
        let last = segments.last();
        let said = texts_said(front);
        assert(front.push(last) =~= segments);
        lemma_texts_said_push(front, last);
        assert forall|i: int| 0 <= i < said.len() implies (#[trigger] said[i]).len() > 0 by {
            assert(texts_said(segments)[i] == said[i]);
        }
        law_every_text_is_kept(front);
        if last.text_field("Text"@) is Some {
            let more = last.text_field("Text"@)->0;
            if said.len() == 0 {
                assert(said =~= Seq::empty());
                assert(said.push(more) =~= seq![more]);
                assert(lined_up(seq![more]) == more);
            } else {
                lemma_lined_up_len(said);
                lemma_lined_up_push(said, more);
            }
        }
    }
}

proof fn lemma_tail_has(a: Seq<char>, b: Seq<char>)
    ensures
        has(a + b, b),
{
    assert((a + b).subrange(a.len() as int, (a + b).len() as int) =~= b);
    assert(occurs_at(a + b, b, a.len() as int));
}

proof fn lemma_head_has(a: Seq<char>, b: Seq<char>, x: Seq<char>)
    requires
        has(a, x),
    ensures
        has(a + b, x),
{
    let i = choose|i: int| #[trigger] occurs_at(a, x, i);
    assert((a + b).subrange(i, i + x.len()) =~= a.subrange(i, i + x.len()));
    assert(occurs_at(a + b, x, i));
}

/// Every text of a message stands in what it says, empty ones among them or
/// not.
pub proof fn law_every_text_stands_in_the_message(segments: Seq<JsonView>, i: int)
    requires
        0 <= i < segments.len(),
        segments[i].text_field("Text"@) is Some,
    ensures
        has(content_of(segments).0, segments[i].text_field("Text"@)->0),
    decreases segments.len(),
{
    let front = segments.drop_last();
    let before = content_of(front).0;
    let x = segments[i].text_field("Text"@)->0;
    if i < front.len() {
        assert(front[i] == segments[i]);
        law_every_text_stands_in_the_message(front, i);
        if segments.last().text_field("Text"@) is Some {
            let more = segments.last().text_field("Text"@)->0;
            if before.len() == 0 {
                assert(x.len() == 0);
                assert(more.subrange(0, 0) =~= x);
                assert(occurs_at(more, x, 0));
            } else {
                lemma_head_has(before, seq!['\n'] + more, x);
                assert(before + (seq!['\n'] + more) =~= before.push('\n') + more);
            }
        }
    } else {
        if before.len() == 0 {
            lemma_tail_has(Seq::empty(), x);
            assert(Seq::<char>::empty() + x =~= x);
        } else {
            lemma_tail_has(before.push('\n'), x);
        }
    }
}

// ---------------------------------------------------------------------
// Documents and rows
// ---------------------------------------------------------------------

/// What a digest says of a thread document: its id and its messages are
/// counted and told as they are, its title is its own where that says
/// something and the row's summary otherwise, and it goes by its own time
/// where that can be read and by the row's otherwise.
pub proof fn law_digest_tells_the_document(
    id: Seq<char>,
    summary: Seq<char>,
    row_updated_at: Seq<char>,
    value: JsonView,
)
    ensures
        ({
            let digest = document_digest(id, summary, row_updated_at, value);
            let title = value.text_field("title"@);
            let own = value.text_field("updated_at"@);
            let messages = value.items_field("messages"@);
            let end = match messages {
                Some(messages) => end_of(messages),
                None => end_of(Seq::empty()),
            };
            &&& digest.id == id
            &&& digest.title == if title is Some && says_something(title->0) {
                title->0
            } else {
                summary
            }
            &&& digest.message_count == if messages is Some {
                messages->0.len()
            } else {
                0
            }
            &&& digest.last_role == end.last_role
            &&& digest.final_agent_text == end.text
            &&& digest.final_agent_has_tool_use == end.has_tool_use
            &&& (digest.state, digest.ask) == triage_of(
                end.last_role,
                end.has_tool_use,
                end.text,
            )
            &&& digest.updated_at == if own is Some && stored_instant(own->0) is Some {
                stored_instant(own->0)
            } else {
                stored_instant(row_updated_at)
            }
        }),
{
    if let Some(title) = value.text_field("title"@) {
        crate::log_laws::lemma_trim_empty(title);
    }
}

/// A row is read by its type: one of type "zstd" is decompressed, any other is
/// taken as it is; what cannot be decompressed or parsed is refused with that
/// reason.
pub proof fn law_row_is_read_by_its_type(row: Row)
    ensures
        row.data_type@ == "zstd"@ && zstd_content(row.data@) is None ==> row.digest() == Err::<
            DigestView,
            RowError,
        >(RowError::Decompress),
        ({
            let bytes = if row.data_type@ == "zstd"@ {
                zstd_content(row.data@)
            } else {
                Some(row.data@)
            };
            bytes is Some ==> match json_document_in(bytes->0) {
                Some(value) => row.digest() == Ok::<DigestView, RowError>(
                    document_digest(row.id@, row.summary@, row.updated_at@, value),
                ),
                None => row.digest() == Err::<DigestView, RowError>(RowError::Parse),
            }
        }),
{
}

/// Rows are read one after the other: the digests and the refusals of two
/// batches in a row are those of the first, then those of the second.
pub proof fn law_rows_are_read_in_order(a: Seq<Row>, b: Seq<Row>)
    ensures
        digests_of(a + b) == digests_of(a) + digests_of(b),
        skipped_of(a + b) == skipped_of(a) + skipped_of(b),
    decreases b.len(),
{
    if b.len() == 0 {
        assert(a + b =~= a);
        assert(digests_of(a) + digests_of(b) =~= digests_of(a));
        assert(skipped_of(a) + skipped_of(b) =~= skipped_of(a));
    } else {
        law_rows_are_read_in_order(a, b.drop_last());
        assert((a + b).drop_last() =~= a + b.drop_last());
        assert((a + b).last() == b.last());
        assert(digests_of(a + b) =~= digests_of(a) + digests_of(b));
        assert(skipped_of(a + b) =~= skipped_of(a) + skipped_of(b));
    }
}

} // verus!

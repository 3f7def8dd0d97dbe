//! Rendering: a message's decomposed body becomes one LaTeX message block,
//! and a chapter's messages become its document, with the inter-message
//! spacing rule applied within each chapter.

use vstd::prelude::*;
use crate::text::push_str_chars;
use crate::text::push_all;
use crate::sanitize::sanitize_spec;
use crate::sanitize::sanitize;
use crate::sanitize::title_table_view;
use crate::dates::valid_date;
use crate::dates::date_marker_spec;
use crate::dates::date_marker;
use crate::dates::dec_digits;
use crate::dates::push_decimal;
use crate::dates::chapter_heading_spec;
use crate::dates::chapter_heading;

verus! {

/// One decoded piece of a message's structured body: a text span, an
/// attachment marker, or another segment kind that renders nothing.
pub enum BodySegment {
    Text(String),
    Attachment,
    Other,
}

/// The text of the last text segment, if any: later text spans overwrite
/// earlier ones.
pub open spec fn last_text(segs: Seq<BodySegment>) -> Option<Seq<char>>
    decreases segs.len(),
{
    if segs.len() == 0 {
        None
    } else {
        match segs.last() {
            BodySegment::Text(t) => Some(t@),
            _ => last_text(segs.drop_last()),
        }
    }
}

/// How many attachment markers the body holds.
pub open spec fn attachment_count(segs: Seq<BodySegment>) -> int
    decreases segs.len(),
{
    if segs.len() == 0 {
        0int
    } else {
        attachment_count(segs.drop_last()) + match segs.last() {
            BodySegment::Attachment => 1int,
            _ => 0int,
        }
    }
}

/// Decompose a body into its renderable parts: the retained text span and
/// the number of attachment markers.  Segment kinds other than text and
/// attachment contribute nothing.
pub fn extract_body(segs: &Vec<BodySegment>) -> (r: (Option<String>, usize))
    ensures
        crate::sanitize::opt_string_view(r.0) == last_text(segs@),
        r.1 as int == attachment_count(segs@),
{
    let mut text: Option<String> = None;
    let mut count: usize = 0;
    let mut i: usize = 0;
    proof {
        assert(segs@.take(0).len() == 0);
    }
    while i < segs.len()
        invariant
            i <= segs@.len(),
            crate::sanitize::opt_string_view(text) == last_text(segs@.take(i as int)),
            count <= i,
            count as int == attachment_count(segs@.take(i as int)),
        decreases segs.len() - i,
    {
        proof {
            assert(segs@.take(i + 1 as int).drop_last() =~= segs@.take(i as int));
            assert(segs@.take(i + 1 as int).last() == segs@[i as int]);
        }
        match &segs[i] {
            BodySegment::Text(t) => {
                text = Some(t.clone());
            }
            BodySegment::Attachment => {
                count = count + 1;
            }
            BodySegment::Other => {}
        }
        i = i + 1;
    }
    proof {
        assert(segs@.take(segs@.len() as int) =~= segs@);
    }
    (text, count)
}

/// Everything the renderer needs for one message: the sender flag, the
/// decomposed body, the local civil date, and the vetted titles of the
/// hyperlinks in its text.
pub struct PreparedMessage {
    pub is_from_me: bool,
    pub segments: Vec<BodySegment>,
    pub year: i64,
    pub month: u8,
    pub day: u8,
    pub titles: Vec<(String, Option<String>)>,
}

/// The message carries a real civil date.
pub open spec fn prepared_wf(m: PreparedMessage) -> bool {
    valid_date(m.year as int, m.month as int, m.day as int)
}

/// The rendered content of a message: its sanitized text, then an
/// attachment badge when attachments exist, the two separated only when
/// both are present.
pub open spec fn message_content_spec(m: PreparedMessage) -> Seq<char> {
    let text = match last_text(m.segments@) {
        Some(t) => sanitize_spec(t, title_table_view(m.titles@)),
        None => Seq::empty(),
    };
    let n = attachment_count(m.segments@);
    if n > 0 {
        let lead = if text.len() > 0 {
            text + "\\enskip"@
        } else {
            text
        };
        let badge = if n == 1 {
            "\\fbox{"@ + dec_digits(n) + " Attachment}"@
        } else {
            "\\fbox{"@ + dec_digits(n) + " Attachments}"@
        };
        lead + badge
    } else {
        text
    }
}

/// One rendered message block: the date marker line, the optional spacing
/// directive, then the content in a left- or right-aligned bubble.
pub open spec fn message_block_spec(m: PreparedMessage, extra_space: bool) -> Seq<char> {
    let marker = "\\markright{"@ + date_marker_spec(m.year as int, m.month as int, m.day as int)
        + "}\n"@;
    let spacing = if extra_space {
        "\\insertextraspace\n"@
    } else {
        Seq::<char>::empty()
    };
    let open_side = if m.is_from_me {
        "\\leftmsg{"@
    } else {
        "\\rightmsg{"@
    };
    marker + spacing + open_side + message_content_spec(m) + "}\n\n"@
}

/// Render one message as its LaTeX block.
pub fn render_message(msg: &PreparedMessage, insert_extra_space: bool) -> (r: String)
    requires
        prepared_wf(*msg),
    ensures
        r@ == message_block_spec(*msg, insert_extra_space),
{
    let extracted = extract_body(&msg.segments);
    let mut content: Vec<char> = Vec::new();
    match &extracted.0 {
        Some(t) => {
            let sanitized = sanitize(t.as_str(), &msg.titles);
            push_str_chars(&mut content, sanitized.as_str());
        }
        None => {}
    }
    let n = extracted.1;
    if n > 0 {
        if content.len() > 0 {
            push_str_chars(&mut content, "\\enskip");
        }
        push_str_chars(&mut content, "\\fbox{");
        push_decimal(&mut content, n as u64);
        if n == 1 {
            push_str_chars(&mut content, " Attachment}");
        } else {
            push_str_chars(&mut content, " Attachments}");
        }
    }
    proof {
        assert(content@ =~= message_content_spec(*msg));
    }
    let mut out: Vec<char> = Vec::new();
    push_str_chars(&mut out, "\\markright{");
    let marker = date_marker(msg.year, msg.month, msg.day);
    push_str_chars(&mut out, marker.as_str());
    push_str_chars(&mut out, "}\n");
    if insert_extra_space {
        push_str_chars(&mut out, "\\insertextraspace\n");
    }
    if msg.is_from_me {
        push_str_chars(&mut out, "\\leftmsg{");
    } else {
        push_str_chars(&mut out, "\\rightmsg{");
    }
    push_all(&mut out, &content);
    push_str_chars(&mut out, "}\n\n");
    proof {
        assert(out@ =~= message_block_spec(*msg, insert_extra_space));
    }
    crate::text::string_from_chars(&out)
}

/// The spacing rule: a message gets the extra-space directive exactly when
/// it has a predecessor in the same chapter with the same sender flag.  The
/// first message of a chapter never gets one.
pub open spec fn extra_space_flag(msgs: Seq<PreparedMessage>, i: int) -> bool {
    i > 0 && msgs[i].is_from_me == msgs[i - 1].is_from_me
}

/// The spacing rule, spelled out: never for a chapter's first message;
/// for every later message, exactly when its sender flag repeats the
/// previous message's.
pub proof fn lemma_spacing_rules(msgs: Seq<PreparedMessage>, i: int)
    requires
        0 <= i < msgs.len(),
    ensures
        i == 0 ==> !extra_space_flag(msgs, i),
        i > 0 ==> extra_space_flag(msgs, i) == (msgs[i].is_from_me == msgs[i - 1].is_from_me),
{
}

/// The concatenated blocks of a chapter's messages from index `i` on, each
/// with its spacing flag.
pub open spec fn chapter_blocks_spec(msgs: Seq<PreparedMessage>, i: int) -> Seq<char>
    decreases msgs.len() - i when 0 <= i <= msgs.len()
{
    if i >= msgs.len() {
        Seq::empty()
    } else {
        message_block_spec(msgs[i], extra_space_flag(msgs, i)) + chapter_blocks_spec(msgs, i + 1)
    }
}

/// A chapter's full document: its heading, then its message blocks in
/// order under the spacing rule.
pub open spec fn chapter_doc_spec(y: int, mo: int, msgs: Seq<PreparedMessage>) -> Seq<char> {
    chapter_heading_spec(y, mo) + chapter_blocks_spec(msgs, 0)
}

/// Render one chapter: the heading, then every message block, with the
/// spacing rule reset at the chapter boundary.
pub fn render_chapter(year: i64, month: u8, msgs: &Vec<PreparedMessage>) -> (r: String)
    requires
        1970 <= year,
        1 <= month <= 12,
        forall|i: int| 0 <= i < msgs@.len() ==> prepared_wf(#[trigger] msgs@[i]),
    ensures
        r@ == chapter_doc_spec(year as int, month as int, msgs@),
{
    let mut out: Vec<char> = Vec::new();
    let heading = chapter_heading(year, month);
    push_str_chars(&mut out, heading.as_str());
    let mut i: usize = 0;
    proof {
        assert(out@ + chapter_blocks_spec(msgs@, 0)
            =~= chapter_heading_spec(year as int, month as int) + chapter_blocks_spec(msgs@, 0));
    }
    while i < msgs.len()
        invariant
            i <= msgs@.len(),
            forall|k: int| 0 <= k < msgs@.len() ==> prepared_wf(#[trigger] msgs@[k]),
            out@ + chapter_blocks_spec(msgs@, i as int) == chapter_doc_spec(
                year as int,
                month as int,
                msgs@,
            ),
        decreases msgs.len() - i,
    {
        let extra = if i == 0 {
            false
        } else {
            msgs[i].is_from_me == msgs[i - 1].is_from_me
        };
        proof {
            assert(extra == extra_space_flag(msgs@, i as int));
        }
        let block = render_message(&msgs[i], extra);
        let ghost before = out@;
        push_str_chars(&mut out, block.as_str());
        proof {
            assert(chapter_blocks_spec(msgs@, i as int)
                == message_block_spec(msgs@[i as int], extra_space_flag(msgs@, i as int))
                    + chapter_blocks_spec(msgs@, i + 1 as int));
            assert(out@ + chapter_blocks_spec(msgs@, i + 1 as int)
                =~= before + chapter_blocks_spec(msgs@, i as int));
        }
        i = i + 1;
    }
    proof {
        assert(chapter_blocks_spec(msgs@, msgs@.len() as int) =~= Seq::<char>::empty());
        assert(out@ + Seq::<char>::empty() =~= out@);
    }
    crate::text::string_from_chars(&out)
}

} // verus!

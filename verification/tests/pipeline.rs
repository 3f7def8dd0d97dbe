use chatbook::records::{ConversationRecord, MessageRecord, resolve_chat_ids, retrieve_messages,
    filter_messages, prepare_stream, MESSAGE_CAP};
use chatbook::chapters::{chapterize, chapterize_local_time};
use chatbook::dates::{local_civil_date, chapter_key, chapter_heading, date_marker};

fn chat(rowid: i32, identifier: &str) -> ConversationRecord {
    ConversationRecord { rowid, identifier: identifier.to_string() }
}

fn msg(rowid: i32, date: i64, chat_id: Option<i32>, is_from_me: bool) -> MessageRecord {
    MessageRecord {
        rowid,
        guid: format!("guid-{}", rowid),
        text: None,
        service: None,
        handle_id: None,
        subject: None,
        date,
        date_read: 0,
        date_delivered: 0,
        is_from_me,
        is_read: false,
        item_type: 0,
        group_title: None,
        group_action_type: 0,
        associated_message_guid: None,
        associated_message_type: None,
        balloon_bundle_id: None,
        expressive_send_style_id: None,
        thread_originator_guid: None,
        thread_originator_part: None,
        date_edited: 0,
        chat_id,
        num_attachments: 0,
        deleted_from: None,
        num_replies: 0,
        is_reaction: false,
        is_announcement: false,
        is_shareplay: false,
    }
}

const DAY_NS: i64 = 86400 * 1_000_000_000;

#[test]
fn resolver_finds_all_matching_rows() {
    let chats = vec![
        chat(1, "+15551234567"),
        chat(2, "someone@example.com"),
        chat(3, "+15551234567"),
    ];
    let ids = resolve_chat_ids(&chats, "+15551234567");
    assert_eq!(ids, vec![1, 3]);
}

#[test]
fn resolver_no_match_is_empty_not_error() {
    let chats = vec![chat(1, "+15551234567")];
    let ids = resolve_chat_ids(&chats, "+19998887777");
    assert!(ids.is_empty());
}

#[test]
fn retrieval_keeps_only_resolved_chats_and_sorts() {
    let ids = vec![1, 3];
    let rows = vec![
        msg(10, 5 * DAY_NS, Some(1), true),
        msg(11, 2 * DAY_NS, Some(3), false),
        msg(12, 9 * DAY_NS, Some(2), false),
        msg(13, 3 * DAY_NS, Some(1), true),
        msg(14, 4 * DAY_NS, None, true),
        msg(15, -7, Some(1), true),
    ];
    let got = retrieve_messages(rows, &ids, MESSAGE_CAP);
    let rowids: Vec<i32> = got.iter().map(|m| m.rowid).collect();
    assert_eq!(rowids, vec![11, 13, 10]);
    for pair in got.windows(2) {
        assert!(pair[0].date <= pair[1].date);
    }
    for m in &got {
        assert!(ids.contains(&m.chat_id.unwrap()));
    }
}

#[test]
fn retrieval_cap_keeps_earliest() {
    let ids = vec![1];
    let rows = vec![
        msg(1, 3 * DAY_NS, Some(1), true),
        msg(2, 1 * DAY_NS, Some(1), true),
        msg(3, 2 * DAY_NS, Some(1), true),
    ];
    let got = retrieve_messages(rows, &ids, 2);
    let rowids: Vec<i32> = got.iter().map(|m| m.rowid).collect();
    assert_eq!(rowids, vec![2, 3]);
}

#[test]
fn filtering_removes_unworthy_kinds_and_is_idempotent() {
    let mut reaction = msg(1, 1, Some(1), true);
    reaction.is_reaction = true;
    let mut announcement = msg(2, 2, Some(1), true);
    announcement.is_announcement = true;
    let mut shareplay = msg(3, 3, Some(1), true);
    shareplay.is_shareplay = true;
    let keepers = vec![msg(4, 4, Some(1), true), msg(5, 5, Some(1), false)];
    let mut all = vec![reaction, announcement, shareplay];
    all.extend(keepers);
    let once = filter_messages(all);
    let once_ids: Vec<i32> = once.iter().map(|m| m.rowid).collect();
    assert_eq!(once_ids, vec![4, 5]);
    let twice = filter_messages(once);
    let twice_ids: Vec<i32> = twice.iter().map(|m| m.rowid).collect();
    assert_eq!(once_ids, twice_ids);
}

#[test]
fn prepare_stream_composes_resolution_order_and_filter() {
    let chats = vec![chat(1, "+15551234567"), chat(2, "other")];
    let mut reaction = msg(20, 1 * DAY_NS, Some(1), true);
    reaction.is_reaction = true;
    let rows = vec![
        msg(21, 3 * DAY_NS, Some(1), true),
        reaction,
        msg(22, 2 * DAY_NS, Some(2), false),
        msg(23, 1 * DAY_NS, Some(1), false),
    ];
    let got = prepare_stream(&chats, "+15551234567", rows, MESSAGE_CAP);
    let rowids: Vec<i32> = got.iter().map(|m| m.rowid).collect();
    assert_eq!(rowids, vec![23, 21]);
}

#[test]
fn chaptering_partitions_without_loss() {
    let rows = vec![
        msg(1, 0, Some(1), true),
        msg(2, 5 * DAY_NS, Some(1), false),
        msg(3, 40 * DAY_NS, Some(1), true),
        msg(4, 41 * DAY_NS, Some(1), true),
        msg(5, 70 * DAY_NS, Some(1), false),
    ];
    let chapters = chapterize(rows, 0);
    assert_eq!(chapters.len(), 3);
    let mut seen: Vec<i32> = Vec::new();
    for ch in &chapters {
        assert!(!ch.messages.is_empty());
        assert!((1..=12).contains(&ch.month));
        for m in &ch.messages {
            let (y, mo, _d) = local_civil_date(m.date, 0);
            assert_eq!((y, mo), (ch.year, ch.month));
        }
        for m in &ch.messages {
            seen.push(m.rowid);
        }
    }
    assert_eq!(seen, vec![1, 2, 3, 4, 5]);
    for pair in chapters.windows(2) {
        assert!((pair[0].year, pair[0].month) != (pair[1].year, pair[1].month));
    }
    // store epoch: day zero falls in January 2001
    assert_eq!((chapters[0].year, chapters[0].month), (2001, 1));
    assert_eq!((chapters[1].year, chapters[1].month), (2001, 2));
    assert_eq!((chapters[2].year, chapters[2].month), (2001, 3));
}

#[test]
fn chaptering_of_empty_stream_is_empty() {
    let chapters = chapterize(Vec::new(), 0);
    assert!(chapters.is_empty());
}

#[test]
fn civil_dates_from_store_timestamps() {
    // the store epoch itself
    assert_eq!(local_civil_date(0, 0), (2001, 1, 1));
    // a leap day: 2004-02-29 is 1154 days after the store epoch
    let leap_seconds = 1154i64 * 86400;
    assert_eq!(local_civil_date(leap_seconds, 0), (2004, 2, 29));
    // the same moment in nanoseconds
    assert_eq!(local_civil_date(leap_seconds * 1_000_000_000, 0), (2004, 2, 29));
    // a negative zone offset shifts the epoch moment into the prior year
    assert_eq!(local_civil_date(0, -1), (2000, 12, 31));
}

#[test]
fn chapter_names_and_headings() {
    assert_eq!(chapter_key(2023, 9), "ch-2023-09");
    assert_eq!(chapter_key(2023, 11), "ch-2023-11");
    assert_eq!(chapter_heading(2023, 9), "\\chapter{September 2023}\n\n");
    assert_eq!(date_marker(2023, 9, 5), "September  5, 2023");
    assert_eq!(date_marker(2023, 12, 25), "December 25, 2023");
}

#[test]
fn chaptering_crosses_year_boundaries() {
    // 364 days after the store epoch is still December 2001; one day later
    // is January 2002.
    let rows = vec![
        msg(1, 364 * DAY_NS, Some(1), true),
        msg(2, 365 * DAY_NS, Some(1), true),
    ];
    let chapters = chapterize(rows, 0);
    assert_eq!(chapters.len(), 2);
    assert_eq!((chapters[0].year, chapters[0].month), (2001, 12));
    assert_eq!((chapters[1].year, chapters[1].month), (2002, 1));
}

#[test]
fn local_time_chaptering_reports_a_sane_offset() {
    let rows = vec![msg(1, 5 * DAY_NS, Some(1), true)];
    let (chapters, tz) = chapterize_local_time(rows, 0);
    assert!(-86400 < tz && tz < 86400);
    assert_eq!(chapters.len(), 1);
    assert_eq!(chapters[0].messages.len(), 1);
    let (y, mo, _d) = local_civil_date(5 * DAY_NS, tz);
    assert_eq!((chapters[0].year, chapters[0].month), (y, mo));
}

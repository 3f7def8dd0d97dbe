//! The data model: conversation and message records, identifier resolution,
//! message ordering, and the content filter.
//!
//! Records arrive as plain values decoded from the conversation store.  The
//! resolver maps a caller-supplied identifier to the internal chat ids that
//! carry it; retrieval keeps the messages of those chats, in ascending
//! timestamp order and under a hard cap; the content filter then removes
//! message kinds that are not book-worthy.

use vstd::prelude::*;
use vstd::multiset::Multiset;

verus! {

broadcast use vstd::seq_lib::group_to_multiset_ensures;

/// Membership of an id in the resolved id set.
fn contains_id(ids: &Vec<i32>, x: i32) -> (r: bool)
    ensures
        r == ids@.contains(x),
{
    let mut i: usize = 0;
    while i < ids.len()
        invariant
            i <= ids@.len(),
            forall|j: int| 0 <= j < i ==> ids@[j] != x,
        decreases ids.len() - i,
    {
        if ids[i] == x {
            return true;
        }
        i = i + 1;
    }
    false
}

/// One conversation row of the store: an internal id and the external
/// identifier (for example a phone number) it belongs to.  External
/// identifiers are not unique across rows.
pub struct ConversationRecord {
    pub rowid: i32,
    pub identifier: String,
}

/// One message row of the store, enriched by the retrieval join with its
/// chat id, attachment count, reply count and deletion origin.  The three
/// classification flags record how the store's schema library classifies
/// the row: as a reaction, as a group announcement, or as a screen-sharing
/// session marker.
pub struct MessageRecord {
    pub rowid: i32,
    pub guid: String,
    pub text: Option<String>,
    pub service: Option<String>,
    pub handle_id: Option<i32>,
    pub subject: Option<String>,
    pub date: i64,
    pub date_read: i64,
    pub date_delivered: i64,
    pub is_from_me: bool,
    pub is_read: bool,
    pub item_type: i32,
    pub group_title: Option<String>,
    pub group_action_type: i32,
    pub associated_message_guid: Option<String>,
    pub associated_message_type: Option<i32>,
    pub balloon_bundle_id: Option<String>,
    pub expressive_send_style_id: Option<String>,
    pub thread_originator_guid: Option<String>,
    pub thread_originator_part: Option<String>,
    pub date_edited: i64,
    pub chat_id: Option<i32>,
    pub num_attachments: i32,
    pub deleted_from: Option<i32>,
    pub num_replies: i32,
    pub is_reaction: bool,
    pub is_announcement: bool,
    pub is_shareplay: bool,
}

/// The hard cap on the number of retrieved messages.
pub const MESSAGE_CAP: usize = 100000;

// ---------------------------------------------------------------------------
// Chat resolution.
// ---------------------------------------------------------------------------

/// The internal ids of the conversation rows whose external identifier
/// equals `ident` exactly, in row order.
pub open spec fn resolved_ids(chats: Seq<ConversationRecord>, ident: Seq<char>) -> Seq<i32>
    decreases chats.len(),
{
    if chats.len() == 0 {
        Seq::empty()
    } else {
        let rest = resolved_ids(chats.drop_last(), ident);
        if chats.last().identifier@ == ident {
            rest.push(chats.last().rowid)
        } else {
            rest
        }
    }
}

/// Resolve an external conversation identifier to the set of internal chat
/// ids that carry it.  No match yields an empty set, not an error.
pub fn resolve_chat_ids(chats: &Vec<ConversationRecord>, identifier: &str) -> (r: Vec<i32>)
    ensures
        r@ == resolved_ids(chats@, identifier@),
{
    let ident_chars = crate::text::chars_of(identifier);
    let mut out: Vec<i32> = Vec::new();
    let mut i: usize = 0;
    proof {
        assert(out@ =~= resolved_ids(chats@.take(0), identifier@));
    }
    while i < chats.len()
        invariant
            i <= chats@.len(),
            ident_chars@ == identifier@,
            out@ == resolved_ids(chats@.take(i as int), identifier@),
        decreases chats.len() - i,
    {
        let c_chars = crate::text::chars_of(chats[i].identifier.as_str());
        proof {
            assert(chats@.take(i + 1 as int).drop_last() =~= chats@.take(i as int));
            assert(chats@.take(i + 1 as int).last() == chats@[i as int]);
        }
        if crate::text::chars_eq(&c_chars, &ident_chars) {
            out.push(chats[i].rowid);
            proof {
                assert(out@ =~= resolved_ids(chats@.take(i + 1 as int), identifier@));
            }
        } else {
            proof {
                assert(out@ =~= resolved_ids(chats@.take(i + 1 as int), identifier@));
            }
        }
        i = i + 1;
    }
    proof {
        assert(chats@.take(chats@.len() as int) =~= chats@);
    }
    out
}

/// Every resolved id is the row id of a conversation row carrying the
/// identifier.
pub proof fn lemma_resolved_ids_from_rows(chats: Seq<ConversationRecord>, ident: Seq<char>, v: i32)
    requires
        resolved_ids(chats, ident).contains(v),
    ensures
        exists|k: int| 0 <= k < chats.len() && chats[k].rowid == v
            && chats[k].identifier@ == ident,
    decreases chats.len(),
{
    if chats.len() > 0 {
        let rest = resolved_ids(chats.drop_last(), ident);
        if chats.last().identifier@ == ident && v == chats.last().rowid {
            assert(chats[chats.len() - 1].rowid == v);
        } else {
            assert(rest.contains(v));
            lemma_resolved_ids_from_rows(chats.drop_last(), ident, v);
            let k = choose|k: int| 0 <= k < chats.drop_last().len()
                && chats.drop_last()[k].rowid == v && chats.drop_last()[k].identifier@ == ident;
            assert(chats[k].rowid == v && chats[k].identifier@ == ident);
        }
    }
}

/// When the conversation rows carry unique internal ids, the resolved id
/// set holds no id twice.
pub proof fn lemma_resolved_ids_distinct(chats: Seq<ConversationRecord>, ident: Seq<char>)
    requires
        forall|a: int, b: int| 0 <= a < b < chats.len() ==> chats[a].rowid != chats[b].rowid,
    ensures
        forall|a: int, b: int| 0 <= a < b < resolved_ids(chats, ident).len()
            ==> resolved_ids(chats, ident)[a] != resolved_ids(chats, ident)[b],
    decreases chats.len(),
{
    if chats.len() > 0 {
        let dl = chats.drop_last();
        let rest = resolved_ids(dl, ident);
        lemma_resolved_ids_distinct(dl, ident);
        let ids = resolved_ids(chats, ident);
        if chats.last().identifier@ == ident {
            assert(ids == rest.push(chats.last().rowid));
            assert forall|a: int, b: int| 0 <= a < b < ids.len() implies ids[a] != ids[b] by {
                if b < ids.len() - 1 {
                    assert(ids[a] == rest[a] && ids[b] == rest[b]);
                } else {
                    assert(ids[a] == rest[a]);
                    assert(rest.contains(rest[a]));
                    lemma_resolved_ids_from_rows(dl, ident, rest[a]);
                    let k = choose|k: int| 0 <= k < dl.len() && dl[k].rowid == rest[a]
                        && dl[k].identifier@ == ident;
                    assert(chats[k].rowid == rest[a]);
                    assert(chats[k].rowid != chats[chats.len() - 1].rowid);
                }
            }
        }
    }
}

// ---------------------------------------------------------------------------
// Ordering and retrieval.
// ---------------------------------------------------------------------------

/// Ascending timestamp order.
pub open spec fn msgs_sorted(s: Seq<MessageRecord>) -> bool {
    forall|i: int, j: int| 0 <= i < j < s.len() ==> s[i].date <= s[j].date
}

/// The record belongs to one of the resolved chats.
pub open spec fn message_in_chats(m: MessageRecord, ids: Seq<i32>) -> bool {
    match m.chat_id {
        Some(c) => ids.contains(c),
        None => false,
    }
}

/// The record's timestamp lies at or after the store epoch; rows before it
/// are treated as malformed and dropped.
pub open spec fn valid_stamp(m: MessageRecord) -> bool {
    0 <= m.date
}

/// What retrieval keeps: rows of the resolved chats with a well-formed
/// timestamp.
pub open spec fn retained(m: MessageRecord, ids: Seq<i32>) -> bool {
    message_in_chats(m, ids) && valid_stamp(m)
}

/// The retained rows of the stream, in row order: what retrieval keeps
/// before ordering and capping.
pub open spec fn retained_rows(rows: Seq<MessageRecord>, ids: Seq<i32>) -> Seq<MessageRecord>
    decreases rows.len(),
{
    if rows.len() == 0 {
        Seq::empty()
    } else {
        let rest = retained_rows(rows.drop_last(), ids);
        if retained(rows.last(), ids) {
            rest.push(rows.last())
        } else {
            rest
        }
    }
}

/// Every row that retrieval keeps is retained.
pub proof fn lemma_retained_rows_pred(rows: Seq<MessageRecord>, ids: Seq<i32>)
    ensures
        forall|i: int| 0 <= i < retained_rows(rows, ids).len() ==> retained(
            #[trigger] retained_rows(rows, ids)[i],
            ids,
        ),
    decreases rows.len(),
{
    if rows.len() > 0 {
        lemma_retained_rows_pred(rows.drop_last(), ids);
        let rest = retained_rows(rows.drop_last(), ids);
        let whole = retained_rows(rows, ids);
        if retained(rows.last(), ids) {
            assert forall|i: int| 0 <= i < whole.len() implies retained(
                #[trigger] whole[i],
                ids,
            ) by {
                if i < whole.len() - 1 {
                    assert(whole[i] == rest[i]);
                } else {
                    assert(whole[i] == rows.last());
                }
            }
        }
    }
}

/// Sort by ascending timestamp; the result is a permutation of the input.
fn sort_by_date(msgs: Vec<MessageRecord>) -> (r: Vec<MessageRecord>)
    ensures
        msgs_sorted(r@),
        r@.to_multiset() == msgs@.to_multiset(),
{
    let mut rest = msgs;
    let mut out: Vec<MessageRecord> = Vec::new();
    proof {
        assert(out@.to_multiset().add(rest@.to_multiset()) =~= msgs@.to_multiset());
    }
    while rest.len() > 0
        invariant
            msgs_sorted(out@),
            out@.to_multiset().add(rest@.to_multiset()) == msgs@.to_multiset(),
        decreases rest.len(),
    {
        let ghost rest_before = rest@;
        let m = rest.pop().unwrap();
        proof {
            assert(rest_before =~= rest@.push(m));
            assert(rest_before.to_multiset() =~= rest@.to_multiset().insert(m));
        }
        let mut j: usize = 0;
        while j < out.len() && out[j].date <= m.date
            invariant
                j <= out@.len(),
                forall|x: int| 0 <= x < j ==> out@[x].date <= m.date,
            decreases out.len() - j,
        {
            j = j + 1;
        }
        let ghost out_before = out@;
        out.insert(j, m);
        proof {
            assert(out@.remove(j as int) =~= out_before);
            assert(out@[j as int] == m);
            assert(out_before.to_multiset() =~= out@.to_multiset().remove(m));
            assert(out@.to_multiset().contains(m));
            assert(out@.to_multiset() =~= out_before.to_multiset().insert(m));
            assert(out@.to_multiset().add(rest@.to_multiset()) =~= msgs@.to_multiset());
            assert forall|a: int, b: int| 0 <= a < b < out@.len() implies
                out@[a].date <= out@[b].date by {
                if a < j && b < j {
                    assert(out@[a] == out_before[a]);
                    assert(out@[b] == out_before[b]);
                } else if a < j && b == j {
                    assert(out@[a] == out_before[a]);
                } else if a < j && b > j {
                    assert(out@[a] == out_before[a]);
                    assert(out@[b] == out_before[b - 1]);
                    if j < out_before.len() {
                        assert(out_before[j as int].date > m.date || j == out_before.len());
                    }
                    assert(out@[a].date <= m.date);
                    assert(b - 1 >= j);
                    if a <= j - 1 && j <= b - 1 && j < out_before.len() {
                        if j < b - 1 {
                            assert(out_before[j as int].date <= out_before[b - 1].date);
                        }
                    }
                    assert(out@[a].date <= out@[b].date);
                } else if a == j {
                    assert(out@[b] == out_before[b - 1]);
                    assert(b - 1 >= j);
                    assert(j < out_before.len());
                    assert(out_before[j as int].date > m.date);
                    if j < b - 1 {
                        assert(out_before[j as int].date <= out_before[b - 1].date);
                    }
                } else {
                    assert(out@[a] == out_before[a - 1]);
                    assert(out@[b] == out_before[b - 1]);
                    assert(out_before[a - 1].date <= out_before[b - 1].date);
                }
            }
        }
    }
    proof {
        assert(rest@.to_multiset() =~= Multiset::<MessageRecord>::empty());
        assert(out@.to_multiset().add(Multiset::<MessageRecord>::empty())
            =~= out@.to_multiset());
    }
    out
}

/// Retrieval: of the decoded rows, keep those belonging to the resolved
/// chats with a well-formed timestamp, in ascending timestamp order, at most
/// `cap` of them.  When the retained rows fit under the cap, nothing is
/// lost; beyond it, the earliest `cap` of them are kept: every returned
/// message is dated no later than every retained row that was dropped.
pub fn retrieve_messages(rows: Vec<MessageRecord>, chat_ids: &Vec<i32>, cap: usize) -> (r: Vec<
    MessageRecord,
>)
    ensures
        msgs_sorted(r@),
        forall|i: int| 0 <= i < r@.len() ==> retained(#[trigger] r@[i], chat_ids@),
        r@.len() <= cap,
        r@.len() == vstd::math::min(cap as int, retained_rows(rows@, chat_ids@).len() as int),
        retained_rows(rows@, chat_ids@).len() <= cap ==> r@.to_multiset() == retained_rows(
            rows@,
            chat_ids@,
        ).to_multiset(),
        forall|m: MessageRecord| #[trigger] r@.to_multiset().count(m) <= retained_rows(
            rows@,
            chat_ids@,
        ).to_multiset().count(m),
        forall|a: int, m: MessageRecord|
            #![trigger r@[a], r@.to_multiset().count(m)]
            0 <= a < r@.len() && r@.to_multiset().count(m) < retained_rows(
                rows@,
                chat_ids@,
            ).to_multiset().count(m) ==> r@[a].date <= m.date,
{
    let ghost ids_view = chat_ids@;
    let ghost all = rows@;
    let mut rest = rows;
    let mut kept_rev: Vec<MessageRecord> = Vec::new();
    let ghost target = retained_rows(all, ids_view);
    proof {
        assert(target =~= retained_rows(rest@, ids_view) + kept_rev@.reverse());
    }
    while rest.len() > 0
        invariant
            ids_view == chat_ids@,
            target == retained_rows(all, ids_view),
            target == retained_rows(rest@, ids_view) + kept_rev@.reverse(),
        decreases rest.len(),
    {
        let ghost rest_before = rest@;
        let m = rest.pop().unwrap();
        let keep = match m.chat_id {
            Some(c) => contains_id(chat_ids, c) && m.date >= 0,
            None => false,
        };
        proof {
            assert(keep == retained(m, ids_view));
            if retained(m, ids_view) {
                assert(retained_rows(rest_before, ids_view)
                    == retained_rows(rest@, ids_view).push(m));
            } else {
                assert(retained_rows(rest_before, ids_view) == retained_rows(rest@, ids_view));
            }
        }
        if keep {
            let ghost kr_before = kept_rev@;
            kept_rev.push(m);
            proof {
                assert(kept_rev@.reverse() =~= seq![m] + kr_before.reverse());
                assert(retained_rows(rest@, ids_view).push(m) + kr_before.reverse()
                    =~= retained_rows(rest@, ids_view) + kept_rev@.reverse());
            }
        }
    }
    proof {
        assert(retained_rows(rest@, ids_view) =~= Seq::<MessageRecord>::empty());
        assert(target =~= kept_rev@.reverse());
    }
    let mut kept: Vec<MessageRecord> = Vec::new();
    while kept_rev.len() > 0
        invariant
            target == retained_rows(all, ids_view),
            kept@ + kept_rev@.reverse() == target,
        decreases kept_rev.len(),
    {
        let ghost kr_before = kept_rev@;
        let ghost kept_before = kept@;
        let m = kept_rev.pop().unwrap();
        kept.push(m);
        proof {
            assert(kr_before.reverse() =~= seq![m] + kept_rev@.reverse());
            assert(kept@ + kept_rev@.reverse() =~= kept_before + kr_before.reverse());
        }
    }
    proof {
        assert(kept_rev@.reverse() =~= Seq::<MessageRecord>::empty());
        assert(kept@ + kept_rev@.reverse() =~= kept@);
        assert(kept@ == target);
    }
    let mut sorted = sort_by_date(kept);
    proof {
        assert(sorted@.len() == sorted@.to_multiset().len());
        assert(target.len() == target.to_multiset().len());
        assert(sorted@.len() == target.len());
        lemma_retained_rows_pred(all, ids_view);
        assert forall|i: int| 0 <= i < sorted@.len() implies retained(
            #[trigger] sorted@[i],
            chat_ids@,
        ) by {
            assert(sorted@.contains(sorted@[i]));
            assert(sorted@.to_multiset().count(sorted@[i]) > 0);
            assert(target.to_multiset().count(sorted@[i]) > 0);
            assert(target.contains(sorted@[i]));
            let j = choose|j: int| 0 <= j < target.len() && target[j] == sorted@[i];
            assert(retained(target[j], ids_view));
        }
    }
    if sorted.len() > cap {
        let ghost sorted_before = sorted@;
        sorted.truncate(cap);
        proof {
            assert(sorted@ =~= sorted_before.take(cap as int));
            assert(sorted_before =~= sorted_before.take(cap as int) + sorted_before.skip(
                cap as int,
            ));
            vstd::seq_lib::lemma_multiset_commutative(
                sorted_before.take(cap as int),
                sorted_before.skip(cap as int),
            );
            let dropped = sorted_before.skip(cap as int);
            assert forall|a: int, m: MessageRecord|
                #![trigger sorted@[a], sorted@.to_multiset().count(m)]
                0 <= a < sorted@.len() && sorted@.to_multiset().count(m)
                    < target.to_multiset().count(m) implies sorted@[a].date <= m.date by {
                assert(target.to_multiset().count(m) == sorted@.to_multiset().count(m)
                    + dropped.to_multiset().count(m));
                assert(dropped.to_multiset().count(m) > 0);
                assert(dropped.contains(m));
                let j = choose|j: int| 0 <= j < dropped.len() && dropped[j] == m;
                assert(sorted_before[cap + j] == m);
                assert(sorted@[a] == sorted_before[a]);
                assert(sorted_before[a].date <= sorted_before[cap + j].date);
            }
        }
    } else {
        proof {
            assert forall|a: int, m: MessageRecord|
                #![trigger sorted@[a], sorted@.to_multiset().count(m)]
                0 <= a < sorted@.len() && sorted@.to_multiset().count(m)
                    < target.to_multiset().count(m) implies sorted@[a].date <= m.date by {
                assert(sorted@.to_multiset() == target.to_multiset());
            }
        }
    }
    sorted
}

// ---------------------------------------------------------------------------
// Content filtering.
// ---------------------------------------------------------------------------

/// A message is book-worthy content unless it is a reaction, a group
/// announcement, or a screen-sharing session marker.
pub open spec fn book_worthy(m: MessageRecord) -> bool {
    !m.is_reaction && !m.is_announcement && !m.is_shareplay
}

/// The book-worthy rows of the stream, in order: what the content filter
/// keeps.
pub open spec fn worthy_rows(rows: Seq<MessageRecord>) -> Seq<MessageRecord>
    decreases rows.len(),
{
    if rows.len() == 0 {
        Seq::empty()
    } else {
        let rest = worthy_rows(rows.drop_last());
        if book_worthy(rows.last()) {
            rest.push(rows.last())
        } else {
            rest
        }
    }
}

/// The content filter never grows the stream.
pub proof fn lemma_worthy_rows_len(rows: Seq<MessageRecord>)
    ensures
        worthy_rows(rows).len() <= rows.len(),
    decreases rows.len(),
{
    if rows.len() > 0 {
        lemma_worthy_rows_len(rows.drop_last());
    }
}

/// Every row the content filter keeps is book-worthy.
pub proof fn lemma_worthy_rows_pred(rows: Seq<MessageRecord>)
    ensures
        forall|i: int| 0 <= i < worthy_rows(rows).len() ==> book_worthy(
            #[trigger] worthy_rows(rows)[i],
        ),
    decreases rows.len(),
{
    if rows.len() > 0 {
        lemma_worthy_rows_pred(rows.drop_last());
        let rest = worthy_rows(rows.drop_last());
        let whole = worthy_rows(rows);
        if book_worthy(rows.last()) {
            assert forall|i: int| 0 <= i < whole.len() implies book_worthy(
                #[trigger] whole[i],
            ) by {
                if i < whole.len() - 1 {
                    assert(whole[i] == rest[i]);
                } else {
                    assert(whole[i] == rows.last());
                }
            }
        }
    }
}

/// The content filter keeps each book-worthy message exactly as often as
/// the stream holds it, and keeps nothing else.
pub proof fn lemma_worthy_rows_count(rows: Seq<MessageRecord>, m: MessageRecord)
    ensures
        worthy_rows(rows).to_multiset().count(m) == if book_worthy(m) {
            rows.to_multiset().count(m)
        } else {
            0
        },
    decreases rows.len(),
{
    if rows.len() == 0 {
        assert(worthy_rows(rows) =~= Seq::<MessageRecord>::empty());
        assert(!rows.contains(m));
        assert(!worthy_rows(rows).contains(m));
    } else {
        lemma_worthy_rows_count(rows.drop_last(), m);
        assert(rows =~= rows.drop_last().push(rows.last()));
        assert(rows.to_multiset() =~= rows.drop_last().to_multiset().insert(rows.last()));
        if book_worthy(rows.last()) {
            assert(worthy_rows(rows) == worthy_rows(rows.drop_last()).push(rows.last()));
            assert(worthy_rows(rows).to_multiset()
                =~= worthy_rows(rows.drop_last()).to_multiset().insert(rows.last()));
        }
    }
}

/// Filtering never disturbs ascending timestamp order.
pub proof fn lemma_worthy_rows_sorted(rows: Seq<MessageRecord>)
    requires
        msgs_sorted(rows),
    ensures
        msgs_sorted(worthy_rows(rows)),
    decreases rows.len(),
{
    if rows.len() > 0 {
        let dl = rows.drop_last();
        assert(msgs_sorted(dl));
        lemma_worthy_rows_sorted(dl);
        lemma_worthy_rows_pred(dl);
        let wdl = worthy_rows(dl);
        if book_worthy(rows.last()) {
            let whole = worthy_rows(rows);
            assert(whole == wdl.push(rows.last()));
            assert forall|a: int, b: int| 0 <= a < b < whole.len() implies
                whole[a].date <= whole[b].date by {
                if b < whole.len() - 1 {
                    assert(whole[a] == wdl[a]);
                    assert(whole[b] == wdl[b]);
                } else {
                    assert(whole[a] == wdl[a]);
                    assert(wdl.contains(wdl[a]));
                    assert(wdl.to_multiset().count(wdl[a]) > 0);
                    lemma_worthy_rows_count(dl, wdl[a]);
                    assert(dl.to_multiset().count(wdl[a]) > 0);
                    assert(dl.contains(wdl[a]));
                    let k = choose|k: int| 0 <= k < dl.len() && dl[k] == wdl[a];
                    assert(rows[k] == dl[k]);
                    assert(rows[k].date <= rows.last().date);
                }
            }
        }
    }
}

/// Filtering a stream of book-worthy messages returns it unchanged.
pub proof fn lemma_worthy_rows_identity(rows: Seq<MessageRecord>)
    requires
        forall|i: int| 0 <= i < rows.len() ==> book_worthy(#[trigger] rows[i]),
    ensures
        worthy_rows(rows) == rows,
    decreases rows.len(),
{
    if rows.len() == 0 {
        assert(worthy_rows(rows) =~= rows);
    } else {
        assert(forall|i: int| 0 <= i < rows.drop_last().len() ==> book_worthy(
            #[trigger] rows.drop_last()[i],
        ));
        lemma_worthy_rows_identity(rows.drop_last());
        assert(book_worthy(rows.last()));
        assert(worthy_rows(rows) =~= rows.drop_last().push(rows.last()));
        assert(rows.drop_last().push(rows.last()) =~= rows);
    }
}

/// The content filter is idempotent: filtering already-filtered output
/// yields the same sequence.
pub proof fn lemma_filter_messages_idempotent(s: Seq<MessageRecord>)
    ensures
        worthy_rows(worthy_rows(s)) == worthy_rows(s),
{
    lemma_worthy_rows_pred(s);
    lemma_worthy_rows_identity(worthy_rows(s));
}

/// Remove the message kinds that are not book-worthy content, preserving
/// the order of everything else.
pub fn filter_messages(msgs: Vec<MessageRecord>) -> (r: Vec<MessageRecord>)
    ensures
        r@ == worthy_rows(msgs@),
{
    let ghost all = msgs@;
    let ghost target = worthy_rows(all);
    let mut rest = msgs;
    let mut kept_rev: Vec<MessageRecord> = Vec::new();
    proof {
        assert(target =~= worthy_rows(rest@) + kept_rev@.reverse());
    }
    while rest.len() > 0
        invariant
            target == worthy_rows(all),
            target == worthy_rows(rest@) + kept_rev@.reverse(),
        decreases rest.len(),
    {
        let ghost rest_before = rest@;
        let m = rest.pop().unwrap();
        let keep = !m.is_reaction && !m.is_announcement && !m.is_shareplay;
        proof {
            assert(keep == book_worthy(m));
            if book_worthy(m) {
                assert(worthy_rows(rest_before) == worthy_rows(rest@).push(m));
            } else {
                assert(worthy_rows(rest_before) == worthy_rows(rest@));
            }
        }
        if keep {
            let ghost kr_before = kept_rev@;
            kept_rev.push(m);
            proof {
                assert(kept_rev@.reverse() =~= seq![m] + kr_before.reverse());
                assert(worthy_rows(rest@).push(m) + kr_before.reverse()
                    =~= worthy_rows(rest@) + kept_rev@.reverse());
            }
        }
    }
    proof {
        assert(worthy_rows(rest@) =~= Seq::<MessageRecord>::empty());
        assert(target =~= kept_rev@.reverse());
    }
    let mut out: Vec<MessageRecord> = Vec::new();
    while kept_rev.len() > 0
        invariant
            target == worthy_rows(all),
            out@ + kept_rev@.reverse() == target,
        decreases kept_rev.len(),
    {
        let ghost kr_before = kept_rev@;
        let ghost out_before = out@;
        let m = kept_rev.pop().unwrap();
        out.push(m);
        proof {
            assert(kr_before.reverse() =~= seq![m] + kept_rev@.reverse());
            assert(out@ + kept_rev@.reverse() =~= out_before + kr_before.reverse());
        }
    }
    proof {
        assert(kept_rev@.reverse() =~= Seq::<MessageRecord>::empty());
        assert(out@ + kept_rev@.reverse() =~= out@);
    }
    out
}

} // verus!


verus! {

/// The retrieval-and-filter stage as one pass: resolve the identifier,
/// keep the resolved chats' rows in ascending timestamp order under the
/// cap, then drop the message kinds that are not book-worthy content.
/// When the retained rows fit under the cap, the result holds exactly the
/// book-worthy ones among them; it never holds a message more often than
/// that stream does.  The result is what chaptering consumes.
pub fn prepare_stream(
    chats: &Vec<ConversationRecord>,
    identifier: &str,
    rows: Vec<MessageRecord>,
    cap: usize,
) -> (r: Vec<MessageRecord>)
    ensures
        msgs_sorted(r@),
        forall|i: int| 0 <= i < r@.len() ==> retained(
            #[trigger] r@[i],
            resolved_ids(chats@, identifier@),
        ) && book_worthy(r@[i]) && valid_stamp(r@[i]),
        r@.len() <= cap,
        retained_rows(rows@, resolved_ids(chats@, identifier@)).len() <= cap ==> r@.to_multiset()
            == worthy_rows(retained_rows(rows@, resolved_ids(chats@, identifier@))).to_multiset(),
        forall|m: MessageRecord| #[trigger] r@.to_multiset().count(m) <= worthy_rows(
            retained_rows(rows@, resolved_ids(chats@, identifier@)),
        ).to_multiset().count(m),
{
    let ghost all = rows@;
    let ids = resolve_chat_ids(chats, identifier);
    let ghost rids = resolved_ids(chats@, identifier@);
    let ghost target = retained_rows(all, rids);
    let retrieved = retrieve_messages(rows, &ids, cap);
    let ghost retrieved_view = retrieved@;
    let kept = filter_messages(retrieved);
    proof {
        assert(ids@ == rids);
        assert(retained_rows(all, ids@) == target);
        lemma_worthy_rows_sorted(retrieved_view);
        lemma_worthy_rows_pred(retrieved_view);
        lemma_worthy_rows_len(retrieved_view);
        assert forall|i: int| 0 <= i < kept@.len() implies retained(#[trigger] kept@[i], rids)
            && book_worthy(kept@[i]) && valid_stamp(kept@[i]) by {
            assert(book_worthy(kept@[i]));
            assert(kept@.contains(kept@[i]));
            assert(kept@.to_multiset().count(kept@[i]) > 0);
            lemma_worthy_rows_count(retrieved_view, kept@[i]);
            assert(retrieved_view.to_multiset().count(kept@[i]) > 0);
            assert(retrieved_view.contains(kept@[i]));
            let k = choose|k: int| 0 <= k < retrieved_view.len() && retrieved_view[k]
                == kept@[i];
            assert(retained(retrieved_view[k], ids@));
        }
        assert forall|m: MessageRecord| #[trigger] kept@.to_multiset().count(m) <= worthy_rows(
            target,
        ).to_multiset().count(m) by {
            lemma_worthy_rows_count(retrieved_view, m);
            lemma_worthy_rows_count(target, m);
            assert(retrieved_view.to_multiset().count(m) <= target.to_multiset().count(m));
        }
        if target.len() <= cap {
            assert(retrieved_view.to_multiset() == target.to_multiset());
            assert forall|m: MessageRecord| #[trigger] kept@.to_multiset().count(m)
                == worthy_rows(target).to_multiset().count(m) by {
                lemma_worthy_rows_count(retrieved_view, m);
                lemma_worthy_rows_count(target, m);
            }
            assert(kept@.to_multiset() =~= worthy_rows(target).to_multiset());
        }
    }
    kept
}

} // verus!

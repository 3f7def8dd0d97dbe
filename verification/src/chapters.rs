//! Chronological chaptering: the ordered, filtered message stream is
//! partitioned into contiguous runs that share a calendar month in the
//! caller's local time zone.  A chapter opens exactly when a message's
//! month differs from the open chapter's, and never reopens.

use vstd::prelude::*;
use crate::records::MessageRecord;
use crate::records::msgs_sorted;
use crate::records::valid_stamp;
use crate::dates::local_day_index;
use crate::dates::in_month;
use crate::dates::lemma_in_month_unique;
use crate::dates::local_civil_date;

verus! {

/// One calendar-month unit of the manuscript: its key and its messages,
/// in stream order.
pub struct Chapter {
    pub year: i64,
    pub month: u8,
    pub messages: Vec<MessageRecord>,
}

/// The messages of a chapter sequence, concatenated in order.
pub open spec fn chapters_messages(chs: Seq<Chapter>) -> Seq<MessageRecord>
    decreases chs.len(),
{
    if chs.len() == 0 {
        Seq::empty()
    } else {
        chapters_messages(chs.drop_last()) + chs.last().messages@
    }
}

/// A well-formed chapter under time-zone offset `tz`: it is nonempty, its
/// key is a valid month, and every one of its messages falls in that month.
pub open spec fn chapter_wf(ch: Chapter, tz: int) -> bool {
    &&& ch.year >= 1970
    &&& 1 <= ch.month <= 12
    &&& ch.messages@.len() > 0
    &&& forall|j: int| 0 <= j < ch.messages@.len() ==> in_month(
        local_day_index(#[trigger] ch.messages@[j].date as int, tz),
        ch.year as int,
        ch.month as int,
    )
}

/// Consecutive chapters have different keys: the first message of each
/// later chapter falls outside the month of the chapter before it.
pub open spec fn chapters_keys_change(chs: Seq<Chapter>, tz: int) -> bool {
    forall|k: int| 0 <= k < chs.len() - 1 ==> !in_month(
        local_day_index(#[trigger] chs[k + 1].messages@[0].date as int, tz),
        chs[k].year as int,
        chs[k].month as int,
    )
}

/// Reverse a message vector.
fn reverse_msgs(v: Vec<MessageRecord>) -> (r: Vec<MessageRecord>)
    ensures
        r@ == v@.reverse(),
{
    let ghost all = v@;
    let mut rest = v;
    let mut out: Vec<MessageRecord> = Vec::new();
    proof {
        assert(all.take(all.len() as int) =~= all);
        assert(all.skip(all.len() as int).reverse() =~= Seq::<MessageRecord>::empty());
    }
    while rest.len() > 0
        invariant
            rest@.len() <= all.len(),
            rest@ == all.take(rest@.len() as int),
            out@ =~= all.skip(rest@.len() as int).reverse(),
        decreases rest.len(),
    {
        let ghost rest_before = rest@;
        let m = rest.pop().unwrap();
        out.push(m);
        proof {
            assert(rest_before =~= rest@.push(m));
            assert(rest@ =~= rest_before.drop_last());
            assert(m == rest_before[rest_before.len() - 1]);
            assert(m == all[rest@.len() as int]);
            assert(rest@ =~= all.take(rest@.len() as int));
            assert(out@ =~= all.skip(rest@.len() as int).reverse());
        }
    }
    proof {
        assert(out@ =~= all.reverse());
    }
    out
}

/// Partition the time-ordered message stream into calendar-month chapters.
///
/// The result concatenates back to the input exactly: the partition is
/// contiguous, order-preserving, and drops or duplicates nothing.
#[verifier::rlimit(30)]
pub fn chapterize(msgs: Vec<MessageRecord>, tz_offset: i64) -> (r: Vec<Chapter>)
    requires
        msgs_sorted(msgs@),
        forall|i: int| 0 <= i < msgs@.len() ==> valid_stamp(#[trigger] msgs@[i]),
        -86400 < tz_offset < 86400,
    ensures
        chapters_messages(r@) == msgs@,
        forall|k: int| 0 <= k < r@.len() ==> chapter_wf(#[trigger] r@[k], tz_offset as int),
        chapters_keys_change(r@, tz_offset as int),
        msgs@.len() == 0 ==> r@.len() == 0,
{
    let ghost all = msgs@;
    let mut rev = reverse_msgs(msgs);
    let mut out: Vec<Chapter> = Vec::new();
    proof {
        assert(chapters_messages(out@) =~= Seq::<MessageRecord>::empty());
        assert(chapters_messages(out@) + rev@.reverse() =~= all);
    }
    while rev.len() > 0
        invariant
            -86400 < tz_offset < 86400,
            chapters_messages(out@) + rev@.reverse() == all,
            forall|j: int| 0 <= j < rev@.len() ==> valid_stamp(#[trigger] rev@[j]),
            forall|k: int| 0 <= k < out@.len() ==> chapter_wf(#[trigger] out@[k], tz_offset as int),
            chapters_keys_change(out@, tz_offset as int),
            all.len() == 0 ==> out@.len() == 0 && rev@.len() == 0,
        decreases rev.len(),
    {
        let ghost rev_before = rev@;
        let m = rev.pop().unwrap();
        proof {
            assert(rev_before.reverse() =~= seq![m] + rev@.reverse());
        }
        let (y, mo, _d) = local_civil_date(m.date, tz_offset);
        proof {
            assert(in_month(
                local_day_index(m.date as int, tz_offset as int),
                y as int,
                mo as int,
            ));
        }
        let same = if out.len() > 0 {
            let lastref = &out[out.len() - 1];
            lastref.year == y && lastref.month == mo
        } else {
            false
        };
        let ghost out_before = out@;
        if same {
            let mut ch = out.pop().unwrap();
            let ghost ch_before = ch;
            ch.messages.push(m);
            out.push(ch);
            proof {
                assert(out@.drop_last() =~= out_before.drop_last());
                assert(out@.last().messages@ =~= out_before.last().messages@.push(m));
                assert(chapters_messages(out@)
                    =~= chapters_messages(out_before) + seq![m]);
                assert(chapters_messages(out@) + rev@.reverse() =~= all);
                assert forall|k: int| 0 <= k < out@.len() implies chapter_wf(
                    #[trigger] out@[k],
                    tz_offset as int,
                ) by {
                    if k < out@.len() - 1 {
                        assert(out@[k] == out_before[k]);
                    } else {
                        assert(out@[k].year == out_before[k].year);
                        assert(out@[k].month == out_before[k].month);
                    }
                }
                assert forall|k: int| 0 <= k < out@.len() - 1 implies !in_month(
                    local_day_index(#[trigger] out@[k + 1].messages@[0].date as int,
                        tz_offset as int),
                    out@[k].year as int,
                    out@[k].month as int,
                ) by {
                    assert(out@[k] == out_before[k]);
                    assert(out@[k + 1].messages@[0] == out_before[k + 1].messages@[0]);
                    assert(!in_month(
                        local_day_index(out_before[k + 1].messages@[0].date as int,
                            tz_offset as int),
                        out_before[k].year as int,
                        out_before[k].month as int,
                    ));
                }
            }
        } else {
            let mut chmsgs: Vec<MessageRecord> = Vec::new();
            chmsgs.push(m);
            let ch = Chapter { year: y, month: mo, messages: chmsgs };
            out.push(ch);
            proof {
                assert(out@.drop_last() =~= out_before);
                assert(out@.last().messages@ =~= seq![m]);
                assert(chapters_messages(out@)
                    =~= chapters_messages(out_before) + seq![m]);
                assert(chapters_messages(out@) + rev@.reverse() =~= all);
                assert forall|k: int| 0 <= k < out@.len() - 1 implies !in_month(
                    local_day_index(#[trigger] out@[k + 1].messages@[0].date as int,
                        tz_offset as int),
                    out@[k].year as int,
                    out@[k].month as int,
                ) by {
                    if k < out@.len() - 2 {
                        assert(out@[k] == out_before[k]);
                        assert(out@[k + 1] == out_before[k + 1]);
                        assert(!in_month(
                            local_day_index(out_before[k + 1].messages@[0].date as int,
                                tz_offset as int),
                            out_before[k].year as int,
                            out_before[k].month as int,
                        ));
                    } else {
                        let day = local_day_index(m.date as int, tz_offset as int);
                        assert(out@[k + 1].messages@[0] == m);
                        assert(out@[k] == out_before[k]);
                        if in_month(day, out@[k].year as int, out@[k].month as int) {
                            lemma_in_month_unique(
                                day,
                                y as int,
                                mo as int,
                                out@[k].year as int,
                                out@[k].month as int,
                            );
                            assert(false);
                        }
                    }
                }
            }
        }
    }
    proof {
        assert(rev@.reverse() =~= Seq::<MessageRecord>::empty());
        assert(chapters_messages(out@) + rev@.reverse() =~= chapters_messages(out@));
    }
    out
}

/// Partition the stream into chapters under the machine's local time zone
/// at the given moment, returning the zone offset that was used beside the
/// chapters.  Whatever offset the zone lookup returns, the partition laws
/// hold for it: the chapters concatenate back to the input, every chapter
/// is a well-formed month run under that offset, and consecutive keys
/// differ.
pub fn chapterize_local_time(msgs: Vec<MessageRecord>, now_unix_seconds: i64) -> (r: (
    Vec<Chapter>,
    i64,
))
    requires
        msgs_sorted(msgs@),
        forall|i: int| 0 <= i < msgs@.len() ==> valid_stamp(#[trigger] msgs@[i]),
    ensures
        -86400 < r.1 < 86400,
        chapters_messages(r.0@) == msgs@,
        forall|k: int| 0 <= k < r.0@.len() ==> chapter_wf(#[trigger] r.0@[k], r.1 as int),
        chapters_keys_change(r.0@, r.1 as int),
        msgs@.len() == 0 ==> r.0@.len() == 0,
{
    let tz = crate::dates::local_utc_offset(now_unix_seconds);
    let chapters = chapterize(msgs, tz);
    (chapters, tz)
}

/// Strict chronological order on chapter keys.
pub open spec fn key_lt(y1: int, m1: int, y2: int, m2: int) -> bool {
    y1 < y2 || (y1 == y2 && m1 < m2)
}

/// The stream hands each chapter's first message no earlier day than the
/// previous chapter's last message.
pub open spec fn chapters_day_ordered(chs: Seq<Chapter>, tz: int) -> bool {
    forall|k: int| 0 <= k < chs.len() - 1 ==> local_day_index(
        #[trigger] chs[k].messages@.last().date as int,
        tz,
    ) <= local_day_index(chs[k + 1].messages@[0].date as int, tz)
}

proof fn lemma_keys_grow_step(chs: Seq<Chapter>, tz: int, k: int)
    requires
        forall|x: int| 0 <= x < chs.len() ==> chapter_wf(#[trigger] chs[x], tz),
        chapters_keys_change(chs, tz),
        chapters_day_ordered(chs, tz),
        0 <= k < chs.len() - 1,
    ensures
        key_lt(chs[k].year as int, chs[k].month as int, chs[k + 1].year as int,
            chs[k + 1].month as int),
{
    let d1 = local_day_index(chs[k].messages@.last().date as int, tz);
    let d2 = local_day_index(chs[k + 1].messages@[0].date as int, tz);
    assert(chapter_wf(chs[k], tz));
    assert(chapter_wf(chs[k + 1], tz));
    assert(in_month(d1, chs[k].year as int, chs[k].month as int));
    assert(in_month(d2, chs[k + 1].year as int, chs[k + 1].month as int));
    crate::dates::lemma_in_month_ordered(
        d1,
        chs[k].year as int,
        chs[k].month as int,
        d2,
        chs[k + 1].year as int,
        chs[k + 1].month as int,
    );
    if chs[k].year == chs[k + 1].year && chs[k].month == chs[k + 1].month {
        assert(!in_month(d2, chs[k].year as int, chs[k].month as int));
        assert(false);
    }
}

proof fn lemma_keys_grow_chain(chs: Seq<Chapter>, tz: int, k1: int, k2: int)
    requires
        forall|x: int| 0 <= x < chs.len() ==> chapter_wf(#[trigger] chs[x], tz),
        chapters_keys_change(chs, tz),
        chapters_day_ordered(chs, tz),
        0 <= k1 < k2 < chs.len(),
    ensures
        key_lt(chs[k1].year as int, chs[k1].month as int, chs[k2].year as int,
            chs[k2].month as int),
    decreases k2 - k1,
{
    if k2 == k1 + 1 {
        lemma_keys_grow_step(chs, tz, k1);
    } else {
        lemma_keys_grow_chain(chs, tz, k1, k2 - 1);
        lemma_keys_grow_step(chs, tz, k2 - 1);
    }
}

/// Chapters are never reopened: in a chaptering whose chapters are
/// well-formed month runs with changing keys, fed by a stream that hands
/// each chapter a first day no earlier than the previous chapter's last,
/// the chapter keys strictly increase, so no key appears twice.
pub proof fn lemma_chapters_never_reopen(chs: Seq<Chapter>, tz: int)
    requires
        forall|x: int| 0 <= x < chs.len() ==> chapter_wf(#[trigger] chs[x], tz),
        chapters_keys_change(chs, tz),
        chapters_day_ordered(chs, tz),
    ensures
        forall|k1: int, k2: int| 0 <= k1 < k2 < chs.len() ==> key_lt(
            #[trigger] chs[k1].year as int,
            chs[k1].month as int,
            #[trigger] chs[k2].year as int,
            chs[k2].month as int,
        ),
{
    assert forall|k1: int, k2: int| 0 <= k1 < k2 < chs.len() implies key_lt(
        #[trigger] chs[k1].year as int,
        chs[k1].month as int,
        #[trigger] chs[k2].year as int,
        chs[k2].month as int,
    ) by {
        lemma_keys_grow_chain(chs, tz, k1, k2);
    }
}

} // verus!

verus! {

/// All of the stream's timestamps use one convention: all plain seconds,
/// or all nanoseconds.
pub open spec fn uniform_convention(s: Seq<MessageRecord>) -> bool {
    (forall|i: int| 0 <= i < s.len()
        ==> #[trigger] s[i].date < crate::dates::NANOSECONDS_THRESHOLD) || (forall|i: int|
        0 <= i < s.len() ==> #[trigger] s[i].date >= crate::dates::NANOSECONDS_THRESHOLD)
}

proof fn lemma_chapters_messages_split(a: Seq<Chapter>, b: Seq<Chapter>)
    ensures
        chapters_messages(a + b) == chapters_messages(a) + chapters_messages(b),
    decreases b.len(),
{
    if b.len() == 0 {
        assert(a + b =~= a);
        assert(chapters_messages(b) =~= Seq::<MessageRecord>::empty());
        assert(chapters_messages(a) + chapters_messages(b) =~= chapters_messages(a));
    } else {
        lemma_chapters_messages_split(a, b.drop_last());
        assert((a + b).drop_last() =~= a + b.drop_last());
        assert((a + b).last() == b.last());
        assert(chapters_messages(a + b)
            =~= chapters_messages(a) + chapters_messages(b.drop_last()) + b.last().messages@);
        assert(chapters_messages(b) == chapters_messages(b.drop_last()) + b.last().messages@);
        assert(chapters_messages(a) + chapters_messages(b.drop_last()) + b.last().messages@
            =~= chapters_messages(a) + chapters_messages(b));
    }
}

/// In a time-ordered stream, each chapter's last message is dated no later
/// than the next chapter's first, and both stand in the stream.
proof fn lemma_adjacent_chapter_dates(chs: Seq<Chapter>, k: int)
    requires
        msgs_sorted(chapters_messages(chs)),
        forall|x: int| 0 <= x < chs.len() ==> #[trigger] chs[x].messages@.len() > 0,
        0 <= k < chs.len() - 1,
    ensures
        chs[k].messages@.last().date <= chs[k + 1].messages@[0].date,
        chapters_messages(chs).contains(chs[k].messages@.last()),
        chapters_messages(chs).contains(chs[k + 1].messages@[0]),
{
    let s = chapters_messages(chs);
    assert(chs =~= chs.take(k + 1) + chs.skip(k + 1));
    lemma_chapters_messages_split(chs.take(k + 1), chs.skip(k + 1));
    let front = chapters_messages(chs.take(k + 1));
    let back = chapters_messages(chs.skip(k + 1));
    assert(s == front + back);
    assert(chs.take(k + 1).drop_last() =~= chs.take(k));
    assert(chs.take(k + 1).last() == chs[k]);
    assert(front == chapters_messages(chs.take(k)) + chs[k].messages@);
    let p = front.len() as int;
    assert(p >= 1);
    assert(front[p - 1] == chs[k].messages@.last());
    assert(chs.skip(k + 1) =~= seq![chs[k + 1]] + chs.skip(k + 2));
    lemma_chapters_messages_split(seq![chs[k + 1]], chs.skip(k + 2));
    assert(seq![chs[k + 1]].drop_last() =~= Seq::<Chapter>::empty());
    assert(chapters_messages(Seq::<Chapter>::empty()) =~= Seq::<MessageRecord>::empty());
    assert(chapters_messages(seq![chs[k + 1]]) =~= chs[k + 1].messages@);
    assert(back == chapters_messages(seq![chs[k + 1]]) + chapters_messages(chs.skip(k + 2)));
    assert(back[0] == chs[k + 1].messages@[0]);
    assert(s[p - 1] == chs[k].messages@.last());
    assert(s[p] == chs[k + 1].messages@[0]);
    assert(s[p - 1].date <= s[p].date);
}

/// Chapters from a time-ordered stream of well-formed timestamps, all on
/// one timestamp convention, have strictly increasing keys: no calendar
/// month is ever reopened.
pub proof fn lemma_sorted_stream_never_reopens(chs: Seq<Chapter>, tz: int)
    requires
        msgs_sorted(chapters_messages(chs)),
        forall|i: int| 0 <= i < chapters_messages(chs).len() ==> valid_stamp(
            #[trigger] chapters_messages(chs)[i],
        ),
        uniform_convention(chapters_messages(chs)),
        forall|x: int| 0 <= x < chs.len() ==> chapter_wf(#[trigger] chs[x], tz),
        chapters_keys_change(chs, tz),
    ensures
        forall|k1: int, k2: int| 0 <= k1 < k2 < chs.len() ==> key_lt(
            #[trigger] chs[k1].year as int,
            chs[k1].month as int,
            #[trigger] chs[k2].year as int,
            chs[k2].month as int,
        ),
{
    let s = chapters_messages(chs);
    assert forall|k: int| 0 <= k < chs.len() - 1 implies local_day_index(
        #[trigger] chs[k].messages@.last().date as int,
        tz,
    ) <= local_day_index(chs[k + 1].messages@[0].date as int, tz) by {
        assert(chapter_wf(chs[k], tz));
        assert(chapter_wf(chs[k + 1], tz));
        lemma_adjacent_chapter_dates(chs, k);
        let m1 = chs[k].messages@.last();
        let m2 = chs[k + 1].messages@[0];
        let i1 = choose|i: int| 0 <= i < s.len() && s[i] == m1;
        let i2 = choose|i: int| 0 <= i < s.len() && s[i] == m2;
        assert(valid_stamp(s[i1]));
        assert(valid_stamp(s[i2]));
        crate::dates::lemma_local_day_index_monotone(m1.date as int, m2.date as int, tz);
    }
    lemma_chapters_never_reopen(chs, tz);
}

} // verus!

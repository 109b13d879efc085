//! The sync driver's decisions: where a run starts (the derived cursor less
//! the edit-overlap window), whether a page size is acceptable, and what one
//! fetched page yields — the records to persist in ascending time order, the
//! lower bound of the next history query, and whether the run is done.
//!
//! The loop around these decisions performs the remote fetches and the
//! writes; any fetch or persistence failure aborts the channel's run, and
//! the caller may simply re-run later: persistence is idempotent and the
//! cursor is derived from persisted data, so partial progress is safe.

use vstd::prelude::*;
use crate::ArchiveError;
use crate::message::{
    MessageVariant, Record, RecordV, variant_ts_micros, persistable, record_of,
    extract_record, message_ts,
};
use crate::store::{apply_records, key_of, views_of, lemma_replay_no_change};

verus! {

/// Most messages one history query may return: the remote API's maximum.
pub const PAGE_SIZE: u32 = 1000;

/// Default edit-overlap window: sixty minutes, in microseconds.
pub const DEFAULT_EDIT_WINDOW_MICROS: u64 = 3_600_000_000;

/// The effective start cursor of a run.
pub open spec fn start_cursor(last: Option<u64>, window: u64) -> u64 {
    match last {
        None => 1,
        Some(t) => if t >= window {
            (t - window) as u64
        } else {
            1
        },
    }
}

/// Computes where fetching resumes. With no prior record the run starts from
/// the beginning of time, so the full history is pulled. Otherwise it starts
/// at the last stored timestamp minus the edit-overlap window, deliberately
/// re-fetching a trailing span so edits land as overwrites; a window that
/// reaches past the beginning of time behaves like a first run. With a zero
/// window the start is exactly the last stored timestamp.
pub fn compute_start(last: Option<u64>, edit_window_micros: u64) -> (r: u64)
    ensures
        r == start_cursor(last, edit_window_micros),
        match last {
            Some(t) => edit_window_micros == 0 ==> r == t,
            None => true,
        },
{
    match last {
        None => 1,
        Some(t) => if t >= edit_window_micros {
            t - edit_window_micros
        } else {
            1
        },
    }
}

/// Accepts a page size only up to the remote API's maximum.
pub fn validate_page_size(count: u32) -> (r: Result<(), ArchiveError>)
    ensures
        (r is Ok) == (count <= PAGE_SIZE),
        r matches Err(e) ==> e is PageSizeExceeded,
{
    if count <= PAGE_SIZE {
        Ok(())
    } else {
        Err(ArchiveError::PageSizeExceeded)
    }
}

/// The records one message contributes: one if it is persistable, none
/// otherwise.
pub open spec fn maybe_rec(channel_id: Seq<char>, m: MessageVariant) -> Seq<RecordV> {
    if persistable(m) {
        seq![record_of(channel_id, m)]
    } else {
        Seq::empty()
    }
}

/// The records one fetched page contributes, in ascending time order: the
/// page arrives newest-first, so its persistable variants are taken back to
/// front.
pub open spec fn page_records(channel_id: Seq<char>, ms: Seq<MessageVariant>) -> Seq<RecordV>
    decreases ms.len(),
{
    if ms.len() == 0 {
        Seq::empty()
    } else {
        maybe_rec(channel_id, ms.last()) + page_records(channel_id, ms.drop_last())
    }
}

/// Peeling the newest (first) message of a page appends its record, if any,
/// at the end of the ascending sequence.
proof fn lemma_page_records_unfold_first(channel_id: Seq<char>, ms: Seq<MessageVariant>)
    requires
        ms.len() > 0,
    ensures
        page_records(channel_id, ms) == page_records(
            channel_id,
            ms.subrange(1, ms.len() as int),
        ) + maybe_rec(channel_id, ms[0]),
    decreases ms.len(),
{
    let tail = ms.subrange(1, ms.len() as int);
    if ms.len() == 1 {
        assert(ms.drop_last() =~= Seq::<MessageVariant>::empty());
        assert(tail =~= Seq::<MessageVariant>::empty());
        assert(ms.last() == ms[0]);
        assert(page_records(channel_id, ms) =~= page_records(channel_id, tail) + maybe_rec(
            channel_id,
            ms[0],
        ));
    } else {
        lemma_page_records_unfold_first(channel_id, ms.drop_last());
        assert(ms.drop_last()[0] == ms[0]);
        assert(ms.drop_last().subrange(1, ms.drop_last().len() as int) =~= tail.drop_last());
        assert(tail.last() == ms.last());
        assert(page_records(channel_id, ms) == maybe_rec(channel_id, ms.last()) + (
        page_records(channel_id, tail.drop_last()) + maybe_rec(channel_id, ms[0])));
        assert(page_records(channel_id, tail) == maybe_rec(channel_id, tail.last())
            + page_records(channel_id, tail.drop_last()));
        assert(maybe_rec(channel_id, ms.last()) + (page_records(channel_id, tail.drop_last())
            + maybe_rec(channel_id, ms[0])) =~= (maybe_rec(channel_id, ms.last())
            + page_records(channel_id, tail.drop_last())) + maybe_rec(channel_id, ms[0]));
    }
}

/// What the driver decides for one fetched page.
pub struct PageOutcome {
    /// The records to persist, in ascending time order.
    pub records: Vec<Record>,
    /// The lower bound for the next history query: the newest message's
    /// timestamp, so that exact message may be re-delivered and harmlessly
    /// re-persisted.
    pub next_oldest: u64,
    /// The run is done: the batch was empty, or no more pages remain (an
    /// absent flag means no more pages, never an error).
    pub done: bool,
}

/// Turns one fetched page into the driver's decisions: which records to
/// persist (the standard text messages, ascending by time), where the next
/// query resumes (the newest message's timestamp — taken from any variant,
/// persisted or not — or the previous bound if the newest carries no
/// parseable timestamp), and whether the run is done.
pub fn process_page(
    channel_id: &str,
    oldest: u64,
    messages: &Vec<MessageVariant>,
    has_more: Option<bool>,
) -> (out: PageOutcome)
    ensures
        views_of(out.records@) == page_records(channel_id@, messages@),
        out.done == (messages@.len() == 0 || !(has_more matches Some(true))),
        messages@.len() == 0 ==> out.next_oldest == oldest && out.records@.len() == 0,
        messages@.len() > 0 ==> out.next_oldest == (match variant_ts_micros(messages@[0]) {
            Some(t) => t,
            None => oldest,
        }),
        descending(messages@) ==> ascending(views_of(out.records@)),
{
    proof {
        if descending(messages@) {
            lemma_page_records_ascending(channel_id@, messages@);
        }
    }
    let n = messages.len();
    if n == 0 {
        let out = PageOutcome { records: Vec::new(), next_oldest: oldest, done: true };
        proof {
            assert(views_of(out.records@) =~= page_records(channel_id@, messages@));
        }
        return out;
    }
    let next_oldest = match message_ts(&messages[0]) {
        Some(t) => t,
        None => oldest,
    };
    let done = match has_more {
        Some(b) => !b,
        None => true,
    };
    let mut records: Vec<Record> = Vec::new();
    let mut i: usize = n;
    proof {
        assert(messages@.subrange(n as int, n as int) =~= Seq::<MessageVariant>::empty());
        assert(views_of(records@) =~= Seq::<RecordV>::empty());
    }
    while i > 0
        invariant
            i <= n,
            n == messages@.len(),
            views_of(records@) == page_records(
                channel_id@,
                messages@.subrange(i as int, n as int),
            ),
        decreases i,
    {
        i = i - 1;
        let ghost before = records@;
        let ghost sub = messages@.subrange(i as int, n as int);
        match extract_record(channel_id, &messages[i]) {
            Some(rec) => {
                proof {
                    assert(rec@ == record_of(channel_id@, messages@[i as int]));
                }
                records.push(rec);
            },
            None => {},
        }
        proof {
            lemma_page_records_unfold_first(channel_id@, sub);
            assert(sub[0] == messages@[i as int]);
            assert(sub.subrange(1, sub.len() as int) =~= messages@.subrange(
                i as int + 1,
                n as int,
            ));
            assert(views_of(records@) =~= views_of(before) + maybe_rec(
                channel_id@,
                messages@[i as int],
            ));
        }
    }
    proof {
        assert(messages@.subrange(0, n as int) =~= messages@);
    }
    PageOutcome { records, next_oldest, done }
}

// ---------------------------------------------------------------------------
// Ordering and cursor laws
// ---------------------------------------------------------------------------

/// The timestamp a variant carries, for ordering statements.
pub open spec fn ts_val(m: MessageVariant) -> u64 {
    match variant_ts_micros(m) {
        Some(t) => t,
        None => 0,
    }
}

/// The variant carries a parseable timestamp.
pub open spec fn has_ts(m: MessageVariant) -> bool {
    variant_ts_micros(m) is Some
}

/// The page is in descending time order, as the feed returns it: the first
/// element is the newest.
pub open spec fn descending(ms: Seq<MessageVariant>) -> bool {
    forall|i: int, j: int| 0 <= i < j < ms.len() && has_ts(#[trigger] ms[i]) && has_ts(
        #[trigger] ms[j],
    ) ==> ts_val(ms[i]) > ts_val(ms[j])
}

/// The records are in strictly ascending time order.
pub open spec fn ascending(rs: Seq<RecordV>) -> bool {
    forall|i: int, j: int| 0 <= i < j < rs.len() ==> #[trigger] rs[i].ts < #[trigger] rs[j].ts
}

/// Every record of a page comes from a persistable message of the page.
proof fn lemma_page_records_from(channel_id: Seq<char>, ms: Seq<MessageVariant>, k: int)
    requires
        0 <= k < page_records(channel_id, ms).len(),
    ensures
        exists|i: int| 0 <= i < ms.len() && persistable(#[trigger] ms[i]) && page_records(
            channel_id,
            ms,
        )[k] == record_of(channel_id, ms[i]),
    decreases ms.len(),
{
    let rs = page_records(channel_id, ms);
    let head = maybe_rec(channel_id, ms.last());
    if persistable(ms.last()) && k == 0 {
        assert(rs[0] == record_of(channel_id, ms[ms.len() - 1]));
    } else {
        let k2 = k - head.len();
        assert(rs[k] == page_records(channel_id, ms.drop_last())[k2]);
        lemma_page_records_from(channel_id, ms.drop_last(), k2);
        let i = choose|i: int| 0 <= i < ms.drop_last().len() && persistable(
            #[trigger] ms.drop_last()[i],
        ) && page_records(channel_id, ms.drop_last())[k2] == record_of(
            channel_id,
            ms.drop_last()[i],
        );
        assert(ms.drop_last()[i] == ms[i]);
        assert(persistable(ms[i]) && rs[k] == record_of(channel_id, ms[i]));
    }
}

/// Ordering preservation: a page fetched in descending time order yields its
/// records in strictly ascending time order.
pub proof fn lemma_page_records_ascending(channel_id: Seq<char>, ms: Seq<MessageVariant>)
    requires
        descending(ms),
    ensures
        ascending(page_records(channel_id, ms)),
    decreases ms.len(),
{
    if ms.len() > 0 {
        assert(descending(ms.drop_last()));
        lemma_page_records_ascending(channel_id, ms.drop_last());
        let rs = page_records(channel_id, ms);
        let rest = page_records(channel_id, ms.drop_last());
        let head = maybe_rec(channel_id, ms.last());
        assert forall|p: int, q: int| 0 <= p < q < rs.len() implies rs[p].ts < rs[q].ts by {
            if persistable(ms.last()) && p == 0 {
                let r0 = record_of(channel_id, ms.last());
                assert(rs[0] == r0);
                assert(r0.ts == ts_val(ms.last()));
                let k = q - 1;
                assert(rs[q] == rest[k]);
                lemma_page_records_from(channel_id, ms.drop_last(), k);
                let i = choose|i: int| 0 <= i < ms.drop_last().len() && persistable(
                    #[trigger] ms.drop_last()[i],
                ) && rest[k] == record_of(channel_id, ms.drop_last()[i]);
                assert(ms.drop_last()[i] == ms[i]);
                assert(has_ts(ms[i]) && has_ts(ms.last()));
                assert(ts_val(ms[i]) > ts_val(ms.last()));
                assert(rest[k].ts == ts_val(ms[i]));
            } else {
                let off = head.len();
                assert(rs[p] == rest[p - off] && rs[q] == rest[q - off]);
            }
        }
    }
}

/// Cursor monotonicity: with no overlap window a re-run resumes exactly at
/// the derived cursor, and re-delivering records the store already holds —
/// all a complete previous run left behind — changes nothing.
pub proof fn lemma_rerun_converges(
    m: Map<(Seq<char>, u64), RecordV>,
    rs: Seq<RecordV>,
    last: u64,
)
    requires
        forall|i: int| 0 <= i < rs.len() ==> m.contains_key(key_of(#[trigger] rs[i]))
            && m[key_of(rs[i])] == rs[i],
    ensures
        start_cursor(Some(last), 0) == last,
        apply_records(m, rs) == m,
{
    lemma_replay_no_change(m, rs);
}

} // verus!

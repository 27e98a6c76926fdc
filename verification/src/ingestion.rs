//! The integer side of ingestion statistics: which rows of a batch of store events are
//! measured, and how long ago each row was logged.
use vstd::prelude::*;

use crate::events::StoreEvent2;
use crate::types::{RowId, StoreId};

verus! {

/// The row ids of the chunks of the events for the store `store_id`, event by event, each
/// chunk's rows in order.
pub open spec fn ingested_rows(store_id: (crate::types::StoreKind, Seq<char>), events: Seq<StoreEvent2>) -> Seq<RowId>
    decreases events.len(),
{
    if events.len() == 0 {
        Seq::empty()
    } else {
        let rest = ingested_rows(store_id, events.drop_last());
        let e = events.last();
        if e.store_id@ == store_id {
            rest + e.diff.chunk@.row_ids
        } else {
            rest
        }
    }
}

/// The row ids that the statistics of the store `store_id` measure, from a batch of events:
/// those of the events for that store, in order.
pub fn ingested_row_ids(store_id: &StoreId, events: &[StoreEvent2]) -> (r: Vec<RowId>)
    ensures
        r@ == ingested_rows(store_id@, events@),
{
    let mut out: Vec<RowId> = Vec::new();
    let n = events.len();
    let mut k: usize = 0;
    while k < n
        invariant
            n == events@.len(),
            k <= n,
            out@ == ingested_rows(store_id@, events@.take(k as int)),
        decreases n - k,
    {
        let e = &events[k];
        proof {
            assert(events@.take(k + 1).drop_last() =~= events@.take(k as int));
            assert(events@.take(k + 1).last() == events@[k as int]);
        }
        if e.store_id.same(store_id) {
            let rows = e.diff.chunk.row_ids();
            let m = rows.len();
            let mut i: usize = 0;
            let ghost before = out@;
            while i < m
                invariant
                    m == rows@.len(),
                    i <= m,
                    out@ == before + rows@.take(i as int),
                decreases m - i,
            {
                out.push(rows[i]);
                proof {
                    assert(rows@.take(i + 1) =~= rows@.take(i as int).push(rows@[i as int]));
                    assert(out@ =~= before + rows@.take(i + 1));
                }
                i = i + 1;
            }
            proof {
                assert(rows@.take(m as int) =~= rows@);
            }
        }
        k = k + 1;
    }
    proof {
        assert(events@.take(n as int) =~= events@);
    }
    out
}

/// How many nanoseconds ago the row `row_id` was logged, seen at `now_nanos` nanoseconds
/// since the epoch; `None` if the row claims to come from the future.
pub fn latency_nanos(now_nanos: u64, row_id: RowId) -> (r: Option<u64>)
    ensures
        now_nanos >= row_id.0 / 0x1_0000_0000_0000_0000u128 ==> r == Some(
            (now_nanos - row_id.0 / 0x1_0000_0000_0000_0000u128) as u64,
        ),
        now_nanos < row_id.0 / 0x1_0000_0000_0000_0000u128 ==> r is None,
{
    now_nanos.checked_sub(row_id.nanoseconds_since_epoch())
}

} // verus!

//! How what a store holds lies in the files of its directory: the segments
//! in the segment files, and what is pending in the log.

use crate::index::{
    index_of, indexes_match, is_highest, lemma_overlaid_is_union, openable, StoreData,
};
use crate::mem_table::{all_fit, meaning, meanings, TableEntry};
use crate::record::{
    fits, last_position, lemma_folded, lemma_last_position, lemma_scan_records, overlaid, records,
    table_of, well_formed, Stored,
};
use crate::segment::{
    is_canonical_segment_name, is_segment_name, lemma_other_names, lemma_segment_name,
    segment_name, temp_segment_name, wal_name, wal_temp_name,
};
use crate::state::{lemma_merged_skip, merged_below};
use crate::directory::{contents, ChangeModel};
use crate::record::{encoded, scan};
use vstd::prelude::*;

verus! {

/// What the segment files of a directory say, by segment id.
pub open spec fn segments_of(files: Map<Seq<u8>, Seq<u8>>) -> Map<u64, Map<Seq<u8>, Seq<u8>>> {
    Map::new(
        |id: u64| files.contains_key(segment_name(id)),
        |id: u64| table_of(records(files[segment_name(id)])),
    )
}

/// Whether the log is there, holds whole records only, and says what is
/// pending; and the count of bytes since the last flush is within its length.
pub open spec fn log_consistent(
    files: Map<Seq<u8>, Seq<u8>>,
    pending: Map<Seq<u8>, Seq<u8>>,
    since: u64,
) -> bool {
    &&& files.contains_key(wal_name())
    &&& well_formed(files[wal_name()])
    &&& table_of(records(files[wal_name()])) == pending
    &&& since <= files[wal_name()].len()
}

/// Whether two directories hold the same segment files.
pub open spec fn same_segments(a: Map<Seq<u8>, Seq<u8>>, b: Map<Seq<u8>, Seq<u8>>) -> bool {
    forall|n: Seq<u8>| #[trigger]
        is_segment_name(n) ==> a.contains_key(n) == b.contains_key(n) && (a.contains_key(n)
            ==> a[n] == b[n])
}

/// What holds of the segment files of one directory holds of those of
/// another that has the same segment files.
pub proof fn lemma_same_segments(
    a: Map<Seq<u8>, Seq<u8>>,
    b: Map<Seq<u8>, Seq<u8>>,
    indexes: Map<u64, StoreData>,
    highest: u64,
)
    requires
        same_segments(a, b),
    ensures
        segments_of(a) == segments_of(b),
        openable(a) == openable(b),
        indexes_match(indexes, a) == indexes_match(indexes, b),
        is_highest(a, highest) == is_highest(b, highest),
{
    assert forall|id: u64|
        a.contains_key(#[trigger] segment_name(id)) == b.contains_key(segment_name(id)) && (
        a.contains_key(segment_name(id)) ==> a[segment_name(id)] == b[segment_name(id)]) by {
        lemma_segment_name(id);
        assert(is_segment_name(segment_name(id)));
    }
    assert(segments_of(a) =~= segments_of(b));
    if openable(a) {
        assert forall|n: Seq<u8>| b.contains_key(n) && #[trigger] is_segment_name(
            n,
        ) implies is_canonical_segment_name(n) && well_formed(b[n]) by {
            assert(a.contains_key(n));
        }
    }
    if openable(b) {
        assert forall|n: Seq<u8>| a.contains_key(n) && #[trigger] is_segment_name(
            n,
        ) implies is_canonical_segment_name(n) && well_formed(a[n]) by {
            assert(b.contains_key(n));
        }
    }
}

/// The names of segment files differ from the names of the log, of its
/// temporary replacement and of temporary segment files, and from each other.
pub proof fn lemma_names_differ(id: u64, other: u64)
    ensures
        segment_name(id) != wal_name(),
        segment_name(id) != wal_temp_name(),
        segment_name(id) != temp_segment_name(other),
        temp_segment_name(other) != wal_name(),
        temp_segment_name(other) != wal_temp_name(),
        wal_name() != wal_temp_name(),
        id != other ==> segment_name(id) != segment_name(other),
{
    lemma_segment_name(id);
    lemma_segment_name(other);
    lemma_other_names(other);
}

/// Without bytes there are no records.
pub proof fn lemma_empty_log()
    ensures
        well_formed(Seq::<u8>::empty()),
        records(Seq::<u8>::empty()) == Seq::<Stored>::empty(),
        table_of(Seq::<Stored>::empty()) == Map::<Seq<u8>, Seq<u8>>::empty(),
{
}

/// Laying one more segment over what the segments below it say together
/// gives what the segments up to it say together.
pub proof fn lemma_merge_step(
    files: Map<Seq<u8>, Seq<u8>>,
    below: Map<Seq<u8>, Seq<u8>>,
    bound: nat,
    id: u64,
)
    requires
        files.contains_key(segment_name(id)),
        below == merged_below(segments_of(files), bound),
        bound <= id,
        forall|x: u64| bound <= x < id ==> !files.contains_key(#[trigger] segment_name(x)),
    ensures
        overlaid(below, records(files[segment_name(id)])) == merged_below(
            segments_of(files),
            id as nat + 1,
        ),
{
    let segments = segments_of(files);
    assert forall|x: u64| bound <= x < id implies !segments.contains_key(x) by {
        assert(!files.contains_key(segment_name(x)));
    }
    lemma_merged_skip(segments, bound, id as nat);
    lemma_overlaid_is_union(below, records(files[segment_name(id)]));
    assert(segments.contains_key(id));
}

/// A table into which the records of some bytes were entered holds only
/// what is short enough for a record, if it held only such before.
pub proof fn lemma_merge_fits(
    before: Map<Seq<u8>, TableEntry>,
    after: Map<Seq<u8>, TableEntry>,
    bytes: Seq<u8>,
)
    requires
        all_fit(before),
        meanings(after) == overlaid(meanings(before), records(bytes)),
    ensures
        all_fit(after),
{
    let recs = records(bytes);
    assert forall|k: Seq<u8>| #[trigger] after.contains_key(k) implies fits(
        k,
        meaning(after[k]),
    ) by {
        assert(meanings(after).contains_key(k));
        assert(meanings(after)[k] == meaning(after[k]));
        lemma_folded(meanings(before), recs, |rec: Stored| rec.value, k);
        lemma_last_position(recs, k);
        let at = last_position(recs, k);
        if at >= 0 {
            lemma_scan_records(bytes, 0, at);
        } else {
            assert(meanings(before).contains_key(k));
            assert(before.contains_key(k));
        }
    }
}

/// The change by which a record is added to the log.
pub open spec fn logging(key: Seq<u8>, value: Seq<u8>) -> Seq<ChangeModel> {
    seq![ChangeModel::Append(wal_name(), encoded(key, value))]
}

/// The changes of a flush: the segment is written under its name, then an
/// empty file is created under the log's temporary name and takes the log's
/// place.
pub open spec fn flushing(id: u64, segment: Seq<u8>) -> Seq<ChangeModel> {
    seq![
        ChangeModel::Append(segment_name(id), segment),
        ChangeModel::Create(wal_temp_name()),
        ChangeModel::Rename(wal_temp_name(), wal_name()),
    ]
}

/// The changes by which a merged segment takes its place: it is written
/// under its temporary name, and the file is then given the segment's name.
pub open spec fn replacing(id: u64, merged: Seq<u8>) -> Seq<ChangeModel> {
    seq![
        ChangeModel::Create(temp_segment_name(id)),
        ChangeModel::Append(temp_segment_name(id), merged),
        ChangeModel::Rename(temp_segment_name(id), segment_name(id)),
    ]
}

/// The changes by which the files with the given names are deleted, in
/// order, but for the one named `keep`.
pub open spec fn removals(names: Seq<Seq<u8>>, keep: Seq<u8>) -> Seq<ChangeModel>
    decreases names.len(),
{
    if names.len() == 0 {
        Seq::empty()
    } else if names.last() == keep {
        removals(names.drop_last(), keep)
    } else {
        removals(names.drop_last(), keep).push(ChangeModel::Remove(names.last()))
    }
}

/// The changes by which the log is made ready for writing: it is created if
/// it is missing; and if bytes follow its last whole record, a copy without
/// them is written under the log's temporary name and takes the log's place.
pub open spec fn opening_log(files: Map<Seq<u8>, Seq<u8>>) -> Seq<ChangeModel> {
    let log = contents(files, wal_name());
    if !files.contains_key(wal_name()) {
        seq![ChangeModel::Create(wal_name())]
    } else if scan(log).end < log.len() {
        seq![
            ChangeModel::Create(wal_temp_name()),
            ChangeModel::Append(wal_temp_name(), log.subrange(0, scan(log).end)),
            ChangeModel::Rename(wal_temp_name(), wal_name()),
        ]
    } else {
        Seq::empty()
    }
}

/// The first `count + 1` elements of a sequence are its first `count`
/// elements and the one behind them.
pub proof fn lemma_one_more<T>(list: Seq<T>, count: int, x: T)
    requires
        0 <= count < list.len(),
    ensures
        list.subrange(0, count + 1).contains(x) <==> list.subrange(0, count).contains(x) || x
            == list[count],
{
    let fewer = list.subrange(0, count);
    let more = list.subrange(0, count + 1);
    if more.contains(x) {
        let q = choose|q: int| 0 <= q < more.len() && more[q] == x;
        if q < count {
            assert(fewer[q] == x);
        }
    }
    if fewer.contains(x) {
        let q = choose|q: int| 0 <= q < fewer.len() && fewer[q] == x;
        assert(more[q] == x);
    }
    if x == list[count] {
        assert(more[count] == x);
    }
}

/// A directory without files that end as segment files do has no segments.
pub proof fn lemma_no_segments(files: Map<Seq<u8>, Seq<u8>>)
    requires
        forall|n: Seq<u8>| files.contains_key(n) ==> !(#[trigger] is_segment_name(n)),
    ensures
        segments_of(files).dom() == Set::<u64>::empty(),
{
    assert forall|id: u64| !segments_of(files).contains_key(id) by {
        lemma_segment_name(id);
    }
    assert(segments_of(files).dom() =~= Set::<u64>::empty());
}

/// How a flush leaves the directory: with the segment `segment` under the
/// next id and with an empty log, the directory can be opened, the indexes
/// with the new segment's index are those of its segment files, the next id
/// is the highest, nothing is pending, and the segments are those of before
/// and the new one.
pub proof fn lemma_flushed(
    files: Map<Seq<u8>, Seq<u8>>,
    indexes: Map<u64, StoreData>,
    current: u64,
    segment: Seq<u8>,
    index: StoreData,
)
    requires
        openable(files),
        indexes_match(indexes, files),
        is_highest(files, current),
        current < u64::MAX,
        well_formed(segment),
        index.wf(),
        index@ == index_of(records(segment), (current + 1) as u64),
    ensures
        ({
            let id = (current + 1) as u64;
            let after = files.insert(segment_name(id), segment).remove(wal_temp_name()).insert(
                wal_name(),
                Seq::<u8>::empty(),
            );
            &&& openable(after)
            &&& indexes_match(indexes.insert(id, index), after)
            &&& is_highest(after, id)
            &&& log_consistent(after, Map::<Seq<u8>, Seq<u8>>::empty(), 0)
            &&& segments_of(after) == segments_of(files).insert(id, table_of(records(segment)))
        }),
{
    let id = (current + 1) as u64;
    let name = segment_name(id);
    let after = files.insert(name, segment).remove(wal_temp_name()).insert(
        wal_name(),
        Seq::<u8>::empty(),
    );
    lemma_segment_name(id);
    lemma_names_differ(id, id);
    lemma_empty_log();
    assert forall|other: u64|
        after.contains_key(#[trigger] segment_name(other)) == (other == id || files.contains_key(
            segment_name(other),
        )) && (other != id && files.contains_key(segment_name(other)) ==> after[segment_name(
            other,
        )] == files[segment_name(other)]) by {
        lemma_names_differ(other, id);
    }
    assert forall|n: Seq<u8>| after.contains_key(n) && #[trigger] is_segment_name(
        n,
    ) implies is_canonical_segment_name(n) && well_formed(after[n]) by {
        if n != name {
            assert(files.contains_key(n));
        }
    }
    let indexes_after = indexes.insert(id, index);
    assert(indexes_match(indexes_after, after)) by {
        assert forall|other: u64| #[trigger]
            indexes_after.contains_key(other) <==> after.contains_key(segment_name(other)) by {
            assert(after.contains_key(segment_name(other)) == (other == id || files.contains_key(
                segment_name(other),
            )));
            assert(indexes.contains_key(other) <==> files.contains_key(segment_name(other)));
        }
        assert forall|other: u64| #[trigger]
            indexes_after.contains_key(other) implies indexes_after[other].wf()
            && indexes_after[other]@ == index_of(records(after[segment_name(other)]), other) by {
            assert(after.contains_key(segment_name(other)) == (other == id || files.contains_key(
                segment_name(other),
            )));
            if other != id {
                assert(indexes.contains_key(other));
            }
        }
    }
    assert(is_highest(after, id)) by {
        assert forall|other: u64| #[trigger]
            after.contains_key(segment_name(other)) implies other <= id by {
            if other != id {
                assert(files.contains_key(segment_name(other)));
            }
        }
    }
    assert(segments_of(after) =~= segments_of(files).insert(id, table_of(records(segment))));
}

/// How a compaction leaves the directory: with the merged segment under the
/// current id as the only file that ends as segment files do, the directory
/// can be opened, the merged segment's index is the only index, the current
/// id is still the highest, and the merged segment is the only segment.
pub proof fn lemma_compacted(
    files: Map<Seq<u8>, Seq<u8>>,
    current: u64,
    merged: Seq<u8>,
    index: StoreData,
    after: Map<Seq<u8>, Seq<u8>>,
)
    requires
        current >= 1,
        well_formed(merged),
        index.wf(),
        index@ == index_of(records(merged), current),
        forall|n: Seq<u8>| #[trigger]
            after.contains_key(n) <==> n == segment_name(current) || (files.contains_key(n)
                && !is_segment_name(n)),
        after[segment_name(current)] == merged,
    ensures
        openable(after),
        indexes_match(Map::<u64, StoreData>::empty().insert(current, index), after),
        is_highest(after, current),
        segments_of(after) == Map::<u64, Map<Seq<u8>, Seq<u8>>>::empty().insert(
            current,
            table_of(records(merged)),
        ),
        forall|n: Seq<u8>| #[trigger]
            is_segment_name(n) ==> (after.contains_key(n) <==> n == segment_name(current)),
{
    let name = segment_name(current);
    lemma_segment_name(current);
    assert(after.contains_key(name));
    assert forall|other: u64|
        after.contains_key(#[trigger] segment_name(other)) <==> other == current by {
        lemma_segment_name(other);
        lemma_names_differ(other, current);
    }
    let indexes_after = Map::<u64, StoreData>::empty().insert(current, index);
    assert(indexes_match(indexes_after, after)) by {
        assert forall|other: u64| #[trigger]
            indexes_after.contains_key(other) <==> after.contains_key(segment_name(other)) by {
            assert(after.contains_key(segment_name(other)) <==> other == current);
        }
    }
    assert(is_highest(after, current)) by {
        assert forall|other: u64| #[trigger]
            after.contains_key(segment_name(other)) implies other <= current by {
            assert(after.contains_key(segment_name(other)) <==> other == current);
        }
    }
    assert(segments_of(after) =~= Map::<u64, Map<Seq<u8>, Seq<u8>>>::empty().insert(
        current,
        table_of(records(merged)),
    ));
}

} // verus!

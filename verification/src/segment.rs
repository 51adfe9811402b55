//! The names of the files in the store's directory.
//!
//! A segment file is named by its id in decimal, followed by `.store.kv`. The
//! write-ahead log is `write_ahead_log.txt`. File names are byte strings.

use crate::error::StoreError;
use vstd::prelude::*;

verus! {

/// The ending of every segment file's name: `.store.kv`.
pub open spec fn segment_suffix() -> Seq<u8> {
    seq![46u8, 115u8, 116u8, 111u8, 114u8, 101u8, 46u8, 107u8, 118u8]
}

/// The name of the write-ahead log: `write_ahead_log.txt`.
pub open spec fn wal_name() -> Seq<u8> {
    seq![
        119u8, 114u8, 105u8, 116u8, 101u8, 95u8, 97u8, 104u8, 101u8, 97u8, 100u8, 95u8, 108u8,
        111u8, 103u8, 46u8, 116u8, 120u8, 116u8,
    ]
}

/// The ending that a temporary copy of the log carries: `.temp`.
pub open spec fn temp_suffix() -> Seq<u8> {
    seq![46u8, 116u8, 101u8, 109u8, 112u8]
}

/// The beginning of the name under which a merged segment is written before
/// it takes its place: `temp.`.
pub open spec fn temp_prefix() -> Seq<u8> {
    seq![116u8, 101u8, 109u8, 112u8, 46u8]
}

/// The name of the file that replaces the log when it is emptied.
pub open spec fn wal_temp_name() -> Seq<u8> {
    wal_name() + temp_suffix()
}

/// A number in decimal, without leading zeros.
pub open spec fn decimal(n: nat) -> Seq<u8>
    decreases n,
{
    if n < 10 {
        seq![(48 + n) as u8]
    } else {
        decimal(n / 10).push((48 + n % 10) as u8)
    }
}

/// The name of the segment file with the given id.
pub open spec fn segment_name(id: u64) -> Seq<u8> {
    decimal(id as nat) + segment_suffix()
}

/// The name under which the merged segment `id` is written first.
pub open spec fn temp_segment_name(id: u64) -> Seq<u8> {
    temp_prefix() + segment_name(id)
}

/// Whether a name ends as a segment file's name does.
pub open spec fn is_segment_name(name: Seq<u8>) -> bool {
    name.len() >= 9 && name.subrange(name.len() - 9, name.len() as int) == segment_suffix()
}

/// The position of the first `.` at or behind `from`, or the length of the
/// name if there is none.
pub open spec fn first_dot_from(name: Seq<u8>, from: int) -> int
    decreases name.len() - from,
{
    if from < 0 || from >= name.len() {
        name.len() as int
    } else if name[from] == 46u8 {
        from
    } else {
        first_dot_from(name, from + 1)
    }
}

/// The part of a name before its first `.`.
pub open spec fn stem(name: Seq<u8>) -> Seq<u8> {
    name.subrange(0, first_dot_from(name, 0))
}

/// Whether every byte is a decimal digit.
pub open spec fn all_digits(text: Seq<u8>) -> bool {
    forall|i: int| 0 <= i < text.len() ==> 48 <= #[trigger] text[i] <= 57
}

/// The number that a run of decimal digits denotes.
pub open spec fn digits_value(text: Seq<u8>) -> nat
    decreases text.len(),
{
    if text.len() == 0 {
        0
    } else {
        (digits_value(text.drop_last()) * 10 + (text.last() - 48)) as nat
    }
}

/// The id that a text denotes: decimal digits, at least one, which may
/// follow a single `+`, and which denote a number that fits in 64 bits.
pub open spec fn parsed_id(text: Seq<u8>) -> Option<u64> {
    let digits = if text.len() > 0 && text[0] == 43u8 {
        text.subrange(1, text.len() as int)
    } else {
        text
    };
    if digits.len() == 0 || !all_digits(digits) || digits_value(digits) > u64::MAX {
        None
    } else {
        Some(digits_value(digits) as u64)
    }
}

/// The segment id that a file name carries before its first `.`.
pub open spec fn id_of_name(name: Seq<u8>) -> Option<u64> {
    parsed_id(stem(name))
}

/// Whether `name` is exactly the name that segment files are given.
pub open spec fn is_canonical_segment_name(name: Seq<u8>) -> bool {
    id_of_name(name) is Some && name == segment_name(id_of_name(name)->Some_0)
}

proof fn lemma_decimal(n: nat)
    ensures
        decimal(n).len() >= 1,
        all_digits(decimal(n)),
        digits_value(decimal(n)) == n,
    decreases n,
{
    if n < 10 {
        let text = decimal(n);
        assert(text.drop_last() =~= Seq::<u8>::empty());
        assert(digits_value(text.drop_last()) == 0);
    } else {
        lemma_decimal(n / 10);
        let text = decimal(n);
        assert(text.drop_last() =~= decimal(n / 10));
    }
}

proof fn lemma_first_dot(digits: Seq<u8>, rest: Seq<u8>, from: int)
    requires
        all_digits(digits),
        rest.len() > 0,
        rest[0] == 46u8,
        0 <= from <= digits.len(),
    ensures
        first_dot_from(digits + rest, from) == digits.len(),
    decreases digits.len() - from,
{
    let name = digits + rest;
    if from < digits.len() {
        assert(name[from] == digits[from]);
        lemma_first_dot(digits, rest, from + 1);
    } else {
        assert(name[from] == rest[0]);
    }
}

/// A segment's name ends as segment names do, and carries the segment's id:
/// so two segments with different ids have different names.
pub proof fn lemma_segment_name(id: u64)
    ensures
        is_segment_name(segment_name(id)),
        id_of_name(segment_name(id)) == Some(id),
        is_canonical_segment_name(segment_name(id)),
{
    let digits = decimal(id as nat);
    let name = segment_name(id);
    lemma_decimal(id as nat);
    lemma_first_dot(digits, segment_suffix(), 0);
    assert(name.subrange(name.len() - 9, name.len() as int) =~= segment_suffix());
    assert(stem(name) =~= digits);
    assert(digits[0] != 43u8);
}

/// The log, its temporary replacement and the temporary names of merged
/// segments are no canonical segment names, and the log's two names do not
/// even end as segment names do.
pub proof fn lemma_other_names(id: u64)
    ensures
        !is_segment_name(wal_name()),
        !is_segment_name(wal_temp_name()),
        wal_name() != wal_temp_name(),
        id_of_name(temp_segment_name(id)) is None,
        temp_segment_name(id) != wal_name(),
        temp_segment_name(id) != wal_temp_name(),
{
    let wal = wal_name();
    assert(wal.subrange(wal.len() - 9, wal.len() as int)[8] == 116u8);
    assert(segment_suffix()[8] == 118u8);
    let wal_temp = wal_temp_name();
    assert(wal_temp.len() == 24);
    assert(wal_temp.subrange(wal_temp.len() - 9, wal_temp.len() as int)[8] == temp_suffix()[4]);
    let temp = temp_segment_name(id);
    assert(temp[0] == 116u8);
    assert(temp[1] == 101u8);
    assert(temp[2] == 109u8);
    assert(temp[3] == 112u8);
    assert(temp[4] == 46u8);
    assert(first_dot_from(temp, 4) == 4);
    assert(first_dot_from(temp, 3) == 4);
    assert(first_dot_from(temp, 2) == 4);
    assert(first_dot_from(temp, 1) == 4);
    assert(first_dot_from(temp, 0) == 4);
    assert(stem(temp)[0] == 116u8);
    assert(!all_digits(stem(temp)));
    assert(wal[0] == 119u8);
    assert(wal_temp[0] == 119u8);
}

/// The temporary name of a merged segment ends as segment names do.
pub proof fn lemma_temp_segment_name(id: u64)
    ensures
        is_segment_name(temp_segment_name(id)),
        !is_canonical_segment_name(temp_segment_name(id)),
{
    let name = temp_segment_name(id);
    lemma_other_names(id);
    assert(name.subrange(name.len() - 9, name.len() as int) =~= segment_suffix());
}

proof fn lemma_digits_grow(text: Seq<u8>, upto: int)
    requires
        all_digits(text),
        0 <= upto <= text.len(),
    ensures
        digits_value(text.subrange(0, upto)) <= digits_value(text),
    decreases text.len() - upto,
{
    if upto < text.len() {
        let longer = text.subrange(0, upto + 1);
        assert(longer.drop_last() =~= text.subrange(0, upto));
        assert(48 <= text[upto] <= 57);
        assert(longer.last() == text[upto]);
        lemma_digits_grow(text, upto + 1);
    } else {
        assert(text.subrange(0, upto) =~= text);
    }
}

/// The ending of segment file names, as bytes.
pub fn store_filename_suffix() -> (suffix: Vec<u8>)
    ensures
        suffix@ == segment_suffix(),
{
    let suffix: Vec<u8> = vec![46u8, 115u8, 116u8, 111u8, 114u8, 101u8, 46u8, 107u8, 118u8];
    assert(suffix@ =~= segment_suffix());
    suffix
}

/// The name of the write-ahead log, as bytes.
pub fn write_ahead_log_filename() -> (name: Vec<u8>)
    ensures
        name@ == wal_name(),
{
    let name: Vec<u8> = vec![
        119u8, 114u8, 105u8, 116u8, 101u8, 95u8, 97u8, 104u8, 101u8, 97u8, 100u8, 95u8, 108u8,
        111u8, 103u8, 46u8, 116u8, 120u8, 116u8,
    ];
    assert(name@ =~= wal_name());
    name
}

/// The name of the file that replaces the log when it is emptied.
pub fn write_ahead_log_temp_filename() -> (name: Vec<u8>)
    ensures
        name@ == wal_temp_name(),
{
    let mut name = write_ahead_log_filename();
    let ending: Vec<u8> = vec![46u8, 116u8, 101u8, 109u8, 112u8];
    assert(ending@ =~= temp_suffix());
    let ghost before = name@;
    name.extend_from_slice(ending.as_slice());
    assert(name@ =~= before + ending@);
    name
}

/// The name of the segment file with the given id.
pub fn filename_for_file_id(file_id: u64) -> (name: Vec<u8>)
    ensures
        name@ == segment_name(file_id),
{
    let mut name: Vec<u8> = Vec::new();
    name.push(48u8 + (file_id % 10) as u8);
    let mut rest: u64 = file_id / 10;
    assert(name@ =~= seq![(48 + file_id % 10) as u8]);
    while rest > 0
        invariant
            decimal(file_id as nat) == (if rest == 0 {
                Seq::<u8>::empty()
            } else {
                decimal(rest as nat)
            }) + name@,
        decreases rest,
    {
        let ghost before = name@;
        name.insert(0, 48u8 + (rest % 10) as u8);
        proof {
            let digit = (48 + rest % 10) as u8;
            let higher = if rest / 10 == 0 {
                Seq::<u8>::empty()
            } else {
                decimal((rest / 10) as nat)
            };
            assert(decimal(rest as nat) =~= higher.push(digit));
            assert(name@ =~= seq![digit] + before);
            assert(higher.push(digit) + before =~= higher + name@);
        }
        rest = rest / 10;
    }
    let suffix = store_filename_suffix();
    let ghost digits = name@;
    assert(digits =~= decimal(file_id as nat));
    name.extend_from_slice(suffix.as_slice());
    assert(name@ =~= digits + suffix@);
    name
}

/// The name under which the merged segment `file_id` is written first.
pub fn temp_filename_for_file_id(file_id: u64) -> (name: Vec<u8>)
    ensures
        name@ == temp_segment_name(file_id),
{
    let mut name: Vec<u8> = vec![116u8, 101u8, 109u8, 112u8, 46u8];
    assert(name@ =~= temp_prefix());
    let tail = filename_for_file_id(file_id);
    let ghost before = name@;
    name.extend_from_slice(tail.as_slice());
    assert(name@ =~= before + tail@);
    name
}

/// Whether a file name ends as segment file names do.
pub fn is_store_file(name: &[u8]) -> (b: bool)
    ensures
        b == is_segment_name(name@),
{
    let suffix = store_filename_suffix();
    if name.len() < 9 {
        return false;
    }
    let start: usize = name.len() - 9;
    let mut i: usize = 0;
    while i < 9
        invariant
            start + 9 == name.len(),
            suffix@ == segment_suffix(),
            i <= 9,
            forall|j: int| 0 <= j < i ==> name@[start + j] == segment_suffix()[j],
        decreases 9 - i,
    {
        if name[start + i] != suffix[i] {
            assert(name@.subrange(name.len() - 9, name.len() as int)[i as int]
                != segment_suffix()[i as int]);
            return false;
        }
        i += 1;
    }
    assert(name@.subrange(name.len() - 9, name.len() as int) =~= segment_suffix());
    true
}

/// The segment id that a file name carries before its first `.`.
pub fn file_id_from_path(name: &[u8]) -> (r: Result<u64, StoreError>)
    ensures
        match id_of_name(name@) {
            Some(id) => r == Ok::<u64, StoreError>(id),
            None => r == Err::<u64, StoreError>(StoreError::Malformed),
        },
{
    let mut dot: usize = 0;
    while dot < name.len() && name[dot] != 46u8
        invariant
            dot <= name.len(),
            first_dot_from(name@, 0) == first_dot_from(name@, dot as int),
        decreases name.len() - dot,
    {
        dot += 1;
    }
    let start: usize = if dot > 0 && name[0] == 43u8 {
        1
    } else {
        0
    };
    let ghost digits = name@.subrange(start as int, dot as int);
    assert(stem(name@) == name@.subrange(0, dot as int));
    assert(digits =~= if stem(name@).len() > 0 && stem(name@)[0] == 43u8 {
        stem(name@).subrange(1, stem(name@).len() as int)
    } else {
        stem(name@)
    });
    assert(id_of_name(name@) == (if digits.len() == 0 || !all_digits(digits) || digits_value(
        digits,
    ) > u64::MAX {
        None
    } else {
        Some(digits_value(digits) as u64)
    }));
    if start == dot {
        return Err(StoreError::Malformed);
    }
    let mut value: u64 = 0;
    let mut i: usize = start;
    assert(digits.subrange(0, 0) =~= Seq::<u8>::empty());
    while i < dot
        invariant
            start <= i <= dot <= name.len(),
            digits == name@.subrange(start as int, dot as int),
            id_of_name(name@) == (if digits.len() == 0 || !all_digits(digits) || digits_value(
                digits,
            ) > u64::MAX {
                None
            } else {
                Some(digits_value(digits) as u64)
            }),
            all_digits(digits.subrange(0, i - start)),
            value == digits_value(digits.subrange(0, i - start)),
        decreases dot - i,
    {
        let byte: u8 = name[i];
        if byte < 48u8 || byte > 57u8 {
            assert(digits[i - start] == byte);
            return Err(StoreError::Malformed);
        }
        let digit: u64 = (byte - 48u8) as u64;
        proof {
            let shorter = digits.subrange(0, i - start);
            let longer = digits.subrange(0, i - start + 1);
            assert(longer.drop_last() =~= shorter);
            assert(longer.last() == byte);
            assert(digits_value(longer) == value * 10 + digit);
            assert forall|j: int| 0 <= j < longer.len() implies 48 <= #[trigger] longer[j]
                <= 57 by {
                if j < shorter.len() {
                    assert(longer[j] == shorter[j]);
                }
            }
            if value > (u64::MAX - digit) / 10 {
                if all_digits(digits) {
                    lemma_digits_grow(digits, i - start + 1);
                }
            }
        }
        if value > (u64::MAX - digit) / 10 {
            return Err(StoreError::Malformed);
        }
        value = value * 10 + digit;
        i += 1;
    }
    assert(digits.subrange(0, i - start) =~= digits);
    Ok(value)
}

/// Whether no id is followed by a lower one.
pub open spec fn non_descending(ids: Seq<u64>) -> bool {
    forall|i: int, j: int| 0 <= i < j < ids.len() ==> ids[i] <= ids[j]
}

/// Whether each id is lower than all that follow it.
pub open spec fn strictly_ascending(ids: Seq<u64>) -> bool {
    forall|i: int, j: int| 0 <= i < j < ids.len() ==> ids[i] < ids[j]
}

/// Sorts segment ids by their number, lowest first.
pub fn sort_file_ids(ids: &Vec<u64>) -> (sorted: Vec<u64>)
    ensures
        non_descending(sorted@),
        sorted@.to_multiset() == ids@.to_multiset(),
{
    let mut sorted: Vec<u64> = Vec::new();
    let mut i: usize = 0;
    assert(ids@.subrange(0, 0) =~= sorted@);
    while i < ids.len()
        invariant
            i <= ids.len(),
            non_descending(sorted@),
            sorted@.to_multiset() == ids@.subrange(0, i as int).to_multiset(),
        decreases ids.len() - i,
    {
        let id: u64 = ids[i];
        let mut at: usize = 0;
        while at < sorted.len() && sorted[at] <= id
            invariant
                at <= sorted.len(),
                forall|j: int| 0 <= j < at ==> sorted@[j] <= id,
            decreases sorted.len() - at,
        {
            at += 1;
        }
        let ghost before = sorted@;
        sorted.insert(at, id);
        proof {
            vstd::seq_lib::to_multiset_insert(before, at as int, id);
            vstd::seq_lib::to_multiset_build(ids@.subrange(0, i as int), id);
            assert(ids@.subrange(0, i + 1) =~= ids@.subrange(0, i as int).push(id));
            assert forall|a: int, b: int| 0 <= a < b < sorted@.len() implies sorted@[a]
                <= sorted@[b] by {
                let was_a = if a < at { a } else { a - 1 };
                let was_b = if b < at { b } else { b - 1 };
                if a != at && b != at {
                    assert(before[was_a] <= before[was_b]);
                } else if a == at {
                    assert(before[at as int] <= before[was_b]);
                }
            }
        }
        i += 1;
    }
    assert(ids@.subrange(0, i as int) =~= ids@);
    sorted
}

/// Sorting ids of which none occurs twice gives the same ids, each once, in
/// strictly ascending order.
pub proof fn lemma_sorted_ids(ids: Seq<u64>, sorted: Seq<u64>)
    requires
        ids.no_duplicates(),
        non_descending(sorted),
        sorted.to_multiset() == ids.to_multiset(),
    ensures
        strictly_ascending(sorted),
        sorted.len() == ids.len(),
        forall|id: u64| #[trigger] sorted.contains(id) <==> ids.contains(id),
{
    ids.lemma_multiset_has_no_duplicates();
    sorted.lemma_multiset_has_no_duplicates_conv();
    vstd::seq_lib::to_multiset_len(ids);
    vstd::seq_lib::to_multiset_len(sorted);
    assert forall|id: u64| #[trigger] sorted.contains(id) <==> ids.contains(id) by {
        vstd::seq_lib::to_multiset_contains(ids, id);
        vstd::seq_lib::to_multiset_contains(sorted, id);
    }
    assert forall|i: int, j: int| 0 <= i < j < sorted.len() implies sorted[i] < sorted[j] by {
        assert(sorted[i] <= sorted[j]);
        assert(sorted[i] != sorted[j]);
    }
}

} // verus!

//! What the store holds, as a mathematical value, and what each operation
//! makes of it.
//!
//! The store's functions are specified by the operations of this model, and
//! the lemmas of this file say what follows for the values of the keys.

use vstd::prelude::*;

verus! {

/// What a stored value stands for: nothing if it is empty, since an empty
/// value marks a deletion.
pub open spec fn live(value: Seq<u8>) -> Option<Seq<u8>> {
    if value.len() == 0 {
        None
    } else {
        Some(value)
    }
}

/// The contents of a store.
pub struct State {
    /// What was written since the last flush: each key with its latest value.
    pub pending: Map<Seq<u8>, Seq<u8>>,
    /// What each segment says of each of its keys, by segment id.
    pub segments: Map<u64, Map<Seq<u8>, Seq<u8>>>,
    /// The id that the latest segment was given.
    pub current: u64,
}

/// One step of a history: a write, a deletion, or a flush.
pub enum Step {
    Put(Seq<u8>, Seq<u8>),
    Remove(Seq<u8>),
    Flush,
}

/// What all segments with an id below `bound` say together of each key: the
/// segment with the highest id that names a key is heard.
pub open spec fn merged_below(segments: Map<u64, Map<Seq<u8>, Seq<u8>>>, bound: nat) -> Map<
    Seq<u8>,
    Seq<u8>,
>
    decreases bound,
{
    if bound == 0 {
        Map::empty()
    } else {
        let id = (bound - 1) as nat;
        let lower = merged_below(segments, id);
        if id <= u64::MAX && segments.contains_key(id as u64) {
            lower.union_prefer_right(segments[id as u64])
        } else {
            lower
        }
    }
}

impl State {
    /// What the segments say of `key`, asked from segment `id` downwards: the
    /// first segment that names the key answers. The search ends at a
    /// missing id and below id 1.
    pub open spec fn found_in_segments(self, key: Seq<u8>, id: nat) -> Option<Seq<u8>>
        decreases id,
    {
        if id == 0 || id > u64::MAX || !self.segments.contains_key(id as u64) {
            None
        } else if self.segments[id as u64].contains_key(key) {
            live(self.segments[id as u64][key])
        } else {
            self.found_in_segments(key, (id - 1) as nat)
        }
    }

    /// The value of `key`: what was written last if that is pending, and
    /// else what the segments say.
    pub open spec fn get(self, key: Seq<u8>) -> Option<Seq<u8>> {
        if self.pending.contains_key(key) {
            live(self.pending[key])
        } else {
            self.found_in_segments(key, self.current as nat)
        }
    }

    /// The contents after `value` was written under `key`.
    pub open spec fn put(self, key: Seq<u8>, value: Seq<u8>) -> State {
        State { pending: self.pending.insert(key, value), ..self }
    }

    /// The contents after `key` was deleted.
    pub open spec fn remove(self, key: Seq<u8>) -> State {
        self.put(key, Seq::empty())
    }

    /// The contents after a flush: what was pending is the next segment.
    pub open spec fn flush(self) -> State {
        State {
            pending: Map::empty(),
            segments: self.segments.insert((self.current + 1) as u64, self.pending),
            current: (self.current + 1) as u64,
        }
    }

    /// What all segments say together.
    pub open spec fn merged(self) -> Map<Seq<u8>, Seq<u8>> {
        merged_below(self.segments, u64::MAX as nat + 1)
    }

    /// The contents after a compaction: the current id names the one segment
    /// that is left, which says what all segments said together. Without
    /// segments nothing changes.
    pub open spec fn compact(self) -> State {
        if self.segments.dom() == Set::<u64>::empty() {
            self
        } else {
            State {
                segments: Map::<u64, Map<Seq<u8>, Seq<u8>>>::empty().insert(
                    self.current,
                    self.merged(),
                ),
                ..self
            }
        }
    }

    /// Whether the current id is at least 1 and no segment has a higher id.
    pub open spec fn bounded(self) -> bool {
        &&& self.current >= 1
        &&& forall|id: u64| #[trigger] self.segments.contains_key(id) ==> id <= self.current
    }

    /// Whether the segment ids are a run of numbers that ends at the current
    /// id and starts at 1 or above.
    pub open spec fn dense(self) -> bool {
        forall|id: u64, above: u64|
            #[trigger] self.segments.contains_key(id) && id <= above <= self.current
                ==> id >= 1 && #[trigger] self.segments.contains_key(above)
    }

    /// The contents after one step.
    pub open spec fn step(self, step: Step) -> State {
        match step {
            Step::Put(key, value) => self.put(key, value),
            Step::Remove(key) => self.remove(key),
            Step::Flush => self.flush(),
        }
    }

    /// The contents after a history of steps.
    pub open spec fn run(self, steps: Seq<Step>) -> State
        decreases steps.len(),
    {
        if steps.len() == 0 {
            self
        } else {
            self.run(steps.drop_last()).step(steps.last())
        }
    }
}

/// What a history makes of the value of `key`, which was `before`: the value
/// of the last write to the key stands, a deletion leaves nothing, and no
/// other step matters.
pub open spec fn expected(before: Option<Seq<u8>>, steps: Seq<Step>, key: Seq<u8>) -> Option<
    Seq<u8>,
>
    decreases steps.len(),
{
    if steps.len() == 0 {
        before
    } else {
        match steps.last() {
            Step::Put(k, v) if k == key => live(v),
            Step::Remove(k) if k == key => None,
            _ => expected(before, steps.drop_last(), key),
        }
    }
}

proof fn lemma_found_agrees(a: State, b: State, key: Seq<u8>, id: nat)
    requires
        forall|i: u64|
            i <= id ==> (#[trigger] a.segments.contains_key(i)) == b.segments.contains_key(i) && (
            a.segments.contains_key(i) ==> a.segments[i] == b.segments[i]),
    ensures
        a.found_in_segments(key, id) == b.found_in_segments(key, id),
    decreases id,
{
    if id > 0 && id <= u64::MAX {
        let i = id as u64;
        assert(a.segments.contains_key(i) == b.segments.contains_key(i));
        if a.segments.contains_key(i) && !a.segments[i].contains_key(key) {
            lemma_found_agrees(a, b, key, (id - 1) as nat);
        }
    }
}

/// Segments that do not exist add nothing to what the others say together.
pub proof fn lemma_merged_skip(segments: Map<u64, Map<Seq<u8>, Seq<u8>>>, low: nat, high: nat)
    requires
        low <= high,
        forall|id: u64| low <= id < high ==> !segments.contains_key(id),
    ensures
        merged_below(segments, high) == merged_below(segments, low),
    decreases high - low,
{
    if low < high {
        lemma_merged_skip(segments, low, (high - 1) as nat);
        let id = (high - 1) as nat;
        if id <= u64::MAX {
            assert(!segments.contains_key(id as u64));
        }
    }
}

proof fn lemma_found_is_merged(s: State, key: Seq<u8>, id: nat)
    requires
        s.bounded(),
        s.dense(),
        id <= s.current,
    ensures
        s.found_in_segments(key, id) == (if merged_below(s.segments, id + 1).contains_key(key) {
            live(merged_below(s.segments, id + 1)[key])
        } else {
            None
        }),
    decreases id,
{
    if id == 0 {
        assert(!s.segments.contains_key(0u64)) by {
            if s.segments.contains_key(0u64) {
                assert(s.segments.contains_key(0u64) && 0u64 <= s.current <= s.current);
            }
        }
        assert(merged_below(s.segments, 0) == Map::<Seq<u8>, Seq<u8>>::empty());
    } else if !s.segments.contains_key(id as u64) {
        assert forall|i: u64| 0 <= i < id + 1 implies !s.segments.contains_key(i) by {
            if s.segments.contains_key(i) {
                assert(s.segments.contains_key(i) && i <= (id as u64) <= s.current);
            }
        }
        lemma_merged_skip(s.segments, 0, id + 1);
    } else {
        lemma_found_is_merged(s, key, (id - 1) as nat);
    }
}

/// What was written under a key is its value, unless it was empty; and a
/// write changes the value of no other key.
pub proof fn lemma_put_get(s: State, key: Seq<u8>, value: Seq<u8>, other: Seq<u8>)
    ensures
        s.put(key, value).get(key) == live(value),
        other != key ==> s.put(key, value).get(other) == s.get(other),
{
    lemma_found_agrees(s, s.put(key, value), other, s.current as nat);
}

/// A key that was deleted has no value, and deleting it once more changes
/// nothing.
pub proof fn lemma_remove(s: State, key: Seq<u8>)
    ensures
        s.remove(key).get(key) is None,
        s.remove(key).remove(key) == s.remove(key),
{
    assert(s.pending.insert(key, Seq::empty()).insert(key, Seq::empty()) =~= s.pending.insert(
        key,
        Seq::empty(),
    ));
}

/// A flush changes the value of no key, whether anything was pending or not.
pub proof fn lemma_flush_get(s: State, key: Seq<u8>)
    requires
        s.bounded(),
        s.current < u64::MAX,
    ensures
        s.flush().get(key) == s.get(key),
        s.flush().bounded(),
        s.dense() ==> s.flush().dense(),
{
    let t = s.flush();
    assert(!t.pending.contains_key(key));
    assert(t.segments.contains_key(t.current));
    if !s.pending.contains_key(key) {
        lemma_found_agrees(s, t, key, s.current as nat);
    }
}

/// After a write and a flush the key has the value that was written, none
/// if that was empty.
pub proof fn lemma_put_flush_get(s: State, key: Seq<u8>, value: Seq<u8>)
    requires
        s.bounded(),
        s.current < u64::MAX,
    ensures
        s.put(key, value).flush().get(key) == live(value),
{
    lemma_flush_get(s.put(key, value), key);
}

/// After any history of writes, deletions and flushes each key has the value
/// of the last write to it, none if it was deleted after that or written
/// empty, and the value it had before if the history does not name it.
pub proof fn lemma_run_get(s: State, steps: Seq<Step>, key: Seq<u8>)
    requires
        s.bounded(),
        s.current + steps.len() <= u64::MAX,
    ensures
        s.run(steps).get(key) == expected(s.get(key), steps, key),
        s.run(steps).bounded(),
        s.run(steps).current <= s.current + steps.len(),
        s.dense() ==> s.run(steps).dense(),
    decreases steps.len(),
{
    if steps.len() > 0 {
        let earlier = steps.drop_last();
        lemma_run_get(s, earlier, key);
        let t = s.run(earlier);
        match steps.last() {
            Step::Put(k, v) => {
                lemma_put_get(t, k, v, key);
            },
            Step::Remove(k) => {
                lemma_put_get(t, k, Seq::empty(), key);
            },
            Step::Flush => {
                lemma_flush_get(t, key);
            },
        }
    }
}

/// A compaction changes the value of no key, where the segment ids are a
/// run of numbers up to the current id.
pub proof fn lemma_compact_get(s: State, key: Seq<u8>)
    requires
        s.bounded(),
        s.dense(),
    ensures
        s.compact().get(key) == s.get(key),
        s.compact().bounded(),
        s.compact().dense(),
{
    let t = s.compact();
    if s.segments.dom() == Set::<u64>::empty() {
    } else {
        let id = choose|id: u64| s.segments.dom().contains(id);
        assert(s.segments.dom().contains(id)) by {
            if forall|i: u64| !s.segments.dom().contains(i) {
                assert(s.segments.dom() =~= Set::<u64>::empty());
            }
        }
        assert(s.segments.contains_key(id) && id <= s.current <= s.current);
        assert(s.segments.contains_key(s.current));
        lemma_found_is_merged(s, key, s.current as nat);
        lemma_merged_skip(s.segments, s.current as nat + 1, u64::MAX as nat + 1);
        assert(t.segments.contains_key(t.current));
        assert(t.segments[t.current] == s.merged());
        if !t.segments[t.current].contains_key(key) {
            assert(t.found_in_segments(key, (t.current - 1) as nat) is None);
        }
    }
}

} // verus!

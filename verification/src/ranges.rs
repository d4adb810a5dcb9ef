//! Coverage ranges: which spans of a channel's identifiers have been retrieved.
//!
//! A range `(after_id, last_id]` of a channel claims that every message of the
//! channel whose identifier is greater than `after_id` and at most `last_id`
//! is stored. The store holds at most one range for each pair of channel and
//! `after_id`.

use vstd::prelude::*;

verus! {

/// A retrieved span of one channel: the identifiers above `after_id`, up to
/// and including `last_id`.
#[derive(Clone, Copy, Debug, PartialEq, Eq, Structural)]
pub struct MessageRange {
    pub channel_id: u64,
    pub after_id: u64,
    pub last_id: u64,
}

impl MessageRange {
    /// Whether two ranges have the same channel and the same lower end.
    pub open spec fn same_key(self, other: MessageRange) -> bool {
        self.channel_id == other.channel_id && self.after_id == other.after_id
    }

    /// Whether the range is stored under the given channel and lower end.
    pub open spec fn has_key(self, channel_id: u64, after_id: u64) -> bool {
        self.channel_id == channel_id && self.after_id == after_id
    }

    /// Whether a request that starts at `cursor` starts inside this range, so
    /// that it can start at `last_id` instead.
    pub open spec fn covers(self, channel_id: u64, cursor: u64) -> bool {
        self.channel_id == channel_id && self.after_id <= cursor < self.last_id
    }

    /// Whether this range begins inside the span `(after_id, observed_last]` of
    /// its channel, so that a merge of that span takes it in.
    pub open spec fn absorbed_by(self, channel_id: u64, after_id: u64, observed_last: u64) -> bool {
        self.channel_id == channel_id && after_id < self.after_id <= observed_last
    }

    /// Whether a merge of the span `(after_id, observed_last]` leaves this
    /// range in the store as it is.
    pub open spec fn survives(self, channel_id: u64, after_id: u64, observed_last: u64) -> bool {
        !self.absorbed_by(channel_id, after_id, observed_last) && !self.has_key(
            channel_id,
            after_id,
        )
    }
}

/// No two ranges share a channel and a lower end.
pub open spec fn keys_unique(s: Set<MessageRange>) -> bool {
    forall|a: MessageRange, b: MessageRange|
        #![trigger s.contains(a), s.contains(b)]
        s.contains(a) && s.contains(b) && a.same_key(b) ==> a == b
}

/// Every range is non-empty, and no two ranges of a channel have an identifier
/// in common.
pub open spec fn pairwise_disjoint(s: Set<MessageRange>) -> bool {
    &&& forall|r: MessageRange| s.contains(r) ==> r.after_id < r.last_id
    &&& forall|a: MessageRange, b: MessageRange|
        #![trigger s.contains(a), s.contains(b)]
        s.contains(a) && s.contains(b) && a != b && a.channel_id == b.channel_id
            ==> a.last_id <= b.after_id || b.last_id <= a.after_id
}

/// Every range is non-empty, and no range of a channel begins inside another
/// range of that channel or at its upper end: what can be merged is merged.
pub open spec fn well_formed(s: Set<MessageRange>) -> bool {
    &&& forall|r: MessageRange| s.contains(r) ==> r.after_id < r.last_id
    &&& forall|a: MessageRange, b: MessageRange|
        #![trigger s.contains(a), s.contains(b)]
        s.contains(a) && s.contains(b) && a != b && a.channel_id == b.channel_id
            ==> a.last_id < b.after_id || b.last_id < a.after_id
}

/// Whether `found` is a correct answer to the question which stored range
/// covers `cursor`.
pub open spec fn is_covering_answer(
    s: Set<MessageRange>,
    channel_id: u64,
    cursor: u64,
    found: Option<MessageRange>,
) -> bool {
    match found {
        Some(r) => s.contains(r) && r.covers(channel_id, cursor),
        None => forall|r: MessageRange| s.contains(r) ==> !r.covers(channel_id, cursor),
    }
}

/// The stored range that covers `cursor`, if there is one.
pub open spec fn spec_find_covering(s: Set<MessageRange>, channel_id: u64, cursor: u64) -> Option<
    MessageRange,
> {
    if exists|r: MessageRange| s.contains(r) && r.covers(channel_id, cursor) {
        Some(choose|r: MessageRange| s.contains(r) && r.covers(channel_id, cursor))
    } else {
        None
    }
}

/// Whether `e` is the upper end that a merge of `(after_id, observed_last]`
/// gives the merged range: the greatest of `observed_last` and the upper ends
/// of the ranges taken in.
pub open spec fn is_effective_last(
    s: Set<MessageRange>,
    channel_id: u64,
    after_id: u64,
    observed_last: u64,
    e: u64,
) -> bool {
    &&& e >= observed_last
    &&& forall|r: MessageRange|
        s.contains(r) && r.absorbed_by(channel_id, after_id, observed_last) ==> r.last_id <= e
    &&& (e == observed_last || exists|r: MessageRange|
        s.contains(r) && r.absorbed_by(channel_id, after_id, observed_last) && r.last_id == e)
}

/// The upper end of the range that a merge of `(after_id, observed_last]` stores.
pub open spec fn effective_last(
    s: Set<MessageRange>,
    channel_id: u64,
    after_id: u64,
    observed_last: u64,
) -> u64 {
    choose|e: u64| is_effective_last(s, channel_id, after_id, observed_last, e)
}

/// The ranges that a merge of `(after_id, observed_last]` takes in.
pub open spec fn absorbed_ranges(
    s: Set<MessageRange>,
    channel_id: u64,
    after_id: u64,
    observed_last: u64,
) -> Set<MessageRange> {
    s.filter(|r: MessageRange| r.absorbed_by(channel_id, after_id, observed_last))
}

/// The store after the row for the key of `range` has been set to `range`.
pub open spec fn spec_upsert(s: Set<MessageRange>, range: MessageRange) -> Set<MessageRange> {
    s.filter(|r: MessageRange| !r.same_key(range)).insert(range)
}

/// The store after a merge of the span `(after_id, observed_last]`: the ranges
/// that begin inside the span are gone, and the range that begins at
/// `after_id` reaches as far as the span and each of them did.
pub open spec fn spec_merge_insert(
    s: Set<MessageRange>,
    channel_id: u64,
    after_id: u64,
    observed_last: u64,
) -> Set<MessageRange> {
    s.filter(|r: MessageRange| r.survives(channel_id, after_id, observed_last)).insert(
        MessageRange {
            channel_id,
            after_id,
            last_id: effective_last(s, channel_id, after_id, observed_last),
        },
    )
}

/// What a merge did to the store.
pub struct MergeOutcome {
    /// The range that the merge stored.
    pub range: MessageRange,
    /// The ranges that the merge removed because the stored range takes them in.
    pub absorbed: Vec<MessageRange>,
}

/// The coverage ranges of all channels.
pub struct RangeStore {
    rows: Vec<MessageRange>,
}

impl View for RangeStore {
    type V = Set<MessageRange>;

    closed spec fn view(&self) -> Set<MessageRange> {
        self.rows@.to_set()
    }
}

impl RangeStore {
    #[verifier::type_invariant]
    spec fn rows_have_distinct_keys(self) -> bool {
        forall|i: int, j: int|
            0 <= i < j < self.rows@.len() ==> !(#[trigger] self.rows@[i]).same_key(
                #[trigger] self.rows@[j],
            )
    }

    /// A store without ranges.
    pub fn new() -> (store: RangeStore)
        ensures
            store@ == Set::<MessageRange>::empty(),
    {
        let store = RangeStore { rows: Vec::new() };
        assert(store.rows@.to_set() =~= Set::<MessageRange>::empty());
        store
    }

    /// The number of stored ranges.
    pub fn len(&self) -> (n: usize)
        ensures
            n == self@.len(),
            self@.finite(),
            keys_unique(self@),
    {
        proof {
            use_type_invariant(self);
            assert(self.rows@.no_duplicates());
            self.rows@.unique_seq_to_set();
            vstd::seq_lib::seq_to_set_is_finite(self.rows@);
        }
        self.rows.len()
    }

    /// The stored ranges, each once, in no particular order.
    pub fn ranges(&self) -> (rows: Vec<MessageRange>)
        ensures
            rows@.to_set() == self@,
            rows@.no_duplicates(),
            rows@.len() == self@.len(),
    {
        proof {
            use_type_invariant(self);
            assert(self.rows@.no_duplicates());
            self.rows@.unique_seq_to_set();
        }
        self.rows.clone()
    }

    /// Whether `range` is stored.
    pub fn contains(&self, range: MessageRange) -> (found: bool)
        ensures
            found == self@.contains(range),
    {
        let mut i: usize = 0;
        while i < self.rows.len()
            invariant
                0 <= i <= self.rows@.len(),
                forall|k: int| 0 <= k < i ==> self.rows@[k] != range,
            decreases self.rows@.len() - i,
        {
            if self.rows[i] == range {
                assert(self.rows@.contains(range));
                return true;
            }
            i += 1;
        }
        false
    }

    /// Looks up the stored range of `channel_id` that covers `cursor`: a
    /// request for what follows `cursor` can start at the upper end of that
    /// range instead.
    ///
    /// Where the stored ranges do not overlap there is at most one such range.
    pub fn find_covering(&self, channel_id: u64, cursor: u64) -> (found: Option<MessageRange>)
        ensures
            is_covering_answer(self@, channel_id, cursor, found),
            pairwise_disjoint(self@) ==> found == spec_find_covering(self@, channel_id, cursor),
    {
        let mut i: usize = 0;
        while i < self.rows.len()
            invariant
                0 <= i <= self.rows@.len(),
                forall|k: int| 0 <= k < i ==> !(#[trigger] self.rows@[k]).covers(channel_id, cursor),
            decreases self.rows@.len() - i,
        {
            let row: MessageRange = self.rows[i];
            if row.channel_id == channel_id && row.after_id <= cursor && cursor < row.last_id {
                assert(self.rows@.contains(row));
                proof {
                    if pairwise_disjoint(self@) {
                        lemma_covering_unique(self@, channel_id, cursor, row, row);
                    }
                }
                return Some(row);
            }
            i += 1;
        }
        None
    }

    /// Sets the row for the key of `range` to `range`, whether or not the key
    /// was stored before.
    pub fn upsert(&mut self, range: MessageRange)
        ensures
            final(self)@ == spec_upsert(old(self)@, range),
    {
        proof {
            use_type_invariant(&*self);
        }
        let mut kept: Vec<MessageRange> = Vec::new();
        let mut i: usize = 0;
        while i < self.rows.len()
            invariant
                0 <= i <= self.rows@.len(),
                forall|a: int, b: int|
                    0 <= a < b < self.rows@.len() ==> !(#[trigger] self.rows@[a]).same_key(
                        #[trigger] self.rows@[b],
                    ),
                forall|k: int|
                    0 <= k < kept@.len() ==> !(#[trigger] kept@[k]).same_key(range) && exists|j: int|
                        0 <= j < i && self.rows@[j] == kept@[k],
                forall|j: int|
                    0 <= j < i && !(#[trigger] self.rows@[j]).same_key(range) ==> kept@.contains(
                        self.rows@[j],
                    ),
                forall|a: int, b: int|
                    0 <= a < b < kept@.len() ==> !(#[trigger] kept@[a]).same_key(#[trigger] kept@[b]),
            decreases self.rows@.len() - i,
        {
            let row: MessageRange = self.rows[i];
            if !(row.channel_id == range.channel_id && row.after_id == range.after_id) {
                let ghost before = kept@;
                kept.push(row);
                assert(kept@[before.len() as int] == row);
                assert forall|j: int|
                    0 <= j < i + 1 && !(#[trigger] self.rows@[j]).same_key(range) implies kept@.contains(
                    self.rows@[j],
                ) by {
                    if j < i {
                        let k = choose|k: int| 0 <= k < before.len() && before[k] == self.rows@[j];
                        assert(kept@[k] == self.rows@[j]);
                    }
                }
            }
            i += 1;
        }
        let ghost filtered = kept@;
        kept.push(range);
        assert(kept@[filtered.len() as int] == range);
        assert(kept@.to_set() =~= spec_upsert(self.rows@.to_set(), range)) by {
            assert forall|r: MessageRange| kept@.to_set().contains(r) implies spec_upsert(
                self.rows@.to_set(),
                range,
            ).contains(r) by {
                let k = choose|k: int| 0 <= k < kept@.len() && kept@[k] == r;
                if k < filtered.len() {
                    assert(filtered[k] == r);
                    assert(self.rows@.contains(r));
                }
            }
            assert forall|r: MessageRange|
                spec_upsert(self.rows@.to_set(), range).contains(r) implies kept@.to_set().contains(
                r,
            ) by {
                if r != range {
                    let j = choose|j: int| 0 <= j < self.rows@.len() && self.rows@[j] == r;
                    assert(filtered.contains(self.rows@[j]));
                    let k = choose|k: int| 0 <= k < filtered.len() && filtered[k] == r;
                    assert(kept@[k] == r);
                }
            }
        }
        self.rows = kept;
    }

    /// Records that the span `(after_id, observed_last]` of `channel_id` has
    /// been retrieved.
    ///
    /// Every stored range of the channel that begins inside the span is
    /// removed, and the range that begins at `after_id` is stored with the
    /// greatest upper end among `observed_last` and the removed ranges. A range
    /// that was stored under the same key is replaced.
    pub fn merge_insert(&mut self, channel_id: u64, after_id: u64, observed_last: u64) -> (outcome:
        MergeOutcome)
        ensures
            final(self)@ == spec_merge_insert(old(self)@, channel_id, after_id, observed_last),
            is_effective_last(
                old(self)@,
                channel_id,
                after_id,
                observed_last,
                outcome.range.last_id,
            ),
            outcome.range == (MessageRange {
                channel_id,
                after_id,
                last_id: effective_last(old(self)@, channel_id, after_id, observed_last),
            }),
            outcome.absorbed@.to_set() == absorbed_ranges(
                old(self)@,
                channel_id,
                after_id,
                observed_last,
            ),
            outcome.absorbed@.no_duplicates(),
    {
        proof {
            use_type_invariant(&*self);
        }
        let mut kept: Vec<MessageRange> = Vec::new();
        let mut absorbed: Vec<MessageRange> = Vec::new();
        let mut effective: u64 = observed_last;
        let mut i: usize = 0;
        while i < self.rows.len()
            invariant
                0 <= i <= self.rows@.len(),
                forall|a: int, b: int|
                    0 <= a < b < self.rows@.len() ==> !(#[trigger] self.rows@[a]).same_key(
                        #[trigger] self.rows@[b],
                    ),
                // what was kept
                forall|k: int|
                    0 <= k < kept@.len() ==> (#[trigger] kept@[k]).survives(
                        channel_id,
                        after_id,
                        observed_last,
                    ) && exists|j: int| 0 <= j < i && self.rows@[j] == kept@[k],
                forall|j: int|
                    0 <= j < i && (#[trigger] self.rows@[j]).survives(
                        channel_id,
                        after_id,
                        observed_last,
                    ) ==> kept@.contains(self.rows@[j]),
                forall|a: int, b: int|
                    0 <= a < b < kept@.len() ==> !(#[trigger] kept@[a]).same_key(#[trigger] kept@[b]),
                // what was taken in
                forall|k: int|
                    0 <= k < absorbed@.len() ==> (#[trigger] absorbed@[k]).absorbed_by(
                        channel_id,
                        after_id,
                        observed_last,
                    ) && exists|j: int| 0 <= j < i && self.rows@[j] == absorbed@[k],
                forall|j: int|
                    0 <= j < i && (#[trigger] self.rows@[j]).absorbed_by(
                        channel_id,
                        after_id,
                        observed_last,
                    ) ==> absorbed@.contains(self.rows@[j]) && self.rows@[j].last_id <= effective,
                forall|a: int, b: int|
                    0 <= a < b < absorbed@.len() ==> !(#[trigger] absorbed@[a]).same_key(
                        #[trigger] absorbed@[b],
                    ),
                // the upper end so far
                effective >= observed_last,
                effective == observed_last || exists|j: int|
                    0 <= j < i && (#[trigger] self.rows@[j]).absorbed_by(
                        channel_id,
                        after_id,
                        observed_last,
                    ) && self.rows@[j].last_id == effective,
            decreases self.rows@.len() - i,
        {
            let row: MessageRange = self.rows[i];
            if row.channel_id == channel_id && after_id < row.after_id && row.after_id
                <= observed_last {
                let ghost before = absorbed@;
                absorbed.push(row);
                assert(absorbed@[before.len() as int] == row);
                if row.last_id > effective {
                    effective = row.last_id;
                }
                assert forall|j: int|
                    0 <= j < i + 1 && (#[trigger] self.rows@[j]).absorbed_by(
                        channel_id,
                        after_id,
                        observed_last,
                    ) implies absorbed@.contains(self.rows@[j]) && self.rows@[j].last_id
                    <= effective by {
                    if j < i {
                        let k = choose|k: int| 0 <= k < before.len() && before[k] == self.rows@[j];
                        assert(absorbed@[k] == self.rows@[j]);
                    }
                }
            } else if !(row.channel_id == channel_id && row.after_id == after_id) {
                let ghost before = kept@;
                kept.push(row);
                assert(kept@[before.len() as int] == row);
                assert forall|j: int|
                    0 <= j < i + 1 && (#[trigger] self.rows@[j]).survives(
                        channel_id,
                        after_id,
                        observed_last,
                    ) implies kept@.contains(self.rows@[j]) by {
                    if j < i {
                        let k = choose|k: int| 0 <= k < before.len() && before[k] == self.rows@[j];
                        assert(kept@[k] == self.rows@[j]);
                    }
                }
            }
            i += 1;
        }
        let ghost old_set = self.rows@.to_set();
        let range = MessageRange { channel_id, after_id, last_id: effective };
        proof {
            assert(is_effective_last(old_set, channel_id, after_id, observed_last, effective)) by {
                assert forall|r: MessageRange|
                    old_set.contains(r) && r.absorbed_by(
                        channel_id,
                        after_id,
                        observed_last,
                    ) implies r.last_id <= effective by {
                    let j = choose|j: int| 0 <= j < self.rows@.len() && self.rows@[j] == r;
                    assert(self.rows@[j].absorbed_by(channel_id, after_id, observed_last));
                }
                if effective != observed_last {
                    let j = choose|j: int|
                        0 <= j < i && (#[trigger] self.rows@[j]).absorbed_by(
                            channel_id,
                            after_id,
                            observed_last,
                        ) && self.rows@[j].last_id == effective;
                    assert(old_set.contains(self.rows@[j]));
                }
            }
            lemma_effective_last_unique(
                old_set,
                channel_id,
                after_id,
                observed_last,
                effective,
                effective,
            );
            assert(absorbed@.to_set() =~= absorbed_ranges(
                old_set,
                channel_id,
                after_id,
                observed_last,
            )) by {
                assert forall|r: MessageRange| absorbed@.to_set().contains(r) implies absorbed_ranges(
                    old_set,
                    channel_id,
                    after_id,
                    observed_last,
                ).contains(r) by {
                    let k = choose|k: int| 0 <= k < absorbed@.len() && absorbed@[k] == r;
                    assert(absorbed@[k].absorbed_by(channel_id, after_id, observed_last));
                    assert(self.rows@.contains(r));
                }
                assert forall|r: MessageRange|
                    absorbed_ranges(old_set, channel_id, after_id, observed_last).contains(
                        r,
                    ) implies absorbed@.to_set().contains(r) by {
                    let j = choose|j: int| 0 <= j < self.rows@.len() && self.rows@[j] == r;
                    assert(self.rows@[j].absorbed_by(channel_id, after_id, observed_last));
                }
            }
            assert(absorbed@.no_duplicates());
        }
        let ghost filtered = kept@;
        kept.push(range);
        proof {
            assert(kept@[filtered.len() as int] == range);
            assert(kept@.to_set() =~= spec_merge_insert(
                old_set,
                channel_id,
                after_id,
                observed_last,
            )) by {
                assert forall|r: MessageRange| kept@.to_set().contains(r) implies spec_merge_insert(
                    old_set,
                    channel_id,
                    after_id,
                    observed_last,
                ).contains(r) by {
                    let k = choose|k: int| 0 <= k < kept@.len() && kept@[k] == r;
                    if k < filtered.len() {
                        assert(filtered[k] == r);
                        assert(filtered[k].survives(channel_id, after_id, observed_last));
                        assert(self.rows@.contains(r));
                    }
                }
                assert forall|r: MessageRange|
                    spec_merge_insert(old_set, channel_id, after_id, observed_last).contains(
                        r,
                    ) implies kept@.to_set().contains(r) by {
                    if r != range {
                        let j = choose|j: int| 0 <= j < self.rows@.len() && self.rows@[j] == r;
                        assert(self.rows@[j].survives(channel_id, after_id, observed_last));
                        assert(filtered.contains(self.rows@[j]));
                        let k = choose|k: int| 0 <= k < filtered.len() && filtered[k] == r;
                        assert(kept@[k] == r);
                    }
                }
            }
            assert forall|a: int, b: int| 0 <= a < b < kept@.len() implies !(#[trigger] kept@[a]).same_key(
                #[trigger] kept@[b],
            ) by {
                if b == filtered.len() {
                    assert(filtered[a].survives(channel_id, after_id, observed_last));
                }
            }
        }
        self.rows = kept;
        MergeOutcome { range, absorbed }
    }
}

/// At most one value is the effective upper end of a merge.
pub proof fn lemma_effective_last_unique(
    s: Set<MessageRange>,
    channel_id: u64,
    after_id: u64,
    observed_last: u64,
    e1: u64,
    e2: u64,
)
    requires
        is_effective_last(s, channel_id, after_id, observed_last, e1),
        is_effective_last(s, channel_id, after_id, observed_last, e2),
    ensures
        e1 == e2,
        e1 == effective_last(s, channel_id, after_id, observed_last),
{
    let e = effective_last(s, channel_id, after_id, observed_last);
    assert(is_effective_last(s, channel_id, after_id, observed_last, e));
}

/// Among ranges that do not overlap, at most one covers a cursor.
pub proof fn lemma_covering_unique(
    s: Set<MessageRange>,
    channel_id: u64,
    cursor: u64,
    a: MessageRange,
    b: MessageRange,
)
    requires
        pairwise_disjoint(s),
        s.contains(a),
        s.contains(b),
        a.covers(channel_id, cursor),
        b.covers(channel_id, cursor),
    ensures
        a == b,
        spec_find_covering(s, channel_id, cursor) == Some(a),
{
    let c = choose|r: MessageRange| s.contains(r) && r.covers(channel_id, cursor);
    assert(s.contains(c) && c.covers(channel_id, cursor));
}

/// What the result of a merge looks like: the new range, the ranges that
/// survive, and nothing else.
pub proof fn lemma_merge_insert_contents(
    s: Set<MessageRange>,
    channel_id: u64,
    after_id: u64,
    observed_last: u64,
)
    ensures
        forall|r: MessageRange| #[trigger]
            spec_merge_insert(s, channel_id, after_id, observed_last).contains(r) <==> (r
                == MessageRange {
                channel_id,
                after_id,
                last_id: effective_last(s, channel_id, after_id, observed_last),
            } || (s.contains(r) && r.survives(channel_id, after_id, observed_last))),
        exists|e: u64| is_effective_last(s, channel_id, after_id, observed_last, e),
        is_effective_last(
            s,
            channel_id,
            after_id,
            observed_last,
            effective_last(s, channel_id, after_id, observed_last),
        ),
{
    lemma_effective_last_exists(s, channel_id, after_id, observed_last);
}

/// Every merge has an effective upper end.
proof fn lemma_effective_last_exists(
    s: Set<MessageRange>,
    channel_id: u64,
    after_id: u64,
    observed_last: u64,
)
    ensures
        is_effective_last(
            s,
            channel_id,
            after_id,
            observed_last,
            effective_last(s, channel_id, after_id, observed_last),
        ),
{
    // The upper ends of the absorbed ranges are bounded by u64::MAX: walk down
    // from there to the least bound that is attained.
    lemma_bounded_effective_last(s, channel_id, after_id, observed_last, u64::MAX);
}

/// If every absorbed range ends at or below `bound`, some value at or below
/// `bound` is the effective upper end.
proof fn lemma_bounded_effective_last(
    s: Set<MessageRange>,
    channel_id: u64,
    after_id: u64,
    observed_last: u64,
    bound: u64,
)
    requires
        bound >= observed_last,
        forall|r: MessageRange|
            s.contains(r) && r.absorbed_by(channel_id, after_id, observed_last) ==> r.last_id
                <= bound,
    ensures
        is_effective_last(
            s,
            channel_id,
            after_id,
            observed_last,
            effective_last(s, channel_id, after_id, observed_last),
        ),
    decreases bound - observed_last,
{
    if bound == observed_last {
        assert(is_effective_last(s, channel_id, after_id, observed_last, bound));
    } else if exists|r: MessageRange|
        s.contains(r) && r.absorbed_by(channel_id, after_id, observed_last) && r.last_id == bound {
        assert(is_effective_last(s, channel_id, after_id, observed_last, bound));
    } else {
        lemma_bounded_effective_last(s, channel_id, after_id, observed_last, (bound - 1) as u64);
    }
}


/// Whether a merge of `(after_id, observed_last]` into well-formed ranges
/// gives well-formed ranges again: the span is not empty, and it begins
/// neither inside a stored range nor at the upper end of one.
pub open spec fn merge_admissible(
    s: Set<MessageRange>,
    channel_id: u64,
    after_id: u64,
    observed_last: u64,
) -> bool {
    &&& after_id < observed_last
    &&& forall|r: MessageRange|
        s.contains(r) && r.channel_id == channel_id && r.after_id < after_id ==> r.last_id
            < after_id
}

/// Whether a merge of `(after_id, observed_last]` into ranges that do not
/// overlap gives ranges that do not overlap: the span is not empty and does
/// not begin inside a stored range.
pub open spec fn merge_keeps_apart(
    s: Set<MessageRange>,
    channel_id: u64,
    after_id: u64,
    observed_last: u64,
) -> bool {
    &&& after_id < observed_last
    &&& forall|r: MessageRange|
        s.contains(r) && r.channel_id == channel_id && r.after_id < after_id ==> r.last_id
            <= after_id
}

/// Ranges that are well formed do not overlap and have unique keys.
pub proof fn lemma_well_formed_is_disjoint(s: Set<MessageRange>)
    requires
        well_formed(s),
    ensures
        pairwise_disjoint(s),
        keys_unique(s),
{
}

/// A merge into well-formed ranges leaves them well formed exactly when the
/// merged span is not empty and begins neither inside a stored range nor at
/// the upper end of one. In particular every sequence of admissible merges
/// that starts from the empty store leaves it well formed.
pub proof fn lemma_merge_preserves_well_formed(
    s: Set<MessageRange>,
    channel_id: u64,
    after_id: u64,
    observed_last: u64,
)
    requires
        well_formed(s),
    ensures
        well_formed(spec_merge_insert(s, channel_id, after_id, observed_last))
            <==> merge_admissible(s, channel_id, after_id, observed_last),
{
    let merged = spec_merge_insert(s, channel_id, after_id, observed_last);
    let e = effective_last(s, channel_id, after_id, observed_last);
    let stored = MessageRange { channel_id, after_id, last_id: e };
    lemma_merge_insert_contents(s, channel_id, after_id, observed_last);
    assert(merged.contains(stored));
    if merge_admissible(s, channel_id, after_id, observed_last) {
        assert forall|a: MessageRange, b: MessageRange|
            #![trigger merged.contains(a), merged.contains(b)]
            merged.contains(a) && merged.contains(b) && a != b && a.channel_id
                == b.channel_id implies a.last_id < b.after_id || b.last_id < a.after_id by {
            if a == stored {
                lemma_stored_clear_of_survivor(s, channel_id, after_id, observed_last, b);
            } else if b == stored {
                lemma_stored_clear_of_survivor(s, channel_id, after_id, observed_last, a);
            }
        }
    }
    if well_formed(merged) {
        if after_id >= observed_last {
            assert(e == observed_last);
            assert(false);
        }
        assert forall|r: MessageRange|
            s.contains(r) && r.channel_id == channel_id && r.after_id < after_id implies r.last_id
            < after_id by {
            assert(r.survives(channel_id, after_id, observed_last));
            assert(merged.contains(r));
            assert(r != stored);
        }
    }
}

/// A merge into ranges that do not overlap leaves them so exactly when the
/// merged span is not empty and does not begin inside a stored range.
pub proof fn lemma_merge_preserves_disjoint(
    s: Set<MessageRange>,
    channel_id: u64,
    after_id: u64,
    observed_last: u64,
)
    requires
        pairwise_disjoint(s),
    ensures
        pairwise_disjoint(spec_merge_insert(s, channel_id, after_id, observed_last))
            <==> merge_keeps_apart(s, channel_id, after_id, observed_last),
{
    let merged = spec_merge_insert(s, channel_id, after_id, observed_last);
    let e = effective_last(s, channel_id, after_id, observed_last);
    let stored = MessageRange { channel_id, after_id, last_id: e };
    lemma_merge_insert_contents(s, channel_id, after_id, observed_last);
    assert(merged.contains(stored));
    if merge_keeps_apart(s, channel_id, after_id, observed_last) {
        assert forall|a: MessageRange, b: MessageRange|
            #![trigger merged.contains(a), merged.contains(b)]
            merged.contains(a) && merged.contains(b) && a != b && a.channel_id
                == b.channel_id implies a.last_id <= b.after_id || b.last_id <= a.after_id by {
            if a == stored {
                lemma_stored_apart_from_survivor(s, channel_id, after_id, observed_last, b);
            } else if b == stored {
                lemma_stored_apart_from_survivor(s, channel_id, after_id, observed_last, a);
            }
        }
    }
    if pairwise_disjoint(merged) {
        if after_id >= observed_last {
            assert(e == observed_last);
            assert(false);
        }
        assert forall|r: MessageRange|
            s.contains(r) && r.channel_id == channel_id && r.after_id < after_id implies r.last_id
            <= after_id by {
            assert(r.survives(channel_id, after_id, observed_last));
            assert(merged.contains(r));
            assert(r != stored);
        }
    }
}

/// After an admissible merge into well-formed ranges, a gap lies between the
/// stored range and each range of the channel that survived.
proof fn lemma_stored_clear_of_survivor(
    s: Set<MessageRange>,
    channel_id: u64,
    after_id: u64,
    observed_last: u64,
    r: MessageRange,
)
    requires
        well_formed(s),
        merge_admissible(s, channel_id, after_id, observed_last),
        s.contains(r),
        r.survives(channel_id, after_id, observed_last),
        r.channel_id == channel_id,
    ensures
        r.last_id < after_id || effective_last(s, channel_id, after_id, observed_last)
            < r.after_id,
{
    let e = effective_last(s, channel_id, after_id, observed_last);
    lemma_merge_insert_contents(s, channel_id, after_id, observed_last);
    if r.after_id > after_id && e != observed_last {
        let taken = choose|t: MessageRange|
            s.contains(t) && t.absorbed_by(channel_id, after_id, observed_last) && t.last_id == e;
        assert(s.contains(taken) && s.contains(r) && taken != r);
    }
}

/// After a merge that keeps ranges apart, the stored range has no identifier
/// in common with a range of the channel that survived.
proof fn lemma_stored_apart_from_survivor(
    s: Set<MessageRange>,
    channel_id: u64,
    after_id: u64,
    observed_last: u64,
    r: MessageRange,
)
    requires
        pairwise_disjoint(s),
        merge_keeps_apart(s, channel_id, after_id, observed_last),
        s.contains(r),
        r.survives(channel_id, after_id, observed_last),
        r.channel_id == channel_id,
    ensures
        r.last_id <= after_id || effective_last(s, channel_id, after_id, observed_last)
            <= r.after_id,
{
    let e = effective_last(s, channel_id, after_id, observed_last);
    lemma_merge_insert_contents(s, channel_id, after_id, observed_last);
    if r.after_id > after_id && e != observed_last {
        let taken = choose|t: MessageRange|
            s.contains(t) && t.absorbed_by(channel_id, after_id, observed_last) && t.last_id == e;
        assert(s.contains(taken) && s.contains(r) && taken != r);
    }
}

/// Merging a span and then a span with the same lower end that reaches at
/// least as far as the first merge did gives what merging the second span
/// alone gives.
pub proof fn lemma_merge_insert_twice(
    s: Set<MessageRange>,
    channel_id: u64,
    after_id: u64,
    first_last: u64,
    second_last: u64,
)
    requires
        first_last <= second_last,
        effective_last(s, channel_id, after_id, first_last) <= second_last,
    ensures
        spec_merge_insert(
            spec_merge_insert(s, channel_id, after_id, first_last),
            channel_id,
            after_id,
            second_last,
        ) == spec_merge_insert(s, channel_id, after_id, second_last),
{
    let once = spec_merge_insert(s, channel_id, after_id, first_last);
    let e1 = effective_last(s, channel_id, after_id, first_last);
    let e2 = effective_last(once, channel_id, after_id, second_last);
    lemma_merge_insert_contents(s, channel_id, after_id, first_last);
    lemma_merge_insert_contents(once, channel_id, after_id, second_last);
    lemma_merge_insert_contents(s, channel_id, after_id, second_last);
    assert(is_effective_last(s, channel_id, after_id, second_last, e2)) by {
        assert forall|r: MessageRange|
            s.contains(r) && r.absorbed_by(channel_id, after_id, second_last) implies r.last_id
            <= e2 by {
            if !r.absorbed_by(channel_id, after_id, first_last) {
                assert(once.contains(r));
            }
        }
        if e2 != second_last {
            let taken = choose|t: MessageRange|
                once.contains(t) && t.absorbed_by(channel_id, after_id, second_last) && t.last_id
                    == e2;
            assert(s.contains(taken));
        }
    }
    lemma_effective_last_unique(s, channel_id, after_id, second_last, e2, e2);
    assert(spec_merge_insert(once, channel_id, after_id, second_last) =~= spec_merge_insert(
        s,
        channel_id,
        after_id,
        second_last,
    ));
}

/// Two spans with the same lower end give the same merge where the shorter
/// one already reaches as far as the longer, and no stored range begins
/// between their upper ends.
pub proof fn lemma_merge_insert_same(
    s: Set<MessageRange>,
    channel_id: u64,
    after_id: u64,
    first_last: u64,
    second_last: u64,
)
    requires
        first_last <= second_last <= effective_last(s, channel_id, after_id, first_last),
        forall|r: MessageRange|
            s.contains(r) && r.channel_id == channel_id ==> !(first_last < r.after_id
                <= second_last),
    ensures
        spec_merge_insert(s, channel_id, after_id, first_last) == spec_merge_insert(
            s,
            channel_id,
            after_id,
            second_last,
        ),
{
    let e1 = effective_last(s, channel_id, after_id, first_last);
    lemma_merge_insert_contents(s, channel_id, after_id, first_last);
    lemma_merge_insert_contents(s, channel_id, after_id, second_last);
    assert(is_effective_last(s, channel_id, after_id, second_last, e1)) by {
        if e1 != second_last {
            let taken = choose|t: MessageRange|
                s.contains(t) && t.absorbed_by(channel_id, after_id, first_last) && t.last_id
                    == e1;
            assert(taken.absorbed_by(channel_id, after_id, second_last));
        }
    }
    lemma_effective_last_unique(s, channel_id, after_id, second_last, e1, e1);
    assert(spec_merge_insert(s, channel_id, after_id, first_last) =~= spec_merge_insert(
        s,
        channel_id,
        after_id,
        second_last,
    ));
}

} // verus!

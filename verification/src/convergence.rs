//! What a whole download comes to.
//!
//! The channel on the remote side is taken as a list of messages in ascending
//! order of their identifiers, and a request as answered with the oldest
//! messages of its window. Under that reading a download is a function of the
//! archive it starts from, and this module proves that its result does not
//! depend on the size of the pages, and that running it again changes nothing.

use crate::api::ChannelMessage;
use crate::downloader::{
    lemma_max_id, lemma_round_keeps_ranges_apart, lemma_round_keeps_well_formed, max_id,
    none_ends_at, spec_persist_page, spec_resolve_cursor, spec_store_page, ArchiveView, Cursor,
    Downloader,
};
use crate::ranges::{
    effective_last, lemma_covering_unique, lemma_merge_insert_contents, lemma_merge_insert_same,
    lemma_merge_insert_twice, lemma_merge_preserves_disjoint, merge_keeps_apart,
    pairwise_disjoint, spec_find_covering, spec_merge_insert, well_formed, MessageRange,
};
use vstd::prelude::*;

verus! {

/// The messages of a channel are listed oldest first, each identifier once.
pub open spec fn ascending<P>(remote: Seq<ChannelMessage<P>>) -> bool {
    forall|i: int, j: int| 0 <= i < j < remote.len() ==> remote[i].id < remote[j].id
}

/// The number of messages at the front of `remote` whose identifiers are
/// below `bound`; in an ascending list these are all such messages.
pub open spec fn count_below<P>(remote: Seq<ChannelMessage<P>>, bound: int) -> nat
    decreases remote.len(),
{
    if remote.len() == 0 {
        0
    } else if remote.last().id < bound {
        remote.len()
    } else {
        count_below(remote.drop_last(), bound)
    }
}

/// The answer to a request for at most `limit` messages with identifiers
/// strictly between `after` and `before`: the oldest such messages, oldest
/// first.
pub open spec fn spec_page<P>(
    remote: Seq<ChannelMessage<P>>,
    after: u64,
    before: u64,
    limit: u32,
) -> Seq<ChannelMessage<P>> {
    let from = count_below(remote, after + 1);
    let to = count_below(remote, before as int);
    if from < to {
        remote.subrange(
            from as int,
            if from + limit < to {
                from + limit
            } else {
                to as int
            },
        )
    } else {
        Seq::empty()
    }
}

/// In an ascending list, `count_below` splits the messages below the bound
/// from the others.
pub proof fn lemma_count_below<P>(remote: Seq<ChannelMessage<P>>, bound: int)
    requires
        ascending(remote),
    ensures
        count_below(remote, bound) <= remote.len(),
        forall|i: int| 0 <= i < count_below(remote, bound) ==> (#[trigger] remote[i]).id < bound,
        forall|i: int|
            count_below(remote, bound) <= i < remote.len() ==> (#[trigger] remote[i]).id >= bound,
    decreases remote.len(),
{
    if remote.len() > 0 && remote.last().id >= bound {
        let front = remote.drop_last();
        lemma_count_below(front, bound);
        assert forall|i: int| 0 <= i < count_below(remote, bound) implies (#[trigger] remote[i]).id
            < bound by {
            assert(front[i] == remote[i]);
        }
        assert forall|i: int| count_below(remote, bound) <= i < remote.len() implies (
        #[trigger] remote[i]).id >= bound by {
            if i < front.len() {
                assert(front[i] == remote[i]);
            }
        }
    }
}

/// A page holds the oldest messages of its window and nothing else: its
/// messages are messages of the channel inside the window, oldest first; it
/// holds at most `limit` of them; and a message of the window that is missing
/// from it is newer than all of the page, which then is full.
pub proof fn lemma_page_is_oldest_in_window<P>(
    remote: Seq<ChannelMessage<P>>,
    after: u64,
    before: u64,
    limit: u32,
)
    requires
        ascending(remote),
    ensures
        ({
            let page = spec_page(remote, after, before, limit);
            &&& ascending(page)
            &&& page.len() <= limit
            &&& forall|k: int|
                0 <= k < page.len() ==> remote.contains(#[trigger] page[k]) && after < page[k].id
                    < before
            &&& forall|i: int|
                0 <= i < remote.len() && after < (#[trigger] remote[i]).id < before
                    && !page.contains(remote[i]) ==> page.len() == limit && forall|k: int|
                    0 <= k < page.len() ==> (#[trigger] page[k]).id < remote[i].id
        }),
{
    let page = spec_page(remote, after, before, limit);
    let from = count_below(remote, after + 1);
    let to = count_below(remote, before as int);
    lemma_count_below(remote, after + 1);
    lemma_count_below(remote, before as int);
    assert forall|i: int|
        0 <= i < remote.len() && after < (#[trigger] remote[i]).id < before && !page.contains(
            remote[i],
        ) implies page.len() == limit && forall|k: int|
        0 <= k < page.len() ==> (#[trigger] page[k]).id < remote[i].id by {
        assert(from <= i < to);
        if i < from + page.len() {
            assert(page[i - from] == remote[i]);
        }
    }
}

/// The page that the next request of the download `d` brings.
pub open spec fn next_page<P>(
    a: ArchiveView<P>,
    remote: Seq<ChannelMessage<P>>,
    d: Downloader,
) -> Seq<ChannelMessage<P>> {
    spec_page(
        remote,
        spec_resolve_cursor(a.ranges, d.channel_id, d.after).position,
        d.before,
        d.fetch_limit,
    )
}

/// The archive after one more round of the download `d`: the cursor is
/// resolved, the page behind it is requested and stored.
pub open spec fn spec_iterate<P>(
    a: ArchiveView<P>,
    remote: Seq<ChannelMessage<P>>,
    d: Downloader,
) -> ArchiveView<P> {
    spec_persist_page(
        a,
        d.channel_id,
        spec_resolve_cursor(a.ranges, d.channel_id, d.after).anchor,
        next_page(a, remote, d),
    )
}

/// The archive after the download `d` has made at most `rounds` rounds; it
/// stops before that when a page comes back empty.
pub open spec fn spec_run<P>(
    a: ArchiveView<P>,
    remote: Seq<ChannelMessage<P>>,
    d: Downloader,
    rounds: nat,
) -> ArchiveView<P>
    decreases rounds,
{
    if rounds == 0 || next_page(a, remote, d).len() == 0 {
        a
    } else {
        spec_run(spec_iterate(a, remote, d), remote, d, (rounds - 1) as nat)
    }
}

/// The archive after the download `d` has run to its end. Every round but the
/// last stores a message of the channel that no earlier round was sent, so
/// one round for each message of the channel is enough.
pub open spec fn spec_download<P>(
    a: ArchiveView<P>,
    remote: Seq<ChannelMessage<P>>,
    d: Downloader,
) -> ArchiveView<P> {
    spec_run(a, remote, d, remote.len())
}

/// What the ranges of `channel_id` claim is true: every message of the channel
/// whose identifier lies in a stored range is stored.
pub open spec fn coverage_holds<P>(
    a: ArchiveView<P>,
    remote: Seq<ChannelMessage<P>>,
    channel_id: u64,
) -> bool {
    forall|r: MessageRange, i: int|
        #![trigger a.ranges.contains(r), remote[i]]
        a.ranges.contains(r) && r.channel_id == channel_id && 0 <= i < remote.len() && r.after_id
            < remote[i].id <= r.last_id ==> a.messages.contains_key(remote[i].id)
}

/// Of the ranges of `channel_id` that begin above `after`, none begins inside
/// another or at its upper end.
pub open spec fn separated_beyond(s: Set<MessageRange>, channel_id: u64, after: u64) -> bool {
    forall|x: MessageRange, y: MessageRange|
        #![trigger s.contains(x), s.contains(y)]
        s.contains(x) && s.contains(y) && x != y && x.channel_id == channel_id && y.channel_id
            == channel_id && x.after_id > after && y.after_id > after ==> x.last_id < y.after_id
            || y.last_id < x.after_id
}

/// What every round of a download keeps true of the archive: the ranges do
/// not overlap, those ahead of the download lie apart, and what they claim
/// holds of the channel.
pub open spec fn resumable<P>(
    a: ArchiveView<P>,
    remote: Seq<ChannelMessage<P>>,
    d: Downloader,
) -> bool {
    &&& ascending(remote)
    &&& pairwise_disjoint(a.ranges)
    &&& separated_beyond(a.ranges, d.channel_id, d.after)
    &&& coverage_holds(a, remote, d.channel_id)
}

/// The number of messages of the channel that lie between the cursor of the
/// download and its upper bound.
pub open spec fn pending<P>(
    a: ArchiveView<P>,
    remote: Seq<ChannelMessage<P>>,
    d: Downloader,
) -> nat {
    let from = count_below(
        remote,
        spec_resolve_cursor(a.ranges, d.channel_id, d.after).position + 1,
    );
    let to = count_below(remote, d.before as int);
    if from < to {
        (to - from) as nat
    } else {
        0
    }
}

/// The greatest identifier of an ascending page is that of its last message.
proof fn lemma_max_id_ascending<P>(page: Seq<ChannelMessage<P>>)
    requires
        ascending(page),
        page.len() > 0,
    ensures
        max_id(page) == page.last().id,
    decreases page.len(),
{
    let front = page.drop_last();
    if front.len() > 0 {
        assert(ascending(front)) by {
            assert forall|i: int, j: int| 0 <= i < j < front.len() implies front[i].id
                < front[j].id by {
                assert(front[i] == page[i] && front[j] == page[j]);
            }
        }
        lemma_max_id_ascending(front);
        assert(front.last() == page[page.len() - 2]);
        assert(page[page.len() - 2].id < page[page.len() - 1].id);
    } else {
        assert(max_id(front) == 0);
    }
}

/// Storing a page adds the identifiers of the page to the stored ones and
/// leaves every message that was stored as it was.
proof fn lemma_store_page_keys<P>(m: Map<u64, ChannelMessage<P>>, page: Seq<ChannelMessage<P>>)
    ensures
        forall|id: u64| #[trigger]
            spec_store_page(m, page).contains_key(id) <==> m.contains_key(id) || exists|k: int|
                0 <= k < page.len() && (#[trigger] page[k]).id == id,
        forall|id: u64| m.contains_key(id) ==> #[trigger] spec_store_page(m, page)[id] == m[id],
    decreases page.len(),
{
    if page.len() > 0 {
        let front = page.drop_last();
        lemma_store_page_keys(m, front);
        let stored = spec_store_page(m, front);
        assert forall|id: u64| #[trigger]
            spec_store_page(m, page).contains_key(id) implies m.contains_key(id) || exists|k: int|
            0 <= k < page.len() && (#[trigger] page[k]).id == id by {
            if stored.contains_key(id) {
                if !m.contains_key(id) {
                    let k = choose|k: int| 0 <= k < front.len() && (#[trigger] front[k]).id == id;
                    assert(page[k].id == id);
                }
            } else {
                assert(page[page.len() - 1].id == id);
            }
        }
        assert forall|id: u64|
            m.contains_key(id) || (exists|k: int|
                0 <= k < page.len() && (#[trigger] page[k]).id == id) implies #[trigger] spec_store_page(
            m,
            page,
        ).contains_key(id) by {
            if !m.contains_key(id) {
                let k = choose|k: int| 0 <= k < page.len() && (#[trigger] page[k]).id == id;
                if k < front.len() {
                    assert(front[k].id == id);
                }
            }
        }
    }
}

/// Storing a page of messages whose identifiers are all stored changes nothing.
proof fn lemma_store_known<P>(m: Map<u64, ChannelMessage<P>>, page: Seq<ChannelMessage<P>>)
    requires
        forall|k: int| 0 <= k < page.len() ==> m.contains_key((#[trigger] page[k]).id),
    ensures
        spec_store_page(m, page) == m,
    decreases page.len(),
{
    if page.len() > 0 {
        let front = page.drop_last();
        assert forall|k: int| 0 <= k < front.len() implies m.contains_key(
            (#[trigger] front[k]).id,
        ) by {
            assert(front[k] == page[k]);
        }
        lemma_store_known(m, front);
        assert(m.contains_key(page[page.len() - 1].id));
    }
}

/// Storing a page a second time changes nothing.
pub proof fn lemma_store_page_again<P>(
    m: Map<u64, ChannelMessage<P>>,
    page: Seq<ChannelMessage<P>>,
)
    ensures
        spec_store_page(spec_store_page(m, page), page) == spec_store_page(m, page),
{
    lemma_store_page_keys(m, page);
    lemma_store_known(spec_store_page(m, page), page);
}

/// Storing two pages one after the other is storing them joined.
proof fn lemma_store_joined<P>(
    m: Map<u64, ChannelMessage<P>>,
    first: Seq<ChannelMessage<P>>,
    second: Seq<ChannelMessage<P>>,
)
    ensures
        spec_store_page(m, first + second) == spec_store_page(spec_store_page(m, first), second),
    decreases second.len(),
{
    if second.len() == 0 {
        assert(first + second =~= first);
    } else {
        lemma_store_joined(m, first, second.drop_last());
        assert((first + second).drop_last() =~= first + second.drop_last());
        assert((first + second).last() == second.last());
    }
}

/// What one round with a page that is not empty does: the archive stays
/// resumable, the cursor moves to the upper end of the merged range, which is
/// at or above every identifier of the page, and fewer messages are pending.
proof fn lemma_iterate<P>(a: ArchiveView<P>, remote: Seq<ChannelMessage<P>>, d: Downloader)
    requires
        resumable(a, remote, d),
        next_page(a, remote, d).len() > 0,
    ensures
        resumable(spec_iterate(a, remote, d), remote, d),
        ({
            let cursor = spec_resolve_cursor(a.ranges, d.channel_id, d.after);
            let page = next_page(a, remote, d);
            let e = effective_last(a.ranges, d.channel_id, cursor.anchor, page.last().id);
            &&& cursor.anchor <= d.after <= cursor.position < page.last().id <= e
            &&& max_id(page) == page.last().id
            &&& spec_resolve_cursor(spec_iterate(a, remote, d).ranges, d.channel_id, d.after)
                == Cursor { position: e, anchor: cursor.anchor }
            &&& forall|r: MessageRange|
                a.ranges.contains(r) && r.channel_id == d.channel_id && r.after_id
                    > cursor.anchor ==> r.after_id >= cursor.position && r.after_id > d.after
        }),
        pending(spec_iterate(a, remote, d), remote, d) <= pending(a, remote, d) - next_page(
            a,
            remote,
            d,
        ).len(),
{
    let s = a.ranges;
    let c = d.channel_id;
    let cursor = spec_resolve_cursor(s, c, d.after);
    let page = next_page(a, remote, d);
    let from = count_below(remote, cursor.position + 1);
    let to = count_below(remote, d.before as int);
    lemma_count_below(remote, cursor.position + 1);
    lemma_count_below(remote, d.before as int);
    lemma_page_is_oldest_in_window(remote, cursor.position, d.before, d.fetch_limit);
    lemma_max_id_ascending(page);
    let o = page.last().id;
    assert(page.last() == remote[from + page.len() - 1]);
    let e = effective_last(s, c, cursor.anchor, o);
    let stored = MessageRange { channel_id: c, after_id: cursor.anchor, last_id: e };
    let next = spec_iterate(a, remote, d);
    lemma_merge_insert_contents(s, c, cursor.anchor, o);
    assert(next.ranges == spec_merge_insert(s, c, cursor.anchor, o));
    assert(next.messages == spec_store_page(a.messages, page));
    lemma_store_page_keys(a.messages, page);

    let found = spec_find_covering(s, c, d.after);
    assert(merge_keeps_apart(s, c, cursor.anchor, o)) by {
        assert forall|r: MessageRange|
            s.contains(r) && r.channel_id == c && r.after_id < cursor.anchor implies r.last_id
            <= cursor.anchor by {
            if found is Some {
                let r0 = found->0;
                assert(s.contains(r0) && s.contains(r));
            } else {
                assert(!r.covers(c, d.after));
            }
        }
    }
    lemma_merge_preserves_disjoint(s, c, cursor.anchor, o);
    assert(next.ranges.contains(stored));
    lemma_covering_unique(next.ranges, c, d.after, stored, stored);

    assert forall|r: MessageRange|
        s.contains(r) && r.channel_id == c && r.after_id > cursor.anchor implies r.after_id
        >= cursor.position && r.after_id > d.after by {
        if found is Some {
            let r0 = found->0;
            assert(s.contains(r0) && s.contains(r));
        }
    }

    assert(coverage_holds(next, remote, c)) by {
        assert forall|r: MessageRange, i: int|
            #![trigger next.ranges.contains(r), remote[i]]
            next.ranges.contains(r) && r.channel_id == c && 0 <= i < remote.len() && r.after_id
                < remote[i].id <= r.last_id implies next.messages.contains_key(remote[i].id) by {
            let id = remote[i].id;
            if r == stored {
                if id <= cursor.position {
                    let r0 = found->0;
                    assert(a.ranges.contains(r0));
                    assert(a.messages.contains_key(remote[i].id));
                } else if id <= o {
                    assert(from <= i);
                    assert(i < from + page.len()) by {
                        if i >= from + page.len() {
                            assert(remote[from + page.len() - 1].id < remote[i].id);
                        }
                    }
                    assert(page[i - from] == remote[i]);
                } else {
                    let taken = choose|t: MessageRange|
                        s.contains(t) && t.absorbed_by(c, cursor.anchor, o) && t.last_id == e;
                    assert(a.ranges.contains(taken));
                    assert(a.messages.contains_key(remote[i].id));
                }
            } else {
                assert(a.ranges.contains(r));
                assert(a.messages.contains_key(remote[i].id));
            }
        }
    }
    lemma_count_below(remote, e + 1);
    assert(count_below(remote, e + 1) >= from + page.len()) by {
        if count_below(remote, e + 1) < from + page.len() {
            assert(remote[from + page.len() - 1].id >= e + 1);
        }
    }
}

/// The download `d` with pages of one message.
pub open spec fn one_by_one(d: Downloader) -> Downloader {
    Downloader { fetch_limit: 1, ..d }
}

/// A part of an ascending list is ascending.
proof fn lemma_subrange_ascending<P>(remote: Seq<ChannelMessage<P>>, from: int, to: int)
    requires
        ascending(remote),
        0 <= from <= to <= remote.len(),
    ensures
        ascending(remote.subrange(from, to)),
{
}

/// Once a download has as many rounds as messages are pending, more rounds
/// change nothing: it has stopped at an archive whose next page is empty.
proof fn lemma_run_enough<P>(
    a: ArchiveView<P>,
    remote: Seq<ChannelMessage<P>>,
    d: Downloader,
    n: nat,
    m: nat,
)
    requires
        resumable(a, remote, d),
        n >= pending(a, remote, d),
        m >= pending(a, remote, d),
    ensures
        spec_run(a, remote, d, n) == spec_run(a, remote, d, m),
        resumable(spec_run(a, remote, d, n), remote, d),
        next_page(spec_run(a, remote, d, n), remote, d).len() == 0,
    decreases n,
{
    let page = next_page(a, remote, d);
    lemma_count_below(remote, d.before as int);
    if page.len() > 0 {
        lemma_iterate(a, remote, d);
        lemma_run_enough(spec_iterate(a, remote, d), remote, d, (n - 1) as nat, (m - 1) as nat);
    }
}

/// Storing the next `k` pending messages as one page comes, in the end, to
/// the same as going on one message at a time.
proof fn lemma_page_then_singles<P>(
    a: ArchiveView<P>,
    remote: Seq<ChannelMessage<P>>,
    d: Downloader,
    k: nat,
)
    requires
        resumable(a, remote, d),
        1 <= k <= pending(a, remote, d),
    ensures
        ({
            let cursor = spec_resolve_cursor(a.ranges, d.channel_id, d.after);
            let from = count_below(remote, cursor.position + 1) as int;
            let big = spec_persist_page(
                a,
                d.channel_id,
                cursor.anchor,
                remote.subrange(from, from + k),
            );
            &&& resumable(big, remote, d)
            &&& spec_run(big, remote, one_by_one(d), pending(big, remote, d)) == spec_run(
                a,
                remote,
                one_by_one(d),
                pending(a, remote, d),
            )
        }),
    decreases k,
{
    let d1 = one_by_one(d);
    let c = d.channel_id;
    let s = a.ranges;
    let cursor = spec_resolve_cursor(s, c, d.after);
    let from = count_below(remote, cursor.position + 1) as int;
    let to = count_below(remote, d.before as int) as int;
    lemma_count_below(remote, cursor.position + 1);
    lemma_count_below(remote, d.before as int);
    let page_k = remote.subrange(from, from + k);
    let big = spec_persist_page(a, c, cursor.anchor, page_k);
    let page_1 = remote.subrange(from, from + 1);
    assert(next_page(a, remote, d1) == page_1);
    let a1 = spec_iterate(a, remote, d1);
    lemma_iterate(a, remote, d1);
    let p = remote[from].id;
    assert(page_1.last() == remote[from]);
    let e1 = effective_last(s, c, cursor.anchor, p);
    // going on from `a` one by one is going on from `a1` one by one
    assert(spec_run(a, remote, d1, pending(a, remote, d)) == spec_run(
        a1,
        remote,
        d1,
        pending(a1, remote, d),
    )) by {
        lemma_run_enough(
            a1,
            remote,
            d1,
            (pending(a, remote, d) - 1) as nat,
            pending(a1, remote, d),
        );
    }
    if k == 1 {
        assert(big == a1);
    } else {
        lemma_subrange_ascending(remote, from, from + k);
        lemma_max_id_ascending(page_k);
        let o = remote[from + k - 1].id;
        assert(page_k.last() == remote[from + k - 1]);
        assert(p < o);
        let from1 = count_below(remote, e1 + 1) as int;
        lemma_count_below(remote, e1 + 1);
        assert(from1 >= from + 1) by {
            if from1 <= from {
                assert(remote[from].id >= e1 + 1);
            }
        }
        lemma_merge_insert_contents(s, c, cursor.anchor, p);
        // the messages of the page that a round of one message jumps over are stored
        let j = if e1 >= o {
            from + k
        } else {
            from1
        };
        assert(from + 1 <= j <= from + k) by {
            if e1 < o && from1 > from + k - 1 {
                assert(remote[from + k - 1].id < e1 + 1);
            }
        }
        let skipped = remote.subrange(from + 1, j);
        let rest = remote.subrange(j, from + k);
        assert forall|i: int| from + 1 <= i < j implies a.messages.contains_key(
            (#[trigger] remote[i]).id,
        ) by {
            assert(remote[from].id < remote[i].id);
            assert(remote[i].id <= e1) by {
                if e1 >= o {
                    if i < from + k - 1 {
                        assert(remote[i].id < remote[from + k - 1].id);
                    }
                }
            }
            let taken = choose|t: MessageRange|
                s.contains(t) && t.absorbed_by(c, cursor.anchor, p) && t.last_id == e1;
            assert(a.ranges.contains(taken));
            assert(a.messages.contains_key(remote[i].id));
        }
        assert(spec_store_page(a.messages, page_k) == spec_store_page(a1.messages, rest)) by {
            assert(page_k =~= page_1 + skipped + rest);
            lemma_store_joined(a.messages, page_1 + skipped, rest);
            lemma_store_joined(a.messages, page_1, skipped);
            lemma_store_page_keys(a.messages, page_1);
            assert forall|i: int| 0 <= i < skipped.len() implies a1.messages.contains_key(
                (#[trigger] skipped[i]).id,
            ) by {
                assert(skipped[i] == remote[from + 1 + i]);
            }
            lemma_store_known(a1.messages, skipped);
        }
        if e1 >= o {
            assert forall|r: MessageRange| s.contains(r) && r.channel_id == c implies !(p
                < r.after_id <= o) by {
                if p < r.after_id <= o {
                    let taken = choose|t: MessageRange|
                        s.contains(t) && t.absorbed_by(c, cursor.anchor, p) && t.last_id == e1;
                    assert(s.contains(taken) && s.contains(r) && taken != r);
                }
            }
            lemma_merge_insert_same(s, c, cursor.anchor, p, o);
            assert(rest =~= Seq::<ChannelMessage<P>>::empty());
            assert(big =~= a1);
        } else {
            let k1 = (from + k - from1) as nat;
            lemma_page_then_singles(a1, remote, d, k1);
            let big1 = spec_persist_page(
                a1,
                c,
                cursor.anchor,
                remote.subrange(from1, from1 + k1),
            );
            lemma_subrange_ascending(remote, from1, from1 + k1);
            lemma_max_id_ascending(rest);
            assert(rest.last() == remote[from + k - 1]);
            lemma_merge_insert_twice(s, c, cursor.anchor, p, o);
            assert(big =~= big1);
        }
    }
}

/// A download with pages of any size comes, in the end, to the same as the
/// download with pages of one message.
proof fn lemma_run_as_singles<P>(
    a: ArchiveView<P>,
    remote: Seq<ChannelMessage<P>>,
    d: Downloader,
    n: nat,
)
    requires
        resumable(a, remote, d),
        d.fetch_limit >= 1,
        n >= pending(a, remote, d),
    ensures
        spec_run(a, remote, d, n) == spec_run(a, remote, one_by_one(d), n),
    decreases n,
{
    let d1 = one_by_one(d);
    let page = next_page(a, remote, d);
    lemma_count_below(remote, d.before as int);
    if page.len() > 0 {
        lemma_iterate(a, remote, d);
        let b = spec_iterate(a, remote, d);
        lemma_run_as_singles(b, remote, d, (n - 1) as nat);
        lemma_page_then_singles(a, remote, d, page.len());
        lemma_run_enough(b, remote, d1, (n - 1) as nat, pending(b, remote, d));
        lemma_run_enough(a, remote, d1, n, pending(a, remote, d));
    }
}

/// The number of pending messages is at most the number of messages.
proof fn lemma_pending_bounded<P>(a: ArchiveView<P>, remote: Seq<ChannelMessage<P>>, d: Downloader)
    requires
        ascending(remote),
    ensures
        pending(a, remote, d) <= remote.len(),
{
    lemma_count_below(remote, d.before as int);
}

/// Well-formed ranges whose claims hold of the channel make a resumable archive.
pub proof fn lemma_well_formed_is_resumable<P>(
    a: ArchiveView<P>,
    remote: Seq<ChannelMessage<P>>,
    d: Downloader,
)
    requires
        ascending(remote),
        well_formed(a.ranges),
        coverage_holds(a, remote, d.channel_id),
    ensures
        resumable(a, remote, d),
{
}

/// The size of the pages does not matter: two downloads of the same window of
/// a channel that differ in nothing but their page sizes leave the same
/// ranges and the same messages.
pub proof fn lemma_download_independent_of_page_size<P>(
    a: ArchiveView<P>,
    remote: Seq<ChannelMessage<P>>,
    d1: Downloader,
    d2: Downloader,
)
    requires
        ascending(remote),
        well_formed(a.ranges),
        coverage_holds(a, remote, d1.channel_id),
        d1.channel_id == d2.channel_id,
        d1.after == d2.after,
        d1.before == d2.before,
        d1.fetch_limit >= 1,
        d2.fetch_limit >= 1,
    ensures
        spec_download(a, remote, d1).ranges == spec_download(a, remote, d2).ranges,
        spec_download(a, remote, d1).messages == spec_download(a, remote, d2).messages,
{
    lemma_well_formed_is_resumable(a, remote, d1);
    lemma_well_formed_is_resumable(a, remote, d2);
    lemma_pending_bounded(a, remote, d1);
    lemma_pending_bounded(a, remote, d2);
    lemma_run_as_singles(a, remote, d1, remote.len());
    lemma_run_as_singles(a, remote, d2, remote.len());
    lemma_run_same_window(a, remote, one_by_one(d1), one_by_one(d2), remote.len());
}

/// The pause between requests has no part in what a download stores.
proof fn lemma_run_same_window<P>(
    a: ArchiveView<P>,
    remote: Seq<ChannelMessage<P>>,
    d1: Downloader,
    d2: Downloader,
    n: nat,
)
    requires
        d1.channel_id == d2.channel_id,
        d1.after == d2.after,
        d1.before == d2.before,
        d1.fetch_limit == d2.fetch_limit,
    ensures
        spec_run(a, remote, d1, n) == spec_run(a, remote, d2, n),
    decreases n,
{
    if n > 0 && next_page(a, remote, d1).len() > 0 {
        lemma_run_same_window(spec_iterate(a, remote, d1), remote, d1, d2, (n - 1) as nat);
    }
}

/// A download stops at an archive that is complete for its window: the next
/// page is empty, and the archive is resumable again.
pub proof fn lemma_download_completes<P>(
    a: ArchiveView<P>,
    remote: Seq<ChannelMessage<P>>,
    d: Downloader,
)
    requires
        resumable(a, remote, d),
    ensures
        next_page(spec_download(a, remote, d), remote, d).len() == 0,
        resumable(spec_download(a, remote, d), remote, d),
{
    lemma_pending_bounded(a, remote, d);
    lemma_run_enough(a, remote, d, remote.len(), remote.len());
}

/// A download whose next page is empty stores no message and leaves the
/// ranges as they are.
pub proof fn lemma_download_of_covered_window<P>(
    a: ArchiveView<P>,
    remote: Seq<ChannelMessage<P>>,
    d: Downloader,
)
    requires
        next_page(a, remote, d).len() == 0,
    ensures
        spec_download(a, remote, d) == a,
{
}

/// Running a download again changes nothing.
pub proof fn lemma_download_again<P>(
    a: ArchiveView<P>,
    remote: Seq<ChannelMessage<P>>,
    d: Downloader,
)
    requires
        resumable(a, remote, d),
    ensures
        spec_download(spec_download(a, remote, d), remote, d) == spec_download(a, remote, d),
{
    lemma_download_completes(a, remote, d);
    lemma_download_of_covered_window(spec_download(a, remote, d), remote, d);
}

/// The download `d` with pages of at most `limit` messages.
pub open spec fn with_limit(d: Downloader, limit: u32) -> Downloader {
    Downloader { fetch_limit: limit, ..d }
}

/// The archive after a download whose rounds ask for pages of the sizes
/// `limits`, one after the other; it stops when a page comes back empty or
/// the sizes are used up.
pub open spec fn spec_run_schedule<P>(
    a: ArchiveView<P>,
    remote: Seq<ChannelMessage<P>>,
    d: Downloader,
    limits: Seq<u32>,
) -> ArchiveView<P>
    decreases limits.len(),
{
    if limits.len() == 0 || next_page(a, remote, with_limit(d, limits[0])).len() == 0 {
        a
    } else {
        spec_run_schedule(
            spec_iterate(a, remote, with_limit(d, limits[0])),
            remote,
            d,
            limits.skip(1),
        )
    }
}

/// A download with pages of any sizes comes, in the end, to the same as the
/// download with pages of one message.
proof fn lemma_schedule_as_singles<P>(
    a: ArchiveView<P>,
    remote: Seq<ChannelMessage<P>>,
    d: Downloader,
    limits: Seq<u32>,
)
    requires
        resumable(a, remote, d),
        forall|i: int| 0 <= i < limits.len() ==> #[trigger] limits[i] >= 1,
        limits.len() >= pending(a, remote, d),
    ensures
        spec_run_schedule(a, remote, d, limits) == spec_run(
            a,
            remote,
            one_by_one(d),
            pending(a, remote, d),
        ),
    decreases limits.len(),
{
    lemma_count_below(remote, d.before as int);
    if limits.len() > 0 {
        let round = with_limit(d, limits[0]);
        let page = next_page(a, remote, round);
        if page.len() > 0 {
            lemma_iterate(a, remote, round);
            let b = spec_iterate(a, remote, round);
            let rest = limits.skip(1);
            assert forall|i: int| 0 <= i < rest.len() implies #[trigger] rest[i] >= 1 by {
                assert(rest[i] == limits[i + 1]);
            }
            lemma_schedule_as_singles(b, remote, d, rest);
            lemma_page_then_singles(a, remote, d, page.len());
        }
    }
}

/// Any partition into pages gives the same archive: a download whose rounds
/// ask for pages of any sizes, each at least one, ends with the ranges and the
/// messages that the download with pages of one message ends with, provided
/// it is given a round for each message of the channel.
pub proof fn lemma_download_independent_of_partition<P>(
    a: ArchiveView<P>,
    remote: Seq<ChannelMessage<P>>,
    d: Downloader,
    limits: Seq<u32>,
)
    requires
        ascending(remote),
        well_formed(a.ranges),
        coverage_holds(a, remote, d.channel_id),
        forall|i: int| 0 <= i < limits.len() ==> #[trigger] limits[i] >= 1,
        limits.len() >= remote.len(),
    ensures
        spec_run_schedule(a, remote, d, limits).ranges == spec_download(
            a,
            remote,
            one_by_one(d),
        ).ranges,
        spec_run_schedule(a, remote, d, limits).messages == spec_download(
            a,
            remote,
            one_by_one(d),
        ).messages,
{
    lemma_well_formed_is_resumable(a, remote, d);
    lemma_pending_bounded(a, remote, d);
    lemma_schedule_as_singles(a, remote, d, limits);
    lemma_run_enough(a, remote, one_by_one(d), remote.len(), pending(a, remote, d));
}

/// Ranges that do not overlap stay so through every round of a download.
proof fn lemma_run_keeps_ranges_apart<P>(
    a: ArchiveView<P>,
    remote: Seq<ChannelMessage<P>>,
    d: Downloader,
    rounds: nat,
)
    requires
        ascending(remote),
        pairwise_disjoint(a.ranges),
    ensures
        pairwise_disjoint(spec_run(a, remote, d, rounds).ranges),
    decreases rounds,
{
    let page = next_page(a, remote, d);
    if rounds > 0 && page.len() > 0 {
        let cursor = spec_resolve_cursor(a.ranges, d.channel_id, d.after);
        lemma_page_is_oldest_in_window(remote, cursor.position, d.before, d.fetch_limit);
        lemma_round_keeps_ranges_apart(a.ranges, d.channel_id, d.after, page);
        lemma_run_keeps_ranges_apart(spec_iterate(a, remote, d), remote, d, (rounds - 1) as nat);
    }
}

/// Well-formed ranges of which none ends where the download is to start stay
/// so through every round of the download.
proof fn lemma_run_keeps_well_formed<P>(
    a: ArchiveView<P>,
    remote: Seq<ChannelMessage<P>>,
    d: Downloader,
    rounds: nat,
)
    requires
        ascending(remote),
        well_formed(a.ranges),
        none_ends_at(a.ranges, d.channel_id, d.after),
    ensures
        well_formed(spec_run(a, remote, d, rounds).ranges),
    decreases rounds,
{
    let page = next_page(a, remote, d);
    if rounds > 0 && page.len() > 0 {
        let s = a.ranges;
        let cursor = spec_resolve_cursor(s, d.channel_id, d.after);
        lemma_page_is_oldest_in_window(remote, cursor.position, d.before, d.fetch_limit);
        lemma_round_keeps_well_formed(s, d.channel_id, d.after, page);
        lemma_max_id(page);
        lemma_merge_insert_contents(s, d.channel_id, cursor.anchor, max_id(page));
        let next = spec_iterate(a, remote, d);
        assert(none_ends_at(next.ranges, d.channel_id, d.after)) by {
            let found = spec_find_covering(s, d.channel_id, d.after);
            assert(cursor.position >= d.after);
        }
        lemma_run_keeps_well_formed(next, remote, d, (rounds - 1) as nat);
    }
}

/// A download leaves ranges that do not overlap as such, whatever the window
/// and the size of the pages.
pub proof fn lemma_download_keeps_ranges_apart<P>(
    a: ArchiveView<P>,
    remote: Seq<ChannelMessage<P>>,
    d: Downloader,
)
    requires
        ascending(remote),
        pairwise_disjoint(a.ranges),
    ensures
        pairwise_disjoint(spec_download(a, remote, d).ranges),
{
    lemma_run_keeps_ranges_apart(a, remote, d, remote.len());
}

/// A download leaves well-formed ranges well formed, unless a stored range
/// ends where the download is to start.
pub proof fn lemma_download_keeps_well_formed<P>(
    a: ArchiveView<P>,
    remote: Seq<ChannelMessage<P>>,
    d: Downloader,
)
    requires
        ascending(remote),
        well_formed(a.ranges),
        none_ends_at(a.ranges, d.channel_id, d.after),
    ensures
        well_formed(spec_download(a, remote, d).ranges),
{
    lemma_run_keeps_well_formed(a, remote, d, remote.len());
}

} // verus!

//! One download of a channel, step by step.
//!
//! A download repeats three steps until a page comes back empty: find out
//! where the next request has to start, request a page, and store the page
//! together with the span it covers. The caller performs the request and
//! puts what was stored on disk; the decisions are made here.

use crate::api::{ChannelMessage, PageRequest};
use crate::messages::{keyed_by_id, spec_insert_if_absent, MessageStore};
use crate::ranges::{
    absorbed_ranges, effective_last, is_covering_answer, lemma_merge_preserves_disjoint,
    lemma_merge_preserves_well_formed, merge_admissible, merge_keeps_apart, pairwise_disjoint,
    spec_find_covering, spec_merge_insert, well_formed, MergeOutcome, MessageRange, RangeStore,
};
use vstd::prelude::*;

verus! {

/// What is stored, as a value: the messages by identifier and the ranges.
#[verifier::ext_equal]
pub struct ArchiveView<P> {
    pub messages: Map<u64, ChannelMessage<P>>,
    pub ranges: Set<MessageRange>,
}

/// What is stored: the messages and the ranges that say which spans of them
/// are complete.
pub struct Archive<P> {
    pub messages: MessageStore<P>,
    pub ranges: RangeStore,
}

impl<P> View for Archive<P> {
    type V = ArchiveView<P>;

    open spec fn view(&self) -> ArchiveView<P> {
        ArchiveView { messages: self.messages@, ranges: self.ranges@ }
    }
}

impl<P> Archive<P> {
    /// An archive that holds nothing.
    pub fn new() -> (archive: Archive<P>)
        ensures
            archive@.messages == Map::<u64, ChannelMessage<P>>::empty(),
            archive@.ranges == Set::<MessageRange>::empty(),
    {
        Archive { messages: MessageStore::new(), ranges: RangeStore::new() }
    }
}

/// Where the next request starts, and where the span that it extends began.
#[derive(Clone, Copy, Debug, PartialEq, Eq, Structural)]
pub struct Cursor {
    /// The request asks for the messages after this identifier.
    pub position: u64,
    /// The lower end of the range that the fetched span is merged into.
    pub anchor: u64,
}

/// What to do after a page has been stored.
#[derive(Clone, Copy, Debug, PartialEq, Eq, Structural)]
pub enum Decision {
    /// Wait for `wait_ms` milliseconds, then go on with the next request.
    Continue { wait_ms: u64 },
    /// The page was empty: the download is complete.
    Stop,
}

/// What storing a page did.
pub struct PageOutcome {
    /// The number of messages of the page that were not stored before.
    pub new_count: usize,
    /// The greatest identifier in the page, if the page held a message.
    pub last_id: Option<u64>,
    /// The merge that recorded the span of the page, if the page held a message.
    pub merge: Option<MergeOutcome>,
    /// What to do next.
    pub next: Decision,
}

/// The parameters of one download.
#[derive(Clone, Copy, Debug, PartialEq, Eq, Structural)]
pub struct Downloader {
    /// The channel to download.
    pub channel_id: u64,
    /// Only messages with a greater identifier are downloaded.
    pub after: u64,
    /// Only messages with a smaller identifier are downloaded.
    pub before: u64,
    /// The greatest number of messages in one page.
    pub fetch_limit: u32,
    /// The pause between two requests, in milliseconds.
    pub fetch_interval: u64,
}

/// The cursor that follows from the answer to the question which range covers
/// `after`: behind the covering range and anchored at its lower end, or at
/// `after` itself.
pub open spec fn cursor_for(found: Option<MessageRange>, after: u64) -> Cursor {
    match found {
        Some(r) => Cursor { position: r.last_id, anchor: r.after_id },
        None => Cursor { position: after, anchor: after },
    }
}

/// Whether `cursor` is where a download of `channel_id` that is to start after
/// `after` has to go on: behind a stored range that covers `after`, or at
/// `after` where no stored range covers it.
pub open spec fn is_resolved(
    s: Set<MessageRange>,
    channel_id: u64,
    after: u64,
    cursor: Cursor,
) -> bool {
    let covering = MessageRange {
        channel_id,
        after_id: cursor.anchor,
        last_id: cursor.position,
    };
    ||| s.contains(covering) && covering.covers(channel_id, after)
    ||| is_covering_answer(s, channel_id, after, None) && cursor == cursor_for(None, after)
}

/// The cursor of a download of `channel_id` that is to start after `after`.
pub open spec fn spec_resolve_cursor(s: Set<MessageRange>, channel_id: u64, after: u64) -> Cursor {
    cursor_for(spec_find_covering(s, channel_id, after), after)
}

/// The stored messages after each message of `page` has been offered in turn.
pub open spec fn spec_store_page<P>(
    m: Map<u64, ChannelMessage<P>>,
    page: Seq<ChannelMessage<P>>,
) -> Map<u64, ChannelMessage<P>>
    decreases page.len(),
{
    if page.len() == 0 {
        m
    } else {
        spec_insert_if_absent(spec_store_page(m, page.drop_last()), page.last())
    }
}

/// The greatest identifier in `page`, or zero for the empty page.
pub open spec fn max_id<P>(page: Seq<ChannelMessage<P>>) -> u64
    decreases page.len(),
{
    if page.len() == 0 {
        0
    } else if page.last().id > max_id(page.drop_last()) {
        page.last().id
    } else {
        max_id(page.drop_last())
    }
}

/// The greatest identifier in `page`, if the page holds a message.
pub open spec fn page_last_id<P>(page: Seq<ChannelMessage<P>>) -> Option<u64> {
    if page.len() == 0 {
        None
    } else {
        Some(max_id(page))
    }
}

/// The archive after a page that was requested at a cursor with the anchor
/// `anchor` has been stored: its messages are offered to the store, and the
/// span from the anchor to the greatest identifier of the page is merged into
/// the ranges. An empty page changes nothing.
pub open spec fn spec_persist_page<P>(
    a: ArchiveView<P>,
    channel_id: u64,
    anchor: u64,
    page: Seq<ChannelMessage<P>>,
) -> ArchiveView<P> {
    ArchiveView {
        messages: spec_store_page(a.messages, page),
        ranges: match page_last_id(page) {
            Some(last) => spec_merge_insert(a.ranges, channel_id, anchor, last),
            None => a.ranges,
        },
    }
}

/// What to do after `page` has been stored.
pub open spec fn spec_decide<P>(page: Seq<ChannelMessage<P>>, fetch_interval: u64) -> Decision {
    if page.len() == 0 {
        Decision::Stop
    } else {
        Decision::Continue { wait_ms: fetch_interval }
    }
}

impl Downloader {
    /// The parameters of a download of the messages of `channel_id` whose
    /// identifiers lie strictly between `after` and `before`.
    pub fn new(
        channel_id: u64,
        after: u64,
        before: u64,
        fetch_limit: u32,
        fetch_interval: u64,
    ) -> (d: Downloader)
        ensures
            d == (Downloader { channel_id, after, before, fetch_limit, fetch_interval }),
    {
        Downloader { channel_id, after, before, fetch_limit, fetch_interval }
    }

    /// Finds out where the next request has to start.
    ///
    /// Where a stored range covers `after`, the request starts at the upper
    /// end of that range and the fetched span extends that range. Otherwise
    /// the request starts at `after` and the fetched span begins there.
    pub fn resolve_cursor(&self, ranges: &RangeStore) -> (cursor: Cursor)
        ensures
            is_resolved(ranges@, self.channel_id, self.after, cursor),
            pairwise_disjoint(ranges@) ==> cursor == spec_resolve_cursor(
                ranges@,
                self.channel_id,
                self.after,
            ),
    {
        let found = ranges.find_covering(self.channel_id, self.after);
        match found {
            Some(range) => Cursor { position: range.last_id, anchor: range.after_id },
            None => Cursor { position: self.after, anchor: self.after },
        }
    }

    /// The request for the page that follows `cursor`.
    pub fn page_request(&self, cursor: Cursor) -> (request: PageRequest)
        ensures
            request == (PageRequest {
                channel_id: self.channel_id,
                after: Some(cursor.position),
                before: Some(self.before),
                limit: Some(self.fetch_limit),
            }),
    {
        PageRequest {
            channel_id: self.channel_id,
            after: Some(cursor.position),
            before: Some(self.before),
            limit: Some(self.fetch_limit),
        }
    }

    /// Stores the page that came back for the request at `cursor`, records the
    /// span it covers, and decides how to go on.
    ///
    /// Each message is stored unless its identifier is stored already. If the
    /// page holds a message, the span from the anchor of the cursor to the
    /// greatest identifier of the page is merged into the ranges of the
    /// channel, and the download goes on after the pause. If the page is
    /// empty nothing changes and the download stops.
    pub fn persist_page<P>(
        &self,
        archive: &mut Archive<P>,
        cursor: Cursor,
        page: Vec<ChannelMessage<P>>,
    ) -> (outcome: PageOutcome)
        ensures
            final(archive)@ == spec_persist_page(
                old(archive)@,
                self.channel_id,
                cursor.anchor,
                page@,
            ),
            outcome.last_id == page_last_id(page@),
            outcome.new_count == final(archive)@.messages.len() - old(archive)@.messages.len(),
            outcome.next == spec_decide(page@, self.fetch_interval),
            match outcome.merge {
                Some(merge) => outcome.last_id matches Some(last) && merge.range == (MessageRange {
                    channel_id: self.channel_id,
                    after_id: cursor.anchor,
                    last_id: effective_last(
                        old(archive)@.ranges,
                        self.channel_id,
                        cursor.anchor,
                        last,
                    ),
                }) && merge.absorbed@.to_set() == absorbed_ranges(
                    old(archive)@.ranges,
                    self.channel_id,
                    cursor.anchor,
                    last,
                ) && merge.absorbed@.no_duplicates(),
                None => page@.len() == 0,
            },
            keyed_by_id(old(archive)@.messages) ==> keyed_by_id(final(archive)@.messages),
    {
        let ghost items = page@;
        let ghost stored_before = archive.messages@;
        let page_len: usize = page.len();
        let mut new_count: usize = 0;
        let mut last_id: Option<u64> = None;
        proof {
            archive.messages.lemma_finite();
            assert(items.take(0) =~= Seq::<ChannelMessage<P>>::empty());
        }
        for message in iter: page
            invariant
                iter.seq() == items,
                items.len() == page_len,
                archive.ranges@ == old(archive).ranges@,
                archive.messages@ == spec_store_page(stored_before, items.take(iter.index() as int)),
                archive.messages@.dom().finite(),
                last_id == page_last_id(items.take(iter.index() as int)),
                new_count <= iter.index(),
                new_count == archive.messages@.len() - stored_before.len(),
                keyed_by_id(stored_before) ==> keyed_by_id(archive.messages@),
        {
            proof {
                let i = iter.index() as int;
                assert(i < items.len());
                assert(items.take(i + 1).drop_last() =~= items.take(i));
                assert(items.take(i + 1).last() == message);
                assert(max_id(items.take(i + 1)) == if message.id > max_id(items.take(i)) {
                    message.id
                } else {
                    max_id(items.take(i))
                });
            }
            let id: u64 = message.id;
            let newest: u64 = match last_id {
                Some(so_far) => if id > so_far {
                    id
                } else {
                    so_far
                },
                None => id,
            };
            last_id = Some(newest);
            if archive.messages.insert_if_absent(message) {
                new_count += 1;
            }
        }
        proof {
            assert(items.take(items.len() as int) =~= items);
        }
        match last_id {
            Some(last) => {
                let merge = archive.ranges.merge_insert(self.channel_id, cursor.anchor, last);
                PageOutcome {
                    new_count,
                    last_id,
                    merge: Some(merge),
                    next: Decision::Continue { wait_ms: self.fetch_interval },
                }
            },
            None => PageOutcome { new_count, last_id, merge: None, next: Decision::Stop },
        }
    }
}

/// Every message of `page` has an identifier above `position`, as the answer
/// to a request for what follows `position` has.
pub open spec fn follows<P>(page: Seq<ChannelMessage<P>>, position: u64) -> bool {
    forall|k: int| 0 <= k < page.len() ==> (#[trigger] page[k]).id > position
}

/// The greatest identifier of a page is the identifier of one of its
/// messages, and no message of the page has a greater one.
pub proof fn lemma_max_id<P>(page: Seq<ChannelMessage<P>>)
    requires
        page.len() > 0,
    ensures
        forall|k: int| 0 <= k < page.len() ==> (#[trigger] page[k]).id <= max_id(page),
        exists|k: int| 0 <= k < page.len() && (#[trigger] page[k]).id == max_id(page),
    decreases page.len(),
{
    let front = page.drop_last();
    if front.len() > 0 {
        lemma_max_id(front);
        let w = choose|k: int| 0 <= k < front.len() && (#[trigger] front[k]).id == max_id(front);
        assert(page[w] == front[w]);
        assert forall|k: int| 0 <= k < page.len() implies (#[trigger] page[k]).id <= max_id(
            page,
        ) by {
            if k < front.len() {
                assert(page[k] == front[k]);
            }
        }
    } else {
        assert(max_id(front) == 0);
    }
    if max_id(page) == page.last().id {
        assert(page[page.len() - 1].id == max_id(page));
    }
}

/// A round of a download leaves ranges that do not overlap as such, whatever
/// the window and the size of the page, as long as the page holds only
/// messages that follow the cursor.
pub proof fn lemma_round_keeps_ranges_apart<P>(
    s: Set<MessageRange>,
    channel_id: u64,
    after: u64,
    page: Seq<ChannelMessage<P>>,
)
    requires
        pairwise_disjoint(s),
        page.len() > 0,
        follows(page, spec_resolve_cursor(s, channel_id, after).position),
    ensures
        pairwise_disjoint(
            spec_merge_insert(
                s,
                channel_id,
                spec_resolve_cursor(s, channel_id, after).anchor,
                max_id(page),
            ),
        ),
{
    let cursor = spec_resolve_cursor(s, channel_id, after);
    let found = spec_find_covering(s, channel_id, after);
    lemma_max_id(page);
    assert(merge_keeps_apart(s, channel_id, cursor.anchor, max_id(page))) by {
        assert forall|r: MessageRange|
            s.contains(r) && r.channel_id == channel_id && r.after_id
                < cursor.anchor implies r.last_id <= cursor.anchor by {
            if found is Some {
                let r0 = found->0;
                assert(s.contains(r0) && s.contains(r));
            } else {
                assert(!r.covers(channel_id, after));
            }
        }
    }
    lemma_merge_preserves_disjoint(s, channel_id, cursor.anchor, max_id(page));
}

/// No stored range of `channel_id` ends at `after`.
pub open spec fn none_ends_at(s: Set<MessageRange>, channel_id: u64, after: u64) -> bool {
    forall|r: MessageRange| s.contains(r) && r.channel_id == channel_id ==> r.last_id != after
}

/// A round of a download leaves well-formed ranges well formed exactly when
/// no stored range of the channel ends where the download is to start: a
/// range that ends at `after` does not cover it, so the fetched span is
/// stored beside that range and not merged with it.
pub proof fn lemma_round_keeps_well_formed<P>(
    s: Set<MessageRange>,
    channel_id: u64,
    after: u64,
    page: Seq<ChannelMessage<P>>,
)
    requires
        well_formed(s),
        page.len() > 0,
        follows(page, spec_resolve_cursor(s, channel_id, after).position),
    ensures
        well_formed(
            spec_merge_insert(
                s,
                channel_id,
                spec_resolve_cursor(s, channel_id, after).anchor,
                max_id(page),
            ),
        ) <==> none_ends_at(s, channel_id, after),
{
    let cursor = spec_resolve_cursor(s, channel_id, after);
    let found = spec_find_covering(s, channel_id, after);
    lemma_max_id(page);
    lemma_merge_preserves_well_formed(s, channel_id, cursor.anchor, max_id(page));
    if none_ends_at(s, channel_id, after) {
        assert forall|r: MessageRange|
            s.contains(r) && r.channel_id == channel_id && r.after_id
                < cursor.anchor implies r.last_id < cursor.anchor by {
            if found is Some {
                let r0 = found->0;
                assert(s.contains(r0) && s.contains(r));
            } else {
                assert(!r.covers(channel_id, after));
            }
        }
    }
    if merge_admissible(s, channel_id, cursor.anchor, max_id(page)) {
        assert forall|r: MessageRange|
            s.contains(r) && r.channel_id == channel_id implies r.last_id != after by {
            if r.last_id == after {
                if found is Some {
                    let r0 = found->0;
                    assert(s.contains(r0) && s.contains(r));
                }
            }
        }
    }
}

} // verus!

use discord_exporter::api::{ChannelMessage, PageRequest};
use discord_exporter::downloader::{Archive, Cursor, Decision, Downloader};
use discord_exporter::ranges::MessageRange;

const CHANNEL: u64 = 7;

fn message(id: u64) -> ChannelMessage<String> {
    ChannelMessage { id, channel_id: CHANNEL, data: format!("message {id}") }
}

/// A remote channel: answers a request with the oldest messages in its window.
fn fetch(remote: &[u64], request: &PageRequest) -> Vec<ChannelMessage<String>> {
    let after = request.after.unwrap_or(0);
    let before = request.before.unwrap_or(u64::MAX);
    let limit = request.limit.unwrap_or(50) as usize;
    let mut ids: Vec<u64> = remote.iter().copied().filter(|id| after < *id && *id < before).collect();
    ids.sort();
    ids.truncate(limit);
    ids.into_iter().map(message).collect()
}

/// Runs a download to its end and returns the pages that were requested.
fn run(
    downloader: &Downloader,
    archive: &mut Archive<String>,
    remote: &[u64],
) -> Vec<(PageRequest, Vec<u64>, usize)> {
    let mut log = Vec::new();
    for _ in 0..1000 {
        let cursor = downloader.resolve_cursor(&archive.ranges);
        let request = downloader.page_request(cursor);
        let page = fetch(remote, &request);
        let ids: Vec<u64> = page.iter().map(|m| m.id).collect();
        let outcome = downloader.persist_page(archive, cursor, page);
        log.push((request, ids, outcome.new_count));
        match outcome.next {
            Decision::Stop => return log,
            Decision::Continue { wait_ms } => assert_eq!(wait_ms, downloader.fetch_interval),
        }
    }
    panic!("the download did not stop");
}

fn range(after_id: u64, last_id: u64) -> MessageRange {
    MessageRange { channel_id: CHANNEL, after_id, last_id }
}

#[test]
fn three_messages_in_pages_of_two() {
    let remote = [101, 150, 200];
    let downloader = Downloader::new(CHANNEL, 0, 1000, 2, 250);
    let mut archive = Archive::new();
    let log = run(&downloader, &mut archive, &remote);

    assert_eq!(log.len(), 3);
    assert_eq!(log[0].0.after, Some(0));
    assert_eq!(log[0].0.before, Some(1000));
    assert_eq!(log[0].0.limit, Some(2));
    assert_eq!(log[0].1, vec![101, 150]);
    assert_eq!(log[1].0.after, Some(150));
    assert_eq!(log[1].1, vec![200]);
    assert_eq!(log[2].0.after, Some(200));
    assert!(log[2].1.is_empty());

    assert_eq!(archive.messages.len(), 3);
    for id in remote {
        assert_eq!(archive.messages.get(id).map(|m| m.data.clone()), Some(format!("message {id}")));
    }
    assert_eq!(archive.ranges.len(), 1);
    assert_eq!(archive.ranges.ranges(), vec![range(0, 200)]);
}

#[test]
fn first_iteration_records_the_span_of_its_page() {
    let downloader = Downloader::new(CHANNEL, 0, 1000, 2, 250);
    let mut archive = Archive::new();
    let cursor = downloader.resolve_cursor(&archive.ranges);
    assert_eq!(cursor, Cursor { position: 0, anchor: 0 });
    let outcome = downloader.persist_page(&mut archive, cursor, vec![message(101), message(150)]);
    assert_eq!(outcome.new_count, 2);
    assert_eq!(outcome.last_id, Some(150));
    assert_eq!(outcome.next, Decision::Continue { wait_ms: 250 });
    let merge = outcome.merge.expect("a page with messages is merged");
    assert_eq!(merge.range, range(0, 150));
    assert!(merge.absorbed.is_empty());
    assert_eq!(archive.ranges.ranges(), vec![range(0, 150)]);
}

#[test]
fn cursor_skips_a_stored_range() {
    let mut archive: Archive<String> = Archive::new();
    archive.ranges.merge_insert(CHANNEL, 0, 200);
    let downloader = Downloader::new(CHANNEL, 0, 1000, 100, 0);
    let cursor = downloader.resolve_cursor(&archive.ranges);
    assert_eq!(cursor.position, 200);
    assert_eq!(cursor.anchor, 0);
    assert_eq!(downloader.page_request(cursor).after, Some(200));
}

fn snapshot(archive: &Archive<String>) -> (Vec<(u64, u64, u64)>, Vec<(u64, String)>) {
    let mut ranges: Vec<(u64, u64, u64)> =
        archive.ranges.ranges().iter().map(|r| (r.channel_id, r.after_id, r.last_id)).collect();
    ranges.sort();
    let mut messages = Vec::new();
    for id in 0..2000 {
        if let Some(m) = archive.messages.get(id) {
            messages.push((m.id, m.data.clone()));
        }
    }
    assert_eq!(messages.len(), archive.messages.len());
    (ranges, messages)
}

#[test]
fn page_size_does_not_change_the_result() {
    let remote = [101, 150, 200];
    let mut results = Vec::new();
    for limit in [1, 2, 3, 100] {
        let downloader = Downloader::new(CHANNEL, 0, 1000, limit, 0);
        let mut archive = Archive::new();
        run(&downloader, &mut archive, &remote);
        results.push(snapshot(&archive));
    }
    assert_eq!(results[0].0, vec![(CHANNEL, 0, 200)]);
    assert_eq!(results[0].1.iter().map(|m| m.0).collect::<Vec<u64>>(), vec![101, 150, 200]);
    for result in &results {
        assert_eq!(result, &results[0]);
    }
}

#[test]
fn page_size_does_not_change_the_result_with_ranges_ahead() {
    let remote: Vec<u64> = (1..60).map(|k| k * 10).collect();
    let mut results = Vec::new();
    for limit in [1, 2, 3, 5, 7, 100] {
        // An earlier run stored the spans (150, 300] and (420, 450] of the channel.
        let mut archive = Archive::new();
        run(&Downloader::new(CHANNEL, 150, 301, 4, 0), &mut archive, &remote);
        run(&Downloader::new(CHANNEL, 420, 451, 4, 0), &mut archive, &remote);
        assert_eq!(archive.ranges.len(), 2);
        run(&Downloader::new(CHANNEL, 35, 505, limit, 0), &mut archive, &remote);
        results.push(snapshot(&archive));
    }
    assert_eq!(results[0].0, vec![(CHANNEL, 35, 500)]);
    assert_eq!(results[0].1.iter().map(|m| m.0).collect::<Vec<u64>>(), (4..=50).map(|k| k * 10).collect::<Vec<u64>>());
    for result in &results {
        assert_eq!(result, &results[0]);
    }
}

#[test]
fn running_again_changes_nothing() {
    let remote = [101, 150, 200];
    let downloader = Downloader::new(CHANNEL, 0, 1000, 2, 0);
    let mut archive = Archive::new();
    run(&downloader, &mut archive, &remote);
    let before = snapshot(&archive);
    let log = run(&downloader, &mut archive, &remote);
    assert_eq!(log.len(), 1);
    assert_eq!(log[0].0.after, Some(200));
    assert!(log[0].1.is_empty());
    assert_eq!(log[0].2, 0);
    assert_eq!(snapshot(&archive), before);
}

#[test]
fn an_empty_page_stops_the_download() {
    let downloader = Downloader::new(CHANNEL, 0, 1000, 2, 250);
    let mut archive: Archive<String> = Archive::new();
    let cursor = downloader.resolve_cursor(&archive.ranges);
    let outcome = downloader.persist_page(&mut archive, cursor, Vec::new());
    assert_eq!(outcome.next, Decision::Stop);
    assert_eq!(outcome.new_count, 0);
    assert_eq!(outcome.last_id, None);
    assert!(outcome.merge.is_none());
    assert_eq!(archive.ranges.len(), 0);
    assert_eq!(archive.messages.len(), 0);
}

#[test]
fn a_page_that_was_stored_before_adds_no_message() {
    let downloader = Downloader::new(CHANNEL, 0, 1000, 2, 250);
    let mut archive = Archive::new();
    let cursor = Cursor { position: 0, anchor: 0 };
    downloader.persist_page(&mut archive, cursor, vec![message(101), message(150)]);
    let again = downloader.persist_page(&mut archive, cursor, vec![message(101), message(150), message(160)]);
    assert_eq!(again.new_count, 1);
    assert_eq!(again.last_id, Some(160));
    assert_eq!(archive.messages.len(), 3);
    assert_eq!(archive.ranges.ranges(), vec![range(0, 160)]);
}

#[test]
fn the_greatest_identifier_of_a_page_ends_the_span() {
    let downloader = Downloader::new(CHANNEL, 0, 1000, 10, 0);
    let mut archive = Archive::new();
    let cursor = Cursor { position: 0, anchor: 0 };
    let outcome = downloader.persist_page(&mut archive, cursor, vec![message(150), message(101), message(120)]);
    assert_eq!(outcome.last_id, Some(150));
    assert_eq!(archive.ranges.ranges(), vec![range(0, 150)]);
}

#[test]
fn the_span_is_anchored_at_the_covering_range() {
    let remote = [101, 150, 200, 250];
    let mut archive = Archive::new();
    run(&Downloader::new(CHANNEL, 100, 160, 10, 0), &mut archive, &remote);
    assert_eq!(archive.ranges.ranges(), vec![range(100, 150)]);
    // A later run that starts inside the stored range goes on behind it.
    let later = Downloader::new(CHANNEL, 120, 1000, 10, 0);
    let cursor = later.resolve_cursor(&archive.ranges);
    assert_eq!(cursor, Cursor { position: 150, anchor: 100 });
    let log = run(&later, &mut archive, &remote);
    assert_eq!(log[0].1, vec![200, 250]);
    assert_eq!(archive.ranges.ranges(), vec![range(100, 250)]);
    assert_eq!(archive.messages.len(), 4);
}

#[test]
fn the_upper_bound_is_left_out_of_the_window() {
    let remote = [101, 150, 200];
    let mut archive = Archive::new();
    let log = run(&Downloader::new(CHANNEL, 101, 200, 10, 0), &mut archive, &remote);
    assert_eq!(log[0].1, vec![150]);
    assert_eq!(archive.ranges.ranges(), vec![range(101, 150)]);
    assert_eq!(archive.messages.len(), 1);
}

/// Runs a download whose rounds ask for pages of the given sizes in turn.
fn run_with_sizes(archive: &mut Archive<String>, remote: &[u64], after: u64, before: u64, sizes: &[u32]) {
    for size in sizes.iter().cycle().take(1000) {
        let downloader = Downloader::new(CHANNEL, after, before, *size, 0);
        let cursor = downloader.resolve_cursor(&archive.ranges);
        let page = fetch(remote, &downloader.page_request(cursor));
        if downloader.persist_page(archive, cursor, page).next == Decision::Stop {
            return;
        }
    }
    panic!("the download did not stop");
}

#[test]
fn mixed_page_sizes_do_not_change_the_result() {
    let remote: Vec<u64> = (1..60).map(|k| k * 10).collect();
    let mut results = Vec::new();
    for sizes in [vec![1], vec![3, 1, 4, 1, 5], vec![50, 1], vec![2, 7], vec![100]] {
        let mut archive = Archive::new();
        run(&Downloader::new(CHANNEL, 150, 301, 4, 0), &mut archive, &remote);
        run(&Downloader::new(CHANNEL, 420, 451, 4, 0), &mut archive, &remote);
        run_with_sizes(&mut archive, &remote, 35, 505, &sizes);
        results.push(snapshot(&archive));
    }
    assert_eq!(results[0].0, vec![(CHANNEL, 35, 500)]);
    for result in &results {
        assert_eq!(result, &results[0]);
    }
}

#[test]
fn a_download_that_starts_at_the_end_of_a_range_stores_a_range_beside_it() {
    let remote = [15, 20, 25, 30];
    let mut archive = Archive::new();
    run(&Downloader::new(CHANNEL, 10, 21, 10, 0), &mut archive, &remote);
    assert_eq!(archive.ranges.ranges(), vec![range(10, 20)]);
    // The range (10, 20] does not cover 20: the download after 20 starts a
    // range of its own.
    let downloader = Downloader::new(CHANNEL, 20, 1000, 10, 0);
    assert_eq!(downloader.resolve_cursor(&archive.ranges), Cursor { position: 20, anchor: 20 });
    run(&downloader, &mut archive, &remote);
    let mut rows = archive.ranges.ranges();
    rows.sort_by_key(|r| r.after_id);
    assert_eq!(rows, vec![range(10, 20), range(20, 30)]);
    assert_eq!(archive.messages.len(), 4);
}

#[test]
fn storing_a_page_twice_stores_it_once() {
    let downloader = Downloader::new(CHANNEL, 0, 1000, 10, 0);
    let mut archive = Archive::new();
    let cursor = Cursor { position: 0, anchor: 0 };
    let first = downloader.persist_page(&mut archive, cursor, vec![message(101), message(150)]);
    let once = snapshot(&archive);
    let second = downloader.persist_page(&mut archive, cursor, vec![message(101), message(150)]);
    assert_eq!((first.new_count, second.new_count), (2, 0));
    assert_eq!(snapshot(&archive), once);
}

use pr_sync::cache::CacheSnapshot;
use pr_sync::delta::{needs_refresh, select_updates};
use pr_sync::frontier::{collect_listing, should_stop, PageCollector};
use pr_sync::model::{PrState, RemotePullRequest};

const DAY: i64 = 86_400_000_000;
// 2024-01-01T00:00:00Z in microseconds since the epoch.
const JAN_1_2024: i64 = 1_704_067_200_000_000;

fn pr(number: u64, updated_at: i64) -> RemotePullRequest {
    RemotePullRequest {
        number,
        author: Some("alice".to_string()),
        state: Some(PrState::Open),
        head: "alice:feature".to_string(),
        base: "org:main".to_string(),
        title: format!("change {}", number),
        body: None,
        created_at: Some(updated_at - DAY),
        updated_at,
    }
}

fn numbers(prs: &[RemotePullRequest]) -> Vec<u64> {
    prs.iter().map(|p| p.number).collect()
}

#[test]
fn scenario_frontier_stop_and_work_list() {
    let cache = CacheSnapshot::from_rows(&vec![(1, JAN_1_2024)]);
    let page0 = vec![pr(3, JAN_1_2024 + 60 * DAY), pr(2, JAN_1_2024 + 31 * DAY)];
    let page1 = vec![pr(1, JAN_1_2024), pr(0, JAN_1_2024 - 31 * DAY)];
    let page2 = vec![pr(9, JAN_1_2024 - 90 * DAY)];
    let (collected, pages) = collect_listing(&cache, vec![page0, page1, page2]);
    assert_eq!(pages, 2);
    assert_eq!(numbers(&collected), vec![3, 2, 1, 0]);
    let work = select_updates(&cache, collected);
    assert_eq!(numbers(&work), vec![0, 2, 3]);
}

#[test]
fn collector_steps_page_by_page() {
    let cache = CacheSnapshot::from_rows(&vec![(1, JAN_1_2024)]);
    let mut c = PageCollector::new(&cache);
    assert_eq!(c.frontier, Some(JAN_1_2024));
    assert_eq!(c.next_page(), 0);
    assert!(!c.accept_page(vec![pr(3, JAN_1_2024 + DAY)]));
    assert_eq!(c.next_page(), 1);
    assert!(c.accept_page(vec![pr(1, JAN_1_2024)]));
    assert!(c.done);
    assert_eq!(numbers(&c.collected), vec![3, 1]);
}

#[test]
fn empty_cache_pages_until_remote_is_exhausted() {
    let cache = CacheSnapshot::new();
    assert_eq!(cache.frontier(), None);
    let listing = vec![vec![pr(2, 20)], vec![pr(1, 10)], vec![], vec![pr(0, 5)]];
    let (collected, pages) = collect_listing(&cache, listing);
    assert_eq!(pages, 3);
    assert_eq!(numbers(&collected), vec![2, 1]);
}

#[test]
fn listing_without_a_stop_is_taken_whole() {
    let cache = CacheSnapshot::from_rows(&vec![(7, 5)]);
    let (collected, pages) = collect_listing(&cache, vec![vec![pr(8, 30)], vec![pr(9, 20)]]);
    assert_eq!(pages, 2);
    assert_eq!(numbers(&collected), vec![8, 9]);
}

#[test]
fn stop_rule_compares_oldest_item_of_page() {
    assert!(should_stop(&vec![], None));
    assert!(should_stop(&vec![], Some(10)));
    assert!(!should_stop(&vec![pr(1, 5)], None));
    assert!(should_stop(&vec![pr(2, 50), pr(1, 10)], Some(10)));
    assert!(!should_stop(&vec![pr(2, 50), pr(1, 11)], Some(10)));
}

#[test]
fn frontier_is_largest_cached_time() {
    let cache = CacheSnapshot::from_rows(&vec![(1, 30), (2, 70), (3, 50)]);
    assert_eq!(cache.frontier(), Some(70));
    assert_eq!(cache.get(2), Some(70));
    assert_eq!(cache.get(4), None);
}

#[test]
fn later_row_replaces_earlier_one() {
    let mut cache = CacheSnapshot::from_rows(&vec![(1, 30), (1, 10)]);
    assert_eq!(cache.get(1), Some(10));
    assert_eq!(cache.frontier(), Some(10));
    cache.upsert(1, 40);
    cache.upsert(2, 5);
    assert_eq!(cache.get(1), Some(40));
    assert_eq!(cache.get(2), Some(5));
    assert_eq!(cache.frontier(), Some(40));
}

#[test]
fn refresh_needed_only_when_uncached_or_strictly_newer() {
    let cache = CacheSnapshot::from_rows(&vec![(1, 100)]);
    assert!(needs_refresh(&cache, &pr(2, 1)));
    assert!(needs_refresh(&cache, &pr(1, 101)));
    assert!(!needs_refresh(&cache, &pr(1, 100)));
    assert!(!needs_refresh(&cache, &pr(1, 99)));
}

#[test]
fn selection_sorts_oldest_first_whatever_the_input_order() {
    let cache = CacheSnapshot::from_rows(&vec![(5, 50)]);
    let a = select_updates(&cache, vec![pr(1, 30), pr(5, 50), pr(2, 10), pr(3, 20)]);
    let b = select_updates(&cache, vec![pr(3, 20), pr(2, 10), pr(1, 30), pr(5, 50)]);
    assert_eq!(numbers(&a), vec![2, 3, 1]);
    assert_eq!(numbers(&b), vec![2, 3, 1]);
}

#[test]
fn selection_of_empty_listing_is_empty() {
    let cache = CacheSnapshot::new();
    assert!(select_updates(&cache, vec![]).is_empty());
}

#[test]
fn duplicate_number_keeps_copy_from_freshest_page() {
    let cache = CacheSnapshot::new();
    let w = select_updates(&cache, vec![pr(4, 40), pr(5, 30), pr(4, 20)]);
    assert_eq!(w.iter().map(|p| (p.number, p.updated_at)).collect::<Vec<_>>(), vec![(5, 30), (4, 40)]);
}

#[test]
fn duplicate_number_with_equal_times_is_written_once() {
    let cache = CacheSnapshot::new();
    let mut stale = pr(4, 20);
    stale.title = "stale".to_string();
    let w = select_updates(&cache, vec![pr(4, 20), stale]);
    assert_eq!(w.len(), 1);
    assert_eq!(w[0].title, "change 4");
}

#[test]
fn duplicate_number_first_copy_decides_even_if_cached() {
    let cache = CacheSnapshot::from_rows(&vec![(4, 30)]);
    assert!(select_updates(&cache, vec![pr(4, 30), pr(4, 50)]).is_empty());
}

#[test]
fn rerun_after_full_pass_selects_nothing() {
    let mut cache = CacheSnapshot::from_rows(&vec![(1, 10)]);
    let listing = vec![pr(3, 30), pr(2, 20), pr(1, 10)];
    let work = select_updates(&cache, listing.clone());
    assert_eq!(numbers(&work), vec![2, 3]);
    for p in &work {
        cache.upsert(p.number, p.updated_at);
    }
    assert!(select_updates(&cache, listing).is_empty());
}

#[test]
fn rerun_after_interruption_resumes_with_remaining_items() {
    let mut cache = CacheSnapshot::new();
    let listing = vec![pr(4, 40), pr(3, 30), pr(2, 20), pr(1, 10)];
    let work = select_updates(&cache, listing.clone());
    assert_eq!(numbers(&work), vec![1, 2, 3, 4]);
    for p in &work[..2] {
        cache.upsert(p.number, p.updated_at);
    }
    let rerun = select_updates(&cache, listing);
    assert_eq!(numbers(&rerun), vec![3, 4]);
}

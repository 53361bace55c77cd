use pr_sync::driver::{ItemAction, ItemEvent, ItemFailure, ItemPhase, ItemSync, PersistPolicy};
use pr_sync::model::{
    pull_request_record, record_id, review_record, PrState, PullRequestId, PullRequestRecord, RemotePullRequest,
    RemoteReview, ReportFilter, ReviewRecord, ReviewState,
};
use pr_sync::report::{count_distinct, summary_approved_pr, summary_closed_pr, Fact};

fn closed(repo: &str, number: u64, author: &str, base: &str) -> PullRequestRecord {
    PullRequestRecord {
        repo: repo.to_string(),
        number,
        author: author.to_string(),
        state: PrState::Closed,
        head: format!("{}:topic", author),
        base: base.to_string(),
        title: String::new(),
        body: String::new(),
        created_at: None,
        updated_at: 0,
    }
}

fn review(id: u64, repo: &str, pr_number: u64, author: &str, state: ReviewState) -> ReviewRecord {
    ReviewRecord {
        id,
        repo: repo.to_string(),
        pr_number,
        author: author.to_string(),
        state,
        submitted_at: Some(1),
    }
}

fn no_filter() -> ReportFilter {
    ReportFilter { author: None, repo: None, base: None }
}

fn close_rows(v: &[pr_sync::model::SummaryClosePr]) -> Vec<(String, String, u32)> {
    v.iter().map(|r| (r.repo.clone(), r.author.clone(), r.count)).collect()
}

fn approve_rows(v: &[pr_sync::model::SummaryApprovePr]) -> Vec<(String, String, u32)> {
    v.iter().map(|r| (r.repo.clone(), r.approver.clone(), r.count)).collect()
}

fn s(x: &str) -> String {
    x.to_string()
}

#[test]
fn record_fills_absent_fields() {
    let remote = RemotePullRequest {
        number: 12,
        author: None,
        state: None,
        head: s("bob:fix"),
        base: s("org:main"),
        title: s("Fix it"),
        body: None,
        created_at: Some(5),
        updated_at: 9,
    };
    let r = pull_request_record(&s("repo-a"), &remote);
    assert_eq!(r.repo, "repo-a");
    assert_eq!(r.number, 12);
    assert_eq!(r.author, "unknown");
    assert_eq!(r.state, PrState::Unknown);
    assert_eq!(r.body, "");
    assert_eq!(r.head, "bob:fix");
    assert_eq!(r.title, "Fix it");
    assert_eq!(r.created_at, Some(5));
    assert_eq!(r.updated_at, 9);
    let id = record_id(&r);
    assert_eq!(id.repo, "repo-a");
    assert_eq!(id.number, 12);
}

#[test]
fn record_keeps_present_fields() {
    let remote = RemotePullRequest {
        number: 3,
        author: Some(s("carol")),
        state: Some(PrState::Closed),
        head: s("carol:x"),
        base: s("org:dev"),
        title: s("T"),
        body: Some(s("details")),
        created_at: None,
        updated_at: 4,
    };
    let r = pull_request_record(&s("r"), &remote);
    assert_eq!(r.author, "carol");
    assert_eq!(r.state, PrState::Closed);
    assert_eq!(r.body, "details");
    assert_eq!(r.base, "org:dev");
}

#[test]
fn review_record_links_to_its_pull_request() {
    let id = PullRequestId { repo: s("repo-a"), number: 7 };
    let rv = RemoteReview { id: 900, author: None, state: None, submitted_at: None };
    let r = review_record(&id, &rv);
    assert_eq!(r.id, 900);
    assert_eq!(r.repo, "repo-a");
    assert_eq!(r.pr_number, 7);
    assert_eq!(r.author, "unknown");
    assert_eq!(r.state, ReviewState::Unknown);
    assert_eq!(r.submitted_at, None);
    let rv = RemoteReview { id: 901, author: Some(s("dan")), state: Some(ReviewState::Approved), submitted_at: Some(3) };
    let r = review_record(&id, &rv);
    assert_eq!(r.author, "dan");
    assert_eq!(r.state, ReviewState::Approved);
    assert_eq!(r.submitted_at, Some(3));
}

#[test]
fn item_with_reviews_runs_to_commit() {
    let (mut item, first) = ItemSync::new(PersistPolicy::Strict);
    assert_eq!(first, ItemAction::FetchReviews);
    assert_eq!(item.step(ItemEvent::ReviewsFetched { count: 2, truncated: false }), ItemAction::WritePullRequest);
    assert_eq!(item.step(ItemEvent::PullRequestWritten { ok: true }), ItemAction::WriteReview(0));
    assert_eq!(item.step(ItemEvent::ReviewWritten { ok: true }), ItemAction::WriteReview(1));
    assert_eq!(item.step(ItemEvent::ReviewWritten { ok: true }), ItemAction::Commit);
    assert!(!item.is_finished());
    assert_eq!(item.step(ItemEvent::Committed { ok: true }), ItemAction::Finish);
    assert_eq!(item.phase, ItemPhase::Done);
    assert!(item.is_finished());
}

#[test]
fn item_without_reviews_commits_after_pull_request() {
    let (mut item, _) = ItemSync::new(PersistPolicy::Strict);
    item.step(ItemEvent::ReviewsFetched { count: 0, truncated: false });
    assert_eq!(item.step(ItemEvent::PullRequestWritten { ok: true }), ItemAction::Commit);
}

#[test]
fn truncated_reviews_abort_under_either_policy() {
    for policy in [PersistPolicy::Strict, PersistPolicy::Lenient] {
        let (mut item, _) = ItemSync::new(policy);
        assert_eq!(
            item.step(ItemEvent::ReviewsFetched { count: 100, truncated: true }),
            ItemAction::Abort(ItemFailure::ReviewsTruncated)
        );
        assert_eq!(item.phase, ItemPhase::Failed);
    }
}

#[test]
fn failed_writes_follow_the_policy() {
    let (mut strict, _) = ItemSync::new(PersistPolicy::Strict);
    strict.step(ItemEvent::ReviewsFetched { count: 1, truncated: false });
    assert_eq!(strict.step(ItemEvent::PullRequestWritten { ok: false }), ItemAction::Abort(ItemFailure::PullRequestWrite));

    let (mut lenient, _) = ItemSync::new(PersistPolicy::Lenient);
    lenient.step(ItemEvent::ReviewsFetched { count: 1, truncated: false });
    assert_eq!(lenient.step(ItemEvent::PullRequestWritten { ok: false }), ItemAction::Skip);
    assert_eq!(lenient.phase, ItemPhase::Skipped);

    let (mut strict, _) = ItemSync::new(PersistPolicy::Strict);
    strict.step(ItemEvent::ReviewsFetched { count: 2, truncated: false });
    strict.step(ItemEvent::PullRequestWritten { ok: true });
    assert_eq!(strict.step(ItemEvent::ReviewWritten { ok: false }), ItemAction::Abort(ItemFailure::ReviewWrite));

    let (mut lenient, _) = ItemSync::new(PersistPolicy::Lenient);
    lenient.step(ItemEvent::ReviewsFetched { count: 2, truncated: false });
    lenient.step(ItemEvent::PullRequestWritten { ok: true });
    assert_eq!(lenient.step(ItemEvent::ReviewWritten { ok: false }), ItemAction::WriteReview(1));
    assert_eq!(lenient.step(ItemEvent::ReviewWritten { ok: true }), ItemAction::Commit);
    assert_eq!(lenient.step(ItemEvent::Committed { ok: false }), ItemAction::Abort(ItemFailure::Commit));
}

#[test]
fn unexpected_event_fails_the_item() {
    let (mut item, _) = ItemSync::new(PersistPolicy::Lenient);
    assert_eq!(item.step(ItemEvent::Committed { ok: true }), ItemAction::Abort(ItemFailure::UnexpectedEvent));
    assert_eq!(item.step(ItemEvent::Committed { ok: true }), ItemAction::Finish);
}

#[test]
fn closed_report_groups_by_repository_and_author() {
    let mut prs = vec![
        closed("repo-a", 1, "alice", "main"),
        closed("repo-b", 2, "bob", "main"),
        closed("repo-a", 3, "bob", "main"),
        closed("repo-a", 4, "bob", "dev"),
        closed("repo-b", 5, "bob", "main"),
    ];
    let mut open = closed("repo-a", 6, "alice", "main");
    open.state = PrState::Open;
    prs.push(open);
    let rows = summary_closed_pr(&prs, &no_filter());
    assert_eq!(
        close_rows(&rows),
        vec![(s("repo-a"), s("bob"), 2), (s("repo-a"), s("alice"), 1), (s("repo-b"), s("bob"), 2)]
    );
    let only_main = ReportFilter { author: None, repo: None, base: Some(s("main")) };
    assert_eq!(
        close_rows(&summary_closed_pr(&prs, &only_main)),
        vec![(s("repo-a"), s("alice"), 1), (s("repo-a"), s("bob"), 1), (s("repo-b"), s("bob"), 2)]
    );
    let alice = ReportFilter { author: Some(s("alice")), repo: None, base: None };
    assert_eq!(close_rows(&summary_closed_pr(&prs, &alice)), vec![(s("repo-a"), s("alice"), 1)]);
    let repo_b = ReportFilter { author: None, repo: Some(s("repo-b")), base: None };
    assert_eq!(close_rows(&summary_closed_pr(&prs, &repo_b)), vec![(s("repo-b"), s("bob"), 2)]);
}

#[test]
fn closed_report_orders_repositories_ascending_under_any_filter() {
    let prs = vec![
        closed("repo-b", 1, "bob", "main"),
        closed("repo-b", 2, "alice", "main"),
        closed("repo-a", 3, "alice", "main"),
        closed("repo-a", 4, "bob", "main"),
        closed("Repo-c", 5, "bob", "main"),
    ];
    assert_eq!(
        close_rows(&summary_closed_pr(&prs, &no_filter())),
        vec![
            (s("Repo-c"), s("bob"), 1),
            (s("repo-a"), s("alice"), 1),
            (s("repo-a"), s("bob"), 1),
            (s("repo-b"), s("bob"), 1),
            (s("repo-b"), s("alice"), 1),
        ]
    );
    let bob = ReportFilter { author: Some(s("bob")), repo: None, base: None };
    assert_eq!(
        close_rows(&summary_closed_pr(&prs, &bob)),
        vec![(s("Repo-c"), s("bob"), 1), (s("repo-a"), s("bob"), 1), (s("repo-b"), s("bob"), 1)]
    );
}

#[test]
fn reports_of_empty_store_are_empty() {
    assert!(summary_closed_pr(&vec![], &no_filter()).is_empty());
    assert!(summary_approved_pr(&vec![], &vec![], &no_filter()).is_empty());
}

#[test]
fn repeated_approval_counts_once() {
    let prs = vec![closed("repo-a", 1, "alice", "main"), closed("repo-a", 2, "alice", "dev")];
    let reviews = vec![
        review(10, "repo-a", 1, "rita", ReviewState::Approved),
        review(11, "repo-a", 1, "rita", ReviewState::Approved),
        review(12, "repo-a", 2, "rita", ReviewState::Approved),
        review(13, "repo-a", 2, "sam", ReviewState::Commented),
        review(14, "repo-a", 1, "sam", ReviewState::Approved),
    ];
    assert_eq!(
        approve_rows(&summary_approved_pr(&prs, &reviews, &no_filter())),
        vec![(s("repo-a"), s("rita"), 2), (s("repo-a"), s("sam"), 1)]
    );
    let on_dev = ReportFilter { author: None, repo: None, base: Some(s("dev")) };
    assert_eq!(
        approve_rows(&summary_approved_pr(&prs, &reviews, &on_dev)),
        vec![(s("repo-a"), s("rita"), 1)]
    );
    let sam = ReportFilter { author: Some(s("sam")), repo: None, base: None };
    assert_eq!(approve_rows(&summary_approved_pr(&prs, &reviews, &sam)), vec![(s("repo-a"), s("sam"), 1)]);
}

#[test]
fn distinct_counting_ignores_repeated_facts() {
    let f = |repo: &str, name: &str, item: u64| Fact { repo: s(repo), name: s(name), item };
    let rows = count_distinct(&vec![f("r", "x", 1), f("r", "x", 1), f("r", "y", 1), f("r", "y", 2), f("q", "x", 1)]);
    let got: Vec<(String, String, u32)> = rows.iter().map(|g| (g.repo.clone(), g.name.clone(), g.count)).collect();
    assert_eq!(got, vec![(s("q"), s("x"), 1), (s("r"), s("y"), 2), (s("r"), s("x"), 1)]);
}

use vstd::prelude::*;

verus! {

/// A point in time, in microseconds since the Unix epoch (UTC).
pub type Timestamp = i64;

/// Lifecycle state of a pull request.
#[derive(Debug, Clone, Copy, PartialEq, Eq, Structural)]
pub enum PrState {
    Open,
    Closed,
    Unknown,
}

/// State of a submitted review.
#[derive(Debug, Clone, Copy, PartialEq, Eq, Structural)]
pub enum ReviewState {
    Approved,
    ChangesRequested,
    Commented,
    Dismissed,
    Pending,
    Unknown,
}

/// A pull request as the remote listing reports it.
#[derive(Debug, Clone)]
pub struct RemotePullRequest {
    pub number: u64,
    pub author: Option<String>,
    pub state: Option<PrState>,
    pub head: String,
    pub base: String,
    pub title: String,
    pub body: Option<String>,
    pub created_at: Option<Timestamp>,
    pub updated_at: Timestamp,
}

/// A review as the remote review listing reports it.
#[derive(Debug, Clone)]
pub struct RemoteReview {
    pub id: u64,
    pub author: Option<String>,
    pub state: Option<ReviewState>,
    pub submitted_at: Option<Timestamp>,
}

/// The key of a stored pull request: repository and number.
#[derive(Debug, Clone)]
pub struct PullRequestId {
    pub repo: String,
    pub number: u64,
}

/// A stored pull request; a write with the same key replaces it whole.
#[derive(Debug, Clone)]
pub struct PullRequestRecord {
    pub repo: String,
    pub number: u64,
    pub author: String,
    pub state: PrState,
    pub head: String,
    pub base: String,
    pub title: String,
    pub body: String,
    pub created_at: Option<Timestamp>,
    pub updated_at: Timestamp,
}

/// A stored review, keyed by its id, linked to its pull request.
#[derive(Debug, Clone)]
pub struct ReviewRecord {
    pub id: u64,
    pub repo: String,
    pub pr_number: u64,
    pub author: String,
    pub state: ReviewState,
    pub submitted_at: Option<Timestamp>,
}

/// Optional filters of a report: a present filter asks for an exact match.
#[derive(Debug, Clone)]
pub struct ReportFilter {
    pub author: Option<String>,
    pub repo: Option<String>,
    pub base: Option<String>,
}

/// One row of the closed pull request report.
#[derive(Debug, Clone)]
pub struct SummaryClosePr {
    pub repo: String,
    pub author: String,
    pub count: u32,
}

/// One row of the approval report.
#[derive(Debug, Clone)]
pub struct SummaryApprovePr {
    pub repo: String,
    pub approver: String,
    pub count: u32,
}

/// The name stored for an absent author.
pub open spec fn unknown_name() -> Seq<char> {
    seq!['u', 'n', 'k', 'n', 'o', 'w', 'n']
}

/// The author name stored for an optional remote author.
pub open spec fn author_or_unknown(a: Option<String>) -> Seq<char> {
    match a {
        Some(s) => s@,
        None => unknown_name(),
    }
}

/// The record that an upsert of remote pull request `pr` into `repo` writes.
pub open spec fn pr_record_of(repo: Seq<char>, pr: RemotePullRequest, r: PullRequestRecord) -> bool {
    &&& r.repo@ == repo
    &&& r.number == pr.number
    &&& r.author@ == author_or_unknown(pr.author)
    &&& r.state == (match pr.state {
        Some(s) => s,
        None => PrState::Unknown,
    })
    &&& r.head@ == pr.head@
    &&& r.base@ == pr.base@
    &&& r.title@ == pr.title@
    &&& r.body@ == (match pr.body {
        Some(b) => b@,
        None => Seq::<char>::empty(),
    })
    &&& r.created_at == pr.created_at
    &&& r.updated_at == pr.updated_at
}

/// The record that an upsert of remote review `rv` under pull request `id` writes.
pub open spec fn review_record_of(id: PullRequestId, rv: RemoteReview, r: ReviewRecord) -> bool {
    &&& r.id == rv.id
    &&& r.repo@ == id.repo@
    &&& r.pr_number == id.number
    &&& r.author@ == author_or_unknown(rv.author)
    &&& r.state == (match rv.state {
        Some(s) => s,
        None => ReviewState::Unknown,
    })
    &&& r.submitted_at == rv.submitted_at
}

fn unknown_string() -> (r: String)
    ensures
        r@ == unknown_name(),
{
    let r = String::from_str("unknown");
    proof {
        reveal_strlit("unknown");
    }
    r
}

fn author_string(a: &Option<String>) -> (r: String)
    ensures
        r@ == author_or_unknown(*a),
{
    match a {
        Some(s) => s.clone(),
        None => unknown_string(),
    }
}

/// Builds the record stored for remote pull request `pr` of repository `repo`.
pub fn pull_request_record(repo: &String, pr: &RemotePullRequest) -> (r: PullRequestRecord)
    ensures
        pr_record_of(repo@, *pr, r),
{
    let state = match pr.state {
        Some(s) => s,
        None => PrState::Unknown,
    };
    let body = match &pr.body {
        Some(b) => b.clone(),
        None => String::new(),
    };
    PullRequestRecord {
        repo: repo.clone(),
        number: pr.number,
        author: author_string(&pr.author),
        state,
        head: pr.head.clone(),
        base: pr.base.clone(),
        title: pr.title.clone(),
        body,
        created_at: pr.created_at,
        updated_at: pr.updated_at,
    }
}

/// The key under which a stored pull request record lives.
pub fn record_id(r: &PullRequestRecord) -> (id: PullRequestId)
    ensures
        id.repo@ == r.repo@,
        id.number == r.number,
{
    PullRequestId { repo: r.repo.clone(), number: r.number }
}

/// Builds the record stored for remote review `rv` of the pull request keyed `id`.
pub fn review_record(id: &PullRequestId, rv: &RemoteReview) -> (r: ReviewRecord)
    ensures
        review_record_of(*id, *rv, r),
{
    let state = match rv.state {
        Some(s) => s,
        None => ReviewState::Unknown,
    };
    ReviewRecord {
        id: rv.id,
        repo: id.repo.clone(),
        pr_number: id.number,
        author: author_string(&rv.author),
        state,
        submitted_at: rv.submitted_at,
    }
}

} // verus!

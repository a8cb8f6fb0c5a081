//! The daemon's HTTP API: its request and response shapes, its error
//! kinds, and the checks a request passes before any work is done.
//!
//! The server itself (routing, JSON, the database connection) lives
//! outside the library; what it decides about a request is decided here.
use vstd::prelude::*;

use crate::models::{Block, JiraTicket};
use crate::overlaps::{Overlap, ProjectActivity};
use crate::text::{concat, contains, str_contains, str_eq, trim, trim_owned};

verus! {

/// An API failure. Each kind maps to one HTTP status: a bad request to
/// 400, a missing row to 404, a refused origin to 403, anything else to
/// 500. For 400/404/403 only the message is shown to the client.
#[derive(Debug, Clone, PartialEq, Eq)]
pub enum ApiError {
    BadRequest(String),
    NotFound(String),
    Forbidden(String),
    Internal(String),
}

impl ApiError {
    /// A 400 carrying `msg`.
    pub fn bad_request(msg: &str) -> (e: ApiError)
        ensures
            e matches ApiError::BadRequest(m) && m@ == msg@,
    {
        ApiError::BadRequest(msg.to_owned())
    }

    /// The HTTP status code of this error.
    pub fn status(&self) -> (code: u16)
        ensures
            code == match self {
                ApiError::BadRequest(_) => 400u16,
                ApiError::NotFound(_) => 404u16,
                ApiError::Forbidden(_) => 403u16,
                ApiError::Internal(_) => 500u16,
            },
    {
        match self {
            ApiError::BadRequest(_) => 400,
            ApiError::NotFound(_) => 404,
            ApiError::Forbidden(_) => 403,
            ApiError::Internal(_) => 500,
        }
    }

    /// The message carried by this error.
    pub fn message(&self) -> (m: &String)
        ensures
            *m == match self {
                ApiError::BadRequest(m) => *m,
                ApiError::NotFound(m) => *m,
                ApiError::Forbidden(m) => *m,
                ApiError::Internal(m) => *m,
            },
    {
        match self {
            ApiError::BadRequest(m) => m,
            ApiError::NotFound(m) => m,
            ApiError::Forbidden(m) => m,
            ApiError::Internal(m) => m,
        }
    }
}

/// Events of one source within a block.
#[derive(Debug, Clone)]
pub struct SourceCount {
    pub source: String,
    pub n: i64,
}

/// A block with the facts the day view shows beside it.
#[derive(Debug, Clone)]
pub struct BlockSummary {
    pub block: Block,
    pub event_count: i64,
    pub sources: Vec<SourceCount>,
    /// A working directory inside the block's winning project folder, or
    /// `None` when that folder won only through repo-derived events.
    pub project_path: Option<String>,
    /// The billing folder key that won the same vote.
    pub project: Option<String>,
    /// `high`, `medium` or `low`, from how many distinct sources fed the
    /// block.
    pub confidence: String,
}

/// A gap of at least 30 minutes between two consecutive blocks.
#[derive(Debug, Clone)]
pub struct DayGap {
    pub started_at: String,
    pub ended_at: String,
    pub minutes: i64,
}

/// Everything the day view needs.
#[derive(Debug, Clone)]
pub struct DaySummary {
    pub day: String,
    pub total_seconds: i64,
    pub blocks: Vec<BlockSummary>,
    pub gaps: Vec<DayGap>,
    /// Windows where two or more work projects were active together.
    pub overlaps: Vec<Overlap>,
    /// Every work project's gap-bridged activity for the day.
    pub activity: Vec<ProjectActivity>,
}

#[derive(Debug, Clone)]
pub struct TicketsResponse {
    pub tickets: Vec<JiraTicket>,
    pub meta: TicketCacheMeta,
}

#[derive(Debug, Clone)]
pub struct TicketCacheMeta {
    pub count: i64,
    pub last_fetched: Option<String>,
}

/// `?q=...&limit=...` of the live ticket search.
#[derive(Debug, Clone)]
pub struct SearchQuery {
    pub q: String,
    pub limit: Option<u32>,
}

#[derive(Debug, Clone)]
pub struct CreateTicketBody {
    pub project_key: String,
    pub summary: String,
    /// The Tempo account id the issue's account field is set to.
    pub account_id: Option<String>,
    pub description: Option<String>,
    /// `Task` when omitted.
    pub issue_type: Option<String>,
}

#[derive(Debug, Clone)]
pub struct TicketBody {
    pub jira_issue: Option<String>,
}

#[derive(Debug, Clone)]
pub struct DurationBody {
    pub minutes: u32,
}

#[derive(Debug, Clone)]
pub struct DescriptionBody {
    pub description: String,
}

#[derive(Debug, Clone)]
pub struct PersonalBody {
    pub is_personal: bool,
}

#[derive(Debug, Clone)]
pub struct SplitBody {
    /// Minutes the original block keeps; the rest becomes a new block.
    pub first_minutes: u32,
}

#[derive(Debug, Clone)]
pub struct MergeBody {
    /// The surviving block: keeps its ticket, description and Tempo id.
    pub primary: i64,
    /// Blocks folded into the primary and then deleted.
    pub absorb: Vec<i64>,
}

#[derive(Debug, Clone)]
pub struct AutoMergeBody {
    pub day: String,
}

#[derive(Debug, Clone)]
pub struct InferBody {
    pub day: String,
}

#[derive(Debug, Clone)]
pub struct InferResponse {
    pub day: String,
    pub blocks: usize,
    pub minutes: i64,
}

#[derive(Debug, Clone)]
pub struct DeleteAllocationBody {
    pub started_at: String,
    pub ended_at: String,
}

#[derive(Debug, Clone)]
pub struct EstimateBody {
    pub day: String,
    pub model: Option<String>,
}

#[derive(Debug, Clone)]
pub struct SyncBody {
    pub day: String,
    /// `true` when the field is omitted: a careless click cannot post.
    pub dry_run: bool,
}

/// A credential or config key as the settings panel sees it: token-like
/// keys report only whether a value is present.
#[derive(Debug, Clone)]
pub struct SettingField {
    pub key: String,
    pub present: bool,
    pub sensitive: bool,
    pub value: Option<String>,
}

#[derive(Debug, Clone)]
pub struct PersonalPatterns {
    pub work: Vec<String>,
    pub personal: Vec<String>,
}

#[derive(Debug, Clone)]
pub struct PersonalPatternsIn {
    pub work: Vec<String>,
    pub personal: Vec<String>,
}

#[derive(Debug, Clone)]
pub struct RoutedQuery {
    /// Include dismissed and noise events too.
    pub include_hidden: bool,
}

/// `?after=<id>` of the change feed; `0` when omitted.
#[derive(Debug, Clone)]
pub struct AfterQuery {
    pub after: i64,
}

/// Mark the change feed as seen up to `up_to`.
#[derive(Debug, Clone)]
pub struct SeenBody {
    pub up_to: i64,
}

/// The failures of a customer-share edit that are the client's fault.
pub open spec fn tenant_client_error(msg: Seq<char>) -> bool {
    ||| msg == "Customer no longer exists"@
    ||| msg == "Folder is not multi-tenant"@
    ||| msg == "Shares must add up to 100%"@
    ||| msg == "Share must be above 0"@
    ||| msg == "Block is personal"@
}

/// Map a failed customer-share edit to its API error: the known client
/// mistakes are a 400 with their exact text, anything else a 500.
pub fn tenant_bad_request(msg: String) -> (e: ApiError)
    ensures
        tenant_client_error(msg@) ==> e == ApiError::BadRequest(msg),
        !tenant_client_error(msg@) ==> e == ApiError::Internal(msg),
{
    let s = msg.as_str();
    if str_eq(s, "Customer no longer exists") || str_eq(s, "Folder is not multi-tenant") || str_eq(
        s,
        "Shares must add up to 100%",
    ) || str_eq(s, "Share must be above 0") || str_eq(s, "Block is personal") {
        ApiError::BadRequest(msg)
    } else {
        ApiError::Internal(msg)
    }
}

/// Map a failed department edit to its API error: a blank name or a
/// duplicate is a 400, anything else a 500.
pub fn deild_bad_request(msg: String) -> (e: ApiError)
    ensures
        (contains(msg@, "name must not be empty"@) || contains(msg@, "already exists for customer"@))
            ==> e == ApiError::BadRequest(msg),
        !(contains(msg@, "name must not be empty"@) || contains(msg@, "already exists for customer"@))
            ==> e == ApiError::Internal(msg),
{
    if str_contains(msg.as_str(), "name must not be empty") || str_contains(
        msg.as_str(),
        "already exists for customer",
    ) {
        ApiError::BadRequest(msg)
    } else {
        ApiError::Internal(msg)
    }
}

/// The value `dry_run` takes when a sync request omits it.
pub fn default_dry_run() -> (b: bool)
    ensures
        b,
{
    true
}

/// Token-like keys whose value is never sent to the browser.
pub open spec fn sensitive_key(key: Seq<char>) -> bool {
    ||| key == "jira_api_token"@
    ||| key == "tempo_api_token"@
    ||| key == "github_token"@
    ||| key == "google_client_secret"@
    ||| key == "google_refresh_token"@
    ||| key == "anthropic_api_key"@
    ||| key == "litellm_api_key"@
    ||| key == "slack_user_token"@
}

/// Whether the settings panel must hide the value stored under `key`.
pub fn is_sensitive_secret(key: &str) -> (b: bool)
    ensures
        b == sensitive_key(key@),
{
    str_eq(key, "jira_api_token") || str_eq(key, "tempo_api_token") || str_eq(key, "github_token")
        || str_eq(key, "google_client_secret") || str_eq(key, "google_refresh_token") || str_eq(
        key,
        "anthropic_api_key",
    ) || str_eq(key, "litellm_api_key") || str_eq(key, "slack_user_token")
}

/// How the settings panel shows the value stored under `key`: sensitive
/// keys report presence only.
pub fn setting_field(key: &str, stored: Option<String>) -> (f: SettingField)
    ensures
        f.key@ == key@,
        f.sensitive == sensitive_key(key@),
        f.present == (stored matches Some(s) && s@.len() > 0),
        f.value == (if f.present && !f.sensitive {
            stored
        } else {
            None
        }),
{
    let stored = match stored {
        Some(s) => if s.as_str().is_empty() {
            None
        } else {
            Some(s)
        },
        None => None,
    };
    let sensitive = is_sensitive_secret(key);
    let present = stored.is_some();
    SettingField {
        key: key.to_owned(),
        present,
        sensitive,
        value: if sensitive {
            None
        } else {
            stored
        },
    }
}

pub open spec fn trimmed_nonempty(v: Seq<String>) -> Seq<Seq<char>> {
    v.map_values(|s: String| trim(s@)).filter(|s: Seq<char>| s.len() > 0)
}

/// Trim each glob and drop blank entries: the settings textarea sends one
/// pattern per line and trailing empty lines are common.
pub fn clean_globs(v: Vec<String>) -> (r: Vec<String>)
    ensures
        r@.map_values(|s: String| s@) == trimmed_nonempty(v@),
{
    let mut out: Vec<String> = Vec::new();
    let mut i: usize = 0;
    while i < v.len()
        invariant
            i <= v@.len(),
            out@.map_values(|s: String| s@) == trimmed_nonempty(v@.take(i as int)),
        decreases v@.len() - i,
    {
        let t = trim_owned(v[i].as_str());
        proof {
            let f = |s: String| trim(s@);
            assert(v@.take(i + 1).map_values(f) =~= v@.take(i as int).map_values(f).push(
                trim(v@[i as int]@),
            ));
            v@.take(i as int).map_values(f).lemma_filter_push(
                trim(v@[i as int]@),
                |s: Seq<char>| s.len() > 0,
            );
        }
        let ghost before = out@;
        if !t.as_str().is_empty() {
            out.push(t);
            assert(out@.map_values(|s: String| s@) =~= before.map_values(|s: String| s@).push(
                trim(v@[i as int]@),
            ));
        }
        i = i + 1;
    }
    assert(v@.take(v@.len() as int) =~= v@);
    out
}

/// A ticket search must name something to search for.
pub fn check_search(q: &SearchQuery) -> (r: Result<String, ApiError>)
    ensures
        trim(q.q@).len() > 0 ==> (r matches Ok(s) && s@ == trim(q.q@)),
        trim(q.q@).len() == 0 ==> (r matches Err(ApiError::BadRequest(m))
            && m@ == "query parameter `q` is required"@),
{
    let t = trim_owned(q.q.as_str());
    if t.as_str().is_empty() {
        return Err(ApiError::bad_request("query parameter `q` is required"));
    }
    Ok(t)
}

/// A ticket picked from the search must carry a key.
pub fn check_external_ticket(t: &JiraTicket) -> (r: Result<(), ApiError>)
    ensures
        r is Ok <==> trim(t.key@).len() > 0,
        r matches Err(e) ==> (e matches ApiError::BadRequest(m) && m@
            == "ticket `key` is required"@),
{
    let k = trim_owned(t.key.as_str());
    if k.as_str().is_empty() {
        return Err(ApiError::bad_request("ticket `key` is required"));
    }
    Ok(())
}

/// The issue a create-ticket request asks for, once checked.
#[derive(Debug, Clone)]
pub struct NewIssue {
    pub project_key: String,
    pub summary: String,
    pub issue_type: String,
    pub description: Option<String>,
    pub account_field_id: Option<String>,
    pub account_value: Option<String>,
}

/// `Some(trim(s))` when that is not empty.
pub open spec fn trimmed_opt(o: Option<Seq<char>>) -> Option<Seq<char>> {
    match o {
        Some(s) if trim(s).len() > 0 => Some(trim(s)),
        _ => None,
    }
}

pub open spec fn ostr(o: Option<String>) -> Option<Seq<char>> {
    match o {
        Some(s) => Some(s@),
        None => None,
    }
}

fn trimmed_some(o: &Option<String>) -> (r: Option<String>)
    ensures
        ostr(r) == trimmed_opt(ostr(*o)),
{
    match o {
        Some(s) => {
            let t = trim_owned(s.as_str());
            if t.as_str().is_empty() {
                None
            } else {
                Some(t)
            }
        },
        None => None,
    }
}

pub open spec fn missing_account_field_msg() -> Seq<char> {
    "an account was selected but no Jira account field is configured — set `jira_account_field_id` (e.g. customfield_10100) in Settings → Jira / Tempo so the account maps to a customer"@
}

/// Check a create-ticket request against the configured account field id
/// (read from the secrets store by the caller). The account is the whole
/// point of the ticket: an account with nowhere to write it is refused
/// rather than silently dropped.
pub fn plan_new_issue(body: &CreateTicketBody, account_field: Option<String>) -> (r: Result<
    NewIssue,
    ApiError,
>)
    ensures
        trim(body.project_key@).len() == 0 ==> (r matches Err(ApiError::BadRequest(m)) && m@
            == "`project_key` is required"@),
        trim(body.project_key@).len() > 0 && trim(body.summary@).len() == 0 ==> (r matches Err(
            ApiError::BadRequest(m),
        ) && m@ == "`summary` is required"@),
        trim(body.project_key@).len() > 0 && trim(body.summary@).len() > 0 && trimmed_opt(
            ostr(body.account_id),
        ) is Some && trimmed_opt(ostr(account_field)) is None ==> (r matches Err(
            ApiError::BadRequest(m),
        ) && m@ == missing_account_field_msg()),
        r is Ok <==> (trim(body.project_key@).len() > 0 && trim(body.summary@).len() > 0 && (
        trimmed_opt(ostr(body.account_id)) is None || trimmed_opt(ostr(account_field)) is Some)),
        r matches Ok(i) ==> {
            &&& i.project_key@ == trim(body.project_key@)
            &&& i.summary@ == trim(body.summary@)
            &&& i.issue_type@ == match trimmed_opt(ostr(body.issue_type)) {
                Some(t) => t,
                None => "Task"@,
            }
            &&& i.description == body.description
            &&& ostr(i.account_field_id) == trimmed_opt(ostr(account_field))
            &&& ostr(i.account_value) == trimmed_opt(ostr(body.account_id))
        },
{
    let project_key = trim_owned(body.project_key.as_str());
    let summary = trim_owned(body.summary.as_str());
    if project_key.as_str().is_empty() {
        return Err(ApiError::bad_request("`project_key` is required"));
    }
    if summary.as_str().is_empty() {
        return Err(ApiError::bad_request("`summary` is required"));
    }
    let account_field_id = trimmed_some(&account_field);
    let account_value = trimmed_some(&body.account_id);
    if account_value.is_some() && account_field_id.is_none() {
        return Err(
            ApiError::bad_request(
                "an account was selected but no Jira account field is configured — set `jira_account_field_id` (e.g. customfield_10100) in Settings → Jira / Tempo so the account maps to a customer",
            ),
        );
    }
    let issue_type = match trimmed_some(&body.issue_type) {
        Some(t) => t,
        None => "Task".to_owned(),
    };
    Ok(
        NewIssue {
            project_key,
            summary,
            issue_type,
            description: body.description.clone(),
            account_field_id,
            account_value,
        },
    )
}

/// The Tempo worklog a block delete must also remove: its recorded id,
/// trimmed, when that is not blank.
pub fn tempo_id_to_delete(block: &Block) -> (r: Option<String>)
    ensures
        ostr(r) == trimmed_opt(ostr(block.tempo_worklog_id)),
{
    trimmed_some(&block.tempo_worklog_id)
}

/// The message of a request whose `day` is not a `YYYY-MM-DD` date:
/// `` invalid day `<day>`: <reason> ``.
pub fn invalid_day(day: &str, reason: &str) -> (e: ApiError)
    ensures
        e matches ApiError::BadRequest(m) && m@ == "invalid day `"@ + day@ + "`: "@ + reason@,
{
    let a = concat("invalid day `", day);
    let b = concat(a.as_str(), "`: ");
    let c = concat(b.as_str(), reason);
    ApiError::BadRequest(c)
}

/// The model an estimate request runs with: the one it names, else the
/// default.
pub fn estimate_model(body: &EstimateBody, default_model: &str) -> (m: String)
    ensures
        m@ == match body.model {
            Some(x) => x@,
            None => default_model@,
        },
{
    match &body.model {
        Some(x) => x.clone(),
        None => default_model.to_owned(),
    }
}

} // verus!

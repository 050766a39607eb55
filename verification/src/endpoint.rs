//! The two decisions of the endpoint: what a fetch of the table amounts to,
//! and what is answered for it.

use crate::contact::{
    contacts_json, lemma_document_determines_table, table_of, to_json, valid_table, Contact,
    ContactView,
};
use vstd::prelude::*;
use vstd::string::StringExecFns;

verus! {

/// The status of an answer that carries the table.
pub const STATUS_OK: u16 = 200;

/// The status of an answer to a request that could not be served.
pub const STATUS_INTERNAL_SERVER_ERROR: u16 = 500;

/// The one failure that a query reports upward: the database operation
/// failed, whatever the cause.
#[derive(Clone, Copy, Debug, PartialEq, Eq)]
pub struct QueryFailed;

/// How grave a log entry is.
#[derive(Clone, Copy, Debug, PartialEq, Eq)]
pub enum Level {
    Error,
    Warn,
    Info,
}

/// One entry for the server's log.
#[derive(Clone, Debug, PartialEq, Eq)]
pub struct LogEntry {
    pub level: Level,
    pub message: String,
}

/// A log entry as mathematical values.
pub struct LogEntryView {
    pub level: Level,
    pub message: Seq<char>,
}

impl View for LogEntry {
    type V = LogEntryView;

    open spec fn view(&self) -> LogEntryView {
        LogEntryView { level: self.level, message: self.message@ }
    }
}

/// What a query amounts to: the rows or the failure, and what is to be logged.
#[derive(Debug, PartialEq, Eq)]
pub struct QueryReport {
    pub outcome: Result<Vec<Contact>, QueryFailed>,
    pub log: Vec<LogEntry>,
}

/// A query report as mathematical values.
pub struct QueryReportView {
    pub outcome: Result<Seq<ContactView>, QueryFailed>,
    pub log: Seq<LogEntryView>,
}

/// The outcome of a query as mathematical values.
pub open spec fn outcome_view(outcome: Result<Vec<Contact>, QueryFailed>) -> Result<
    Seq<ContactView>,
    QueryFailed,
> {
    match outcome {
        Ok(rows) => Ok(table_of(rows@)),
        Err(failure) => Err(failure),
    }
}

/// The entries of a log as mathematical values, in order.
pub open spec fn log_view(log: Seq<LogEntry>) -> Seq<LogEntryView> {
    Seq::new(log.len(), |i: int| log[i]@)
}

impl View for QueryReport {
    type V = QueryReportView;

    open spec fn view(&self) -> QueryReportView {
        QueryReportView { outcome: outcome_view(self.outcome), log: log_view(self.log@) }
    }
}

/// What a fetch of the table handed back, as mathematical values: the rows,
/// or the detail of the database's error.
pub open spec fn fetched_view(fetched: Result<Vec<Contact>, String>) -> Result<
    Seq<ContactView>,
    Seq<char>,
> {
    match fetched {
        Ok(rows) => Ok(table_of(rows@)),
        Err(detail) => Err(detail@),
    }
}

/// How the message for a failed fetch opens.
pub const FAILURE_OPENING: &'static str = "Failed to execture query: ";

/// The message that is logged for a failed fetch: the fixed opening, then the
/// detail of the error.
pub open spec fn failure_message(detail: Seq<char>) -> Seq<char> {
    FAILURE_OPENING@ + detail
}

/// What a fetch amounts to. Rows are passed on as they came, with nothing to
/// log. An error becomes the one failure, and its detail goes into one log
/// entry at error level.
pub open spec fn report_for(fetched: Result<Seq<ContactView>, Seq<char>>) -> QueryReportView {
    match fetched {
        Ok(table) => QueryReportView { outcome: Ok(table), log: Seq::empty() },
        Err(detail) => QueryReportView {
            outcome: Err(QueryFailed),
            log: seq![LogEntryView { level: Level::Error, message: failure_message(detail) }],
        },
    }
}

/// Says what a fetch of the table amounts to: `fetched` holds the rows, or
/// the detail of the error that the database reported.
pub fn query_contacts(fetched: Result<Vec<Contact>, String>) -> (report: QueryReport)
    ensures
        report@ == report_for(fetched_view(fetched)),
        fetched matches Ok(rows) ==> report.outcome == Ok::<Vec<Contact>, QueryFailed>(rows)
            && report.log@.len() == 0,
        fetched matches Err(detail) ==> report.outcome == Err::<Vec<Contact>, QueryFailed>(
            QueryFailed,
        ) && report.log@.len() == 1 && report.log@[0].level == Level::Error
            && report.log@[0].message@ == failure_message(detail@),
{
    match fetched {
        Ok(rows) => {
            let report = QueryReport { outcome: Ok(rows), log: Vec::new() };
            assert(report@.log =~= Seq::empty());
            report
        },
        Err(detail) => {
            let message = String::from_str(FAILURE_OPENING).concat(detail.as_str());
            let mut log: Vec<LogEntry> = Vec::new();
            log.push(LogEntry { level: Level::Error, message });
            let report = QueryReport { outcome: Err(QueryFailed), log };
            assert(report@.log =~= seq![
                LogEntryView { level: Level::Error, message: failure_message(detail@) },
            ]);
            report
        },
    }
}

/// What kind of content a body holds.
#[derive(Clone, Copy, Debug, PartialEq, Eq)]
pub enum MediaType {
    Json,
}

impl MediaType {
    /// The name of the media type, as a `Content-Type` header gives it.
    pub fn as_str(&self) -> (name: &'static str)
        ensures
            name@ == "application/json"@,
    {
        match self {
            MediaType::Json => "application/json",
        }
    }
}

/// The answer to a request: a status, the kind of content if there is any,
/// and the body.
#[derive(Clone, Debug, PartialEq, Eq)]
pub struct Response {
    pub status: u16,
    pub content_type: Option<MediaType>,
    pub body: Vec<u8>,
}

/// An answer as mathematical values.
pub struct ResponseView {
    pub status: int,
    pub content_type: Option<MediaType>,
    pub body: Seq<u8>,
}

impl View for Response {
    type V = ResponseView;

    open spec fn view(&self) -> ResponseView {
        ResponseView {
            status: self.status as int,
            content_type: self.content_type,
            body: self.body@,
        }
    }
}

/// The answer for the outcome of a query: `200` and the table as a JSON
/// document where there are rows to show, be they none; `500` and an empty
/// body where the query failed.
pub open spec fn response_for(outcome: Result<Seq<ContactView>, QueryFailed>) -> ResponseView {
    match outcome {
        Ok(table) => ResponseView {
            status: 200,
            content_type: Some(MediaType::Json),
            body: contacts_json(table),
        },
        Err(_) => ResponseView { status: 500, content_type: None, body: Seq::empty() },
    }
}

/// Answers a request for the contacts, given the outcome of the query.
pub fn get_contacts(outcome: Result<Vec<Contact>, QueryFailed>) -> (response: Response)
    ensures
        response@ == response_for(outcome_view(outcome)),
        outcome is Ok ==> response.status == 200,
        outcome is Err ==> response.status == 500 && response.body@.len() == 0,
        vstd::utf8::valid_utf8(response.body@),
{
    match outcome {
        Ok(rows) => Response {
            status: STATUS_OK,
            content_type: Some(MediaType::Json),
            body: to_json(rows.as_slice()),
        },
        Err(_) => Response {
            status: STATUS_INTERNAL_SERVER_ERROR,
            content_type: None,
            body: Vec::new(),
        },
    }
}

/// The answer to a request, from what the fetch of the table handed back: the
/// query's report decides it.
pub open spec fn answer_for(fetched: Result<Seq<ContactView>, Seq<char>>) -> ResponseView {
    response_for(report_for(fetched).outcome)
}

/// Whatever rows the database hands back, the request is answered with `200`
/// and the document of those rows, and nothing is logged.
pub proof fn lemma_healthy_database(table: Seq<ContactView>)
    ensures
        answer_for(Ok(table)).status == 200,
        answer_for(Ok(table)).content_type == Some(MediaType::Json),
        answer_for(Ok(table)).body == contacts_json(table),
        report_for(Ok(table)).log.len() == 0,
{
}

/// Whatever error the database reports, the request is answered with `500`
/// and an empty body, and exactly one entry is logged: at error level, with
/// a message that ends with the detail of the error.
pub proof fn lemma_failing_database(detail: Seq<char>)
    ensures
        answer_for(Err(detail)).status == 500,
        answer_for(Err(detail)).content_type is None,
        answer_for(Err(detail)).body.len() == 0,
        report_for(Err(detail)).log.len() == 1,
        report_for(Err(detail)).log[0].level == Level::Error,
        ({
            let message = report_for(Err(detail)).log[0].message;
            message.len() >= detail.len() && message.subrange(
                message.len() - detail.len(),
                message.len() as int,
            ) == detail
        }),
{
    let message = report_for(Err(detail)).log[0].message;
    assert(message.subrange(message.len() - detail.len(), message.len() as int) =~= detail);
}

/// The answer shows nothing of the error: any two failures are answered
/// alike.
pub proof fn lemma_failures_answered_alike(first: Seq<char>, second: Seq<char>)
    ensures
        answer_for(Err(first)) == answer_for(Err(second)),
{
}

/// Asking again changes nothing: two fetches that hand back the same rows in
/// the same order, or the same error, lead to the same log entries and to the
/// same answer, byte for byte.
pub proof fn lemma_same_fetch_same_answer(
    first: Result<Vec<Contact>, String>,
    second: Result<Vec<Contact>, String>,
)
    requires
        fetched_view(first) == fetched_view(second),
    ensures
        report_for(fetched_view(first)) == report_for(fetched_view(second)),
        answer_for(fetched_view(first)) == answer_for(fetched_view(second)),
        answer_for(fetched_view(first)).body == answer_for(fetched_view(second)).body,
{
}

/// The answer holds the whole table: two fetches of rows that are answered
/// with the same bytes handed back the same rows, in the same order.
pub proof fn lemma_answer_determines_table(first: Seq<ContactView>, second: Seq<ContactView>)
    requires
        valid_table(first),
        valid_table(second),
        answer_for(Ok(first)).body == answer_for(Ok(second)).body,
    ensures
        first == second,
{
    lemma_document_determines_table(first, second);
}

/// A failure is never answered as rows are, whatever the rows.
pub proof fn lemma_failure_is_told_apart(table: Seq<ContactView>, detail: Seq<char>)
    ensures
        answer_for(Ok(table)) != answer_for(Err(detail)),
{
}

} // verus!

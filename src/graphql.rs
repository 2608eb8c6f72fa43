//! The tracker's `createIssue` mutation: its payload, and how its response
//! turns into an issue id or an error.

use vstd::prelude::*;

use crate::date::Date;
use crate::reconcile::WorkItem;

verus! {

/// The `createIssue` mutation of the tracker's GraphQL API.
#[derive(Debug, Clone, Copy, PartialEq, Eq, Structural)]
pub struct CreateIssue;

/// What a `createIssue` request sends.
#[derive(Debug)]
pub struct CreateIssuePayload {
    /// Path of the project to create the issue in.
    pub project_path: String,
    /// Title of the issue.
    pub title: String,
    /// Rendered description of the issue.
    pub description: Option<String>,
    /// Due date of the issue.
    pub due: Option<Date>,
    /// Labels of the issue.
    pub labels: Vec<String>,
}

/// Why an issue could not be created.
#[derive(Debug, PartialEq, Eq)]
pub enum Error {
    /// The request could not be made or answered; the text says why.
    Request(String),
    /// The tracker rejected the request.
    Gitlab,
    /// The description could not be rendered; the text says why.
    Render(String),
}

/// What the tracker answered to a `createIssue` request.
#[derive(Debug)]
pub struct CreateIssueResponse {
    /// Whether the answer lists errors.
    pub has_errors: bool,
    /// The id of the created issue, where the answer holds one.
    pub issue_id: Option<String>,
}

impl CreateIssue {
    /// The id of the created issue, or `Error::Gitlab` where the answer lists
    /// errors or holds no issue.
    pub fn issue_id(response: CreateIssueResponse) -> (r: Result<String, Error>)
        ensures
            response.has_errors ==> r == Err::<String, Error>(Error::Gitlab),
            !response.has_errors ==> r == (match response.issue_id {
                Some(id) => Ok::<String, Error>(id),
                None => Err(Error::Gitlab),
            }),
    {
        if response.has_errors {
            return Err(Error::Gitlab);
        }
        match response.issue_id {
            Some(id) => Ok(id),
            None => Err(Error::Gitlab),
        }
    }
}

impl WorkItem {
    /// The request that creates this occurrence, with its rendered
    /// description.
    pub fn into_payload(self, description: Option<String>) -> (r: CreateIssuePayload)
        ensures
            r.project_path == self.project_path,
            r.title == self.title,
            r.description == description,
            r.due == self.due,
            r.labels == self.labels,
    {
        CreateIssuePayload {
            project_path: self.project_path,
            title: self.title,
            description,
            due: self.due,
            labels: self.labels,
        }
    }
}

} // verus!

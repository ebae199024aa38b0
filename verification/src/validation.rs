//! Validation of an issue's fields, done before a store is changed.

use vstd::prelude::*;
use vstd::string::*;
use crate::text::{decimal, decimal_string, natural_string};
use crate::types::{Issue, IssueView, Status};

verus! {

/// The largest number of characters a title may have.
pub const MAX_TITLE_CHARS: usize = 500;

/// The lowest priority number, which is the most urgent.
pub const MIN_PRIORITY: i32 = 0;

/// The highest priority number, which is the least urgent.
pub const MAX_PRIORITY: i32 = 4;

/// What is wrong with an issue's fields, if anything: the message of the
/// first check that fails, in the order title, priority, estimate, closing
/// time.
pub open spec fn validation_error(i: IssueView) -> Option<Seq<char>> {
    if i.title.len() == 0 {
        Some("title is required"@)
    } else if i.title.len() > MAX_TITLE_CHARS {
        Some(
            "title must be 500 characters or less (got "@ + decimal(i.title.len() as int) + ")"@,
        )
    } else if !(MIN_PRIORITY <= i.priority <= MAX_PRIORITY) {
        Some("priority must be between 0 and 4 (got "@ + decimal(i.priority as int) + ")"@)
    } else if i.estimated_minutes is Some && i.estimated_minutes->0 < 0 {
        Some("estimated_minutes cannot be negative"@)
    } else if i.status == Status::Closed && i.closed_at is None {
        Some("closed issues must have closed_at timestamp"@)
    } else if i.status != Status::Closed && i.closed_at is Some {
        Some("non-closed issues cannot have closed_at timestamp"@)
    } else {
        None
    }
}

/// Whether an issue's fields are acceptable: a title of 1 to 500
/// characters, a priority from 0 to 4, no negative estimate, and a closing
/// time exactly when the status is closed.
pub open spec fn is_valid_issue(i: IssueView) -> bool {
    &&& 0 < i.title.len() <= MAX_TITLE_CHARS
    &&& MIN_PRIORITY <= i.priority <= MAX_PRIORITY
    &&& (i.estimated_minutes is Some ==> i.estimated_minutes->0 >= 0)
    &&& (i.status == Status::Closed <==> i.closed_at is Some)
}

/// An issue is acceptable exactly when no check fails.
pub proof fn lemma_valid_iff_no_error(i: IssueView)
    ensures
        is_valid_issue(i) <==> validation_error(i) is None,
{
}

fn message_with_number(head: &str, number: String, tail: &str) -> (msg: String)
    ensures
        msg@ == head@ + number@ + tail@,
{
    let mut msg = head.to_owned();
    msg.append(number.as_str());
    msg.append(tail);
    msg
}

impl Issue {
    /// Checks the fields of this issue. Returns `Ok` exactly when the issue
    /// is acceptable, and otherwise the message of the first failed check.
    pub fn validate(&self) -> (r: Result<(), String>)
        ensures
            r is Ok <==> is_valid_issue(self@),
            match r {
                Ok(_) => validation_error(self@) is None,
                Err(msg) => validation_error(self@) == Some(msg@),
            },
    {
        let chars: usize = self.title.as_str().unicode_len();
        if chars == 0 {
            return Err("title is required".to_owned());
        }
        if chars > MAX_TITLE_CHARS {
            return Err(
                message_with_number(
                    "title must be 500 characters or less (got ",
                    natural_string(chars as u64),
                    ")",
                ),
            );
        }
        if self.priority < MIN_PRIORITY || self.priority > MAX_PRIORITY {
            return Err(
                message_with_number(
                    "priority must be between 0 and 4 (got ",
                    decimal_string(self.priority as i64),
                    ")",
                ),
            );
        }
        if !self.status.is_valid() {
            return Err("invalid status".to_owned());
        }
        if !self.issue_type.is_valid() {
            return Err("invalid issue type".to_owned());
        }
        match self.estimated_minutes {
            Some(minutes) => {
                if minutes < 0 {
                    return Err("estimated_minutes cannot be negative".to_owned());
                }
            },
            None => {},
        }
        let closed = match self.status {
            Status::Closed => true,
            _ => false,
        };
        if closed && self.closed_at.is_none() {
            return Err("closed issues must have closed_at timestamp".to_owned());
        }
        if !closed && self.closed_at.is_some() {
            return Err("non-closed issues cannot have closed_at timestamp".to_owned());
        }
        Ok(())
    }
}

} // verus!

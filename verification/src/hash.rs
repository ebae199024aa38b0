//! Content hashing: a digest of an issue's substantive fields that does not
//! depend on its id or its timestamps.

use vstd::prelude::*;
use vstd::string::*;
use vstd::utf8::*;
use sha2::Digest;
use crate::text::{decimal, decimal_string, hex_lower, to_hex_lower};
use crate::types::{Issue, IssueView};

verus! {

/// The SHA-256 digest of a byte string.
pub uninterp spec fn sha256(data: Seq<u8>) -> Seq<u8>;

/// Calls `sha2::Sha256::digest`. The contract claims that the bytes returned
/// are the SHA-256 digest of `data`, a function of `data` alone, and that
/// there are 32 of them.
#[verifier::external_body]
fn sha256_digest(data: &[u8]) -> (out: Vec<u8>)
    ensures
        out@ == sha256(data@),
        out@.len() == 32,
{
    sha2::Sha256::digest(data).to_vec()
}

/// The byte that ends each field in the hashed text.
pub const FIELD_SEPARATOR: u8 = 0;

/// The bytes of one field followed by the separator.
pub open spec fn field_bytes(text: Seq<char>) -> Seq<u8> {
    encode_utf8(text).push(FIELD_SEPARATOR)
}

/// The byte string that is hashed for an issue: its title, description,
/// design, acceptance criteria, notes, status, priority, type and assignee,
/// each followed by the separator, then the external reference if there is
/// one. The id, the timestamps, the compaction data and the attached
/// labels, edges and comments are left out.
pub open spec fn content_bytes(i: IssueView) -> Seq<u8> {
    field_bytes(i.title) + field_bytes(i.description) + field_bytes(i.design) + field_bytes(
        i.acceptance_criteria,
    ) + field_bytes(i.notes) + field_bytes(i.status.spec_str()) + field_bytes(
        decimal(i.priority as int),
    ) + field_bytes(i.issue_type.spec_str()) + field_bytes(i.assignee) + match i.external_ref {
        Some(r) => encode_utf8(r),
        None => Seq::<u8>::empty(),
    }
}

/// The content hash of an issue: the SHA-256 digest of its content bytes in
/// lower-case hexadecimal notation.
pub open spec fn content_hash(i: IssueView) -> Seq<char> {
    hex_lower(sha256(content_bytes(i)))
}

/// The SHA-256 digest of a byte string in lower-case hexadecimal notation.
pub fn sha256_hex(data: &Vec<u8>) -> (hash: String)
    ensures
        hash@ == hex_lower(sha256(data@)),
        hash@.len() == 64,
{
    let digest = sha256_digest(data.as_slice());
    to_hex_lower(&digest)
}

fn append_text(buf: &mut Vec<u8>, text: &str)
    ensures
        final(buf)@ == old(buf)@ + encode_utf8(text@),
{
    let ghost before = buf@;
    buf.extend_from_slice(text.as_bytes());
    assert(buf@ =~= before + encode_utf8(text@));
}

fn append_field(buf: &mut Vec<u8>, text: &str)
    ensures
        final(buf)@ == old(buf)@ + field_bytes(text@),
{
    let ghost before = buf@;
    append_text(buf, text);
    buf.push(FIELD_SEPARATOR);
    assert(buf@ =~= before + field_bytes(text@));
}

impl Issue {
    /// The content hash of this issue. Two issues with the same substantive
    /// fields have the same hash, whatever their ids and timestamps.
    pub fn compute_content_hash(&self) -> (hash: String)
        ensures
            hash@ == content_hash(self@),
            hash@.len() == 64,
    {
        let mut buf: Vec<u8> = Vec::new();
        append_field(&mut buf, self.title.as_str());
        append_field(&mut buf, self.description.as_str());
        append_field(&mut buf, self.design.as_str());
        append_field(&mut buf, self.acceptance_criteria.as_str());
        append_field(&mut buf, self.notes.as_str());
        append_field(&mut buf, self.status.as_str());
        let priority = decimal_string(self.priority as i64);
        append_field(&mut buf, priority.as_str());
        append_field(&mut buf, self.issue_type.as_str());
        append_field(&mut buf, self.assignee.as_str());
        match &self.external_ref {
            Some(r) => {
                append_text(&mut buf, r.as_str());
            },
            None => {},
        }
        assert(buf@ =~= content_bytes(self@));
        sha256_hex(&buf)
    }
}


/// Whether two issues agree on every substantive field.
pub open spec fn same_content(a: IssueView, b: IssueView) -> bool {
    &&& a.title == b.title
    &&& a.description == b.description
    &&& a.design == b.design
    &&& a.acceptance_criteria == b.acceptance_criteria
    &&& a.notes == b.notes
    &&& a.status == b.status
    &&& a.priority == b.priority
    &&& a.issue_type == b.issue_type
    &&& a.assignee == b.assignee
    &&& a.external_ref == b.external_ref
}

/// Issues that agree on every substantive field have the same content hash,
/// whatever their ids, timestamps, compaction data and attachments.
pub proof fn lemma_content_hash_stable(a: IssueView, b: IssueView)
    requires
        same_content(a, b),
    ensures
        content_bytes(a) == content_bytes(b),
        content_hash(a) == content_hash(b),
{
}

} // verus!

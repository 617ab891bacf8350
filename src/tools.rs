use vstd::prelude::*;
use vstd::string::StringExecFns;
use crate::protocol::McpError;
use crate::store::{age_cutoff, count_dropped, retained, VectorStorage};
use crate::text::chars_of;
use crate::types::{ContentType, VectorEntry};

verus! {

fn is_literal(s: &str, lit: &str) -> (r: bool)
    ensures
        r == (s@ == lit@),
{
    crate::crawler::eq_literal(&chars_of(s), lit)
}

/// The content type a search request names: `documentation`, `code`,
/// `tutorial`, `reference` or `api`; no filter for any other name.
pub fn parse_content_type(s: &str) -> (r: Option<ContentType>)
    ensures
        r == (if s@ == "documentation"@ {
            Some(ContentType::Documentation)
        } else if s@ == "code"@ {
            Some(ContentType::CodeExample)
        } else if s@ == "tutorial"@ {
            Some(ContentType::Tutorial)
        } else if s@ == "reference"@ || s@ == "api"@ {
            Some(ContentType::Reference)
        } else {
            None::<ContentType>
        }),
{
    if is_literal(s, "documentation") {
        Some(ContentType::Documentation)
    } else if is_literal(s, "code") {
        Some(ContentType::CodeExample)
    } else if is_literal(s, "tutorial") {
        Some(ContentType::Tutorial)
    } else if is_literal(s, "reference") || is_literal(s, "api") {
        Some(ContentType::Reference)
    } else {
        None
    }
}

/// A document-management operation.
#[derive(Debug, Clone, Copy, PartialEq, Eq, Structural)]
pub enum ManageOperation {
    /// Remove the documents of a source.
    Delete,
    /// Remove the documents older than an age.
    Expire,
    /// Remove the documents of a source so that it can be crawled again.
    Refresh,
}

/// Days after which `expire` removes a document when the request names no age.
pub const DEFAULT_MAX_AGE_DAYS: u64 = 90;

/// What a management operation did, or would do on a dry run.
#[derive(Debug, Clone)]
pub struct ManageReport {
    pub operation: ManageOperation,
    /// Documents removed, or that would be removed.
    pub affected: usize,
    pub dry_run: bool,
    pub max_age_days: Option<u64>,
    pub remaining: usize,
}

/// The operation a request names: `delete`, `expire` or `refresh`.
pub fn parse_manage_operation(s: &str) -> (r: Result<ManageOperation, McpError>)
    ensures
        s@ == "delete"@ ==> r == Ok::<ManageOperation, McpError>(ManageOperation::Delete),
        s@ == "expire"@ ==> r == Ok::<ManageOperation, McpError>(ManageOperation::Expire),
        s@ == "refresh"@ ==> r == Ok::<ManageOperation, McpError>(ManageOperation::Refresh),
        s@ != "delete"@ && s@ != "expire"@ && s@ != "refresh"@ ==> r matches Err(McpError::InvalidParams(_)),
{
    proof {
        reveal_strlit("delete");
        reveal_strlit("expire");
        reveal_strlit("refresh");
        assert("delete"@[0] == 'd' && "expire"@[0] == 'e' && "refresh"@[0] == 'r');
        assert("expire"@ != "delete"@);
        assert("refresh"@ != "delete"@ && "refresh"@ != "expire"@);
    }
    if is_literal(s, "delete") {
        Ok(ManageOperation::Delete)
    } else if is_literal(s, "expire") {
        Ok(ManageOperation::Expire)
    } else if is_literal(s, "refresh") {
        Ok(ManageOperation::Refresh)
    } else {
        Err(McpError::InvalidParams(String::from_str("operation must be delete, expire or refresh")))
    }
}

/// Runs a management operation on the store. `delete` and `refresh` remove
/// the documents of the source `target`, `expire` those older than
/// `max_age_days` (90 when absent) before `now`; a dry run only counts
/// them. After a refresh the caller crawls `target` again.
pub fn manage_docs(
    store: &mut VectorStorage,
    operation: ManageOperation,
    target: &String,
    max_age_days: Option<u64>,
    dry_run: bool,
    now: u64,
) -> (r: ManageReport)
    requires
        old(store).wf(),
    ensures
        final(store).wf(),
        final(store).spec_dimension() == old(store).spec_dimension(),
        r.operation == operation,
        r.dry_run == dry_run,
        r.remaining == final(store).view_entries().len(),
        dry_run ==> final(store).view_entries() == old(store).view_entries(),
        operation != ManageOperation::Expire ==> {
            let keep = |e: VectorEntry| e.document.url@ != target@;
            &&& r.affected == count_dropped(old(store).view_entries(), keep)
            &&& r.max_age_days is None
            &&& !dry_run ==> final(store).view_entries() == retained(old(store).view_entries(), keep)
        },
        operation == ManageOperation::Expire ==> {
            let days = match max_age_days { Some(d) => d, None => DEFAULT_MAX_AGE_DAYS };
            let keep = |e: VectorEntry| e.updated_at() > age_cutoff(now, days);
            &&& r.affected == count_dropped(old(store).view_entries(), keep)
            &&& r.max_age_days == Some(days)
            &&& !dry_run ==> final(store).view_entries() == retained(old(store).view_entries(), keep)
        },
{
    match operation {
        ManageOperation::Expire => {
            let days = match max_age_days {
                Some(d) => d,
                None => DEFAULT_MAX_AGE_DAYS,
            };
            let affected = if dry_run {
                store.count_by_age(now, days)
            } else {
                let ghost before = store.view_entries();
                let removed = store.remove_documents_by_age(now, days);
                proof {
                    crate::store::lemma_retained_and_dropped(before,
                        |e: VectorEntry| e.updated_at() > age_cutoff(now, days));
                }
                removed
            };
            ManageReport { operation, affected, dry_run, max_age_days: Some(days), remaining: store.document_count() }
        },
        _ => {
            let affected = if dry_run {
                store.count_by_source(target)
            } else {
                let ghost before = store.view_entries();
                let removed = store.remove_documents_by_source(target);
                proof {
                    crate::store::lemma_retained_and_dropped(before, |e: VectorEntry| e.document.url@ != target@);
                }
                removed
            };
            ManageReport { operation, affected, dry_run, max_age_days: None, remaining: store.document_count() }
        },
    }
}

} // verus!

//! The decisions of the ingestion pipeline, apart from its threads: what
//! becomes of each event, and which failure an ingestion reports.

use vstd::prelude::*;

use crate::db::DbError;
use crate::doc::{fields_view, Doc, DocError, Event, EventView, Name};
use crate::wire::DecodeError;

verus! {

/// Why an ingestion failed.
#[derive(Debug)]
pub enum IngestError {
    /// The writer panicked.
    Panicked,
    /// The writer failed.
    Store(DbError),
    /// The stream could not be framed.
    Frame(DecodeError),
    /// A record is not a well-formed document.
    Record { error: DocError, raw: Vec<(Name, String)> },
    /// The writer stopped taking documents.
    QueueClosed,
}

/// What becomes of an event: a document goes to the writer, a deletion is
/// passed over, and an error record stops the ingestion.
pub fn route(event: Event) -> (r: Result<Option<Doc>, IngestError>)
    ensures
        match event@ {
            EventView::Doc(d) => r matches Ok(Some(x)) && x@ == d,
            EventView::Delete(_) => r matches Ok(None),
            EventView::Error { error, raw } => r matches Err(IngestError::Record { error: e, raw: x })
                && e == error && fields_view(x@) == raw,
        },
{
    match event {
        Event::Doc(d) => Ok(Some(d)),
        Event::Delete(_) => Ok(None),
        Event::Error { error, raw } => Err(IngestError::Record { error, raw }),
    }
}

/// The result of an ingestion, from what the writer ended with (none where
/// it panicked) and what the decoding side ended with: a panic of the
/// writer comes first, then the writer's own error, then the decoding
/// side's.
pub fn outcome<C>(writer: Option<Result<C, DbError>>, producer: Result<(), IngestError>) -> (r:
    Result<C, IngestError>)
    ensures
        writer is None ==> r matches Err(IngestError::Panicked),
        writer matches Some(Err(e)) ==> (r matches Err(IngestError::Store(x)) && x == e),
        writer matches Some(Ok(c)) ==> match producer {
            Ok(()) => r matches Ok(x) && x == c,
            Err(e) => r == Err::<C, IngestError>(e),
        },
{
    match writer {
        None => Err(IngestError::Panicked),
        Some(Err(e)) => Err(IngestError::Store(e)),
        Some(Ok(c)) => match producer {
            Ok(()) => Ok(c),
            Err(e) => Err(e),
        },
    }
}

} // verus!

use vstd::prelude::*;
use crate::id::WorkStationId;
use crate::packet::JoinAnswerResult;

verus! {

/// Something that happened at a station, attributed to the station that caused it.
pub trait Event {
    fn source(&self) -> &WorkStationId;
}

/// A monitor answered a join request.
pub struct JoinAnswerEvent {
    pub source: WorkStationId,
    pub result: JoinAnswerResult,
}

impl Event for JoinAnswerEvent {
    fn source(&self) -> (r: &WorkStationId)
        ensures
            r == &self.source,
    {
        &self.source
    }
}

} // verus!

use vstd::prelude::*;

verus! {

/// Why the engine ended a sequence.
#[derive(PartialEq, Eq, Structural, Clone, Copy, Debug)]
pub enum EngineFinish {
    EosToken,
    StopWords,
    Length,
    Other,
}

/// The finish reason reported to clients.
#[derive(PartialEq, Eq, Structural, Clone, Copy, Debug)]
pub enum FinishReason {
    Stop,
    Length,
}

/// A length limit stays a length limit; every other end is a stop.
pub fn map_finish_reason(fr: EngineFinish) -> (r: FinishReason)
    ensures
        r == (if fr == EngineFinish::Length { FinishReason::Length } else { FinishReason::Stop }),
{
    match fr {
        EngineFinish::EosToken | EngineFinish::StopWords => FinishReason::Stop,
        EngineFinish::Length => FinishReason::Length,
        EngineFinish::Other => FinishReason::Stop,
    }
}

/// One message for a client: the engine's response chunk, the logs gathered
/// since the last one, and, on a sequence's last chunk, its final machine.
pub struct StepResults<R, M> {
    pub response: R,
    pub logs: String,
    pub final_llg: Option<M>,
}

impl<R, M> StepResults<R, M> {
    /// Hands out the logs, if there are any, and leaves them empty.
    pub fn take_logs(&mut self) -> (r: Option<String>)
        ensures
            final(self).logs@.len() == 0,
            final(self).final_llg == old(self).final_llg,
            final(self).response == old(self).response,
            old(self).logs@.len() == 0 ==> r is None,
            old(self).logs@.len() > 0 ==> (r matches Some(s) && s@ == old(self).logs@),
    {
        if self.logs.as_str().unicode_len() == 0 {
            return None;
        }
        let mut out = String::new();
        std::mem::swap(&mut out, &mut self.logs);
        Some(out)
    }
}

} // verus!

//! Pairs requests sent to the venue with their responses.
//!
//! At most one request is in flight at a time: the venue serializes the calls
//! of a dealer, so a single pending slot is kept rather than a map of
//! identifiers. Identifiers come from a monotonically increasing counter and
//! are never reused.
use vstd::prelude::*;

verus! {

/// Why the correlator refused a step.
#[derive(Debug, PartialEq, Eq, Structural, Clone, Copy)]
pub enum CorrelatorError {
    /// A request is already in flight.
    Busy,
    /// The identifier counter has no successor left.
    Exhausted,
    /// A response arrived while no request was pending.
    Unsolicited { id: u64 },
    /// A response carried an identifier other than the pending one.
    Mismatch { expected: u64, got: u64 },
}

/// Request identifier allocator with a single pending slot.
pub struct Correlator {
    last_id: u64,
    pending: Option<u64>,
}

impl Correlator {
    /// The last identifier handed out (0 before the first request).
    pub closed spec fn last_id_spec(&self) -> u64 {
        self.last_id
    }

    /// The identifier of the request in flight, if any.
    pub closed spec fn pending_spec(&self) -> Option<u64> {
        self.pending
    }

    /// Every pending identifier is one that was handed out.
    pub open spec fn wf(&self) -> bool {
        match self.pending_spec() {
            Some(id) => id == self.last_id_spec(),
            None => true,
        }
    }

    pub fn new() -> (r: Correlator)
        ensures
            r.wf(),
            r.last_id_spec() == 0,
            r.pending_spec() is None,
    {
        Correlator { last_id: 0, pending: None }
    }

    /// The identifier of the request in flight, if any.
    pub fn pending(&self) -> (r: Option<u64>)
        ensures
            r == self.pending_spec(),
    {
        self.pending
    }

    /// The last identifier handed out.
    pub fn last_id(&self) -> (r: u64)
        ensures
            r == self.last_id_spec(),
    {
        self.last_id
    }

    /// Allocates the identifier of a new request and marks it pending.
    ///
    /// Refused with `Busy` while another request is in flight: no two
    /// identifiers are ever pending together.
    pub fn begin(&mut self) -> (r: Result<u64, CorrelatorError>)
        requires
            old(self).wf(),
        ensures
            final(self).wf(),
            old(self).pending_spec() is Some ==> r == Err::<u64, CorrelatorError>(
                CorrelatorError::Busy,
            ) && *final(self) == *old(self),
            old(self).pending_spec() is None && old(self).last_id_spec() == u64::MAX ==> r
                == Err::<u64, CorrelatorError>(CorrelatorError::Exhausted) && *final(self)
                == *old(self),
            old(self).pending_spec() is None && old(self).last_id_spec() < u64::MAX ==> r
                == Ok::<u64, CorrelatorError>((old(self).last_id_spec() + 1) as u64)
                && final(self).last_id_spec() == old(self).last_id_spec() + 1
                && final(self).pending_spec() == Some((old(self).last_id_spec() + 1) as u64),
    {
        if self.pending.is_some() {
            return Err(CorrelatorError::Busy);
        }
        if self.last_id == u64::MAX {
            return Err(CorrelatorError::Exhausted);
        }
        self.last_id = self.last_id + 1;
        self.pending = Some(self.last_id);
        Ok(self.last_id)
    }

    /// Matches an incoming response identifier against the pending request.
    ///
    /// On a match the slot is freed. Any other identifier is a protocol
    /// violation and leaves the state as it was.
    pub fn complete(&mut self, id: u64) -> (r: Result<(), CorrelatorError>)
        requires
            old(self).wf(),
        ensures
            final(self).wf(),
            final(self).last_id_spec() == old(self).last_id_spec(),
            old(self).pending_spec() == Some(id) ==> r is Ok && final(self).pending_spec() is None,
            old(self).pending_spec() is None ==> r == Err::<(), CorrelatorError>(
                CorrelatorError::Unsolicited { id },
            ) && *final(self) == *old(self),
            forall|p: u64|
                old(self).pending_spec() == Some(p) && p != id ==> r == Err::<(), CorrelatorError>(
                    CorrelatorError::Mismatch { expected: p, got: id },
                ) && *final(self) == *old(self),
    {
        match self.pending {
            None => Err(CorrelatorError::Unsolicited { id }),
            Some(p) => {
                if p == id {
                    self.pending = None;
                    Ok(())
                } else {
                    Err(CorrelatorError::Mismatch { expected: p, got: id })
                }
            },
        }
    }

    /// Gives up on the pending request after its timeout, freeing the slot.
    /// Returns the identifier that was abandoned.
    pub fn abandon(&mut self) -> (r: Option<u64>)
        requires
            old(self).wf(),
        ensures
            final(self).wf(),
            r == old(self).pending_spec(),
            final(self).pending_spec() is None,
            final(self).last_id_spec() == old(self).last_id_spec(),
    {
        let r = self.pending;
        self.pending = None;
        r
    }
}

} // verus!

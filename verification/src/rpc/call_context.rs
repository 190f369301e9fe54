use vstd::prelude::*;
use vstd::string::StringExecFns;
use crate::safe_db::edge_db_dispenser::{DispenserState, EdgeDBVersion, EdgeDbDispenser};
use crate::types::edge::EdgeDB;
use crate::types::text::number_text;
use crate::types::u256::U256;

verus! {

/// One request at work: the version of the edges that it has pinned, if any had been
/// published when it came.
pub struct CallContext {
    pub version: Option<EdgeDBVersion>,
}

/// A reader that releases the version that it has pinned leaves the dispenser as it
/// found it.
pub proof fn lemma_release_undoes_pin(s: DispenserState)
    requires
        s.inv(),
    ensures
        s.versions.contains_key(s.counter) ==> s.pin().release(s.counter).counter == s.counter
            && s.pin().release(s.counter).versions == s.versions && s.pin().release(
            s.counter,
        ).refs =~= s.refs,
        !s.versions.contains_key(s.counter) ==> s.pin() == s,
{
}

impl CallContext {
    /// The number of the version that the request has pinned, zero where it has
    /// pinned none.
    pub open spec fn version_number(&self) -> u64 {
        match self.version {
            Some(v) => v.version_number,
            None => 0,
        }
    }

    /// Pins the latest version for a request.
    pub fn new(dispenser: &mut EdgeDbDispenser) -> (r: Self)
        requires
            old(dispenser).wf(),
            old(dispenser).state().readers(old(dispenser).state().counter) < usize::MAX,
        ensures
            final(dispenser).wf(),
            final(dispenser).state() == old(dispenser).state().pin(),
            r.version is Some <==> old(dispenser).state().versions.contains_key(
                old(dispenser).state().counter,
            ),
            r.version is Some ==> r.version->0.version_number == old(dispenser).state().counter
                && r.version->0.edges.wf(),
            r.version is Some ==> (*r.version->0.edges)@ == old(dispenser).state().versions[old(
                dispenser,
            ).state().counter],
    {
        CallContext { version: dispenser.get_latest_version() }
    }

    /// The edges that the request works on, if it has pinned any.
    pub fn edges(&self) -> (r: Option<&EdgeDB>)
        ensures
            r is Some <==> self.version is Some,
            r is Some ==> *r->0 == *self.version->0.edges,
    {
        match &self.version {
            Some(v) => Some(&*v.edges),
            None => None,
        }
    }

    /// Ends the request: releases the version that it has pinned.
    pub fn release(self, dispenser: &mut EdgeDbDispenser)
        requires
            old(dispenser).wf(),
        ensures
            final(dispenser).wf(),
            final(dispenser).state() == (match self.version {
                Some(v) => old(dispenser).state().release(v.version_number as nat),
                None => old(dispenser).state(),
            }),
    {
        match self.version {
            Some(version) => dispenser.try_release_version(version),
            None => {},
        }
    }

    /// A line of the log of the request: the prefix, the time in seconds, the thread
    /// and the version in brackets, and the suffix, with a blank between any two.
    pub fn log_line(&self, prefix: &str, timestamp: u64, thread: &str, suffix: &str) -> (r: String)
        ensures
            r@ == prefix@ + " "@ + number_text(timestamp as nat, 10) + " ["@ + thread@ + "] ["@
                + number_text(self.version_number() as nat, 10) + "] "@ + suffix@,
    {
        let number: u64 = match &self.version {
            Some(v) => v.version_number,
            None => 0,
        };
        let mut out = String::from_str(prefix);
        out.append(" ");
        out.append(U256::new(0, timestamp as u128).to_decimal().as_str());
        out.append(" [");
        out.append(thread);
        out.append("] [");
        out.append(U256::new(0, number as u128).to_decimal().as_str());
        out.append("] ");
        out.append(suffix);
        out
    }

    /// The line of the log that carries a message of the request.
    pub fn log_message(&self, timestamp: u64, thread: &str, message: &str) -> (r: String)
        ensures
            r@ == "  "@ + " "@ + number_text(timestamp as nat, 10) + " ["@ + thread@ + "] ["@
                + number_text(self.version_number() as nat, 10) + "] "@ + (" "@ + message@),
    {
        let mut suffix = String::from_str(" ");
        suffix.append(message);
        self.log_line("  ", timestamp, thread, suffix.as_str())
    }
}

} // verus!

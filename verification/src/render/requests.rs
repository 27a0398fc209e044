//! What a mesh worker has been asked for, and which of its answers count.

use vstd::prelude::*;

verus! {

/// The requests to a mesh worker. Requests for a whole view are numbered: only the
/// answer to the newest one is shown.
pub struct MeshRequests {
    next_request_id: u64,
    latest_request_id: Option<u64>,
    pending_requests: usize,
}

/// The number after a number, starting over after the last.
pub open spec fn next_number(id: u64) -> u64 {
    if id == u64::MAX {
        0
    } else {
        (id + 1) as u64
    }
}

/// A count and one more, as far as there is one.
pub open spec fn one_more(n: usize) -> usize {
    if n == usize::MAX {
        n
    } else {
        (n + 1) as usize
    }
}

/// What is left of a count.
pub open spec fn fewer(n: usize, by: int) -> int {
    if n >= by {
        n - by
    } else {
        0
    }
}

/// Whether an answer among the first `n` is the last with a number.
pub open spec fn is_last_with(ids: Seq<u64>, id: u64, k: int) -> bool {
    &&& 0 <= k < ids.len()
    &&& ids[k] == id
    &&& forall|j: int| k < j < ids.len() ==> #[trigger] ids[j] != id
}

impl MeshRequests {
    /// The number of the last request for a view.
    pub closed spec fn last_number(&self) -> u64 {
        self.next_request_id
    }

    /// The number of the request whose answer is awaited.
    pub closed spec fn awaited(&self) -> Option<u64> {
        self.latest_request_id
    }

    /// Requests that have not been answered.
    pub closed spec fn pending(&self) -> usize {
        self.pending_requests
    }

    /// No requests.
    pub fn new() -> (r: MeshRequests)
        ensures
            r.last_number() == 0,
            r.awaited() is None,
            r.pending() == 0,
    {
        MeshRequests { next_request_id: 0, latest_request_id: None, pending_requests: 0 }
    }

    /// Gives the next request for a view its number.
    pub fn number(&mut self) -> (r: u64)
        ensures
            r == next_number(old(self).last_number()),
            final(self).last_number() == r,
            final(self).awaited() == old(self).awaited(),
            final(self).pending() == old(self).pending(),
    {
        self.next_request_id = self.next_request_id.wrapping_add(1);
        self.next_request_id
    }

    /// Notes that the request that was numbered last has been sent: its answer is
    /// awaited from now on.
    pub fn sent(&mut self)
        ensures
            final(self).last_number() == old(self).last_number(),
            final(self).awaited() == Some(old(self).last_number()),
            final(self).pending() == one_more(old(self).pending()),
    {
        self.latest_request_id = Some(self.next_request_id);
        self.pending_requests = self.pending_requests.saturating_add(1);
    }

    /// Notes that a request for one chunk has been sent.
    pub fn sent_chunk(&mut self)
        ensures
            final(self).last_number() == old(self).last_number(),
            final(self).awaited() == old(self).awaited(),
            final(self).pending() == one_more(old(self).pending()),
    {
        self.pending_requests = self.pending_requests.saturating_add(1);
    }

    /// Requests that have not been answered.
    pub fn pending_requests(&self) -> (r: usize)
        ensures
            r == self.pending(),
    {
        self.pending_requests
    }

    /// Whether an answer is awaited. Else answers are left where they are.
    pub fn awaits(&self) -> (r: bool)
        ensures
            r == (self.awaited() is Some),
    {
        self.latest_request_id.is_some()
    }

    /// Notes one answer.
    pub fn answered(&mut self)
        ensures
            final(self).last_number() == old(self).last_number(),
            final(self).awaited() == old(self).awaited(),
            final(self).pending() == fewer(old(self).pending(), 1),
    {
        self.pending_requests = self.pending_requests.saturating_sub(1);
    }

    /// Takes answers, by the numbers of their requests, and says which of them to
    /// show: the last one that was awaited. The others are out of date.
    pub fn take_latest(&mut self, ids: &Vec<u64>) -> (r: Option<usize>)
        requires
            old(self).awaited() is Some,
        ensures
            r is Some ==> is_last_with(ids@, old(self).awaited()->0, r->0 as int),
            r is None <==> !ids@.contains(old(self).awaited()->0),
            final(self).last_number() == old(self).last_number(),
            final(self).awaited() == if r is Some {
                None
            } else {
                old(self).awaited()
            },
            final(self).pending() == fewer(old(self).pending(), ids@.len() as int),
    {
        let expected: u64 = match self.latest_request_id {
            Some(id) => id,
            None => 0,
        };
        let mut latest: Option<usize> = None;
        let mut i: usize = 0;
        while i < ids.len()
            invariant
                i <= ids@.len(),
                self.next_request_id == old(self).next_request_id,
                self.latest_request_id == old(self).latest_request_id,
                self.pending_requests == fewer(old(self).pending_requests, i as int),
                match latest {
                    Some(k) => is_last_with(ids@.take(i as int), expected, k as int),
                    None => forall|j: int| 0 <= j < i ==> #[trigger] ids@[j] != expected,
                },
            decreases ids@.len() - i,
        {
            self.pending_requests = self.pending_requests.saturating_sub(1);
            if ids[i] == expected {
                latest = Some(i);
            }
            i += 1;
        }
        assert(ids@.take(i as int) =~= ids@);
        if latest.is_some() {
            self.latest_request_id = None;
        }
        latest
    }
}

/// The number that many requests after one.
pub open spec fn number_after(id: u64, requests: nat) -> u64
    decreases requests,
{
    if requests == 0 {
        id
    } else {
        next_number(number_after(id, (requests - 1) as nat))
    }
}

/// Numbers do not repeat until all have been used: the answer to a request cannot be
/// taken for that to a later one.
pub proof fn numbers_differ(id: u64, requests: nat)
    requires
        0 < requests <= u64::MAX,
    ensures
        number_after(id, requests) != id,
{
    lemma_number_after(id, requests);
}

proof fn lemma_number_after(id: u64, requests: nat)
    requires
        requests <= u64::MAX,
    ensures
        number_after(id, requests) == if id + requests <= u64::MAX {
            id + requests
        } else {
            id + requests - u64::MAX - 1
        },
    decreases requests,
{
    if requests > 0 {
        lemma_number_after(id, (requests - 1) as nat);
    }
}

/// Requests are counted up and down: one more for each that is sent, one less for each that
/// is answered, and never below none.
pub proof fn requests_are_counted(n: usize, by: int)
    requires
        by >= 0,
    ensures
        n < usize::MAX ==> one_more(n) == n + 1,
        n < usize::MAX ==> fewer(one_more(n), 1) == n,
        by <= n ==> fewer(n, by) + by == n,
        by > n ==> fewer(n, by) == 0,
{
}

} // verus!

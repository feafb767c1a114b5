use vstd::prelude::*;

verus! {

/// The durable count of minted tokens. It is absent until first written.
pub struct TokenCount {
    stored: Option<u64>,
}

impl TokenCount {
    /// The count as read: zero while nothing has been written.
    pub open spec fn value(&self) -> u64 {
        match self.stored_view() {
            Some(v) => v,
            None => 0,
        }
    }

    /// A count that has never been written.
    pub fn new() -> (r: TokenCount)
        ensures
            r.stored_view() == None::<u64>,
            r.value() == 0,
    {
        TokenCount { stored: None }
    }

    /// The count as found in the store: `None` if it was never written.
    pub fn from_stored(stored: Option<u64>) -> (r: TokenCount)
        ensures
            r.stored_view() == stored,
    {
        TokenCount { stored }
    }

    /// What is to be written back to the store.
    pub fn stored(&self) -> (r: Option<u64>)
        ensures
            r == self.stored_view(),
    {
        self.stored
    }

    /// The stored value, absent until first written.
    pub closed spec fn stored_view(&self) -> Option<u64> {
        self.stored
    }
}

/// The number of tokens minted so far; zero if the count was never written.
pub fn num_tokens(count: &TokenCount) -> (r: u64)
    ensures
        r == count.value(),
{
    match count.stored {
        Some(v) => v,
        None => 0,
    }
}

/// Adds one to the count, writes it back and returns the new value.
pub fn increment_tokens(count: &mut TokenCount) -> (r: u64)
    requires
        old(count).value() < u64::MAX,
    ensures
        r == old(count).value() + 1,
        final(count).value() == r,
        final(count).stored_view() == Some(r),
{
    let val = num_tokens(count) + 1;
    count.stored = Some(val);
    val
}

} // verus!

use vstd::prelude::*;

verus! {

/// The idle set of a socket-reuse pool.
///
/// The pool itself is pure bookkeeping: it hands out the most recently
/// returned element if one is idle, and otherwise reports that none is
/// available, in which case the caller creates a fresh socket (creation is
/// I/O and stays with the caller). The element type is generic, so the pool
/// holds whatever socket handle the caller works with.
pub struct SocketPool<T> {
    /// Sockets currently idle, in the order they were returned.
    pub idle: Vec<T>,
}

impl<T> SocketPool<T> {
    /// An empty pool: no socket is idle yet.
    pub fn new() -> (r: SocketPool<T>)
        ensures
            r.idle@.len() == 0,
    {
        SocketPool { idle: Vec::new() }
    }

    /// Take an idle socket out of the pool, most recently returned first.
    /// `None` means the pool is empty and the caller must create a socket;
    /// the pool never blocks and never creates one itself.
    pub fn get(&mut self) -> (r: Option<T>)
        ensures
            old(self).idle@.len() == 0 ==> r is None && final(self).idle@ == old(self).idle@,
            old(self).idle@.len() > 0 ==> (r matches Some(s) && s == old(self).idle@.last()
                && final(self).idle@ == old(self).idle@.drop_last()),
    {
        self.idle.pop()
    }

    /// Put a socket back into the idle set for later reuse. The caller must
    /// not touch the socket again without re-acquiring it.
    pub fn return_socket(&mut self, socket: T)
        ensures
            final(self).idle@ == old(self).idle@.push(socket),
    {
        self.idle.push(socket);
    }

    /// How many sockets are idle right now.
    pub fn idle_count(&self) -> (n: usize)
        ensures
            n == self.idle@.len(),
    {
        self.idle.len()
    }
}

/// The idle set after a batch of sockets has been returned to the pool.
pub open spec fn after_releases<T>(idle: Seq<T>, returned: Seq<T>) -> Seq<T> {
    idle + returned
}

/// The idle set after `n` sockets in a row have been taken from the pool.
pub open spec fn after_acquires<T>(idle: Seq<T>, n: int) -> Seq<T> {
    idle.take(idle.len() - n)
}

/// Returning a batch of sockets and then acquiring the same number leaks
/// nothing and creates nothing: every one of those acquires finds an idle
/// socket waiting, and afterwards the pool holds exactly what it began with.
pub proof fn lemma_pool_reuse<T>(idle: Seq<T>, returned: Seq<T>)
    ensures
        after_releases(idle, returned).len() == idle.len() + returned.len(),
        forall|k: int|
            0 <= k < returned.len() ==> after_acquires(
                after_releases(idle, returned),
                k,
            ).len() > 0,
        after_acquires(after_releases(idle, returned), returned.len() as int) == idle,
{
    assert(after_acquires(after_releases(idle, returned), returned.len() as int) =~= idle);
}

} // verus!

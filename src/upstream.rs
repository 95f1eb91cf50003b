use vstd::prelude::*;

verus! {

/// A backend whose address was resolved: the address as configured, the
/// network address it resolved to, and the route's forward buffer size.
pub struct ResolvedUpstream<A> {
    pub address: String,
    pub resolved: A,
    pub buffer_size: Option<u32>,
}

/// The resolved backends, at most one per configured address. An entry is
/// written once, when its address is first resolved, and never changes.
pub struct UpstreamCache<A> {
    entries: Vec<ResolvedUpstream<A>>,
}

impl<A> View for UpstreamCache<A> {
    type V = Seq<ResolvedUpstream<A>>;

    /// The entries, oldest first.
    closed spec fn view(&self) -> Seq<ResolvedUpstream<A>> {
        self.entries@
    }
}

/// Entry `i` of `entries` is the one for `address`.
pub open spec fn entry_for<A>(
    entries: Seq<ResolvedUpstream<A>>,
    i: int,
    address: Seq<char>,
) -> bool {
    0 <= i < entries.len() && entries[i].address@ == address
}

/// No two entries share an address.
pub open spec fn addresses_unique<A>(entries: Seq<ResolvedUpstream<A>>) -> bool {
    forall|i: int, j: int|
        0 <= i < entries.len() && 0 <= j < entries.len() && #[trigger] entries[i].address@
            == #[trigger] entries[j].address@ ==> i == j
}

/// Some entry of `entries` is the one for `address`.
pub open spec fn has_entry<A>(entries: Seq<ResolvedUpstream<A>>, address: Seq<char>) -> bool {
    exists|i: int| #[trigger] entry_for(entries, i, address)
}

impl<A> UpstreamCache<A> {
    pub open spec fn wf(&self) -> bool {
        addresses_unique(self@)
    }

    pub fn new() -> (r: UpstreamCache<A>)
        ensures
            r.wf(),
            r@ == Seq::<ResolvedUpstream<A>>::empty(),
    {
        UpstreamCache { entries: Vec::new() }
    }

    /// The entry for `address`, when it was resolved before.
    pub fn get(&self, address: &String) -> (r: Option<&ResolvedUpstream<A>>)
        requires
            self.wf(),
        ensures
            r is None <==> !has_entry(self@, address@),
            r matches Some(e) ==> exists|i: int|
                entry_for(self@, i, address@) && #[trigger] self@[i] == *e,
    {
        let mut i: usize = 0;
        while i < self.entries.len()
            invariant
                i <= self.entries@.len(),
                forall|k: int| 0 <= k < i ==> !entry_for(self.entries@, k, address@),
            decreases self.entries@.len() - i,
        {
            let e = &self.entries[i];
            if e.address == *address {
                assert(entry_for(self@, i as int, address@));
                return Some(e);
            }
            i = i + 1;
        }
        None
    }

    /// Records a resolution. The first entry for an address stays: a second
    /// resolution of the same address, made meanwhile by another
    /// connection, changes nothing.
    pub fn insert(&mut self, entry: ResolvedUpstream<A>) -> (added: bool)
        requires
            old(self).wf(),
        ensures
            final(self).wf(),
            added == !has_entry(old(self)@, entry.address@),
            added ==> final(self)@ == old(self)@.push(entry),
            !added ==> final(self)@ == old(self)@,
    {
        let ghost e = entry;
        match self.get(&entry.address) {
            Some(_) => false,
            None => {
                self.entries.push(entry);
                assert forall|i: int, j: int|
                    0 <= i < self@.len() && 0 <= j < self@.len() && #[trigger] self@[i].address@
                        == #[trigger] self@[j].address@ implies i == j by {
                    if i == self@.len() - 1 && j < i {
                        assert(entry_for(old(self)@, j, e.address@));
                    } else if j == self@.len() - 1 && i < j {
                        assert(entry_for(old(self)@, i, e.address@));
                    }
                }
                true
            },
        }
    }

    /// The number of resolved backends.
    pub fn len(&self) -> (r: usize)
        ensures
            r == self@.len(),
    {
        self.entries.len()
    }
}

} // verus!

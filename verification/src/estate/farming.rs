use vstd::prelude::*;
use std::collections::HashMap;
use crate::ds::stack::Stack;
use crate::estate::def::WholeNumber;

verus! {

/// The state of a farming estate as plain numbers.
pub struct FarmingView {
    /// Where each estate handed out so far begins, by address, and after
    /// them where the free land begins.
    pub edges: Seq<nat>,
    /// For each address, whether its estate is in use.
    pub occupied: Seq<bool>,
    /// For each size, the retained addresses of that size, the one retained
    /// last at the end. A size without retained addresses is absent.
    pub retained: Map<nat, Seq<nat>>,
}

impl FarmingView {
    /// The state of a new estate.
    pub open spec fn fresh() -> FarmingView {
        FarmingView { edges: seq![0nat], occupied: Seq::empty(), retained: Map::empty() }
    }

    /// Number of addresses handed out so far.
    pub open spec fn count(self) -> nat {
        self.occupied.len()
    }

    /// Where the free land begins.
    pub open spec fn frontier(self) -> nat {
        self.edges.last()
    }

    /// Size of the estate at `address`.
    pub open spec fn span(self, address: nat) -> nat {
        (self.edges[address as int + 1] - self.edges[address as int]) as nat
    }

    /// True if `address` was handed out and not retained since.
    pub open spec fn is_live(self, address: nat) -> bool {
        address < self.count() && self.occupied[address as int]
    }

    /// True if `address` was handed out and is retained now.
    pub open spec fn is_free(self, address: nat) -> bool {
        address < self.count() && !self.occupied[address as int]
    }

    /// True if `address` waits among the retained addresses of `size`.
    pub open spec fn shelved(self, size: nat, address: nat) -> bool {
        self.retained.contains_key(size) && self.retained[size].contains(address)
    }

    /// What holds of every estate whose addresses go up to `limit`: the
    /// estates lie one after the other, none empty, and end within the
    /// limit; and the retained addresses are those that are not in use, each
    /// listed once, under its size.
    pub open spec fn wf(self, limit: nat) -> bool {
        &&& self.edges.len() == self.occupied.len() + 1
        &&& forall|i: int| 0 <= i < self.edges.len() ==> #[trigger] self.edges[i] >= i
        &&& forall|i: int, j: int|
            0 <= i < j < self.edges.len() ==> #[trigger] self.edges[i] < #[trigger] self.edges[j]
        &&& self.frontier() <= limit
        &&& forall|size: nat| #[trigger]
            self.retained.contains_key(size) ==> self.retained[size].len() > 0
                && self.retained[size].no_duplicates()
        &&& forall|size: nat, i: int|
            self.retained.contains_key(size) && 0 <= i < self.retained[size].len()
                ==> self.is_free(#[trigger] self.retained[size][i]) && self.span(
                self.retained[size][i],
            ) == size
        &&& forall|address: nat| #[trigger]
            self.is_free(address) ==> self.shelved(self.span(address), address)
    }

    /// True if an estate of `size` can be handed out: the size is not zero,
    /// and fresh land of that size would end within `limit`.
    pub open spec fn can_allot(self, size: nat, limit: nat) -> bool {
        size > 0 && self.frontier() + size <= limit
    }

    /// The address that `allot` hands out for `size`: the one of that size
    /// retained last, or else the next fresh address.
    pub open spec fn allotted(self, size: nat) -> nat {
        if self.retained.contains_key(size) {
            self.retained[size].last()
        } else {
            self.count()
        }
    }

    /// The state after fresh land of `size` was taken.
    pub open spec fn extend(self, size: nat) -> FarmingView {
        FarmingView {
            edges: self.edges.push(self.frontier() + size),
            occupied: self.occupied.push(true),
            retained: self.retained,
        }
    }

    /// The state after the address of `size` retained last was handed out
    /// again.
    pub open spec fn reuse(self, size: nat) -> FarmingView {
        let rest = self.retained[size].drop_last();
        FarmingView {
            edges: self.edges,
            occupied: self.occupied.update(self.retained[size].last() as int, true),
            retained: if rest.len() == 0 {
                self.retained.remove(size)
            } else {
                self.retained.insert(size, rest)
            },
        }
    }

    /// The state after `allot` for `size`.
    pub open spec fn allot(self, size: nat) -> FarmingView {
        if self.retained.contains_key(size) {
            self.reuse(size)
        } else {
            self.extend(size)
        }
    }

    /// The state after `address` was retained.
    pub open spec fn retain(self, address: nat) -> FarmingView {
        let size = self.span(address);
        let shelf = if self.retained.contains_key(size) {
            self.retained[size]
        } else {
            Seq::empty()
        };
        FarmingView {
            edges: self.edges,
            occupied: self.occupied.update(address as int, false),
            retained: self.retained.insert(size, shelf.push(address)),
        }
    }

    /// True if an estate of `size` can be registered at `location`: the
    /// free land begins there, the size is not zero, and the estate ends
    /// within `limit`.
    pub open spec fn can_register(self, location: nat, size: nat, limit: nat) -> bool {
        location == self.frontier() && self.can_allot(size, limit)
    }

    /// Where the estate of `address` begins, if the address is live.
    pub open spec fn location(self, address: nat) -> Option<nat> {
        if self.is_live(address) {
            Some(self.edges[address as int])
        } else {
            None
        }
    }

    /// Size of the estate of `address`, if the address is live.
    pub open spec fn size(self, address: nat) -> Option<nat> {
        if self.is_live(address) {
            Some(self.span(address))
        } else {
            None
        }
    }

    /// Taking fresh land keeps the estate in order, makes the next fresh
    /// address live, and changes no other address.
    pub proof fn lemma_extend(self, size: nat, limit: nat)
        requires
            self.wf(limit),
            self.can_allot(size, limit),
        ensures
            self.extend(size).wf(limit),
            self.extend(size).count() == self.count() + 1,
            self.extend(size).frontier() == self.frontier() + size,
            !self.is_live(self.count()),
            self.extend(size).location(self.count()) == Some(self.frontier()),
            self.extend(size).size(self.count()) == Some(size),
            forall|other: nat|
                other != self.count() ==> self.extend(size).is_live(other) == self.is_live(other)
                    && self.extend(size).location(other) == self.location(other)
                    && self.extend(size).size(other) == self.size(other),
    {
        let next = self.extend(size);
        let n = self.count();
        assert(self.edges[n as int] >= n);
        assert forall|i: int| 0 <= i < next.edges.len() implies #[trigger] next.edges[i] >= i by {
            if i <= n {
                assert(next.edges[i] == self.edges[i]);
            }
        }
        assert forall|i: int, j: int| 0 <= i < j < next.edges.len() implies #[trigger] next.edges[i]
            < #[trigger] next.edges[j] by {
            if j <= n {
                assert(self.edges[i] < self.edges[j]);
            } else if i < n {
                assert(self.edges[i] < self.edges[n as int]);
            }
        }
        assert forall|address: nat| address < n implies next.span(address) == self.span(
            address,
        ) by {}
        assert forall|address: nat| next.is_free(address) == self.is_free(address) by {}
        assert forall|sz: nat, i: int|
            next.retained.contains_key(sz) && 0 <= i < next.retained[sz].len() implies next.is_free(
            #[trigger] next.retained[sz][i],
        ) && next.span(next.retained[sz][i]) == sz by {
            assert(self.is_free(self.retained[sz][i]));
        }
        assert forall|address: nat| #[trigger] next.is_free(address) implies next.shelved(
            next.span(address),
            address,
        ) by {
            assert(self.is_free(address));
        }
    }

    /// Handing out a retained address keeps the estate in order, makes that
    /// address live where it lay before, and changes no other address.
    pub proof fn lemma_reuse(self, size: nat, limit: nat)
        requires
            self.wf(limit),
            self.retained.contains_key(size),
        ensures
            self.reuse(size).wf(limit),
            self.is_free(self.allotted(size)),
            self.span(self.allotted(size)) == size,
            self.reuse(size).count() == self.count(),
            self.reuse(size).frontier() == self.frontier(),
            self.reuse(size).location(self.allotted(size)) == Some(
                self.edges[self.allotted(size) as int],
            ),
            self.reuse(size).size(self.allotted(size)) == Some(size),
            forall|other: nat|
                other != self.allotted(size) ==> self.reuse(size).is_live(other) == self.is_live(
                    other,
                ) && self.reuse(size).location(other) == self.location(other) && self.reuse(
                    size,
                ).size(other) == self.size(other),
    {
        let next = self.reuse(size);
        let shelf = self.retained[size];
        let rest = shelf.drop_last();
        let a = shelf.last();
        let last = shelf.len() - 1;
        assert(shelf[last] == a);
        assert(self.is_free(a) && self.span(a) == size);
        assert forall|address: nat| next.span(address) == self.span(address) by {}
        assert forall|sz: nat| #[trigger] next.retained.contains_key(sz) implies next.retained[sz].len()
            > 0 && next.retained[sz].no_duplicates() by {
            assert(self.retained.contains_key(sz));
        }
        assert forall|sz: nat, i: int|
            next.retained.contains_key(sz) && 0 <= i < next.retained[sz].len() implies next.is_free(
            #[trigger] next.retained[sz][i],
        ) && next.span(next.retained[sz][i]) == sz by {
            assert(self.retained.contains_key(sz));
            let b = next.retained[sz][i];
            assert(self.retained[sz][i] == b);
            assert(self.is_free(b) && self.span(b) == sz);
            if sz == size {
                assert(shelf[i] != shelf[last]);
            }
        }
        assert forall|address: nat| #[trigger] next.is_free(address) implies next.shelved(
            next.span(address),
            address,
        ) by {
            assert(self.is_free(address));
            let sz = self.span(address);
            assert(self.shelved(sz, address));
            let i = choose|i: int| 0 <= i < self.retained[sz].len() && self.retained[sz][i] == address;
            if sz == size {
                assert(i != last);
                assert(rest[i] == address);
            } else {
                assert(next.retained[sz][i] == address);
            }
        }
    }

    /// An address is handed out only while it is not live, and is live
    /// afterwards; no other address changes.
    pub proof fn lemma_allot_is_fresh(self, size: nat, limit: nat)
        requires
            self.wf(limit),
            self.can_allot(size, limit),
        ensures
            self.allot(size).wf(limit),
            !self.is_live(self.allotted(size)),
            self.allot(size).is_live(self.allotted(size)),
            self.allot(size).size(self.allotted(size)) == Some(size),
            !self.allot(size).shelved(size, self.allotted(size)),
            forall|other: nat|
                other != self.allotted(size) ==> self.allot(size).is_live(other) == self.is_live(
                    other,
                ) && self.allot(size).location(other) == self.location(other) && self.allot(
                    size,
                ).size(other) == self.size(other),
    {
        if self.retained.contains_key(size) {
            self.lemma_reuse(size, limit);
        } else {
            self.lemma_extend(size, limit);
        }
        let next = self.allot(size);
        let a = self.allotted(size);
        if next.shelved(size, a) {
            let i = choose|i: int| 0 <= i < next.retained[size].len() && next.retained[size][i] == a;
            assert(next.is_free(next.retained[size][i]));
        }
    }

    /// A live address that is retained is no longer live, and waits to be
    /// handed out for its size; no other address changes.
    pub proof fn lemma_retain_frees(self, address: nat, limit: nat)
        requires
            self.wf(limit),
            self.is_live(address),
        ensures
            self.retain(address).wf(limit),
            !self.retain(address).is_live(address),
            self.retain(address).location(address) is None,
            self.retain(address).size(address) is None,
            self.retain(address).allotted(self.span(address)) == address,
            self.retain(address).count() == self.count(),
            self.retain(address).frontier() == self.frontier(),
            forall|other: nat|
                other != address ==> self.retain(address).is_live(other) == self.is_live(other)
                    && self.retain(address).location(other) == self.location(other)
                    && self.retain(address).size(other) == self.size(other),
    {
        let next = self.retain(address);
        let size = self.span(address);
        let shelf = if self.retained.contains_key(size) {
            self.retained[size]
        } else {
            Seq::empty()
        };
        let n = shelf.len() as int;
        assert(next.retained[size] == shelf.push(address));
        assert(next.retained[size][n] == address);
        assert forall|a: nat| next.span(a) == self.span(a) by {}
        assert forall|i: int| 0 <= i < n implies shelf[i] != address by {
            assert(self.is_free(self.retained[size][i]));
        }
        assert forall|sz: nat| #[trigger] next.retained.contains_key(sz) implies next.retained[sz].len()
            > 0 && next.retained[sz].no_duplicates() by {
            if sz != size {
                assert(self.retained.contains_key(sz));
            }
        }
        assert forall|sz: nat, i: int|
            next.retained.contains_key(sz) && 0 <= i < next.retained[sz].len() implies next.is_free(
            #[trigger] next.retained[sz][i],
        ) && next.span(next.retained[sz][i]) == sz by {
            if sz == size && i == n {
            } else {
                assert(self.retained.contains_key(sz));
                let b = self.retained[sz][i];
                assert(next.retained[sz][i] == b);
                assert(self.is_free(b) && self.span(b) == sz);
            }
        }
        assert forall|a: nat| #[trigger] next.is_free(a) implies next.shelved(next.span(a), a) by {
            if a != address {
                assert(self.is_free(a));
                let sz = self.span(a);
                assert(self.shelved(sz, a));
                let i = choose|i: int| 0 <= i < self.retained[sz].len() && self.retained[sz][i] == a;
                assert(next.retained[sz][i] == a);
            }
        }
    }
}

/// One call to a farming estate.
pub enum FarmingCall {
    Allot(nat),
    Retain(nat),
}

impl FarmingView {
    /// True if `call` may be made in this state.
    pub open spec fn permits(self, call: FarmingCall, limit: nat) -> bool {
        match call {
            FarmingCall::Allot(size) => self.can_allot(size, limit),
            FarmingCall::Retain(address) => self.is_live(address),
        }
    }

    /// The state after `call`.
    pub open spec fn after(self, call: FarmingCall) -> FarmingView {
        match call {
            FarmingCall::Allot(size) => self.allot(size),
            FarmingCall::Retain(address) => self.retain(address),
        }
    }

    /// The address that `call` hands out, if it is an `allot`.
    pub open spec fn answer(self, call: FarmingCall) -> Option<nat> {
        match call {
            FarmingCall::Allot(size) => Some(self.allotted(size)),
            FarmingCall::Retain(_) => None,
        }
    }

    /// The state after the calls of `calls`, one after the other.
    pub open spec fn after_all(self, calls: Seq<FarmingCall>) -> FarmingView
        decreases calls.len(),
    {
        if calls.len() == 0 {
            self
        } else {
            self.after_all(calls.drop_last()).after(calls.last())
        }
    }

    /// True if each call of `calls` may be made in the state that the calls
    /// before it leave.
    pub open spec fn permits_all(self, calls: Seq<FarmingCall>, limit: nat) -> bool
        decreases calls.len(),
    {
        calls.len() == 0 || {
            &&& self.permits_all(calls.drop_last(), limit)
            &&& self.after_all(calls.drop_last()).permits(calls.last(), limit)
        }
    }

    /// Calls that may be made leave the estate in order, and so do the
    /// first `count` of them.
    pub proof fn lemma_calls_keep_order(self, calls: Seq<FarmingCall>, limit: nat, count: int)
        requires
            self.wf(limit),
            self.permits_all(calls, limit),
            0 <= count <= calls.len(),
        ensures
            self.permits_all(calls.take(count), limit),
            self.after_all(calls.take(count)).wf(limit),
            count < calls.len() ==> self.after_all(calls.take(count)).permits(calls[count], limit),
            count < calls.len() ==> self.after_all(calls.take(count + 1)) == self.after_all(
                calls.take(count),
            ).after(calls[count]),
        decreases calls.len() - count,
    {
        if count == calls.len() {
            assert(calls.take(count) =~= calls);
            self.lemma_order_after(calls, limit);
        } else {
            self.lemma_calls_keep_order(calls, limit, count + 1);
            assert(calls.take(count + 1).drop_last() =~= calls.take(count));
            self.lemma_order_after(calls.take(count), limit);
        }
    }

    /// Calls that may be made leave the estate in order.
    pub proof fn lemma_order_after(self, calls: Seq<FarmingCall>, limit: nat)
        requires
            self.wf(limit),
            self.permits_all(calls, limit),
        ensures
            self.after_all(calls).wf(limit),
        decreases calls.len(),
    {
        if calls.len() > 0 {
            self.lemma_order_after(calls.drop_last(), limit);
            let before = self.after_all(calls.drop_last());
            match calls.last() {
                FarmingCall::Allot(size) => {
                    before.lemma_allot_is_fresh(size, limit);
                },
                FarmingCall::Retain(address) => {
                    before.lemma_retain_frees(address, limit);
                },
            }
        }
    }

    /// An address that is live after the first `since` calls is live after
    /// the first `until`, if no call between retains it.
    pub proof fn lemma_stays_live(
        self,
        calls: Seq<FarmingCall>,
        limit: nat,
        address: nat,
        since: int,
        until: int,
    )
        requires
            self.wf(limit),
            self.permits_all(calls, limit),
            0 <= since <= until <= calls.len(),
            self.after_all(calls.take(since)).is_live(address),
            forall|k: int| since <= k < until ==> calls[k] != FarmingCall::Retain(address),
        ensures
            self.after_all(calls.take(until)).is_live(address),
        decreases until - since,
    {
        if since < until {
            self.lemma_stays_live(calls, limit, address, since, until - 1);
            self.lemma_calls_keep_order(calls, limit, until - 1);
            let before = self.after_all(calls.take(until - 1));
            match calls[until - 1] {
                FarmingCall::Allot(size) => {
                    before.lemma_allot_is_fresh(size, limit);
                },
                FarmingCall::Retain(other) => {
                    before.lemma_retain_frees(other, limit);
                },
            }
        }
    }

    /// Allocator reuse. In any run of calls that may be made, an address
    /// that `allot` hands out is not live at that time; so two calls of
    /// `allot` hand out the same address only if a call between them retains
    /// it: no two live addresses are the same.
    pub proof fn lemma_live_addresses_are_unique(
        self,
        calls: Seq<FarmingCall>,
        limit: nat,
        first: int,
        second: int,
    )
        requires
            self.wf(limit),
            self.permits_all(calls, limit),
            0 <= first < second < calls.len(),
            self.after_all(calls.take(first)).answer(calls[first]) is Some,
            self.after_all(calls.take(first)).answer(calls[first]) == self.after_all(
                calls.take(second),
            ).answer(calls[second]),
        ensures
            !self.after_all(calls.take(first)).is_live(
                self.after_all(calls.take(first)).answer(calls[first])->0,
            ),
            exists|k: int|
                first < k < second && #[trigger] calls[k] == FarmingCall::Retain(
                    self.after_all(calls.take(first)).answer(calls[first])->0,
                ),
    {
        let early = self.after_all(calls.take(first));
        let late = self.after_all(calls.take(second));
        let address = early.answer(calls[first])->0;
        self.lemma_calls_keep_order(calls, limit, first);
        self.lemma_calls_keep_order(calls, limit, second);
        match calls[first] {
            FarmingCall::Allot(size) => {
                early.lemma_allot_is_fresh(size, limit);
            },
            FarmingCall::Retain(_) => {},
        }
        match calls[second] {
            FarmingCall::Allot(size) => {
                late.lemma_allot_is_fresh(size, limit);
            },
            FarmingCall::Retain(_) => {},
        }
        if forall|k: int| first < k < second ==> calls[k] != FarmingCall::Retain(address) {
            self.lemma_stays_live(calls, limit, address, first + 1, second);
            assert(false);
        }
    }
}

type Location = usize;

type Size = usize;

#[derive(Clone, Copy)]
enum State {
    Occupied(Location),
    Retained(Location),
}

impl State {
    spec fn location(self) -> nat {
        match self {
            State::Occupied(location) => location as nat,
            State::Retained(location) => location as nat,
        }
    }
}

/// An allocator of addresses for estates of any size. The estates lie one
/// after the other; a retained address is handed out again only for the
/// size it had.
pub struct Farming<Address> {
    max: usize,
    locations: Vec<State>,
    retained: HashMap<Size, Stack<Address>>,
}

impl<Address: WholeNumber> View for Farming<Address> {
    type V = FarmingView;

    closed spec fn view(&self) -> FarmingView {
        FarmingView {
            edges: self.locations@.map_values(|state: State| state.location()),
            occupied: self.locations@.drop_last().map_values(|state: State| state is Occupied),
            retained: Map::new(
                |size: nat| size <= usize::MAX && self.retained@.contains_key(size as usize),
                |size: nat|
                    self.retained@[size as usize]@.map_values(|address: Address| address.index()),
            ),
        }
    }
}

impl<Address: WholeNumber> Farming<Address> {
    /// What holds of every estate that `new` made and the methods changed.
    pub closed spec fn wf(&self) -> bool {
        &&& Address::limit() <= usize::MAX
        &&& self.max == Address::limit()
        &&& self.locations@.len() > 0
        &&& self.locations@.last() is Retained
        &&& self@.wf(Address::limit())
    }

    /// The view of an estate in order is in order.
    pub proof fn lemma_view_wf(&self)
        requires
            self.wf(),
        ensures
            self@.wf(Address::limit()),
            Address::limit() <= usize::MAX,
    {
    }

    /// A new estate. The address type must not hold more than a `usize`
    /// does.
    pub fn new() -> (estate: Self)
        requires
            Address::limit() <= usize::MAX,
        ensures
            estate.wf(),
            estate@ == FarmingView::fresh(),
    {
        let mut locations: Vec<State> = Vec::new();
        locations.push(State::Retained(0));
        let estate = Self {
            max: Address::get_max().to_usize(),
            locations,
            retained: HashMap::new(),
        };
        proof {
            assert(estate@.edges =~= seq![0nat]);
            assert(estate@.occupied =~= Seq::<bool>::empty());
            assert(estate@.retained =~= Map::<nat, Seq<nat>>::empty());
        }
        estate
    }

    /// True if `allot` can hand out an estate of `size`.
    pub fn can_allot(&self, size: Size) -> (can: bool)
        requires
            self.wf(),
        ensures
            can == self@.can_allot(size as nat, Address::limit()),
    {
        let last = self.frontier();
        size > 0 && size <= self.max - last
    }

    /// Where the free land begins.
    pub fn frontier(&self) -> (location: Location)
        requires
            self.wf(),
        ensures
            location == self@.frontier(),
    {
        let len = self.locations.len();
        match self.locations[len - 1] {
            State::Occupied(location) => location,
            State::Retained(location) => location,
        }
    }

    /// The retained addresses of `size` as the view lists them.
    proof fn lemma_shelf(&self, size: usize)
        requires
            self.wf(),
            self.retained@.contains_key(size),
        ensures
            self@.retained.contains_key(size as nat),
            self@.retained[size as nat] == self.retained@[size]@.map_values(
                |address: Address| address.index(),
            ),
            self.retained@[size]@.len() > 0,
            self@.is_free(self.retained@[size]@.last().index()),
            self@.allotted(size as nat) == self.retained@[size]@.last().index(),
            self.locations@[self.retained@[size]@.last().index() as int] is Retained,
    {
        let shelf = self.retained@[size]@;
        let listed = self@.retained[size as nat];
        assert(self@.retained.contains_key(size as nat));
        assert(listed.len() > 0);
        let last = listed.len() - 1;
        assert(listed[last] == shelf.last().index());
        assert(self@.is_free(listed[last]));
        let at = listed[last] as int;
        assert(self.locations@.drop_last()[at] == self.locations@[at]);
    }

    /// The view after a retained address of `size` was handed out again.
    proof fn lemma_reused(before: Self, after: Self, size: usize, rest: Stack<Address>)
        requires
            before.wf(),
            before.retained@.contains_key(size),
            rest@ == before.retained@[size]@.drop_last(),
            after.max == before.max,
            after.locations@ == before.locations@.update(
                before.retained@[size]@.last().index() as int,
                State::Occupied(
                    before.locations@[before.retained@[size]@.last().index() as int]->Retained_0,
                ),
            ),
            after.retained@ == (if rest@.len() == 0 {
                before.retained@.remove(size)
            } else {
                before.retained@.insert(size, rest)
            }),
        ensures
            after@ == before@.reuse(size as nat),
            after.wf(),
    {
        before.lemma_shelf(size);
        before@.lemma_reuse(size as nat, Address::limit());
        let next = before@.reuse(size as nat);
        let at = before.retained@[size]@.last().index() as int;
        assert(after@.edges =~= next.edges);
        assert(after@.occupied =~= next.occupied);
        assert(rest@.map_values(|address: Address| address.index()) =~= before@.retained[size as nat].drop_last());
        assert forall|sz: nat| after@.retained.contains_key(sz) == next.retained.contains_key(
            sz,
        ) by {}
        assert forall|sz: nat| #[trigger] next.retained.contains_key(sz) implies after@.retained[sz]
            == next.retained[sz] by {
            if sz != size as nat {
                assert(after.retained@[sz as usize] == before.retained@[sz as usize]);
            }
        }
        assert(after@.retained =~= next.retained);
        assert(after@ == next);
    }

    /// The view after fresh land of `size` was taken.
    proof fn lemma_extended(before: Self, after: Self, size: usize)
        requires
            before.wf(),
            before@.can_allot(size as nat, Address::limit()),
            after.max == before.max,
            after.locations@ == before.locations@.update(
                before.locations@.len() - 1,
                State::Occupied(before@.frontier() as usize),
            ).push(State::Retained((before@.frontier() + size) as usize)),
            after.retained@ == before.retained@,
        ensures
            after@ == before@.extend(size as nat),
            after.wf(),
            before@.count() == before.locations@.len() - 1,
            before@.count() < Address::limit(),
    {
        before@.lemma_extend(size as nat, Address::limit());
        let next = before@.extend(size as nat);
        let n = before.locations@.len() - 1;
        assert(before@.edges[n] >= n);
        assert(after@.edges =~= next.edges);
        assert(after@.occupied =~= next.occupied);
        assert(after@.retained =~= next.retained);
        assert(after@ == next);
    }

    /// Hands out an address for an estate of `size`: the address of that
    /// size retained last, or else the next fresh address, whose estate
    /// begins where the free land began.
    pub fn allot(&mut self, size: Size) -> (address: Address)
        requires
            old(self).wf(),
            old(self)@.can_allot(size as nat, Address::limit()),
        ensures
            final(self).wf(),
            final(self)@ == old(self)@.allot(size as nat),
            address.index() == old(self)@.allotted(size as nat),
            !old(self)@.is_live(address.index()),
            final(self)@.is_live(address.index()),
    {
        proof {
            old(self)@.lemma_allot_is_fresh(size as nat, Address::limit());
        }
        let len = self.locations.len();
        let location = self.frontier();
        let some_retained = self.retained.remove(&size);

        if let Some(mut retained) = some_retained {
            proof {
                old(self).lemma_shelf(size);
            }
            let address = retained.take().unwrap();
            proof {
                address.lemma_index_within_limit();
            }
            let address_as_usize = address.to_usize();
            let ghost rest = retained;

            if !retained.is_empty() {
                self.retained.insert(size, retained);
            }
            let state = self.locations[address_as_usize];

            match state {
                State::Retained(location) => {
                    self.locations[address_as_usize] = State::Occupied(location);
                },
                State::Occupied(_) => unreached(),
            }
            proof {
                assert(self.retained@ =~= (if rest@.len() == 0 {
                    old(self).retained@.remove(size)
                } else {
                    old(self).retained@.insert(size, rest)
                }));
                Self::lemma_reused(*old(self), *self, size, rest);
            }
            address
        } else {
            proof {
                assert(self.retained@ =~= old(self).retained@);
            }
            self.locations[len - 1] = State::Occupied(location);
            self.locations.push(State::Retained(location + size));
            proof {
                Self::lemma_extended(*old(self), *self, size);
                assert(!old(self)@.retained.contains_key(size as nat));
            }
            Address::from_usize(len - 1)
        }
    }

    /// The view after a live address was retained.
    proof fn lemma_retained(before: Self, after: Self, address: Address, shelf: Stack<Address>)
        requires
            before.wf(),
            before@.is_live(address.index()),
            before@.span(address.index()) <= usize::MAX,
            shelf@ == (if before.retained@.contains_key(before@.span(address.index()) as usize) {
                before.retained@[before@.span(address.index()) as usize]@
            } else {
                Seq::empty()
            }).push(address),
            after.max == before.max,
            after.locations@ == before.locations@.update(
                address.index() as int,
                State::Retained(before.locations@[address.index() as int]->Occupied_0),
            ),
            after.retained@ == before.retained@.insert(
                before@.span(address.index()) as usize,
                shelf,
            ),
        ensures
            after@ == before@.retain(address.index()),
            after.wf(),
    {
        let at = address.index();
        let size = before@.span(at);
        before@.lemma_retain_frees(at, Address::limit());
        let next = before@.retain(at);
        assert(before.locations@.drop_last()[at as int] == before.locations@[at as int]);
        assert(after@.edges =~= next.edges);
        assert(after@.occupied =~= next.occupied);
        assert(shelf@.map_values(|address: Address| address.index()) =~= next.retained[size]);
        assert forall|sz: nat| after@.retained.contains_key(sz) == next.retained.contains_key(
            sz,
        ) by {}
        assert forall|sz: nat| #[trigger] next.retained.contains_key(sz) implies after@.retained[sz]
            == next.retained[sz] by {
            if sz != size {
                assert(after.retained@[sz as usize] == before.retained@[sz as usize]);
            }
        }
        assert(after@.retained =~= next.retained);
        assert(after@ == next);
    }

    /// Takes `address` back, to be handed out again by a later `allot` for
    /// the size of its estate.
    pub fn retain(&mut self, address: Address)
        requires
            old(self).wf(),
            old(self)@.is_live(address.index()),
        ensures
            final(self).wf(),
            final(self)@ == old(self)@.retain(address.index()),
            !final(self)@.is_live(address.index()),
    {
        proof {
            address.lemma_index_within_limit();
            old(self)@.lemma_retain_frees(address.index(), Address::limit());
        }
        let address_as_usize = address.to_usize();
        let state = self.locations[address_as_usize];
        assert(self.locations@.drop_last()[address_as_usize as int] == state);

        match state {
            State::Retained(_) => unreached(),
            State::Occupied(location) => {
                let size = self.get_size(address).unwrap();
                let has_size = self.retained.remove(&size);
                let mut stack = match has_size {
                    Some(stack) => stack,
                    None => Stack::new(),
                };
                stack.add(address);
                let ghost shelf = stack;
                self.retained.insert(size, stack);
                self.locations[address_as_usize] = State::Retained(location);
                proof {
                    assert(self.retained@ =~= old(self).retained@.insert(size, shelf));
                    Self::lemma_retained(*old(self), *self, address, shelf);
                }
            },
        }
    }

    /// Where the estate of `address` begins, if the address is live.
    pub fn get_location(&self, address: Address) -> (location: Option<Location>)
        requires
            self.wf(),
        ensures
            match location {
                Some(at) => self@.location(address.index()) == Some(at as nat),
                None => self@.location(address.index()) is None,
            },
    {
        proof {
            address.lemma_index_within_limit();
        }
        let len = self.locations.len();
        let address_as_usize = address.to_usize();

        if address_as_usize < len - 1 {
            let state = self.locations[address_as_usize];
            assert(self.locations@.drop_last()[address_as_usize as int] == state);

            match state {
                State::Occupied(value) => Some(value),
                State::Retained(_) => None,
            }
        } else {
            None
        }
    }

    /// Size of the estate of `address`, if the address is live.
    pub fn get_size(&self, address: Address) -> (size: Option<Size>)
        requires
            self.wf(),
        ensures
            match size {
                Some(blocks) => self@.size(address.index()) == Some(blocks as nat),
                None => self@.size(address.index()) is None,
            },
    {
        proof {
            address.lemma_index_within_limit();
        }
        let len = self.locations.len();
        let address_as_usize = address.to_usize();

        if address_as_usize < len - 1 {
            let state = self.locations[address_as_usize];
            let next_state = &self.locations[address_as_usize + 1];
            assert(self.locations@.drop_last()[address_as_usize as int] == state);
            assert(self@.edges[address_as_usize as int] < self@.edges[address_as_usize + 1]);

            match state {
                State::Occupied(value) => {
                    match next_state {
                        State::Occupied(next_value) | State::Retained(next_value) => {
                            Some(*next_value - value)
                        },
                    }
                },
                State::Retained(_) => None,
            }
        } else {
            None
        }
    }

    /// True if `register` can record an estate of `size` at `location`.
    pub fn can_register(&self, location: Location, size: Size) -> (can: bool)
        requires
            self.wf(),
        ensures
            can == self@.can_register(location as nat, size as nat, Address::limit()),
    {
        location == self.frontier() && self.can_allot(size)
    }

    /// Records that an estate of `size` at `location`, where the free land
    /// begins, is in use, and gives its address. With this an estate is
    /// rebuilt from records met in the order of their locations; a retained
    /// address is never handed out here.
    pub fn register(&mut self, location: Location, size: Size) -> (address: Address)
        requires
            old(self).wf(),
            old(self)@.can_register(location as nat, size as nat, Address::limit()),
        ensures
            final(self).wf(),
            final(self)@ == old(self)@.extend(size as nat),
            address.index() == old(self)@.count(),
            final(self)@.is_live(address.index()),
    {
        proof {
            old(self)@.lemma_extend(size as nat, Address::limit());
        }
        let len = self.locations.len();
        self.locations[len - 1] = State::Occupied(location);
        self.locations.push(State::Retained(location + size));
        proof {
            Self::lemma_extended(*old(self), *self, size);
        }
        Address::from_usize(len - 1)
    }
}

} // verus!

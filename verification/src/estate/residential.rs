use vstd::prelude::*;
use std::collections::HashSet;
use crate::ds::stack::Stack;
use crate::estate::def::WholeNumber;

verus! {

/// The state of a residential estate as plain numbers.
pub struct ResidentialView {
    /// Size of every slot.
    pub size: nat,
    /// The address that was never handed out and comes next.
    pub pointer: nat,
    /// The retained addresses, the one retained last at the end.
    pub retained: Seq<nat>,
}

impl ResidentialView {
    /// The state of a new estate with slots of `size`.
    pub open spec fn fresh(size: nat) -> ResidentialView {
        ResidentialView { size, pointer: 0, retained: Seq::empty() }
    }

    /// What holds of every estate whose addresses go up to `limit`: the slot
    /// size is not zero, the land handed out so far ends within the limit, and
    /// every retained address was handed out once and is retained once.
    pub open spec fn wf(self, limit: nat) -> bool {
        &&& self.size > 0
        &&& self.pointer * self.size <= limit
        &&& self.retained.no_duplicates()
        &&& forall|i: int| 0 <= i < self.retained.len() ==> self.retained[i] < self.pointer
    }

    /// True if `address` was handed out and not retained since.
    pub open spec fn is_live(self, address: nat) -> bool {
        address < self.pointer && !self.retained.contains(address)
    }

    /// True if an address can be handed out: a retained one is waiting, or
    /// one more slot ends within `limit`.
    pub open spec fn can_allot(self, limit: nat) -> bool {
        self.retained.len() > 0 || (self.pointer + 1) * self.size <= limit
    }

    /// The address that `allot` hands out: the one retained last, or else the
    /// pointer.
    pub open spec fn allotted(self) -> nat {
        if self.retained.len() > 0 {
            self.retained.last()
        } else {
            self.pointer
        }
    }

    /// The state after `allot`.
    pub open spec fn allot(self) -> ResidentialView {
        if self.retained.len() > 0 {
            ResidentialView { retained: self.retained.drop_last(), ..self }
        } else {
            ResidentialView { pointer: self.pointer + 1, ..self }
        }
    }

    /// The state after `allot` was called `times` times: as many retained
    /// addresses as there are went out, the one retained last first, and
    /// fresh ones for the rest.
    pub open spec fn allot_many(self, times: nat) -> ResidentialView {
        if times <= self.retained.len() {
            ResidentialView {
                retained: self.retained.subrange(0, self.retained.len() - times),
                ..self
            }
        } else {
            ResidentialView {
                retained: Seq::empty(),
                pointer: (self.pointer + times - self.retained.len()) as nat,
                ..self
            }
        }
    }

    /// True if `allot` can be called `times` times: the land that is
    /// handed out then ends within `limit`.
    pub open spec fn can_allot_many(self, times: nat, limit: nat) -> bool {
        self.allot_many(times).pointer * self.size <= limit
    }

    /// The state after `address` was retained.
    pub open spec fn retain(self, address: nat) -> ResidentialView {
        ResidentialView { retained: self.retained.push(address), ..self }
    }

    /// True if `location` is where the next fresh slot starts and the slot
    /// ends within `limit`.
    pub open spec fn can_register(self, location: nat, limit: nat) -> bool {
        location == self.pointer * self.size && location + self.size <= limit
    }

    /// The state after a slot was registered: the pointer moved on by one.
    pub open spec fn register(self) -> ResidentialView {
        ResidentialView { pointer: self.pointer + 1, ..self }
    }

    /// Where the slot of `address` starts, if the address is live.
    pub open spec fn location(self, address: nat) -> Option<nat> {
        if self.is_live(address) {
            Some(address * self.size)
        } else {
            None
        }
    }

    /// An address is handed out only while it is not live, and is live
    /// afterwards; no other address changes.
    pub proof fn lemma_allot_is_fresh(self, limit: nat)
        requires
            self.wf(limit),
            self.can_allot(limit),
        ensures
            self.allot().wf(limit),
            !self.is_live(self.allotted()),
            self.allot().is_live(self.allotted()),
            forall|other: nat|
                other != self.allotted() ==> self.allot().is_live(other) == self.is_live(other),
    {
        let next = self.allot();
        let a = self.allotted();
        if self.retained.len() > 0 {
            let last = self.retained.len() - 1;
            assert(self.retained[last] == a);
            assert(next.retained.no_duplicates());
            if next.retained.contains(a) {
                let i = choose|i: int| 0 <= i < next.retained.len() && next.retained[i] == a;
                assert(self.retained[i] == a);
            }
            assert forall|other: nat| other != a implies next.is_live(other) == self.is_live(
                other,
            ) by {
                if self.retained.contains(other) {
                    let i = choose|i: int| 0 <= i < self.retained.len() && self.retained[i] == other;
                    assert(next.retained[i] == other);
                }
                if next.retained.contains(other) {
                    let i = choose|i: int| 0 <= i < next.retained.len() && next.retained[i] == other;
                    assert(self.retained[i] == other);
                }
            }
        } else {
            assert((self.pointer + 1) * self.size == self.pointer * self.size + self.size)
                by (nonlinear_arith);
        }
    }

    /// One more `allot` after `times` of them gives what `times + 1` give.
    pub proof fn lemma_allot_many_step(self, times: nat)
        ensures
            self.allot_many(0) == self,
            self.allot_many(times).allot() == self.allot_many(times + 1),
    {
        assert(self.allot_many(0).retained =~= self.retained);
        let before = self.allot_many(times);
        assert(before.allot().retained =~= self.allot_many(times + 1).retained);
    }

    /// A live address that is retained is no longer live, and is the next to
    /// be handed out; no other address changes.
    pub proof fn lemma_retain_frees(self, address: nat, limit: nat)
        requires
            self.wf(limit),
            self.is_live(address),
        ensures
            self.retain(address).wf(limit),
            !self.retain(address).is_live(address),
            self.retain(address).location(address) is None,
            self.retain(address).allotted() == address,
            forall|other: nat|
                other != address ==> self.retain(address).is_live(other) == self.is_live(other),
    {
        let next = self.retain(address);
        let n = self.retained.len() as int;
        assert(next.retained[n] == address);
        assert forall|i: int, j: int|
            0 <= i < next.retained.len() && 0 <= j < next.retained.len() && i != j implies next.retained[i]
            != next.retained[j] by {
            if i < n && j < n {
            } else if i < n {
                assert(self.retained[i] == next.retained[i]);
            } else {
                assert(self.retained[j] == next.retained[j]);
            }
        }
        assert forall|other: nat| other != address implies next.is_live(other) == self.is_live(
            other,
        ) by {
            if self.retained.contains(other) {
                let i = choose|i: int| 0 <= i < self.retained.len() && self.retained[i] == other;
                assert(next.retained[i] == other);
            }
            if next.retained.contains(other) {
                let i = choose|i: int| 0 <= i < next.retained.len() && next.retained[i] == other;
                assert(self.retained[i] == other);
            }
        }
    }
}

/// One call to a residential estate.
pub enum ResidentialCall {
    Allot,
    Retain(nat),
}

impl ResidentialView {
    /// True if `call` may be made in this state.
    pub open spec fn permits(self, call: ResidentialCall, limit: nat) -> bool {
        match call {
            ResidentialCall::Allot => self.can_allot(limit),
            ResidentialCall::Retain(address) => self.is_live(address),
        }
    }

    /// The state after `call`.
    pub open spec fn after(self, call: ResidentialCall) -> ResidentialView {
        match call {
            ResidentialCall::Allot => self.allot(),
            ResidentialCall::Retain(address) => self.retain(address),
        }
    }

    /// The address that `call` hands out, if it is an `allot`.
    pub open spec fn answer(self, call: ResidentialCall) -> Option<nat> {
        match call {
            ResidentialCall::Allot => Some(self.allotted()),
            ResidentialCall::Retain(_) => None,
        }
    }

    /// The state after the calls of `calls`, one after the other.
    pub open spec fn after_all(self, calls: Seq<ResidentialCall>) -> ResidentialView
        decreases calls.len(),
    {
        if calls.len() == 0 {
            self
        } else {
            self.after_all(calls.drop_last()).after(calls.last())
        }
    }

    /// True if each call of `calls` may be made in the state that the calls
    /// before it leave.
    pub open spec fn permits_all(self, calls: Seq<ResidentialCall>, limit: nat) -> bool
        decreases calls.len(),
    {
        calls.len() == 0 || {
            &&& self.permits_all(calls.drop_last(), limit)
            &&& self.after_all(calls.drop_last()).permits(calls.last(), limit)
        }
    }

    /// Calls that may be made leave the estate in order, and so do the
    /// first `count` of them.
    pub proof fn lemma_calls_keep_order(self, calls: Seq<ResidentialCall>, limit: nat, count: int)
        requires
            self.wf(limit),
            self.permits_all(calls, limit),
            0 <= count <= calls.len(),
        ensures
            self.permits_all(calls.take(count), limit),
            self.after_all(calls.take(count)).wf(limit),
            count < calls.len() ==> self.after_all(calls.take(count)).permits(calls[count], limit),
            count < calls.len() ==> self.after_all(calls.take(count + 1)) == self.after_all(
                calls.take(count),
            ).after(calls[count]),
        decreases calls.len() - count,
    {
        if count == calls.len() {
            assert(calls.take(count) =~= calls);
            self.lemma_order_after(calls, limit);
        } else {
            self.lemma_calls_keep_order(calls, limit, count + 1);
            assert(calls.take(count + 1).drop_last() =~= calls.take(count));
            self.lemma_order_after(calls.take(count), limit);
        }
    }

    /// Calls that may be made leave the estate in order.
    pub proof fn lemma_order_after(self, calls: Seq<ResidentialCall>, limit: nat)
        requires
            self.wf(limit),
            self.permits_all(calls, limit),
        ensures
            self.after_all(calls).wf(limit),
        decreases calls.len(),
    {
        if calls.len() > 0 {
            self.lemma_order_after(calls.drop_last(), limit);
            let before = self.after_all(calls.drop_last());
            match calls.last() {
                ResidentialCall::Allot => {
                    before.lemma_allot_is_fresh(limit);
                },
                ResidentialCall::Retain(address) => {
                    before.lemma_retain_frees(address, limit);
                },
            }
        }
    }

    /// An address that is live after the first `since` calls is live after
    /// the first `until`, if no call between retains it.
    pub proof fn lemma_stays_live(
        self,
        calls: Seq<ResidentialCall>,
        limit: nat,
        address: nat,
        since: int,
        until: int,
    )
        requires
            self.wf(limit),
            self.permits_all(calls, limit),
            0 <= since <= until <= calls.len(),
            self.after_all(calls.take(since)).is_live(address),
            forall|k: int| since <= k < until ==> calls[k] != ResidentialCall::Retain(address),
        ensures
            self.after_all(calls.take(until)).is_live(address),
        decreases until - since,
    {
        if since < until {
            self.lemma_stays_live(calls, limit, address, since, until - 1);
            self.lemma_calls_keep_order(calls, limit, until - 1);
            let before = self.after_all(calls.take(until - 1));
            match calls[until - 1] {
                ResidentialCall::Allot => {
                    before.lemma_allot_is_fresh(limit);
                },
                ResidentialCall::Retain(other) => {
                    before.lemma_retain_frees(other, limit);
                },
            }
        }
    }

    /// Allocator reuse. In any run of calls that may be made, an address
    /// that `allot` hands out is not live at that time; so two calls of
    /// `allot` hand out the same address only if a call between them retains
    /// it: no two live addresses are the same.
    pub proof fn lemma_live_addresses_are_unique(
        self,
        calls: Seq<ResidentialCall>,
        limit: nat,
        first: int,
        second: int,
    )
        requires
            self.wf(limit),
            self.permits_all(calls, limit),
            0 <= first < second < calls.len(),
            self.after_all(calls.take(first)).answer(calls[first]) is Some,
            self.after_all(calls.take(first)).answer(calls[first]) == self.after_all(
                calls.take(second),
            ).answer(calls[second]),
        ensures
            !self.after_all(calls.take(first)).is_live(
                self.after_all(calls.take(first)).answer(calls[first])->0,
            ),
            exists|k: int|
                first < k < second && #[trigger] calls[k] == ResidentialCall::Retain(
                    self.after_all(calls.take(first)).answer(calls[first])->0,
                ),
    {
        let early = self.after_all(calls.take(first));
        let late = self.after_all(calls.take(second));
        let address = early.answer(calls[first])->0;
        self.lemma_calls_keep_order(calls, limit, first);
        self.lemma_calls_keep_order(calls, limit, second);
        match calls[first] {
            ResidentialCall::Allot => {
                early.lemma_allot_is_fresh(limit);
            },
            ResidentialCall::Retain(_) => {},
        }
        match calls[second] {
            ResidentialCall::Allot => {
                late.lemma_allot_is_fresh(limit);
            },
            ResidentialCall::Retain(_) => {},
        }
        if forall|k: int| first < k < second ==> calls[k] != ResidentialCall::Retain(address) {
            self.lemma_stays_live(calls, limit, address, first + 1, second);
            assert(false);
        }
    }
}

/// An allocator of addresses for slots of one fixed size.
pub struct Residential<Address> {
    size: usize,
    pointer: Address,
    retained: Stack<Address>,
    retained_verify: HashSet<usize>,
}

impl<Address: WholeNumber> View for Residential<Address> {
    type V = ResidentialView;

    closed spec fn view(&self) -> ResidentialView {
        ResidentialView {
            size: self.size as nat,
            pointer: self.pointer.index(),
            retained: self.retained@.map_values(|address: Address| address.index()),
        }
    }
}

impl<Address: WholeNumber> Residential<Address> {
    /// What holds of every estate that `new` made and the methods changed.
    pub closed spec fn wf(&self) -> bool {
        &&& Address::limit() <= usize::MAX
        &&& self@.wf(Address::limit())
        &&& forall|number: usize|
            self.retained_verify@.contains(number) <==> self@.retained.contains(number as nat)
    }

    /// The view of an estate in order is in order.
    pub proof fn lemma_view_wf(&self)
        requires
            self.wf(),
        ensures
            self@.wf(Address::limit()),
            Address::limit() <= usize::MAX,
    {
    }

    /// A new estate with slots of `size`. The address type must not hold more
    /// than a `usize` does.
    pub fn new(size: usize) -> (estate: Self)
        requires
            size > 0,
            Address::limit() <= usize::MAX,
        ensures
            estate.wf(),
            estate@ == ResidentialView::fresh(size as nat),
    {
        let estate = Self {
            size,
            pointer: Address::from_usize(0),
            retained: Stack::new(),
            retained_verify: HashSet::new(),
        };
        proof {
            assert(estate@.retained =~= Seq::<nat>::empty());
            assert(estate@.pointer * estate@.size == 0) by (nonlinear_arith)
                requires
                    estate@.pointer == 0,
            ;
        }
        estate
    }

    /// True if `allot` can hand out an address.
    pub fn can_allot(&self) -> (can: bool)
        requires
            self.wf(),
        ensures
            can == self@.can_allot(Address::limit()),
    {
        if !self.retained.is_empty() {
            true
        } else {
            let max = Address::get_max().to_usize();
            let location = self.location_of_pointer();
            proof {
                assert((self@.pointer + 1) * self@.size == self@.pointer * self@.size
                    + self@.size) by (nonlinear_arith);
            }
            self.size <= max - location
        }
    }

    /// True if an address waits to be handed out again.
    pub fn has_retained(&self) -> (has: bool)
        requires
            self.wf(),
        ensures
            has == (self@.retained.len() > 0),
    {
        !self.retained.is_empty()
    }

    /// True if `allot` can be called `times` times.
    pub fn can_allot_many(&self, times: usize) -> (can: bool)
        requires
            self.wf(),
        ensures
            can == self@.can_allot_many(times as nat, Address::limit()),
    {
        let waiting = self.retained.len();
        if times <= waiting {
            true
        } else {
            let fresh = times - waiting;
            let max = Address::get_max().to_usize();
            let location = self.location_of_pointer();
            let room = (max - location) / self.size;
            proof {
                let pointer = self@.pointer;
                let size = self@.size;
                assert((pointer + fresh) * size == pointer * size + fresh * size)
                    by (nonlinear_arith);
                assert(fresh <= room <==> fresh * size <= max - location) by (nonlinear_arith)
                    requires
                        size > 0,
                        room == (max - location) / (size as int),
                        max - location >= 0,
                ;
            }
            fresh <= room
        }
    }

    /// The address that the next `allot` hands out.
    pub fn peek(&self) -> (address: Address)
        requires
            self.wf(),
        ensures
            address.index() == self@.allotted(),
    {
        match self.retained.peek() {
            Some(address) => {
                assert(self@.retained.last() == address.index());
                *address
            },
            None => self.pointer,
        }
    }

    fn location_of_pointer(&self) -> (location: usize)
        requires
            self.wf(),
        ensures
            location == self@.pointer * self@.size,
    {
        proof {
            self.pointer.lemma_index_within_limit();
        }
        let pointer = self.pointer.to_usize();
        assert(pointer * self.size <= usize::MAX);
        pointer * self.size
    }

    /// Hands out an address: the one retained last, or else a fresh one.
    pub fn allot(&mut self) -> (address: Address)
        requires
            old(self).wf(),
            old(self)@.can_allot(Address::limit()),
        ensures
            final(self).wf(),
            final(self)@ == old(self)@.allot(),
            address.index() == old(self)@.allotted(),
            !old(self)@.is_live(address.index()),
            final(self)@.is_live(address.index()),
    {
        proof {
            old(self)@.lemma_allot_is_fresh(Address::limit());
        }
        if self.retained.is_empty() {
            let pointer = self.pointer;
            proof {
                assert((self@.pointer + 1) * self@.size >= self@.pointer + 1) by (nonlinear_arith)
                    requires
                        self@.size > 0,
                ;
            }
            self.pointer = self.pointer.add_int(1);
            assert(self@.retained =~= old(self)@.retained);
            pointer
        } else {
            let ghost before = self.retained@;
            let pointer = self.retained.take().unwrap();
            proof {
                pointer.lemma_index_within_limit();
            }
            let number = pointer.to_usize();
            self.retained_verify.remove(&number);
            proof {
                assert(self@.retained =~= old(self)@.retained.drop_last());
                assert(old(self)@.retained.last() == pointer.index());
                assert forall|n: usize|
                    self.retained_verify@.contains(n) <==> self@.retained.contains(
                        n as nat,
                    ) by {
                    if n == number {
                        assert(self@.is_live(pointer.index()));
                    } else {
                        assert(self@.is_live(n as nat) == old(self)@.is_live(n as nat));
                    }
                }
            }
            pointer
        }
    }

    /// Takes `address` back, to be handed out again by a later `allot`.
    pub fn retain(&mut self, address: Address)
        requires
            old(self).wf(),
            old(self)@.is_live(address.index()),
        ensures
            final(self).wf(),
            final(self)@ == old(self)@.retain(address.index()),
            !final(self)@.is_live(address.index()),
    {
        proof {
            old(self)@.lemma_retain_frees(address.index(), Address::limit());
            address.lemma_index_within_limit();
        }
        let number = address.to_usize();
        self.retained.add(address);
        self.retained_verify.insert(number);
        proof {
            assert(self@.retained =~= old(self)@.retained.push(address.index()));
            assert forall|n: usize|
                self.retained_verify@.contains(n) <==> self@.retained.contains(n as nat) by {
                if n == number {
                } else {
                    assert(self@.is_live(n as nat) == old(self)@.is_live(n as nat));
                }
            }
        }
    }

    /// Where the slot of `address` starts, if the address is live.
    pub fn get_location(&self, address: Address) -> (location: Option<u64>)
        requires
            self.wf(),
        ensures
            match location {
                Some(at) => self@.location(address.index()) == Some(at as nat),
                None => self@.location(address.index()) is None,
            },
    {
        proof {
            address.lemma_index_within_limit();
            self.pointer.lemma_index_within_limit();
        }
        let number = address.to_usize();
        if number >= self.pointer.to_usize() || self.retained_verify.contains(&number) {
            None
        } else {
            proof {
                assert(number * self.size <= self@.pointer * self@.size) by (nonlinear_arith)
                    requires
                        number < self@.pointer,
                        self.size == self@.size,
                ;
            }
            Some((number * self.size) as u64)
        }
    }

    /// True if `register` can record a slot at `location`.
    pub fn can_register(&self, location: usize) -> (can: bool)
        requires
            self.wf(),
        ensures
            can == self@.can_register(location as nat, Address::limit()),
    {
        let max = Address::get_max().to_usize();
        location == self.location_of_pointer() && self.size <= max - location
    }

    /// Records that the slot at `location`, the next fresh one, is in use,
    /// and gives its address. With this an estate is rebuilt from slots met
    /// in the order of their locations.
    pub fn register(&mut self, location: usize) -> (address: Address)
        requires
            old(self).wf(),
            old(self)@.can_register(location as nat, Address::limit()),
        ensures
            final(self).wf(),
            final(self)@ == old(self)@.register(),
            address.index() == old(self)@.pointer,
            final(self)@.is_live(address.index()),
    {
        let address = self.pointer;
        proof {
            assert((self@.pointer + 1) * self@.size == self@.pointer * self@.size + self@.size)
                by (nonlinear_arith);
            assert((self@.pointer + 1) * self@.size >= self@.pointer + 1) by (nonlinear_arith)
                requires
                    self@.size > 0,
            ;
        }
        self.pointer = self.pointer.add_int(1);
        proof {
            assert(self@.retained =~= old(self)@.retained);
            if self@.retained.contains(address.index()) {
                let i = choose|i: int|
                    0 <= i < self@.retained.len() && self@.retained[i] == address.index();
                assert(old(self)@.retained[i] < old(self)@.pointer);
            }
        }
        address
    }
}

} // verus!

//! Strategies that give a record its key.

use vstd::prelude::*;

verus! {

/// A strategy that hands out the key under which a value is stored.
///
/// What a strategy does is described by three relations. Each has a default
/// that claims nothing, so that an implementation promises only what it
/// states itself.
pub trait Identifier<V> {
    type Id;

    /// Whether the strategy is able to hand out `n` more keys.
    open spec fn can_issue(&self, n: nat) -> bool {
        true
    }

    /// Whether `new_id`, called in this state for `value`, may hand out `id`
    /// and leave the strategy as `next`.
    open spec fn issues(&self, value: &V, id: Self::Id, next: &Self) -> bool {
        true
    }

    /// Whether `is_autogenerated` may answer `flag`.
    open spec fn reports(&self, flag: bool) -> bool {
        true
    }

    /// Hands out the key for `value`.
    fn new_id(&mut self, value: &V) -> (id: Self::Id)
        requires
            old(self).can_issue(1),
        ensures
            old(self).issues(value, id, final(self)),
            forall|n: nat| old(self).can_issue(n + 1) ==> #[trigger] final(self).can_issue(n),
            forall|flag: bool| #[trigger] final(self).reports(flag) == old(self).reports(flag),
    ;

    /// Returns `true` if `new_id` bases the key on the value it is given, and
    /// `false` if the key is not related to that value.
    fn is_autogenerated(&self) -> (flag: bool)
        ensures
            self.reports(flag),
    ;
}

/// Whether `identifier` is able to hand out up to `n` more keys.
pub open spec fn supplies<V, I: Identifier<V>>(identifier: I, n: nat) -> bool {
    forall|m: nat| m <= n ==> #[trigger] identifier.can_issue(m)
}

/// Whether `end` may be what `start` has become after it handed out at most
/// `n` keys: it is able to hand out what is left, and `is_autogenerated`
/// answers as before.
pub open spec fn draws<V, I: Identifier<V>>(start: I, end: I, n: nat) -> bool {
    &&& forall|m: nat| supplies(start, m + n) ==> #[trigger] supplies(end, m)
    &&& forall|flag: bool| #[trigger] end.reports(flag) == start.reports(flag)
}

/// A strategy that has handed out no key has drawn on nothing.
pub proof fn lemma_draws_nothing<V, I: Identifier<V>>(start: I, n: nat)
    ensures
        draws(start, start, n),
{
    assert forall|m: nat| supplies(start, m + n) implies #[trigger] supplies(start, m) by {
        assert forall|k: nat| k <= m implies #[trigger] start.can_issue(k) by {
            assert(k <= m + n);
        }
    }
}

/// One more key handed out draws on one more of the supply.
pub proof fn lemma_draws_one_more<V, I: Identifier<V>>(start: I, middle: I, end: I, n: nat)
    requires
        draws(start, middle, n),
        forall|m: nat| middle.can_issue(m + 1) ==> #[trigger] end.can_issue(m),
        forall|flag: bool| #[trigger] end.reports(flag) == middle.reports(flag),
    ensures
        draws(start, end, n + 1),
{
    assert forall|m: nat| supplies(start, m + (n + 1)) implies #[trigger] supplies(end, m) by {
        assert(supplies(start, (m + 1) + n));
        assert(supplies(middle, m + 1));
        assert forall|k: nat| k <= m implies #[trigger] end.can_issue(k) by {
            assert(middle.can_issue(k + 1));
        }
    }
}

/// What was drawn within `n` keys was drawn within any larger number.
pub proof fn lemma_draws_within<V, I: Identifier<V>>(start: I, end: I, n: nat, limit: nat)
    requires
        draws(start, end, n),
        n <= limit,
    ensures
        draws(start, end, limit),
{
    assert forall|m: nat| supplies(start, m + limit) implies #[trigger] supplies(end, m) by {
        assert forall|k: nat| k <= m + n implies #[trigger] start.can_issue(k) by {
            assert(k <= m + limit);
        }
        assert(supplies(start, m + n));
    }
}

/// What two runs of a strategy drew, one after the other, they drew
/// together.
pub proof fn lemma_draws_twice<V, I: Identifier<V>>(
    start: I,
    middle: I,
    end: I,
    first: nat,
    second: nat,
)
    requires
        draws(start, middle, first),
        draws(middle, end, second),
    ensures
        draws(start, end, first + second),
{
    assert forall|m: nat| supplies(start, m + (first + second)) implies #[trigger] supplies(
        end,
        m,
    ) by {
        assert(supplies(start, (m + second) + first));
        assert(supplies(middle, m + second));
    }
}

/// The strategy that numbers the values in the order in which they come: 1,
/// 2, 3 and so on, as far as `u32` goes.
///
/// Its keys have nothing to do with the values, so it answers `false` when
/// it is asked whether it derives keys from values.
pub struct Sequence {
    last_id: u32,
}

impl Sequence {
    /// The key that was handed out last, 0 before the first.
    pub closed spec fn last(&self) -> nat {
        self.last_id as nat
    }

    /// A sequence that has handed out no key yet.
    pub fn new() -> (sequence: Self)
        ensures
            sequence.last() == 0,
    {
        Sequence { last_id: 0 }
    }
}

impl Default for Sequence {
    fn default() -> (sequence: Self)
        ensures
            sequence.last() == 0,
    {
        Sequence::new()
    }
}

impl<V> Identifier<V> for Sequence {
    type Id = u32;

    open spec fn can_issue(&self, n: nat) -> bool {
        self.last() + n <= u32::MAX
    }

    open spec fn issues(&self, value: &V, id: u32, next: &Self) -> bool {
        &&& id == self.last() + 1
        &&& next.last() == id
    }

    open spec fn reports(&self, flag: bool) -> bool {
        !flag
    }

    fn new_id(&mut self, value: &V) -> (id: u32) {
        self.last_id = self.last_id + 1;
        self.last_id
    }

    fn is_autogenerated(&self) -> (flag: bool) {
        false
    }
}

} // verus!

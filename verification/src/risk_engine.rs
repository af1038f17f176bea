//! Per-account risk checks: balances that can be reserved for orders, released,
//! withdrawn, deposited and settled, and per-asset holdings, all gated by the
//! account's status.
use vstd::prelude::*;

use std::collections::HashMap;

use crate::orders::Order;
use crate::types::{AssetId, OrderId, Price, Quantity, Side};

verus! {

broadcast use vstd::std_specs::hash::group_hash_axioms;

pub type InternalUserId = usize;

pub type ExternalUserId = usize;

pub type Balance = u64;

/// Asset quantities of one account: what is free to use and what is set aside for orders.
#[derive(Debug)]
pub struct Holdings {
    pub reserved: HashMap<AssetId, Quantity>,
    pub available: HashMap<AssetId, Quantity>,
}

pub open spec fn quantity_of(m: Map<AssetId, Quantity>, asset_id: AssetId) -> Option<Quantity> {
    if m.contains_key(asset_id) {
        Some(m[asset_id])
    } else {
        None
    }
}

/// Whether `quantity` of the asset can be set aside: it is positive, no more than is
/// available, and the asset has a reserved entry to take it.
pub open spec fn can_reserve_asset_spec(h: &Holdings, asset_id: AssetId, quantity: Quantity) -> bool {
    &&& quantity != 0
    &&& h.available@.contains_key(asset_id)
    &&& quantity <= h.available@[asset_id]
    &&& h.reserved@.contains_key(asset_id)
}

/// Whether `quantity` of the asset can leave its reserved entry.
pub open spec fn can_release_asset_spec(h: &Holdings, asset_id: AssetId, quantity: Quantity) -> bool {
    &&& h.reserved@.contains_key(asset_id)
    &&& quantity <= h.reserved@[asset_id]
}

pub open spec fn strictly_increasing(s: Seq<AssetId>) -> bool {
    forall|i: int, j: int| 0 <= i < j < s.len() ==> s[i] < s[j]
}

proof fn lemma_push_to_set(s: Seq<AssetId>, x: AssetId)
    ensures
        s.push(x).to_set() == s.to_set().insert(x),
{
    assert forall|y: AssetId| s.push(x).to_set().contains(y) <==> s.to_set().insert(x).contains(y) by {
        if s.push(x).contains(y) {
            let k = choose|k: int| 0 <= k < s.push(x).len() && s.push(x)[k] == y;
            if k < s.len() {
                assert(s[k] == y);
            }
        }
        if s.contains(y) {
            let k = choose|k: int| 0 <= k < s.len() && s[k] == y;
            assert(s.push(x)[k] == y);
        }
        if y == x {
            assert(s.push(x)[s.len() as int] == x);
        }
    }
    assert(s.push(x).to_set() =~= s.to_set().insert(x));
}

/// Puts `x` into a strictly increasing vector unless it is already there.
fn insert_sorted_unique(v: &mut Vec<AssetId>, x: AssetId)
    requires
        strictly_increasing(old(v)@),
    ensures
        strictly_increasing(final(v)@),
        final(v)@.to_set() == old(v)@.to_set().insert(x),
{
    let ghost old_v = v@;
    let mut i: usize = 0;
    while i < v.len() && v[i] < x
        invariant
            v@ == old_v,
            i <= v@.len(),
            forall|k: int| 0 <= k < i ==> v@[k] < x,
        decreases v@.len() - i,
    {
        i = i + 1;
    }
    if i < v.len() && v[i] == x {
        assert(old_v.to_set().insert(x) =~= old_v.to_set()) by {
            assert(old_v.contains(x));
        }
        return;
    }
    v.insert(i, x);
    proof {
        let nv = v@;
        assert forall|a: int, b: int| 0 <= a < b < nv.len() implies nv[a] < nv[b] by {
            if b < i {
            } else if a > i {
                assert(nv[a] == old_v[a - 1] && nv[b] == old_v[b - 1]);
            } else if a == i {
                assert(nv[b] == old_v[b - 1]);
                assert(old_v[i as int] >= x);
                if b - 1 > i {
                    assert(old_v[i as int] < old_v[b - 1]);
                }
                assert(old_v[i as int] != x);
            } else if b == i {
            } else {
                assert(nv[b] == old_v[b - 1]);
            }
        }
        assert forall|y: AssetId| nv.to_set().contains(y) <==> old_v.to_set().insert(x).contains(y) by {
            if nv.contains(y) {
                let k = choose|k: int| 0 <= k < nv.len() && nv[k] == y;
                if k < i {
                    assert(old_v[k] == y);
                } else if k > i {
                    assert(old_v[k - 1] == y);
                }
            }
            if old_v.contains(y) {
                let k = choose|k: int| 0 <= k < old_v.len() && old_v[k] == y;
                if k < i {
                    assert(nv[k] == y);
                } else {
                    assert(nv[k + 1] == y);
                }
            }
            if y == x {
                assert(nv[i as int] == x);
            }
        }
        assert(nv.to_set() =~= old_v.to_set().insert(x));
    }
}

impl Default for Holdings {
    fn default() -> (r: Self)
        ensures
            r.available@ == Map::<AssetId, Quantity>::empty(),
            r.reserved@ == Map::<AssetId, Quantity>::empty(),
    {
        Holdings { reserved: HashMap::new(), available: HashMap::new() }
    }
}

impl Holdings {
    pub fn get_available_quantity(&self, asset_id: AssetId) -> (r: Option<Quantity>)
        ensures
            r == quantity_of(self.available@, asset_id),
    {
        match self.available.get(&asset_id) {
            Some(q) => Some(*q),
            None => None,
        }
    }

    pub fn get_reserved_quantity(&self, asset_id: AssetId) -> (r: Option<Quantity>)
        ensures
            r == quantity_of(self.reserved@, asset_id),
    {
        match self.reserved.get(&asset_id) {
            Some(q) => Some(*q),
            None => None,
        }
    }

    /// Holdings of one asset, all of it available, with an empty reserved entry for it.
    pub fn new(asset_id: AssetId, quantity: Quantity) -> (r: Self)
        ensures
            r.available@ == Map::<AssetId, Quantity>::empty().insert(asset_id, quantity),
            r.reserved@ == Map::<AssetId, Quantity>::empty().insert(asset_id, 0),
    {
        let mut available = HashMap::new();
        available.insert(asset_id, quantity);
        let mut reserved = HashMap::new();
        reserved.insert(asset_id, 0);
        Holdings { reserved, available }
    }

    /// Adds `quantity` of the asset to what is available (opening a reserved entry of zero if
    /// the asset has none); refused, with nothing changed, where the sum would overflow.
    pub fn credit_asset(&mut self, asset_id: AssetId, quantity: Quantity) -> (r: bool)
        ensures
            r == credited(old(self).available@, old(self).reserved@, asset_id, quantity) is Some,
            r ==> (final(self).available@, final(self).reserved@) == credited(
                old(self).available@,
                old(self).reserved@,
                asset_id,
                quantity,
            )->0,
            !r ==> final(self).available@ == old(self).available@ && final(self).reserved@ == old(self).reserved@,
    {
        let have: Quantity = match self.available.get(&asset_id) {
            Some(q) => *q,
            None => 0,
        };
        let total = match have.checked_add(quantity) {
            Some(t) => t,
            None => {
                return false;
            },
        };
        self.available.insert(asset_id, total);
        if !self.reserved.contains_key(&asset_id) {
            self.reserved.insert(asset_id, 0);
        }
        true
    }

    /// Moves `quantity` of the asset from available to reserved. Refused (`false`, nothing
    /// changed) when the asset has no available entry or too little; when it has no reserved
    /// entry the available quantity has already been lowered and `false` is returned.
    pub fn reserve_asset(&mut self, asset_id: AssetId, quantity: Quantity) -> (r: bool)
        requires
            old(self).available@.contains_key(asset_id) && quantity <= old(self).available@[asset_id]
                && old(self).reserved@.contains_key(asset_id) ==> old(self).reserved@[asset_id] + quantity
                <= Quantity::MAX,
        ensures
            !old(self).available@.contains_key(asset_id) || quantity > old(self).available@[asset_id] ==> {
                &&& !r
                &&& final(self).available@ == old(self).available@
                &&& final(self).reserved@ == old(self).reserved@
            },
            old(self).available@.contains_key(asset_id) && quantity <= old(self).available@[asset_id] ==> {
                &&& final(self).available@ == old(self).available@.insert(
                    asset_id,
                    (old(self).available@[asset_id] - quantity) as Quantity,
                )
                &&& r == old(self).reserved@.contains_key(asset_id)
                &&& r ==> final(self).reserved@ == old(self).reserved@.insert(
                    asset_id,
                    (old(self).reserved@[asset_id] + quantity) as Quantity,
                )
                &&& !r ==> final(self).reserved@ == old(self).reserved@
            },
    {
        let available_quantity = match self.available.get(&asset_id) {
            Some(q) => *q,
            None => {
                return false;
            },
        };
        if quantity > available_quantity {
            return false;
        }
        self.available.insert(asset_id, available_quantity - quantity);
        let reserved_quantity = match self.reserved.get(&asset_id) {
            Some(q) => *q,
            None => {
                return false;
            },
        };
        self.reserved.insert(asset_id, reserved_quantity + quantity);
        true
    }

    pub fn can_reserve_asset(&self, asset_id: AssetId, quantity: Quantity) -> (r: bool)
        ensures
            r == can_reserve_asset_spec(self, asset_id, quantity),
    {
        if quantity == 0 {
            return false;
        }
        match self.available.get(&asset_id) {
            Some(available_quantity) => {
                if quantity > *available_quantity {
                    return false;
                }
                match self.reserved.get(&asset_id) {
                    Some(_) => true,
                    None => false,
                }
            },
            None => false,
        }
    }

    /// Takes `quantity` off the asset's reserved entry (it is not returned to available).
    pub fn release_asset(&mut self, asset_id: AssetId, quantity: Quantity) -> (r: bool)
        ensures
            r == can_release_asset_spec(old(self), asset_id, quantity),
            r ==> final(self).reserved@ == old(self).reserved@.insert(
                asset_id,
                (old(self).reserved@[asset_id] - quantity) as Quantity,
            ),
            !r ==> final(self).reserved@ == old(self).reserved@,
            final(self).available@ == old(self).available@,
    {
        let reserved_asset_quantity = match self.reserved.get(&asset_id) {
            Some(q) => *q,
            None => {
                return false;
            },
        };
        if quantity > reserved_asset_quantity {
            return false;
        }
        self.reserved.insert(asset_id, reserved_asset_quantity - quantity);
        true
    }

    pub fn can_release_asset(&self, asset_id: AssetId, quantity: Quantity) -> (r: bool)
        ensures
            r == can_release_asset_spec(self, asset_id, quantity),
    {
        let reserved_asset_quantity = match self.reserved.get(&asset_id) {
            Some(q) => *q,
            None => {
                return false;
            },
        };
        if quantity > reserved_asset_quantity {
            return false;
        }
        true
    }

    /// Every asset with an available or a reserved entry, once each, in increasing order.
    pub fn get_all_assets(&self) -> (r: Vec<AssetId>)
        ensures
            strictly_increasing(r@),
            r@.to_set() == self.available@.dom() + self.reserved@.dom(),
    {
        let mut assets: Vec<AssetId> = Vec::new();
        proof {
            assert(assets@.to_set() =~= Set::<AssetId>::empty());
        }
        for k in it: self.available.keys()
            invariant
                strictly_increasing(assets@),
                assets@.to_set() == it.seq().unref().take(it.index()).to_set(),
                it.seq().unref().to_set() == self.available@.dom(),
                it.index() == it.seq().len() ==> assets@.to_set() == self.available@.dom(),
        {
            let ghost before = it.seq().unref().take(it.index());
            insert_sorted_unique(&mut assets, *k);
            proof {
                assert(it.seq().unref().take(it.index() + 1) =~= before.push(*k));
                lemma_push_to_set(before, *k);
                assert(it.seq().unref().take(it.seq().len() as int) =~= it.seq().unref());
            }
        }
        let ghost avail_keys = assets@.to_set();

        for k in it2: self.reserved.keys()
            invariant
                strictly_increasing(assets@),
                assets@.to_set() == avail_keys + it2.seq().unref().take(it2.index()).to_set(),
                it2.seq().unref().to_set() == self.reserved@.dom(),
                avail_keys == self.available@.dom(),
                it2.index() == it2.seq().len() ==> assets@.to_set() == self.available@.dom() + self.reserved@.dom(),
        {
            let ghost before = it2.seq().unref().take(it2.index());
            insert_sorted_unique(&mut assets, *k);
            proof {
                assert(it2.seq().unref().take(it2.index() + 1) =~= before.push(*k));
                lemma_push_to_set(before, *k);
                assert(assets@.to_set() =~= avail_keys + before.push(*k).to_set());
                assert(it2.seq().unref().take(it2.seq().len() as int) =~= it2.seq().unref());
            }
        }
        assets
    }
}

/// The kinds of balance operation an account status may allow.
pub enum AccountOpp {
    Release,
    Reserve,
    Settle,
    Withdraw,
    Deposit,
}

#[derive(Debug, PartialEq, Eq, Structural)]
pub enum AccountStatus {
    Active,
    Frozen,
    Closed,
    ReduceOnly,
}

/// An active account may do anything; a closed one may only withdraw; a frozen one may only
/// release reservations; a reduce-only one may withdraw, settle and release.
pub open spec fn allows_spec(s: AccountStatus, op: AccountOpp) -> bool {
    match s {
        AccountStatus::Active => true,
        AccountStatus::Closed => op is Withdraw,
        AccountStatus::Frozen => op is Release,
        AccountStatus::ReduceOnly => op is Withdraw || op is Settle || op is Release,
    }
}

pub open spec fn status_name(s: AccountStatus) -> Seq<char> {
    match s {
        AccountStatus::Active => "active"@,
        AccountStatus::Frozen => "frozen"@,
        AccountStatus::Closed => "closed"@,
        AccountStatus::ReduceOnly => "reduce-only"@,
    }
}

impl Default for AccountStatus {
    fn default() -> (r: Self)
        ensures
            r == AccountStatus::Active,
    {
        AccountStatus::Active
    }
}

impl AccountStatus {
    pub fn as_str(&self) -> (r: &'static str)
        ensures
            r@ == status_name(*self),
    {
        match self {
            Self::Active => "active",
            Self::Frozen => "frozen",
            Self::Closed => "closed",
            Self::ReduceOnly => "reduce-only",
        }
    }

    pub fn allows(&self, op: AccountOpp) -> (r: bool)
        ensures
            r == allows_spec(*self, op),
    {
        match self {
            Self::Active => true,
            Self::Closed => match op {
                AccountOpp::Withdraw => true,
                _ => false,
            },
            Self::Frozen => match op {
                AccountOpp::Release => true,
                _ => false,
            },
            Self::ReduceOnly => match op {
                AccountOpp::Withdraw | AccountOpp::Settle | AccountOpp::Release => true,
                _ => false,
            },
        }
    }
}

/// A user's balance (in the quote currency's smallest unit), the part of it reserved for
/// open orders, its status, and its asset holdings.
#[derive(Debug)]
pub struct Account {
    pub user_internal_id: InternalUserId,
    pub available_balance: Balance,
    pub reserved: Balance,
    pub status: AccountStatus,
    pub holdings: Holdings,
}

pub open spec fn can_reserve_spec(a: &Account, amount: Balance) -> bool {
    allows_spec(a.status, AccountOpp::Reserve) && amount > 0 && a.available_balance >= amount
}

pub open spec fn can_release_reserve_spec(a: &Account, amount: Balance) -> bool {
    allows_spec(a.status, AccountOpp::Release) && amount > 0 && a.reserved >= amount
}

pub open spec fn can_withdraw_spec(a: &Account, amount: Balance) -> bool {
    allows_spec(a.status, AccountOpp::Withdraw) && amount > 0 && amount <= a.available_balance
}

/// Whether a trade of `quantity` at `price` can be settled: a buy needs its cost
/// releasable from the reserve, a sell needs the quantity releasable from the asset's
/// reserved holding.
pub open spec fn can_settle_spec(a: &Account, price: Price, asset_id: AssetId, quantity: Quantity, side: Side) -> bool {
    &&& allows_spec(a.status, AccountOpp::Settle)
    &&& if side == Side::Buy {
        price * quantity <= u64::MAX && can_release_reserve_spec(a, (price * quantity) as Balance)
    } else {
        can_release_asset_spec(&a.holdings, asset_id, quantity)
    }
}

impl Default for Account {
    fn default() -> (r: Self)
        ensures
            r.user_internal_id == 0,
            r.available_balance == 0,
            r.reserved == 0,
            r.status == AccountStatus::Active,
            r.holdings.available@ == Map::<AssetId, Quantity>::empty(),
            r.holdings.reserved@ == Map::<AssetId, Quantity>::empty(),
    {
        Account {
            user_internal_id: 0,
            available_balance: 0,
            reserved: 0,
            status: AccountStatus::default(),
            holdings: Holdings::default(),
        }
    }
}

impl Account {
    pub fn get_available_balance(&self) -> (r: Option<Balance>)
        ensures
            r == Some(self.available_balance),
    {
        Some(self.available_balance)
    }

    pub fn get_reserved_balance(&self) -> (r: Option<Balance>)
        ensures
            r == Some(self.reserved),
    {
        Some(self.reserved)
    }

    /// Moves `amount` from the available balance to the reserve, where the status allows
    /// reserving, the amount is positive and covered.
    pub fn reserve(&mut self, amount: Balance) -> (r: bool)
        requires
            can_reserve_spec(old(self), amount) ==> old(self).reserved + amount <= u64::MAX,
        ensures
            r == can_reserve_spec(old(self), amount),
            r ==> final(self).available_balance == old(self).available_balance - amount
                && final(self).reserved == old(self).reserved + amount,
            !r ==> final(self).available_balance == old(self).available_balance && final(self).reserved
                == old(self).reserved,
            final(self).status == old(self).status,
            final(self).holdings == old(self).holdings,
            final(self).user_internal_id == old(self).user_internal_id,
    {
        if !self.status.allows(AccountOpp::Reserve) {
            return false;
        }
        if !(amount > 0) {
            return false;
        }
        if self.available_balance < amount {
            false
        } else {
            self.available_balance = self.available_balance - amount;
            self.reserved = self.reserved + amount;
            true
        }
    }

    pub fn can_reserve(&self, amount: Balance) -> (r: bool)
        ensures
            r == can_reserve_spec(self, amount),
    {
        if !self.status.allows(AccountOpp::Reserve) {
            return false;
        }
        if !(amount > 0) {
            return false;
        }
        self.available_balance >= amount
    }

    /// Moves `amount` from the reserve back to the available balance, where the status
    /// allows releasing, the amount is positive and reserved.
    pub fn release_reserve(&mut self, amount: Balance) -> (r: bool)
        requires
            can_release_reserve_spec(old(self), amount) ==> old(self).available_balance + amount <= u64::MAX,
        ensures
            r == can_release_reserve_spec(old(self), amount),
            r ==> final(self).available_balance == old(self).available_balance + amount
                && final(self).reserved == old(self).reserved - amount,
            !r ==> final(self).available_balance == old(self).available_balance && final(self).reserved
                == old(self).reserved,
            final(self).status == old(self).status,
            final(self).holdings == old(self).holdings,
            final(self).user_internal_id == old(self).user_internal_id,
    {
        if !self.status.allows(AccountOpp::Release) {
            return false;
        }
        if !(amount > 0) {
            return false;
        }
        if self.reserved < amount {
            false
        } else {
            self.reserved = self.reserved - amount;
            self.available_balance = self.available_balance + amount;
            true
        }
    }

    pub fn can_release_reserve(&self, amount: Balance) -> (r: bool)
        ensures
            r == can_release_reserve_spec(self, amount),
    {
        if !self.status.allows(AccountOpp::Release) {
            return false;
        }
        if !(amount > 0) {
            return false;
        }
        self.reserved >= amount
    }

    /// Takes `amount` out of the available balance, where the status allows withdrawing,
    /// the amount is positive and covered.
    pub fn withdraw(&mut self, amount: Balance) -> (r: bool)
        ensures
            r == can_withdraw_spec(old(self), amount),
            r ==> final(self).available_balance == old(self).available_balance - amount,
            !r ==> final(self).available_balance == old(self).available_balance,
            final(self).reserved == old(self).reserved,
            final(self).status == old(self).status,
            final(self).holdings == old(self).holdings,
            final(self).user_internal_id == old(self).user_internal_id,
    {
        if !self.status.allows(AccountOpp::Withdraw) {
            return false;
        }
        if !(amount > 0) {
            return false;
        }
        if amount > self.available_balance {
            return false;
        }
        self.available_balance = self.available_balance - amount;
        true
    }

    /// Takes `amount` out of the reserve whatever the status, where it is covered.
    pub fn withdraw_reserve(&mut self, amount: Balance) -> (r: bool)
        ensures
            r == (amount <= old(self).reserved),
            r ==> final(self).reserved == old(self).reserved - amount,
            !r ==> final(self).reserved == old(self).reserved,
            final(self).available_balance == old(self).available_balance,
            final(self).status == old(self).status,
            final(self).holdings == old(self).holdings,
            final(self).user_internal_id == old(self).user_internal_id,
    {
        if amount > self.reserved {
            return false;
        }
        self.reserved = self.reserved - amount;
        true
    }

    /// Takes `quantity` off the asset's reserved holding, where it is covered.
    pub fn withdraw_reserve_asset(&mut self, asset_id: AssetId, quantity: Quantity) -> (r: bool)
        ensures
            r == can_release_asset_spec(&old(self).holdings, asset_id, quantity),
            r ==> final(self).holdings.reserved@ == old(self).holdings.reserved@.insert(
                asset_id,
                (old(self).holdings.reserved@[asset_id] - quantity) as Quantity,
            ),
            !r ==> final(self).holdings.reserved@ == old(self).holdings.reserved@,
            final(self).holdings.available@ == old(self).holdings.available@,
            final(self).available_balance == old(self).available_balance,
            final(self).reserved == old(self).reserved,
            final(self).status == old(self).status,
            final(self).user_internal_id == old(self).user_internal_id,
    {
        if !self.holdings.can_release_asset(asset_id, quantity) {
            false
        } else {
            self.holdings.release_asset(asset_id, quantity)
        }
    }

    pub fn can_withdraw(&self, amount: Balance) -> (r: bool)
        ensures
            r == can_withdraw_spec(self, amount),
    {
        if !self.status.allows(AccountOpp::Withdraw) {
            return false;
        }
        if !(amount > 0) {
            return false;
        }
        if amount > self.available_balance {
            return false;
        }
        true
    }

    /// Adds `amount` to the available balance, where the status allows depositing, the
    /// amount is positive and the balance does not overflow.
    pub fn deposit(&mut self, amount: Balance) -> (r: bool)
        ensures
            r == (allows_spec(old(self).status, AccountOpp::Deposit) && amount > 0
                && old(self).available_balance + amount <= u64::MAX),
            r ==> final(self).available_balance == old(self).available_balance + amount,
            !r ==> final(self).available_balance == old(self).available_balance,
            final(self).reserved == old(self).reserved,
            final(self).status == old(self).status,
            final(self).holdings == old(self).holdings,
            final(self).user_internal_id == old(self).user_internal_id,
    {
        if !self.status.allows(AccountOpp::Deposit) {
            return false;
        }
        if !(amount > 0) {
            return false;
        }
        let new_balance = match self.available_balance.checked_add(amount) {
            Some(b) => b,
            None => {
                return false;
            },
        };
        self.available_balance = new_balance;
        true
    }

    pub fn can_deposit(&self) -> (r: bool)
        ensures
            r == allows_spec(self.status, AccountOpp::Deposit),
    {
        if !self.status.allows(AccountOpp::Deposit) {
            return false;
        }
        true
    }

    pub fn can_settle(&self, price: Price, asset_id: AssetId, quantity: Quantity, side: Side) -> (r: bool)
        ensures
            r == can_settle_spec(self, price, asset_id, quantity, side),
    {
        if !self.status.allows(AccountOpp::Settle) {
            return false;
        }
        if side == Side::Buy {
            let amount = match price.checked_mul(quantity as u64) {
                Some(a) => a,
                None => {
                    return false;
                },
            };
            self.can_release_reserve(amount)
        } else {
            self.holdings.can_release_asset(asset_id, quantity)
        }
    }

    /// Settles one side of a trade, where the status allows settling: a buy takes
    /// `price * quantity` out of the reserve (if it does not overflow and is covered), a sell
    /// takes `quantity` off the asset's reserved holding (if covered).
    pub fn settle(&mut self, price: Price, asset_id: AssetId, quantity: Quantity, side: Side) -> (r: bool)
        ensures
            !allows_spec(old(self).status, AccountOpp::Settle) ==> !r && final(self).reserved == old(self).reserved
                && final(self).holdings.reserved@ == old(self).holdings.reserved@,
            allows_spec(old(self).status, AccountOpp::Settle) && side == Side::Buy ==> {
                &&& r == (price * quantity <= u64::MAX && price * quantity <= old(self).reserved)
                &&& r ==> final(self).reserved == old(self).reserved - price * quantity
                &&& !r ==> final(self).reserved == old(self).reserved
                &&& final(self).holdings.reserved@ == old(self).holdings.reserved@
            },
            allows_spec(old(self).status, AccountOpp::Settle) && side != Side::Buy ==> {
                &&& r == can_release_asset_spec(&old(self).holdings, asset_id, quantity)
                &&& r ==> final(self).holdings.reserved@ == old(self).holdings.reserved@.insert(
                    asset_id,
                    (old(self).holdings.reserved@[asset_id] - quantity) as Quantity,
                )
                &&& !r ==> final(self).holdings.reserved@ == old(self).holdings.reserved@
                &&& final(self).reserved == old(self).reserved
            },
            final(self).available_balance == old(self).available_balance,
            final(self).holdings.available@ == old(self).holdings.available@,
            final(self).status == old(self).status,
            final(self).user_internal_id == old(self).user_internal_id,
    {
        if !self.status.allows(AccountOpp::Settle) {
            return false;
        }
        if side == Side::Buy {
            let amount = match price.checked_mul(quantity as u64) {
                Some(a) => a,
                None => {
                    return false;
                },
            };
            self.withdraw_reserve(amount)
        } else {
            self.withdraw_reserve_asset(asset_id, quantity)
        }
    }
}

/// An account as plain values: its balances, status and asset holdings.
pub struct AccountModel {
    pub user_internal_id: InternalUserId,
    pub available_balance: Balance,
    pub reserved: Balance,
    pub status: AccountStatus,
    pub assets_available: Map<AssetId, Quantity>,
    pub assets_reserved: Map<AssetId, Quantity>,
}

impl Account {
    pub open spec fn model(&self) -> AccountModel {
        AccountModel {
            user_internal_id: self.user_internal_id,
            available_balance: self.available_balance,
            reserved: self.reserved,
            status: self.status,
            assets_available: self.holdings.available@,
            assets_reserved: self.holdings.reserved@,
        }
    }
}

/// The quantity of an asset in a holding table, zero where it has no entry.
pub open spec fn qty_or_zero(m: Map<AssetId, Quantity>, asset_id: AssetId) -> int {
    if m.contains_key(asset_id) {
        m[asset_id] as int
    } else {
        0
    }
}

/// The (available, reserved) tables after `quantity` of the asset was credited as available;
/// the asset gets a reserved entry of zero if it had none. `None` where the sum overflows.
pub open spec fn credited(
    available: Map<AssetId, Quantity>,
    reserved: Map<AssetId, Quantity>,
    asset_id: AssetId,
    quantity: Quantity,
) -> Option<(Map<AssetId, Quantity>, Map<AssetId, Quantity>)> {
    if qty_or_zero(available, asset_id) + quantity <= Quantity::MAX {
        Some(
            (
                available.insert(asset_id, (qty_or_zero(available, asset_id) + quantity) as Quantity),
                if reserved.contains_key(asset_id) {
                    reserved
                } else {
                    reserved.insert(asset_id, 0)
                },
            ),
        )
    } else {
        None
    }
}

/// The price an order is reserved and released at: its limit, or zero for a market order.
pub open spec fn price_or_zero(o: Order) -> Price {
    match o.price {
        Some(p) => p,
        None => 0,
    }
}

/// Setting aside what an order may need: a sell reserves its remaining quantity of the
/// order's asset (which needs a reserved entry), a buy reserves its cost from the balance
/// (where the status allows reserving and the cost is positive). `None` where refused.
pub open spec fn reserved_for_order(a: AccountModel, o: Order) -> Option<AccountModel> {
    let q = o.remaining_quantity;
    let asset = o.asset_id;
    if o.side == Side::Sell {
        if q != 0 && a.assets_available.contains_key(asset) && q <= a.assets_available[asset]
            && a.assets_reserved.contains_key(asset) && a.assets_reserved[asset] + q <= Quantity::MAX {
            Some(
                AccountModel {
                    assets_available: a.assets_available.insert(asset, (a.assets_available[asset] - q) as Quantity),
                    assets_reserved: a.assets_reserved.insert(asset, (a.assets_reserved[asset] + q) as Quantity),
                    ..a
                },
            )
        } else {
            None
        }
    } else {
        let amount = price_or_zero(o) * q;
        if amount <= u64::MAX && allows_spec(a.status, AccountOpp::Reserve) && amount > 0 && a.available_balance
            >= amount && a.reserved + amount <= u64::MAX {
            Some(
                AccountModel {
                    available_balance: (a.available_balance - amount) as Balance,
                    reserved: (a.reserved + amount) as Balance,
                    ..a
                },
            )
        } else {
            None
        }
    }
}

/// Giving back what an order had set aside: a buy returns `price * quantity` from the reserve to
/// the balance (where the status allows releasing and the amount is positive), a sell returns
/// `quantity` of the asset from reserved to available. `None` where refused.
pub open spec fn released(a: AccountModel, asset_id: AssetId, side: Side, price: Price, quantity: Quantity) -> Option<
    AccountModel,
> {
    if side == Side::Buy {
        let amount = price * quantity;
        if amount <= u64::MAX && allows_spec(a.status, AccountOpp::Release) && amount > 0 && a.reserved >= amount
            && a.available_balance + amount <= u64::MAX {
            Some(
                AccountModel {
                    available_balance: (a.available_balance + amount) as Balance,
                    reserved: (a.reserved - amount) as Balance,
                    ..a
                },
            )
        } else {
            None
        }
    } else {
        if a.assets_reserved.contains_key(asset_id) && quantity <= a.assets_reserved[asset_id] {
            let rs = a.assets_reserved.insert(asset_id, (a.assets_reserved[asset_id] - quantity) as Quantity);
            match credited(a.assets_available, rs, asset_id, quantity) {
                Some((av2, rs2)) => Some(AccountModel { assets_available: av2, assets_reserved: rs2, ..a }),
                None => None,
            }
        } else {
            None
        }
    }
}

/// Settling one side of a trade (where the status allows settling): a buy pays
/// `price * quantity` out of the reserve and receives `quantity` of the asset; a sell delivers
/// `quantity` of the asset out of its reserved holding and receives `price * quantity` into
/// the balance. `None` where refused.
pub open spec fn settled(a: AccountModel, asset_id: AssetId, side: Side, price: Price, quantity: Quantity) -> Option<
    AccountModel,
> {
    let amount = price * quantity;
    if !allows_spec(a.status, AccountOpp::Settle) || amount > u64::MAX {
        None
    } else if side == Side::Buy {
        if amount <= a.reserved {
            match credited(a.assets_available, a.assets_reserved, asset_id, quantity) {
                Some((av2, rs2)) => Some(
                    AccountModel {
                        reserved: (a.reserved - amount) as Balance,
                        assets_available: av2,
                        assets_reserved: rs2,
                        ..a
                    },
                ),
                None => None,
            }
        } else {
            None
        }
    } else {
        if a.assets_reserved.contains_key(asset_id) && quantity <= a.assets_reserved[asset_id]
            && a.available_balance + amount <= u64::MAX {
            Some(
                AccountModel {
                    available_balance: (a.available_balance + amount) as Balance,
                    assets_reserved: a.assets_reserved.insert(
                        asset_id,
                        (a.assets_reserved[asset_id] - quantity) as Quantity,
                    ),
                    ..a
                },
            )
        } else {
            None
        }
    }
}

/// A reservation given back restores the account: releasing an order's reservation (at the
/// order's own price and remaining quantity, and for a sell in the order's own asset) right
/// after it was made gives the account back exactly, where the status allows releasing.
pub proof fn law_release_undoes_reservation(a: AccountModel, o: Order)
    requires
        reserved_for_order(a, o) is Some,
        o.side == Side::Buy ==> allows_spec(a.status, AccountOpp::Release),
    ensures
        released(reserved_for_order(a, o)->0, o.asset_id, o.side, price_or_zero(o), o.remaining_quantity) == Some(a),
{
    let b = reserved_for_order(a, o)->0;
    if o.side == Side::Sell {
        let asset = o.asset_id;
        let q = o.remaining_quantity;
        let rs = b.assets_reserved.insert(asset, (b.assets_reserved[asset] - q) as Quantity);
        assert(rs =~= a.assets_reserved);
        assert(b.assets_available.insert(asset, (qty_or_zero(b.assets_available, asset) + q) as Quantity)
            =~= a.assets_available);
    }
    assert(released(b, o.asset_id, o.side, price_or_zero(o), o.remaining_quantity)->0 =~= a);
}

/// A reservation neither creates nor destroys value: the balance plus the reserve, and each
/// asset's available plus reserved quantity, are what they were.
pub proof fn law_reservation_conserves_value(a: AccountModel, o: Order, asset: AssetId)
    requires
        reserved_for_order(a, o) is Some,
    ensures
        ({
            let b = reserved_for_order(a, o)->0;
            &&& b.available_balance + b.reserved == a.available_balance + a.reserved
            &&& qty_or_zero(b.assets_available, asset) + qty_or_zero(b.assets_reserved, asset) == qty_or_zero(
                a.assets_available,
                asset,
            ) + qty_or_zero(a.assets_reserved, asset)
        }),
{
}

/// Settling a trade moves value between the two accounts and creates none: the buyer's
/// balance plus reserve falls by `price * quantity` and its holding of the asset rises by
/// `quantity`; the seller's balance plus reserve rises by `price * quantity` and its holding
/// falls by `quantity`.
pub proof fn law_settlement_moves_value(
    buyer: AccountModel,
    seller: AccountModel,
    asset: AssetId,
    price: Price,
    quantity: Quantity,
)
    requires
        settled(buyer, asset, Side::Buy, price, quantity) is Some,
        settled(seller, asset, Side::Sell, price, quantity) is Some,
    ensures
        ({
            let b = settled(buyer, asset, Side::Buy, price, quantity)->0;
            let s = settled(seller, asset, Side::Sell, price, quantity)->0;
            &&& b.available_balance + b.reserved == buyer.available_balance + buyer.reserved - price * quantity
            &&& s.available_balance + s.reserved == seller.available_balance + seller.reserved + price * quantity
            &&& qty_or_zero(b.assets_available, asset) + qty_or_zero(b.assets_reserved, asset) == qty_or_zero(
                buyer.assets_available,
                asset,
            ) + qty_or_zero(buyer.assets_reserved, asset) + quantity
            &&& qty_or_zero(s.assets_available, asset) + qty_or_zero(s.assets_reserved, asset) == qty_or_zero(
                seller.assets_available,
                asset,
            ) + qty_or_zero(seller.assets_reserved, asset) - quantity
        }),
{
}

/// The risk engine as plain values: the id map and the accounts.
pub struct RiskModel {
    pub ids: Map<ExternalUserId, InternalUserId>,
    pub accounts: Seq<AccountModel>,
}

/// The account position an external id maps to, if it maps to an existing one.
pub open spec fn account_of(r: RiskModel, user_id: ExternalUserId) -> Option<InternalUserId> {
    if r.ids.contains_key(user_id) && r.ids[user_id] < r.accounts.len() {
        Some(r.ids[user_id])
    } else {
        None
    }
}

/// Applies an account update at position `i`: `(true, updated)`, or `(false, unchanged)` where refused.
pub open spec fn with_account(r: RiskModel, i: int, a: Option<AccountModel>) -> (bool, RiskModel) {
    match a {
        Some(a2) => (true, RiskModel { accounts: r.accounts.update(i, a2), ..r }),
        None => (false, r),
    }
}

/// The pre-trade check and reservation for an order of the user with this external id.
pub open spec fn check_and_reserve_spec(r: RiskModel, user_id: ExternalUserId, o: Order) -> (bool, RiskModel) {
    match account_of(r, user_id) {
        Some(i) => with_account(r, i as int, reserved_for_order(r.accounts[i as int], o)),
        None => (false, r),
    }
}

/// Releasing at the account at `internal_id`, if there is one.
pub open spec fn release_spec(
    r: RiskModel,
    internal_id: Option<InternalUserId>,
    asset_id: AssetId,
    side: Side,
    price: Price,
    quantity: Quantity,
) -> (bool, RiskModel) {
    match internal_id {
        Some(i) => if i < r.accounts.len() {
            with_account(r, i as int, released(r.accounts[i as int], asset_id, side, price, quantity))
        } else {
            (false, r)
        },
        None => (false, r),
    }
}

/// Settling at the account at `internal_id`, if there is one.
pub open spec fn settle_spec(
    r: RiskModel,
    internal_id: Option<InternalUserId>,
    asset_id: AssetId,
    side: Side,
    price: Price,
    quantity: Quantity,
) -> (bool, RiskModel) {
    match internal_id {
        Some(i) => if i < r.accounts.len() {
            with_account(r, i as int, settled(r.accounts[i as int], asset_id, side, price, quantity))
        } else {
            (false, r)
        },
        None => (false, r),
    }
}

/// The internal id an external id maps to.
pub open spec fn internal_id_of(r: RiskModel, user_id: ExternalUserId) -> Option<InternalUserId> {
    if r.ids.contains_key(user_id) {
        Some(r.ids[user_id])
    } else {
        None
    }
}

/// The accounts, indexed by internal id, and the map from external to internal ids.
#[derive(Debug)]
pub struct RiskEngine {
    pub id_map: HashMap<ExternalUserId, InternalUserId>,
    pub accounts: Vec<Account>,
}

/// Whether an order passes the pre-trade check against its account: a sell needs its
/// remaining quantity reservable from the asset's holding, a buy needs its cost
/// (price times remaining quantity) reservable from the balance.
pub open spec fn check_and_pass_spec(a: &Account, asset_id: AssetId, order: Order) -> bool {
    if order.side == Side::Sell {
        can_reserve_asset_spec(&a.holdings, asset_id, order.remaining_quantity)
    } else {
        can_reserve_spec(a, (order.price->0 * order.remaining_quantity) as Balance)
    }
}

impl Default for RiskEngine {
    fn default() -> (r: Self)
        ensures
            r.id_map@ == Map::<ExternalUserId, InternalUserId>::empty(),
            r.accounts@ == Seq::<Account>::empty(),
    {
        Self::new_empty()
    }
}

impl RiskEngine {
    pub fn new_empty() -> (r: Self)
        ensures
            r.id_map@ == Map::<ExternalUserId, InternalUserId>::empty(),
            r.accounts@ == Seq::<Account>::empty(),
    {
        Self { id_map: HashMap::new(), accounts: Vec::new() }
    }

    /// Checks an order against the account at index `user_id`; nothing changes.
    pub fn check_and_pass(&mut self, user_id: ExternalUserId, asset_id: AssetId, order: Order) -> (r: bool)
        requires
            user_id < old(self).accounts@.len(),
            order.side != Side::Sell ==> order.price is Some && order.price->0 * order.remaining_quantity
                <= u64::MAX,
        ensures
            r == check_and_pass_spec(&old(self).accounts@[user_id as int], asset_id, order),
            final(self).accounts@ == old(self).accounts@,
            final(self).id_map@ == old(self).id_map@,
    {
        let guard = &self.accounts[user_id];
        if order.side == Side::Sell {
            if !guard.holdings.can_reserve_asset(asset_id, order.get_remaining_quantity()) {
                return false;
            }
        } else {
            let amount = order.get_price() * order.get_remaining_quantity() as u64;
            if !guard.can_reserve(amount) {
                return false;
            }
        }
        true
    }

    pub open spec fn model(&self) -> RiskModel {
        RiskModel { ids: self.id_map@, accounts: self.accounts@.map_values(|a: Account| a.model()) }
    }

    /// Opens an active account with `balance` available and the given holdings, under the
    /// next internal id, and maps `external_id` to it; returns that internal id.
    pub fn add_account(&mut self, external_id: ExternalUserId, balance: Balance, holdings: Holdings) -> (r:
        InternalUserId)
        ensures
            r == old(self).accounts@.len(),
            final(self).model() == (RiskModel {
                ids: old(self).model().ids.insert(external_id, r),
                accounts: old(self).model().accounts.push(
                    AccountModel {
                        user_internal_id: r,
                        available_balance: balance,
                        reserved: 0,
                        status: AccountStatus::Active,
                        assets_available: holdings.available@,
                        assets_reserved: holdings.reserved@,
                    },
                ),
            }),
    {
        let internal_id = self.accounts.len();
        let account = Account {
            user_internal_id: internal_id,
            available_balance: balance,
            reserved: 0,
            status: AccountStatus::Active,
            holdings,
        };
        let ghost old_accounts = self.accounts@;
        self.accounts.push(account);
        self.id_map.insert(external_id, internal_id);
        proof {
            assert(self.accounts@.map_values(|a: Account| a.model()) =~= old_accounts.map_values(|a: Account| a.model()).push(
                account.model(),
            ));
        }
        internal_id
    }

    /// Whether the pre-trade check of `check_and_reserve` passes for this order, without
    /// reserving anything.
    pub fn can_reserve_for(&self, user_id: ExternalUserId, order: Order) -> (r: bool)
        ensures
            r == check_and_reserve_spec(self.model(), user_id, order).0,
    {
        let ghost m = self.model();
        let i = match self.id_map.get(&user_id) {
            Some(i) => *i,
            None => {
                return false;
            },
        };
        if i >= self.accounts.len() {
            return false;
        }
        let ghost a = self.accounts@[i as int];
        assert(m.accounts[i as int] == a.model());
        let q = order.remaining_quantity;
        let asset = order.asset_id;
        if order.side == Side::Sell {
            if !self.accounts[i].holdings.can_reserve_asset(asset, q) {
                return false;
            }
            let held = match self.accounts[i].holdings.get_reserved_quantity(asset) {
                Some(x) => x,
                None => {
                    return false;
                },
            };
            held <= Quantity::MAX - q
        } else {
            let price = match order.price {
                Some(p) => p,
                None => 0,
            };
            let amount = match price.checked_mul(q as u64) {
                Some(x) => x,
                None => {
                    return false;
                },
            };
            if self.accounts[i].reserved > u64::MAX - amount {
                return false;
            }
            self.accounts[i].can_reserve(amount)
        }
    }

    /// The pre-trade check with its reservation: the account the user maps to sets aside what
    /// the order may need (see `reserved_for_order`); `false`, with nothing changed, where the
    /// user has no account or the account cannot cover the order.
    pub fn check_and_reserve(&mut self, user_id: ExternalUserId, order: Order) -> (r: bool)
        ensures
            (r, final(self).model()) == check_and_reserve_spec(old(self).model(), user_id, order),
    {
        let ghost m = self.model();
        let i = match self.id_map.get(&user_id) {
            Some(i) => *i,
            None => {
                return false;
            },
        };
        if i >= self.accounts.len() {
            return false;
        }
        let ghost a = self.accounts@[i as int];
        assert(m.accounts[i as int] == a.model());
        let q = order.remaining_quantity;
        let asset = order.asset_id;
        if order.side == Side::Sell {
            if !self.accounts[i].holdings.can_reserve_asset(asset, q) {
                return false;
            }
            let held = match self.accounts[i].holdings.get_reserved_quantity(asset) {
                Some(x) => x,
                None => {
                    return false;
                },
            };
            if held > Quantity::MAX - q {
                return false;
            }
            let _ = self.accounts[i].holdings.reserve_asset(asset, q);
        } else {
            let price = match order.price {
                Some(p) => p,
                None => 0,
            };
            let amount = match price.checked_mul(q as u64) {
                Some(x) => x,
                None => {
                    return false;
                },
            };
            if self.accounts[i].reserved > u64::MAX - amount {
                return false;
            }
            if !self.accounts[i].reserve(amount) {
                proof {
                    assert(self.accounts@[i as int].model() == a.model());
                    assert(self.model().accounts =~= m.accounts);
                }
                return false;
            }
        }
        proof {
            let na = reserved_for_order(a.model(), order)->0;
            assert(self.accounts@[i as int].model() == na);
            assert(self.model().accounts =~= m.accounts.update(i as int, na));
        }
        true
    }

    /// Gives back at the account `internal_id` what an order had set aside (see `released`);
    /// `false`, with nothing changed, where there is no such account or it refuses.
    pub fn release(
        &mut self,
        internal_id: Option<InternalUserId>,
        _order_id: OrderId,
        asset_id: AssetId,
        side: Side,
        price: Price,
        quantity: Quantity,
    ) -> (r: bool)
        ensures
            (r, final(self).model()) == release_spec(old(self).model(), internal_id, asset_id, side, price, quantity),
    {
        let ghost m = self.model();
        let i = match internal_id {
            Some(i) => i,
            None => {
                return false;
            },
        };
        if i >= self.accounts.len() {
            return false;
        }
        let ghost a = self.accounts@[i as int];
        assert(m.accounts[i as int] == a.model());
        if side == Side::Buy {
            let amount = match price.checked_mul(quantity as u64) {
                Some(x) => x,
                None => {
                    return false;
                },
            };
            if !self.accounts[i].can_release_reserve(amount) {
                return false;
            }
            if self.accounts[i].available_balance > u64::MAX - amount {
                return false;
            }
            let _ = self.accounts[i].release_reserve(amount);
        } else {
            if !self.accounts[i].holdings.can_release_asset(asset_id, quantity) {
                return false;
            }
            let have: Quantity = match self.accounts[i].holdings.get_available_quantity(asset_id) {
                Some(x) => x,
                None => 0,
            };
            if have > Quantity::MAX - quantity {
                return false;
            }
            let _ = self.accounts[i].holdings.release_asset(asset_id, quantity);
            let _ = self.accounts[i].holdings.credit_asset(asset_id, quantity);
        }
        proof {
            let na = released(a.model(), asset_id, side, price, quantity)->0;
            assert(self.accounts@[i as int].model() == na);
            assert(self.model().accounts =~= m.accounts.update(i as int, na));
        }
        true
    }

    /// Settles one side of a trade at the account `internal_id` (see `settled`); `false`, with
    /// nothing changed, where there is no such account or it refuses.
    pub fn settle(
        &mut self,
        internal_id: Option<InternalUserId>,
        _order_id: OrderId,
        asset_id: AssetId,
        side: Side,
        price: Price,
        quantity: Quantity,
    ) -> (r: bool)
        ensures
            (r, final(self).model()) == settle_spec(old(self).model(), internal_id, asset_id, side, price, quantity),
    {
        let ghost m = self.model();
        let i = match internal_id {
            Some(i) => i,
            None => {
                return false;
            },
        };
        if i >= self.accounts.len() {
            return false;
        }
        let ghost a = self.accounts@[i as int];
        assert(m.accounts[i as int] == a.model());
        if !self.accounts[i].status.allows(AccountOpp::Settle) {
            return false;
        }
        let amount = match price.checked_mul(quantity as u64) {
            Some(x) => x,
            None => {
                return false;
            },
        };
        if side == Side::Buy {
            if amount > self.accounts[i].reserved {
                return false;
            }
            let have: Quantity = match self.accounts[i].holdings.get_available_quantity(asset_id) {
                Some(x) => x,
                None => 0,
            };
            if have > Quantity::MAX - quantity {
                return false;
            }
            let _ = self.accounts[i].settle(price, asset_id, quantity, side);
            let _ = self.accounts[i].holdings.credit_asset(asset_id, quantity);
        } else {
            if !self.accounts[i].holdings.can_release_asset(asset_id, quantity) {
                return false;
            }
            if self.accounts[i].available_balance > u64::MAX - amount {
                return false;
            }
            let _ = self.accounts[i].settle(price, asset_id, quantity, side);
            self.accounts[i].available_balance = self.accounts[i].available_balance + amount;
        }
        proof {
            let na = settled(a.model(), asset_id, side, price, quantity)->0;
            assert(self.accounts@[i as int].model() == na);
            assert(self.model().accounts =~= m.accounts.update(i as int, na));
        }
        true
    }

    /// Does nothing yet.
    pub fn reserve(&mut self, _user_id: ExternalUserId, _asset_id: AssetId, _amount: Balance, _quantity: Quantity)
        ensures
            final(self).accounts@ == old(self).accounts@,
            final(self).id_map@ == old(self).id_map@,
    {
    }

    /// Does nothing yet.
    pub fn check_reserve(&self, _user_id: ExternalUserId, _asset_id: AssetId, _amount: Balance, _quantity: Quantity) {
    }

    pub fn get_internal_id(&self, external_id: ExternalUserId) -> (r: Option<InternalUserId>)
        ensures
            r == (if self.id_map@.contains_key(external_id) {
                Some(self.id_map@[external_id])
            } else {
                None
            }),
    {
        match self.id_map.get(&external_id) {
            Some(i) => Some(*i),
            None => None,
        }
    }
}


/// The pre-trade check weighs the whole order: a buy passes exactly when the account is active
/// and its available balance covers the order's full cost, its price times its remaining
/// quantity (a positive amount); a sell passes exactly when its remaining quantity is positive
/// and no more than what is available of the asset, which has a reserved entry.
pub proof fn law_check_covers_the_whole_order(a: Account, asset_id: AssetId, o: Order)
    requires
        o.side == Side::Buy ==> o.price is Some && o.price->0 * o.remaining_quantity <= u64::MAX,
    ensures
        o.side == Side::Buy ==> (check_and_pass_spec(&a, asset_id, o) <==> (a.status == AccountStatus::Active && 0
            < o.price->0 * o.remaining_quantity <= a.available_balance)),
        o.side == Side::Sell ==> (check_and_pass_spec(&a, asset_id, o) <==> (0 < o.remaining_quantity
            && a.holdings.available@.contains_key(asset_id) && o.remaining_quantity <= a.holdings.available@[asset_id]
            && a.holdings.reserved@.contains_key(asset_id))),
{
}

/// A buy's reservation sets aside its whole cost: where it is made, the available balance
/// falls and the reserve rises by exactly its price times its remaining quantity, nothing else
/// changes; where the available balance does not cover that cost, it is refused.
pub proof fn law_buy_reservation_takes_the_whole_cost(a: AccountModel, o: Order)
    requires
        o.side == Side::Buy,
    ensures
        reserved_for_order(a, o) matches Some(b) ==> {
            &&& b.available_balance == a.available_balance - price_or_zero(o) * o.remaining_quantity
            &&& b.reserved == a.reserved + price_or_zero(o) * o.remaining_quantity
            &&& b == (AccountModel { available_balance: b.available_balance, reserved: b.reserved, ..a })
        },
        price_or_zero(o) * o.remaining_quantity > a.available_balance ==> reserved_for_order(a, o) is None,
{
}

} // verus!

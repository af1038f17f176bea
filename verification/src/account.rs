//! Plain balance tables: per-user wallets of currencies and a table of balances
//! indexed by internal user id.
use vstd::prelude::*;

use std::collections::HashMap;

use crate::symbol::{currency_asset_id, Currency};
use crate::types::AssetId;

verus! {

broadcast use vstd::std_specs::hash::group_hash_axioms;

pub type InternalUserId = u32;

pub type ExternalUserId = u32;

pub type Balance = u64;

/// What a user holds of each currency, in its smallest unit, keyed by the currency's asset id.
pub struct Wallets {
    pub assets: HashMap<AssetId, Balance>,
}

impl Wallets {
    pub fn new() -> (r: Self)
        ensures
            r.assets@ == Map::<AssetId, Balance>::empty(),
    {
        let assets = HashMap::new();
        Self { assets }
    }

    /// The balance held of a currency, if the wallet has an entry for it.
    pub fn get_asset(&self, asset: Currency) -> (r: Option<&u64>)
        ensures
            r is Some <==> self.assets@.contains_key(currency_asset_id(asset)),
            r is Some ==> *r->0 == self.assets@[currency_asset_id(asset)],
    {
        self.assets.get(&asset.asset_id())
    }
}

impl Default for Wallets {
    fn default() -> (r: Self)
        ensures
            r.assets@ == Map::<AssetId, Balance>::empty(),
    {
        Self::new()
    }
}

/// Balances by internal user id, with the map from external ids to internal ids.
pub struct RiskEngine {
    pub id_map: HashMap<ExternalUserId, InternalUserId>,
    pub accounts: Vec<Balance>,
    pub wallets: Vec<Wallets>,
}

/// The map built by entering each position of `ids` (as a 32-bit key) with the id found
/// there, later positions overwriting earlier ones.
pub open spec fn position_map(ids: Seq<u32>) -> Map<u32, u32>
    decreases ids.len(),
{
    if ids.len() == 0 {
        Map::empty()
    } else {
        position_map(ids.drop_last()).insert((ids.len() - 1) as u32, ids.last())
    }
}

impl RiskEngine {
    pub fn new_empty() -> (r: Self)
        ensures
            r.id_map@ == Map::<ExternalUserId, InternalUserId>::empty(),
            r.accounts@ == Seq::<Balance>::empty(),
            r.wallets@.len() == 0,
    {
        Self { id_map: HashMap::new(), accounts: Vec::new(), wallets: Vec::new() }
    }

    /// A table built from a list of ids: position `e` of the list is entered in the id map
    /// with the id found there, and gets the balance that `balance` holds at that id.
    /// No wallets. Each listed id must be a position of `balance`.
    pub fn new_with_ids_balance(&mut self, external_ids: Vec<ExternalUserId>, balance: Vec<Balance>) -> (r: Self)
        requires
            forall|k: int| 0 <= k < external_ids@.len() ==> (#[trigger] external_ids@[k]) < balance@.len(),
        ensures
            r.id_map@ == position_map(external_ids@),
            r.accounts@ == Seq::new(external_ids@.len(), |k: int| balance@[external_ids@[k] as int]),
            r.wallets@.len() == 0,
    {
        let len = external_ids.len();
        let mut id_map: HashMap<ExternalUserId, InternalUserId> = HashMap::new();
        let mut accounts: Vec<Balance> = Vec::with_capacity(len);
        let mut e: usize = 0;
        while e < len
            invariant
                len == external_ids@.len(),
                e <= len,
                forall|k: int| 0 <= k < external_ids@.len() ==> (#[trigger] external_ids@[k]) < balance@.len(),
                id_map@ == position_map(external_ids@.take(e as int)),
                accounts@ == Seq::new(e as nat, |k: int| balance@[external_ids@[k] as int]),
            decreases len - e,
        {
            let i = external_ids[e];
            proof {
                assert(external_ids@.take(e + 1).drop_last() =~= external_ids@.take(e as int));
                assert(external_ids@.take(e + 1).last() == i);
            }
            id_map.insert(e as u32, i);
            accounts.push(balance[i as usize]);
            e = e + 1;
            proof {
                assert(accounts@ =~= Seq::new(e as nat, |k: int| balance@[external_ids@[k] as int]));
            }
        }
        proof {
            assert(external_ids@.take(len as int) =~= external_ids@);
        }
        let wallets: Vec<Wallets> = Vec::new();
        Self { id_map, accounts, wallets }
    }
}

} // verus!

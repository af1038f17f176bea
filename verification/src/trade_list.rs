//! Trades collected in a `smallvec::SmallVec`. The vector is held in a private
//! field of `TradeList` and reached only through the wrappers below; each states
//! what smallvec's source shows the call does to the stored sequence, and nothing
//! in them is proved.
use vstd::prelude::*;

use smallvec::SmallVec;

use crate::types::Trade;

verus! {

/// The trades of one matching run, in the order they were made.
#[verifier::external_body]
pub struct TradeList {
    inner: SmallVec<[Trade; 8]>,
}

/// The trades a list holds, first to last.
pub uninterp spec fn trade_seq(v: TradeList) -> Seq<Trade>;

/// `SmallVec::with_capacity`: an empty vector with room set aside.
#[verifier::external_body]
fn trades_with_capacity(n: usize) -> (created: TradeList)
    ensures
        trade_seq(created).len() == 0,
{
    TradeList { inner: SmallVec::with_capacity(n) }
}

/// `SmallVec::push`: appends a trade at the end.
#[verifier::external_body]
fn trades_push(v: &mut TradeList, t: Trade)
    ensures
        trade_seq(*final(v)) == trade_seq(*old(v)).push(t),
{
    v.inner.push(t);
}

/// `SmallVec::len`: how many trades are stored.
#[verifier::external_body]
fn trades_len(v: &TradeList) -> (n: usize)
    ensures
        n == trade_seq(*v).len(),
{
    v.inner.len()
}

/// `Index::index` of a small vector: the trade at position `i`.
#[verifier::external_body]
fn trades_get(v: &TradeList, i: usize) -> (t: Trade)
    requires
        i < trade_seq(*v).len(),
    ensures
        t == trade_seq(*v)[i as int],
{
    v.inner[i]
}

impl TradeList {
    pub open spec fn view_seq(&self) -> Seq<Trade> {
        trade_seq(*self)
    }

    pub fn with_capacity(n: usize) -> (r: Self)
        ensures
            r.view_seq() == Seq::<Trade>::empty(),
    {
        let r = trades_with_capacity(n);
        assert(trade_seq(r) =~= Seq::<Trade>::empty());
        r
    }

    pub fn push(&mut self, t: Trade)
        ensures
            final(self).view_seq() == old(self).view_seq().push(t),
    {
        trades_push(self, t);
    }

    pub fn len(&self) -> (n: usize)
        ensures
            n == self.view_seq().len(),
    {
        trades_len(self)
    }

    pub fn is_empty(&self) -> (r: bool)
        ensures
            r == (self.view_seq().len() == 0),
    {
        trades_len(self) == 0
    }

    pub fn get(&self, i: usize) -> (t: Trade)
        requires
            i < self.view_seq().len(),
        ensures
            t == self.view_seq()[i as int],
    {
        trades_get(self, i)
    }

    /// The trades copied out into a `Vec`, in order.
    pub fn to_vec(&self) -> (v: Vec<Trade>)
        ensures
            v@ == self.view_seq(),
    {
        let n = trades_len(self);
        let mut v: Vec<Trade> = Vec::new();
        let mut i: usize = 0;
        while i < n
            invariant
                n == self.view_seq().len(),
                i <= n,
                v@ == self.view_seq().subrange(0, i as int),
            decreases n - i,
        {
            v.push(trades_get(self, i));
            i = i + 1;
            assert(v@ =~= self.view_seq().subrange(0, i as int));
        }
        assert(v@ =~= self.view_seq());
        v
    }
}

} // verus!

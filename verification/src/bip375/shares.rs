//! Adding up the shares of a transaction by scan key.
//!
//! A global share covers all inputs and is taken as it is. Without one, the shares of the inputs
//! are added up.

use vstd::multiset::Multiset;
use vstd::prelude::*;
use crate::bip375::error;
use crate::bip375::input_key;
use crate::bip375::secrets;
use crate::bip375::utils;
use crate::bytes;
use crate::collected;
use crate::hash;
use crate::key_map;
use crate::psbt;
use crate::secp;
use crate::bip375::error::{Error, OtherError};
use crate::bip375::input_key::find_input_key;
use crate::bip375::secrets::{apply_input_hash, outpoints_of};
use crate::bip375::utils::is_input_eligible;
use crate::crypto::error::{CryptoError, SecpError};
use crate::key_map::KeyMap;
use crate::psbt::{Input, Psbt};
use crate::secp::PublicKey;

verus! {

/// What the shares for a scan key add up to.
#[derive(Clone, Copy, Debug, PartialEq, Eq)]
pub struct AggregatedShare {
    /// The global share, or the sum of the inputs' shares.
    pub aggregated_share: PublicKey,
    pub is_global: bool,
    /// The number of inputs that the share covers.
    pub num_inputs: usize,
}

/// What the shares add up to, by scan key.
#[derive(Debug, PartialEq, Eq)]
pub struct AggregatedShares {
    shares: KeyMap<AggregatedShare>,
}

impl View for AggregatedShares {
    type V = Map<Seq<u8>, AggregatedShare>;

    closed spec fn view(&self) -> Map<Seq<u8>, AggregatedShare> {
        self.shares@
    }
}

impl Clone for AggregatedShares {
    /// The same totals.
    fn clone(&self) -> (res: Self)
        ensures
            res@ == self@,
    {
        AggregatedShares { shares: self.shares.clone() }
    }
}

/// The keys are those of the map, in ascending order.
pub open spec fn walks_keys<V>(keys: Seq<Seq<u8>>, map: Map<Seq<u8>, V>) -> bool {
    &&& key_map::ascending(keys)
    &&& forall|key: Seq<u8>| map.contains_key(key) <==> #[trigger] keys.contains(key)
}

impl AggregatedShares {
    /// What the shares for a scan key add up to.
    pub fn get(&self, scan_key: &PublicKey) -> (res: Option<&AggregatedShare>)
        ensures
            match res {
                Some(share) => self@.contains_key(scan_key@) && *share == self@[scan_key@],
                None => !self@.contains_key(scan_key@),
            },
    {
        self.shares.get(scan_key)
    }

    /// The point that the shares for a scan key add up to.
    pub fn get_share_point(&self, scan_key: &PublicKey) -> (res: Option<PublicKey>)
        ensures
            match res {
                Some(point) => self@.contains_key(scan_key@) && point
                    == self@[scan_key@].aggregated_share,
                None => !self@.contains_key(scan_key@),
            },
    {
        match self.shares.get(scan_key) {
            Some(share) => Some(share.aggregated_share),
            None => None,
        }
    }

    /// The scan keys, in ascending order.
    pub fn scan_keys(&self) -> (res: Vec<PublicKey>)
        ensures
            walks_keys(secp::encodings(res@), self@),
    {
        let len = self.shares.len();
        let mut res: Vec<PublicKey> = Vec::new();
        let mut i: usize = 0;
        while i < len
            invariant
                i <= len,
                len == self.shares.keys().len(),
                secp::encodings(res@) == self.shares.keys().take(i as int),
            decreases len - i,
        {
            let (key, _) = self.shares.at(i);
            let ghost before = secp::encodings(res@);
            res.push(*key);
            assert(secp::encodings(res@) =~= before.push(key@));
            i += 1;
            assert(secp::encodings(res@) =~= self.shares.keys().take(i as int));
        }
        assert(self.shares.keys().take(i as int) =~= self.shares.keys());
        res
    }

    /// Whether there are shares for a scan key.
    pub fn has_scan_key(&self, scan_key: &PublicKey) -> (res: bool)
        ensures
            res == self@.contains_key(scan_key@),
    {
        self.shares.get(scan_key).is_some()
    }

    /// The number of scan keys.
    pub fn len(&self) -> (res: usize)
        ensures
            self@.dom().finite(),
            res == self@.dom().len(),
    {
        self.shares.len()
    }

    /// Whether there is no scan key.
    pub fn is_empty(&self) -> (res: bool)
        ensures
            res == (self@ == Map::<Seq<u8>, AggregatedShare>::empty()),
    {
        self.shares.is_empty()
    }

    /// The scan keys and what their shares add up to, in ascending order of the scan keys.
    pub fn iter(&self) -> (res: Vec<(&PublicKey, &AggregatedShare)>)
        ensures
            walks_keys(
                res@.map_values(|entry: (&PublicKey, &AggregatedShare)| entry.0@),
                self@,
            ),
            forall|i: int|
                0 <= i < res@.len() ==> *(#[trigger] res@[i]).1 == self@[res@[i].0@],
    {
        let len = self.shares.len();
        let mut res: Vec<(&PublicKey, &AggregatedShare)> = Vec::new();
        let mut i: usize = 0;
        while i < len
            invariant
                i <= len,
                len == self.shares.keys().len(),
                res@.len() == i,
                forall|j: int|
                    0 <= j < i ==> (#[trigger] res@[j]).0@ == self.shares.keys()[j] && *res@[j].1
                        == self@[res@[j].0@],
            decreases len - i,
        {
            res.push(self.shares.at(i));
            i += 1;
        }
        assert(res@.map_values(|entry: (&PublicKey, &AggregatedShare)| entry.0@)
            =~= self.shares.keys());
        res
    }
}

/// The shares of the inputs for a scan key.
pub open spec fn contributed(inputs: Seq<Input>, scan_key: Seq<u8>) -> Seq<Seq<u8>>
    decreases inputs.len(),
{
    if inputs.len() == 0 {
        Seq::empty()
    } else if inputs.last().sp_ecdh_shares@.contains_key(scan_key) {
        contributed(inputs.drop_last(), scan_key).push(
            inputs.last().sp_ecdh_shares@[scan_key]@,
        )
    } else {
        contributed(inputs.drop_last(), scan_key)
    }
}

/// What the shares for a scan key add up to, by the encoding of the point.
pub struct Total {
    pub share: Seq<u8>,
    pub is_global: bool,
    pub num_inputs: nat,
}

/// What the shares for a scan key add up to: the global share, or else the sum of the inputs'
/// shares. `None` where there are none, or they have no sum.
pub open spec fn total(psbt: Psbt, scan_key: Seq<u8>) -> Option<Total> {
    let shares = contributed(psbt.inputs@, scan_key);
    if psbt.global.sp_ecdh_shares@.contains_key(scan_key) {
        Some(
            Total {
                share: psbt.global.sp_ecdh_shares@[scan_key]@,
                is_global: true,
                num_inputs: psbt.inputs@.len(),
            },
        )
    } else {
        match secp::sum_points(shares) {
            Some(share) => Some(Total { share, is_global: false, num_inputs: shares.len() }),
            None => None,
        }
    }
}

/// Some shares of the inputs that have to be added up have no sum.
pub open spec fn unsummable(psbt: Psbt) -> bool {
    exists|scan_key: Seq<u8>|
        !psbt.global.sp_ecdh_shares@.contains_key(scan_key) && (#[trigger] contributed(
            psbt.inputs@,
            scan_key,
        )).len() > 0 && secp::sum_points(contributed(psbt.inputs@, scan_key)) is None
}

/// An aggregated share is a total.
pub open spec fn is_total(share: AggregatedShare, total: Option<Total>) -> bool {
    total == Some(
        Total {
            share: share.aggregated_share@,
            is_global: share.is_global,
            num_inputs: share.num_inputs as nat,
        },
    )
}

/// The map holds the totals of a transaction.
pub open spec fn holds_totals(shares: Map<Seq<u8>, AggregatedShare>, psbt: Psbt) -> bool {
    &&& forall|scan_key: Seq<u8>| #[trigger]
        shares.contains_key(scan_key) <==> total(psbt, scan_key) is Some
    &&& forall|scan_key: Seq<u8>| #[trigger]
        shares.contains_key(scan_key) ==> is_total(shares[scan_key], total(psbt, scan_key))
}

/// A global share takes precedence: whatever shares the inputs have, it is taken as it is and
/// covers all inputs.
pub proof fn law_global_share_takes_precedence(psbt: Psbt, inputs: Vec<Input>, scan_key: Seq<u8>)
    requires
        psbt.global.sp_ecdh_shares@.contains_key(scan_key),
        inputs@.len() == psbt.inputs@.len(),
    ensures
        total(psbt, scan_key) == total((Psbt { inputs, ..psbt }), scan_key),
        total(psbt, scan_key) == Some(
            Total {
                share: psbt.global.sp_ecdh_shares@[scan_key]@,
                is_global: true,
                num_inputs: psbt.inputs@.len(),
            },
        ),
{
}

/// The shares of the inputs are added up even where they are all the same point: each input counts.
pub proof fn law_equal_shares_are_added(psbt: Psbt, scan_key: Seq<u8>, share: Seq<u8>)
    requires
        psbt.inputs@.len() > 0,
        !psbt.global.sp_ecdh_shares@.contains_key(scan_key),
        forall|i: int|
            0 <= i < psbt.inputs@.len() ==> (
            #[trigger] psbt.inputs@[i]).sp_ecdh_shares@.contains_key(scan_key)
                && psbt.inputs@[i].sp_ecdh_shares@[scan_key]@ == share,
    ensures
        contributed(psbt.inputs@, scan_key) == Seq::new(psbt.inputs@.len(), |i: int| share),
        total(psbt, scan_key) == (match secp::sum_points(
            Seq::new(psbt.inputs@.len(), |i: int| share),
        ) {
            Some(sum) => Some(
                Total { share: sum, is_global: false, num_inputs: psbt.inputs@.len() },
            ),
            None => None,
        }),
{
    lemma_equal_shares(psbt.inputs@, scan_key, share);
}

proof fn lemma_equal_shares(inputs: Seq<Input>, scan_key: Seq<u8>, share: Seq<u8>)
    requires
        forall|i: int|
            0 <= i < inputs.len() ==> (#[trigger] inputs[i]).sp_ecdh_shares@.contains_key(scan_key)
                && inputs[i].sp_ecdh_shares@[scan_key]@ == share,
    ensures
        contributed(inputs, scan_key) == Seq::new(inputs.len(), |i: int| share),
    decreases inputs.len(),
{
    if inputs.len() > 0 {
        let rest = inputs.drop_last();
        assert forall|i: int| 0 <= i < rest.len() implies (
        #[trigger] rest[i]).sp_ecdh_shares@.contains_key(scan_key)
            && rest[i].sp_ecdh_shares@[scan_key]@ == share by {
            assert(rest[i] == inputs[i]);
        }
        lemma_equal_shares(rest, scan_key, share);
        assert(inputs[inputs.len() - 1].sp_ecdh_shares@.contains_key(scan_key));
    }
    assert(contributed(inputs, scan_key) =~= Seq::new(inputs.len(), |i: int| share));
}

/// There is a share for a scan key where an input has one.
pub proof fn lemma_contributor(inputs: Seq<Input>, scan_key: Seq<u8>)
    ensures
        contributed(inputs, scan_key).len() > 0 <==> exists|i: int|
            0 <= i < inputs.len() && (#[trigger] inputs[i]).sp_ecdh_shares@.contains_key(scan_key),
    decreases inputs.len(),
{
    if inputs.len() > 0 {
        let rest = inputs.drop_last();
        lemma_contributor(rest, scan_key);
        if contributed(rest, scan_key).len() > 0 {
            let i = choose|i: int|
                0 <= i < rest.len() && (#[trigger] rest[i]).sp_ecdh_shares@.contains_key(scan_key);
            assert(inputs[i] == rest[i]);
        }
        if exists|i: int|
            0 <= i < inputs.len() && (#[trigger] inputs[i]).sp_ecdh_shares@.contains_key(
                scan_key,
            ) {
            let i = choose|i: int|
                0 <= i < inputs.len() && (#[trigger] inputs[i]).sp_ecdh_shares@.contains_key(
                    scan_key,
                );
            if i < rest.len() {
                assert(rest[i] == inputs[i]);
            }
        }
        if inputs.last().sp_ecdh_shares@.contains_key(scan_key) {
            assert(inputs[inputs.len() - 1] == inputs.last());
        }
    }
}

/// A transaction with the same inputs in another order.
pub open spec fn reordered(psbt: Psbt, other: Psbt) -> bool {
    &&& other == (Psbt { inputs: other.inputs, ..psbt })
    &&& other.inputs@.to_multiset() == psbt.inputs@.to_multiset()
}

/// The shares of two transactions add up to the same, or have no sum in both.
pub open spec fn same_totals(psbt: Psbt, other: Psbt) -> bool {
    &&& psbt.inputs@.len() == other.inputs@.len()
    &&& unsummable(psbt) <==> unsummable(other)
    &&& !unsummable(psbt) ==> forall|scan_key: Seq<u8>| #[trigger]
        total(other, scan_key) == total(psbt, scan_key)
}

/// The share of an input for a scan key, if it has one.
spec fn own_share(input: Input, scan_key: Seq<u8>) -> Multiset<Seq<u8>> {
    if input.sp_ecdh_shares@.contains_key(scan_key) {
        Multiset::singleton(input.sp_ecdh_shares@[scan_key]@)
    } else {
        Multiset::empty()
    }
}

/// Taking an input away takes its share away.
proof fn lemma_contributed_without(inputs: Seq<Input>, j: int, scan_key: Seq<u8>)
    requires
        0 <= j < inputs.len(),
    ensures
        contributed(inputs, scan_key).to_multiset() == contributed(
            inputs.remove(j),
            scan_key,
        ).to_multiset().add(own_share(inputs[j], scan_key)),
    decreases inputs.len(),
{
    let rest = inputs.drop_last();
    let others = inputs.remove(j);
    contributed(rest, scan_key).to_multiset_ensures();
    if j == inputs.len() - 1 {
        assert(others =~= rest);
    } else {
        lemma_contributed_without(rest, j, scan_key);
        assert(others.drop_last() =~= rest.remove(j));
        assert(others.last() == inputs.last());
        contributed(rest.remove(j), scan_key).to_multiset_ensures();
    }
    assert(contributed(inputs, scan_key).to_multiset() =~= contributed(
        others,
        scan_key,
    ).to_multiset().add(own_share(inputs[j], scan_key)));
}

/// The same inputs in another order have the same shares.
proof fn lemma_contributed_order(inputs: Seq<Input>, other: Seq<Input>, scan_key: Seq<u8>)
    requires
        other.to_multiset() == inputs.to_multiset(),
    ensures
        other.len() == inputs.len(),
        contributed(other, scan_key).to_multiset() == contributed(inputs, scan_key).to_multiset(),
    decreases inputs.len(),
{
    inputs.to_multiset_ensures();
    other.to_multiset_ensures();
    if inputs.len() > 0 {
        let last = inputs.last();
        let n = inputs.len() - 1;
        assert(inputs.contains(inputs[n]));
        assert(inputs.to_multiset().count(last) > 0);
        assert(other.contains(last));
        let j = choose|j: int| 0 <= j < other.len() && other[j] == last;
        assert(inputs.remove(n).to_multiset() =~= other.remove(j).to_multiset());
        assert(inputs.remove(n) =~= inputs.drop_last());
        lemma_contributed_order(inputs.drop_last(), other.remove(j), scan_key);
        lemma_contributed_without(inputs, n, scan_key);
        lemma_contributed_without(other, j, scan_key);
    }
}

/// Where the sums of the shares do not depend on the order, the totals do not depend on the order
/// of the inputs.
proof fn lemma_same_totals(psbt: Psbt, other: Psbt)
    requires
        reordered(psbt, other),
        forall|scan_key: Seq<u8>|
            !psbt.global.sp_ecdh_shares@.contains_key(scan_key) && (#[trigger] contributed(
                psbt.inputs@,
                scan_key,
            )).len() > 0 ==> secp::order_free(contributed(psbt.inputs@, scan_key)),
    ensures
        same_totals(psbt, other),
{
    psbt.inputs@.to_multiset_ensures();
    other.inputs@.to_multiset_ensures();
    assert forall|scan_key: Seq<u8>|
        !psbt.global.sp_ecdh_shares@.contains_key(scan_key) implies secp::sum_points(
        #[trigger] contributed(other.inputs@, scan_key),
    ) == secp::sum_points(contributed(psbt.inputs@, scan_key)) && contributed(
        other.inputs@,
        scan_key,
    ).len() == contributed(psbt.inputs@, scan_key).len() by {
        lemma_contributed_order(psbt.inputs@, other.inputs@, scan_key);
        contributed(psbt.inputs@, scan_key).to_multiset_ensures();
        contributed(other.inputs@, scan_key).to_multiset_ensures();
    }
    if unsummable(psbt) {
        let scan_key = choose|scan_key: Seq<u8>|
            !psbt.global.sp_ecdh_shares@.contains_key(scan_key) && (#[trigger] contributed(
                psbt.inputs@,
                scan_key,
            )).len() > 0 && secp::sum_points(contributed(psbt.inputs@, scan_key)) is None;
        assert(contributed(other.inputs@, scan_key).len() > 0);
    }
}

/// Shares without a sum have none in another order of the inputs.
proof fn lemma_still_unsummable(psbt: Psbt, other: Psbt, scan_key: Seq<u8>)
    requires
        reordered(psbt, other),
        !psbt.global.sp_ecdh_shares@.contains_key(scan_key),
        contributed(psbt.inputs@, scan_key).len() > 0,
        secp::sum_points(contributed(psbt.inputs@, scan_key)) is None,
        secp::order_free(contributed(psbt.inputs@, scan_key)),
    ensures
        same_totals(psbt, other),
{
    lemma_contributed_order(psbt.inputs@, other.inputs@, scan_key);
    contributed(psbt.inputs@, scan_key).to_multiset_ensures();
    contributed(other.inputs@, scan_key).to_multiset_ensures();
}

/// The order of the inputs makes no difference to `aggregate_ecdh_shares`: it succeeds for both
/// orders or for neither, and gives the same totals. That the two transactions have `same_totals`
/// is what each call shows of the other order.
pub proof fn law_order_of_inputs(
    psbt: Psbt,
    other: Psbt,
    shares: Map<Seq<u8>, AggregatedShare>,
    other_shares: Map<Seq<u8>, AggregatedShare>,
)
    requires
        reordered(psbt, other),
        same_totals(psbt, other),
        !unsummable(psbt) ==> holds_totals(shares, psbt),
        !unsummable(other) ==> holds_totals(other_shares, other),
    ensures
        psbt.inputs@.len() == other.inputs@.len(),
        unsummable(psbt) <==> unsummable(other),
        !unsummable(psbt) ==> other_shares == shares,
{
    if !unsummable(psbt) {
        assert forall|scan_key: Seq<u8>| #[trigger]
            shares.contains_key(scan_key) <==> other_shares.contains_key(scan_key) by {
            assert(total(other, scan_key) == total(psbt, scan_key));
        }
        assert forall|scan_key: Seq<u8>| #[trigger]
            shares.contains_key(scan_key) implies other_shares[scan_key] == shares[scan_key] by {
            assert(other_shares.contains_key(scan_key));
            assert(total(other, scan_key) == total(psbt, scan_key));
            secp::lemma_same_key(
                shares[scan_key].aggregated_share,
                other_shares[scan_key].aggregated_share,
            );
        }
        assert(other_shares =~= shares);
    }
}

/// Gathers the shares of the inputs for a scan key.
fn gather_contributed(inputs: &Vec<Input>, scan_key: &PublicKey) -> (res: Vec<PublicKey>)
    ensures
        secp::encodings(res@) == contributed(inputs@, scan_key@),
{
    let mut res: Vec<PublicKey> = Vec::new();
    let mut i: usize = 0;
    assert(secp::encodings(res@) =~= Seq::empty());
    while i < inputs.len()
        invariant
            i <= inputs@.len(),
            secp::encodings(res@) == contributed(inputs@.take(i as int), scan_key@),
        decreases inputs@.len() - i,
    {
        assert(inputs@.take(i + 1).drop_last() =~= inputs@.take(i as int));
        if let Some(share) = inputs[i].sp_ecdh_shares.get(scan_key) {
            let ghost before = secp::encodings(res@);
            res.push(*share);
            assert(secp::encodings(res@) =~= before.push(share@));
        }
        i += 1;
    }
    assert(inputs@.take(i as int) =~= inputs@);
    res
}

/// What is known of the totals after the first inputs were walked.
spec fn totals_so_far(shares: Map<Seq<u8>, AggregatedShare>, psbt: Psbt, n: int) -> bool {
    &&& forall|scan_key: Seq<u8>| #[trigger]
        shares.contains_key(scan_key) ==> is_total(shares[scan_key], total(psbt, scan_key))
    &&& forall|scan_key: Seq<u8>| #[trigger]
        psbt.global.sp_ecdh_shares@.contains_key(scan_key) ==> shares.contains_key(scan_key)
    &&& forall|i: int, scan_key: Seq<u8>|
        0 <= i < n && #[trigger] psbt.inputs@[i].sp_ecdh_shares@.contains_key(scan_key)
            ==> shares.contains_key(scan_key)
    &&& forall|scan_key: Seq<u8>| #[trigger]
        shares.contains_key(scan_key) && !psbt.global.sp_ecdh_shares@.contains_key(scan_key)
            ==> secp::order_free(contributed(psbt.inputs@, scan_key))
}

/// Takes the global shares.
fn global_totals(psbt: &Psbt) -> (res: KeyMap<AggregatedShare>)
    ensures
        totals_so_far(res@, *psbt, 0),
{
    let global = &psbt.global.sp_ecdh_shares;
    let num_inputs = psbt.inputs.len();
    let len = global.len();
    let mut res: KeyMap<AggregatedShare> = KeyMap::new();
    let mut i: usize = 0;
    while i < len
        invariant
            i <= len,
            len == global.keys().len(),
            *global == psbt.global.sp_ecdh_shares,
            num_inputs == psbt.inputs@.len(),
            forall|scan_key: Seq<u8>| #[trigger]
                res@.contains_key(scan_key) ==> is_total(
                    res@[scan_key],
                    total(*psbt, scan_key),
                ),
            forall|scan_key: Seq<u8>| #[trigger]
                res@.contains_key(scan_key) ==> global@.contains_key(scan_key),
            forall|j: int| 0 <= j < i ==> res@.contains_key(#[trigger] global.keys()[j]),
        decreases len - i,
    {
        let (scan_key, share) = global.at(i);
        res.insert(
            *scan_key,
            AggregatedShare { aggregated_share: *share, is_global: true, num_inputs },
        );
        i += 1;
    }
    proof {
        assert forall|scan_key: Seq<u8>| #[trigger]
            psbt.global.sp_ecdh_shares@.contains_key(scan_key) implies res@.contains_key(
            scan_key,
        ) by {
            assert(global.keys().contains(scan_key));
            let j = choose|j: int| 0 <= j < global.keys().len() && global.keys()[j] == scan_key;
            assert(res@.contains_key(global.keys()[j]));
        }
    }
    res
}

/// Adds up the shares of a transaction by scan key. The result does not depend on the order of the
/// inputs.
pub fn aggregate_ecdh_shares(psbt: &Psbt) -> (res: Result<AggregatedShares, Error>)
    ensures
        psbt.inputs@.len() == 0 ==> res == Err::<AggregatedShares, _>(
            Error::Other(OtherError::NoInputs),
        ),
        psbt.inputs@.len() > 0 && unsummable(*psbt) ==> res == Err::<AggregatedShares, _>(
            error::no_sum(),
        ),
        psbt.inputs@.len() > 0 && !unsummable(*psbt) ==> (res matches Ok(shares)
            && holds_totals(shares@, *psbt)),
        forall|other: Psbt| #[trigger] reordered(*psbt, other) ==> same_totals(*psbt, other),
{
    if psbt.inputs.len() == 0 {
        proof {
            assert forall|other: Psbt| #[trigger] reordered(*psbt, other) implies same_totals(
                *psbt,
                other,
            ) by {
                lemma_same_totals(*psbt, other);
            }
        }
        return Err(Error::Other(OtherError::NoInputs));
    }
    let mut shares = global_totals(psbt);
    let mut i: usize = 0;
    while i < psbt.inputs.len()
        invariant
            i <= psbt.inputs@.len(),
            psbt.inputs@.len() > 0,
            totals_so_far(shares@, *psbt, i as int),
        decreases psbt.inputs@.len() - i,
    {
        let own = &psbt.inputs[i].sp_ecdh_shares;
        let len = own.len();
        let mut j: usize = 0;
        while j < len
            invariant
                j <= len,
                len == own.keys().len(),
                i < psbt.inputs@.len(),
                *own == psbt.inputs@[i as int].sp_ecdh_shares,
                totals_so_far(shares@, *psbt, i as int),
                forall|k: int| 0 <= k < j ==> shares@.contains_key(#[trigger] own.keys()[k]),
            decreases len - j,
        {
            let (scan_key, _) = own.at(j);
            if shares.get(scan_key).is_none() {
                let points = gather_contributed(&psbt.inputs, scan_key);
                proof {
                    assert(psbt.inputs@[i as int].sp_ecdh_shares@.contains_key(scan_key@));
                    lemma_contributor(psbt.inputs@, scan_key@);
                }
                let Some(aggregated_share) = PublicKey::combine_keys(&points) else {
                    proof {
                        assert forall|other: Psbt| #[trigger]
                            reordered(*psbt, other) implies same_totals(*psbt, other) by {
                            lemma_still_unsummable(*psbt, other, scan_key@);
                        }
                    }
                    return Err(
                        Error::Crypto(CryptoError::Secp256k1(SecpError::InvalidPublicKeySum)),
                    );
                };
                assert(secp::encodings(points@).len() == points@.len());
                shares.insert(
                    *scan_key,
                    AggregatedShare {
                        aggregated_share,
                        is_global: false,
                        num_inputs: points.len(),
                    },
                );
            }
            j += 1;
        }
        proof {
            assert forall|scan_key: Seq<u8>| #[trigger]
                psbt.inputs@[i as int].sp_ecdh_shares@.contains_key(
                    scan_key,
                ) implies shares@.contains_key(scan_key) by {
                assert(own.keys().contains(scan_key));
                let k = choose|k: int| 0 <= k < own.keys().len() && own.keys()[k] == scan_key;
                assert(shares@.contains_key(own.keys()[k]));
            }
        }
        i += 1;
    }
    proof {
        assert forall|scan_key: Seq<u8>|
            !psbt.global.sp_ecdh_shares@.contains_key(scan_key) && (#[trigger] contributed(
                psbt.inputs@,
                scan_key,
            )).len() > 0 implies shares@.contains_key(scan_key) by {
            lemma_contributor(psbt.inputs@, scan_key);
            let k = choose|k: int|
                0 <= k < psbt.inputs@.len() && (
                #[trigger] psbt.inputs@[k]).sp_ecdh_shares@.contains_key(scan_key);
            assert(psbt.inputs@[k].sp_ecdh_shares@.contains_key(scan_key));
        }
        assert forall|scan_key: Seq<u8>| #[trigger] shares@.contains_key(scan_key) <==> total(
            *psbt,
            scan_key,
        ) is Some by {
            if total(*psbt, scan_key) is Some
                && !psbt.global.sp_ecdh_shares@.contains_key(scan_key) {
                assert(contributed(psbt.inputs@, scan_key).len() > 0);
            }
        }
        assert forall|other: Psbt| #[trigger] reordered(*psbt, other) implies same_totals(
            *psbt,
            other,
        ) by {
            lemma_same_totals(*psbt, other);
        }
    }
    Ok(AggregatedShares { shares })
}

/// The key of an input that takes part; `None` for one that does not, or does not show whether it
/// does.
pub open spec fn eligible_key(input: Input, i: int) -> Result<Option<Seq<u8>>, Error> {
    match utils::eligibility(input) {
        Ok(_) => input_key::input_key(input, Some(i as usize)),
        Err(_) => Ok(None),
    }
}

/// What `eligible_key` gives for each input.
pub open spec fn eligible_key_items(inputs: Seq<Input>) -> Seq<Result<Option<Seq<u8>>, Error>> {
    Seq::new(inputs.len(), |i: int| eligible_key(inputs[i], i))
}

/// The sum of the keys of the inputs that take part.
pub open spec fn eligible_key_sum(inputs: Seq<Input>) -> Result<Seq<u8>, Error> {
    match collected::collected(eligible_key_items(inputs)) {
        Err(error) => Err(error),
        Ok(points) => match secp::sum_points(points) {
            Some(sum) => Ok(sum),
            None => Err(error::no_sum()),
        },
    }
}

/// Adds up the keys of the inputs that take part.
fn sum_eligible_keys(inputs: &Vec<Input>) -> (res: Result<PublicKey, Error>)
    ensures
        match res {
            Ok(sum) => eligible_key_sum(inputs@) == Ok::<_, Error>(sum@) && inputs@.len() > 0,
            Err(error) => eligible_key_sum(inputs@) == Err::<Seq<u8>, _>(error),
        },
{
    let ghost items = eligible_key_items(inputs@);
    let mut keys: Vec<PublicKey> = Vec::new();
    let mut i: usize = 0;
    assert(items.take(0) =~= Seq::empty());
    assert(secp::encodings(keys@) =~= Seq::empty());
    while i < inputs.len()
        invariant
            i <= inputs@.len(),
            items == eligible_key_items(inputs@),
            keys@.len() <= i,
            collected::collected(items.take(i as int)) == Ok::<_, Error>(secp::encodings(keys@)),
        decreases inputs@.len() - i,
    {
        proof {
            collected::lemma_step(items, i as int);
            if collected::collected(items.take(i + 1)) is Err {
                collected::lemma_failure(items, i + 1);
            }
        }
        if is_input_eligible(&inputs[i]).is_ok() {
            match find_input_key(&inputs[i], Some(i)) {
                Err(error) => return Err(error),
                Ok(None) => {},
                Ok(Some(key)) => {
                    let ghost before = secp::encodings(keys@);
                    keys.push(key);
                    assert(secp::encodings(keys@) =~= before.push(key@));
                },
            }
        }
        i += 1;
    }
    assert(items.take(i as int) =~= items);
    match PublicKey::combine_keys(&keys) {
        Some(sum) => Ok(sum),
        None => Err(Error::Crypto(CryptoError::Secp256k1(SecpError::InvalidPublicKeySum))),
    }
}

/// The secret that belongs to an aggregated share: the share times the hash over the inputs.
pub open spec fn share_secret(psbt: Psbt, key_sum: Seq<u8>, share: AggregatedShare) -> Option<
    Seq<u8>,
> {
    secrets::hash_applied(share.aggregated_share@, psbt::outpoints(psbt.inputs@), key_sum)
}

/// Computes the shared secrets for the scan keys, from what their shares add up to.
pub fn compute_sp_shared_secrets(psbt: &Psbt, aggregated_shares: &AggregatedShares) -> (res: Result<
    KeyMap<PublicKey>,
    Error,
>)
    ensures
        match eligible_key_sum(psbt.inputs@) {
            Err(error) => res == Err::<KeyMap<PublicKey>, _>(error),
            Ok(key_sum) => match res {
                Ok(secrets) => {
                    &&& forall|scan_key: Seq<u8>| #[trigger]
                        secrets@.contains_key(scan_key) <==> aggregated_shares@.contains_key(
                            scan_key,
                        )
                    &&& forall|scan_key: Seq<u8>| #[trigger]
                        secrets@.contains_key(scan_key) ==> share_secret(
                            *psbt,
                            key_sum,
                            aggregated_shares@[scan_key],
                        ) == Some(secrets@[scan_key]@)
                },
                Err(error) => error == Error::Other(
                    OtherError::InputHash(
                        secrets::hash_failure(psbt::outpoints(psbt.inputs@), key_sum),
                    ),
                ) && exists|
                    scan_key: Seq<u8>,
                | #[trigger]
                    aggregated_shares@.contains_key(scan_key) && share_secret(
                        *psbt,
                        key_sum,
                        aggregated_shares@[scan_key],
                    ) is None,
            },
        },
{
    let key_sum = match sum_eligible_keys(&psbt.inputs) {
        Ok(key_sum) => key_sum,
        Err(error) => return Err(error),
    };
    let outpoints = outpoints_of(&psbt.inputs);
    let len = aggregated_shares.shares.len();
    let ghost keys = aggregated_shares.shares.keys();
    let mut res: KeyMap<PublicKey> = KeyMap::new();
    let mut i: usize = 0;
    while i < len
        invariant
            i <= len,
            keys == aggregated_shares.shares.keys(),
            len == keys.len(),
            psbt.inputs@.len() > 0,
            outpoints@ == psbt::outpoints(psbt.inputs@),
            eligible_key_sum(psbt.inputs@) == Ok::<_, Error>(key_sum@),
            forall|j: int| 0 <= j < i ==> res@.contains_key(#[trigger] keys[j]),
            forall|scan_key: Seq<u8>| #[trigger]
                res@.contains_key(scan_key) ==> aggregated_shares@.contains_key(scan_key)
                    && share_secret(*psbt, key_sum@, aggregated_shares@[scan_key]) == Some(
                    res@[scan_key]@,
                ),
        decreases len - i,
    {
        let (scan_key, share) = aggregated_shares.shares.at(i);
        let secret = match apply_input_hash(&share.aggregated_share, &outpoints, &key_sum) {
            Ok(secret) => secret,
            Err(error) => {
                assert(aggregated_shares@.contains_key(scan_key@));
                return Err(Error::Other(OtherError::InputHash(error)));
            },
        };
        res.insert(*scan_key, secret);
        i += 1;
    }
    proof {
        assert forall|scan_key: Seq<u8>| #[trigger]
            res@.contains_key(scan_key) <==> aggregated_shares@.contains_key(scan_key) by {
            if aggregated_shares@.contains_key(scan_key) {
                assert(keys.contains(scan_key));
                let j = choose|j: int| 0 <= j < keys.len() && keys[j] == scan_key;
                assert(res@.contains_key(keys[j]));
            }
        }
    }
    Ok(res)
}

/// The shares of the inputs for a scan key are those of the inputs that have one, one for each, in
/// their order.
pub proof fn law_contributed_shares(inputs: Seq<Input>, scan_key: Seq<u8>)
    ensures
        contributed(inputs, scan_key) == inputs.filter(
            |input: Input| input.sp_ecdh_shares@.contains_key(scan_key),
        ).map_values(|input: Input| input.sp_ecdh_shares@[scan_key]@),
    decreases inputs.len(),
{
    reveal(Seq::filter);
    let has_share = |input: Input| input.sp_ecdh_shares@.contains_key(scan_key);
    let share = |input: Input| input.sp_ecdh_shares@[scan_key]@;
    if inputs.len() > 0 {
        let rest = inputs.drop_last();
        law_contributed_shares(rest, scan_key);
        if has_share(inputs.last()) {
            assert(inputs.filter(has_share).map_values(share) =~= rest.filter(
                has_share,
            ).map_values(share).push(share(inputs.last())));
        }
    } else {
        assert(inputs.filter(has_share).map_values(share) =~= Seq::empty());
    }
}

/// What is aggregated for a scan key: its global share, which stands for all inputs, or else the
/// combination of the shares that inputs have for it, which stands for those inputs. Nothing is
/// aggregated for a scan key without any share.
pub proof fn law_aggregated_shares(
    psbt: Psbt,
    shares: Map<Seq<u8>, AggregatedShare>,
    scan_key: Seq<u8>,
)
    requires
        holds_totals(shares, psbt),
        !unsummable(psbt),
    ensures
        ({
            let holders = psbt.inputs@.filter(
                |input: Input| input.sp_ecdh_shares@.contains_key(scan_key),
            );
            let global = psbt.global.sp_ecdh_shares@;
            &&& shares.contains_key(scan_key) <==> global.contains_key(scan_key) || holders.len()
                > 0
            &&& global.contains_key(scan_key) ==> {
                &&& shares[scan_key].is_global
                &&& shares[scan_key].aggregated_share@ == global[scan_key]@
                &&& shares[scan_key].num_inputs == psbt.inputs@.len()
            }
            &&& !global.contains_key(scan_key) && holders.len() > 0 ==> {
                &&& !shares[scan_key].is_global
                &&& secp::combined_points(
                    holders.map_values(|input: Input| input.sp_ecdh_shares@[scan_key]@),
                ) == Some(shares[scan_key].aggregated_share@)
                &&& shares[scan_key].num_inputs == holders.len()
            }
        }),
{
    law_contributed_shares(psbt.inputs@, scan_key);
    assert(shares.contains_key(scan_key) <==> total(psbt, scan_key) is Some);
    if !psbt.global.sp_ecdh_shares@.contains_key(scan_key) {
        assert(contributed(psbt.inputs@, scan_key).len() > 0 ==> secp::sum_points(
            contributed(psbt.inputs@, scan_key),
        ) is Some);
    }
}

/// Some shares have no sum exactly where there is a scan key without a global share whose shares of
/// the inputs, of which there are some, cannot be combined.
pub proof fn law_unsummable(psbt: Psbt)
    ensures
        unsummable(psbt) <==> exists|scan_key: Seq<u8>|
            {
                let holders = psbt.inputs@.filter(
                    |input: Input| input.sp_ecdh_shares@.contains_key(scan_key),
                );
                &&& !(#[trigger] psbt.global.sp_ecdh_shares@.contains_key(scan_key))
                &&& holders.len() > 0
                &&& secp::combined_points(
                    holders.map_values(|input: Input| input.sp_ecdh_shares@[scan_key]@),
                ) is None
            },
{
    if unsummable(psbt) {
        let scan_key = choose|scan_key: Seq<u8>|
            !psbt.global.sp_ecdh_shares@.contains_key(scan_key) && (#[trigger] contributed(
                psbt.inputs@,
                scan_key,
            )).len() > 0 && secp::sum_points(contributed(psbt.inputs@, scan_key)) is None;
        law_contributed_shares(psbt.inputs@, scan_key);
        assert(!psbt.global.sp_ecdh_shares@.contains_key(scan_key));
    }
    assert forall|scan_key: Seq<u8>|
        {
            let holders = psbt.inputs@.filter(
                |input: Input| input.sp_ecdh_shares@.contains_key(scan_key),
            );
            &&& !(#[trigger] psbt.global.sp_ecdh_shares@.contains_key(scan_key))
            &&& holders.len() > 0
            &&& secp::combined_points(
                holders.map_values(|input: Input| input.sp_ecdh_shares@[scan_key]@),
            ) is None
        } implies unsummable(psbt) by {
        law_contributed_shares(psbt.inputs@, scan_key);
        assert(contributed(psbt.inputs@, scan_key).len() > 0);
    }
}

/// The sum of the keys is what the keys of the inputs that take part are combined to. It is there
/// where each input that is known to take part has a key, there are some, and they can be combined.
pub proof fn law_eligible_key_sum(inputs: Seq<Input>)
    ensures
        ({
            let points = inputs.filter(
                |input: Input| utils::eligibility(input) == Ok::<_, Error>(true),
            ).map_values(|input: Input| input_key::input_point(input)->Some_0);
            let known = forall|i: int|
                0 <= i < inputs.len() && utils::eligibility(#[trigger] inputs[i]) is Ok
                    ==> input_key::input_key(inputs[i], None) is Ok;
            &&& eligible_key_sum(inputs) is Ok <==> known && points.len() > 0
                && secp::combined_points(points) is Some
            &&& eligible_key_sum(inputs) matches Ok(sum) ==> secp::combined_points(points)
                == Some(sum)
        }),
{
    lemma_eligible_keys(inputs);
}

proof fn lemma_eligible_keys(inputs: Seq<Input>)
    ensures
        collected::collected(eligible_key_items(inputs)) is Ok <==> forall|i: int|
            0 <= i < inputs.len() && utils::eligibility(#[trigger] inputs[i]) is Ok
                ==> input_key::input_key(inputs[i], None) is Ok,
        collected::collected(eligible_key_items(inputs)) matches Ok(points) ==> points
            == inputs.filter(
            |input: Input| utils::eligibility(input) == Ok::<_, Error>(true),
        ).map_values(|input: Input| input_key::input_point(input)->Some_0),
    decreases inputs.len(),
{
    reveal(Seq::filter);
    let takes_part = |input: Input| utils::eligibility(input) == Ok::<_, Error>(true);
    let own_key = |input: Input| input_key::input_point(input)->Some_0;
    let items = eligible_key_items(inputs);
    if inputs.len() > 0 {
        let rest = inputs.drop_last();
        let n = inputs.len() - 1;
        let last = inputs[n];
        lemma_eligible_keys(rest);
        assert(items.drop_last() =~= eligible_key_items(rest));
        assert(items.last() == eligible_key(last, n));
        input_key::law_input_key(last, Some(n as usize));
        assert forall|i: int| 0 <= i < rest.len() implies #[trigger] rest[i] == inputs[i] by {
        }
        if collected::collected(items) is Ok {
            assert forall|i: int|
                0 <= i < inputs.len() && utils::eligibility(
                    #[trigger] inputs[i],
                ) is Ok implies input_key::input_key(inputs[i], None) is Ok by {
                if i < n {
                    assert(rest[i] == inputs[i]);
                }
            }
            if takes_part(last) {
                assert(inputs.filter(takes_part).map_values(own_key) =~= rest.filter(
                    takes_part,
                ).map_values(own_key).push(own_key(last)));
            }
        } else if forall|i: int|
            0 <= i < inputs.len() && utils::eligibility(#[trigger] inputs[i]) is Ok
                ==> input_key::input_key(inputs[i], None) is Ok {
            assert forall|i: int|
                0 <= i < rest.len() && utils::eligibility(
                    #[trigger] rest[i],
                ) is Ok implies input_key::input_key(rest[i], None) is Ok by {
                assert(utils::eligibility(inputs[i]) is Ok);
            }
            assert(utils::eligibility(inputs[n]) is Ok ==> items.last() is Ok);
        }
    } else {
        assert(inputs.filter(takes_part).map_values(own_key) =~= Seq::empty());
    }
}

/// The secret that belongs to an aggregated share is the multiple of the share by the hash over the
/// inputs.
pub proof fn law_share_secret(psbt: Psbt, key_sum: Seq<u8>, share: AggregatedShare)
    ensures
        ({
            let digest = hash::input_digest(psbt::outpoints(psbt.inputs@), key_sum);
            let multiple = secp::point_times(share.aggregated_share@, digest);
            &&& bytes::be_value(digest) < secp::curve_order() ==> share_secret(psbt, key_sum, share)
                == multiple
            &&& bytes::be_value(digest) >= secp::curve_order() ==> share_secret(
                psbt,
                key_sum,
                share,
            ) is None
        }),
{
}

/// Keys that are walked are those of the map, each of them once, from the lowest to the highest.
pub proof fn law_walked_keys<V>(keys: Seq<Seq<u8>>, map: Map<Seq<u8>, V>, i: int, j: int)
    requires
        walks_keys(keys, map),
        0 <= i < j < keys.len(),
    ensures
        bytes::lex_less(keys[i], keys[j]),
        keys[i] != keys[j],
        map.contains_key(keys[i]),
        forall|key: Seq<u8>| map.contains_key(key) ==> keys.contains(key),
{
    bytes::lemma_lex_asymmetric(keys[i], keys[j]);
    assert(keys.contains(keys[i]));
}

} // verus!

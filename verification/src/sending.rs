//! The taproot keys that silent payments go to (BIP-352).

use vstd::prelude::*;
use crate::address_map;
use crate::bip375::types;
use crate::bytes;
use crate::collected;
use crate::hash;
use crate::secp;
use crate::address_map::AddressMap;
use crate::bip375::error::{Error, OtherError};
use crate::bytes::{append_bytes, copy_bytes};
use crate::hash::SharedSecretHash;
use crate::secp::{PublicKey, Scalar};

verus! {

/// The network that an address belongs to.
#[derive(Clone, Copy, Debug, PartialEq, Eq)]
pub enum Network {
    Mainnet,
    Testnet,
    Regtest,
}

/// A payment to a silent payment address, with the secret that sender and receiver share.
pub struct Payment {
    /// The scan key and the spend key.
    pub info: Seq<u8>,
    /// The shared secret, with the hash over the inputs applied.
    pub secret: Seq<u8>,
}

/// A payment to a silent payment address.
#[derive(Clone, Copy, Debug, PartialEq, Eq)]
pub struct Recipient {
    pub scan_key: PublicKey,
    pub spend_key: PublicKey,
    /// The secret that is shared with the receiver, with the hash over the inputs applied.
    pub secret: PublicKey,
}

impl View for Recipient {
    type V = Payment;

    open spec fn view(&self) -> Payment {
        Payment {
            info: types::key_pair(self.scan_key@, self.spend_key@),
            secret: self.secret@,
        }
    }
}

/// The payments that recipients stand for.
pub open spec fn payments_of(recipients: Seq<Recipient>) -> Seq<Payment> {
    recipients.map_values(|recipient: Recipient| recipient@)
}

/// The bytes of an address of version 0.
pub open spec fn address_bytes(info: Seq<u8>) -> Seq<u8> {
    seq![0u8] + info
}

/// How many of the first `n` payments go to a scan key.
pub open spec fn payments_to(payments: Seq<Payment>, n: int, scan_key: Seq<u8>) -> nat
    decreases n,
{
    if n <= 0 {
        0
    } else if types::first_key(payments[n - 1].info) == scan_key {
        payments_to(payments, n - 1, scan_key) + 1
    } else {
        payments_to(payments, n - 1, scan_key)
    }
}

/// The counter of a payment: how many earlier ones go to its scan key.
pub open spec fn counter(payments: Seq<Payment>, i: int) -> nat {
    payments_to(payments, i, types::first_key(payments[i].info))
}

/// The output key of a payment: the x coordinate of the sum of the spend key and the generator's
/// multiple by the hash of the secret and the counter.
pub open spec fn output_key(secret: Seq<u8>, spend_key: Seq<u8>, k: nat) -> Option<Seq<u8>> {
    let digest = hash::output_digest(secret, k);
    if bytes::be_value(digest) < secp::curve_order() {
        match secp::point_plus_base(spend_key, digest) {
            Some(point) => Some(secp::x_coordinate(point)),
            None => None,
        }
    } else {
        None
    }
}

/// The address and the output key of a payment.
pub open spec fn payment_key(payments: Seq<Payment>, i: int) -> Result<
    Option<(Seq<u8>, Seq<u8>)>,
    Error,
> {
    match output_key(
        payments[i].secret,
        types::second_key(payments[i].info),
        counter(payments, i),
    ) {
        Some(key) => Ok(Some((address_bytes(payments[i].info), key))),
        None => Err(Error::Other(OtherError::RecipientKey)),
    }
}

/// What `payment_key` gives for each payment.
pub open spec fn payment_keys(payments: Seq<Payment>) -> Seq<
    Result<Option<(Seq<u8>, Seq<u8>)>, Error>,
> {
    Seq::new(payments.len(), |i: int| payment_key(payments, i))
}

/// The addresses and output keys of the payments.
pub open spec fn recipient_keys(payments: Seq<Payment>) -> Result<Seq<(Seq<u8>, Seq<u8>)>, Error> {
    collected::collected(payment_keys(payments))
}

/// Output keys, by address.
pub open spec fn grouped(list: Seq<(Seq<u8>, Seq<u8>)>) -> Map<Seq<u8>, Seq<Seq<u8>>>
    decreases list.len(),
{
    if list.len() == 0 {
        Map::empty()
    } else {
        address_map::pushed(grouped(list.drop_last()), list.last().0, list.last().1)
    }
}

/// The keys of an address map, as byte strings.
pub open spec fn key_lists(lists: Map<Seq<u8>, Seq<[u8; 32]>>) -> Map<Seq<u8>, Seq<Seq<u8>>> {
    Map::new(
        |address: Seq<u8>| lists.contains_key(address),
        |address: Seq<u8>| lists[address].map_values(|key: [u8; 32]| key@),
    )
}

/// How many of the first `n` entries of a list belong to an address.
pub open spec fn entries_of(list: Seq<(Seq<u8>, Seq<u8>)>, n: int, address: Seq<u8>) -> nat
    decreases n,
{
    if n <= 0 {
        0
    } else if list[n - 1].0 == address {
        entries_of(list, n - 1, address) + 1
    } else {
        entries_of(list, n - 1, address)
    }
}

/// Payments to one scan key have different counters: the later one has the higher counter.
pub proof fn law_counters_differ(payments: Seq<Payment>, i: int, j: int)
    requires
        0 <= i < j < payments.len(),
        types::first_key(payments[i].info) == types::first_key(payments[j].info),
    ensures
        counter(payments, i) < counter(payments, j),
{
    lemma_payments_to_grows(payments, i + 1, j, types::first_key(payments[i].info));
}

proof fn lemma_payments_to_grows(payments: Seq<Payment>, m: int, n: int, scan_key: Seq<u8>)
    requires
        0 <= m <= n,
    ensures
        payments_to(payments, m, scan_key) <= payments_to(payments, n, scan_key),
    decreases n,
{
    if m < n {
        lemma_payments_to_grows(payments, m, n - 1, scan_key);
    }
}

/// Grouping keeps each key, at the place among the keys of its address that it has in the list.
pub proof fn law_grouped(list: Seq<(Seq<u8>, Seq<u8>)>)
    ensures
        forall|address: Seq<u8>| #[trigger]
            grouped(list).contains_key(address) <==> entries_of(list, list.len() as int, address)
                > 0,
        forall|address: Seq<u8>| #[trigger]
            grouped(list).contains_key(address) ==> grouped(list)[address].len() == entries_of(
                list,
                list.len() as int,
                address,
            ),
        forall|i: int|
            0 <= i < list.len() ==> {
                let (address, key) = #[trigger] list[i];
                &&& grouped(list).contains_key(address)
                &&& entries_of(list, i, address) < grouped(list)[address].len()
                &&& grouped(list)[address][entries_of(list, i, address) as int] == key
            },
{
    assert forall|address: Seq<u8>| #[trigger] grouped(list).contains_key(address) <==> entries_of(
        list,
        list.len() as int,
        address,
    ) > 0 by {
        lemma_group_len(list, address);
    }
    assert forall|address: Seq<u8>| #[trigger] grouped(list).contains_key(address) implies grouped(
        list,
    )[address].len() == entries_of(list, list.len() as int, address) by {
        lemma_group_len(list, address);
    }
    assert forall|i: int| 0 <= i < list.len() implies {
        let (address, key) = #[trigger] list[i];
        &&& grouped(list).contains_key(address)
        &&& entries_of(list, i, address) < grouped(list)[address].len()
        &&& grouped(list)[address][entries_of(list, i, address) as int] == key
    } by {
        lemma_group_place(list, i);
    }
}

/// An address has as many keys as entries.
proof fn lemma_group_len(list: Seq<(Seq<u8>, Seq<u8>)>, address: Seq<u8>)
    ensures
        grouped(list).contains_key(address) <==> entries_of(list, list.len() as int, address) > 0,
        grouped(list).contains_key(address) ==> grouped(list)[address].len() == entries_of(
            list,
            list.len() as int,
            address,
        ),
    decreases list.len(),
{
    if list.len() > 0 {
        let rest = list.drop_last();
        lemma_group_len(rest, address);
        lemma_entries_prefix(list, rest, rest.len() as int, address);
        address_map::lemma_pushed(grouped(rest), list.last().0, list.last().1, address);
    }
}

/// The key of an entry stands behind those of the earlier entries of its address.
proof fn lemma_group_place(list: Seq<(Seq<u8>, Seq<u8>)>, i: int)
    requires
        0 <= i < list.len(),
    ensures
        grouped(list).contains_key(list[i].0),
        entries_of(list, i, list[i].0) < grouped(list)[list[i].0].len(),
        grouped(list)[list[i].0][entries_of(list, i, list[i].0) as int] == list[i].1,
    decreases list.len(),
{
    let rest = list.drop_last();
    let address = list[i].0;
    lemma_entries_prefix(list, rest, i, address);
    address_map::lemma_pushed(grouped(rest), list.last().0, list.last().1, address);
    if i < rest.len() {
        lemma_group_place(rest, i);
        assert(rest[i] == list[i]);
    } else {
        lemma_group_len(rest, address);
    }
}

proof fn lemma_entries_prefix(
    list: Seq<(Seq<u8>, Seq<u8>)>,
    rest: Seq<(Seq<u8>, Seq<u8>)>,
    n: int,
    address: Seq<u8>,
)
    requires
        0 <= n <= rest.len() <= list.len(),
        forall|i: int| 0 <= i < rest.len() ==> rest[i] == list[i],
    ensures
        entries_of(list, n, address) == entries_of(rest, n, address),
    decreases n,
{
    if n > 0 {
        lemma_entries_prefix(list, rest, n - 1, address);
    }
}

/// Each payment has an entry in the list of the recipients' keys.
pub proof fn lemma_recipient_keys(payments: Seq<Payment>)
    requires
        recipient_keys(payments) is Ok,
    ensures
        recipient_keys(payments)->Ok_0.len() == payments.len(),
        forall|i: int|
            0 <= i < payments.len() ==> {
                let entry = #[trigger] recipient_keys(payments)->Ok_0[i];
                &&& entry.0 == address_bytes(payments[i].info)
                &&& output_key(
                    payments[i].secret,
                    types::second_key(payments[i].info),
                    counter(payments, i),
                ) == Some(entry.1)
            },
{
    let items = payment_keys(payments);
    collected::lemma_all_values(items);
    assert forall|i: int| 0 <= i < payments.len() implies {
        let entry = #[trigger] recipient_keys(payments)->Ok_0[i];
        &&& entry.0 == address_bytes(payments[i].info)
        &&& output_key(
            payments[i].secret,
            types::second_key(payments[i].info),
            counter(payments, i),
        ) == Some(entry.1)
    } by {
        assert(items[i] == payment_key(payments, i));
    }
}

/// The bytes of the address of version 0 with these keys.
pub fn address_from_info(info: &[u8]) -> (res: [u8; 67])
    requires
        info@.len() == 66,
    ensures
        res@ == address_bytes(info@),
{
    let mut res = [0u8; 67];
    let mut i: usize = 0;
    while i < 66
        invariant
            i <= 66,
            info@.len() == 66,
            res@[0] == 0,
            forall|j: int| 0 <= j < i ==> res@[j + 1] == info@[j],
        decreases 66 - i,
    {
        res[i + 1] = info[i];
        i += 1;
    }
    assert(res@ =~= address_bytes(info@));
    res
}

impl Recipient {
    /// The address that the payment goes to.
    pub fn address(&self) -> (res: [u8; 67])
        ensures
            res@ == address_bytes(self@.info),
    {
        let mut info = copy_bytes(&self.scan_key.serialize());
        append_bytes(&mut info, &self.spend_key.serialize());
        address_from_info(info.as_slice())
    }
}

/// Derives the output key of a payment with a counter; `None` where `output_key` has none.
fn derive_output_key(recipient: &Recipient, k: u32) -> (res: Option<[u8; 32]>)
    ensures
        match res {
            Some(key) => output_key(recipient.secret@, recipient.spend_key@, k as nat) == Some(
                key@,
            ),
            None => output_key(recipient.secret@, recipient.spend_key@, k as nat) is None,
        },
{
    let digest = SharedSecretHash::from_ecdh_and_k(&recipient.secret, k).to_byte_array();
    let Some(tweak) = Scalar::from_be_bytes(digest) else {
        return None;
    };
    match recipient.spend_key.add_exp_tweak(&tweak) {
        Some(point) => Some(point.x_only()),
        None => None,
    }
}

proof fn lemma_recipient_view(recipient: Recipient)
    ensures
        types::first_key(recipient@.info) == recipient.scan_key@,
        types::second_key(recipient@.info) == recipient.spend_key@,
{
    secp::lemma_key_len(recipient.scan_key);
    secp::lemma_key_len(recipient.spend_key);
    assert(types::first_key(recipient@.info) =~= recipient.scan_key@);
    assert(types::second_key(recipient@.info) =~= recipient.spend_key@);
}

/// How many of the first `n` payments go to a scan key.
fn count_payments_to(recipients: &Vec<Recipient>, n: usize, scan_key: &PublicKey) -> (res: usize)
    requires
        n <= recipients@.len(),
    ensures
        res == payments_to(payments_of(recipients@), n as int, scan_key@),
        res <= n,
{
    let mut count: usize = 0;
    let mut i: usize = 0;
    while i < n
        invariant
            i <= n <= recipients@.len(),
            count == payments_to(payments_of(recipients@), i as int, scan_key@),
            count <= i,
        decreases n - i,
    {
        proof {
            lemma_recipient_view(recipients@[i as int]);
        }
        if recipients[i].scan_key.same(scan_key) {
            count += 1;
        }
        i += 1;
    }
    count
}

/// Derives the output keys of payments, by address.
pub fn generate_recipient_pubkeys(recipients: &Vec<Recipient>) -> (res: Result<
    AddressMap<[u8; 32]>,
    Error,
>)
    requires
        recipients@.len() <= u32::MAX,
    ensures
        match recipient_keys(payments_of(recipients@)) {
            Ok(list) => res matches Ok(keys) && key_lists(keys@) == grouped(list),
            Err(error) => res == Err::<AddressMap<[u8; 32]>, _>(error),
        },
{
    let ghost payments = payments_of(recipients@);
    let ghost items = payment_keys(payments);
    let mut keys: AddressMap<[u8; 32]> = AddressMap::new();
    let ghost mut list = Seq::<(Seq<u8>, Seq<u8>)>::empty();
    let mut i: usize = 0;
    assert(items.take(0) =~= Seq::empty());
    assert(key_lists(keys@) =~= grouped(list));
    while i < recipients.len()
        invariant
            i <= recipients@.len() <= u32::MAX,
            payments == payments_of(recipients@),
            items == payment_keys(payments),
            collected::collected(items.take(i as int)) == Ok::<_, Error>(list),
            key_lists(keys@) == grouped(list),
        decreases recipients@.len() - i,
    {
        let recipient = &recipients[i];
        let k = count_payments_to(recipients, i, &recipient.scan_key);
        proof {
            lemma_recipient_view(*recipient);
            collected::lemma_step(items, i as int);
            assert(payments[i as int] == recipient@);
            assert(items[i as int] == payment_key(payments, i as int));
        }
        let Some(key) = derive_output_key(recipient, k as u32) else {
            proof {
                collected::lemma_failure(items, i + 1);
            }
            return Err(Error::Other(OtherError::RecipientKey));
        };
        let address = recipient.address();
        let ghost before = keys@;
        keys.push(address, key);
        proof {
            let entry = (address@, key@);
            lemma_key_lists_pushed(before, address@, key);
            assert(list.push(entry).drop_last() =~= list);
            list = list.push(entry);
        }
        i += 1;
    }
    assert(items.take(i as int) =~= items);
    Ok(keys)
}

proof fn lemma_key_lists_pushed(
    lists: Map<Seq<u8>, Seq<[u8; 32]>>,
    address: Seq<u8>,
    key: [u8; 32],
)
    ensures
        key_lists(address_map::pushed(lists, address, key)) == address_map::pushed(
            key_lists(lists),
            address,
            key@,
        ),
{
    let left = key_lists(address_map::pushed(lists, address, key));
    let right = address_map::pushed(key_lists(lists), address, key@);
    assert forall|a: Seq<u8>| left.contains_key(a) implies #[trigger] left[a] == right[a] by {
        address_map::lemma_pushed(lists, address, key, a);
        address_map::lemma_pushed(key_lists(lists), address, key@, a);
        assert(left[a] =~= right[a]);
    }
    assert(left =~= right);
}

/// The number of earlier payments to a scan key, counted among the payments themselves.
proof fn lemma_payments_filtered(
    payments: Seq<Payment>,
    n: int,
    scan_key: Seq<u8>,
    to_scan_key: spec_fn(Payment) -> bool,
)
    requires
        0 <= n <= payments.len(),
        forall|payment: Payment| #[trigger]
            to_scan_key(payment) == (payment.info.subrange(0, 33) == scan_key),
    ensures
        payments_to(payments, n, scan_key) == payments.take(n).filter(to_scan_key).len(),
    decreases n,
{
    reveal(Seq::filter);
    if n > 0 {
        lemma_payments_filtered(payments, n - 1, scan_key, to_scan_key);
        assert(payments.take(n).drop_last() =~= payments.take(n - 1));
        assert(payments.take(n).last() == payments[n - 1]);
    }
}

/// The counter of a payment is the number of earlier payments to its scan key, which is the first 33
/// bytes of the address.
pub proof fn law_counter_counts(payments: Seq<Payment>, i: int)
    requires
        0 <= i < payments.len(),
    ensures
        counter(payments, i) == payments.take(i).filter(
            |payment: Payment|
                payment.info.subrange(0, 33) == payments[i].info.subrange(0, 33),
        ).len(),
{
    lemma_payments_filtered(
        payments,
        i,
        payments[i].info.subrange(0, 33),
        |payment: Payment| payment.info.subrange(0, 33) == payments[i].info.subrange(0, 33),
    );
}

/// The first payment to a scan key has the counter 0, wherever it stands.
pub proof fn law_first_counter(payments: Seq<Payment>, i: int)
    requires
        0 <= i < payments.len(),
        forall|j: int|
            0 <= j < i ==> (#[trigger] payments[j]).info.subrange(0, 33)
                != payments[i].info.subrange(0, 33),
    ensures
        counter(payments, i) == 0,
{
    lemma_payments_between(payments, 0, i, payments[i].info.subrange(0, 33));
}

/// The next payment to a scan key has the counter of the last one, and one more, however many
/// payments to other scan keys stand between them.
pub proof fn law_next_counter(payments: Seq<Payment>, i: int, j: int)
    requires
        0 <= i < j < payments.len(),
        payments[i].info.subrange(0, 33) == payments[j].info.subrange(0, 33),
        forall|k: int|
            i < k < j ==> (#[trigger] payments[k]).info.subrange(0, 33)
                != payments[j].info.subrange(0, 33),
    ensures
        counter(payments, j) == counter(payments, i) + 1,
{
    lemma_payments_between(payments, i + 1, j, payments[j].info.subrange(0, 33));
}

/// Payments to other scan keys do not count.
proof fn lemma_payments_between(payments: Seq<Payment>, m: int, n: int, scan_key: Seq<u8>)
    requires
        0 <= m <= n <= payments.len(),
        forall|k: int| m <= k < n ==> (#[trigger] payments[k]).info.subrange(0, 33) != scan_key,
    ensures
        payments_to(payments, n, scan_key) == payments_to(payments, m, scan_key),
    decreases n,
{
    if m < n {
        lemma_payments_between(payments, m, n - 1, scan_key);
        assert(payments[n - 1].info.subrange(0, 33) != scan_key);
    }
}

/// The key of an output: the spend key plus the generator times the digest of the shared secret and
/// the counter in four bytes, the highest one first, under the tag `BIP0352/SharedSecret`; the x
/// coordinate of that point stands behind the first byte of its encoding.
pub proof fn law_output_key(secret: Seq<u8>, spend_key: Seq<u8>, k: u32)
    ensures
        ({
            let tag = hash::sha256_digest(hash::SHARED_SECRET_TAG@);
            let digest = hash::sha256_digest(
                tag + tag + secret + seq![
                    (k / 0x100_0000) as u8,
                    (k / 0x1_0000 % 0x100) as u8,
                    (k / 0x100 % 0x100) as u8,
                    (k % 0x100) as u8,
                ],
            );
            output_key(secret, spend_key, k as nat) == (if bytes::be_value(digest)
                >= secp::curve_order() {
                None
            } else {
                match secp::point_plus_base(spend_key, digest) {
                    Some(point) => Some(point.subrange(1, 33)),
                    None => None,
                }
            })
        }),
{
    hash::law_output_digest(secret, k);
}

/// Where the output keys of payments can be derived, there is one for each payment, in their order:
/// under its address, which is a zero byte and the two keys, stands the key that its secret, its
/// spend key and the number of earlier payments to its scan key give. They can be derived where
/// each of them can, and nothing else fails.
pub proof fn law_recipient_keys(payments: Seq<Payment>)
    ensures
        ({
            let keys = Seq::new(
                payments.len(),
                |i: int|
                    output_key(
                        payments[i].secret,
                        payments[i].info.subrange(33, 66),
                        payments.take(i).filter(
                            |payment: Payment|
                                payment.info.subrange(0, 33) == payments[i].info.subrange(0, 33),
                        ).len(),
                    ),
            );
            &&& recipient_keys(payments) is Ok <==> forall|i: int|
                0 <= i < keys.len() ==> (#[trigger] keys[i]) is Some
            &&& recipient_keys(payments) matches Ok(list) ==> list.len() == payments.len()
                && forall|i: int|
                0 <= i < payments.len() ==> (#[trigger] list[i]).0 == seq![0u8] + payments[i].info
                    && Some(list[i].1) == keys[i]
            &&& recipient_keys(payments) matches Err(error) ==> error == Error::Other(
                OtherError::RecipientKey,
            )
        }),
{
    let items = payment_keys(payments);
    let keys = Seq::new(
        payments.len(),
        |i: int|
            output_key(
                payments[i].secret,
                payments[i].info.subrange(33, 66),
                payments.take(i).filter(
                    |payment: Payment|
                        payment.info.subrange(0, 33) == payments[i].info.subrange(0, 33),
                ).len(),
            ),
    );
    assert forall|i: int| 0 <= i < payments.len() implies #[trigger] items[i] == (match keys[i] {
        Some(key) => Ok(Some((seq![0u8] + payments[i].info, key))),
        None => Err(Error::Other(OtherError::RecipientKey)),
    }) by {
        law_counter_counts(payments, i);
    }
    if recipient_keys(payments) is Ok {
        collected::lemma_values(items);
        lemma_recipient_keys(payments);
        assert forall|i: int| 0 <= i < payments.len() implies (#[trigger] keys[i]) is Some by {
            assert(items[i] is Ok);
        }
        let list = recipient_keys(payments)->Ok_0;
        assert forall|i: int| 0 <= i < payments.len() implies (#[trigger] list[i]).0 == seq![0u8]
            + payments[i].info && Some(list[i].1) == keys[i] by {
            law_counter_counts(payments, i);
        }
    } else {
        collected::lemma_failure_source(items);
        let i = choose|i: int|
            0 <= i < items.len() && #[trigger] items[i] == Err::<Option<(Seq<u8>, Seq<u8>)>, _>(
                recipient_keys(payments)->Err_0,
            );
        assert(keys[i] is None);
    }
}

/// Grouping gives each address its keys, in the order of the list: the addresses are those of the
/// entries, and the keys of an address are those of its entries.
pub proof fn law_groups_are_entries(list: Seq<(Seq<u8>, Seq<u8>)>, address: Seq<u8>)
    ensures
        ({
            let entries = list.filter(|entry: (Seq<u8>, Seq<u8>)| entry.0 == address);
            &&& grouped(list).contains_key(address) <==> entries.len() > 0
            &&& entries.len() > 0 ==> grouped(list)[address] == entries.map_values(
                |entry: (Seq<u8>, Seq<u8>)| entry.1,
            )
        }),
    decreases list.len(),
{
    reveal(Seq::filter);
    let own = |entry: (Seq<u8>, Seq<u8>)| entry.0 == address;
    let key = |entry: (Seq<u8>, Seq<u8>)| entry.1;
    if list.len() > 0 {
        let rest = list.drop_last();
        law_groups_are_entries(rest, address);
        address_map::lemma_pushed(grouped(rest), list.last().0, list.last().1, address);
        if list.last().0 == address {
            assert(list.filter(own) == rest.filter(own).push(list.last()));
            assert(list.filter(own).map_values(key) =~= rest.filter(own).map_values(key).push(
                list.last().1,
            ));
            if rest.filter(own).len() == 0 {
                assert(rest.filter(own).map_values(key) =~= Seq::empty());
            }
        }
    }
}

/// A payment of a recipient goes to the recipient's scan key and spend key, in that order, with the
/// recipient's secret.
pub proof fn law_payments_of(recipients: Seq<Recipient>, i: int)
    requires
        0 <= i < recipients.len(),
    ensures
        payments_of(recipients).len() == recipients.len(),
        payments_of(recipients)[i].info == recipients[i].scan_key@ + recipients[i].spend_key@,
        payments_of(recipients)[i].secret == recipients[i].secret@,
{
}

/// The keys of an address map are what their arrays hold.
pub proof fn law_key_lists(lists: Map<Seq<u8>, Seq<[u8; 32]>>, address: Seq<u8>)
    ensures
        key_lists(lists).contains_key(address) == lists.contains_key(address),
        lists.contains_key(address) ==> key_lists(lists)[address].len() == lists[address].len()
            && forall|i: int|
            0 <= i < lists[address].len() ==> #[trigger] key_lists(lists)[address][i]
                == lists[address][i]@,
{
}

} // verus!

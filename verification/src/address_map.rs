//! Lists by silent payment address.

use vstd::prelude::*;
use crate::bytes::bytes_equal;

verus! {

/// The bytes of a silent payment address: the version, the scan key and the spend key.
pub const SILENT_PAYMENT_ADDRESS_BYTE_LEN: usize = 67;

/// The address with these bytes.
pub open spec fn address_of(bytes: Seq<u8>) -> [u8; 67] {
    choose|address: [u8; 67]| address@ == bytes
}

/// An address is the one with its bytes.
pub proof fn lemma_address_of(address: [u8; 67])
    ensures
        address_of(address@) == address,
{
    assert(address_of(address@) =~= address);
}

/// Lists by address.
#[derive(Debug, PartialEq, Eq)]
pub struct AddressMap<T> {
    entries: Vec<([u8; 67], Vec<T>)>,
}

/// Lists by address, after a value was put behind those of an address.
pub open spec fn pushed<T>(lists: Map<Seq<u8>, Seq<T>>, address: Seq<u8>, value: T) -> Map<
    Seq<u8>,
    Seq<T>,
> {
    let list = if lists.contains_key(address) {
        lists[address]
    } else {
        Seq::empty()
    };
    lists.insert(address, list.push(value))
}

/// No address occurs twice.
pub open spec fn distinct(addresses: Seq<Seq<u8>>) -> bool {
    forall|i: int, j: int|
        0 <= i < j < addresses.len() ==> #[trigger] addresses[i] != #[trigger] addresses[j]
}

impl<T> View for AddressMap<T> {
    type V = Map<Seq<u8>, Seq<T>>;

    closed spec fn view(&self) -> Map<Seq<u8>, Seq<T>> {
        Map::new(
            |address: Seq<u8>| self.addresses().contains(address),
            |address: Seq<u8>| self.entries@[self.addresses().index_of(address)].1@,
        )
    }
}

impl<T> AddressMap<T> {
    /// The addresses, in the order in which they were first added.
    pub closed spec fn addresses(self) -> Seq<Seq<u8>> {
        self.entries@.map_values(|entry: ([u8; 67], Vec<T>)| entry.0@)
    }

    #[verifier::type_invariant]
    spec fn well_formed(self) -> bool {
        distinct(self.addresses())
    }

    /// The map with no address.
    pub fn new() -> (res: Self)
        ensures
            res@ == Map::<Seq<u8>, Seq<T>>::empty(),
    {
        let res = AddressMap { entries: Vec::new() };
        assert(res@ =~= Map::<Seq<u8>, Seq<T>>::empty());
        res
    }

    /// The number of addresses. They are distinct, and are those that the map holds.
    pub fn len(&self) -> (res: usize)
        ensures
            res == self.addresses().len(),
            self@.dom().finite(),
            res == self@.dom().len(),
            distinct(self.addresses()),
            forall|address: Seq<u8>|
                self@.contains_key(address) <==> #[trigger] self.addresses().contains(address),
    {
        proof {
            use_type_invariant(self);
            self.addresses().unique_seq_to_set();
            assert(self@.dom() =~= self.addresses().to_set());
        }
        self.entries.len()
    }

    proof fn lemma_index(self, i: int)
        requires
            self.well_formed(),
            0 <= i < self.addresses().len(),
        ensures
            self.addresses().index_of(self.addresses()[i]) == i,
            self@.contains_key(self.addresses()[i]),
            self@[self.addresses()[i]] == self.entries@[i].1@,
    {
        assert(self.addresses().contains(self.addresses()[i]));
    }

    /// The address at a position, and its list.
    pub fn at(&self, i: usize) -> (res: (&[u8; 67], &Vec<T>))
        requires
            i < self.addresses().len(),
        ensures
            res.0@ == self.addresses()[i as int],
            self@.contains_key(res.0@),
            self@[res.0@] == res.1@,
    {
        proof {
            use_type_invariant(self);
            self.lemma_index(i as int);
        }
        let entry = &self.entries[i];
        (&entry.0, &entry.1)
    }

    /// The position of an address, or the number of addresses where it is not there.
    fn position(&self, address: &[u8; 67]) -> (res: usize)
        ensures
            res <= self.addresses().len(),
            res < self.addresses().len() ==> self.addresses()[res as int] == address@,
            res == self.addresses().len() ==> !self.addresses().contains(address@),
    {
        let mut i: usize = 0;
        while i < self.entries.len()
            invariant
                i <= self.entries@.len(),
                forall|j: int| 0 <= j < i ==> #[trigger] self.addresses()[j] != address@,
            decreases self.entries@.len() - i,
        {
            if bytes_equal(&self.entries[i].0, address) {
                return i;
            }
            i += 1;
        }
        i
    }

    /// The list of an address.
    pub fn get(&self, address: &[u8; 67]) -> (res: Option<&Vec<T>>)
        ensures
            match res {
                Some(list) => self@.contains_key(address@) && list@ == self@[address@],
                None => !self@.contains_key(address@),
            },
    {
        let i = self.position(address);
        if i < self.entries.len() {
            proof {
                use_type_invariant(self);
                self.lemma_index(i as int);
            }
            Some(&self.entries[i].1)
        } else {
            None
        }
    }

    /// Puts a value behind those of an address.
    pub fn push(&mut self, address: [u8; 67], value: T)
        ensures
            final(self)@ == pushed(old(self)@, address@, value),
    {
        proof {
            use_type_invariant(&*self);
        }
        let ghost before = *self;
        let i = self.position(&address);
        let mut entries: Vec<([u8; 67], Vec<T>)> = Vec::new();
        core::mem::swap(&mut self.entries, &mut entries);
        if i < entries.len() {
            entries[i].1.push(value);
        } else {
            let mut list: Vec<T> = Vec::new();
            list.push(value);
            entries.push((address, list));
        }
        proof {
            before.lemma_push(AddressMap { entries }, i as int, address, value);
        }
        self.entries = entries;
    }

    /// What `push` puts together is a map with the value behind the others.
    proof fn lemma_push(self, map: AddressMap<T>, i: int, address: [u8; 67], value: T)
        requires
            self.well_formed(),
            0 <= i <= self.entries@.len(),
            i < self.entries@.len() ==> self.addresses()[i] == address@ && map.entries@.len()
                == self.entries@.len() && map.entries@[i].0 == self.entries@[i].0
                && map.entries@[i].1@ == self.entries@[i].1@.push(value),
            i == self.entries@.len() ==> !self.addresses().contains(address@)
                && map.entries@.len() == i + 1 && map.entries@[i].0 == address
                && map.entries@[i].1@ == seq![value],
            forall|j: int|
                0 <= j < self.entries@.len() && j != i ==> #[trigger] map.entries@[j]
                    == self.entries@[j],
        ensures
            map.well_formed(),
            map@ == pushed(self@, address@, value),
    {
        let before = self.addresses();
        let after = map.addresses();
        assert(forall|j: int| 0 <= j < before.len() ==> #[trigger] after[j] == before[j]);
        assert(after[i] == address@);
        assert(map.well_formed());
        let expected = pushed(self@, address@, value);
        assert forall|key: Seq<u8>| map@.contains_key(key) <==> expected.contains_key(key) by {
            if map@.contains_key(key) {
                let j = choose|j: int| 0 <= j < after.len() && after[j] == key;
                if j < before.len() {
                    assert(before[j] == key);
                    assert(before.contains(key));
                }
            }
            if self@.contains_key(key) {
                let j = choose|j: int| 0 <= j < before.len() && before[j] == key;
                assert(after[j] == key);
                assert(after.contains(key));
            }
            if key == address@ {
                assert(after.contains(after[i]));
            }
        }
        assert forall|key: Seq<u8>| map@.contains_key(key) implies #[trigger] map@[key]
            == expected[key] by {
            let j = choose|j: int| 0 <= j < after.len() && after[j] == key;
            map.lemma_index(j);
            if j < before.len() {
                self.lemma_index(j);
            }
            if j == i && i == before.len() {
                assert(seq![value] =~= Seq::empty().push(value));
            }
        }
        assert(map@ =~= expected);
    }
}

/// A value that is pushed stands behind the others of its address, and those of the other addresses
/// stay as they are.
pub proof fn law_pushed<T>(
    lists: Map<Seq<u8>, Seq<T>>,
    address: Seq<u8>,
    value: T,
    other: Seq<u8>,
)
    ensures
        pushed(lists, address, value).contains_key(address),
        pushed(lists, address, value)[address].last() == value,
        lists.contains_key(address) ==> pushed(lists, address, value)[address].drop_last()
            == lists[address],
        !lists.contains_key(address) ==> pushed(lists, address, value)[address].len() == 1,
        other != address ==> pushed(lists, address, value).contains_key(other)
            == lists.contains_key(other),
        other != address && lists.contains_key(other) ==> pushed(lists, address, value)[other]
            == lists[other],
{
    if lists.contains_key(address) {
        assert(pushed(lists, address, value)[address].drop_last() =~= lists[address]);
    }
}

/// What pushing a value does to the list of an address.
pub proof fn lemma_pushed<T>(
    lists: Map<Seq<u8>, Seq<T>>,
    address: Seq<u8>,
    value: T,
    other: Seq<u8>,
)
    ensures
        pushed(lists, address, value).contains_key(other) <==> other == address
            || lists.contains_key(other),
        other == address && lists.contains_key(address) ==> pushed(lists, address, value)[other]
            == lists[address].push(value),
        other == address && !lists.contains_key(address) ==> pushed(lists, address, value)[other]
            == Seq::<T>::empty().push(value),
        other != address && lists.contains_key(other) ==> pushed(lists, address, value)[other]
            == lists[other],
{
}

} // verus!

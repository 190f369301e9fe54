use vstd::prelude::*;
use vstd::slice::slice_subrange;
use std::collections::HashMap;
use crate::types::address::{lemma_pow16_40, Address};
use crate::types::u256::{
    be_value, lemma_be_value_bound, lemma_pow16_64, lemma_pow16_monotonic, U256,
};

pub mod edges_binary;
pub mod edges_csv;
pub mod safes_binary;

pub use edges_binary::{read_edges_binary, write_edges_binary};
pub use edges_csv::{read_edges_csv, write_edges_csv};
pub use safes_binary::import_from_safes_binary;

verus! {

broadcast use vstd::std_specs::hash::group_hash_axioms;

/// The list of addresses at the head of a file, each kept under its place in the
/// list.
pub struct AddressIndex {
    entries: HashMap<u32, Address>,
    count: u32,
}

impl View for AddressIndex {
    type V = Seq<Address>;

    closed spec fn view(&self) -> Seq<Address> {
        Seq::new(self.count as nat, |i: int| self.entries@[i as u32])
    }
}

impl AddressIndex {
    /// The places that hold an address are those below the number of addresses.
    pub closed spec fn wf(&self) -> bool {
        forall|i: u32| #[trigger] self.entries@.contains_key(i) <==> i < self.count
    }

    /// A list without addresses.
    pub fn new() -> (r: Self)
        ensures
            r.wf(),
            r@ == Seq::<Address>::empty(),
    {
        let r = AddressIndex { entries: HashMap::new(), count: 0 };
        assert(r@ =~= Seq::<Address>::empty());
        r
    }

    /// The number of addresses.
    pub fn len(&self) -> (r: u32)
        ensures
            r == self@.len(),
    {
        self.count
    }

    /// Puts an address behind the others.
    pub fn push(&mut self, a: Address)
        requires
            old(self).wf(),
            old(self)@.len() < u32::MAX,
        ensures
            final(self).wf(),
            final(self)@ == old(self)@.push(a),
    {
        let ghost before = self@;
        self.entries.insert(self.count, a);
        self.count = self.count + 1;
        assert(self@ =~= before.push(a));
    }

    /// The address at a place, if the list is that long.
    pub fn get(&self, index: u32) -> (r: Option<Address>)
        requires
            self.wf(),
        ensures
            r == if index < self@.len() {
                Some(self@[index as int])
            } else {
                None::<Address>
            },
    {
        match self.entries.get(&index) {
            Some(a) => Some(*a),
            None => None,
        }
    }
}

/// Why a file of accounts could not be read.
#[derive(Debug, Clone, Copy, PartialEq, Eq, Structural)]
pub enum ImportError {
    /// The file ends before what it announces.
    UnexpectedEof,
    /// A number is announced with more than 32 bytes.
    NumberTooLong,
    /// An account is named by a place beyond the list of addresses.
    UnknownAddress,
    /// A record names the address of all zero bytes.
    ZeroAddress,
    /// A percentage is above 100.
    InvalidPercentage,
}

/// The byte at a place, where the data reach that far.
pub open spec fn u8_at(data: Seq<u8>, pos: int) -> Option<u8> {
    if 0 <= pos < data.len() {
        Some(data[pos])
    } else {
        None
    }
}

/// The number that the four bytes from a place on stand for, the first weighing
/// most, where the data reach that far.
pub open spec fn u32_at(data: Seq<u8>, pos: int) -> Option<u32> {
    if 0 <= pos && pos + 4 <= data.len() {
        Some(
            (((data[pos] * 256 + data[pos + 1]) * 256 + data[pos + 2]) * 256 + data[pos + 3]) as u32,
        )
    } else {
        None
    }
}

/// The address that the twenty bytes from a place on are, where the data reach that
/// far.
pub open spec fn address_at(data: Seq<u8>, pos: int) -> Option<Address> {
    if 0 <= pos && pos + 20 <= data.len() {
        Some(Address::from_nat(be_value(data.subrange(pos, pos + 20))))
    } else {
        None
    }
}

/// The amount written from a place on, with the place behind it: one byte that
/// says how many bytes follow, at most 32, and those bytes, the first weighing
/// most.
pub open spec fn u256_at(data: Seq<u8>, pos: int) -> Result<(U256, int), ImportError> {
    match u8_at(data, pos) {
        None => Err(ImportError::UnexpectedEof),
        Some(len) => if len > 32 {
            Err(ImportError::NumberTooLong)
        } else if pos + 1 + len > data.len() {
            Err(ImportError::UnexpectedEof)
        } else {
            Ok((U256::from_nat(be_value(data.subrange(pos + 1, pos + 1 + len))), pos + 1 + len))
        },
    }
}

/// The address that the four bytes from a place on name by its place in the list
/// of addresses.
pub open spec fn address_ref(data: Seq<u8>, addresses: Seq<Address>, pos: int) -> Result<
    Address,
    ImportError,
> {
    match u32_at(data, pos) {
        None => Err(ImportError::UnexpectedEof),
        Some(i) => if i < addresses.len() {
            Ok(addresses[i as int])
        } else {
            Err(ImportError::UnknownAddress)
        },
    }
}

/// Reads one byte and moves on.
pub fn read_u8(data: &[u8], pos: &mut usize) -> (r: Result<u8, ImportError>)
    ensures
        match u8_at(data@, *old(pos) as int) {
            Some(v) => r == Ok::<u8, ImportError>(v) && *final(pos) == *old(pos) + 1,
            None => r == Err::<u8, ImportError>(ImportError::UnexpectedEof) && *final(pos) == *old(pos),
        },
{
    if *pos < data.len() {
        let v = data[*pos];
        *pos = *pos + 1;
        Ok(v)
    } else {
        Err(ImportError::UnexpectedEof)
    }
}

/// Reads a number of four bytes, the first weighing most, and moves on.
pub fn read_u32(data: &[u8], pos: &mut usize) -> (r: Result<u32, ImportError>)
    ensures
        match u32_at(data@, *old(pos) as int) {
            Some(v) => r == Ok::<u32, ImportError>(v) && *final(pos) == *old(pos) + 4,
            None => r == Err::<u32, ImportError>(ImportError::UnexpectedEof) && *final(pos) == *old(pos),
        },
{
    let at = *pos;
    if at <= data.len() && data.len() - at >= 4 {
        let v: u32 = ((data[at] as u32 * 256 + data[at + 1] as u32) * 256 + data[at + 2] as u32)
            * 256 + data[at + 3] as u32;
        *pos = at + 4;
        Ok(v)
    } else {
        Err(ImportError::UnexpectedEof)
    }
}

/// Reads an address of twenty bytes and moves on.
pub fn read_raw_address(data: &[u8], pos: &mut usize) -> (r: Result<Address, ImportError>)
    ensures
        match address_at(data@, *old(pos) as int) {
            Some(a) => r == Ok::<Address, ImportError>(a) && *final(pos) == *old(pos) + 20,
            None => r == Err::<Address, ImportError>(ImportError::UnexpectedEof) && *final(pos)
                == *old(pos),
        },
{
    let at = *pos;
    if at <= data.len() && data.len() - at >= 20 {
        let bytes = slice_subrange(data, at, at + 20);
        proof {
            lemma_be_value_bound(bytes@);
            lemma_pow16_40();
            lemma_pow16_monotonic(40, 64);
            lemma_pow16_64();
        }
        let value = match U256::from_be_bytes(bytes) {
            Some(value) => value,
            None => U256::zero(),
        };
        let a = Address::from_u256(value);
        proof {
            Address::lemma_from_nat(a@);
            Address::lemma_view_injective(a, Address::from_nat(a@));
        }
        *pos = at + 20;
        Ok(a)
    } else {
        Err(ImportError::UnexpectedEof)
    }
}

/// Reads the place of an address in the list of addresses, gives the address, and
/// moves on.
pub fn read_address(data: &[u8], pos: &mut usize, address_index: &AddressIndex) -> (r: Result<
    Address,
    ImportError,
>)
    requires
        address_index.wf(),
    ensures
        r == address_ref(data@, address_index@, *old(pos) as int),
        r is Ok ==> *final(pos) == *old(pos) + 4,
{
    let index = match read_u32(data, pos) {
        Ok(index) => index,
        Err(e) => {
            return Err(e);
        },
    };
    match address_index.get(index) {
        Some(a) => Ok(a),
        None => Err(ImportError::UnknownAddress),
    }
}

/// Reads an amount, written as the number of its bytes and the bytes, and moves on.
pub fn read_u256(data: &[u8], pos: &mut usize) -> (r: Result<U256, ImportError>)
    ensures
        match u256_at(data@, *old(pos) as int) {
            Ok((v, end)) => r == Ok::<U256, ImportError>(v) && *final(pos) == end,
            Err(e) => r == Err::<U256, ImportError>(e),
        },
{
    let length = match read_u8(data, pos) {
        Ok(length) => length as usize,
        Err(e) => {
            return Err(e);
        },
    };
    if length > 32 {
        return Err(ImportError::NumberTooLong);
    }
    let at = *pos;
    if data.len() - at < length {
        return Err(ImportError::UnexpectedEof);
    }
    let bytes = slice_subrange(data, at, at + length);
    proof {
        lemma_be_value_bound(bytes@);
        lemma_pow16_monotonic(2 * bytes@.len(), 64);
        lemma_pow16_64();
    }
    let value = match U256::from_be_bytes(bytes) {
        Some(value) => value,
        None => U256::zero(),
    };
    proof {
        U256::lemma_from_nat(value@);
        U256::lemma_view_injective(value, U256::from_nat(value@));
    }
    *pos = at + length;
    Ok(value)
}

} // verus!

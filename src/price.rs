//! The record type shared by both stores, and byte-array helpers.
use vstd::prelude::*;

verus! {

/// One price record. A record whose symbol is all zero bytes marks an empty slot.
#[derive(Clone, Copy, Debug, PartialEq, Eq)]
pub struct Price {
    pub symbol: [u8; 8],
    pub rate: u64,
    pub last_updated: u64,
    pub request_id: u64,
}

/// The all-zero symbol that marks an empty slot.
pub open spec fn sentinel() -> Seq<u8> {
    Seq::new(8, |i: int| 0u8)
}

pub open spec fn is_sentinel(symbol: Seq<u8>) -> bool {
    symbol == sentinel()
}

/// The empty record: sentinel symbol and all numbers zero.
pub open spec fn is_empty_price(p: Price) -> bool {
    &&& is_sentinel(p.symbol@)
    &&& p.rate == 0
    &&& p.last_updated == 0
    &&& p.request_id == 0
}

/// Byte-for-byte equality of two arrays of the same length.
pub fn bytes_eq<const N: usize>(a: &[u8; N], b: &[u8; N]) -> (r: bool)
    ensures
        r == (a@ == b@),
{
    let mut i: usize = 0;
    while i < N
        invariant
            0 <= i <= N,
            a@.len() == N,
            b@.len() == N,
            forall|j: int| 0 <= j < i ==> a@[j] == b@[j],
        decreases N - i,
    {
        if a[i] != b[i] {
            assert(a@[i as int] != b@[i as int]);
            return false;
        }
        i += 1;
    }
    assert(a@ =~= b@);
    true
}

/// Whether a symbol is the sentinel.
pub fn is_sentinel_symbol(symbol: &[u8; 8]) -> (r: bool)
    ensures
        r == is_sentinel(symbol@),
{
    let zero: [u8; 8] = [0u8; 8];
    assert(zero@ =~= sentinel());
    bytes_eq(symbol, &zero)
}

impl Price {
    /// The empty record.
    pub fn get_empty() -> (r: Price)
        ensures
            is_empty_price(r),
    {
        let symbol: [u8; 8] = [0u8; 8];
        assert(symbol@ =~= sentinel());
        Price { symbol, rate: 0, last_updated: 0, request_id: 0 }
    }

    /// `size` empty records.
    pub fn get_empty_prices(size: u8) -> (r: Vec<Price>)
        ensures
            r@.len() == size as nat,
            forall|i: int| 0 <= i < r@.len() ==> is_empty_price(#[trigger] r@[i]),
    {
        let mut r: Vec<Price> = Vec::new();
        let mut i: u8 = 0;
        while i < size
            invariant
                i <= size,
                r@.len() == i as nat,
                forall|j: int| 0 <= j < r@.len() ==> is_empty_price(#[trigger] r@[j]),
            decreases size - i,
        {
            r.push(Price::get_empty());
            i += 1;
        }
        r
    }
}

} // verus!

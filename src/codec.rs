//! The byte layout of both stores' buffers: fields in declaration order,
//! integers little-endian, the slot sequence preceded by its length as a
//! four-byte little-endian count. Decoding consumes the whole buffer.
use vstd::prelude::*;
use crate::price::Price;
use crate::std_reference_basic::{PriceDBKeeper, same_keeper};
use crate::simple_price_db::SimplePriceDB;

verus! {

pub open spec fn le_u64(x: u64) -> Seq<u8> {
    seq![
        x as u8,
        (x >> 8u64) as u8,
        (x >> 16u64) as u8,
        (x >> 24u64) as u8,
        (x >> 32u64) as u8,
        (x >> 40u64) as u8,
        (x >> 48u64) as u8,
        (x >> 56u64) as u8,
    ]
}

pub open spec fn le_u32(x: u32) -> Seq<u8> {
    seq![x as u8, (x >> 8u32) as u8, (x >> 16u32) as u8, (x >> 24u32) as u8]
}

/// One record: its symbol, then rate, last update and request id.
pub open spec fn price_bytes(p: Price) -> Seq<u8> {
    p.symbol@ + le_u64(p.rate) + le_u64(p.last_updated) + le_u64(p.request_id)
}

pub open spec fn prices_bytes(s: Seq<Price>) -> Seq<u8>
    decreases s.len(),
{
    if s.len() == 0 {
        Seq::empty()
    } else {
        prices_bytes(s.drop_last()) + price_bytes(s.last())
    }
}

pub open spec fn symbols_bytes(s: Seq<[u8; 8]>) -> Seq<u8>
    decreases s.len(),
{
    if s.len() == 0 {
        Seq::empty()
    } else {
        symbols_bytes(s.drop_last()) + s.last()@
    }
}

/// A keeper buffer: owner, active count, slot count, slots.
pub open spec fn keeper_bytes(owner: Seq<u8>, size: u8, slots: Seq<Price>) -> Seq<u8> {
    owner + seq![size] + le_u32(slots.len() as u32) + prices_bytes(slots)
}

pub open spec fn encoding_of(k: PriceDBKeeper) -> Seq<u8> {
    keeper_bytes(k.owner@, k.current_size, k.prices@)
}

/// Whether some keeper state with at most `u32::MAX` slots is encoded as `data`.
pub open spec fn encodes_keeper(data: Seq<u8>) -> bool {
    exists|o: [u8; 32], z: u8, s: Seq<Price>|
        s.len() <= u32::MAX && #[trigger] keeper_bytes(o@, z, s) == data
}

/// A mirror buffer: owner, cached symbol, cached rate.
pub open spec fn mirror_bytes(owner: Seq<u8>, symbol: Seq<u8>, rate: u64) -> Seq<u8> {
    owner + symbol + le_u64(rate)
}

/// What decoding a keeper buffer gives: a state that encodes exactly as the
/// buffer, or nothing when no state does.
pub open spec fn decoded_keeper(data: Seq<u8>, r: Option<PriceDBKeeper>) -> bool {
    match r {
        Some(k) => encoding_of(k) == data && k.prices@.len() <= u32::MAX,
        None => !encodes_keeper(data),
    }
}

pub open spec fn mirror_encoding(m: SimplePriceDB) -> Seq<u8> {
    mirror_bytes(m.owner@, m.latest_symbol@, m.latest_price)
}

/// What decoding a mirror buffer gives: a state that encodes exactly as the
/// buffer, or nothing when the buffer has the wrong length.
pub open spec fn decoded_mirror(data: Seq<u8>, r: Option<SimplePriceDB>) -> bool {
    match r {
        Some(m) => mirror_encoding(m) == data,
        None => data.len() != 48,
    }
}


pub proof fn lemma_le_u64_injective(a: u64, b: u64)
    requires
        le_u64(a) == le_u64(b),
    ensures
        a == b,
{
    assert(le_u64(a)[0] == le_u64(b)[0]);
    assert(le_u64(a)[1] == le_u64(b)[1]);
    assert(le_u64(a)[2] == le_u64(b)[2]);
    assert(le_u64(a)[3] == le_u64(b)[3]);
    assert(le_u64(a)[4] == le_u64(b)[4]);
    assert(le_u64(a)[5] == le_u64(b)[5]);
    assert(le_u64(a)[6] == le_u64(b)[6]);
    assert(le_u64(a)[7] == le_u64(b)[7]);
    assert(a == b) by (bit_vector)
        requires
            a as u8 == b as u8,
            (a >> 8u64) as u8 == (b >> 8u64) as u8,
            (a >> 16u64) as u8 == (b >> 16u64) as u8,
            (a >> 24u64) as u8 == (b >> 24u64) as u8,
            (a >> 32u64) as u8 == (b >> 32u64) as u8,
            (a >> 40u64) as u8 == (b >> 40u64) as u8,
            (a >> 48u64) as u8 == (b >> 48u64) as u8,
            (a >> 56u64) as u8 == (b >> 56u64) as u8,
    ;
}

pub proof fn lemma_le_u32_injective(a: u32, b: u32)
    requires
        le_u32(a) == le_u32(b),
    ensures
        a == b,
{
    assert(le_u32(a)[0] == le_u32(b)[0]);
    assert(le_u32(a)[1] == le_u32(b)[1]);
    assert(le_u32(a)[2] == le_u32(b)[2]);
    assert(le_u32(a)[3] == le_u32(b)[3]);
    assert(a == b) by (bit_vector)
        requires
            a as u8 == b as u8,
            (a >> 8u32) as u8 == (b >> 8u32) as u8,
            (a >> 16u32) as u8 == (b >> 16u32) as u8,
            (a >> 24u32) as u8 == (b >> 24u32) as u8,
    ;
}

pub proof fn lemma_prices_bytes_len(s: Seq<Price>)
    ensures
        prices_bytes(s).len() == 32 * s.len(),
    decreases s.len(),
{
    if s.len() > 0 {
        lemma_prices_bytes_len(s.drop_last());
    }
}

pub proof fn lemma_price_bytes_injective(a: Price, b: Price)
    requires
        price_bytes(a) == price_bytes(b),
    ensures
        a == b,
{
    let x = price_bytes(a);
    let y = price_bytes(b);
    assert(a.symbol@ =~= x.subrange(0, 8));
    assert(b.symbol@ =~= y.subrange(0, 8));
    assert(a.symbol =~= b.symbol);
    assert(le_u64(a.rate) =~= x.subrange(8, 16));
    assert(le_u64(b.rate) =~= y.subrange(8, 16));
    lemma_le_u64_injective(a.rate, b.rate);
    assert(le_u64(a.last_updated) =~= x.subrange(16, 24));
    assert(le_u64(b.last_updated) =~= y.subrange(16, 24));
    lemma_le_u64_injective(a.last_updated, b.last_updated);
    assert(le_u64(a.request_id) =~= x.subrange(24, 32));
    assert(le_u64(b.request_id) =~= y.subrange(24, 32));
    lemma_le_u64_injective(a.request_id, b.request_id);
}

pub proof fn lemma_prices_bytes_injective(a: Seq<Price>, b: Seq<Price>)
    requires
        a.len() == b.len(),
        prices_bytes(a) == prices_bytes(b),
    ensures
        a == b,
    decreases a.len(),
{
    if a.len() > 0 {
        let n = a.len();
        lemma_prices_bytes_len(a.drop_last());
        lemma_prices_bytes_len(b.drop_last());
        let m = 32 * (n - 1);
        let x = prices_bytes(a);
        assert(prices_bytes(a.drop_last()) =~= x.subrange(0, m));
        assert(prices_bytes(b.drop_last()) =~= prices_bytes(b).subrange(0, m));
        assert(price_bytes(a.last()) =~= x.subrange(m, m + 32));
        assert(price_bytes(b.last()) =~= prices_bytes(b).subrange(m, m + 32));
        lemma_prices_bytes_injective(a.drop_last(), b.drop_last());
        lemma_price_bytes_injective(a.last(), b.last());
        assert(a =~= a.drop_last().push(a.last()));
        assert(b =~= b.drop_last().push(b.last()));
    }
}

/// Distinct keeper states have distinct encodings.
pub proof fn lemma_keeper_bytes_injective(
    o1: Seq<u8>,
    z1: u8,
    s1: Seq<Price>,
    o2: Seq<u8>,
    z2: u8,
    s2: Seq<Price>,
)
    requires
        o1.len() == 32,
        o2.len() == 32,
        s1.len() <= u32::MAX,
        s2.len() <= u32::MAX,
        keeper_bytes(o1, z1, s1) == keeper_bytes(o2, z2, s2),
    ensures
        o1 == o2,
        z1 == z2,
        s1 == s2,
{
    let x = keeper_bytes(o1, z1, s1);
    let y = keeper_bytes(o2, z2, s2);
    assert(o1 =~= x.subrange(0, 32));
    assert(o2 =~= y.subrange(0, 32));
    assert(x[32] == z1);
    assert(y[32] == z2);
    assert(le_u32(s1.len() as u32) =~= x.subrange(33, 37));
    assert(le_u32(s2.len() as u32) =~= y.subrange(33, 37));
    lemma_le_u32_injective(s1.len() as u32, s2.len() as u32);
    assert(prices_bytes(s1) =~= x.subrange(37, x.len() as int));
    assert(prices_bytes(s2) =~= y.subrange(37, y.len() as int));
    lemma_prices_bytes_injective(s1, s2);
}

pub proof fn lemma_symbols_bytes_len(s: Seq<[u8; 8]>)
    ensures
        symbols_bytes(s).len() == 8 * s.len(),
    decreases s.len(),
{
    if s.len() > 0 {
        lemma_symbols_bytes_len(s.drop_last());
    }
}

pub proof fn lemma_symbols_bytes_injective(a: Seq<[u8; 8]>, b: Seq<[u8; 8]>)
    requires
        a.len() == b.len(),
        symbols_bytes(a) == symbols_bytes(b),
    ensures
        a == b,
    decreases a.len(),
{
    if a.len() > 0 {
        let n = a.len();
        lemma_symbols_bytes_len(a.drop_last());
        lemma_symbols_bytes_len(b.drop_last());
        let m = 8 * (n - 1);
        let x = symbols_bytes(a);
        assert(symbols_bytes(a.drop_last()) =~= x.subrange(0, m));
        assert(symbols_bytes(b.drop_last()) =~= symbols_bytes(b).subrange(0, m));
        assert(a.last()@ =~= x.subrange(m, m + 8));
        assert(b.last()@ =~= symbols_bytes(b).subrange(m, m + 8));
        lemma_symbols_bytes_injective(a.drop_last(), b.drop_last());
        assert(a.last() =~= b.last());
        assert(a =~= a.drop_last().push(a.last()));
        assert(b =~= b.drop_last().push(b.last()));
    }
}

fn push_array<const N: usize>(out: &mut Vec<u8>, a: &[u8; N])
    ensures
        final(out)@ == old(out)@ + a@,
{
    let ghost start = out@;
    let mut i: usize = 0;
    while i < N
        invariant
            0 <= i <= N,
            a@.len() == N,
            out@ == start + a@.take(i as int),
        decreases N - i,
    {
        out.push(a[i]);
        i += 1;
        assert(out@ =~= start + a@.take(i as int));
    }
    assert(a@.take(N as int) =~= a@);
}

fn push_u32(out: &mut Vec<u8>, x: u32)
    ensures
        final(out)@ == old(out)@ + le_u32(x),
{
    out.push(#[verifier::truncate] (x as u8));
    out.push(#[verifier::truncate] ((x >> 8u32) as u8));
    out.push(#[verifier::truncate] ((x >> 16u32) as u8));
    out.push(#[verifier::truncate] ((x >> 24u32) as u8));
    assert(final(out)@ =~= old(out)@ + le_u32(x));
}

fn push_u64(out: &mut Vec<u8>, x: u64)
    ensures
        final(out)@ == old(out)@ + le_u64(x),
{
    out.push(#[verifier::truncate] (x as u8));
    out.push(#[verifier::truncate] ((x >> 8u64) as u8));
    out.push(#[verifier::truncate] ((x >> 16u64) as u8));
    out.push(#[verifier::truncate] ((x >> 24u64) as u8));
    out.push(#[verifier::truncate] ((x >> 32u64) as u8));
    out.push(#[verifier::truncate] ((x >> 40u64) as u8));
    out.push(#[verifier::truncate] ((x >> 48u64) as u8));
    out.push(#[verifier::truncate] ((x >> 56u64) as u8));
    assert(final(out)@ =~= old(out)@ + le_u64(x));
}

pub(crate) fn read_u64(data: &Vec<u8>, at: usize) -> (r: u64)
    requires
        at + 8 <= data.len(),
    ensures
        le_u64(r) == data@.subrange(at as int, at + 8),
{
    let b0 = data[at] as u64;
    let b1 = data[at + 1] as u64;
    let b2 = data[at + 2] as u64;
    let b3 = data[at + 3] as u64;
    let b4 = data[at + 4] as u64;
    let b5 = data[at + 5] as u64;
    let b6 = data[at + 6] as u64;
    let b7 = data[at + 7] as u64;
    let r = b0 | (b1 << 8u64) | (b2 << 16u64) | (b3 << 24u64) | (b4 << 32u64) | (b5 << 40u64) | (
    b6 << 48u64) | (b7 << 56u64);
    assert(r as u8 == b0 as u8 && (r >> 8u64) as u8 == b1 as u8 && (r >> 16u64) as u8 == b2 as u8
        && (r >> 24u64) as u8 == b3 as u8 && (r >> 32u64) as u8 == b4 as u8 && (r >> 40u64) as u8
        == b5 as u8 && (r >> 48u64) as u8 == b6 as u8 && (r >> 56u64) as u8 == b7 as u8)
        by (bit_vector)
        requires
            b0 < 256 && b1 < 256 && b2 < 256 && b3 < 256 && b4 < 256 && b5 < 256 && b6 < 256 && b7
                < 256,
            r == b0 | (b1 << 8u64) | (b2 << 16u64) | (b3 << 24u64) | (b4 << 32u64) | (b5 << 40u64)
                | (b6 << 48u64) | (b7 << 56u64),
    ;
    assert(le_u64(r) =~= data@.subrange(at as int, at + 8));
    r
}

pub(crate) fn read_u32(data: &Vec<u8>, at: usize) -> (r: u32)
    requires
        at + 4 <= data.len(),
    ensures
        le_u32(r) == data@.subrange(at as int, at + 4),
{
    let b0 = data[at] as u32;
    let b1 = data[at + 1] as u32;
    let b2 = data[at + 2] as u32;
    let b3 = data[at + 3] as u32;
    let r = b0 | (b1 << 8u32) | (b2 << 16u32) | (b3 << 24u32);
    assert(r as u8 == b0 as u8 && (r >> 8u32) as u8 == b1 as u8 && (r >> 16u32) as u8 == b2 as u8
        && (r >> 24u32) as u8 == b3 as u8) by (bit_vector)
        requires
            b0 < 256 && b1 < 256 && b2 < 256 && b3 < 256,
            r == b0 | (b1 << 8u32) | (b2 << 16u32) | (b3 << 24u32),
    ;
    assert(le_u32(r) =~= data@.subrange(at as int, at + 4));
    r
}

pub(crate) fn read_owner(data: &Vec<u8>, at: usize) -> (r: [u8; 32])
    requires
        at + 32 <= data.len(),
    ensures
        r@ == data@.subrange(at as int, at + 32),
{
    let mut a: [u8; 32] = [0u8; 32];
    let mut i: usize = 0;
    while i < 32
        invariant
            0 <= i <= 32,
            at + 32 <= data.len(),
            forall|j: int| 0 <= j < i ==> a@[j] == data@[at + j],
        decreases 32 - i,
    {
        a[i] = data[at + i];
        i += 1;
    }
    assert(a@ =~= data@.subrange(at as int, at + 32));
    a
}

pub(crate) fn read_symbol(data: &Vec<u8>, at: usize) -> (r: [u8; 8])
    requires
        at + 8 <= data.len(),
    ensures
        r@ == data@.subrange(at as int, at + 8),
{
    let mut a: [u8; 8] = [0u8; 8];
    let mut i: usize = 0;
    while i < 8
        invariant
            0 <= i <= 8,
            at + 8 <= data.len(),
            forall|j: int| 0 <= j < i ==> a@[j] == data@[at + j],
        decreases 8 - i,
    {
        a[i] = data[at + i];
        i += 1;
    }
    assert(a@ =~= data@.subrange(at as int, at + 8));
    a
}

fn read_price(data: &Vec<u8>, at: usize) -> (r: Price)
    requires
        at + 32 <= data.len(),
    ensures
        price_bytes(r) == data@.subrange(at as int, at + 32),
{
    let symbol = read_symbol(data, at);
    let rate = read_u64(data, at + 8);
    let last_updated = read_u64(data, at + 16);
    let request_id = read_u64(data, at + 24);
    let r = Price { symbol, rate, last_updated, request_id };
    assert(price_bytes(r) =~= data@.subrange(at as int, at + 32));
    r
}

/// Reads `count` records that fill `data` from `at` to its end.
pub(crate) fn read_prices_to_end(data: &Vec<u8>, at: usize, count: u32) -> (r: Option<Vec<Price>>)
    requires
        at <= data.len(),
    ensures
        match r {
            Some(v) => v@.len() == count && prices_bytes(v@) == data@.subrange(at as int, data@.len() as int),
            None => data@.len() - at != 32 * count,
        },
{
    let mut prices: Vec<Price> = Vec::new();
    let mut pos: usize = at;
    let mut j: u32 = 0;
    while j < count
        invariant
            0 <= j <= count,
            at <= pos <= data.len(),
            pos == at + 32 * j,
            prices@.len() == j,
            prices_bytes(prices@) == data@.subrange(at as int, pos as int),
        decreases count - j,
    {
        if data.len() - pos < 32 {
            return None;
        }
        let p = read_price(data, pos);
        let ghost before = prices@;
        prices.push(p);
        assert(prices@.drop_last() =~= before);
        pos += 32;
        j += 1;
        assert(prices_bytes(prices@) =~= data@.subrange(at as int, pos as int));
    }
    if pos != data.len() {
        return None;
    }
    Some(prices)
}

/// Reads `count` symbols that fill `data` from `at` to its end.
pub(crate) fn read_symbols_to_end(data: &Vec<u8>, at: usize, count: u32) -> (r: Option<Vec<[u8; 8]>>)
    requires
        at <= data.len(),
    ensures
        match r {
            Some(v) => v@.len() == count && symbols_bytes(v@) == data@.subrange(at as int, data@.len() as int),
            None => data@.len() - at != 8 * count,
        },
{
    let mut keys: Vec<[u8; 8]> = Vec::new();
    let mut pos: usize = at;
    let mut j: u32 = 0;
    while j < count
        invariant
            0 <= j <= count,
            at <= pos <= data.len(),
            pos == at + 8 * j,
            keys@.len() == j,
            symbols_bytes(keys@) == data@.subrange(at as int, pos as int),
        decreases count - j,
    {
        if data.len() - pos < 8 {
            return None;
        }
        let key = read_symbol(data, pos);
        let ghost before = keys@;
        keys.push(key);
        assert(keys@.drop_last() =~= before);
        pos += 8;
        j += 1;
        assert(symbols_bytes(keys@) =~= data@.subrange(at as int, pos as int));
    }
    if pos != data.len() {
        return None;
    }
    Some(keys)
}

/// The bytes of a keeper state.
pub fn encode_keeper(k: &PriceDBKeeper) -> (r: Vec<u8>)
    requires
        k.prices@.len() <= u32::MAX,
    ensures
        r@ == encoding_of(*k),
{
    let mut out: Vec<u8> = Vec::new();
    push_array(&mut out, &k.owner);
    out.push(k.current_size);
    push_u32(&mut out, k.prices.len() as u32);
    let ghost head = out@;
    let mut j: usize = 0;
    while j < k.prices.len()
        invariant
            0 <= j <= k.prices@.len(),
            out@ == head + prices_bytes(k.prices@.take(j as int)),
        decreases k.prices@.len() - j,
    {
        let p = k.prices[j];
        push_array(&mut out, &p.symbol);
        push_u64(&mut out, p.rate);
        push_u64(&mut out, p.last_updated);
        push_u64(&mut out, p.request_id);
        assert(k.prices@.take(j + 1).drop_last() =~= k.prices@.take(j as int));
        j += 1;
        assert(out@ =~= head + prices_bytes(k.prices@.take(j as int)));
    }
    assert(k.prices@.take(k.prices@.len() as int) =~= k.prices@);
    assert(out@ =~= encoding_of(*k));
    out
}

/// Reads a keeper state from a buffer that holds exactly its encoding.
pub fn decode_keeper(data: &Vec<u8>) -> (r: Option<PriceDBKeeper>)
    ensures
        decoded_keeper(data@, r),
{
    if data.len() < 37 {
        proof {
            assert forall|o: [u8; 32], z: u8, s: Seq<Price>|
                s.len() <= u32::MAX implies #[trigger] keeper_bytes(o@, z, s) != data@ by {
                lemma_prices_bytes_len(s);
            }
        }
        return None;
    }
    let owner = read_owner(data, 0);
    let current_size = data[32];
    let count = read_u32(data, 33);
    proof {
        if encodes_keeper(data@) {
            let (o, z, s) = choose|o: [u8; 32], z: u8, s: Seq<Price>|
                s.len() <= u32::MAX && #[trigger] keeper_bytes(o@, z, s) == data@;
            let x = keeper_bytes(o@, z, s);
            assert(le_u32(s.len() as u32) =~= x.subrange(33, 37));
            lemma_le_u32_injective(s.len() as u32, count);
            lemma_prices_bytes_len(s);
            assert(data@.len() - 37 == 32 * count);
        }
    }
    let prices = match read_prices_to_end(data, 37, count) {
        Some(v) => v,
        None => {
            return None;
        },
    };
    let k = PriceDBKeeper { owner, current_size, prices };
    assert(encoding_of(k) =~= data@);
    Some(k)
}

/// The bytes of a mirror state.
pub fn encode_mirror(m: &SimplePriceDB) -> (r: Vec<u8>)
    ensures
        r@ == mirror_encoding(*m),
{
    let mut out: Vec<u8> = Vec::new();
    push_array(&mut out, &m.owner);
    push_array(&mut out, &m.latest_symbol);
    push_u64(&mut out, m.latest_price);
    assert(out@ =~= mirror_encoding(*m));
    out
}

/// Reads a mirror state from a buffer that holds exactly its encoding.
pub fn decode_mirror(data: &Vec<u8>) -> (r: Option<SimplePriceDB>)
    ensures
        decoded_mirror(data@, r),
{
    if data.len() != 48 {
        return None;
    }
    let owner = read_owner(data, 0);
    let latest_symbol = read_symbol(data, 32);
    let latest_price = read_u64(data, 40);
    let m = SimplePriceDB { owner, latest_symbol, latest_price };
    assert(mirror_encoding(m) =~= data@);
    Some(m)
}

/// Writes `bytes` over the front of `data`, as a store into a fixed-size
/// buffer: the bytes past them are left as they were. Fails, writing
/// nothing, when they do not fit.
pub fn store(data: &mut Vec<u8>, bytes: &Vec<u8>) -> (r: bool)
    ensures
        r == (bytes@.len() <= old(data)@.len()),
        r ==> final(data)@ == bytes@ + old(data)@.subrange(bytes@.len() as int, old(data)@.len() as int),
        !r ==> final(data)@ == old(data)@,
{
    if bytes.len() > data.len() {
        return false;
    }
    let ghost start = data@;
    let mut i: usize = 0;
    while i < bytes.len()
        invariant
            0 <= i <= bytes@.len(),
            bytes@.len() <= start.len(),
            data@.len() == start.len(),
            forall|j: int| 0 <= j < i ==> data@[j] == bytes@[j],
            forall|j: int| i <= j < start.len() ==> data@[j] == start[j],
        decreases bytes@.len() - i,
    {
        data[i] = bytes[i];
        i += 1;
    }
    assert(data@ =~= bytes@ + start.subrange(bytes@.len() as int, start.len() as int));
    true
}

/// Decoding the encoding of a keeper state gives that state back.
pub proof fn lemma_keeper_round_trip(k: PriceDBKeeper, r: Option<PriceDBKeeper>)
    requires
        k.prices@.len() <= u32::MAX,
        decoded_keeper(encoding_of(k), r),
    ensures
        r matches Some(d) && same_keeper(d, k),
{
    if r is None {
        assert(keeper_bytes(k.owner@, k.current_size, k.prices@) == encoding_of(k));
    } else {
        let d = r->Some_0;
        lemma_keeper_bytes_injective(
            d.owner@,
            d.current_size,
            d.prices@,
            k.owner@,
            k.current_size,
            k.prices@,
        );
    }
}

/// Decoding the encoding of a mirror state gives that state back.
pub proof fn lemma_mirror_round_trip(m: SimplePriceDB, r: Option<SimplePriceDB>)
    requires
        decoded_mirror(mirror_encoding(m), r),
    ensures
        r matches Some(d) && d == m,
{
    let x = mirror_encoding(m);
    assert(x.len() == 48);
    let d = r->Some_0;
    let y = mirror_encoding(d);
    assert(m.owner@ =~= x.subrange(0, 32));
    assert(d.owner@ =~= y.subrange(0, 32));
    assert(m.owner =~= d.owner);
    assert(m.latest_symbol@ =~= x.subrange(32, 40));
    assert(d.latest_symbol@ =~= y.subrange(32, 40));
    assert(m.latest_symbol =~= d.latest_symbol);
    assert(le_u64(m.latest_price) =~= x.subrange(40, 48));
    assert(le_u64(d.latest_price) =~= y.subrange(40, 48));
    lemma_le_u64_injective(m.latest_price, d.latest_price);
}

} // verus!

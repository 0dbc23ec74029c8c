//! The record keeper: a fixed-capacity slot array of price records with an
//! owner and an active count, mutated by upsert (relay) and compaction (remove).
use vstd::prelude::*;
use crate::price::{Price, is_sentinel, is_empty_price, bytes_eq, is_sentinel_symbol};
use crate::gate::{PriceDbError, Signer, initialized, owner_gate, is_initialized, check_owner};
use crate::codec::{
    le_u32, prices_bytes, symbols_bytes, read_owner, read_u32, read_prices_to_end,
    read_symbols_to_end, lemma_le_u32_injective, lemma_symbols_bytes_len,
    lemma_symbols_bytes_injective, lemma_prices_bytes_injective, keeper_bytes, encoding_of, encodes_keeper, encode_keeper, decode_keeper, store,
    lemma_keeper_bytes_injective, lemma_prices_bytes_len,
};

verus! {

/// The operations on a keeper, each over the keeper's buffer.
#[derive(Debug, PartialEq, Eq)]
pub enum Command {
    /// Set up an uninitialized buffer with this many empty slots and this owner.
    Init(u8, [u8; 32]),
    TransferOwnership([u8; 32]),
    Relay(Vec<Price>),
    Remove(Vec<[u8; 8]>),
}

/// The bytes of a command: a tag byte, then the fields in order, a sequence
/// preceded by its length as a four-byte little-endian count.
pub open spec fn command_bytes(c: Command) -> Seq<u8> {
    match c {
        Command::Init(size, owner) => seq![0u8, size] + owner@,
        Command::TransferOwnership(owner) => seq![1u8] + owner@,
        Command::Relay(batch) => seq![2u8] + le_u32(batch@.len() as u32) + prices_bytes(batch@),
        Command::Remove(keys) => seq![3u8] + le_u32(keys@.len() as u32) + symbols_bytes(keys@),
    }
}

/// A command whose sequence fits a four-byte count.
pub open spec fn command_fits(c: Command) -> bool {
    match c {
        Command::Relay(batch) => batch@.len() <= u32::MAX,
        Command::Remove(keys) => keys@.len() <= u32::MAX,
        _ => true,
    }
}

pub open spec fn encodes_command(data: Seq<u8>) -> bool {
    exists|c: Command| command_fits(c) && #[trigger] command_bytes(c) == data
}

/// Two commands with the same bytes are the same command, their sequences
/// compared through views.
pub proof fn lemma_command_bytes_injective(c1: Command, c2: Command)
    requires
        command_fits(c1),
        command_fits(c2),
        command_bytes(c1) == command_bytes(c2),
    ensures
        match (c1, c2) {
            (Command::Init(a, b), Command::Init(x, y)) => a == x && b == y,
            (Command::TransferOwnership(a), Command::TransferOwnership(x)) => a == x,
            (Command::Relay(a), Command::Relay(x)) => a@ == x@,
            (Command::Remove(a), Command::Remove(x)) => a@ == x@,
            _ => false,
        },
{
    let d = command_bytes(c1);
    assert(command_bytes(c1)[0] == command_bytes(c2)[0]);
    match (c1, c2) {
        (Command::Init(a, b), Command::Init(x, y)) => {
            assert(d[1] == a);
            assert(command_bytes(c2)[1] == x);
            assert(b@ =~= d.subrange(2, 34));
            assert(y@ =~= command_bytes(c2).subrange(2, 34));
            assert(b =~= y);
        },
        (Command::TransferOwnership(a), Command::TransferOwnership(x)) => {
            assert(a@ =~= d.subrange(1, 33));
            assert(x@ =~= command_bytes(c2).subrange(1, 33));
            assert(a =~= x);
        },
        (Command::Relay(a), Command::Relay(x)) => {
            assert(le_u32(a@.len() as u32) =~= d.subrange(1, 5));
            assert(le_u32(x@.len() as u32) =~= command_bytes(c2).subrange(1, 5));
            lemma_le_u32_injective(a@.len() as u32, x@.len() as u32);
            assert(prices_bytes(a@) =~= d.subrange(5, d.len() as int));
            assert(prices_bytes(x@) =~= command_bytes(c2).subrange(5, d.len() as int));
            lemma_prices_bytes_injective(a@, x@);
        },
        (Command::Remove(a), Command::Remove(x)) => {
            assert(le_u32(a@.len() as u32) =~= d.subrange(1, 5));
            assert(le_u32(x@.len() as u32) =~= command_bytes(c2).subrange(1, 5));
            lemma_le_u32_injective(a@.len() as u32, x@.len() as u32);
            assert(symbols_bytes(a@) =~= d.subrange(5, d.len() as int));
            assert(symbols_bytes(x@) =~= command_bytes(c2).subrange(5, d.len() as int));
            lemma_symbols_bytes_injective(a@, x@);
        },
        _ => {},
    }
}

impl Command {
    /// Reads a command from bytes that hold exactly its encoding.
    pub fn decode(data: &Vec<u8>) -> (r: Option<Command>)
        ensures
            match r {
                Some(c) => command_fits(c) && command_bytes(c) == data@,
                None => !encodes_command(data@),
            },
    {
        let ghost c0 = choose|c: Command| command_fits(c) && #[trigger] command_bytes(c) == data@;
        proof {
            if encodes_command(data@) {
                assert(command_bytes(c0)[0] == data@[0]);
                match c0 {
                    Command::Relay(batch) => {
                        lemma_prices_bytes_len(batch@);
                        assert(le_u32(batch@.len() as u32) =~= data@.subrange(1, 5));
                    },
                    Command::Remove(keys) => {
                        lemma_symbols_bytes_len(keys@);
                        assert(le_u32(keys@.len() as u32) =~= data@.subrange(1, 5));
                    },
                    _ => {},
                }
            }
        }
        if data.len() == 0 {
            return None;
        }
        let tag = data[0];
        if tag == 0 {
            if data.len() != 34 {
                return None;
            }
            let owner = read_owner(data, 2);
            let c = Command::Init(data[1], owner);
            assert(command_bytes(c) =~= data@);
            Some(c)
        } else if tag == 1 {
            if data.len() != 33 {
                return None;
            }
            let owner = read_owner(data, 1);
            let c = Command::TransferOwnership(owner);
            assert(command_bytes(c) =~= data@);
            Some(c)
        } else if tag == 2 || tag == 3 {
            if data.len() < 5 {
                return None;
            }
            let count = read_u32(data, 1);
            if tag == 2 {
                proof {
                    if encodes_command(data@) {
                        let n = c0->Relay_0@.len();
                        lemma_le_u32_injective(n as u32, count);
                    }
                }
                match read_prices_to_end(data, 5, count) {
                    Some(batch) => {
                        let c = Command::Relay(batch);
                        assert(command_bytes(c) =~= data@);
                        Some(c)
                    },
                    None => None,
                }
            } else {
                proof {
                    if encodes_command(data@) {
                        let n = c0->Remove_0@.len();
                        lemma_le_u32_injective(n as u32, count);
                    }
                }
                match read_symbols_to_end(data, 5, count) {
                    Some(keys) => {
                        let c = Command::Remove(keys);
                        assert(command_bytes(c) =~= data@);
                        Some(c)
                    },
                    None => None,
                }
            }
        } else {
            None
        }
    }
}

/// The keeper's state: `prices` has a fixed length, its capacity.
#[derive(Debug, PartialEq, Eq)]
pub struct PriceDBKeeper {
    pub owner: [u8; 32],
    pub current_size: u8,
    pub prices: Vec<Price>,
}

/// The slot that a lookup of `key` settles on, scanning from index `i`: the
/// first slot holding `key`, unless an empty slot comes first.
pub open spec fn scan_from(slots: Seq<Price>, key: Seq<u8>, i: int) -> Option<int>
    decreases slots.len() - i,
{
    if i < 0 || i >= slots.len() {
        None
    } else if slots[i].symbol@ == key {
        Some(i)
    } else if is_sentinel(slots[i].symbol@) {
        None
    } else {
        scan_from(slots, key, i + 1)
    }
}

pub open spec fn slot_of(slots: Seq<Price>, key: Seq<u8>) -> Option<int> {
    scan_from(slots, key, 0)
}

/// A slot refreshed from an incoming record: the slot keeps its symbol.
pub open spec fn refreshed(slot: Price, p: Price) -> Price {
    Price { symbol: slot.symbol, rate: p.rate, last_updated: p.last_updated, request_id: p.request_id }
}

/// The slots after the records of `batch` that find a slot, in order, refresh it.
pub open spec fn apply_updates(slots: Seq<Price>, batch: Seq<Price>) -> Seq<Price>
    decreases batch.len(),
{
    if batch.len() == 0 {
        slots
    } else {
        let s = apply_updates(slots, batch.drop_last());
        let p = batch.last();
        match slot_of(s, p.symbol@) {
            Some(i) => s.update(i, refreshed(s[i], p)),
            None => s,
        }
    }
}

/// The records of `batch` that find no slot, in input order.
pub open spec fn new_records(slots: Seq<Price>, batch: Seq<Price>) -> Seq<Price>
    decreases batch.len(),
{
    if batch.len() == 0 {
        Seq::empty()
    } else {
        let rest = new_records(slots, batch.drop_last());
        if slot_of(slots, batch.last().symbol@) is None {
            rest.push(batch.last())
        } else {
            rest
        }
    }
}

/// The slots after a successful relay with `n` active slots: updates in place,
/// then the new records appended from index `n`.
pub open spec fn relay_slots(slots: Seq<Price>, n: int, batch: Seq<Price>) -> Seq<Price> {
    let u = apply_updates(slots, batch);
    let fresh = new_records(slots, batch);
    Seq::new(slots.len(), |i: int| if n <= i < n + fresh.len() { fresh[i - n] } else { u[i] })
}

/// The same state, compared through views.
pub open spec fn same_keeper(a: PriceDBKeeper, b: PriceDBKeeper) -> bool {
    a.owner@ == b.owner@ && a.current_size == b.current_size && a.prices@ == b.prices@
}

/// Whether a relay of `batch` overflows the capacity.
pub open spec fn relay_overflows(k: PriceDBKeeper, batch: Seq<Price>) -> bool {
    k.current_size + new_records(k.prices@, batch).len() > k.prices@.len()
}

/// What a relay of `batch` does: on overflow it fails and changes nothing;
/// otherwise it updates and appends, and the active count grows by the
/// number of new records.
pub open spec fn relay_post(
    before: PriceDBKeeper,
    batch: Seq<Price>,
    after: PriceDBKeeper,
    r: Result<(), PriceDbError>,
) -> bool {
    if relay_overflows(before, batch) {
        r == Err::<(), PriceDbError>(PriceDbError::CapacityExceeded) && same_keeper(after, before)
    } else {
        &&& r is Ok
        &&& after.owner == before.owner
        &&& after.current_size == (before.current_size + new_records(before.prices@, batch).len()) as u8
        &&& after.prices@ == relay_slots(before.prices@, before.current_size as int, batch)
    }
}

/// Whether `symbol` is one of `keys`.
pub open spec fn listed(keys: Seq<[u8; 8]>, symbol: Seq<u8>) -> bool {
    exists|j: int| 0 <= j < keys.len() && keys[j]@ == symbol
}

/// The records a removal of `keys` keeps, in slot order.
pub open spec fn retained(slots: Seq<Price>, keys: Seq<[u8; 8]>) -> Seq<Price>
    decreases slots.len(),
{
    if slots.len() == 0 {
        Seq::empty()
    } else {
        let rest = retained(slots.drop_last(), keys);
        let p = slots.last();
        if !is_sentinel(p.symbol@) && !listed(keys, p.symbol@) {
            rest.push(p)
        } else {
            rest
        }
    }
}

/// What a removal of `keys` does: the kept records move to the front in
/// their order, every other slot becomes empty, and the active count is the
/// number kept.
pub open spec fn remove_post(before: PriceDBKeeper, keys: Seq<[u8; 8]>, after: PriceDBKeeper) -> bool {
    let kept = retained(before.prices@, keys);
    &&& after.owner == before.owner
    &&& after.current_size == kept.len() as u8
    &&& after.prices@.len() == before.prices@.len()
    &&& kept.len() <= before.prices@.len()
    &&& forall|i: int| 0 <= i < kept.len() ==> after.prices@[i] == kept[i]
    &&& forall|i: int| kept.len() <= i < after.prices@.len() ==> is_empty_price(#[trigger] after.prices@[i])
}

/// The well-formedness of a keeper: at most 255 slots, the first
/// `current_size` hold real symbols, and the rest are empty records.
pub open spec fn wf(k: PriceDBKeeper) -> bool {
    slots_wf(k.current_size as int, k.prices@)
}

pub open spec fn slots_wf(n: int, slots: Seq<Price>) -> bool {
    &&& slots.len() <= 255
    &&& 0 <= n <= slots.len()
    &&& forall|i: int| 0 <= i < n ==> !is_sentinel(#[trigger] slots[i].symbol@)
    &&& forall|i: int| n <= i < slots.len() ==> is_empty_price(#[trigger] slots[i])
}

/// The active records have pairwise distinct symbols.
pub open spec fn keys_distinct(k: PriceDBKeeper) -> bool {
    forall|i: int, j: int|
        0 <= i < j < k.current_size ==> (#[trigger] k.prices@[i]).symbol@ != (#[trigger] k.prices@[j]).symbol@
}

/// The slot a lookup of `symbol` settles on (see `slot_of`).
pub fn find_slot(slots: &Vec<Price>, symbol: &[u8; 8]) -> (r: Option<usize>)
    ensures
        match r {
            Some(i) => i < slots@.len() && slot_of(slots@, symbol@) == Some(i as int),
            None => slot_of(slots@, symbol@) is None,
        },
{
    let mut i: usize = 0;
    while i < slots.len()
        invariant
            0 <= i <= slots@.len(),
            slot_of(slots@, symbol@) == scan_from(slots@, symbol@, i as int),
        decreases slots@.len() - i,
    {
        if bytes_eq(&slots[i].symbol, symbol) {
            return Some(i);
        }
        if is_sentinel_symbol(&slots[i].symbol) {
            return None;
        }
        i += 1;
    }
    None
}

/// Whether `symbol` is one of `keys`.
pub fn is_listed(keys: &Vec<[u8; 8]>, symbol: &[u8; 8]) -> (r: bool)
    ensures
        r == listed(keys@, symbol@),
{
    let mut j: usize = 0;
    while j < keys.len()
        invariant
            0 <= j <= keys@.len(),
            forall|m: int| 0 <= m < j ==> keys@[m]@ != symbol@,
        decreases keys@.len() - j,
    {
        if bytes_eq(&keys[j], symbol) {
            return true;
        }
        j += 1;
    }
    false
}

impl PriceDBKeeper {
    /// A keeper with a zero owner and `size` empty slots.
    pub fn get_empty(size: u8) -> (r: PriceDBKeeper)
        ensures
            r.owner@ == Seq::new(32, |i: int| 0u8),
            r.current_size == 0,
            r.prices@.len() == size as nat,
            wf(r),
    {
        let owner: [u8; 32] = [0u8; 32];
        assert(owner@ =~= Seq::new(32, |i: int| 0u8));
        PriceDBKeeper { owner, current_size: 0, prices: Price::get_empty_prices(size) }
    }

    /// Upserts `batch`: a record whose symbol has a slot refreshes that slot
    /// in place; the others are appended after the active slots, in input
    /// order. Fails with `CapacityExceeded`, changing nothing, when they do
    /// not fit.
    pub fn relay(&mut self, batch: &Vec<Price>) -> (r: Result<(), PriceDbError>)
        ensures
            relay_post(*old(self), batch@, *final(self), r),
    {
        let mut fresh: Vec<Price> = Vec::new();
        let mut k: usize = 0;
        while k < batch.len()
            invariant
                0 <= k <= batch@.len(),
                fresh@.len() <= k,
                fresh@ == new_records(self.prices@, batch@.take(k as int)),
            decreases batch@.len() - k,
        {
            assert(batch@.take(k + 1).drop_last() =~= batch@.take(k as int));
            if find_slot(&self.prices, &batch[k].symbol).is_none() {
                fresh.push(batch[k]);
            }
            k += 1;
        }
        assert(batch@.take(batch@.len() as int) =~= batch@);
        let n = self.current_size as usize;
        if n > self.prices.len() || fresh.len() > self.prices.len() - n {
            return Err(PriceDbError::CapacityExceeded);
        }
        let ghost s0 = self.prices@;
        k = 0;
        while k < batch.len()
            invariant
                0 <= k <= batch@.len(),
                self.prices@ == apply_updates(s0, batch@.take(k as int)),
                self.prices@.len() == s0.len(),
                n + fresh@.len() <= s0.len(),
                self.current_size == old(self).current_size,
                self.owner == old(self).owner,
            decreases batch@.len() - k,
        {
            assert(batch@.take(k + 1).drop_last() =~= batch@.take(k as int));
            let p = batch[k];
            match find_slot(&self.prices, &p.symbol) {
                Some(i) => {
                    let slot = self.prices[i];
                    self.prices[i] = Price {
                        symbol: slot.symbol,
                        rate: p.rate,
                        last_updated: p.last_updated,
                        request_id: p.request_id,
                    };
                },
                None => {},
            }
            k += 1;
        }
        let ghost u = self.prices@;
        proof {
            lemma_updates_keep_symbols(s0, batch@);
            lemma_new_records_len(s0, batch@);
        }
        let cap = self.prices.len();
        let mut j: usize = 0;
        while j < fresh.len()
            invariant
                0 <= j <= fresh@.len(),
                cap == u.len(),
                n + fresh@.len() <= cap,
                self.prices@.len() == u.len(),
                forall|i: int|
                    0 <= i < u.len() ==> #[trigger] self.prices@[i] == if n <= i < n + j {
                        fresh@[i - n]
                    } else {
                        u[i]
                    },
                self.current_size == old(self).current_size,
                self.owner == old(self).owner,
            decreases fresh@.len() - j,
        {
            self.prices[n + j] = fresh[j];
            j += 1;
        }
        self.current_size = #[verifier::truncate] ((n + fresh.len()) as u8);
        assert(self.prices@ =~= relay_slots(s0, n as int, batch@));
        Ok(())
    }

    /// Removes every record whose symbol is in `keys`, then compacts: the
    /// kept records move to the front in their order and the rest of the
    /// slots are reset to empty records.
    pub fn remove(&mut self, keys: &Vec<[u8; 8]>)
        ensures
            remove_post(*old(self), keys@, *final(self)),
    {
        let mut kept: Vec<Price> = Vec::new();
        let mut i: usize = 0;
        while i < self.prices.len()
            invariant
                0 <= i <= self.prices@.len(),
                kept@.len() <= i,
                kept@ == retained(self.prices@.take(i as int), keys@),
            decreases self.prices@.len() - i,
        {
            assert(self.prices@.take(i + 1).drop_last() =~= self.prices@.take(i as int));
            let p = self.prices[i];
            if !is_sentinel_symbol(&p.symbol) && !is_listed(keys, &p.symbol) {
                kept.push(p);
            }
            i += 1;
        }
        assert(self.prices@.take(self.prices@.len() as int) =~= self.prices@);
        let mut slots: Vec<Price> = Vec::new();
        i = 0;
        while i < self.prices.len()
            invariant
                0 <= i <= self.prices@.len(),
                kept@.len() <= self.prices@.len(),
                slots@.len() == i,
                forall|j: int| 0 <= j < i && j < kept@.len() ==> slots@[j] == kept@[j],
                forall|j: int| kept@.len() <= j < i ==> is_empty_price(#[trigger] slots@[j]),
            decreases self.prices@.len() - i,
        {
            if i < kept.len() {
                slots.push(kept[i]);
            } else {
                slots.push(Price::get_empty());
            }
            i += 1;
        }
        self.prices = slots;
        self.current_size = kept.len() as u8;
    }
}

/// A scan lands inside the slots.
pub proof fn lemma_scan_in_range(slots: Seq<Price>, key: Seq<u8>, i: int)
    ensures
        scan_from(slots, key, i) matches Some(j) ==> i <= j < slots.len() && slots[j].symbol@ == key,
    decreases slots.len() - i,
{
    if 0 <= i < slots.len() && slots[i].symbol@ != key && !is_sentinel(slots[i].symbol@) {
        lemma_scan_in_range(slots, key, i + 1);
    }
}

/// A scan reads symbols only.
pub proof fn lemma_scan_symbols(a: Seq<Price>, b: Seq<Price>, key: Seq<u8>, i: int)
    requires
        a.len() == b.len(),
        forall|j: int| 0 <= j < a.len() ==> a[j].symbol@ == #[trigger] b[j].symbol@,
    ensures
        scan_from(a, key, i) == scan_from(b, key, i),
    decreases a.len() - i,
{
    if 0 <= i < a.len() {
        lemma_scan_symbols(a, b, key, i + 1);
    }
}

/// Updates keep the number of slots and every symbol.
pub proof fn lemma_updates_keep_symbols(slots: Seq<Price>, batch: Seq<Price>)
    ensures
        apply_updates(slots, batch).len() == slots.len(),
        forall|j: int|
            0 <= j < slots.len() ==> (#[trigger] apply_updates(slots, batch)[j]).symbol@
                == slots[j].symbol@,
    decreases batch.len(),
{
    if batch.len() > 0 {
        let s = apply_updates(slots, batch.drop_last());
        lemma_updates_keep_symbols(slots, batch.drop_last());
        lemma_scan_in_range(s, batch.last().symbol@, 0);
    }
}

pub proof fn lemma_new_records_len(slots: Seq<Price>, batch: Seq<Price>)
    ensures
        new_records(slots, batch).len() <= batch.len(),
    decreases batch.len(),
{
    if batch.len() > 0 {
        lemma_new_records_len(slots, batch.drop_last());
    }
}

/// The keeper state that a buffer encodes (see `encodes_keeper`).
pub open spec fn keeper_of(data: Seq<u8>) -> PriceDBKeeper {
    choose|k: PriceDBKeeper| encoding_of(k) == data && k.prices@.len() <= u32::MAX
}

/// A freshly set-up keeper: the owner, no active slot, `size` empty slots.
pub open spec fn fresh_keeper(k: PriceDBKeeper, size: u8, owner: [u8; 32]) -> bool {
    &&& k.owner == owner
    &&& k.current_size == 0
    &&& k.prices@.len() == size
    &&& forall|i: int| 0 <= i < k.prices@.len() ==> is_empty_price(#[trigger] k.prices@[i])
}

/// Writing `bytes` over the front of `old` gives `new`, or fails when they do not fit.
pub open spec fn stored(old: Seq<u8>, bytes: Seq<u8>, new: Seq<u8>, r: Result<(), PriceDbError>) -> bool {
    if bytes.len() <= old.len() {
        r is Ok && new == bytes + old.subrange(bytes.len() as int, old.len() as int)
    } else {
        r == Err::<(), PriceDbError>(PriceDbError::BufferTooSmall) && new == old
    }
}

/// What a command other than `Init` does to a decoded keeper that passed the gates.
pub open spec fn updated(command: Command, k: PriceDBKeeper, after: PriceDBKeeper, r: Result<(), PriceDbError>) -> bool {
    match command {
        Command::TransferOwnership(x) => r is Ok && after.owner == x && after.current_size
            == k.current_size && after.prices@ == k.prices@,
        Command::Relay(batch) => relay_post(k, batch@, after, r),
        Command::Remove(keys) => r is Ok && remove_post(k, keys@, after),
        Command::Init(_, _) => false,
    }
}

/// A keeper command on buffer `old`, sent by `sender`, leaves `new` and returns `r`.
/// The checks come in order: initialization, decoding, ownership, then the
/// operation's own. Every failure leaves the buffer as it was.
pub open spec fn keeper_step(
    command: Command,
    old: Seq<u8>,
    sender: Option<Signer>,
    new: Seq<u8>,
    r: Result<(), PriceDbError>,
) -> bool {
    match command {
        Command::Init(size, owner) => if initialized(old) {
            r == Err::<(), PriceDbError>(PriceDbError::AlreadyInitialized) && new == old
        } else {
            exists|k: PriceDBKeeper| fresh_keeper(k, size, owner) && stored(old, encoding_of(k), new, r)
        },
        _ => if !initialized(old) {
            r == Err::<(), PriceDbError>(PriceDbError::Uninitialized) && new == old
        } else if !encodes_keeper(old) {
            r == Err::<(), PriceDbError>(PriceDbError::MalformedBuffer) && new == old
        } else if owner_gate(sender, keeper_of(old).owner@) is Err {
            r == owner_gate(sender, keeper_of(old).owner@) && new == old
        } else {
            applied(command, keeper_of(old), old, new, r)
        },
    }
}

/// Command `command` on decoded keeper `k`, from buffer `old`, leaves `new`:
/// the buffer holds the updated keeper on success and is unchanged on failure.
pub open spec fn applied(
    command: Command,
    k: PriceDBKeeper,
    old: Seq<u8>,
    new: Seq<u8>,
    r: Result<(), PriceDbError>,
) -> bool {
    exists|after: PriceDBKeeper| #[trigger]
        updated(command, k, after, r) && (r is Ok ==> new == encoding_of(after)
            && after.prices@.len() <= u32::MAX) && (r is Err ==> new == old)
}

/// Runs a keeper command against the keeper's buffer.
pub fn process_command(command: &Command, data: &mut Vec<u8>, sender: &Option<Signer>) -> (r: Result<
    (),
    PriceDbError,
>)
    ensures
        keeper_step(*command, old(data)@, *sender, final(data)@, r),
{
    match command {
        Command::Init(size, owner) => {
            if is_initialized(data) {
                return Err(PriceDbError::AlreadyInitialized);
            }
            let mut k = PriceDBKeeper::get_empty(*size);
            k.owner = *owner;
            let bytes = encode_keeper(&k);
            let r = if store(data, &bytes) {
                Ok(())
            } else {
                Err(PriceDbError::BufferTooSmall)
            };
            assert(fresh_keeper(k, *size, *owner) && stored(old(data)@, encoding_of(k), data@, r));
            r
        },
        _ => {
            if !is_initialized(data) {
                return Err(PriceDbError::Uninitialized);
            }
            let mut k = match decode_keeper(data) {
                Some(k) => k,
                None => {
                    return Err(PriceDbError::MalformedBuffer);
                },
            };
            let ghost k0 = keeper_of(data@);
            proof {
                assert(encodes_keeper(data@)) by {
                    assert(keeper_bytes(k.owner@, k.current_size, k.prices@) == data@);
                }
                lemma_keeper_bytes_injective(
                    k.owner@,
                    k.current_size,
                    k.prices@,
                    k0.owner@,
                    k0.current_size,
                    k0.prices@,
                );
                assert(k.owner =~= k0.owner);
            }
            match check_owner(sender, &k.owner) {
                Ok(()) => {},
                Err(e) => {
                    return Err(e);
                },
            }
            let ghost before = k;
            let r = match command {
                Command::TransferOwnership(x) => {
                    k.owner = *x;
                    Ok(())
                },
                Command::Relay(batch) => k.relay(batch),
                Command::Remove(keys) => {
                    k.remove(keys);
                    Ok(())
                },
                // handled by the first arm above
                Command::Init(_, _) => Ok(()),
            };
            if r.is_err() {
                assert(updated(*command, k0, k, r));
                return r;
            }
            let bytes = encode_keeper(&k);
            proof {
                lemma_prices_bytes_len(k.prices@);
                lemma_prices_bytes_len(before.prices@);
            }
            store(data, &bytes);
            assert(data@ =~= bytes@);
            assert(updated(*command, k0, k, r));
            r
        },
    }
}

/// A step depends on the command only through its bytes.
pub proof fn lemma_step_same_command(
    c: Command,
    c2: Command,
    old: Seq<u8>,
    sender: Option<Signer>,
    new: Seq<u8>,
    r: Result<(), PriceDbError>,
)
    requires
        command_fits(c),
        command_fits(c2),
        command_bytes(c) == command_bytes(c2),
        keeper_step(c, old, sender, new, r),
    ensures
        keeper_step(c2, old, sender, new, r),
{
    lemma_command_bytes_injective(c, c2);
    if c is Init {
        assert(c == c2);
    } else if initialized(old) && encodes_keeper(old) && owner_gate(sender, keeper_of(old).owner@) is Ok {
        let k0 = keeper_of(old);
        assert(applied(c, k0, old, new, r));
        let after = choose|after: PriceDBKeeper| #[trigger]
            updated(c, k0, after, r) && (r is Ok ==> new == encoding_of(after)
                && after.prices@.len() <= u32::MAX) && (r is Err ==> new == old);
        match c {
            Command::TransferOwnership(x) => {
                assert(updated(c2, k0, after, r));
            },
            Command::Relay(b) => {
                assert(updated(c2, k0, after, r));
            },
            Command::Remove(keys) => {
                assert(updated(c2, k0, after, r));
            },
            Command::Init(_, _) => {},
        }
    }
}

/// Decodes a command and runs it against the keeper's buffer. Bytes that
/// encode no command fail with `InvalidCommand` before the buffer is read.
pub fn process_instruction(instruction: &Vec<u8>, data: &mut Vec<u8>, sender: &Option<Signer>) -> (r:
    Result<(), PriceDbError>)
    ensures
        !encodes_command(instruction@) ==> r == Err::<(), PriceDbError>(PriceDbError::InvalidCommand)
            && final(data)@ == old(data)@,
        forall|c: Command|
            command_fits(c) && command_bytes(c) == instruction@ ==> #[trigger] keeper_step(
                c,
                old(data)@,
                *sender,
                final(data)@,
                r,
            ),
{
    match Command::decode(instruction) {
        Some(c) => {
            let r = process_command(&c, data, sender);
            assert(keeper_step(c, old(data)@, *sender, data@, r));
            assert forall|c2: Command|
                command_fits(c2) && command_bytes(c2) == instruction@ implies #[trigger] keeper_step(
                c2,
                old(data)@,
                *sender,
                data@,
                r,
            ) by {
                lemma_step_same_command(c, c2, old(data)@, *sender, data@, r);
            }
            r
        },
        None => Err(PriceDbError::InvalidCommand),
    }
}

} // verus!

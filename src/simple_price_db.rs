//! The mirror store: one cached record, copied on request from a keeper's
//! buffer, under an owner of its own.
use vstd::prelude::*;
use crate::price::{Price, sentinel, bytes_eq};
use crate::gate::{PriceDbError, Signer, initialized, owner_gate, is_initialized, check_owner};
use crate::codec::{
    le_u64, keeper_bytes, encodes_keeper, mirror_bytes, decode_keeper,
    decode_mirror, encode_mirror, store, encoding_of, read_owner, read_symbol, lemma_keeper_bytes_injective,
};
use crate::std_reference_basic::{keeper_of, PriceDBKeeper};

verus! {

/// The mirror's state: its owner and the cached symbol and rate.
#[derive(Clone, Copy, Debug, PartialEq, Eq)]
pub struct SimplePriceDB {
    pub owner: [u8; 32],
    pub latest_symbol: [u8; 8],
    pub latest_price: u64,
}

/// A keeper's state, as the mirror reads it: never written by the mirror.
#[derive(Debug, PartialEq, Eq)]
pub struct StdReferenceBasic {
    pub owner: [u8; 32],
    pub current_size: u8,
    pub prices: Vec<Price>,
}

/// The operations on a mirror, each over the mirror's buffer.
#[derive(Debug, PartialEq, Eq)]
pub enum Command {
    Init([u8; 32]),
    TransferOwnership([u8; 32]),
    /// Copy the rate of this symbol from a keeper's buffer.
    SetPrice([u8; 8]),
}

/// The bytes of a command: a tag byte, then the field.
pub open spec fn command_bytes(c: Command) -> Seq<u8> {
    match c {
        Command::Init(owner) => seq![0u8] + owner@,
        Command::TransferOwnership(owner) => seq![1u8] + owner@,
        Command::SetPrice(symbol) => seq![2u8] + symbol@,
    }
}

pub open spec fn encodes_command(data: Seq<u8>) -> bool {
    exists|c: Command| #[trigger] command_bytes(c) == data
}

/// Two commands with the same bytes are the same command.
pub proof fn lemma_command_bytes_injective(c1: Command, c2: Command)
    requires
        command_bytes(c1) == command_bytes(c2),
    ensures
        c1 == c2,
{
    let d = command_bytes(c1);
    let e = command_bytes(c2);
    assert(d[0] == e[0]);
    match (c1, c2) {
        (Command::Init(a), Command::Init(x)) => {
            assert(a@ =~= d.subrange(1, 33));
            assert(x@ =~= e.subrange(1, 33));
            assert(a =~= x);
        },
        (Command::TransferOwnership(a), Command::TransferOwnership(x)) => {
            assert(a@ =~= d.subrange(1, 33));
            assert(x@ =~= e.subrange(1, 33));
            assert(a =~= x);
        },
        (Command::SetPrice(a), Command::SetPrice(x)) => {
            assert(a@ =~= d.subrange(1, 9));
            assert(x@ =~= e.subrange(1, 9));
            assert(a =~= x);
        },
        _ => {},
    }
}

impl Command {
    /// Reads a command from bytes that hold exactly its encoding.
    pub fn decode(data: &Vec<u8>) -> (r: Option<Command>)
        ensures
            match r {
                Some(c) => command_bytes(c) == data@,
                None => !encodes_command(data@),
            },
    {
        let ghost c0 = choose|c: Command| #[trigger] command_bytes(c) == data@;
        proof {
            if encodes_command(data@) {
                assert(command_bytes(c0)[0] == data@[0]);
            }
        }
        if data.len() == 0 {
            return None;
        }
        let tag = data[0];
        if tag == 0 || tag == 1 {
            if data.len() != 33 {
                return None;
            }
            let owner = read_owner(data, 1);
            let c = if tag == 0 {
                Command::Init(owner)
            } else {
                Command::TransferOwnership(owner)
            };
            assert(command_bytes(c) =~= data@);
            Some(c)
        } else if tag == 2 {
            if data.len() != 9 {
                return None;
            }
            let c = Command::SetPrice(read_symbol(data, 1));
            assert(command_bytes(c) =~= data@);
            Some(c)
        } else {
            None
        }
    }
}

/// The first slot at or after `i` whose symbol is `key`, over all slots.
pub open spec fn first_with(slots: Seq<Price>, key: Seq<u8>, i: int) -> Option<int>
    decreases slots.len() - i,
{
    if i < 0 || i >= slots.len() {
        None
    } else if slots[i].symbol@ == key {
        Some(i)
    } else {
        first_with(slots, key, i + 1)
    }
}

/// The rate of the first slot whose symbol is `key`.
pub open spec fn rate_of(slots: Seq<Price>, key: Seq<u8>) -> Option<u64> {
    match first_with(slots, key, 0) {
        Some(i) => Some(slots[i].rate),
        None => None,
    }
}

/// The rate of the first slot holding `symbol`, over all slots.
pub fn find_rate(slots: &Vec<Price>, symbol: &[u8; 8]) -> (r: Option<u64>)
    ensures
        r == rate_of(slots@, symbol@),
{
    let mut i: usize = 0;
    while i < slots.len()
        invariant
            0 <= i <= slots@.len(),
            first_with(slots@, symbol@, 0) == first_with(slots@, symbol@, i as int),
        decreases slots@.len() - i,
    {
        if bytes_eq(&slots[i].symbol, symbol) {
            return Some(slots[i].rate);
        }
        i += 1;
    }
    None
}

impl StdReferenceBasic {
    /// Reads a keeper's state from its buffer.
    pub fn decode(data: &Vec<u8>) -> (r: Option<StdReferenceBasic>)
        ensures
            match r {
                Some(k) => keeper_bytes(k.owner@, k.current_size, k.prices@) == data@
                    && k.prices@.len() <= u32::MAX && exists|w: PriceDBKeeper|
                    encoding_of(w) == data@ && w.prices@.len() <= u32::MAX,
                None => !encodes_keeper(data@),
            },
    {
        match decode_keeper(data) {
            Some(k) => Some(StdReferenceBasic { owner: k.owner, current_size: k.current_size, prices: k.prices }),
            None => None,
        }
    }
}

impl SimplePriceDB {
    /// Caches the rate of the first record of `reference` whose symbol is
    /// `symbol`. Fails with `KeyNotFound`, changing nothing, when there is none.
    pub fn set_price(&mut self, reference: &StdReferenceBasic, symbol: &[u8; 8]) -> (r: Result<(), PriceDbError>)
        ensures
            match rate_of(reference.prices@, symbol@) {
                Some(rate) => r is Ok && *final(self) == (SimplePriceDB {
                    owner: old(self).owner,
                    latest_symbol: *symbol,
                    latest_price: rate,
                }),
                None => r == Err::<(), PriceDbError>(PriceDbError::KeyNotFound) && *final(self) == *old(self),
            },
    {
        match find_rate(&reference.prices, symbol) {
            Some(rate) => {
                self.latest_price = rate;
                self.latest_symbol = *symbol;
                Ok(())
            },
            None => Err(PriceDbError::KeyNotFound),
        }
    }
}

/// A mirror command on buffer `old`, sent by `sender`, with `reference` the
/// keeper's buffer it reads, leaves `new` and returns `r`. Every failure
/// leaves the buffer as it was.
pub open spec fn mirror_step(
    command: Command,
    old: Seq<u8>,
    sender: Option<Signer>,
    reference: Seq<u8>,
    new: Seq<u8>,
    r: Result<(), PriceDbError>,
) -> bool {
    match command {
        Command::Init(owner) => if initialized(old) {
            r == Err::<(), PriceDbError>(PriceDbError::AlreadyInitialized) && new == old
        } else if old.len() != 48 {
            r == Err::<(), PriceDbError>(PriceDbError::MalformedBuffer) && new == old
        } else {
            r is Ok && new == mirror_bytes(owner@, sentinel(), 0)
        },
        _ => if !initialized(old) {
            r == Err::<(), PriceDbError>(PriceDbError::Uninitialized) && new == old
        } else if old.len() != 48 {
            r == Err::<(), PriceDbError>(PriceDbError::MalformedBuffer) && new == old
        } else if owner_gate(sender, old.subrange(0, 32)) is Err {
            r == owner_gate(sender, old.subrange(0, 32)) && new == old
        } else {
            match command {
                Command::TransferOwnership(x) => r is Ok && new == x@ + old.subrange(32, 48),
                Command::SetPrice(key) => if !encodes_keeper(reference) {
                    r == Err::<(), PriceDbError>(PriceDbError::MalformedBuffer) && new == old
                } else {
                    match rate_of(keeper_of(reference).prices@, key@) {
                        Some(rate) => r is Ok && new == old.subrange(0, 32) + key@ + le_u64(rate),
                        None => r == Err::<(), PriceDbError>(PriceDbError::KeyNotFound) && new == old,
                    }
                },
                Command::Init(_) => false,
            }
        },
    }
}

/// Runs a mirror command against the mirror's buffer, reading `reference`,
/// a keeper's buffer, for `SetPrice`.
pub fn process_command(
    command: &Command,
    data: &mut Vec<u8>,
    sender: &Option<Signer>,
    reference: &Vec<u8>,
) -> (r: Result<(), PriceDbError>)
    ensures
        mirror_step(*command, old(data)@, *sender, reference@, final(data)@, r),
{
    match command {
        Command::Init(owner) => {
            if is_initialized(data) {
                return Err(PriceDbError::AlreadyInitialized);
            }
            let mut m = match decode_mirror(data) {
                Some(m) => m,
                None => {
                    return Err(PriceDbError::MalformedBuffer);
                },
            };
            m.owner = *owner;
            m.latest_symbol = [0u8; 8];
            m.latest_price = 0;
            assert(m.latest_symbol@ =~= sentinel());
            let bytes = encode_mirror(&m);
            store(data, &bytes);
            assert(data@ =~= bytes@);
            Ok(())
        },
        _ => {
            if !is_initialized(data) {
                return Err(PriceDbError::Uninitialized);
            }
            let mut m = match decode_mirror(data) {
                Some(m) => m,
                None => {
                    return Err(PriceDbError::MalformedBuffer);
                },
            };
            assert(m.owner@ =~= data@.subrange(0, 32));
            assert(data@.subrange(32, 48) =~= m.latest_symbol@ + le_u64(m.latest_price));
            match check_owner(sender, &m.owner) {
                Ok(()) => {},
                Err(e) => {
                    return Err(e);
                },
            }
            match command {
                Command::TransferOwnership(x) => {
                    m.owner = *x;
                },
                Command::SetPrice(key) => {
                    let reference_state = match StdReferenceBasic::decode(reference) {
                        Some(k) => k,
                        None => {
                            return Err(PriceDbError::MalformedBuffer);
                        },
                    };
                    proof {
                        let k0 = keeper_of(reference@);
                        let k = reference_state;
                        assert(encodes_keeper(reference@)) by {
                            assert(keeper_bytes(k.owner@, k.current_size, k.prices@) == reference@);
                        }
                        lemma_keeper_bytes_injective(
                            k.owner@,
                            k.current_size,
                            k.prices@,
                            k0.owner@,
                            k0.current_size,
                            k0.prices@,
                        );
                    }
                    match m.set_price(&reference_state, key) {
                        Ok(()) => {},
                        Err(e) => {
                            return Err(e);
                        },
                    }
                },
                // handled by the first arm above
                Command::Init(_) => {},
            }
            let bytes = encode_mirror(&m);
            store(data, &bytes);
            assert(data@ =~= bytes@);
            assert(bytes@ =~= mirror_bytes(m.owner@, m.latest_symbol@, m.latest_price));
            match command {
                Command::TransferOwnership(x) => {
                    assert(data@ =~= x@ + old(data)@.subrange(32, 48));
                },
                Command::SetPrice(key) => {
                    assert(data@ =~= old(data)@.subrange(0, 32) + key@ + le_u64(m.latest_price));
                },
                Command::Init(_) => {},
            }
            Ok(())
        },
    }
}

/// Decodes a command and runs it against the mirror's buffer. Bytes that
/// encode no command fail with `InvalidCommand` before any buffer is read.
pub fn process_instruction(
    instruction: &Vec<u8>,
    data: &mut Vec<u8>,
    sender: &Option<Signer>,
    reference: &Vec<u8>,
) -> (r: Result<(), PriceDbError>)
    ensures
        !encodes_command(instruction@) ==> r == Err::<(), PriceDbError>(PriceDbError::InvalidCommand)
            && final(data)@ == old(data)@,
        forall|c: Command|
            command_bytes(c) == instruction@ ==> #[trigger] mirror_step(
                c,
                old(data)@,
                *sender,
                reference@,
                final(data)@,
                r,
            ),
{
    match Command::decode(instruction) {
        Some(c) => {
            let r = process_command(&c, data, sender, reference);
            assert(mirror_step(c, old(data)@, *sender, reference@, data@, r));
            assert forall|c2: Command| command_bytes(c2) == instruction@ implies #[trigger] mirror_step(
                c2,
                old(data)@,
                *sender,
                reference@,
                data@,
                r,
            ) by {
                lemma_command_bytes_injective(c, c2);
                assert(c == c2);
            }
            r
        },
        None => Err(PriceDbError::InvalidCommand),
    }
}

/// A mirror command other than `Init` from anyone but the stored owner
/// fails, with `NotOwner` when the sender authorized it, and changes nothing.
pub proof fn lemma_only_mirror_owner_mutates(
    command: Command,
    old: Seq<u8>,
    sender: Option<Signer>,
    reference: Seq<u8>,
    new: Seq<u8>,
    r: Result<(), PriceDbError>,
)
    requires
        !(command is Init),
        mirror_step(command, old, sender, reference, new, r),
        old.len() == 48,
        sender matches Some(s) && s.key@ != old.subrange(0, 32),
    ensures
        r is Err,
        new == old,
        initialized(old) && sender->Some_0.is_signer ==> r == Err::<(), PriceDbError>(
            PriceDbError::NotOwner,
        ),
{
}

/// Right after a successful transfer of the mirror to `x`, a command other
/// than `Init` from any other identity fails and changes nothing.
pub proof fn lemma_mirror_transfer_hands_over(
    x: [u8; 32],
    d0: Seq<u8>,
    s0: Option<Signer>,
    ref0: Seq<u8>,
    d1: Seq<u8>,
    command: Command,
    sender: Option<Signer>,
    ref1: Seq<u8>,
    d2: Seq<u8>,
    r: Result<(), PriceDbError>,
)
    requires
        mirror_step(Command::TransferOwnership(x), d0, s0, ref0, d1, Ok(())),
        !(command is Init),
        mirror_step(command, d1, sender, ref1, d2, r),
        sender matches Some(s) && s.key@ != x@,
    ensures
        r is Err,
        d2 == d1,
{
    assert(d1.subrange(0, 32) =~= x@);
}

} // verus!

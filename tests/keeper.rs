use price_db::gate::{is_initialized, PriceDbError, Signer};
use price_db::price::Price;
use price_db::std_reference_basic::{process_command, Command, PriceDBKeeper};
use price_db::codec::{decode_keeper, encode_keeper};

fn sym(s: &str) -> [u8; 8] {
    let mut a = [0u8; 8];
    a[..s.len()].copy_from_slice(s.as_bytes());
    a
}

fn price(s: &str, rate: u64, last_updated: u64, request_id: u64) -> Price {
    Price { symbol: sym(s), rate, last_updated, request_id }
}

fn signer(b: u8) -> Option<Signer> {
    Some(Signer { key: [b; 32], is_signer: true })
}

fn fresh_buffer(capacity: u8, owner: u8) -> Vec<u8> {
    let mut data = vec![0u8; 37 + 32 * capacity as usize];
    process_command(&Command::Init(capacity, [owner; 32]), &mut data, &None).unwrap();
    data
}

fn state(data: &Vec<u8>) -> PriceDBKeeper {
    decode_keeper(data).unwrap()
}

#[test]
fn empty_price_is_all_zero() {
    let p = Price::get_empty();
    assert_eq!(p, Price { symbol: [0; 8], rate: 0, last_updated: 0, request_id: 0 });
    let v = Price::get_empty_prices(4);
    assert_eq!(v.len(), 4);
    assert!(v.iter().all(|q| *q == p));
    assert!(Price::get_empty_prices(0).is_empty());
}

#[test]
fn empty_keeper_has_capacity_and_no_entries() {
    let k = PriceDBKeeper::get_empty(5);
    assert_eq!(k.owner, [0u8; 32]);
    assert_eq!(k.current_size, 0);
    assert_eq!(k.prices, Price::get_empty_prices(5));
}

#[test]
fn initialization_gate_looks_for_a_nonzero_byte() {
    assert!(!is_initialized(&vec![]));
    assert!(!is_initialized(&vec![0, 0, 0]));
    assert!(is_initialized(&vec![0, 0, 1]));
    assert!(is_initialized(&vec![255]));
}

#[test]
fn scenario_relay_remove_and_capacity() {
    let a = signer(7);
    let mut data = fresh_buffer(3, 7);
    let k = state(&data);
    assert_eq!(k.current_size, 0);
    assert_eq!(k.owner, [7u8; 32]);
    assert_eq!(k.prices.len(), 3);

    let r = process_command(&Command::Relay(vec![price("ABC", 100, 1, 1)]), &mut data, &a);
    assert_eq!(r, Ok(()));
    let k = state(&data);
    assert_eq!(k.current_size, 1);
    assert_eq!(k.prices[0], price("ABC", 100, 1, 1));

    let r = process_command(
        &Command::Relay(vec![price("ABC", 200, 2, 2), price("XYZ", 50, 3, 3)]),
        &mut data,
        &a,
    );
    assert_eq!(r, Ok(()));
    let k = state(&data);
    assert_eq!(k.current_size, 2);
    assert_eq!(k.prices[0], price("ABC", 200, 2, 2));
    assert_eq!(k.prices[1], price("XYZ", 50, 3, 3));

    let before = data.clone();
    let r = process_command(
        &Command::Relay(vec![price("FOO", 1, 1, 1), price("BAR", 1, 1, 1)]),
        &mut data,
        &a,
    );
    assert_eq!(r, Err(PriceDbError::CapacityExceeded));
    assert_eq!(data, before);

    let r = process_command(&Command::Remove(vec![sym("ABC")]), &mut data, &a);
    assert_eq!(r, Ok(()));
    let k = state(&data);
    assert_eq!(k.current_size, 1);
    assert_eq!(k.prices[0], price("XYZ", 50, 3, 3));
    assert_eq!(k.prices[1], Price::get_empty());
    assert_eq!(k.prices[2], Price::get_empty());
}

#[test]
fn relay_of_identical_entries_only_refreshes() {
    let mut k = PriceDBKeeper::get_empty(4);
    k.relay(&vec![price("AAA", 10, 1, 1), price("BBB", 20, 1, 1)]).unwrap();
    k.relay(&vec![price("BBB", 20, 9, 9), price("AAA", 10, 8, 8)]).unwrap();
    assert_eq!(k.current_size, 2);
    assert_eq!(k.prices[0], price("AAA", 10, 8, 8));
    assert_eq!(k.prices[1], price("BBB", 20, 9, 9));
    assert_eq!(k.prices[2], Price::get_empty());
}

#[test]
fn relay_keeps_duplicate_new_records() {
    let mut k = PriceDBKeeper::get_empty(3);
    k.relay(&vec![price("DUP", 1, 1, 1), price("DUP", 2, 2, 2)]).unwrap();
    assert_eq!(k.current_size, 2);
    assert_eq!(k.prices[0], price("DUP", 1, 1, 1));
    assert_eq!(k.prices[1], price("DUP", 2, 2, 2));
}

#[test]
fn relay_that_overflows_changes_nothing_in_memory() {
    let mut k = PriceDBKeeper::get_empty(1);
    k.relay(&vec![price("ONE", 1, 1, 1)]).unwrap();
    let r = k.relay(&vec![price("ONE", 5, 5, 5), price("TWO", 2, 2, 2)]);
    assert_eq!(r, Err(PriceDbError::CapacityExceeded));
    assert_eq!(k.current_size, 1);
    assert_eq!(k.prices[0], price("ONE", 1, 1, 1));
}

#[test]
fn relay_fills_to_the_exact_capacity() {
    let mut k = PriceDBKeeper::get_empty(2);
    assert_eq!(k.relay(&vec![price("A", 1, 1, 1), price("B", 2, 2, 2)]), Ok(()));
    assert_eq!(k.current_size, 2);
    assert_eq!(k.relay(&vec![price("C", 3, 3, 3)]), Err(PriceDbError::CapacityExceeded));
}

#[test]
fn remove_compacts_in_order() {
    let mut k = PriceDBKeeper::get_empty(5);
    k.relay(&vec![
        price("A", 1, 1, 1),
        price("B", 2, 2, 2),
        price("C", 3, 3, 3),
        price("D", 4, 4, 4),
    ])
    .unwrap();
    k.remove(&vec![sym("B"), sym("D"), sym("ZZZ")]);
    assert_eq!(k.current_size, 2);
    assert_eq!(k.prices[0], price("A", 1, 1, 1));
    assert_eq!(k.prices[1], price("C", 3, 3, 3));
    for i in 2..5 {
        assert_eq!(k.prices[i], Price::get_empty());
    }
    k.remove(&vec![]);
    assert_eq!(k.current_size, 2);
    k.remove(&vec![sym("A"), sym("C")]);
    assert_eq!(k.current_size, 0);
    assert_eq!(k.prices, Price::get_empty_prices(5));
}

#[test]
fn init_twice_is_refused() {
    let mut data = fresh_buffer(2, 1);
    let before = data.clone();
    let r = process_command(&Command::Init(2, [9; 32]), &mut data, &None);
    assert_eq!(r, Err(PriceDbError::AlreadyInitialized));
    assert_eq!(data, before);
}

#[test]
fn init_into_a_small_buffer_fails() {
    let mut data = vec![0u8; 40];
    let r = process_command(&Command::Init(3, [1; 32]), &mut data, &None);
    assert_eq!(r, Err(PriceDbError::BufferTooSmall));
    assert_eq!(data, vec![0u8; 40]);
}

#[test]
fn init_into_a_large_buffer_leaves_the_tail() {
    let mut data = vec![0u8; 40];
    let r = process_command(&Command::Init(0, [1; 32]), &mut data, &None);
    assert_eq!(r, Ok(()));
    assert_eq!(&data[..32], &[1u8; 32]);
    assert_eq!(&data[32..], &[0u8; 8]);
    let r = process_command(&Command::TransferOwnership([2; 32]), &mut data, &signer(1));
    assert_eq!(r, Err(PriceDbError::MalformedBuffer));
}

#[test]
fn commands_on_an_uninitialized_buffer_fail() {
    let mut data = vec![0u8; 133];
    let r = process_command(&Command::Relay(vec![price("A", 1, 1, 1)]), &mut data, &signer(1));
    assert_eq!(r, Err(PriceDbError::Uninitialized));
    let r = process_command(&Command::Remove(vec![]), &mut data, &None);
    assert_eq!(r, Err(PriceDbError::Uninitialized));
    assert_eq!(data, vec![0u8; 133]);
}

#[test]
fn ownership_gate_errors() {
    let mut data = fresh_buffer(2, 3);
    let before = data.clone();
    let cmd = Command::Relay(vec![price("A", 1, 1, 1)]);
    assert_eq!(process_command(&cmd, &mut data, &None), Err(PriceDbError::MissingAuthorization));
    let unsigned = Some(Signer { key: [3; 32], is_signer: false });
    assert_eq!(process_command(&cmd, &mut data, &unsigned), Err(PriceDbError::MissingAuthorization));
    assert_eq!(process_command(&cmd, &mut data, &signer(4)), Err(PriceDbError::NotOwner));
    assert_eq!(data, before);
}

#[test]
fn transfer_hands_over_ownership() {
    let mut data = fresh_buffer(2, 3);
    let r = process_command(&Command::TransferOwnership([8; 32]), &mut data, &signer(3));
    assert_eq!(r, Ok(()));
    assert_eq!(state(&data).owner, [8u8; 32]);
    let cmd = Command::Relay(vec![price("A", 1, 1, 1)]);
    let before = data.clone();
    assert_eq!(process_command(&cmd, &mut data, &signer(3)), Err(PriceDbError::NotOwner));
    assert_eq!(data, before);
    assert_eq!(process_command(&cmd, &mut data, &signer(8)), Ok(()));
    assert_eq!(state(&data).current_size, 1);
}

#[test]
fn malformed_keeper_buffer() {
    let mut data = vec![1u8; 50];
    let r = process_command(&Command::Remove(vec![]), &mut data, &signer(1));
    assert_eq!(r, Err(PriceDbError::MalformedBuffer));
    assert!(decode_keeper(&vec![1u8; 36]).is_none());
}

#[test]
fn keeper_round_trip() {
    let mut k = PriceDBKeeper::get_empty(3);
    k.owner = [5; 32];
    k.relay(&vec![price("ABC", 0x0102030405060708, 9, u64::MAX)]).unwrap();
    let bytes = encode_keeper(&k);
    assert_eq!(bytes.len(), 37 + 3 * 32);
    assert_eq!(&bytes[33..37], &[3, 0, 0, 0]);
    assert_eq!(&bytes[45..53], &[8, 7, 6, 5, 4, 3, 2, 1]);
    assert_eq!(decode_keeper(&bytes), Some(k));
}

#[test]
fn keeper_layout_matches_borsh() {
    let mut k = PriceDBKeeper::get_empty(2);
    k.owner = [9; 32];
    k.relay(&vec![price("SOL", 12345, 67, 89)]).unwrap();
    let slots: Vec<([u8; 8], u64, u64, u64)> =
        k.prices.iter().map(|p| (p.symbol, p.rate, p.last_updated, p.request_id)).collect();
    let expected = borsh::to_vec(&(k.owner, k.current_size, slots)).unwrap();
    assert_eq!(encode_keeper(&k), expected);
}

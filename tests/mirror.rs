use price_db::codec::{decode_mirror, encode_mirror};
use price_db::gate::{PriceDbError, Signer};
use price_db::price::Price;
use price_db::simple_price_db::{find_rate, process_command, Command, SimplePriceDB, StdReferenceBasic};
use price_db::std_reference_basic::{self as keeper, PriceDBKeeper};

fn sym(s: &str) -> [u8; 8] {
    let mut a = [0u8; 8];
    a[..s.len()].copy_from_slice(s.as_bytes());
    a
}

fn signer(b: u8) -> Option<Signer> {
    Some(Signer { key: [b; 32], is_signer: true })
}

fn keeper_buffer() -> Vec<u8> {
    let a = signer(7);
    let mut data = vec![0u8; 37 + 96];
    keeper::process_command(&keeper::Command::Init(3, [7; 32]), &mut data, &None).unwrap();
    let batch = vec![
        Price { symbol: sym("ABC"), rate: 100, last_updated: 1, request_id: 1 },
        Price { symbol: sym("XYZ"), rate: 50, last_updated: 3, request_id: 3 },
    ];
    keeper::process_command(&keeper::Command::Relay(batch), &mut data, &a).unwrap();
    keeper::process_command(&keeper::Command::Remove(vec![sym("ABC")]), &mut data, &a).unwrap();
    data
}

fn mirror_buffer(owner: u8) -> Vec<u8> {
    let mut data = vec![0u8; 48];
    process_command(&Command::Init([owner; 32]), &mut data, &None, &vec![]).unwrap();
    data
}

#[test]
fn scenario_set_price_reads_the_keeper() {
    let reference = keeper_buffer();
    let mut data = mirror_buffer(2);
    let r = process_command(&Command::SetPrice(sym("XYZ")), &mut data, &signer(2), &reference);
    assert_eq!(r, Ok(()));
    let m = decode_mirror(&data).unwrap();
    assert_eq!(m.latest_price, 50);
    assert_eq!(m.latest_symbol, sym("XYZ"));
    assert_eq!(m.owner, [2; 32]);
}

#[test]
fn set_price_of_a_missing_symbol_fails() {
    let reference = keeper_buffer();
    let mut data = mirror_buffer(2);
    let before = data.clone();
    let r = process_command(&Command::SetPrice(sym("ABC")), &mut data, &signer(2), &reference);
    assert_eq!(r, Err(PriceDbError::KeyNotFound));
    assert_eq!(data, before);
}

#[test]
fn set_price_from_a_malformed_keeper_fails() {
    let mut data = mirror_buffer(2);
    let r = process_command(&Command::SetPrice(sym("XYZ")), &mut data, &signer(2), &vec![1, 2, 3]);
    assert_eq!(r, Err(PriceDbError::MalformedBuffer));
}

#[test]
fn mirror_init_resets_the_cache() {
    let data = mirror_buffer(4);
    let m = decode_mirror(&data).unwrap();
    assert_eq!(m, SimplePriceDB { owner: [4; 32], latest_symbol: [0; 8], latest_price: 0 });
    let mut again = data.clone();
    let r = process_command(&Command::Init([5; 32]), &mut again, &None, &vec![]);
    assert_eq!(r, Err(PriceDbError::AlreadyInitialized));
    let mut wrong = vec![0u8; 47];
    let r = process_command(&Command::Init([5; 32]), &mut wrong, &None, &vec![]);
    assert_eq!(r, Err(PriceDbError::MalformedBuffer));
}

#[test]
fn mirror_owner_is_independent() {
    let reference = keeper_buffer();
    let mut data = mirror_buffer(2);
    let r = process_command(&Command::SetPrice(sym("XYZ")), &mut data, &signer(7), &reference);
    assert_eq!(r, Err(PriceDbError::NotOwner));
    let r = process_command(&Command::TransferOwnership([6; 32]), &mut data, &signer(2), &reference);
    assert_eq!(r, Ok(()));
    assert_eq!(decode_mirror(&data).unwrap().owner, [6; 32]);
    let r = process_command(&Command::SetPrice(sym("XYZ")), &mut data, &signer(2), &reference);
    assert_eq!(r, Err(PriceDbError::NotOwner));
    let r = process_command(&Command::SetPrice(sym("XYZ")), &mut data, &None, &reference);
    assert_eq!(r, Err(PriceDbError::MissingAuthorization));
    let mut blank = vec![0u8; 48];
    let r = process_command(&Command::SetPrice(sym("XYZ")), &mut blank, &signer(2), &reference);
    assert_eq!(r, Err(PriceDbError::Uninitialized));
}

#[test]
fn set_price_on_the_state() {
    let mut k = PriceDBKeeper::get_empty(3);
    k.relay(&vec![Price { symbol: sym("ETH"), rate: 3000, last_updated: 1, request_id: 1 }]).unwrap();
    let reference = StdReferenceBasic { owner: k.owner, current_size: k.current_size, prices: k.prices };
    let mut m = SimplePriceDB { owner: [1; 32], latest_symbol: [0; 8], latest_price: 0 };
    assert_eq!(m.set_price(&reference, &sym("ETH")), Ok(()));
    assert_eq!(m.latest_price, 3000);
    assert_eq!(m.set_price(&reference, &sym("BTC")), Err(PriceDbError::KeyNotFound));
    assert_eq!(m.latest_price, 3000);
    assert_eq!(find_rate(&reference.prices, &sym("ETH")), Some(3000));
    assert_eq!(find_rate(&reference.prices, &sym("BTC")), None);
}

#[test]
fn mirror_round_trip_and_borsh_layout() {
    let m = SimplePriceDB { owner: [3; 32], latest_symbol: sym("BTC"), latest_price: 65000 };
    let bytes = encode_mirror(&m);
    assert_eq!(bytes, borsh::to_vec(&(m.owner, m.latest_symbol, m.latest_price)).unwrap());
    assert_eq!(decode_mirror(&bytes), Some(m));
}

#[test]
fn reference_decode_reads_a_keeper_buffer() {
    let reference = StdReferenceBasic::decode(&keeper_buffer()).unwrap();
    assert_eq!(reference.current_size, 1);
    assert_eq!(reference.prices[0].symbol, sym("XYZ"));
    assert!(StdReferenceBasic::decode(&vec![0u8; 10]).is_none());
}

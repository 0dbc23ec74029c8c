use price_db::gate::{PriceDbError, Signer};
use price_db::price::Price;
use price_db::simple_price_db;
use price_db::std_reference_basic::{self as keeper, PriceDBKeeper};
use price_db::codec::decode_keeper;

fn sym(s: &str) -> [u8; 8] {
    let mut a = [0u8; 8];
    a[..s.len()].copy_from_slice(s.as_bytes());
    a
}

#[test]
fn keeper_commands_decode_from_borsh_layout() {
    let init = borsh::to_vec(&(0u8, 3u8, [4u8; 32])).unwrap();
    assert!(matches!(keeper::Command::decode(&init), Some(keeper::Command::Init(3, o)) if o == [4u8; 32]));
    let transfer = borsh::to_vec(&(1u8, [5u8; 32])).unwrap();
    assert!(matches!(keeper::Command::decode(&transfer), Some(keeper::Command::TransferOwnership(o)) if o == [5u8; 32]));
    let relay = borsh::to_vec(&(2u8, vec![(sym("ABC"), 100u64, 1u64, 2u64)])).unwrap();
    match keeper::Command::decode(&relay) {
        Some(keeper::Command::Relay(batch)) => {
            assert_eq!(batch, vec![Price { symbol: sym("ABC"), rate: 100, last_updated: 1, request_id: 2 }]);
        }
        _ => panic!("relay did not decode"),
    }
    let remove = borsh::to_vec(&(3u8, vec![sym("ABC"), sym("XYZ")])).unwrap();
    match keeper::Command::decode(&remove) {
        Some(keeper::Command::Remove(keys)) => assert_eq!(keys, vec![sym("ABC"), sym("XYZ")]),
        _ => panic!("remove did not decode"),
    }
}

#[test]
fn invalid_keeper_commands_are_refused() {
    assert!(keeper::Command::decode(&vec![]).is_none());
    assert!(keeper::Command::decode(&vec![4]).is_none());
    assert!(keeper::Command::decode(&vec![1, 2, 3]).is_none());
    assert!(keeper::Command::decode(&vec![2, 1, 0, 0, 0]).is_none());
    assert!(keeper::Command::decode(&vec![3, 0, 0, 0, 0, 9]).is_none());
    let mut data = vec![0u8; 69];
    let r = keeper::process_instruction(&vec![9], &mut data, &None);
    assert_eq!(r, Err(PriceDbError::InvalidCommand));
    assert_eq!(data, vec![0u8; 69]);
}

#[test]
fn keeper_instructions_run_end_to_end() {
    let owner = Some(Signer { key: [4; 32], is_signer: true });
    let mut data = vec![0u8; 37 + 64];
    let init = borsh::to_vec(&(0u8, 2u8, [4u8; 32])).unwrap();
    assert_eq!(keeper::process_instruction(&init, &mut data, &None), Ok(()));
    let relay = borsh::to_vec(&(2u8, vec![(sym("ABC"), 7u64, 1u64, 1u64)])).unwrap();
    assert_eq!(keeper::process_instruction(&relay, &mut data, &owner), Ok(()));
    let k: PriceDBKeeper = decode_keeper(&data).unwrap();
    assert_eq!(k.current_size, 1);
    assert_eq!(k.prices[0].rate, 7);
}

#[test]
fn mirror_commands_decode() {
    assert!(matches!(simple_price_db::Command::decode(&borsh::to_vec(&(0u8, [1u8; 32])).unwrap()),
        Some(simple_price_db::Command::Init(o)) if o == [1u8; 32]));
    assert!(matches!(simple_price_db::Command::decode(&borsh::to_vec(&(1u8, [2u8; 32])).unwrap()),
        Some(simple_price_db::Command::TransferOwnership(o)) if o == [2u8; 32]));
    assert!(matches!(simple_price_db::Command::decode(&borsh::to_vec(&(2u8, sym("XYZ"))).unwrap()),
        Some(simple_price_db::Command::SetPrice(s)) if s == sym("XYZ")));
    assert!(simple_price_db::Command::decode(&vec![2, 1]).is_none());
    assert!(simple_price_db::Command::decode(&vec![3; 9]).is_none());
    let mut data = vec![0u8; 48];
    let r = simple_price_db::process_instruction(&vec![7], &mut data, &None, &vec![]);
    assert_eq!(r, Err(PriceDbError::InvalidCommand));
    let init = borsh::to_vec(&(0u8, [1u8; 32])).unwrap();
    assert_eq!(simple_price_db::process_instruction(&init, &mut data, &None, &vec![]), Ok(()));
    assert_eq!(&data[..32], &[1u8; 32]);
}

//! Tests of the key router and the shard layout.

use flat_resharder::account::AccountId;
use flat_resharder::shard::ShardLayout;
use flat_resharder::shard::ShardUId;
use flat_resharder::shard::account_id_to_shard_id;
use flat_resharder::trie_key::RouteDecision;
use flat_resharder::trie_key::parse_account_id_from_key;
use flat_resharder::trie_key::route;

fn account(s: &str) -> AccountId {
    AccountId::from_bytes(s.as_bytes().to_vec()).unwrap()
}

fn layout() -> ShardLayout {
    ShardLayout::v2(vec![account("ff"), account("pp")], vec![0, 2, 3])
}

#[test]
fn accounts_map_to_their_interval() {
    let l = layout();
    assert_eq!(account_id_to_shard_id(&account("aa"), &l), 0);
    assert_eq!(account_id_to_shard_id(&account("ff"), &l), 2);
    assert_eq!(account_id_to_shard_id(&account("mm"), &l), 2);
    assert_eq!(account_id_to_shard_id(&account("pp"), &l), 3);
    assert_eq!(account_id_to_shard_id(&account("vv"), &l), 3);
}

#[test]
fn account_columns_route_to_one_child() {
    let l = layout();
    let mut key = vec![0u8];
    key.extend_from_slice(b"mm");
    assert_eq!(route(&key, &l), RouteDecision::ToChild(ShardUId { version: 3, shard_id: 2 }));
    let mut key = vec![2u8];
    key.extend_from_slice(b"vv");
    key.push(2u8);
    key.extend_from_slice(b"ed25519:vv");
    assert_eq!(route(&key, &l), RouteDecision::ToChild(ShardUId { version: 3, shard_id: 3 }));
}

#[test]
fn special_columns_route_to_both_or_left() {
    let l = layout();
    for col in [7u8, 10u8, 11u8, 12u8] {
        let mut key = vec![col];
        if col == 12 {
            key.extend_from_slice(b"mm");
            key.push(b',');
        }
        assert_eq!(route(&key, &l), RouteDecision::ToBoth);
    }
    for col in [13u8, 14u8] {
        assert_eq!(route(&vec![col], &l), RouteDecision::ToLeft);
    }
}

#[test]
fn bad_keys_are_fatal() {
    let l = layout();
    // Empty key.
    assert_eq!(route(&vec![], &l), RouteDecision::Fatal);
    // Unknown column.
    assert_eq!(route(&vec![99u8], &l), RouteDecision::Fatal);
    // Access key without its separator.
    let mut key = vec![2u8];
    key.extend_from_slice(b"mm");
    assert_eq!(route(&key, &l), RouteDecision::Fatal);
    // Invalid account id in an account column.
    let mut key = vec![0u8];
    key.extend_from_slice(b"NOT/VALID");
    assert_eq!(route(&key, &l), RouteDecision::Fatal);
}

#[test]
fn account_parsing_stops_at_the_separator() {
    let mut key = vec![3u8];
    key.extend_from_slice(b"mm");
    key.push(b',');
    key.extend_from_slice(&[9u8; 32]);
    let parsed = parse_account_id_from_key(&key).unwrap();
    assert_eq!(parsed, account("mm"));
}

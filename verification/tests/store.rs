use sashstore::memb::{ClientValue, ServerValue};
use sashstore::SashStore;

fn frame(req_id: u16, body: &[u8]) -> Vec<u8> {
    let mut v = Vec::new();
    v.extend_from_slice(&[(req_id >> 8) as u8, (req_id & 0xff) as u8, 0, 0, 0, 1, 0, 0]);
    v.extend_from_slice(body);
    v
}

#[test]
fn set_then_get_hit() {
    let mut store = SashStore::with_capacity(64);

    let reply = store.handle_network_request(frame(0x002a, b"set foo 7 0 3\r\nbar\r\n"));
    assert_eq!(reply, frame(0x002a, b"STORED\r\n"));

    let reply = store.handle_network_request(frame(0x002b, b"get foo\r\n"));
    assert_eq!(reply, frame(0x002b, b"VALUE foo  7 3\r\nbar\r\n END\r\n"));
}

#[test]
fn get_miss_emits_no_packet() {
    let mut store = SashStore::with_capacity(64);
    let reply = store.handle_network_request(frame(0x002c, b"get nope\r\n"));
    assert!(reply.is_empty());
}

#[test]
fn oversize_key_set_is_not_stored() {
    let mut store = SashStore::with_capacity(64);
    let mut body = b"set ".to_vec();
    body.extend_from_slice(&[b'k'; 251]);
    body.extend_from_slice(b" 7 0 3\r\nbar\r\n");
    let reply = store.handle_network_request(frame(0x0042, &body));
    assert_eq!(reply, frame(0x0042, b"NOT_STORED\r\n"));
}

#[test]
fn longest_legal_key_is_stored() {
    let mut store = SashStore::with_capacity(64);
    let mut body = b"set ".to_vec();
    body.extend_from_slice(&[b'k'; 250]);
    body.extend_from_slice(b" 7 0 3\r\nbar\r\n");
    let reply = store.handle_network_request(frame(0x0042, &body));
    assert_eq!(reply, frame(0x0042, b"STORED\r\n"));
}

#[test]
fn oversize_value_set_is_not_stored() {
    let mut store = SashStore::with_capacity(64);
    let mut body = b"set big 0 0 1025\r\n".to_vec();
    body.extend_from_slice(&[b'v'; 1025]);
    body.extend_from_slice(b"\r\n");
    let reply = store.handle_network_request(frame(7, &body));
    assert_eq!(reply, frame(7, b"NOT_STORED\r\n"));
}

#[test]
fn malformed_request_is_dropped_silently() {
    let mut store = SashStore::with_capacity(64);
    let reply = store.handle_network_request(frame(5, b"quit\r\n"));
    assert!(reply.is_empty());
    // The store still works afterwards.
    let reply = store.handle_network_request(frame(6, b"set a 1 0 1\r\nx\r\n"));
    assert_eq!(reply, frame(6, b"STORED\r\n"));
}

#[test]
fn stores_are_isolated_from_each_other() {
    // Each worker owns a private store: a set against one is invisible
    // to a get against another.
    let mut store_a = SashStore::with_capacity(64);
    let mut store_b = SashStore::with_capacity(64);

    let reply = store_a.handle_network_request(frame(1, b"set foo 7 0 3\r\nbar\r\n"));
    assert_eq!(reply, frame(1, b"STORED\r\n"));

    let reply = store_b.handle_network_request(frame(2, b"get foo\r\n"));
    assert!(reply.is_empty());

    let reply = store_a.handle_network_request(frame(3, b"get foo\r\n"));
    assert_eq!(reply, frame(3, b"VALUE foo  7 3\r\nbar\r\n END\r\n"));
}

#[test]
fn overwrite_through_the_wire() {
    let mut store = SashStore::with_capacity(64);
    store.handle_network_request(frame(1, b"set foo 7 0 3\r\nbar\r\n"));
    store.handle_network_request(frame(2, b"set foo 9 0 3\r\nqux\r\n"));
    let reply = store.handle_network_request(frame(3, b"get foo\r\n"));
    assert_eq!(reply, frame(3, b"VALUE foo  9 3\r\nqux\r\n END\r\n"));
    assert_eq!(store.len(), 1);
}

#[test]
fn execute_cmd_answers_ops_directly() {
    let mut store = SashStore::with_capacity(8);
    let r = store.execute_cmd(ClientValue::Put(4, b"k".to_vec(), 3, b"v".to_vec()));
    assert!(matches!(r, ServerValue::Stored(4)));
    let r = store.execute_cmd(ClientValue::Get(5, b"k".to_vec()));
    match r {
        ServerValue::Value(req_id, key, flags, data) => {
            assert_eq!(req_id, 5);
            assert_eq!(key, b"k".to_vec());
            assert_eq!(flags, 3);
            assert_eq!(data, b"v".to_vec());
        }
        other => panic!("got {:?}", other),
    }
    let r = store.execute_cmd(ClientValue::Get(6, b"absent".to_vec()));
    assert!(matches!(r, ServerValue::NoReply));
}

#[test]
fn store_rehash_keeps_every_entry() {
    // Twenty distinct keys against a store of sixteen slots (max load
    // 7/10, growth 2): the capacity at least doubles and every key
    // stays retrievable with its value.
    let mut store = SashStore::with_capacity(16);
    for i in 0..20u32 {
        let key = format!("key-{}", i).into_bytes();
        let value = format!("value-{}", i).into_bytes();
        let r = store.execute_cmd(ClientValue::Put(i as u16, key, i, value));
        assert!(matches!(r, ServerValue::Stored(_)));
    }
    assert!(store.capacity() >= 32);
    assert_eq!(store.len(), 20);
    for i in 0..20u32 {
        let key = format!("key-{}", i).into_bytes();
        match store.execute_cmd(ClientValue::Get(i as u16, key.clone())) {
            ServerValue::Value(req_id, k, flags, data) => {
                assert_eq!(req_id, i as u16);
                assert_eq!(k, key);
                assert_eq!(flags, i);
                assert_eq!(data, format!("value-{}", i).into_bytes());
            }
            other => panic!("got {:?}", other),
        }
    }
}

#[test]
fn store_grows_through_the_wire() {
    let mut store = SashStore::with_capacity(4);
    for i in 0..40u32 {
        let body = format!("set key-{} {} 0 5\r\nhello\r\n", i, i);
        let reply = store.handle_network_request(frame(i as u16, body.as_bytes()));
        assert_eq!(reply, frame(i as u16, b"STORED\r\n"));
    }
    assert_eq!(store.len(), 40);
    assert!(store.capacity() >= 40);
    for i in 0..40u32 {
        let body = format!("get key-{}\r\n", i);
        let expected = format!("VALUE key-{}  {} 5\r\nhello\r\n END\r\n", i, i);
        let reply = store.handle_network_request(frame(i as u16, body.as_bytes()));
        assert_eq!(reply, frame(i as u16, expected.as_bytes()));
    }
}

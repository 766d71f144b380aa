//! Tests of the command dispatcher: one decoded request in, one reply
//! out, against a shared store.

use miniredis::dispatch::dispatch;
use miniredis::resp::Resp;
use miniredis::store::Store;

fn b(s: &str) -> Vec<u8> {
    s.as_bytes().to_vec()
}

fn bulk(s: &str) -> Resp {
    Resp::BulkString(b(s))
}

fn cmd(parts: &[&str]) -> Resp {
    Resp::Array(parts.iter().map(|p| bulk(p)).collect())
}

fn run(store: &mut Store, parts: &[&str], now: u64) -> Resp {
    dispatch(store, &cmd(parts), now).expect("a command-shaped request")
}

#[test]
fn scenario_set_get_expire_ttl_del() {
    let mut store = Store::new();
    let now = 1000;
    assert_eq!(run(&mut store, &["SET", "foo", "bar"], now), Resp::SimpleString(b("OK")));
    assert_eq!(run(&mut store, &["GET", "foo"], now), bulk("bar"));
    assert_eq!(run(&mut store, &["EXPIRE", "foo", "100"], now), Resp::Integer(1));
    match run(&mut store, &["TTL", "foo"], now + 1) {
        Resp::Integer(t) => assert!(0 < t && t <= 100, "ttl {}", t),
        other => panic!("unexpected ttl reply {:?}", other),
    }
    assert_eq!(run(&mut store, &["DEL", "foo"], now + 1), Resp::SimpleString(b("OK")));
    assert_eq!(run(&mut store, &["GET", "foo"], now + 1), Resp::Null);
    assert_eq!(run(&mut store, &["EXISTS", "foo"], now + 1), Resp::Integer(0));
}

#[test]
fn ping_pongs() {
    let mut store = Store::new();
    assert_eq!(run(&mut store, &["ping"], 0), Resp::SimpleString(b("PONG")));
    assert_eq!(run(&mut store, &["PiNg"], 0), Resp::SimpleString(b("PONG")));
}

#[test]
fn echo_returns_its_argument() {
    let mut store = Store::new();
    assert_eq!(run(&mut store, &["ECHO", "hello"], 0), bulk("hello"));
    assert_eq!(
        run(&mut store, &["ECHO"], 0),
        Resp::Error(b("Echo requires a message"))
    );
}

#[test]
fn unknown_command_is_an_error_reply() {
    let mut store = Store::new();
    assert_eq!(
        run(&mut store, &["NOPE", "x"], 0),
        Resp::Error(b("unknown command"))
    );
}

#[test]
fn get_requires_a_key() {
    let mut store = Store::new();
    assert_eq!(run(&mut store, &["GET"], 0), Resp::Error(b("Get requires a key")));
    let msg = Resp::Array(vec![bulk("GET"), Resp::Integer(1)]);
    assert_eq!(
        dispatch(&mut store, &msg, 0).unwrap(),
        Resp::Error(b("Get requires a key"))
    );
}

#[test]
fn set_with_expiry_expires() {
    let mut store = Store::new();
    let now = 500;
    assert_eq!(
        run(&mut store, &["SET", "k", "v", "EX", "5"], now),
        Resp::SimpleString(b("OK"))
    );
    assert_eq!(run(&mut store, &["GET", "k"], now + 4), bulk("v"));
    match run(&mut store, &["TTL", "k"], now + 4) {
        Resp::Integer(t) => assert!(0 < t && t <= 5),
        other => panic!("unexpected ttl reply {:?}", other),
    }
    assert_eq!(run(&mut store, &["GET", "k"], now + 5), Resp::Null);
    assert_eq!(run(&mut store, &["EXISTS", "k"], now + 5), Resp::Integer(0));
}

#[test]
fn set_argument_shapes() {
    let mut store = Store::new();
    assert_eq!(
        run(&mut store, &["SET", "k"], 0),
        Resp::Error(b("Set requires a key and a value"))
    );
    assert_eq!(
        run(&mut store, &["SET", "k", "v", "EX"], 0),
        Resp::Error(b("Set requires a key and a value"))
    );
    assert_eq!(
        run(&mut store, &["SET", "k", "v", "EX", "-3"], 0),
        Resp::Error(b("Set requires a non-negative expiry"))
    );
    assert_eq!(
        run(&mut store, &["SET", "k", "v", "EX", "12x"], 0),
        Resp::Error(b("Set requires a non-negative expiry"))
    );
    // A failed validation changes nothing.
    assert_eq!(run(&mut store, &["GET", "k"], 0), Resp::Null);
}

#[test]
fn expire_and_persist_replies() {
    let mut store = Store::new();
    let now = 10;
    assert_eq!(run(&mut store, &["EXPIRE", "nothere", "5"], now), Resp::Integer(0));
    run(&mut store, &["SET", "k", "v"], now);
    assert_eq!(run(&mut store, &["PERSIST", "k"], now), Resp::Integer(0));
    assert_eq!(run(&mut store, &["EXPIRE", "k", "5"], now), Resp::Integer(1));
    assert_eq!(run(&mut store, &["PERSIST", "k"], now), Resp::Integer(1));
    assert_eq!(run(&mut store, &["TTL", "k"], now + 1000), Resp::Integer(-1));
    assert_eq!(run(&mut store, &["GET", "k"], now + 1000), bulk("v"));
    assert_eq!(
        run(&mut store, &["EXPIRE", "k", "x5"], now),
        Resp::Error(b("Expire requires a non-negative amount"))
    );
    assert_eq!(
        run(&mut store, &["EXPIRE", "k"], now),
        Resp::Error(b("Expire requires a key and an amount"))
    );
}

#[test]
fn persist_on_an_expired_key_fails() {
    let mut store = Store::new();
    let now = 100;
    run(&mut store, &["SET", "k", "v", "EX", "5"], now);
    assert_eq!(run(&mut store, &["PERSIST", "k"], now + 5), Resp::Integer(0));
    assert_eq!(run(&mut store, &["GET", "k"], now + 5), Resp::Null);
    assert_eq!(run(&mut store, &["GET", "k"], now + 1000), Resp::Null);
}

#[test]
fn ttl_of_missing_key_is_minus_one() {
    let mut store = Store::new();
    assert_eq!(run(&mut store, &["TTL", "nothere"], 0), Resp::Integer(-1));
}

#[test]
fn keys_and_flushdb() {
    let mut store = Store::new();
    run(&mut store, &["SET", "a", "1"], 0);
    run(&mut store, &["SET", "b", "2"], 0);
    match run(&mut store, &["KEYS"], 0) {
        Resp::Array(items) => {
            let mut names: Vec<Vec<u8>> = items
                .into_iter()
                .map(|item| match item {
                    Resp::BulkString(k) => k,
                    other => panic!("unexpected element {:?}", other),
                })
                .collect();
            names.sort();
            assert_eq!(names, vec![b("a"), b("b")]);
        },
        other => panic!("unexpected keys reply {:?}", other),
    }
    assert_eq!(run(&mut store, &["FLUSHDB"], 0), Resp::SimpleString(b("OK")));
    assert_eq!(run(&mut store, &["KEYS"], 0), Resp::Array(vec![]));
}

#[test]
fn non_commands_are_protocol_errors() {
    let mut store = Store::new();
    assert!(dispatch(&mut store, &Resp::Integer(5), 0).is_err());
    assert!(dispatch(&mut store, &Resp::Array(vec![]), 0).is_err());
    assert!(
        dispatch(&mut store, &Resp::Array(vec![Resp::Integer(1), bulk("x")]), 0).is_err()
    );
}

#[test]
fn disjoint_connections_via_dispatch() {
    let mut store = Store::new();
    run(&mut store, &["SET", "c1", "one"], 0);
    run(&mut store, &["SET", "c2", "two"], 0);
    run(&mut store, &["SET", "c2", "two2"], 1);
    assert_eq!(run(&mut store, &["GET", "c1"], 2), bulk("one"));
    assert_eq!(run(&mut store, &["GET", "c2"], 2), bulk("two2"));
}

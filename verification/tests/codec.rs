use yrb::engine_any::{DictEntry, EngineAny};
use yrb::error::BridgeError;
use yrb::yvalue::{engine_to_host, host_to_engine, ContainerKind, HostPair, HostValue, ProxyDesc};

fn round_trip(v: HostValue) -> HostValue {
    let a = host_to_engine(&v).expect("conversion should succeed");
    engine_to_host(&a)
}

#[test]
fn convert_any_to_yvalue() {
    let value = EngineAny::Null;
    let host = engine_to_host(&value);
    assert!(matches!(host, HostValue::Nil));
}

#[test]
fn round_trip_nil() {
    assert_eq!(round_trip(HostValue::Nil), HostValue::Nil);
}

#[test]
fn round_trip_bool() {
    assert_eq!(round_trip(HostValue::Bool(true)), HostValue::Bool(true));
    assert_eq!(round_trip(HostValue::Bool(false)), HostValue::Bool(false));
}

#[test]
fn round_trip_integers() {
    for v in [0i64, 1, -1, i64::MAX, i64::MIN] {
        assert_eq!(round_trip(HostValue::Int(v)), HostValue::Int(v));
    }
}

#[test]
fn round_trip_float_bits() {
    let bits = (2.5f64).to_bits();
    assert_eq!(round_trip(HostValue::Float(bits)), HostValue::Float(bits));
    let neg = (-0.0f64).to_bits();
    assert_eq!(round_trip(HostValue::Float(neg)), HostValue::Float(neg));
}

#[test]
fn round_trip_string_and_bytes() {
    assert_eq!(
        round_trip(HostValue::Str(String::from("héllo"))),
        HostValue::Str(String::from("héllo"))
    );
    assert_eq!(
        round_trip(HostValue::Bytes(vec![0, 1, 255])),
        HostValue::Bytes(vec![0, 1, 255])
    );
}

#[test]
fn round_trip_nested_list_and_map() {
    let v = HostValue::List(vec![
        HostValue::Int(1),
        HostValue::List(vec![HostValue::Str(String::from("x"))]),
        HostValue::Dict(vec![HostPair {
            key: HostValue::Str(String::from("k")),
            val: HostValue::Bool(true),
        }]),
    ]);
    let w = HostValue::List(vec![
        HostValue::Int(1),
        HostValue::List(vec![HostValue::Str(String::from("x"))]),
        HostValue::Dict(vec![HostPair {
            key: HostValue::Str(String::from("k")),
            val: HostValue::Bool(true),
        }]),
    ]);
    assert_eq!(round_trip(v), w);
}

#[test]
fn symbols_normalize_to_strings() {
    // A symbol stores as a plain string and reads back as a string.
    assert_eq!(
        round_trip(HostValue::Sym(String::from("name"))),
        HostValue::Str(String::from("name"))
    );
}

#[test]
fn symbol_and_string_keys_store_alike() {
    let with_sym = HostValue::Dict(vec![HostPair {
        key: HostValue::Sym(String::from("x")),
        val: HostValue::Int(7),
    }]);
    let with_str = HostValue::Dict(vec![HostPair {
        key: HostValue::Str(String::from("x")),
        val: HostValue::Int(7),
    }]);
    assert_eq!(
        host_to_engine(&with_sym).unwrap(),
        host_to_engine(&with_str).unwrap()
    );
}

#[test]
fn later_duplicate_key_wins() {
    let v = HostValue::Dict(vec![
        HostPair {
            key: HostValue::Str(String::from("x")),
            val: HostValue::Int(1),
        },
        HostPair {
            key: HostValue::Sym(String::from("x")),
            val: HostValue::Int(2),
        },
    ]);
    let a = host_to_engine(&v).unwrap();
    assert_eq!(
        a,
        EngineAny::Dict(vec![DictEntry {
            key: String::from("x"),
            val: EngineAny::BigInt(2),
        }])
    );
}

#[test]
fn proxy_payload_is_rejected() {
    let v = HostValue::Proxy(ProxyDesc {
        kind: ContainerKind::Array,
        root: String::from("a"),
        node: 0,
    });
    match host_to_engine(&v) {
        Err(BridgeError::Conversion(_)) => {}
        other => panic!("expected a conversion error, got {:?}", other),
    }
}

#[test]
fn non_string_map_key_is_rejected() {
    let v = HostValue::Dict(vec![HostPair {
        key: HostValue::Int(1),
        val: HostValue::Nil,
    }]);
    match host_to_engine(&v) {
        Err(BridgeError::Conversion(_)) => {}
        other => panic!("expected a conversion error, got {:?}", other),
    }
}

#[test]
fn foreign_value_is_rejected_naming_its_class() {
    let v = HostValue::Foreign(String::from("SomeHostClass"));
    match host_to_engine(&v) {
        Err(BridgeError::Conversion(m)) => assert!(m.contains("SomeHostClass")),
        other => panic!("expected a conversion error, got {:?}", other),
    }
}

#[test]
fn undefined_and_null_read_as_nil() {
    assert!(matches!(engine_to_host(&EngineAny::Null), HostValue::Nil));
    assert!(matches!(
        engine_to_host(&EngineAny::Undefined),
        HostValue::Nil
    ));
}

#[test]
fn map_keys_surface_as_strings() {
    let a = EngineAny::Dict(vec![DictEntry {
        key: String::from("k"),
        val: EngineAny::Bool(true),
    }]);
    match engine_to_host(&a) {
        HostValue::Dict(pairs) => {
            assert_eq!(pairs.len(), 1);
            assert!(matches!(&pairs[0].key, HostValue::Str(s) if s == "k"));
        }
        other => panic!("expected a map, got {:?}", other),
    }
}

#[test]
fn error_message_is_carried() {
    let e = BridgeError::Bounds(String::from("index lies outside the sequence"));
    assert_eq!(e.message(), String::from("index lies outside the sequence"));
}

use naming_cache::cache::CacheError;
use naming_cache::cache::CacheKey;
use naming_cache::cache::CacheType;
use naming_cache::envelope::CacheItemDo;
use naming_cache::value::CacheValue;
use naming_cache::value::TokenSession;
use naming_cache::value::UserSession;

#[test]
fn type_codes() {
    assert_eq!(CacheType::String.get_type_data(), 1);
    assert_eq!(CacheType::StringMap.get_type_data(), 2);
    assert_eq!(CacheType::UserSession.get_type_data(), 3);
    assert_eq!(CacheType::ApiTokenSession.get_type_data(), 4);
    for code in 1u8..=4u8 {
        let t = CacheType::from_data(code).unwrap();
        assert_eq!(t.get_type_data(), code);
    }
    assert_eq!(CacheType::from_data(0), Err(CacheError::UnknownCacheType));
    assert_eq!(CacheType::from_data(5), Err(CacheError::UnknownCacheType));
    assert_eq!(CacheType::from_data(255), Err(CacheError::UnknownCacheType));
    assert_eq!(CacheType::default(), CacheType::String);
}

#[test]
fn key_canonical_form() {
    let k = CacheKey::new(CacheType::String, "abc".to_string());
    assert_eq!(k.to_key_string(), "1\u{0}abc");
    let k2 = CacheKey::new(CacheType::UserSession, "".to_string());
    assert_eq!(k2.to_key_string(), "3\u{0}");
}

#[test]
fn key_round_trip() {
    for (t, name) in [
        (CacheType::String, "plain"),
        (CacheType::StringMap, "a map key"),
        (CacheType::UserSession, ""),
        (CacheType::ApiTokenSession, "tok-123"),
    ] {
        let k = CacheKey::new(t, name.to_string());
        let back = CacheKey::from_db_key(k.to_key_string().into_bytes()).unwrap();
        assert_eq!(back, k);
    }
}

#[test]
fn key_parse_errors() {
    assert_eq!(
        CacheKey::from_db_key(b"1abc".to_vec()),
        Err(CacheError::MalformedKey)
    );
    assert_eq!(
        CacheKey::from_db_key(b"x\0k".to_vec()),
        Err(CacheError::MalformedKey)
    );
    assert_eq!(
        CacheKey::from_db_key(b"\0k".to_vec()),
        Err(CacheError::MalformedKey)
    );
    assert_eq!(
        CacheKey::from_db_key(b"256\0k".to_vec()),
        Err(CacheError::MalformedKey)
    );
    assert_eq!(
        CacheKey::from_db_key(b"9\0k".to_vec()),
        Err(CacheError::UnknownCacheType)
    );
    assert_eq!(
        CacheKey::from_db_key(vec![49, 0, 0xff]),
        Err(CacheError::MalformedKey)
    );
}

#[test]
fn key_parse_lenient_prefix() {
    let k = CacheKey::from_db_key(b"+1\0k".to_vec()).unwrap();
    assert_eq!(k.cache_type, CacheType::String);
    assert_eq!(k.key, "k");
    let k2 = CacheKey::from_db_key(b"004\0k".to_vec()).unwrap();
    assert_eq!(k2.cache_type, CacheType::ApiTokenSession);
}

#[test]
fn key_from_bytes_and_string() {
    let k = CacheKey::from_bytes(b"hello".to_vec(), 2).unwrap();
    assert_eq!(k.cache_type, CacheType::StringMap);
    assert_eq!(k.key, "hello");
    assert_eq!(
        CacheKey::from_bytes(vec![0xff], 1),
        Err(CacheError::MalformedKey)
    );
    assert_eq!(
        CacheKey::from_string("k".to_string(), 9),
        Err(CacheError::UnknownCacheType)
    );
    let d = CacheKey::default();
    assert_eq!(d.cache_type, CacheType::String);
    assert_eq!(d.key, "");
}

#[test]
fn string_value_round_trip() {
    for text in ["", "hello", "naïve — ünïcode"] {
        let v = CacheValue::String(text.to_string());
        let bytes = v.to_bytes();
        assert_eq!(bytes, text.as_bytes().to_vec());
        match CacheValue::from_bytes(bytes, CacheType::String).unwrap() {
            CacheValue::String(s) => assert_eq!(s, text),
            _ => panic!("wrong variant"),
        }
    }
}

#[test]
fn map_value_round_trip() {
    for entries in [
        vec![],
        vec![("k".to_string(), "v".to_string())],
        vec![
            ("a".to_string(), "1".to_string()),
            ("b".to_string(), "".to_string()),
            ("".to_string(), "x".to_string()),
        ],
    ] {
        let v = CacheValue::StringMap(entries.clone());
        let bytes = v.to_bytes();
        match CacheValue::from_bytes(bytes, CacheType::StringMap).unwrap() {
            CacheValue::StringMap(m) => assert_eq!(m, entries),
            _ => panic!("wrong variant"),
        }
    }
}

#[test]
fn user_session_round_trip() {
    let session = UserSession {
        username: "admin".to_string(),
        nickname: "Ada".to_string(),
        roles: vec!["root".to_string(), "dev".to_string()],
        extend_infos: vec![("team".to_string(), "core".to_string())],
    };
    let v = CacheValue::UserSession(session);
    let bytes = v.to_bytes();
    match CacheValue::from_bytes(bytes, CacheType::UserSession).unwrap() {
        CacheValue::UserSession(u) => {
            assert_eq!(u.username, "admin");
            assert_eq!(u.nickname, "Ada");
            assert_eq!(u.roles, vec!["root".to_string(), "dev".to_string()]);
            assert_eq!(
                u.extend_infos,
                vec![("team".to_string(), "core".to_string())]
            );
        }
        _ => panic!("wrong variant"),
    }
}

#[test]
fn token_session_round_trip() {
    let v = CacheValue::ApiTokenSession(TokenSession {
        username: "svc".to_string(),
        roles: vec![],
    });
    let bytes = v.to_bytes();
    match CacheValue::from_bytes(bytes, CacheType::ApiTokenSession).unwrap() {
        CacheValue::ApiTokenSession(t) => {
            assert_eq!(t.username, "svc");
            assert!(t.roles.is_empty());
        }
        _ => panic!("wrong variant"),
    }
}

#[test]
fn mismatched_type_decode_fails() {
    let map_bytes = CacheValue::StringMap(vec![]).to_bytes();
    assert!(matches!(
        CacheValue::from_bytes(map_bytes, CacheType::UserSession),
        Err(CacheError::DecodeError)
    ));
    assert!(matches!(
        CacheValue::from_bytes(vec![0xff, 0xfe], CacheType::String),
        Err(CacheError::DecodeError)
    ));
    assert!(matches!(
        CacheValue::from_bytes(b"not a map".to_vec(), CacheType::StringMap),
        Err(CacheError::DecodeError)
    ));
}

#[test]
fn envelope_exact_bytes() {
    let item = CacheItemDo {
        cache_type: 1,
        data: vec![0x61],
        timeout: 0,
    };
    assert_eq!(item.to_bytes(), vec![0x08, 0x01, 0x12, 0x01, 0x61]);

    let zero = CacheItemDo {
        cache_type: 0,
        data: vec![],
        timeout: 0,
    };
    assert_eq!(zero.to_bytes(), Vec::<u8>::new());

    let timed = CacheItemDo {
        cache_type: 3,
        data: vec![],
        timeout: 300,
    };
    assert_eq!(timed.to_bytes(), vec![0x08, 0x03, 0x18, 0xac, 0x02]);
}

#[test]
fn envelope_round_trip() {
    let items = [
        CacheItemDo {
            cache_type: 4,
            data: b"payload".to_vec(),
            timeout: 3600,
        },
        CacheItemDo {
            cache_type: 0,
            data: vec![],
            timeout: 0,
        },
        CacheItemDo {
            cache_type: 2,
            data: vec![0],
            timeout: -1,
        },
    ];
    for item in items {
        let bytes = item.to_bytes();
        let back = CacheItemDo::from_bytes(&bytes).unwrap();
        assert_eq!(back.cache_type, item.cache_type);
        assert_eq!(back.data, item.data);
        assert_eq!(back.timeout, item.timeout);
    }
    let empty = CacheItemDo::from_bytes(&[]).unwrap();
    assert_eq!(empty.cache_type, 0);
    assert!(empty.data.is_empty());
    assert_eq!(empty.timeout, 0);
}

#[test]
fn envelope_rejects_stray_bytes() {
    assert!(matches!(
        CacheItemDo::from_bytes(&[0x08, 0x01, 0x99]),
        Err(CacheError::DecodeError)
    ));
    assert!(matches!(
        CacheItemDo::from_bytes(&[0x12]),
        Err(CacheError::DecodeError)
    ));
}

#[test]
fn envelope_tag_always_matches_value() {
    let values = [
        CacheValue::String("code".to_string()),
        CacheValue::StringMap(vec![("a".to_string(), "b".to_string())]),
        CacheValue::UserSession(UserSession {
            username: "u".to_string(),
            nickname: "".to_string(),
            roles: vec![],
            extend_infos: vec![],
        }),
        CacheValue::ApiTokenSession(TokenSession {
            username: "t".to_string(),
            roles: vec!["api".to_string()],
        }),
    ];
    for v in values {
        let tag = v.get_cache_type();
        let item = CacheItemDo::from_value(&v);
        assert_eq!(item.cache_type, tag.get_type_data() as u32);
        assert_eq!(item.timeout, 0);
        let back = CacheValue::try_from_item(item).unwrap();
        assert_eq!(back.get_cache_type(), tag);
    }
}

#[test]
fn envelope_unknown_tag_refused() {
    let item = CacheItemDo {
        cache_type: 9,
        data: vec![],
        timeout: 0,
    };
    assert!(matches!(
        CacheValue::try_from_item(item),
        Err(CacheError::UnknownCacheType)
    ));
    let big = CacheItemDo {
        cache_type: 257,
        data: vec![],
        timeout: 0,
    };
    assert!(matches!(
        CacheValue::try_from_item(big),
        Err(CacheError::UnknownCacheType)
    ));
}

#[test]
fn map_with_duplicate_keys_round_trips() {
    let entries = vec![
        ("k".to_string(), "old".to_string()),
        ("k".to_string(), "new".to_string()),
    ];
    let bytes = CacheValue::StringMap(entries.clone()).to_bytes();
    match CacheValue::from_bytes(bytes, CacheType::StringMap).unwrap() {
        CacheValue::StringMap(m) => assert_eq!(m, entries),
        _ => panic!("wrong variant"),
    }
}

#[test]
fn default_value_is_empty_string() {
    match CacheValue::default() {
        CacheValue::String(s) => assert_eq!(s, ""),
        _ => panic!("wrong variant"),
    }
}

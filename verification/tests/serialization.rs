use sh_bot::DecodeError;
use sh_bot::OnlineStatus;
use sh_bot::SERIALIZATION_VERSION;
use sh_bot::ShStatus;
use sh_bot::Tier;
use sh_bot::Timeframe;
use sh_bot::Timespec;
use sh_bot::UserData;
use sh_bot::Value;
use sh_bot::Want;

fn w(t: Tier) -> Want {
    Want { tier: t }
}

#[test]
fn tier() {
    let tiers = vec![Tier::Tier6, Tier::Tier8, Tier::Tier10];
    for tier in tiers {
        let encoded = tier.encode();
        let n = match encoded {
            Value::U64(n) => n,
            _ => panic!("tier must encode as a number"),
        };
        let decoded = Tier::decode(n).unwrap();
        assert_eq!(tier, decoded);
    }
}

#[test]
fn want() {
    let tiers = vec![Tier::Tier6, Tier::Tier8, Tier::Tier10];
    for tier in tiers {
        let want = Want { tier };
        let encoded = want.encode();
        let decoded = Want::decode(&encoded).unwrap();
        assert_eq!(want, decoded);
    }
}

#[test]
fn timeframe() {
    let until1 = Timespec { sec: 0, nsec: 0 };
    let until2 = Timespec {
        sec: 12345678,
        nsec: 2345,
    };
    let timeframes = vec![
        Timeframe::Always,
        Timeframe::UntilLogout,
        Timeframe::Timespan { until: until1 },
        Timeframe::Timespan { until: until2 },
    ];
    for timeframe in timeframes {
        let encoded = timeframe.encode();
        let decoded = Timeframe::decode(encoded.as_str()).unwrap();
        assert_eq!(timeframe, decoded);
    }
}

#[test]
fn timeframe_strings_are_discriminated() {
    assert_eq!("Always", Timeframe::Always.encode());
    assert_eq!("UntilLogout", Timeframe::UntilLogout.encode());
    assert_eq!(
        "Timespan:12345678:2345",
        Timeframe::Timespan {
            until: Timespec {
                sec: 12345678,
                nsec: 2345
            }
        }
        .encode()
    );
    assert_eq!(
        "Timespan:-5:0",
        Timeframe::Timespan {
            until: Timespec { sec: -5, nsec: 0 }
        }
        .encode()
    );
}

#[test]
fn timeframe_decode_accepts_signed_components() {
    assert_eq!(
        Ok(Timeframe::Timespan {
            until: Timespec { sec: 5, nsec: 0 }
        }),
        Timeframe::decode("Timespan:+5:0")
    );
    assert_eq!(
        Ok(Timeframe::Timespan {
            until: Timespec { sec: -5, nsec: -1 }
        }),
        Timeframe::decode("Timespan:-5:-1")
    );
}

#[test]
fn decode_errors_carry_a_message() {
    assert_eq!(
        "Invalid serialization version 2.",
        DecodeError::InvalidVersion { found: 2 }.message()
    );
    assert_eq!(
        "The encoded value does not follow the schema.",
        DecodeError::Malformed.message()
    );
}

#[test]
fn timeframe_decode_rejects_malformed() {
    assert_eq!(Err(DecodeError::Malformed), Timeframe::decode("Sometimes"));
    assert_eq!(Err(DecodeError::Malformed), Timeframe::decode("Timespan"));
    assert_eq!(Err(DecodeError::Malformed), Timeframe::decode("Timespan:5"));
    assert_eq!(
        Err(DecodeError::Malformed),
        Timeframe::decode("Timespan:x:y")
    );
    assert_eq!(
        Err(DecodeError::Malformed),
        Timeframe::decode("Timespan:1:2:3")
    );
}

#[test]
fn userdata() {
    let statuses = vec![
        OnlineStatus::Online,
        OnlineStatus::Offline,
        OnlineStatus::Idle,
    ];
    let until = Timespec {
        sec: 12345678,
        nsec: 2345,
    };
    for status in statuses {
        let user_data = UserData {
            status,
            time_wants: vec![
                (Timeframe::Always, vec![]),
                (Timeframe::UntilLogout, vec![w(Tier::Tier8)]),
                (
                    Timeframe::Timespan { until },
                    vec![w(Tier::Tier10), w(Tier::Tier6)],
                ),
            ],
        };
        let encoded = user_data.encode();
        let decoded = UserData::decode(&encoded).unwrap();
        assert_eq!(user_data, decoded);
    }
}

#[test]
fn sh_status_empty() {
    let sh_status = ShStatus::from_users(vec![]).unwrap();
    let encoded = sh_status.encode();
    let decoded = ShStatus::decode(&encoded).unwrap();
    assert_eq!(sh_status, decoded);
}

#[test]
fn sh_status_simple() {
    let empty_user_data = UserData {
        status: OnlineStatus::Online,
        time_wants: vec![],
    };
    let sh_status = ShStatus::from_users(vec![(0, empty_user_data)]).unwrap();
    let encoded = sh_status.encode();
    let decoded = ShStatus::decode(&encoded).unwrap();
    assert_eq!(sh_status, decoded);
}

#[test]
fn sh_status_complex() {
    let until = Timespec {
        sec: 12345678,
        nsec: 2345,
    };
    let time_wants2 = vec![(Timeframe::Timespan { until }, vec![])];
    let time_wants3 = vec![
        (Timeframe::Always, vec![]),
        (Timeframe::UntilLogout, vec![w(Tier::Tier8)]),
        (
            Timeframe::Timespan { until },
            vec![w(Tier::Tier10), w(Tier::Tier6)],
        ),
    ];
    let users = vec![
        (
            0,
            UserData {
                status: OnlineStatus::Online,
                time_wants: vec![],
            },
        ),
        (
            1,
            UserData {
                status: OnlineStatus::Offline,
                time_wants: time_wants2,
            },
        ),
        (
            1357,
            UserData {
                status: OnlineStatus::Idle,
                time_wants: time_wants3,
            },
        ),
    ];
    let sh_status = ShStatus::from_users(users).unwrap();
    let encoded = sh_status.encode();
    let decoded = ShStatus::decode(&encoded).unwrap();
    assert_eq!(sh_status, decoded);
}

#[test]
fn sh_status_decode_rejects_wrong_version() {
    let encoded = Value::List(vec![
        Value::U64(SERIALIZATION_VERSION + 1),
        Value::Obj(vec![]),
    ]);
    assert_eq!(
        Err(DecodeError::InvalidVersion {
            found: SERIALIZATION_VERSION + 1
        }),
        ShStatus::decode(&encoded)
    );
}

#[test]
fn sh_status_decode_rejects_malformed() {
    assert_eq!(
        Err(DecodeError::Malformed),
        ShStatus::decode(&Value::U64(1))
    );
    assert_eq!(
        Err(DecodeError::Malformed),
        ShStatus::decode(&Value::List(vec![Value::U64(SERIALIZATION_VERSION)]))
    );
    let bad_uid = Value::List(vec![
        Value::U64(SERIALIZATION_VERSION),
        Value::Obj(vec![("nope".to_string(), Value::List(vec![]))]),
    ]);
    assert_eq!(Err(DecodeError::Malformed), ShStatus::decode(&bad_uid));
    let bad_tier = Value::List(vec![
        Value::U64(SERIALIZATION_VERSION),
        Value::Obj(vec![(
            "7".to_string(),
            Value::List(vec![
                Value::Str("Online".to_string()),
                Value::Obj(vec![("Always".to_string(), Value::List(vec![Value::U64(7)]))]),
            ]),
        )]),
    ]);
    assert_eq!(Err(DecodeError::Malformed), ShStatus::decode(&bad_tier));
}

#[test]
fn decode_folds_duplicate_wants() {
    let doubled = Value::List(vec![
        Value::Str("Online".to_string()),
        Value::Obj(vec![(
            "Always".to_string(),
            Value::List(vec![Value::U64(6), Value::U64(6), Value::U64(8)]),
        )]),
    ]);
    let decoded = UserData::decode(&doubled).unwrap();
    assert_eq!(
        vec![(Timeframe::Always, vec![w(Tier::Tier6), w(Tier::Tier8)])],
        decoded.time_wants
    );
}

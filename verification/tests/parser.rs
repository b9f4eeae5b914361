use sh_bot::DurationError;
use sh_bot::Request;
use sh_bot::Tier;
use sh_bot::Timeframe;
use sh_bot::Timespec;
use sh_bot::Want;
use sh_bot::parse_duration;
use sh_bot::parse_message;

fn now() -> Timespec {
    Timespec { sec: 1000, nsec: 0 }
}

fn wants(tiers: &[Tier]) -> Vec<Want> {
    tiers.iter().map(|t| Want { tier: *t }).collect()
}

#[test]
fn duration_hours_and_minutes() {
    assert_eq!(Ok(150), parse_duration("2:30h"));
    assert_eq!(Ok(0), parse_duration("0:00h"));
    assert_eq!(Ok(125), parse_duration("2:5h"));
    assert_eq!(Ok(90), parse_duration("1:30h"));
    assert_eq!(Ok(90), parse_duration("+1:30h"));
    assert_eq!(Ok(125), parse_duration("2:+5h"));
}

#[test]
fn duration_invalid_format() {
    assert_eq!(Err(DurationError::InvalidFormat), parse_duration("2:60h"));
    assert_eq!(Err(DurationError::InvalidFormat), parse_duration("-1:00h"));
    assert_eq!(Err(DurationError::InvalidFormat), parse_duration("2:30"));
    assert_eq!(Err(DurationError::InvalidFormat), parse_duration("230h"));
    assert_eq!(Err(DurationError::InvalidFormat), parse_duration(":30h"));
    assert_eq!(Err(DurationError::InvalidFormat), parse_duration("2:h"));
    assert_eq!(Err(DurationError::InvalidFormat), parse_duration(""));
    assert_eq!(Err(DurationError::InvalidFormat), parse_duration("abc"));
    assert_eq!(Err(DurationError::InvalidFormat), parse_duration("2:30h:x"));
    assert_eq!(Err(DurationError::InvalidFormat), parse_duration("2:3:0h"));
    assert_eq!(Err(DurationError::InvalidFormat), parse_duration("2:30hh"));
}

#[test]
fn duration_overflow() {
    assert_eq!(
        Err(DurationError::Overflow),
        parse_duration("2562047788015:00h")
    );
    assert_eq!(Ok(2562047788014 * 60), parse_duration("2562047788014:00h"));
}

#[test]
fn parse_empty_is_nothing() {
    assert_eq!(Request::Nothing, parse_message("", now()));
    assert_eq!(Request::Nothing, parse_message("  \t ", now()));
}

#[test]
fn parse_simple_keywords() {
    assert_eq!(Request::Help, parse_message("help", now()));
    assert_eq!(Request::Help, parse_message("  HELP  ", now()));
    assert_eq!(Request::Status, parse_message("status", now()));
    assert_eq!(Request::Unknown, parse_message("blah", now()));
    assert_eq!(Request::Unknown, parse_message("helpme", now()));
}

#[test]
fn parse_echo_keeps_rest_verbatim() {
    assert_eq!(
        Request::Echo {
            echo_msg: "hello  world ".to_string()
        },
        parse_message("echo  hello  world ", now())
    );
    assert_eq!(
        Request::Echo {
            echo_msg: String::new()
        },
        parse_message("echo", now())
    );
}

#[test]
fn parse_want_defaults_to_all_tiers_until_logout() {
    assert_eq!(
        Request::Want {
            time: Timeframe::UntilLogout,
            wants: wants(&[Tier::Tier6, Tier::Tier8, Tier::Tier10]),
        },
        parse_message("want", now())
    );
}

#[test]
fn parse_want_with_tiers() {
    assert_eq!(
        Request::Want {
            time: Timeframe::UntilLogout,
            wants: wants(&[Tier::Tier6, Tier::Tier8]),
        },
        parse_message("want 6 8", now())
    );
    assert_eq!(
        Request::Want {
            time: Timeframe::UntilLogout,
            wants: wants(&[Tier::Tier6]),
        },
        parse_message("want 6 6", now())
    );
}

#[test]
fn parse_want_always() {
    assert_eq!(
        Request::Want {
            time: Timeframe::Always,
            wants: wants(&[Tier::Tier6, Tier::Tier8, Tier::Tier10]),
        },
        parse_message("want always", now())
    );
}

#[test]
fn parse_want_until_logout() {
    assert_eq!(
        Request::Want {
            time: Timeframe::UntilLogout,
            wants: wants(&[Tier::Tier10]),
        },
        parse_message("want 10 until logout", now())
    );
    assert_eq!(Request::Unknown, parse_message("want until", now()));
    assert_eq!(Request::Unknown, parse_message("want until never", now()));
}

#[test]
fn parse_want_for_duration() {
    assert_eq!(
        Request::Want {
            time: Timeframe::Timespan {
                until: Timespec {
                    sec: 1000 + 90 * 60,
                    nsec: 0
                }
            },
            wants: wants(&[Tier::Tier10]),
        },
        parse_message("want 10 for 1:30h", now())
    );
    assert_eq!(Request::Unknown, parse_message("want for", now()));
    assert_eq!(Request::Unknown, parse_message("want for 2:60h", now()));
    assert_eq!(Request::Unknown, parse_message("want for 2:30h:x", now()));
    assert_eq!(Request::Unknown, parse_message("want 6 tomorrow", now()));
}

#[test]
fn parse_dont_want_both_spellings() {
    assert_eq!(Request::DontWant, parse_message("dont want", now()));
    assert_eq!(Request::DontWant, parse_message("don't want", now()));
    assert_eq!(Request::DontWant, parse_message("DONT WANT", now()));
    assert_eq!(Request::Unknown, parse_message("dont", now()));
    assert_eq!(Request::Unknown, parse_message("don't", now()));
    assert_eq!(Request::Unknown, parse_message("dont like", now()));
}

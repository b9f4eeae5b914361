use sh_bot::ChannelKind;
use sh_bot::OnlineStatus;
use sh_bot::ShStatus;
use sh_bot::StatusReport;
use sh_bot::Tier;
use sh_bot::Timeframe;
use sh_bot::Timespec;
use sh_bot::UserData;
use sh_bot::Want;
use sh_bot::dont_want;
use sh_bot::echo;
use sh_bot::handle_message;
use sh_bot::help;
use sh_bot::message_concerns_me;
use sh_bot::status;
use sh_bot::unknown_request;
use sh_bot::want;

fn now() -> Timespec {
    Timespec { sec: 1000, nsec: 0 }
}

fn w(t: Tier) -> Want {
    Want { tier: t }
}

#[test]
fn unknown_request_quotes_the_message() {
    assert_eq!(
        "\"frobnicate\" is not a valid request. Type \"help\" to find out what is.",
        unknown_request("frobnicate")
    );
}

#[test]
fn fixed_replies() {
    assert_eq!(
        "This is an unhelpful help text. There'll be a better one, I promise.",
        help()
    );
    assert_eq!("Ok, I'll take you off the list.", dont_want());
    assert_eq!(
        "ada wants me to echo \"hi there\".",
        echo("ada", "hi there")
    );
}

#[test]
fn status_reply_shows_all_counts() {
    let report = StatusReport {
        num_wanting_total: 3,
        num_wanting_t6: 1,
        num_wanting_t8: 2,
        num_wanting_t10: 0,
    };
    assert_eq!(
        "There is currently a total of 3 players who want to play Stronghold.\n\
         1 want tier 6, 2 tier 8 and 0 tier 10.",
        status(&report)
    );
}

#[test]
fn want_reply_single() {
    let ud = UserData {
        status: OnlineStatus::Online,
        time_wants: vec![(Timeframe::Always, vec![w(Tier::Tier6)])],
    };
    assert_eq!(
        "Ok, I'll note you're up for tier 6  Stronghold whenever you're online.",
        want(&ud)
    );
}

#[test]
fn want_reply_two_items_uses_and() {
    let ud = UserData {
        status: OnlineStatus::Online,
        time_wants: vec![(Timeframe::UntilLogout, vec![w(Tier::Tier6), w(Tier::Tier8)])],
    };
    assert_eq!(
        "Ok, I'll note you're up for tier 6  Stronghold until you log out and tier 8 until you log out.",
        want(&ud)
    );
}

#[test]
fn want_reply_three_items_uses_comma_and_and() {
    let ud = UserData {
        status: OnlineStatus::Online,
        time_wants: vec![(
            Timeframe::UntilLogout,
            vec![w(Tier::Tier6), w(Tier::Tier8), w(Tier::Tier10)],
        )],
    };
    assert_eq!(
        "Ok, I'll note you're up for tier 6  Stronghold until you log out, \
         tier 8 until you log out and tier 10 until you log out.",
        want(&ud)
    );
}

#[test]
fn want_reply_formats_timespan_clock() {
    // 25 hours and 5 minutes past the epoch: 01:05 on the following day.
    let ud = UserData {
        status: OnlineStatus::Online,
        time_wants: vec![(
            Timeframe::Timespan {
                until: Timespec {
                    sec: 25 * 3600 + 5 * 60,
                    nsec: 0,
                },
            },
            vec![w(Tier::Tier10)],
        )],
    };
    assert_eq!(
        "Ok, I'll note you're up for tier 10  Stronghold until 01:05 UTC.",
        want(&ud)
    );
}

#[test]
fn addressing_rules() {
    // Own messages are never handled.
    let (handled, body) = message_concerns_me(true, ChannelKind::Public, ".sh help");
    assert!(!handled);
    assert_eq!(".sh help", body);
    // Private messages are handled as they stand.
    let (handled, body) = message_concerns_me(false, ChannelKind::Private, "help");
    assert!(handled);
    assert_eq!("help", body);
    // Public messages need the bot command prefix, which is stripped.
    let (handled, body) = message_concerns_me(false, ChannelKind::Public, ".sh want 6");
    assert!(handled);
    assert_eq!("want 6", body);
    let (handled, body) = message_concerns_me(false, ChannelKind::Public, "want 6");
    assert!(!handled);
    assert_eq!("want 6", body);
}

#[test]
fn handle_message_full_pipeline() {
    let mut st = ShStatus::new();
    assert_eq!(None, handle_message(&mut st, 7, "ada", "", now()));
    assert_eq!(
        Some("Ok, I'll note you're up for tier 6  Stronghold until you log out.".to_string()),
        handle_message(&mut st, 7, "ada", "want 6", now())
    );
    assert_eq!(
        Some(
            "There is currently a total of 1 players who want to play Stronghold.\n\
             1 want tier 6, 0 tier 8 and 0 tier 10."
                .to_string()
        ),
        handle_message(&mut st, 7, "ada", "status", now())
    );
    assert_eq!(
        Some("Ok, I'll take you off the list.".to_string()),
        handle_message(&mut st, 7, "ada", "dont want", now())
    );
    assert_eq!(
        Some(
            "There is currently a total of 0 players who want to play Stronghold.\n\
             0 want tier 6, 0 tier 8 and 0 tier 10."
                .to_string()
        ),
        handle_message(&mut st, 7, "ada", "status", now())
    );
    assert_eq!(
        Some("ada wants me to echo \"one  two\".".to_string()),
        handle_message(&mut st, 7, "ada", "echo one  two", now())
    );
    assert_eq!(
        Some("\"gibberish\" is not a valid request. Type \"help\" to find out what is.".to_string()),
        handle_message(&mut st, 7, "ada", "gibberish", now())
    );
}

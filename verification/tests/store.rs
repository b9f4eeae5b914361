use sh_bot::OnlineStatus;
use sh_bot::ShStatus;
use sh_bot::Tier;
use sh_bot::Timeframe;
use sh_bot::Timespec;
use sh_bot::UserData;
use sh_bot::Want;

fn now() -> Timespec {
    Timespec { sec: 1000, nsec: 0 }
}

fn w(t: Tier) -> Want {
    Want { tier: t }
}

#[test]
fn empty_store_reports_zero() {
    let mut st = ShStatus::new();
    let report = st.get_current_status_at(now());
    assert_eq!(0, report.num_wanting_total);
    assert_eq!(0, report.num_wanting_t6);
    assert_eq!(0, report.num_wanting_t8);
    assert_eq!(0, report.num_wanting_t10);
}

#[test]
fn want_then_status_counts_user() {
    let mut st = ShStatus::new();
    st.set_user_wants_sh(1, Timeframe::UntilLogout, vec![w(Tier::Tier6)]);
    let report = st.get_current_status_at(now());
    assert_eq!(1, report.num_wanting_total);
    assert_eq!(1, report.num_wanting_t6);
    assert_eq!(0, report.num_wanting_t8);
    assert_eq!(0, report.num_wanting_t10);
}

#[test]
fn offline_drops_until_logout_wants_at_once() {
    let mut st = ShStatus::new();
    st.set_user_wants_sh(1, Timeframe::UntilLogout, vec![w(Tier::Tier6)]);
    st.set_user_changed_status(1, OnlineStatus::Offline);
    let report = st.get_current_status_at(now());
    assert_eq!(0, report.num_wanting_total);
    assert_eq!(0, report.num_wanting_t6);
    assert_eq!(0, report.num_wanting_t8);
    assert_eq!(0, report.num_wanting_t10);
}

#[test]
fn offline_keeps_other_timeframes_but_excludes_user() {
    let mut st = ShStatus::new();
    st.set_user_wants_sh(1, Timeframe::Always, vec![w(Tier::Tier8)]);
    st.set_user_changed_status(1, OnlineStatus::Offline);
    // The Always want survives, but an offline user never counts.
    let report = st.get_current_status_at(now());
    assert_eq!(0, report.num_wanting_total);
    assert_eq!(0, report.num_wanting_t8);
    // Coming back online makes it count again.
    st.set_user_changed_status(1, OnlineStatus::Online);
    let report = st.get_current_status_at(now());
    assert_eq!(1, report.num_wanting_total);
    assert_eq!(1, report.num_wanting_t8);
}

#[test]
fn idle_user_is_not_counted() {
    let mut st = ShStatus::new();
    st.set_user_wants_sh(1, Timeframe::Always, vec![w(Tier::Tier6)]);
    st.set_user_changed_status(1, OnlineStatus::Idle);
    let report = st.get_current_status_at(now());
    assert_eq!(0, report.num_wanting_total);
    assert_eq!(0, report.num_wanting_t6);
}

#[test]
fn expired_timespan_wants_are_cleaned_up() {
    let mut st = ShStatus::new();
    st.set_user_wants_sh(
        1,
        Timeframe::Timespan {
            until: Timespec { sec: 500, nsec: 0 },
        },
        vec![w(Tier::Tier6)],
    );
    st.set_user_wants_sh(
        2,
        Timeframe::Timespan {
            until: Timespec { sec: 2000, nsec: 0 },
        },
        vec![w(Tier::Tier8)],
    );
    let report = st.get_current_status_at(now());
    assert_eq!(1, report.num_wanting_total);
    assert_eq!(0, report.num_wanting_t6);
    assert_eq!(1, report.num_wanting_t8);
}

#[test]
fn timespan_expiring_exactly_now_is_dropped() {
    let mut st = ShStatus::new();
    st.set_user_wants_sh(
        1,
        Timeframe::Timespan { until: now() },
        vec![w(Tier::Tier10)],
    );
    let report = st.get_current_status_at(now());
    assert_eq!(0, report.num_wanting_total);
    assert_eq!(0, report.num_wanting_t10);
}

#[test]
fn wants_union_across_calls() {
    let mut st = ShStatus::new();
    st.set_user_wants_sh(1, Timeframe::UntilLogout, vec![w(Tier::Tier6)]);
    let ud = st.set_user_wants_sh(1, Timeframe::UntilLogout, vec![w(Tier::Tier6), w(Tier::Tier8)]);
    assert_eq!(
        vec![(
            Timeframe::UntilLogout,
            vec![w(Tier::Tier6), w(Tier::Tier8)]
        )],
        ud.time_wants
    );
    let report = st.get_current_status_at(now());
    assert_eq!(1, report.num_wanting_total);
    assert_eq!(1, report.num_wanting_t6);
    assert_eq!(1, report.num_wanting_t8);
}

#[test]
fn tier_counted_once_per_user() {
    let mut st = ShStatus::new();
    st.set_user_wants_sh(1, Timeframe::Always, vec![w(Tier::Tier6)]);
    st.set_user_wants_sh(1, Timeframe::UntilLogout, vec![w(Tier::Tier6)]);
    st.set_user_wants_sh(2, Timeframe::Always, vec![w(Tier::Tier6)]);
    let report = st.get_current_status_at(now());
    assert_eq!(2, report.num_wanting_total);
    assert_eq!(2, report.num_wanting_t6);
}

#[test]
fn dont_want_clears_everything_for_the_user() {
    let mut st = ShStatus::new();
    st.set_user_wants_sh(1, Timeframe::Always, vec![w(Tier::Tier6)]);
    st.set_user_wants_sh(1, Timeframe::UntilLogout, vec![w(Tier::Tier8)]);
    st.set_user_doesnt_want_sh(1);
    let report = st.get_current_status_at(now());
    assert_eq!(0, report.num_wanting_total);
    // Clearing an unknown user is a no-op, not an error.
    st.set_user_doesnt_want_sh(42);
}

#[test]
fn from_users_refuses_duplicates() {
    let ud = UserData {
        status: OnlineStatus::Online,
        time_wants: vec![],
    };
    let ud2 = UserData {
        status: OnlineStatus::Idle,
        time_wants: vec![],
    };
    assert!(ShStatus::from_users(vec![(1, ud), (1, ud2)]).is_none());
    let bad = UserData {
        status: OnlineStatus::Online,
        time_wants: vec![
            (Timeframe::Always, vec![]),
            (Timeframe::Always, vec![w(Tier::Tier6)]),
        ],
    };
    assert!(ShStatus::from_users(vec![(1, bad)]).is_none());
    let dup_wants = UserData {
        status: OnlineStatus::Online,
        time_wants: vec![(Timeframe::Always, vec![w(Tier::Tier6), w(Tier::Tier6)])],
    };
    assert!(ShStatus::from_users(vec![(1, dup_wants)]).is_none());
}

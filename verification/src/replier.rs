use vstd::prelude::*;

use crate::model::StatusReport;
use crate::model::Tier;
use crate::model::Timeframe;
use crate::model::UserData;
use crate::model::UserV;
use crate::model::Want;
use crate::numbers::dec_digits;
use crate::numbers::u64_to_string;

verus! {

/// The reply to a request nobody understood.
pub open spec fn spec_unknown_reply(msg: Seq<char>) -> Seq<char> {
    "\""@ + msg + "\" is not a valid request. Type \"help\" to find out what is."@
}

pub fn unknown_request(msg_content: &str) -> (r: String)
    ensures
        r@ == spec_unknown_reply(msg_content@),
{
    let mut s = "\"".to_owned();
    s.append(msg_content);
    s.append("\" is not a valid request. Type \"help\" to find out what is.");
    proof {
        assert(s@ =~= spec_unknown_reply(msg_content@));
    }
    s
}

/// The help text.
pub open spec fn spec_help_reply() -> Seq<char> {
    "This is an unhelpful help text. There'll be a better one, I promise."@
}

pub fn help() -> (r: String)
    ensures
        r@ == spec_help_reply(),
{
    "This is an unhelpful help text. There'll be a better one, I promise.".to_owned()
}

/// The reply to a "dont want" request.
pub open spec fn spec_dont_want_reply() -> Seq<char> {
    "Ok, I'll take you off the list."@
}

pub fn dont_want() -> (r: String)
    ensures
        r@ == spec_dont_want_reply(),
{
    "Ok, I'll take you off the list.".to_owned()
}

/// The reply echoing a message back, naming its author.
pub open spec fn spec_echo_reply(author: Seq<char>, msg: Seq<char>) -> Seq<char> {
    author + " wants me to echo \""@ + msg + "\"."@
}

pub fn echo(author_name: &str, echo_msg: &str) -> (r: String)
    ensures
        r@ == spec_echo_reply(author_name@, echo_msg@),
{
    let mut s = author_name.to_owned();
    s.append(" wants me to echo \"");
    s.append(echo_msg);
    s.append("\".");
    proof {
        assert(s@ =~= spec_echo_reply(author_name@, echo_msg@));
    }
    s
}

/// The status report reply.
pub open spec fn spec_status_reply(r: StatusReport) -> Seq<char> {
    "There is currently a total of "@ + dec_digits(r.num_wanting_total as nat)
        + " players who want to play Stronghold.\n"@ + dec_digits(r.num_wanting_t6 as nat)
        + " want tier 6, "@ + dec_digits(r.num_wanting_t8 as nat) + " tier 8 and "@ + dec_digits(
        r.num_wanting_t10 as nat,
    ) + " tier 10."@
}

pub fn status(status_report: &StatusReport) -> (r: String)
    ensures
        r@ == spec_status_reply(*status_report),
{
    let mut s = "There is currently a total of ".to_owned();
    let total = u64_to_string(status_report.num_wanting_total as u64);
    s.append(total.as_str());
    s.append(" players who want to play Stronghold.\n");
    let t6 = u64_to_string(status_report.num_wanting_t6 as u64);
    s.append(t6.as_str());
    s.append(" want tier 6, ");
    let t8 = u64_to_string(status_report.num_wanting_t8 as u64);
    s.append(t8.as_str());
    s.append(" tier 8 and ");
    let t10 = u64_to_string(status_report.num_wanting_t10 as u64);
    s.append(t10.as_str());
    s.append(" tier 10.");
    proof {
        assert(s@ =~= spec_status_reply(*status_report));
    }
    s
}

/// A number below 100 in two digits.
pub open spec fn spec_pad2(n: nat) -> Seq<char> {
    if n < 10 {
        seq!['0'] + dec_digits(n)
    } else {
        dec_digits(n)
    }
}

fn pad2(n: u64) -> (s: String)
    requires
        n < 100,
    ensures
        s@ == spec_pad2(n as nat),
{
    if n < 10 {
        let mut s = "0".to_owned();
        let d = u64_to_string(n);
        s.append(d.as_str());
        proof {
            reveal_strlit("0");
            assert("0"@ =~= seq!['0']);
            assert(s@ =~= spec_pad2(n as nat));
        }
        s
    } else {
        u64_to_string(n)
    }
}

/// The time of day, in UTC, that a timestamp falls on: hours and minutes,
/// both two digits, separated by a colon.
pub open spec fn spec_hm_utc(sec: int) -> Seq<char> {
    let ds = sec % 86400;
    spec_pad2((ds / 3600) as nat) + seq![':'] + spec_pad2(((ds % 3600) / 60) as nat)
}

fn hm_utc(sec: i64) -> (s: String)
    ensures
        s@ == spec_hm_utc(sec as int),
{
    let ds: u64 = if sec >= 0 {
        (sec as u64) % 86400
    } else {
        let mag: u64 = if sec == -9223372036854775807i64 - 1 {
            9223372036854775808u64
        } else {
            (-sec) as u64
        };
        let m = mag % 86400;
        proof {
            vstd::arithmetic::div_mod::lemma_fundamental_div_mod(mag as int, 86400);
            if m == 0 {
                vstd::arithmetic::div_mod::lemma_fundamental_div_mod_converse(
                    sec as int,
                    86400,
                    -((mag as int) / 86400),
                    0,
                );
            } else {
                vstd::arithmetic::div_mod::lemma_fundamental_div_mod_converse(
                    sec as int,
                    86400,
                    -((mag as int) / 86400) - 1,
                    86400 - m,
                );
            }
        }
        if m == 0 {
            0
        } else {
            86400 - m
        }
    };
    proof {
        if sec >= 0 {
            assert(ds == sec as int % 86400);
        }
        assert(ds == sec as int % 86400);
    }
    let h = ds / 3600;
    let mi = (ds % 3600) / 60;
    let mut s = pad2(h);
    s.append(":");
    let mins = pad2(mi);
    s.append(mins.as_str());
    proof {
        reveal_strlit(":");
        assert(":"@ =~= seq![':']);
        assert(s@ =~= spec_hm_utc(sec as int));
    }
    s
}

/// The phrase naming a tier.
pub open spec fn spec_tier_phrase(t: Tier) -> Seq<char> {
    match t {
        Tier::Tier6 => "tier 6 "@,
        Tier::Tier8 => "tier 8 "@,
        Tier::Tier10 => "tier 10 "@,
    }
}

/// The phrase naming a timeframe.
pub open spec fn spec_tf_phrase(tf: Timeframe) -> Seq<char> {
    match tf {
        Timeframe::Always => "whenever you're online"@,
        Timeframe::UntilLogout => "until you log out"@,
        Timeframe::Timespan { until } => "until "@ + spec_hm_utc(until.sec as int) + " UTC"@,
    }
}

/// The separator after item `i` of `total`: a comma inside the enumeration,
/// "and" before the last item, nothing at the end.
pub open spec fn spec_sep(i: int, total: int) -> Seq<char> {
    if i + 2 < total {
        ", "@
    } else if i + 2 == total {
        " and "@
    } else {
        Seq::empty()
    }
}

/// One (timeframe, want) pair per recorded want, in map order then set
/// order.
pub open spec fn flat_wants(w: Seq<(Timeframe, Seq<Want>)>) -> Seq<(Timeframe, Want)>
    decreases w.len(),
{
    if w.len() == 0 {
        Seq::empty()
    } else {
        Seq::new(w[0].1.len(), |j: int| (w[0].0, w[0].1[j])) + flat_wants(w.drop_first())
    }
}

/// The phrase for one enumerated want: its tier, the one-time subject, its
/// timeframe, and the separator that follows it.
pub open spec fn spec_item_phrase(tf: Timeframe, w: Want, i: int, total: int) -> Seq<char> {
    spec_tier_phrase(w.tier) + (if i == 0 {
        " Stronghold "@
    } else {
        Seq::empty()
    }) + spec_tf_phrase(tf) + spec_sep(i, total)
}

/// The enumeration of a user's wants from item `i` on.
pub open spec fn spec_want_kind(fl: Seq<(Timeframe, Want)>, i: int, total: int) -> Seq<char>
    decreases fl.len() - i
        when 0 <= i
{
    if i >= fl.len() {
        Seq::empty()
    } else {
        spec_item_phrase(fl[i].0, fl[i].1, i, total) + spec_want_kind(fl, i + 1, total)
    }
}

/// The reply confirming a "want" request, enumerating everything the record
/// now holds.
pub open spec fn spec_want_reply(u: UserV) -> Seq<char> {
    let fl = flat_wants(u.wants);
    "Ok, I'll note you're up for "@ + spec_want_kind(fl, 0, fl.len() as int) + "."@
}

#[verifier::rlimit(100)]
fn append_item(kind: &mut String, tf: Timeframe, w: Want, i: usize, total: usize)
    requires
        i < total,
    ensures
        final(kind)@ == old(kind)@ + spec_item_phrase(tf, w, i as int, total as int),
{
    let ghost k0 = kind@;
    match w.tier {
        Tier::Tier6 => kind.append("tier 6 "),
        Tier::Tier8 => kind.append("tier 8 "),
        Tier::Tier10 => kind.append("tier 10 "),
    }
    let ghost k1 = kind@;
    proof {
        assert(k1 == k0 + spec_tier_phrase(w.tier));
    }
    if i == 0 {
        kind.append(" Stronghold ");
    }
    let ghost k2 = kind@;
    proof {
        assert(k2 =~= k1 + (if i == 0 {
            " Stronghold "@
        } else {
            Seq::<char>::empty()
        }));
    }
    match tf {
        Timeframe::Always => kind.append("whenever you're online"),
        Timeframe::UntilLogout => kind.append("until you log out"),
        Timeframe::Timespan { until } => {
            kind.append("until ");
            let hm = hm_utc(until.sec);
            kind.append(hm.as_str());
            kind.append(" UTC");
            proof {
                assert(kind@ =~= k2 + ("until "@ + spec_hm_utc(until.sec as int) + " UTC"@));
            }
        },
    }
    let ghost k3 = kind@;
    proof {
        assert(k3 =~= k2 + spec_tf_phrase(tf));
    }
    if total >= 2 && i < total - 2 {
        kind.append(", ");
    } else if total >= 2 && i == total - 2 {
        kind.append(" and ");
    }
    proof {
        assert(kind@ =~= k3 + spec_sep(i as int, total as int));
        assert(kind@ =~= k0 + spec_item_phrase(tf, w, i as int, total as int));
    }
}

proof fn lemma_flat_push(w: Seq<(Timeframe, Seq<Want>)>, e: (Timeframe, Seq<Want>))
    ensures
        flat_wants(w.push(e)) == flat_wants(w) + Seq::new(e.1.len(), |j: int| (e.0, e.1[j])),
    decreases w.len(),
{
    let p = w.push(e);
    if w.len() == 0 {
        assert(p.drop_first() =~= Seq::<(Timeframe, Seq<Want>)>::empty());
        assert(flat_wants(p.drop_first()) =~= Seq::<(Timeframe, Want)>::empty());
        assert(flat_wants(p) =~= flat_wants(w) + Seq::new(e.1.len(), |j: int| (e.0, e.1[j])));
    } else {
        assert(p.drop_first() =~= w.drop_first().push(e));
        lemma_flat_push(w.drop_first(), e);
        assert(p[0] == w[0]);
        assert(flat_wants(p) =~= flat_wants(w) + Seq::new(e.1.len(), |j: int| (e.0, e.1[j])));
    }
}

#[verifier::loop_isolation(false)]
fn flatten_wants(ud: &UserData) -> (fl: Vec<(Timeframe, Want)>)
    ensures
        fl@ == flat_wants(ud@.wants),
{
    let mut fl: Vec<(Timeframe, Want)> = Vec::new();
    proof {
        assert(ud@.wants.take(0) =~= Seq::<(Timeframe, Seq<Want>)>::empty());
        assert(flat_wants(ud@.wants.take(0)) =~= Seq::<(Timeframe, Want)>::empty());
        assert(fl@ =~= flat_wants(ud@.wants.take(0)));
    }
    let mut a: usize = 0;
    while a < ud.time_wants.len()
        invariant
            0 <= a <= ud.time_wants@.len(),
            fl@ == flat_wants(ud@.wants.take(a as int)),
        decreases ud.time_wants@.len() - a,
    {
        let ghost entry = ud@.wants[a as int];
        let wl = &ud.time_wants[a].1;
        let tf = ud.time_wants[a].0;
        let ghost fl_before = fl@;
        let mut j: usize = 0;
        while j < wl.len()
            invariant
                0 <= j <= wl@.len(),
                a < ud.time_wants@.len(),
                wl@ == ud.time_wants@[a as int].1@,
                tf == ud.time_wants@[a as int].0,
                fl@ == fl_before + Seq::new(j as nat, |k: int| (entry.0, entry.1[k])),
            decreases wl@.len() - j,
        {
            fl.push((tf, wl[j]));
            proof {
                assert(fl@ =~= fl_before + Seq::new(j as nat + 1, |k: int| (entry.0, entry.1[k])));
            }
            j = j + 1;
        }
        proof {
            assert(ud@.wants.take(a as int + 1) =~= ud@.wants.take(a as int).push(entry));
            lemma_flat_push(ud@.wants.take(a as int), entry);
            assert(Seq::new(j as nat, |k: int| (entry.0, entry.1[k])) =~= Seq::new(
                entry.1.len(),
                |k: int| (entry.0, entry.1[k]),
            ));
            assert(fl@ =~= flat_wants(ud@.wants.take(a as int + 1)));
        }
        a = a + 1;
    }
    proof {
        assert(ud@.wants.take(ud@.wants.len() as int) =~= ud@.wants);
    }
    fl
}

/// Builds the reply confirming a "want" request from the user's updated
/// record.
#[verifier::loop_isolation(false)]
pub fn want(ud: &UserData) -> (r: String)
    ensures
        r@ == spec_want_reply(ud@),
{
    let fl = flatten_wants(ud);
    let total = fl.len();
    let ghost flm = fl@;
    let mut kind = String::new();
    let mut i: usize = 0;
    while i < total
        invariant
            0 <= i <= total,
            total == flm.len(),
            fl@ == flm,
            spec_want_kind(flm, 0, total as int) =~= kind@ + spec_want_kind(
                flm,
                i as int,
                total as int,
            ),
        decreases total - i,
    {
        let ghost kind_before = kind@;
        let tf = fl[i].0;
        let w = fl[i].1;
        append_item(&mut kind, tf, w, i, total);
        proof {
            let phrase = spec_item_phrase(tf, w, i as int, total as int);
            let rest = spec_want_kind(flm, i as int + 1, total as int);
            assert(spec_want_kind(flm, i as int, total as int) == phrase + rest);
            assert(kind_before + (phrase + rest) =~= (kind_before + phrase) + rest);
            assert(spec_want_kind(flm, 0, total as int) =~= kind@ + rest);
        }
        i = i + 1;
    }
    let mut s = "Ok, I'll note you're up for ".to_owned();
    s.append(kind.as_str());
    s.append(".");
    proof {
        assert(spec_want_kind(flm, total as int, total as int) =~= Seq::<char>::empty());
        assert(kind@ =~= spec_want_kind(flm, 0, total as int));
        assert(s@ =~= spec_want_reply(ud@));
    }
    s
}

} // verus!

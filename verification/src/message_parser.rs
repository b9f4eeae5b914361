use vstd::prelude::*;

use crate::common::SplitWhitespaceWithRest;
use crate::common::at_token_start;
use crate::common::find_char;
use crate::common::find_char_exec;
use crate::common::str_eq_exact;
use crate::common::find_non_space;
use crate::common::lemma_new_token_start;
use crate::common::lemma_rewind_reproduces_token;
use crate::common::lemma_tok_next_token_start;
use crate::common::tok_at;
use crate::common::tok_next;
use crate::model::Request;
use crate::model::RequestV;
use crate::model::Tier;
use crate::model::Timeframe;
use crate::model::Timespec;
use crate::model::Want;
use crate::numbers::spec_parse_i64;
use crate::numbers::parse_i64_str;

verus! {

/// Why a duration literal was rejected.
#[derive(Clone, Copy, PartialEq, Eq, Structural, Debug)]
pub enum DurationError {
    InvalidFormat,
    Overflow,
}

/// `c` equals the (lower-case ASCII) keyword character `k`, ignoring ASCII
/// case.
pub open spec fn char_lower_matches(c: char, k: char) -> bool {
    c == k || (0x41 <= c as u32 <= 0x5A && c as u32 + 0x20 == k as u32)
}

/// `t` equals the keyword `k` after lower-casing, where `k` is written in
/// lower case.
pub open spec fn kw_match(t: Seq<char>, k: Seq<char>) -> bool {
    t.len() == k.len() && forall|i: int| 0 <= i < t.len() ==> char_lower_matches(t[i], #[trigger] k[i])
}

fn token_matches_kw(t: &str, k: &str) -> (r: bool)
    ensures
        r == kw_match(t@, k@),
{
    let lt = t.unicode_len();
    let lk = k.unicode_len();
    if lt != lk {
        return false;
    }
    let mut i: usize = 0;
    while i < lt
        invariant
            0 <= i <= lt,
            lt == t@.len(),
            lt == k@.len(),
            forall|j: int| 0 <= j < i ==> char_lower_matches(t@[j], #[trigger] k@[j]),
        decreases lt - i,
    {
        let c = t.get_char(i) as u32;
        let kc = k.get_char(i) as u32;
        if !(c == kc || (0x41 <= c && c <= 0x5A && c + 0x20 == kc)) {
            return false;
        }
        i = i + 1;
    }
    true
}

/// The most seconds that a successfully parsed duration can add to "now".
pub open spec fn max_timespan_add() -> int {
    ((0x7fff_ffff_ffff_ffff as int) / 3600000 - 1) * 3600 + 59 * 60
}

/// "now" is small enough that "now + duration" cannot overflow for any
/// duration the parser accepts.
pub open spec fn now_fits(now: Timespec) -> bool {
    now.sec + max_timespan_add() <= i64::MAX
}

pub fn check_now_fits(now: Timespec) -> (r: bool)
    ensures
        r == now_fits(now),
{
    now.sec <= i64::MAX - (((i64::MAX / 3600000) - 1) * 3600 + 59 * 60)
}

/// What parsing the duration literal `"<hours>:<minutes>h"` yields: the total
/// number of minutes, or the reason the literal is rejected. The minutes
/// segment runs from the first colon to the end of the string, so the
/// literal must end with the character `h`.
pub open spec fn spec_parse_duration(s: Seq<char>) -> Result<i64, DurationError> {
    let k1 = find_char(s, ':', 0);
    match spec_parse_i64(s.subrange(0, k1)) {
        Option::None => Err(DurationError::InvalidFormat),
        Option::Some(hours) => if k1 == s.len() {
            Err(DurationError::InvalidFormat)
        } else {
            let mins_str = s.subrange(k1 + 1, s.len() as int);
            if mins_str.len() == 0 {
                Err(DurationError::InvalidFormat)
            } else if mins_str.last() != 'h' {
                Err(DurationError::InvalidFormat)
            } else {
                match spec_parse_i64(mins_str.drop_last()) {
                    Option::None => Err(DurationError::InvalidFormat),
                    Option::Some(mins) => if hours < 0 || mins < 0 {
                        Err(DurationError::InvalidFormat)
                    } else if mins > 59 {
                        Err(DurationError::InvalidFormat)
                    } else if hours + 1 > (0x7fff_ffff_ffff_ffff as int) / 3600000 {
                        Err(DurationError::Overflow)
                    } else {
                        Ok((hours * 60 + mins) as i64)
                    },
                }
            }
        },
    }
}

/// Parses the duration literal format `"<hours>:<minutes>h"` into a number of
/// minutes.
pub fn parse_duration(hours_mins_str: &str) -> (r: Result<i64, DurationError>)
    ensures
        r == spec_parse_duration(hours_mins_str@),
{
    broadcast use crate::common::lemma_find_char;

    let s = hours_mins_str;
    let len = s.unicode_len();
    let k1 = find_char_exec(s, ':', 0);
    let hours_str = s.substring_char(0, k1);
    let hours = match parse_i64_str(hours_str) {
        Option::Some(h) => h,
        Option::None => {
            return Err(DurationError::InvalidFormat);
        },
    };
    if k1 == len {
        return Err(DurationError::InvalidFormat);
    }
    proof {
        assert(s@.subrange(k1 + 1, len as int).len() == len - k1 - 1);
    }
    if len == k1 + 1 {
        return Err(DurationError::InvalidFormat);
    }
    if s.get_char(len - 1) != 'h' {
        proof {
            assert(s@.subrange(k1 + 1, len as int).last() == s@[len - 1]);
        }
        return Err(DurationError::InvalidFormat);
    }
    proof {
        assert(s@.subrange(k1 + 1, len as int).last() == s@[len - 1]);
    }
    let mins_digits = s.substring_char(k1 + 1, len - 1);
    proof {
        assert(mins_digits@ =~= s@.subrange(k1 + 1, len as int).drop_last());
    }
    let mins = match parse_i64_str(mins_digits) {
        Option::Some(m) => m,
        Option::None => {
            return Err(DurationError::InvalidFormat);
        },
    };
    if hours < 0 || mins < 0 {
        return Err(DurationError::InvalidFormat);
    }
    if mins > 59 {
        return Err(DurationError::InvalidFormat);
    }
    if hours > i64::MAX / 3600000 - 1 {
        return Err(DurationError::Overflow);
    }
    Ok(hours * 60 + mins)
}

/// A duration the parser accepted is non-negative and bounded, so adding it
/// to a fitting "now" stays in range.
pub proof fn lemma_duration_ok_bounds(s: Seq<char>, v: i64)
    requires
        spec_parse_duration(s) matches Ok(m) && m == v,
    ensures
        0 <= v,
        v * 60 <= max_timespan_add(),
{
}

/// The canonical want list for a set of tier flags, in tier order.
pub open spec fn tier_seq(t6: bool, t8: bool, t10: bool) -> Seq<Want> {
    (if t6 {
        seq![Want { tier: Tier::Tier6 }]
    } else {
        Seq::<Want>::empty()
    }) + (if t8 {
        seq![Want { tier: Tier::Tier8 }]
    } else {
        Seq::<Want>::empty()
    }) + (if t10 {
        seq![Want { tier: Tier::Tier10 }]
    } else {
        Seq::<Want>::empty()
    })
}

/// The want list the grammar produces: the flagged tiers, or all three when
/// none was given.
pub open spec fn chosen_tiers(t6: bool, t8: bool, t10: bool) -> Seq<Want> {
    if !t6 && !t8 && !t10 {
        tier_seq(true, true, true)
    } else {
        tier_seq(t6, t8, t10)
    }
}

fn build_wants(t6: bool, t8: bool, t10: bool) -> (w: Vec<Want>)
    ensures
        w@ == chosen_tiers(t6, t8, t10),
{
    let all = !t6 && !t8 && !t10;
    let a = t6 || all;
    let b = t8 || all;
    let c = t10 || all;
    let mut w: Vec<Want> = Vec::new();
    if a {
        w.push(Want { tier: Tier::Tier6 });
    }
    if b {
        w.push(Want { tier: Tier::Tier8 });
    }
    if c {
        w.push(Want { tier: Tier::Tier10 });
    }
    proof {
        assert(w@ =~= chosen_tiers(t6, t8, t10));
    }
    w
}

/// The timeframe clause of a "want" request, read from position `i`.
pub open spec fn spec_parse_timeframe(
    s: Seq<char>,
    i: int,
    wants: Seq<Want>,
    now: Timespec,
) -> RequestV {
    if i >= s.len() {
        RequestV::Want { time: Timeframe::UntilLogout, wants }
    } else {
        let t = tok_at(s, i);
        let j = tok_next(s, i);
        if kw_match(t, "always"@) {
            RequestV::Want { time: Timeframe::Always, wants }
        } else if kw_match(t, "until"@) {
            if j < s.len() && kw_match(tok_at(s, j), "logout"@) {
                RequestV::Want { time: Timeframe::UntilLogout, wants }
            } else {
                RequestV::Unknown
            }
        } else if kw_match(t, "for"@) {
            if j >= s.len() {
                RequestV::Unknown
            } else {
                match spec_parse_duration(tok_at(s, j)) {
                    Ok(mins) => RequestV::Want {
                        time: Timeframe::Timespan {
                            until: Timespec {
                                sec: (now.sec + mins * 60) as i64,
                                nsec: now.nsec,
                            },
                        },
                        wants,
                    },
                    Err(_) => RequestV::Unknown,
                }
            }
        } else {
            RequestV::Unknown
        }
    }
}

/// The tier tokens of a "want" request, read from position `i` with the tier
/// flags collected so far, followed by the timeframe clause.
pub open spec fn spec_parse_tiers(
    s: Seq<char>,
    i: int,
    t6: bool,
    t8: bool,
    t10: bool,
    now: Timespec,
) -> RequestV
    decreases s.len() - i
        when 0 <= i <= s.len()
        via spec_parse_tiers_decreases
{
    if i >= s.len() {
        RequestV::Want { time: Timeframe::UntilLogout, wants: chosen_tiers(t6, t8, t10) }
    } else {
        let t = tok_at(s, i);
        if t == "6"@ {
            spec_parse_tiers(s, tok_next(s, i), true, t8, t10, now)
        } else if t == "8"@ {
            spec_parse_tiers(s, tok_next(s, i), t6, true, t10, now)
        } else if t == "10"@ {
            spec_parse_tiers(s, tok_next(s, i), t6, t8, true, now)
        } else {
            spec_parse_timeframe(s, i, chosen_tiers(t6, t8, t10), now)
        }
    }
}

#[via_fn]
proof fn spec_parse_tiers_decreases(
    s: Seq<char>,
    i: int,
    t6: bool,
    t8: bool,
    t10: bool,
    now: Timespec,
) {
    broadcast use crate::common::lemma_find_space, crate::common::lemma_find_non_space;

}

/// The request denoted by a message body, read with the given "now".
pub open spec fn spec_parse(s: Seq<char>, now: Timespec) -> RequestV {
    let i0 = find_non_space(s, 0);
    if i0 >= s.len() {
        RequestV::Nothing
    } else {
        let t = tok_at(s, i0);
        let i1 = tok_next(s, i0);
        if kw_match(t, "echo"@) {
            RequestV::Echo {
                msg: if i1 < s.len() {
                    s.subrange(i1, s.len() as int)
                } else {
                    Seq::empty()
                },
            }
        } else if kw_match(t, "help"@) {
            RequestV::Help
        } else if kw_match(t, "want"@) {
            spec_parse_tiers(s, i1, false, false, false, now)
        } else if kw_match(t, "status"@) {
            RequestV::Status
        } else if kw_match(t, "dont"@) || kw_match(t, "don't"@) {
            if i1 >= s.len() {
                RequestV::Unknown
            } else if kw_match(tok_at(s, i1), "want"@) {
                RequestV::DontWant
            } else {
                RequestV::Unknown
            }
        } else {
            RequestV::Unknown
        }
    }
}

fn parse_echo(tokens: SplitWhitespaceWithRest<'_>) -> (r: Request)
    requires
        tokens.wf(),
    ensures
        r@ == (RequestV::Echo {
            msg: if tokens.pos() < tokens.text().len() {
                tokens.text().subrange(tokens.pos(), tokens.text().len() as int)
            } else {
                Seq::empty()
            },
        }),
{
    let echo_msg = match tokens.rest() {
        Option::Some(rest) => rest.to_owned(),
        Option::None => String::new(),
    };
    Request::Echo { echo_msg }
}

fn parse_want_timeframe(
    tokens: SplitWhitespaceWithRest<'_>,
    t6: bool,
    t8: bool,
    t10: bool,
    now: Timespec,
) -> (r: Request)
    requires
        tokens.wf(),
        now_fits(now),
    ensures
        r@ == spec_parse_timeframe(
            tokens.text(),
            tokens.pos(),
            chosen_tiers(t6, t8, t10),
            now,
        ),
{
    let mut tokens = tokens;
    let ghost s = tokens.text();
    let ghost i = tokens.pos();
    match tokens.next() {
        Option::None => Request::Want {
            time: Timeframe::UntilLogout,
            wants: build_wants(t6, t8, t10),
        },
        Option::Some(tok) => {
            if token_matches_kw(tok, "always") {
                Request::Want { time: Timeframe::Always, wants: build_wants(t6, t8, t10) }
            } else if token_matches_kw(tok, "until") {
                match tokens.next() {
                    Option::Some(tok2) => {
                        if token_matches_kw(tok2, "logout") {
                            Request::Want {
                                time: Timeframe::UntilLogout,
                                wants: build_wants(t6, t8, t10),
                            }
                        } else {
                            Request::Unknown
                        }
                    },
                    Option::None => Request::Unknown,
                }
            } else if token_matches_kw(tok, "for") {
                match tokens.next() {
                    Option::None => Request::Unknown,
                    Option::Some(time_str) => {
                        match parse_duration(time_str) {
                            Ok(mins) => {
                                proof {
                                    lemma_duration_ok_bounds(time_str@, mins);
                                }
                                Request::Want {
                                    time: Timeframe::Timespan {
                                        until: Timespec { sec: now.sec + mins * 60, nsec: now.nsec },
                                    },
                                    wants: build_wants(t6, t8, t10),
                                }
                            },
                            Err(_) => Request::Unknown,
                        }
                    },
                }
            } else {
                Request::Unknown
            }
        },
    }
}

#[verifier::loop_isolation(false)]
fn parse_want(tokens: SplitWhitespaceWithRest<'_>, now: Timespec) -> (r: Request)
    requires
        tokens.wf(),
        now_fits(now),
        at_token_start(tokens.text(), tokens.pos()),
    ensures
        r@ == spec_parse_tiers(tokens.text(), tokens.pos(), false, false, false, now),
{
    let mut tokens = tokens;
    let mut t6 = false;
    let mut t8 = false;
    let mut t10 = false;
    let ghost s = tokens.text();
    let ghost i0 = tokens.pos();
    loop
        invariant
            tokens.wf(),
            tokens.text() == s,
            at_token_start(s, tokens.pos()),
            now_fits(now),
            spec_parse_tiers(s, i0, false, false, false, now) == spec_parse_tiers(
                s,
                tokens.pos(),
                t6,
                t8,
                t10,
                now,
            ),
        decreases s.len() - tokens.pos(),
    {
        let ghost i = tokens.pos();
        match tokens.next() {
            Option::None => {
                return Request::Want {
                    time: Timeframe::UntilLogout,
                    wants: build_wants(t6, t8, t10),
                };
            },
            Option::Some(tok) => {
                proof {
                    lemma_tok_next_token_start(s, i);
                }
                if str_eq_exact(tok, "6") {
                    t6 = true;
                } else if str_eq_exact(tok, "8") {
                    t8 = true;
                } else if str_eq_exact(tok, "10") {
                    t10 = true;
                } else {
                    tokens.rewind();
                    proof {
                        lemma_rewind_reproduces_token(s, i);
                    }
                    return parse_want_timeframe(tokens, t6, t8, t10, now);
                }
            },
        }
    }
}

/// Reads one request from a message body. `now` is the current time, used to
/// resolve `for <duration>` timeframes into absolute timestamps.
pub fn parse_message(content: &str, now: Timespec) -> (r: Request)
    requires
        now_fits(now),
    ensures
        r@ == spec_parse(content@, now),
{
    proof {
        lemma_new_token_start(content@);
    }
    let mut tokens = SplitWhitespaceWithRest::new(content);
    let ghost s = content@;
    let ghost i0 = tokens.pos();
    match tokens.next() {
        Option::None => Request::Nothing,
        Option::Some(token) => {
            proof {
                lemma_tok_next_token_start(s, i0);
            }
            if token_matches_kw(token, "echo") {
                parse_echo(tokens)
            } else if token_matches_kw(token, "help") {
                Request::Help
            } else if token_matches_kw(token, "want") {
                parse_want(tokens, now)
            } else if token_matches_kw(token, "status") {
                Request::Status
            } else if token_matches_kw(token, "dont") || token_matches_kw(token, "don't") {
                match tokens.next() {
                    Option::None => Request::Unknown,
                    Option::Some(t2) => {
                        if token_matches_kw(t2, "want") {
                            Request::DontWant
                        } else {
                            Request::Unknown
                        }
                    },
                }
            } else {
                Request::Unknown
            }
        },
    }
}


/// Both spellings of the negation are accepted and behave identically: when
/// the first token is "dont" or "don't" (either case), the request is
/// `DontWant` exactly when a token follows and it reads "want", and
/// `Unknown` otherwise — in particular, "dont" alone is `Unknown`.
pub proof fn lemma_dont_spellings(s: Seq<char>, now: Timespec)
    requires
        ({
            let i0 = find_non_space(s, 0);
            &&& i0 < s.len()
            &&& kw_match(tok_at(s, i0), "dont"@) || kw_match(tok_at(s, i0), "don't"@)
        }),
    ensures
        ({
            let i0 = find_non_space(s, 0);
            let i1 = tok_next(s, i0);
            spec_parse(s, now) == if i1 < s.len() && kw_match(tok_at(s, i1), "want"@) {
                RequestV::DontWant
            } else {
                RequestV::Unknown
            }
        }),
{
    reveal_strlit("dont");
    reveal_strlit("don't");
    reveal_strlit("echo");
    reveal_strlit("help");
    reveal_strlit("want");
    reveal_strlit("status");
    let i0 = find_non_space(s, 0);
    let t = tok_at(s, i0);
    assert(!kw_match(t, "echo"@)) by {
        if kw_match(t, "echo"@) {
            assert(char_lower_matches(t[0], "echo"@[0]));
            if kw_match(t, "dont"@) {
                assert(char_lower_matches(t[0], "dont"@[0]));
            } else {
                assert(char_lower_matches(t[0], "don't"@[0]));
            }
        }
    }
    assert(!kw_match(t, "help"@)) by {
        if kw_match(t, "help"@) {
            assert(char_lower_matches(t[0], "help"@[0]));
            if kw_match(t, "dont"@) {
                assert(char_lower_matches(t[0], "dont"@[0]));
            } else {
                assert(char_lower_matches(t[0], "don't"@[0]));
            }
        }
    }
    assert(!kw_match(t, "want"@)) by {
        if kw_match(t, "want"@) {
            assert(char_lower_matches(t[0], "want"@[0]));
            if kw_match(t, "dont"@) {
                assert(char_lower_matches(t[0], "dont"@[0]));
            } else {
                assert(char_lower_matches(t[0], "don't"@[0]));
            }
        }
    }
    assert(!kw_match(t, "status"@)) by {
        if kw_match(t, "status"@) {
            if kw_match(t, "dont"@) {
                assert(t.len() == 4);
            } else {
                assert(t.len() == 5);
            }
        }
    }
}

} // verus!

use vstd::prelude::*;

use crate::common::find_char;
use crate::common::find_char_exec;
use crate::common::str_eq_exact;
use crate::model::OnlineStatus;
use crate::model::Tier;
use crate::model::Timeframe;
use crate::model::Timespec;
use crate::model::UserData;
use crate::model::UserV;
use crate::model::Want;
use crate::model::find_timeframe;
use crate::sh_status::find_timeframe_exec;
use crate::sh_status::find_user;
use crate::sh_status::find_user_exec;
use crate::sh_status::lemma_find_user;
use crate::sh_status::users_distinct;
use crate::sh_status::wants_contains;
use crate::model::lemma_find_timeframe;
use crate::model::timeframes_distinct;
use crate::model::wants_distinct;
use crate::numbers::dec_digits;
use crate::numbers::lemma_dec_digits_val;
use crate::numbers::lemma_parse_u64_round_trip;
use crate::numbers::is_digit_char;
use crate::numbers::all_digits;
use crate::numbers::i64_to_string;
use crate::numbers::lemma_parse_i32_round_trip;
use crate::numbers::lemma_parse_i64_round_trip;
use crate::numbers::parse_i32_str;
use crate::numbers::parse_i64_str;
use crate::numbers::parse_u64_str;
use crate::numbers::spec_parse_u64;
use crate::numbers::signed_dec_digits;
use crate::numbers::spec_parse_i32;
use crate::numbers::spec_parse_i64;

verus! {

/// The version tag written at the head of every encoded snapshot.
pub const SERIALIZATION_VERSION: u64 = 1;

/// A format-independent encoded value: the logical schema the store
/// serializes into and decodes from. An outer layer turns this tree into a
/// concrete wire format.
#[derive(PartialEq, Eq, Debug)]
pub enum Value {
    U64(u64),
    Str(String),
    List(Vec<Value>),
    Obj(Vec<(String, Value)>),
}

/// Why a snapshot failed to decode.
#[derive(Clone, Copy, PartialEq, Eq, Structural, Debug)]
pub enum DecodeError {
    InvalidVersion { found: u64 },
    Malformed,
}

/// The human-readable text of a decode failure.
pub open spec fn spec_decode_error_message(e: DecodeError) -> Seq<char> {
    match e {
        DecodeError::InvalidVersion { found } => "Invalid serialization version "@ + dec_digits(
            found as nat,
        ) + "."@,
        DecodeError::Malformed => "The encoded value does not follow the schema."@,
    }
}

impl DecodeError {
    /// Renders the failure as a human-readable message.
    pub fn message(&self) -> (m: String)
        ensures
            m@ == spec_decode_error_message(*self),
    {
        match self {
            DecodeError::InvalidVersion { found } => {
                let mut s = "Invalid serialization version ".to_owned();
                let v = crate::numbers::u64_to_string(*found);
                s.append(v.as_str());
                s.append(".");
                proof {
                    assert(s@ =~= spec_decode_error_message(*self));
                }
                s
            },
            DecodeError::Malformed => "The encoded value does not follow the schema.".to_owned(),
        }
    }
}

/// The integer a tier serializes as.
pub open spec fn tier_num(t: Tier) -> u64 {
    match t {
        Tier::Tier6 => 6,
        Tier::Tier8 => 8,
        Tier::Tier10 => 10,
    }
}

/// The string an online status serializes as.
pub open spec fn spec_status_str(s: OnlineStatus) -> Seq<char> {
    match s {
        OnlineStatus::Offline => "Offline"@,
        OnlineStatus::Online => "Online"@,
        OnlineStatus::Idle => "Idle"@,
    }
}

/// The discriminated string a timeframe serializes as: its kind, and for a
/// timespan the seconds and nanoseconds, separated by colons.
pub open spec fn spec_timeframe_str(tf: Timeframe) -> Seq<char> {
    match tf {
        Timeframe::Always => "Always"@,
        Timeframe::UntilLogout => "UntilLogout"@,
        Timeframe::Timespan { until } => "Timespan:"@ + signed_dec_digits(until.sec as int)
            + ":"@ + signed_dec_digits(until.nsec as int),
    }
}

/// `v` is the encoding of the want `w`.
pub open spec fn is_enc_want(v: Value, w: Want) -> bool {
    v matches Value::U64(n) && n == tier_num(w.tier)
}

/// `v` is the encoding of the want list `ws`.
pub open spec fn is_enc_wants(v: Value, ws: Seq<Want>) -> bool {
    &&& v matches Value::List(items)
    &&& v matches Value::List(items) ==> items@.len() == ws.len() && forall|i: int|
        0 <= i < ws.len() ==> is_enc_want(#[trigger] items@[i], ws[i])
}

/// `v` is the encoding of the user record `u`.
pub open spec fn is_enc_user(v: Value, u: UserV) -> bool {
    &&& v matches Value::List(items)
    &&& v matches Value::List(items) ==> {
        &&& items@.len() == 2
        &&& items@[0] matches Value::Str(st) && st@ == spec_status_str(u.status)
        &&& items@[1] matches Value::Obj(entries) && entries@.len() == u.wants.len()
            && forall|i: int|
            0 <= i < u.wants.len() ==> (#[trigger] entries@[i]).0@ == spec_timeframe_str(
                u.wants[i].0,
            ) && is_enc_wants(entries@[i].1, u.wants[i].1)
    }
}

/// `v` is the encoding of the whole store: the version tag, then one entry
/// per user keyed by its decimal id.
pub open spec fn is_enc_sh(v: Value, users: Seq<(u64, UserV)>) -> bool {
    &&& v matches Value::List(items)
    &&& v matches Value::List(items) ==> {
        &&& items@.len() == 2
        &&& items@[0] matches Value::U64(ver) && ver == SERIALIZATION_VERSION
        &&& items@[1] matches Value::Obj(entries) && entries@.len() == users.len()
            && forall|i: int|
            0 <= i < users.len() ==> (#[trigger] entries@[i]).0@ == dec_digits(
                users[i].0 as nat,
            ) && is_enc_user(entries@[i].1, users[i].1)
    }
}

/// What decoding a tier integer yields.
pub open spec fn spec_decode_tier(n: u64) -> Result<Tier, DecodeError> {
    if n == 6 {
        Ok(Tier::Tier6)
    } else if n == 8 {
        Ok(Tier::Tier8)
    } else if n == 10 {
        Ok(Tier::Tier10)
    } else {
        Err(DecodeError::Malformed)
    }
}

/// What decoding one want yields.
pub open spec fn spec_decode_want(v: Value) -> Result<Want, DecodeError> {
    match v {
        Value::U64(n) => match spec_decode_tier(n) {
            Ok(t) => Ok(Want { tier: t }),
            Err(e) => Err(e),
        },
        _ => Err(DecodeError::Malformed),
    }
}

/// What decoding a want list yields: the wants in order, duplicates folded
/// away.
pub open spec fn spec_decode_want_list(items: Seq<Value>) -> Result<Seq<Want>, DecodeError>
    decreases items.len(),
{
    if items.len() == 0 {
        Ok(Seq::empty())
    } else {
        match spec_decode_want_list(items.drop_last()) {
            Err(e) => Err(e),
            Ok(ws) => match spec_decode_want(items.last()) {
                Err(e) => Err(e),
                Ok(w) => Ok(
                    if ws.contains(w) {
                        ws
                    } else {
                        ws.push(w)
                    },
                ),
            },
        }
    }
}

/// What decoding a status string yields.
pub open spec fn spec_decode_status(s: Seq<char>) -> Result<OnlineStatus, DecodeError> {
    if s == "Offline"@ {
        Ok(OnlineStatus::Offline)
    } else if s == "Online"@ {
        Ok(OnlineStatus::Online)
    } else if s == "Idle"@ {
        Ok(OnlineStatus::Idle)
    } else {
        Err(DecodeError::Malformed)
    }
}

/// What decoding a timeframe string yields. Only the discriminating first
/// segment is inspected for the plain kinds; a timespan requires a seconds
/// and a nanoseconds segment.
pub open spec fn spec_decode_timeframe(s: Seq<char>) -> Result<Timeframe, DecodeError> {
    let k1 = find_char(s, ':', 0);
    let seg = s.subrange(0, k1);
    if seg == "Timespan"@ {
        if k1 == s.len() {
            Err(DecodeError::Malformed)
        } else {
            let k2 = find_char(s, ':', k1 + 1);
            if k2 == s.len() {
                Err(DecodeError::Malformed)
            } else {
                match spec_parse_i64(s.subrange(k1 + 1, k2)) {
                    Option::None => Err(DecodeError::Malformed),
                    Option::Some(sec) => match spec_parse_i32(s.subrange(k2 + 1, s.len() as int)) {
                        Option::None => Err(DecodeError::Malformed),
                        Option::Some(nsec) => Ok(
                            Timeframe::Timespan { until: Timespec { sec, nsec } },
                        ),
                    },
                }
            }
        }
    } else if seg == "Always"@ {
        Ok(Timeframe::Always)
    } else if seg == "UntilLogout"@ {
        Ok(Timeframe::UntilLogout)
    } else {
        Err(DecodeError::Malformed)
    }
}

/// What decoding a wants map yields: entries in order, a repeated timeframe
/// key keeping only its last entry.
pub open spec fn spec_decode_tw_list(entries: Seq<(String, Value)>) -> Result<
    Seq<(Timeframe, Seq<Want>)>,
    DecodeError,
>
    decreases entries.len(),
{
    if entries.len() == 0 {
        Ok(Seq::empty())
    } else {
        match spec_decode_tw_list(entries.drop_last()) {
            Err(e) => Err(e),
            Ok(acc) => match spec_decode_timeframe(entries.last().0@) {
                Err(e) => Err(e),
                Ok(tf) => match entries.last().1 {
                    Value::List(items) => match spec_decode_want_list(items@) {
                        Err(e) => Err(e),
                        Ok(ws) => {
                            let j = find_timeframe(acc, tf);
                            Ok(
                                if j == -1 {
                                    acc.push((tf, ws))
                                } else {
                                    acc.update(j, (tf, ws))
                                },
                            )
                        },
                    },
                    _ => Err(DecodeError::Malformed),
                },
            },
        }
    }
}

/// What decoding one user record yields.
pub open spec fn spec_decode_user(v: Value) -> Result<UserV, DecodeError> {
    match v {
        Value::List(items) => if items@.len() != 2 {
            Err(DecodeError::Malformed)
        } else {
            match items@[0] {
                Value::Str(st) => match spec_decode_status(st@) {
                    Err(e) => Err(e),
                    Ok(status) => match items@[1] {
                        Value::Obj(entries) => match spec_decode_tw_list(entries@) {
                            Err(e) => Err(e),
                            Ok(wants) => Ok(UserV { status, wants }),
                        },
                        _ => Err(DecodeError::Malformed),
                    },
                },
                _ => Err(DecodeError::Malformed),
            }
        },
        _ => Err(DecodeError::Malformed),
    }
}

impl Tier {
    /// Serializes the tier as its number.
    pub fn encode(&self) -> (v: Value)
        ensures
            v matches Value::U64(n) && n == tier_num(*self),
    {
        match self {
            Tier::Tier6 => Value::U64(6),
            Tier::Tier8 => Value::U64(8),
            Tier::Tier10 => Value::U64(10),
        }
    }

    /// Reads a tier back from its number.
    pub fn decode(n: u64) -> (r: Result<Tier, DecodeError>)
        ensures
            r == spec_decode_tier(n),
    {
        if n == 6 {
            Ok(Tier::Tier6)
        } else if n == 8 {
            Ok(Tier::Tier8)
        } else if n == 10 {
            Ok(Tier::Tier10)
        } else {
            Err(DecodeError::Malformed)
        }
    }
}

impl Want {
    /// Serializes the want as its tier's number.
    pub fn encode(&self) -> (v: Value)
        ensures
            is_enc_want(v, *self),
    {
        self.tier.encode()
    }

    /// Reads a want back.
    pub fn decode(v: &Value) -> (r: Result<Want, DecodeError>)
        ensures
            r == spec_decode_want(*v),
    {
        match v {
            Value::U64(n) => match Tier::decode(*n) {
                Ok(t) => Ok(Want { tier: t }),
                Err(e) => Err(e),
            },
            _ => Err(DecodeError::Malformed),
        }
    }
}

impl Timeframe {
    /// Serializes the timeframe as its discriminated string.
    pub fn encode(&self) -> (s: String)
        ensures
            s@ == spec_timeframe_str(*self),
    {
        match self {
            Timeframe::Always => "Always".to_owned(),
            Timeframe::UntilLogout => "UntilLogout".to_owned(),
            Timeframe::Timespan { until } => {
                let mut s = "Timespan:".to_owned();
                let secs = i64_to_string(until.sec);
                s.append(secs.as_str());
                s.append(":");
                let nsecs = i64_to_string(until.nsec as i64);
                s.append(nsecs.as_str());
                proof {
                    reveal_strlit(":");
                    assert(":"@ =~= seq![':']);
                    assert(s@ =~= spec_timeframe_str(*self));
                }
                s
            },
        }
    }

    /// Reads a timeframe back from its discriminated string.
    pub fn decode(s: &str) -> (r: Result<Timeframe, DecodeError>)
        ensures
            r == spec_decode_timeframe(s@),
    {
        broadcast use crate::common::lemma_find_char;

        let len = s.unicode_len();
        let k1 = find_char_exec(s, ':', 0);
        let seg = s.substring_char(0, k1);
        if str_eq_exact(seg, "Timespan") {
            if k1 == len {
                return Err(DecodeError::Malformed);
            }
            let k2 = find_char_exec(s, ':', k1 + 1);
            if k2 == len {
                return Err(DecodeError::Malformed);
            }
            let sec = match parse_i64_str(s.substring_char(k1 + 1, k2)) {
                Option::Some(sec) => sec,
                Option::None => {
                    return Err(DecodeError::Malformed);
                },
            };
            let nsec = match parse_i32_str(s.substring_char(k2 + 1, len)) {
                Option::Some(nsec) => nsec,
                Option::None => {
                    return Err(DecodeError::Malformed);
                },
            };
            Ok(Timeframe::Timespan { until: Timespec { sec, nsec } })
        } else if str_eq_exact(seg, "Always") {
            Ok(Timeframe::Always)
        } else if str_eq_exact(seg, "UntilLogout") {
            Ok(Timeframe::UntilLogout)
        } else {
            Err(DecodeError::Malformed)
        }
    }
}


fn decode_status(s: &str) -> (r: Result<OnlineStatus, DecodeError>)
    ensures
        r == spec_decode_status(s@),
{
    if str_eq_exact(s, "Offline") {
        Ok(OnlineStatus::Offline)
    } else if str_eq_exact(s, "Online") {
        Ok(OnlineStatus::Online)
    } else if str_eq_exact(s, "Idle") {
        Ok(OnlineStatus::Idle)
    } else {
        Err(DecodeError::Malformed)
    }
}

pub(crate) fn encode_wants(ws: &Vec<Want>) -> (v: Value)
    ensures
        is_enc_wants(v, ws@),
{
    let mut items: Vec<Value> = Vec::new();
    let mut i: usize = 0;
    while i < ws.len()
        invariant
            0 <= i <= ws@.len(),
            items@.len() == i,
            forall|j: int| 0 <= j < i ==> is_enc_want(#[trigger] items@[j], ws@[j]),
        decreases ws@.len() - i,
    {
        items.push(ws[i].encode());
        i = i + 1;
    }
    Value::List(items)
}

proof fn lemma_want_list_err_persists(items: Seq<Value>, k: int, e: DecodeError)
    requires
        0 <= k <= items.len(),
        spec_decode_want_list(items.take(k)) == Err::<Seq<Want>, DecodeError>(e),
    ensures
        spec_decode_want_list(items) == Err::<Seq<Want>, DecodeError>(e),
    decreases items.len() - k,
{
    if k < items.len() {
        assert(items.take(k + 1).drop_last() =~= items.take(k));
        lemma_want_list_err_persists(items, k + 1, e);
    } else {
        assert(items.take(k) =~= items);
    }
}

#[verifier::loop_isolation(false)]
pub(crate) fn decode_want_list(items: &Vec<Value>) -> (r: Result<Vec<Want>, DecodeError>)
    ensures
        match r {
            Ok(ws) => spec_decode_want_list(items@) == Ok::<Seq<Want>, DecodeError>(ws@)
                && wants_distinct(ws@),
            Err(e) => spec_decode_want_list(items@) == Err::<Seq<Want>, DecodeError>(e),
        },
{
    let mut ws: Vec<Want> = Vec::new();
    proof {
        assert(items@.take(0) =~= Seq::<Value>::empty());
    }
    let mut i: usize = 0;
    while i < items.len()
        invariant
            0 <= i <= items@.len(),
            spec_decode_want_list(items@.take(i as int)) == Ok::<Seq<Want>, DecodeError>(ws@),
            wants_distinct(ws@),
        decreases items@.len() - i,
    {
        proof {
            assert(items@.take(i as int + 1).drop_last() =~= items@.take(i as int));
            assert(items@.take(i as int + 1).last() == items@[i as int]);
        }
        match Want::decode(&items[i]) {
            Err(e) => {
                proof {
                    lemma_want_list_err_persists(items@, i as int + 1, e);
                }
                return Err(e);
            },
            Ok(w) => {
                if !wants_contains(&ws, w) {
                    let ghost before = ws@;
                    ws.push(w);
                    proof {
                        assert forall|a: int, b: int|
                            0 <= a < b < ws@.len() implies ws@[a] != ws@[b] by {
                            if b == before.len() {
                                assert(before.contains(before[a]) == false || true);
                                assert(ws@[a] == before[a]);
                                if ws@[a] == w {
                                    assert(before.contains(w)) by {
                                        assert(before[a] == w);
                                    }
                                }
                            }
                        }
                    }
                }
            },
        }
        i = i + 1;
    }
    proof {
        assert(items@.take(items@.len() as int) =~= items@);
    }
    Ok(ws)
}

proof fn lemma_tw_list_err_persists(entries: Seq<(String, Value)>, k: int, e: DecodeError)
    requires
        0 <= k <= entries.len(),
        spec_decode_tw_list(entries.take(k)) == Err::<Seq<(Timeframe, Seq<Want>)>, DecodeError>(e),
    ensures
        spec_decode_tw_list(entries) == Err::<Seq<(Timeframe, Seq<Want>)>, DecodeError>(e),
    decreases entries.len() - k,
{
    if k < entries.len() {
        assert(entries.take(k + 1).drop_last() =~= entries.take(k));
        lemma_tw_list_err_persists(entries, k + 1, e);
    } else {
        assert(entries.take(k) =~= entries);
    }
}

#[verifier::loop_isolation(false)]
pub(crate) fn decode_tw_list(entries: &Vec<(String, Value)>) -> (r: Result<
    Vec<(Timeframe, Vec<Want>)>,
    DecodeError,
>)
    ensures
        match r {
            Ok(tw) => {
                let m = Seq::new(tw@.len(), |i: int| (tw@[i].0, tw@[i].1@));
                &&& spec_decode_tw_list(entries@) == Ok::<Seq<(Timeframe, Seq<Want>)>, DecodeError>(
                    m,
                )
                &&& timeframes_distinct(m)
                &&& forall|i: int| 0 <= i < m.len() ==> wants_distinct(#[trigger] m[i].1)
            },
            Err(e) => spec_decode_tw_list(entries@) == Err::<
                Seq<(Timeframe, Seq<Want>)>,
                DecodeError,
            >(e),
        },
{
    broadcast use lemma_find_timeframe;

    let mut tw: Vec<(Timeframe, Vec<Want>)> = Vec::new();
    proof {
        assert(entries@.take(0) =~= Seq::<(String, Value)>::empty());
        assert(Seq::new(tw@.len(), |i: int| (tw@[i].0, tw@[i].1@)) =~= Seq::<
            (Timeframe, Seq<Want>),
        >::empty());
    }
    let mut k: usize = 0;
    while k < entries.len()
        invariant
            0 <= k <= entries@.len(),
            spec_decode_tw_list(entries@.take(k as int)) == Ok::<
                Seq<(Timeframe, Seq<Want>)>,
                DecodeError,
            >(Seq::new(tw@.len(), |i: int| (tw@[i].0, tw@[i].1@))),
            forall|a: int, b: int| 0 <= a < b < tw@.len() ==> (#[trigger] tw@[a]).0 != (
            #[trigger] tw@[b]).0,
            forall|i: int| 0 <= i < tw@.len() ==> wants_distinct((#[trigger] tw@[i]).1@),
        decreases entries@.len() - k,
    {
        let ghost acc = Seq::new(tw@.len(), |i: int| (tw@[i].0, tw@[i].1@));
        proof {
            assert(entries@.take(k as int + 1).drop_last() =~= entries@.take(k as int));
            assert(entries@.take(k as int + 1).last() == entries@[k as int]);
        }
        let tf = match Timeframe::decode(entries[k].0.as_str()) {
            Ok(tf) => tf,
            Err(e) => {
                proof {
                    lemma_tw_list_err_persists(entries@, k as int + 1, e);
                }
                return Err(e);
            },
        };
        let wl = match &entries[k].1 {
            Value::List(items) => match decode_want_list(items) {
                Ok(wl) => wl,
                Err(e) => {
                    proof {
                        lemma_tw_list_err_persists(entries@, k as int + 1, e);
                    }
                    return Err(e);
                },
            },
            _ => {
                proof {
                    lemma_tw_list_err_persists(entries@, k as int + 1, DecodeError::Malformed);
                }
                return Err(DecodeError::Malformed);
            },
        };
        match find_timeframe_exec(&tw, tf, Ghost(acc)) {
            None => {
                let ghost pre = tw@;
                tw.push((tf, wl));
                proof {
                    assert(Seq::new(tw@.len(), |i: int| (tw@[i].0, tw@[i].1@)) =~= acc.push(
                        (tf, wl@),
                    ));
                    assert forall|a: int, b: int| 0 <= a < b < tw@.len() implies (
                    #[trigger] tw@[a]).0 != (#[trigger] tw@[b]).0 by {
                        if b == pre.len() {
                            assert(tw@[a] == pre[a]);
                            assert(acc[a].0 == pre[a].0);
                            assert(acc[a].0 != tf);
                        } else {
                            assert(tw@[a] == pre[a] && tw@[b] == pre[b]);
                        }
                    }
                }
            },
            Some(j) => {
                let ghost pre = tw@;
                let _old_entry = tw.remove(j);
                tw.insert(j, (tf, wl));
                proof {
                    assert(tw@ =~= pre.update(j as int, (tf, wl)));
                    assert(Seq::new(tw@.len(), |i: int| (tw@[i].0, tw@[i].1@)) =~= acc.update(
                        j as int,
                        (tf, wl@),
                    ));
                    assert(acc[j as int].0 == tf);
                    assert(pre[j as int].0 == tf);
                    assert forall|a: int, b: int| 0 <= a < b < tw@.len() implies (
                    #[trigger] tw@[a]).0 != (#[trigger] tw@[b]).0 by {
                        assert(tw@[a].0 == pre[a].0);
                        assert(tw@[b].0 == pre[b].0);
                    }
                }
            },
        }
        k = k + 1;
    }
    proof {
        assert(entries@.take(entries@.len() as int) =~= entries@);
    }
    Ok(tw)
}

impl UserData {
    /// Serializes the record as `[status, mapping(timeframe -> wants)]`.
    pub fn encode(&self) -> (v: Value)
        ensures
            is_enc_user(v, self@),
    {
        let status_str: String = match self.status {
            OnlineStatus::Offline => "Offline".to_owned(),
            OnlineStatus::Online => "Online".to_owned(),
            OnlineStatus::Idle => "Idle".to_owned(),
        };
        let mut entries: Vec<(String, Value)> = Vec::new();
        let mut i: usize = 0;
        while i < self.time_wants.len()
            invariant
                0 <= i <= self.time_wants@.len(),
                entries@.len() == i,
                forall|j: int|
                    0 <= j < i ==> (#[trigger] entries@[j]).0@ == spec_timeframe_str(
                        self.time_wants@[j].0,
                    ) && is_enc_wants(entries@[j].1, self.time_wants@[j].1@),
            decreases self.time_wants@.len() - i,
        {
            let key = self.time_wants[i].0.encode();
            let val = encode_wants(&self.time_wants[i].1);
            entries.push((key, val));
            i = i + 1;
        }
        let mut items: Vec<Value> = Vec::new();
        items.push(Value::Str(status_str));
        items.push(Value::Obj(entries));
        proof {
            assert forall|j: int| 0 <= j < self@.wants.len() implies (
            #[trigger] self@.wants[j]) == (self.time_wants@[j].0, self.time_wants@[j].1@) by {}
        }
        Value::List(items)
    }

    /// Reads a record back from its encoding.
    pub fn decode(v: &Value) -> (r: Result<UserData, DecodeError>)
        ensures
            match r {
                Ok(ud) => spec_decode_user(*v) == Ok::<UserV, DecodeError>(ud@) && ud@.wf(),
                Err(e) => spec_decode_user(*v) == Err::<UserV, DecodeError>(e),
            },
    {
        match v {
            Value::List(items) => {
                if items.len() != 2 {
                    return Err(DecodeError::Malformed);
                }
                let status = match &items[0] {
                    Value::Str(st) => match decode_status(st.as_str()) {
                        Ok(status) => status,
                        Err(e) => {
                            return Err(e);
                        },
                    },
                    _ => {
                        return Err(DecodeError::Malformed);
                    },
                };
                match &items[1] {
                    Value::Obj(entries) => match decode_tw_list(entries) {
                        Ok(tw) => {
                            let ud = UserData { status, time_wants: tw };
                            proof {
                                assert(ud@.wants =~= Seq::new(
                                    ud.time_wants@.len(),
                                    |i: int| (ud.time_wants@[i].0, ud.time_wants@[i].1@),
                                ));
                            }
                            Ok(ud)
                        },
                        Err(e) => Err(e),
                    },
                    _ => Err(DecodeError::Malformed),
                }
            },
            _ => Err(DecodeError::Malformed),
        }
    }
}


/// What decoding the users map yields: entries in order, a repeated user id
/// keeping only its last entry.
pub open spec fn spec_decode_users(entries: Seq<(String, Value)>) -> Result<
    Seq<(u64, UserV)>,
    DecodeError,
>
    decreases entries.len(),
{
    if entries.len() == 0 {
        Ok(Seq::empty())
    } else {
        match spec_decode_users(entries.drop_last()) {
            Err(e) => Err(e),
            Ok(acc) => match spec_parse_u64(entries.last().0@) {
                Option::None => Err(DecodeError::Malformed),
                Option::Some(uid) => match spec_decode_user(entries.last().1) {
                    Err(e) => Err(e),
                    Ok(u) => {
                        let j = find_user(acc, uid);
                        Ok(
                            if j == -1 {
                                acc.push((uid, u))
                            } else {
                                acc.update(j, (uid, u))
                            },
                        )
                    },
                },
            },
        }
    }
}

/// What decoding a whole snapshot yields: a wrong version tag is a hard
/// failure of its own kind.
pub open spec fn spec_decode_sh(v: Value) -> Result<Seq<(u64, UserV)>, DecodeError> {
    match v {
        Value::List(items) => if items@.len() != 2 {
            Err(DecodeError::Malformed)
        } else {
            match items@[0] {
                Value::U64(ver) => if ver != SERIALIZATION_VERSION {
                    Err(DecodeError::InvalidVersion { found: ver })
                } else {
                    match items@[1] {
                        Value::Obj(entries) => spec_decode_users(entries@),
                        _ => Err(DecodeError::Malformed),
                    }
                },
                _ => Err(DecodeError::Malformed),
            }
        },
        _ => Err(DecodeError::Malformed),
    }
}

proof fn lemma_users_err_persists(entries: Seq<(String, Value)>, k: int, e: DecodeError)
    requires
        0 <= k <= entries.len(),
        spec_decode_users(entries.take(k)) == Err::<Seq<(u64, UserV)>, DecodeError>(e),
    ensures
        spec_decode_users(entries) == Err::<Seq<(u64, UserV)>, DecodeError>(e),
    decreases entries.len() - k,
{
    if k < entries.len() {
        assert(entries.take(k + 1).drop_last() =~= entries.take(k));
        lemma_users_err_persists(entries, k + 1, e);
    } else {
        assert(entries.take(k) =~= entries);
    }
}

#[verifier::loop_isolation(false)]
pub(crate) fn decode_users(entries: &Vec<(String, Value)>) -> (r: Result<
    Vec<(u64, UserData)>,
    DecodeError,
>)
    ensures
        match r {
            Ok(users) => {
                let m = Seq::new(users@.len(), |i: int| (users@[i].0, users@[i].1@));
                &&& spec_decode_users(entries@) == Ok::<Seq<(u64, UserV)>, DecodeError>(m)
                &&& users_distinct(m)
                &&& forall|i: int| 0 <= i < m.len() ==> (#[trigger] m[i].1).wf()
            },
            Err(e) => spec_decode_users(entries@) == Err::<Seq<(u64, UserV)>, DecodeError>(e),
        },
{
    broadcast use lemma_find_user;

    let mut users: Vec<(u64, UserData)> = Vec::new();
    proof {
        assert(entries@.take(0) =~= Seq::<(String, Value)>::empty());
        assert(Seq::new(users@.len(), |i: int| (users@[i].0, users@[i].1@)) =~= Seq::<
            (u64, UserV),
        >::empty());
    }
    let mut k: usize = 0;
    while k < entries.len()
        invariant
            0 <= k <= entries@.len(),
            spec_decode_users(entries@.take(k as int)) == Ok::<Seq<(u64, UserV)>, DecodeError>(
                Seq::new(users@.len(), |i: int| (users@[i].0, users@[i].1@)),
            ),
            forall|a: int, b: int| 0 <= a < b < users@.len() ==> (#[trigger] users@[a]).0 != (
            #[trigger] users@[b]).0,
            forall|i: int| 0 <= i < users@.len() ==> (#[trigger] users@[i]).1@.wf(),
        decreases entries@.len() - k,
    {
        let ghost acc = Seq::new(users@.len(), |i: int| (users@[i].0, users@[i].1@));
        proof {
            assert(entries@.take(k as int + 1).drop_last() =~= entries@.take(k as int));
            assert(entries@.take(k as int + 1).last() == entries@[k as int]);
        }
        let uid = match parse_u64_str(entries[k].0.as_str()) {
            Option::Some(uid) => uid,
            Option::None => {
                proof {
                    lemma_users_err_persists(entries@, k as int + 1, DecodeError::Malformed);
                }
                return Err(DecodeError::Malformed);
            },
        };
        let ud = match UserData::decode(&entries[k].1) {
            Ok(ud) => ud,
            Err(e) => {
                proof {
                    lemma_users_err_persists(entries@, k as int + 1, e);
                }
                return Err(e);
            },
        };
        match find_user_exec(&users, uid, Ghost(acc)) {
            None => {
                let ghost pre = users@;
                users.push((uid, ud));
                proof {
                    assert(Seq::new(users@.len(), |i: int| (users@[i].0, users@[i].1@))
                        =~= acc.push((uid, ud@)));
                    assert forall|a: int, b: int| 0 <= a < b < users@.len() implies (
                    #[trigger] users@[a]).0 != (#[trigger] users@[b]).0 by {
                        if b == pre.len() {
                            assert(users@[a] == pre[a]);
                            assert(acc[a].0 == pre[a].0);
                            assert(acc[a].0 != uid);
                        } else {
                            assert(users@[a] == pre[a] && users@[b] == pre[b]);
                        }
                    }
                }
            },
            Some(j) => {
                let ghost pre = users@;
                let _old_entry = users.remove(j);
                users.insert(j, (uid, ud));
                proof {
                    assert(users@ =~= pre.update(j as int, (uid, ud)));
                    assert(Seq::new(users@.len(), |i: int| (users@[i].0, users@[i].1@))
                        =~= acc.update(j as int, (uid, ud@)));
                    assert(acc[j as int].0 == uid);
                    assert(pre[j as int].0 == uid);
                    assert forall|a: int, b: int| 0 <= a < b < users@.len() implies (
                    #[trigger] users@[a]).0 != (#[trigger] users@[b]).0 by {
                        assert(users@[a].0 == pre[a].0);
                        assert(users@[b].0 == pre[b].0);
                    }
                }
            },
        }
        k = k + 1;
    }
    proof {
        assert(entries@.take(entries@.len() as int) =~= entries@);
    }
    Ok(users)
}


/// Reading back an encoded status string gives the status.
proof fn lemma_status_round_trip(st: OnlineStatus)
    ensures
        spec_decode_status(spec_status_str(st)) == Ok::<OnlineStatus, DecodeError>(st),
{
    reveal_strlit("Offline");
    reveal_strlit("Online");
    reveal_strlit("Idle");
    assert("Offline"@.len() == 7);
    assert("Online"@.len() == 6);
    assert("Idle"@.len() == 4);
    match st {
        OnlineStatus::Offline => {
            assert(spec_decode_status("Offline"@) == Ok::<OnlineStatus, DecodeError>(
                OnlineStatus::Offline,
            ));
        },
        OnlineStatus::Online => {
            assert("Online"@ != "Offline"@);
            assert(spec_decode_status("Online"@) == Ok::<OnlineStatus, DecodeError>(
                OnlineStatus::Online,
            ));
        },
        OnlineStatus::Idle => {
            assert("Idle"@ != "Offline"@);
            assert("Idle"@ != "Online"@);
            assert(spec_decode_status("Idle"@) == Ok::<OnlineStatus, DecodeError>(
                OnlineStatus::Idle,
            ));
        },
    }
}

/// Reading back an encoded timeframe string gives the timeframe.
proof fn lemma_timeframe_round_trip(tf: Timeframe)
    ensures
        spec_decode_timeframe(spec_timeframe_str(tf)) == Ok::<Timeframe, DecodeError>(tf),
{
    reveal_strlit("Always");
    reveal_strlit("UntilLogout");
    reveal_strlit("Timespan");
    reveal_strlit("Timespan:");
    match tf {
        Timeframe::Always => {
            let s = "Always"@;
            crate::common::lemma_find_char_exact(s, ':', 0, s.len() as int);
            assert(s.subrange(0, s.len() as int) =~= s);
            assert(s != "Timespan"@);
        },
        Timeframe::UntilLogout => {
            let s = "UntilLogout"@;
            crate::common::lemma_find_char_exact(s, ':', 0, s.len() as int);
            assert(s.subrange(0, s.len() as int) =~= s);
            assert(s != "Timespan"@);
        },
        Timeframe::Timespan { until } => {
            let a = signed_dec_digits(until.sec as int);
            let b = signed_dec_digits(until.nsec as int);
            let s = "Timespan:"@ + a + ":"@ + b;
            reveal_strlit(":");
            assert(":"@ =~= seq![':']);
            let la = a.len() as int;
            let lb = b.len() as int;
            assert(a.len() >= 1 && forall|i: int| 0 <= i < a.len() ==> #[trigger] a[i] != ':') by {
                if until.sec < 0 {
                    lemma_dec_digits_val((-(until.sec as int)) as nat);
                    let d = dec_digits((-(until.sec as int)) as nat);
                    assert(a =~= seq!['-'] + d);
                    assert forall|i: int| 0 <= i < a.len() implies #[trigger] a[i] != ':' by {
                        if i > 0 {
                            assert(a[i] == d[i - 1]);
                            assert(is_digit_char(d[i - 1]));
                        }
                    }
                } else {
                    lemma_dec_digits_val((until.sec as int) as nat);
                    assert forall|i: int| 0 <= i < a.len() implies #[trigger] a[i] != ':' by {
                        assert(is_digit_char(a[i]));
                    }
                }
            }
            assert(b.len() >= 1 && forall|i: int| 0 <= i < b.len() ==> #[trigger] b[i] != ':') by {
                if until.nsec < 0 {
                    lemma_dec_digits_val((-(until.nsec as int)) as nat);
                    let d = dec_digits((-(until.nsec as int)) as nat);
                    assert(b =~= seq!['-'] + d);
                    assert forall|i: int| 0 <= i < b.len() implies #[trigger] b[i] != ':' by {
                        if i > 0 {
                            assert(b[i] == d[i - 1]);
                            assert(is_digit_char(d[i - 1]));
                        }
                    }
                } else {
                    lemma_dec_digits_val((until.nsec as int) as nat);
                    assert forall|i: int| 0 <= i < b.len() implies #[trigger] b[i] != ':' by {
                        assert(is_digit_char(b[i]));
                    }
                }
            }
            assert(s.len() == 9 + la + 1 + lb);
            assert(s[8] == ':');
            assert forall|k: int| 0 <= k < 8 implies s[k] != ':' by {
                assert(s[k] == "Timespan:"@[k]);
            }
            crate::common::lemma_find_char_exact(s, ':', 0, 8);
            assert(s.subrange(0, 8) =~= "Timespan"@);
            assert forall|k: int| 9 <= k < 9 + la implies s[k] != ':' by {
                assert(s[k] == a[k - 9]);
            }
            assert(s[9 + la] == ':');
            crate::common::lemma_find_char_exact(s, ':', 9, 9 + la);
            assert(s.subrange(9, 9 + la) =~= a);
            assert(s.subrange(9 + la + 1, s.len() as int) =~= b);
            lemma_parse_i64_round_trip(until.sec);
            lemma_parse_i32_round_trip(until.nsec);
        },
    }
}

/// Reading back an encoded want list gives the list, for a duplicate-free
/// list.
proof fn lemma_want_list_round_trip(items: Seq<Value>, ws: Seq<Want>)
    requires
        items.len() == ws.len(),
        forall|i: int| 0 <= i < ws.len() ==> is_enc_want(#[trigger] items[i], ws[i]),
        wants_distinct(ws),
    ensures
        spec_decode_want_list(items) == Ok::<Seq<Want>, DecodeError>(ws),
    decreases items.len(),
{
    if items.len() > 0 {
        let di = items.drop_last();
        let dw = ws.drop_last();
        assert forall|i: int| 0 <= i < dw.len() implies is_enc_want(#[trigger] di[i], dw[i]) by {
            assert(di[i] == items[i] && dw[i] == ws[i]);
        }
        lemma_want_list_round_trip(di, dw);
        assert(is_enc_want(items.last(), ws.last()));
        assert(spec_decode_want(items.last()) == Ok::<Want, DecodeError>(ws.last()));
        if dw.contains(ws.last()) {
            let k = choose|k: int| 0 <= k < dw.len() && dw[k] == ws.last();
            assert(ws[k] == ws.last());
            assert(false);
        }
        assert(dw.push(ws.last()) =~= ws);
    } else {
        assert(ws =~= Seq::<Want>::empty());
    }
}

/// Reading back an encoded wants map gives the map, for distinct keys.
proof fn lemma_tw_list_round_trip(entries: Seq<(String, Value)>, w: Seq<(Timeframe, Seq<Want>)>)
    requires
        entries.len() == w.len(),
        forall|i: int|
            0 <= i < w.len() ==> (#[trigger] entries[i]).0@ == spec_timeframe_str(w[i].0)
                && is_enc_wants(entries[i].1, w[i].1),
        timeframes_distinct(w),
        forall|i: int| 0 <= i < w.len() ==> wants_distinct(#[trigger] w[i].1),
    ensures
        spec_decode_tw_list(entries) == Ok::<Seq<(Timeframe, Seq<Want>)>, DecodeError>(w),
    decreases entries.len(),
{
    broadcast use lemma_find_timeframe;

    if entries.len() > 0 {
        let de = entries.drop_last();
        let dw = w.drop_last();
        assert forall|i: int| 0 <= i < dw.len() implies (#[trigger] de[i]).0@
            == spec_timeframe_str(dw[i].0) && is_enc_wants(de[i].1, dw[i].1) by {
            assert(de[i] == entries[i] && dw[i] == w[i]);
        }
        assert forall|a: int, b: int| 0 <= a < b < dw.len() implies dw[a].0 != dw[b].0 by {
            assert(dw[a] == w[a] && dw[b] == w[b]);
        }
        assert forall|i: int| 0 <= i < dw.len() implies wants_distinct(#[trigger] dw[i].1) by {
            assert(dw[i] == w[i]);
        }
        lemma_tw_list_round_trip(de, dw);
        let tf = w.last().0;
        lemma_timeframe_round_trip(tf);
        assert(entries.last().0@ == spec_timeframe_str(tf));
        assert(is_enc_wants(entries.last().1, w.last().1));
        match entries.last().1 {
            Value::List(items) => {
                lemma_want_list_round_trip(items@, w.last().1);
            },
            _ => {
                assert(false);
            },
        }
        assert(find_timeframe(dw, tf) == -1) by {
            if find_timeframe(dw, tf) >= 0 {
                let k = find_timeframe(dw, tf);
                assert(dw[k].0 == tf);
                assert(w[k].0 == w.last().0);
            }
        }
        assert(dw.push(w.last()) =~= w);
    } else {
        assert(w =~= Seq::<(Timeframe, Seq<Want>)>::empty());
    }
}

/// Reading back an encoded user record gives the record, for a well-formed
/// record.
proof fn lemma_user_round_trip(v: Value, u: UserV)
    requires
        is_enc_user(v, u),
        u.wf(),
    ensures
        spec_decode_user(v) == Ok::<UserV, DecodeError>(u),
{
    match v {
        Value::List(items) => {
            lemma_status_round_trip(u.status);
            match items@[1] {
                Value::Obj(entries) => {
                    lemma_tw_list_round_trip(entries@, u.wants);
                },
                _ => {
                    assert(false);
                },
            }
        },
        _ => {
            assert(false);
        },
    }
}

/// Round trip: decoding an encoded snapshot of a well-formed store yields an
/// equal store, whatever statuses, timeframes and wants it holds.
pub proof fn lemma_sh_round_trip(v: Value, users: Seq<(u64, UserV)>)
    requires
        is_enc_sh(v, users),
        users_distinct(users),
        forall|i: int| 0 <= i < users.len() ==> (#[trigger] users[i].1).wf(),
    ensures
        spec_decode_sh(v) == Ok::<Seq<(u64, UserV)>, DecodeError>(users),
{
    match v {
        Value::List(items) => {
            match items@[1] {
                Value::Obj(entries) => {
                    lemma_users_round_trip(entries@, users);
                },
                _ => {
                    assert(false);
                },
            }
        },
        _ => {
            assert(false);
        },
    }
}

proof fn lemma_users_round_trip(entries: Seq<(String, Value)>, users: Seq<(u64, UserV)>)
    requires
        entries.len() == users.len(),
        forall|i: int|
            0 <= i < users.len() ==> (#[trigger] entries[i]).0@ == dec_digits(users[i].0 as nat)
                && is_enc_user(entries[i].1, users[i].1),
        users_distinct(users),
        forall|i: int| 0 <= i < users.len() ==> (#[trigger] users[i].1).wf(),
    ensures
        spec_decode_users(entries) == Ok::<Seq<(u64, UserV)>, DecodeError>(users),
    decreases entries.len(),
{
    broadcast use lemma_find_user;

    if entries.len() > 0 {
        let de = entries.drop_last();
        let du = users.drop_last();
        assert forall|i: int| 0 <= i < du.len() implies (#[trigger] de[i]).0@ == dec_digits(
            du[i].0 as nat,
        ) && is_enc_user(de[i].1, du[i].1) by {
            assert(de[i] == entries[i] && du[i] == users[i]);
        }
        assert forall|a: int, b: int| 0 <= a < b < du.len() implies du[a].0 != du[b].0 by {
            assert(du[a] == users[a] && du[b] == users[b]);
        }
        assert forall|i: int| 0 <= i < du.len() implies (#[trigger] du[i].1).wf() by {
            assert(du[i] == users[i]);
        }
        lemma_users_round_trip(de, du);
        let uid = users.last().0;
        lemma_parse_u64_round_trip(uid);
        assert(entries.last().0@ == dec_digits(uid as nat));
        lemma_user_round_trip(entries.last().1, users.last().1);
        assert(find_user(du, uid) == -1) by {
            if find_user(du, uid) >= 0 {
                let k = find_user(du, uid);
                assert(du[k].0 == uid);
                assert(users[k].0 == users.last().0);
            }
        }
        assert(du.push(users.last()) =~= users);
    } else {
        assert(users =~= Seq::<(u64, UserV)>::empty());
    }
}

} // verus!

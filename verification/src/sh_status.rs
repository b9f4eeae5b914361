use vstd::prelude::*;

use crate::model::OnlineStatus;
use crate::model::StatusReport;
use crate::model::Tier;
use crate::model::Timeframe;
use crate::model::Timespec;
use crate::model::UserData;
use crate::model::UserV;
use crate::model::Want;
use crate::codec::DecodeError;
use crate::codec::Value;
use crate::codec::decode_users;
use crate::codec::is_enc_sh;
use crate::codec::spec_decode_sh;
use crate::model::find_timeframe;
use crate::numbers::u64_to_string;
use crate::codec::SERIALIZATION_VERSION;
use crate::model::lemma_find_timeframe;
use crate::model::spec_ts_after;
use crate::model::timeframes_distinct;
use crate::model::ts_after;
use crate::model::wants_distinct;

verus! {

/// The preference store: one record per user who has ever issued a want or a
/// presence change.
#[derive(PartialEq, Eq, Debug)]
pub struct ShStatus {
    users_data: Vec<(u64, UserData)>,
}

impl View for ShStatus {
    type V = Seq<(u64, UserV)>;

    closed spec fn view(&self) -> Seq<(u64, UserV)> {
        Seq::new(self.users_data@.len(), |i: int| (self.users_data@[i].0, self.users_data@[i].1@))
    }
}

/// No user id occurs twice.
pub open spec fn users_distinct(users: Seq<(u64, UserV)>) -> bool {
    forall|i: int, j: int| 0 <= i < j < users.len() ==> users[i].0 != users[j].0
}

/// Index of `id` among the users, or `-1`.
pub open spec fn find_user(users: Seq<(u64, UserV)>, id: u64) -> int
    decreases users.len(),
{
    if users.len() == 0 {
        -1
    } else if users[0].0 == id {
        0
    } else {
        let r = find_user(users.drop_first(), id);
        if r == -1 {
            -1
        } else {
            r + 1
        }
    }
}

pub broadcast proof fn lemma_find_user(users: Seq<(u64, UserV)>, id: u64)
    ensures
        -1 <= #[trigger] find_user(users, id) < users.len(),
        find_user(users, id) >= 0 ==> users[find_user(users, id)].0 == id,
        find_user(users, id) == -1 ==> forall|i: int| 0 <= i < users.len() ==> users[i].0 != id,
        forall|i: int| 0 <= i < find_user(users, id) ==> users[i].0 != id,
    decreases users.len(),
{
    if users.len() > 0 && users[0].0 != id {
        lemma_find_user(users.drop_first(), id);
        assert forall|i: int| 0 < i < users.len() implies users.drop_first()[i - 1] == users[i] by {}
    }
}

impl ShStatus {
    /// Well-formedness: user ids are distinct and every record is well
    /// formed.
    pub open spec fn wf(&self) -> bool {
        &&& users_distinct(self@)
        &&& forall|i: int| 0 <= i < self@.len() ==> (#[trigger] self@[i].1).wf()
    }

    pub fn new() -> (r: Self)
        ensures
            r.wf(),
            r@ == Seq::<(u64, UserV)>::empty(),
    {
        let r = ShStatus { users_data: Vec::new() };
        proof {
            assert(r@ =~= Seq::<(u64, UserV)>::empty());
        }
        r
    }
}

/// Adding `add` to `cur`, skipping what is already present: the set union,
/// keeping `cur`'s order and then `add`'s.
pub open spec fn spec_union_wants(cur: Seq<Want>, add: Seq<Want>) -> Seq<Want>
    decreases add.len(),
{
    if add.len() == 0 {
        cur
    } else {
        spec_union_wants(
            if cur.contains(add[0]) {
                cur
            } else {
                cur.push(add[0])
            },
            add.drop_first(),
        )
    }
}

/// The union has an entry exactly for what either side holds, and stays
/// duplicate-free.
pub proof fn lemma_union_wants(cur: Seq<Want>, add: Seq<Want>)
    requires
        wants_distinct(cur),
    ensures
        wants_distinct(spec_union_wants(cur, add)),
        forall|w: Want| #[trigger]
            spec_union_wants(cur, add).contains(w) <==> cur.contains(w) || add.contains(w),
    decreases add.len(),
{
    if add.len() > 0 {
        let cur2 = if cur.contains(add[0]) {
            cur
        } else {
            cur.push(add[0])
        };
        assert(wants_distinct(cur2) && forall|w: Want|
            #[trigger] cur2.contains(w) <==> cur.contains(w) || w == add[0]) by {
            if !cur.contains(add[0]) {
                assert forall|w: Want| #[trigger] cur.push(add[0]).contains(w) implies cur.contains(
                    w,
                ) || w == add[0] by {
                    let k = choose|k: int|
                        0 <= k < cur.push(add[0]).len() && cur.push(add[0])[k] == w;
                    if k < cur.len() {
                        assert(cur[k] == w);
                    }
                }
                assert forall|w: Want| cur.contains(w) || w == add[0] implies #[trigger] cur.push(
                    add[0],
                ).contains(w) by {
                    if cur.contains(w) {
                        let k = choose|k: int| 0 <= k < cur.len() && cur[k] == w;
                        assert(cur.push(add[0])[k] == w);
                    } else {
                        assert(cur.push(add[0])[cur.len() as int] == w);
                    }
                }
                assert forall|i: int, j: int|
                    0 <= i < j < cur2.len() implies cur2[i] != cur2[j] by {
                    if j == cur.len() {
                        assert(cur2[i] == cur[i]);
                        assert(cur.contains(cur[i]));
                    }
                }
            }
        }
        lemma_union_wants(cur2, add.drop_first());
        assert forall|w: Want| add.contains(w) implies w == add[0] || add.drop_first().contains(
            w,
        ) by {
            let k = choose|k: int| 0 <= k < add.len() && add[k] == w;
            if k > 0 {
                assert(add.drop_first()[k - 1] == w);
            }
        }
        assert forall|w: Want| add.drop_first().contains(w) implies add.contains(w) by {
            let k = choose|k: int| 0 <= k < add.drop_first().len() && add.drop_first()[k] == w;
            assert(add[k + 1] == w);
        }
        assert(add.contains(add[0]));
    }
}

/// The record for a user after `add` is unioned into the want set keyed by
/// `time`; a missing key is appended.
pub open spec fn spec_add_wants(u: UserV, time: Timeframe, add: Seq<Want>) -> UserV {
    let j = find_timeframe(u.wants, time);
    if j == -1 {
        UserV {
            status: u.status,
            wants: u.wants.push((time, spec_union_wants(Seq::empty(), add))),
        }
    } else {
        UserV {
            status: u.status,
            wants: u.wants.update(j, (time, spec_union_wants(u.wants[j].1, add))),
        }
    }
}

/// A fresh record: online, with nothing recorded yet.
pub open spec fn spec_fresh_user(status: OnlineStatus) -> UserV {
    UserV { status, wants: Seq::empty() }
}

/// The store after `set_user_wants_sh(id, time, add)`.
pub open spec fn spec_set_wants(
    users: Seq<(u64, UserV)>,
    id: u64,
    time: Timeframe,
    add: Seq<Want>,
) -> Seq<(u64, UserV)> {
    let i = find_user(users, id);
    if i == -1 {
        users.push((id, spec_add_wants(spec_fresh_user(OnlineStatus::Online), time, add)))
    } else {
        users.update(i, (id, spec_add_wants(users[i].1, time, add)))
    }
}

pub(crate) fn wants_contains(v: &Vec<Want>, w: Want) -> (r: bool)
    ensures
        r == v@.contains(w),
{
    let mut i: usize = 0;
    while i < v.len()
        invariant
            0 <= i <= v@.len(),
            forall|j: int| 0 <= j < i ==> v@[j] != w,
        decreases v@.len() - i,
    {
        if v[i].tier == w.tier {
            proof {
                assert(v@[i as int] == w);
            }
            return true;
        }
        i = i + 1;
    }
    proof {
        if v@.contains(w) {
            let k = choose|k: int| 0 <= k < v@.len() && v@[k] == w;
        }
    }
    false
}

#[verifier::loop_isolation(false)]
fn union_wants(cur: &mut Vec<Want>, add: &Vec<Want>)
    ensures
        final(cur)@ == spec_union_wants(old(cur)@, add@),
{
    proof {
        assert(add@.skip(0) =~= add@);
    }
    let mut k: usize = 0;
    while k < add.len()
        invariant
            0 <= k <= add@.len(),
            spec_union_wants(old(cur)@, add@) == spec_union_wants(cur@, add@.skip(k as int)),
        decreases add@.len() - k,
    {
        proof {
            assert(add@.skip(k as int).len() > 0);
            assert(add@.skip(k as int)[0] == add@[k as int]);
            assert(add@.skip(k as int).drop_first() =~= add@.skip(k as int + 1));
        }
        if !wants_contains(cur, add[k]) {
            cur.push(add[k]);
        }
        k = k + 1;
    }
    proof {
        assert(add@.skip(add@.len() as int).len() == 0);
    }
}

pub(crate) fn find_user_exec(users: &Vec<(u64, UserData)>, id: u64, Ghost(model): Ghost<Seq<(u64, UserV)>>) -> (r:
    Option<usize>)
    requires
        model.len() == users@.len(),
        forall|i: int| 0 <= i < users@.len() ==> (#[trigger] model[i]).0 == users@[i].0,
    ensures
        match r {
            Some(i) => i == find_user(model, id),
            None => find_user(model, id) == -1,
        },
{
    proof {
        broadcast use lemma_find_user;

    }
    let mut i: usize = 0;
    while i < users.len()
        invariant
            0 <= i <= users@.len(),
            model.len() == users@.len(),
            forall|j: int| 0 <= j < users@.len() ==> (#[trigger] model[j]).0 == users@[j].0,
            forall|j: int| 0 <= j < i ==> (#[trigger] model[j]).0 != id,
        decreases users@.len() - i,
    {
        if users[i].0 == id {
            proof {
                lemma_find_user_exact(model, id, i as int);
            }
            return Some(i);
        }
        i = i + 1;
    }
    None
}

pub(crate) proof fn lemma_find_user_exact(users: Seq<(u64, UserV)>, id: u64, i: int)
    requires
        0 <= i < users.len(),
        users[i].0 == id,
        forall|j: int| 0 <= j < i ==> users[j].0 != id,
    ensures
        find_user(users, id) == i,
    decreases users.len(),
{
    if i > 0 {
        assert forall|j: int| 0 < j < users.len() implies users.drop_first()[j - 1] == users[j] by {}
        lemma_find_user_exact(users.drop_first(), id, i - 1);
    }
}

proof fn lemma_find_timeframe_exact(w: Seq<(Timeframe, Seq<Want>)>, time: Timeframe, i: int)
    requires
        0 <= i < w.len(),
        w[i].0 == time,
        forall|j: int| 0 <= j < i ==> w[j].0 != time,
    ensures
        find_timeframe(w, time) == i,
    decreases w.len(),
{
    if i > 0 {
        assert forall|j: int| 0 < j < w.len() implies w.drop_first()[j - 1] == w[j] by {}
        lemma_find_timeframe_exact(w.drop_first(), time, i - 1);
    }
}

pub(crate) fn find_timeframe_exec(
    w: &Vec<(Timeframe, Vec<Want>)>,
    time: Timeframe,
    Ghost(model): Ghost<Seq<(Timeframe, Seq<Want>)>>,
) -> (r: Option<usize>)
    requires
        model.len() == w@.len(),
        forall|i: int| 0 <= i < w@.len() ==> (#[trigger] model[i]).0 == w@[i].0,
    ensures
        match r {
            Some(i) => i == find_timeframe(model, time),
            None => find_timeframe(model, time) == -1,
        },
{
    proof {
        broadcast use lemma_find_timeframe;

    }
    let mut i: usize = 0;
    while i < w.len()
        invariant
            0 <= i <= w@.len(),
            model.len() == w@.len(),
            forall|j: int| 0 <= j < w@.len() ==> (#[trigger] model[j]).0 == w@[j].0,
            forall|j: int| 0 <= j < i ==> (#[trigger] model[j]).0 != time,
        decreases w@.len() - i,
    {
        if timeframe_eq(&w[i].0, &time) {
            proof {
                lemma_find_timeframe_exact(model, time, i as int);
            }
            return Some(i);
        }
        i = i + 1;
    }
    None
}

fn timeframe_eq(a: &Timeframe, b: &Timeframe) -> (r: bool)
    ensures
        r == (*a == *b),
{
    match (a, b) {
        (Timeframe::Always, Timeframe::Always) => true,
        (Timeframe::UntilLogout, Timeframe::UntilLogout) => true,
        (Timeframe::Timespan { until: ua }, Timeframe::Timespan { until: ub }) => ua.sec == ub.sec
            && ua.nsec == ub.nsec,
        _ => false,
    }
}

impl ShStatus {
    /// Records that the user wants the given tiers within `time`: the wants
    /// are unioned into the existing set for that timeframe, and a record is
    /// created (online, empty) for an unknown user. Returns the updated
    /// record.
    pub fn set_user_wants_sh(&mut self, user_id: u64, time: Timeframe, wants: Vec<Want>) -> (ud:
        &UserData)
        requires
            old(self).wf(),
        ensures
            final(self).wf(),
            final(self)@ == spec_set_wants(old(self)@, user_id, time, wants@),
            ({
                let i = find_user(old(self)@, user_id);
                ud@ == spec_add_wants(
                    if i == -1 {
                        spec_fresh_user(OnlineStatus::Online)
                    } else {
                        old(self)@[i].1
                    },
                    time,
                    wants@,
                )
            }),
    {
        proof {
            broadcast use lemma_find_user, lemma_find_timeframe;

        }
        let ghost model = self@;
        let idx: usize = match find_user_exec(&self.users_data, user_id, Ghost(model)) {
            Some(i) => i,
            None => {
                let fresh = UserData { status: OnlineStatus::Online, time_wants: Vec::new() };
                proof {
                    assert(fresh@.wants =~= Seq::<(Timeframe, Seq<Want>)>::empty());
                }
                self.users_data.push((user_id, fresh));
                self.users_data.len() - 1
            },
        };
        let ghost base: UserV = if find_user(model, user_id) == -1 {
            spec_fresh_user(OnlineStatus::Online)
        } else {
            model[find_user(model, user_id)].1
        };
        proof {
            assert(self.users_data@[idx as int].1@.wants =~= base.wants);
        }
        let pair = self.users_data.remove(idx);
        let uid0 = pair.0;
        let mut ud = pair.1;
        let ghost tw_model = base.wants;
        proof {
            assert(ud@.wants == tw_model);
            assert(ud@.status == base.status);
        }
        let jdx: usize = match find_timeframe_exec(&ud.time_wants, time, Ghost(tw_model)) {
            Some(j) => j,
            None => {
                ud.time_wants.push((time, Vec::new()));
                ud.time_wants.len() - 1
            },
        };
        let pair2 = ud.time_wants.remove(jdx);
        let tf0 = pair2.0;
        let mut wl = pair2.1;
        let ghost wl_before = wl@;
        union_wants(&mut wl, &wants);
        ud.time_wants.insert(jdx, (tf0, wl));
        proof {
            let j = find_timeframe(tw_model, time);
            let target = spec_add_wants(base, time, wants@);
            if j == -1 {
                assert(wl_before =~= Seq::<Want>::empty());
                assert(ud@.wants =~= target.wants);
            } else {
                assert(wl_before == tw_model[j].1);
                assert(ud@.wants =~= target.wants);
            }
            assert(ud@.status == target.status);
        }
        self.users_data.insert(idx, (uid0, ud));
        proof {
            let i = find_user(model, user_id);
            let target = spec_set_wants(model, user_id, time, wants@);
            if i == -1 {
                assert(self@ =~= target);
            } else {
                assert(self@ =~= target);
            }
            lemma_set_wants_wf(model, user_id, time, wants@);
        }
        &self.users_data[idx].1
    }
}

/// `spec_set_wants` preserves well-formedness.
pub proof fn lemma_set_wants_wf(
    users: Seq<(u64, UserV)>,
    id: u64,
    time: Timeframe,
    add: Seq<Want>,
)
    requires
        users_distinct(users),
        forall|i: int| 0 <= i < users.len() ==> (#[trigger] users[i].1).wf(),
    ensures
        users_distinct(spec_set_wants(users, id, time, add)),
        forall|i: int|
            0 <= i < spec_set_wants(users, id, time, add).len() ==> (#[trigger] spec_set_wants(
                users,
                id,
                time,
                add,
            )[i].1).wf(),
{
    broadcast use lemma_find_user, lemma_find_timeframe;

    let i = find_user(users, id);
    let base: UserV = if i == -1 {
        spec_fresh_user(OnlineStatus::Online)
    } else {
        users[i].1
    };
    lemma_add_wants_wf(base, time, add);
}

/// `spec_add_wants` preserves well-formedness of a record.
pub proof fn lemma_add_wants_wf(u: UserV, time: Timeframe, add: Seq<Want>)
    requires
        u.wf(),
    ensures
        spec_add_wants(u, time, add).wf(),
{
    broadcast use lemma_find_timeframe;

    let j = find_timeframe(u.wants, time);
    if j == -1 {
        lemma_union_wants(Seq::empty(), add);
        let w2 = u.wants.push((time, spec_union_wants(Seq::empty(), add)));
        assert(timeframes_distinct(w2));
    } else {
        lemma_union_wants(u.wants[j].1, add);
        let w2 = u.wants.update(j, (time, spec_union_wants(u.wants[j].1, add)));
        assert(timeframes_distinct(w2));
    }
}


/// The store after `set_user_doesnt_want_sh(id)`: the user's wants map is
/// emptied; an unknown user is left alone.
pub open spec fn spec_clear_wants(users: Seq<(u64, UserV)>, id: u64) -> Seq<(u64, UserV)> {
    let i = find_user(users, id);
    if i == -1 {
        users
    } else {
        users.update(i, (id, UserV { status: users[i].1.status, wants: Seq::empty() }))
    }
}

/// The record with its `UntilLogout` entry removed.
pub open spec fn spec_drop_until_logout(u: UserV) -> UserV {
    let j = find_timeframe(u.wants, Timeframe::UntilLogout);
    if j == -1 {
        u
    } else {
        UserV { status: u.status, wants: u.wants.remove(j) }
    }
}

/// The store after `set_user_changed_status(id, status)`: the status is
/// recorded (creating the record if needed), and going offline drops the
/// `UntilLogout` wants at once.
pub open spec fn spec_set_status(
    users: Seq<(u64, UserV)>,
    id: u64,
    status: OnlineStatus,
) -> Seq<(u64, UserV)> {
    let i = find_user(users, id);
    let base: UserV = if i == -1 {
        spec_fresh_user(status)
    } else {
        users[i].1
    };
    let with_status = UserV { status, wants: base.wants };
    let updated = if status == OnlineStatus::Offline {
        spec_drop_until_logout(with_status)
    } else {
        with_status
    };
    if i == -1 {
        users.push((id, updated))
    } else {
        users.update(i, (id, updated))
    }
}

impl ShStatus {
    /// Empties the user's whole wants map; a no-op for an unknown user.
    pub fn set_user_doesnt_want_sh(&mut self, user_id: u64)
        requires
            old(self).wf(),
        ensures
            final(self).wf(),
            final(self)@ == spec_clear_wants(old(self)@, user_id),
    {
        proof {
            broadcast use lemma_find_user;

        }
        let ghost model = self@;
        match find_user_exec(&self.users_data, user_id, Ghost(model)) {
            None => {},
            Some(i) => {
                let pair = self.users_data.remove(i);
                let uid0 = pair.0;
                let mut ud = pair.1;
                ud.time_wants.clear();
                proof {
                    assert(ud@.wants =~= Seq::<(Timeframe, Seq<Want>)>::empty());
                }
                self.users_data.insert(i, (uid0, ud));
                proof {
                    assert(self@ =~= spec_clear_wants(model, user_id));
                }
            },
        }
    }

    /// Records the user's new presence state, creating the record if absent.
    /// Going offline immediately drops the `UntilLogout` wants.
    pub fn set_user_changed_status(&mut self, user_id: u64, status: OnlineStatus)
        requires
            old(self).wf(),
        ensures
            final(self).wf(),
            final(self)@ == spec_set_status(old(self)@, user_id, status),
    {
        proof {
            broadcast use lemma_find_user, lemma_find_timeframe;

        }
        let ghost model = self@;
        match find_user_exec(&self.users_data, user_id, Ghost(model)) {
            None => {
                let fresh = UserData { status, time_wants: Vec::new() };
                proof {
                    assert(fresh@.wants =~= Seq::<(Timeframe, Seq<Want>)>::empty());
                }
                self.users_data.push((user_id, fresh));
                proof {
                    assert(fresh@ =~= spec_fresh_user(status));
                    assert(spec_drop_until_logout(spec_fresh_user(status)) == spec_fresh_user(
                        status,
                    ));
                    assert(self@ =~= spec_set_status(model, user_id, status));
                }
            },
            Some(i) => {
                let ghost base = model[i as int].1;
                let pair = self.users_data.remove(i);
                let uid0 = pair.0;
                let mut ud = pair.1;
                ud.status = status;
                proof {
                    assert(ud@.wants =~= base.wants);
                }
                if matches!(status, OnlineStatus::Offline) {
                    let ghost tw_model = ud@.wants;
                    match find_timeframe_exec(&ud.time_wants, Timeframe::UntilLogout, Ghost(tw_model)) {
                        None => {},
                        Some(j) => {
                            ud.time_wants.remove(j);
                            proof {
                                assert(ud@.wants =~= tw_model.remove(j as int));
                            }
                        },
                    }
                }
                self.users_data.insert(i, (uid0, ud));
                proof {
                    let with_status = UserV { status, wants: base.wants };
                    assert(ud@ =~= spec_set_status(model, user_id, status)[i as int].1) by {
                        if status == OnlineStatus::Offline {
                            let j = find_timeframe(base.wants, Timeframe::UntilLogout);
                            if j == -1 {
                                assert(ud@.wants =~= base.wants);
                            }
                        }
                    }
                    assert(self@ =~= spec_set_status(model, user_id, status));
                    lemma_remove_keeps_wf(base, status);
                }
            },
        }
    }
}

/// Dropping the `UntilLogout` entry keeps a record well formed.
proof fn lemma_remove_keeps_wf(base: UserV, status: OnlineStatus)
    requires
        base.wf(),
    ensures
        (UserV { status, wants: base.wants }).wf(),
        spec_drop_until_logout(UserV { status, wants: base.wants }).wf(),
{
    broadcast use lemma_find_timeframe;

    let u = UserV { status, wants: base.wants };
    let j = find_timeframe(u.wants, Timeframe::UntilLogout);
    if j != -1 {
        let w2 = u.wants.remove(j);
        assert forall|a: int, b: int| 0 <= a < b < w2.len() implies w2[a].0 != w2[b].0 by {
            assert(w2[a] == (if a < j { u.wants[a] } else { u.wants[a + 1] }));
            assert(w2[b] == (if b < j { u.wants[b] } else { u.wants[b + 1] }));
        }
        assert forall|a: int| 0 <= a < w2.len() implies wants_distinct(#[trigger] w2[a].1) by {
            assert(w2[a] == (if a < j { u.wants[a] } else { u.wants[a + 1] }));
        }
    }
}


/// A timeframe survives cleanup at `now` unless it is an expired timespan.
pub open spec fn spec_keep_tf(tf: Timeframe, now: Timespec) -> bool {
    match tf {
        Timeframe::Timespan { until } => spec_ts_after(until, now),
        _ => true,
    }
}

/// The wants map with expired timespan keys deleted, in order.
pub open spec fn spec_retain_valid(
    w: Seq<(Timeframe, Seq<Want>)>,
    now: Timespec,
) -> Seq<(Timeframe, Seq<Want>)>
    decreases w.len(),
{
    if w.len() == 0 {
        Seq::empty()
    } else {
        let rest = spec_retain_valid(w.drop_first(), now);
        if spec_keep_tf(w[0].0, now) {
            seq![w[0]] + rest
        } else {
            rest
        }
    }
}

/// One record after expiry cleanup.
pub open spec fn spec_cleanup_user(u: UserV, now: Timespec) -> UserV {
    UserV { status: u.status, wants: spec_retain_valid(u.wants, now) }
}

/// The whole store after expiry cleanup.
pub open spec fn spec_cleanup(users: Seq<(u64, UserV)>, now: Timespec) -> Seq<(u64, UserV)> {
    Seq::new(users.len(), |i: int| (users[i].0, spec_cleanup_user(users[i].1, now)))
}

/// An online user with a non-empty wants map counts toward the total.
pub open spec fn user_is_wanting(u: UserV) -> bool {
    u.status == OnlineStatus::Online && u.wants.len() > 0
}

/// Some want in some timeframe of the record carries this tier.
pub open spec fn record_has_tier(u: UserV, t: Tier) -> bool {
    exists|i: int, j: int|
        0 <= i < u.wants.len() && 0 <= j < u.wants[i].1.len() && u.wants[i].1[j].tier == t
}

/// An online user counts toward a tier when any of its wants carries it.
pub open spec fn user_wants_tier(u: UserV, t: Tier) -> bool {
    u.status == OnlineStatus::Online && record_has_tier(u, t)
}

/// How many users count toward the total.
pub open spec fn count_wanting(users: Seq<(u64, UserV)>) -> nat
    decreases users.len(),
{
    if users.len() == 0 {
        0
    } else {
        count_wanting(users.drop_last()) + if user_is_wanting(users.last().1) {
            1nat
        } else {
            0nat
        }
    }
}

/// How many users count toward a tier.
pub open spec fn count_tier(users: Seq<(u64, UserV)>, t: Tier) -> nat
    decreases users.len(),
{
    if users.len() == 0 {
        0
    } else {
        count_tier(users.drop_last(), t) + if user_wants_tier(users.last().1, t) {
            1nat
        } else {
            0nat
        }
    }
}

proof fn lemma_count_bounds(users: Seq<(u64, UserV)>, t: Tier)
    ensures
        count_wanting(users) <= users.len(),
        count_tier(users, t) <= users.len(),
    decreases users.len(),
{
    if users.len() > 0 {
        lemma_count_bounds(users.drop_last(), t);
    }
}

/// Cleanup keeps a record well formed.
proof fn lemma_retain_valid_wf(w: Seq<(Timeframe, Seq<Want>)>, now: Timespec)
    requires
        timeframes_distinct(w),
        forall|i: int| 0 <= i < w.len() ==> wants_distinct(#[trigger] w[i].1),
    ensures
        timeframes_distinct(spec_retain_valid(w, now)),
        forall|j: int|
            0 <= j < spec_retain_valid(w, now).len() ==> w.contains(
                #[trigger] spec_retain_valid(w, now)[j],
            ),
        forall|j: int|
            0 <= j < spec_retain_valid(w, now).len() ==> wants_distinct(
                #[trigger] spec_retain_valid(w, now)[j].1,
            ),
    decreases w.len(),
{
    if w.len() > 0 {
        let d = w.drop_first();
        assert forall|a: int, b: int| 0 <= a < b < d.len() implies d[a].0 != d[b].0 by {
            assert(d[a] == w[a + 1] && d[b] == w[b + 1]);
        }
        assert forall|a: int| 0 <= a < d.len() implies wants_distinct(#[trigger] d[a].1) by {
            assert(d[a] == w[a + 1]);
        }
        lemma_retain_valid_wf(d, now);
        let rest = spec_retain_valid(d, now);
        let r = spec_retain_valid(w, now);
        assert forall|j: int| 0 <= j < rest.len() implies w.contains(#[trigger] rest[j]) by {
            assert(d.contains(rest[j]));
            let k = choose|k: int| 0 <= k < d.len() && d[k] == rest[j];
            assert(w[k + 1] == rest[j]);
        }
        if spec_keep_tf(w[0].0, now) {
            assert(r == seq![w[0]] + rest);
            assert forall|a: int, b: int| 0 <= a < b < r.len() implies r[a].0 != r[b].0 by {
                if a == 0 {
                    assert(r[b] == rest[b - 1]);
                    assert(w.contains(rest[b - 1]));
                    let k = choose|k: int| 0 <= k < w.len() && w[k] == rest[b - 1];
                    assert(d.contains(rest[b - 1]));
                    let k2 = choose|k2: int| 0 <= k2 < d.len() && d[k2] == rest[b - 1];
                    assert(w[k2 + 1] == rest[b - 1]);
                    assert(w[0].0 != w[k2 + 1].0);
                } else {
                    assert(r[a] == rest[a - 1] && r[b] == rest[b - 1]);
                }
            }
            assert forall|j: int| 0 <= j < r.len() implies w.contains(#[trigger] r[j]) by {
                if j == 0 {
                    assert(w[0] == r[0]);
                } else {
                    assert(r[j] == rest[j - 1]);
                }
            }
        }
    }
}

/// Retains only the still-valid timeframes of one record's wants map.
#[verifier::loop_isolation(false)]
fn retain_valid_exec(tw: Vec<(Timeframe, Vec<Want>)>, now: Timespec, Ghost(m): Ghost<
    Seq<(Timeframe, Seq<Want>)>>) -> (out: Vec<(Timeframe, Vec<Want>)>)
    requires
        m.len() == tw@.len(),
        forall|i: int| 0 <= i < tw@.len() ==> #[trigger] m[i] == (tw@[i].0, tw@[i].1@),
    ensures
        out@.len() == spec_retain_valid(m, now).len(),
        forall|i: int|
            0 <= i < out@.len() ==> #[trigger] spec_retain_valid(m, now)[i] == (
            out@[i].0,
            out@[i].1@,
            ),
{
    let mut out: Vec<(Timeframe, Vec<Want>)> = Vec::new();
    let mut src = tw;
    let ghost done: Seq<(Timeframe, Seq<Want>)> = Seq::empty();
    let ghost rem: Seq<(Timeframe, Seq<Want>)> = m;
    proof {
        assert(spec_retain_valid(m, now) =~= spec_retain_valid(done, now) + spec_retain_valid(
            rem,
            now,
        ));
    }
    while src.len() > 0
        invariant
            rem.len() == src@.len(),
            forall|i: int| 0 <= i < src@.len() ==> #[trigger] rem[i] == (src@[i].0, src@[i].1@),
            spec_retain_valid(m, now) =~= ({
                let o = Seq::new(out@.len(), |i: int| (out@[i].0, out@[i].1@));
                o + spec_retain_valid(rem, now)
            }),
        decreases src@.len(),
    {
        let e = src.remove(0);
        let ghost e_model = rem[0];
        let ghost out_model = Seq::new(out@.len(), |i: int| (out@[i].0, out@[i].1@));
        let keep = match e.0 {
            Timeframe::Timespan { until } => ts_after(until, now),
            _ => true,
        };
        proof {
            assert(keep == spec_keep_tf(e_model.0, now));
            assert(rem.drop_first().len() == src@.len());
        }
        if keep {
            out.push(e);
            proof {
                let o2 = Seq::new(out@.len(), |i: int| (out@[i].0, out@[i].1@));
                assert(o2 =~= out_model.push(e_model));
                assert(out_model + spec_retain_valid(rem, now) =~= o2 + spec_retain_valid(
                    rem.drop_first(),
                    now,
                ));
            }
        } else {
            proof {
                assert(out_model + spec_retain_valid(rem, now) =~= out_model + spec_retain_valid(
                    rem.drop_first(),
                    now,
                ));
            }
        }
        proof {
            rem = rem.drop_first();
            assert(forall|i: int|
                0 <= i < src@.len() ==> #[trigger] rem[i] == (src@[i].0, src@[i].1@));
        }
    }
    proof {
        assert(spec_retain_valid(rem, now) =~= Seq::<(Timeframe, Seq<Want>)>::empty());
        let o = Seq::new(out@.len(), |i: int| (out@[i].0, out@[i].1@));
        assert(spec_retain_valid(m, now) =~= o);
    }
    out
}

/// Whether any want in the record carries `t`.
fn has_tier(ud: &UserData, t: Tier) -> (r: bool)
    ensures
        r == record_has_tier(ud@, t),
{
    let mut i: usize = 0;
    while i < ud.time_wants.len()
        invariant
            0 <= i <= ud.time_wants@.len(),
            forall|a: int, b: int|
                0 <= a < i && 0 <= b < ud.time_wants@[a].1@.len() ==> (
                #[trigger] ud.time_wants@[a].1@[b]).tier != t,
        decreases ud.time_wants@.len() - i,
    {
        let wl = &ud.time_wants[i].1;
        let mut j: usize = 0;
        while j < wl.len()
            invariant
                0 <= j <= wl@.len(),
                wl@ == ud.time_wants@[i as int].1@,
                i < ud.time_wants@.len(),
                forall|b: int| 0 <= b < j ==> (#[trigger] wl@[b]).tier != t,
            decreases wl@.len() - j,
        {
            if tier_eq(wl[j].tier, t) {
                proof {
                    assert(ud@.wants[i as int].1[j as int].tier == t);
                }
                return true;
            }
            j = j + 1;
        }
        i = i + 1;
    }
    proof {
        if record_has_tier(ud@, t) {
            let (a, b) = choose|a: int, b: int|
                0 <= a < ud@.wants.len() && 0 <= b < ud@.wants[a].1.len() && ud@.wants[a].1[b].tier
                    == t;
            assert(ud.time_wants@[a].1@[b].tier == t);
        }
    }
    false
}

fn tier_eq(a: Tier, b: Tier) -> (r: bool)
    ensures
        r == (a == b),
{
    match (a, b) {
        (Tier::Tier6, Tier::Tier6) => true,
        (Tier::Tier8, Tier::Tier8) => true,
        (Tier::Tier10, Tier::Tier10) => true,
        _ => false,
    }
}

impl ShStatus {
    /// Computes the status report as of `now`: first deletes every expired
    /// timespan entry, then counts the online users with active wants, per
    /// tier and in total.
    #[verifier::loop_isolation(false)]
    pub fn get_current_status_at(&mut self, now: Timespec) -> (r: StatusReport)
        requires
            old(self).wf(),
        ensures
            final(self).wf(),
            final(self)@ == spec_cleanup(old(self)@, now),
            r.num_wanting_total == count_wanting(final(self)@),
            r.num_wanting_t6 == count_tier(final(self)@, Tier::Tier6),
            r.num_wanting_t8 == count_tier(final(self)@, Tier::Tier8),
            r.num_wanting_t10 == count_tier(final(self)@, Tier::Tier10),
    {
        proof {
            broadcast use lemma_find_user;

        }
        let ghost model = self@;
        let n = self.users_data.len();
        let mut k: usize = 0;
        while k < n
            invariant
                n == self.users_data@.len(),
                self@.len() == model.len() == n,
                forall|i: int| k <= i < n ==> self@[i] == model[i],
                forall|i: int| 0 <= i < k ==> self@[i] == #[trigger] spec_cleanup(model, now)[i],
            decreases n - k,
        {
            let ghost before = self@;
            let pair = self.users_data.remove(k);
            let uid0 = pair.0;
            let ud = pair.1;
            let ghost u_model = model[k as int].1;
            proof {
                assert(ud@ == before[k as int].1);
                assert(ud@ == u_model);
            }
            let status0 = ud.status;
            let tw = ud.time_wants;
            let ghost tw_model = u_model.wants;
            let cleaned = retain_valid_exec(tw, now, Ghost(tw_model));
            let new_ud = UserData { status: status0, time_wants: cleaned };
            proof {
                assert(new_ud@.wants =~= spec_retain_valid(tw_model, now));
                assert(new_ud@ =~= spec_cleanup_user(u_model, now));
            }
            self.users_data.insert(k, (uid0, new_ud));
            proof {
                assert(self@ =~= before.update(k as int, (model[k as int].0, spec_cleanup_user(
                    u_model,
                    now,
                ))));
                assert(self@[k as int] == spec_cleanup(model, now)[k as int]);
            }
            k = k + 1;
        }
        proof {
            assert(self@ =~= spec_cleanup(model, now));
            assert forall|i: int| 0 <= i < self@.len() implies (#[trigger] self@[i].1).wf() by {
                assert(model[i].1.wf());
                lemma_retain_valid_wf(model[i].1.wants, now);
            }
        }
        let ghost cleaned_model = self@;
        let mut total: usize = 0;
        let mut n6: usize = 0;
        let mut n8: usize = 0;
        let mut n10: usize = 0;
        let mut k: usize = 0;
        while k < n
            invariant
                n == self.users_data@.len(),
                self@ == cleaned_model,
                total == count_wanting(cleaned_model.take(k as int)),
                n6 == count_tier(cleaned_model.take(k as int), Tier::Tier6),
                n8 == count_tier(cleaned_model.take(k as int), Tier::Tier8),
                n10 == count_tier(cleaned_model.take(k as int), Tier::Tier10),
                total <= k && n6 <= k && n8 <= k && n10 <= k,
                0 <= k <= n,
            decreases n - k,
        {
            let ud = &self.users_data[k].1;
            proof {
                assert(ud@ == cleaned_model[k as int].1);
            }
            let online = matches!(ud.status, OnlineStatus::Online);
            proof {
                assert(online == (ud@.status == OnlineStatus::Online));
            }
            if online && ud.time_wants.len() > 0 {
                total = total + 1;
            }
            if online {
                if has_tier(ud, Tier::Tier6) {
                    n6 = n6 + 1;
                }
                if has_tier(ud, Tier::Tier8) {
                    n8 = n8 + 1;
                }
                if has_tier(ud, Tier::Tier10) {
                    n10 = n10 + 1;
                }
            }
            proof {
                let t = cleaned_model.take(k as int + 1);
                assert(t.drop_last() =~= cleaned_model.take(k as int));
                assert(t.last() == cleaned_model[k as int]);
            }
            k = k + 1;
        }
        proof {
            assert(cleaned_model.take(n as int) =~= cleaned_model);
        }
        StatusReport { num_wanting_total: total, num_wanting_t6: n6, num_wanting_t8: n8, num_wanting_t10: n10 }
    }

    /// Computes the status report as of the system clock.
    pub fn get_current_status(&mut self) -> (r: StatusReport)
        requires
            old(self).wf(),
        ensures
            final(self).wf(),
            exists|now: Timespec|
                {
                    &&& #[trigger] spec_cleanup(old(self)@, now) == final(self)@
                    &&& r.num_wanting_total == count_wanting(final(self)@)
                    &&& r.num_wanting_t6 == count_tier(final(self)@, Tier::Tier6)
                    &&& r.num_wanting_t8 == count_tier(final(self)@, Tier::Tier8)
                    &&& r.num_wanting_t10 == count_tier(final(self)@, Tier::Tier10)
                },
    {
        let now = now_timespec();
        let r = self.get_current_status_at(now);
        proof {
            assert(spec_cleanup(old(self)@, now) == final(self)@);
        }
        r
    }
}

/// Relies on time::get_time: the current time as seconds since the epoch,
/// with the nanosecond offset normalized into [0, 1e9).
#[verifier::external_body]
fn now_timespec() -> (t: Timespec)
    ensures
        0 <= t.nsec < 1_000_000_000,
{
    let ts = time::get_time();
    Timespec { sec: ts.sec, nsec: ts.nsec }
}


impl ShStatus {
    /// Serializes the store as `[version, mapping(userId -> UserData)]`.
    pub fn encode(&self) -> (v: Value)
        ensures
            is_enc_sh(v, self@),
    {
        let mut obj: Vec<(String, Value)> = Vec::new();
        let mut i: usize = 0;
        while i < self.users_data.len()
            invariant
                0 <= i <= self.users_data@.len(),
                obj@.len() == i,
                forall|j: int|
                    0 <= j < i ==> (#[trigger] obj@[j]).0@ == crate::numbers::dec_digits(
                        self.users_data@[j].0 as nat,
                    ) && crate::codec::is_enc_user(obj@[j].1, self.users_data@[j].1@),
            decreases self.users_data@.len() - i,
        {
            let key = u64_to_string(self.users_data[i].0);
            let val = self.users_data[i].1.encode();
            obj.push((key, val));
            i = i + 1;
        }
        let mut items: Vec<Value> = Vec::new();
        items.push(Value::U64(SERIALIZATION_VERSION));
        items.push(Value::Obj(obj));
        proof {
            assert forall|j: int| 0 <= j < self@.len() implies (#[trigger] self@[j]) == (
            self.users_data@[j].0, self.users_data@[j].1@) by {}
        }
        Value::List(items)
    }

    /// Reads a store back from its encoding; a wrong version tag or a
    /// malformed tree is a hard failure.
    pub fn decode(v: &Value) -> (r: Result<ShStatus, DecodeError>)
        ensures
            match r {
                Ok(st) => spec_decode_sh(*v) == Ok::<Seq<(u64, UserV)>, DecodeError>(st@)
                    && st.wf(),
                Err(e) => spec_decode_sh(*v) == Err::<Seq<(u64, UserV)>, DecodeError>(e),
            },
    {
        match v {
            Value::List(items) => {
                if items.len() != 2 {
                    return Err(DecodeError::Malformed);
                }
                let ver = match &items[0] {
                    Value::U64(ver) => *ver,
                    _ => {
                        return Err(DecodeError::Malformed);
                    },
                };
                if ver != SERIALIZATION_VERSION {
                    return Err(DecodeError::InvalidVersion { found: ver });
                }
                match &items[1] {
                    Value::Obj(entries) => match decode_users(entries) {
                        Ok(users) => {
                            let st = ShStatus { users_data: users };
                            proof {
                                assert(st@ =~= Seq::new(
                                    st.users_data@.len(),
                                    |i: int| (st.users_data@[i].0, st.users_data@[i].1@),
                                ));
                            }
                            Ok(st)
                        },
                        Err(e) => Err(e),
                    },
                    _ => Err(DecodeError::Malformed),
                }
            },
            _ => Err(DecodeError::Malformed),
        }
    }
}


/// Whether one record satisfies its well-formedness conditions.
#[verifier::loop_isolation(false)]
fn check_user_wf(ud: &UserData) -> (b: bool)
    ensures
        b == ud@.wf(),
{
    let m = ud.time_wants.len();
    let mut a: usize = 0;
    while a < m
        invariant
            0 <= a <= m,
            m == ud.time_wants@.len(),
            forall|x: int, y: int|
                0 <= x < y < a ==> (#[trigger] ud@.wants[x]).0 != (#[trigger] ud@.wants[y]).0,
            forall|x: int| 0 <= x < a ==> wants_distinct((#[trigger] ud@.wants[x]).1),
        decreases m - a,
    {
        let mut b: usize = 0;
        while b < a
            invariant
                0 <= b <= a < m,
                m == ud.time_wants@.len(),
                forall|y: int| 0 <= y < b ==> (#[trigger] ud@.wants[y]).0 != ud@.wants[a as int].0,
            decreases a - b,
        {
            if timeframe_eq(&ud.time_wants[b].0, &ud.time_wants[a].0) {
                proof {
                    assert(ud@.wants[b as int].0 == ud@.wants[a as int].0);
                }
                return false;
            }
            b = b + 1;
        }
        let wl = &ud.time_wants[a].1;
        let mut j: usize = 0;
        while j < wl.len()
            invariant
                0 <= j <= wl@.len(),
                a < m,
                m == ud.time_wants@.len(),
                wl@ == ud.time_wants@[a as int].1@,
                forall|x: int, y: int| 0 <= x < y < j ==> wl@[x] != wl@[y],
            decreases wl@.len() - j,
        {
            let mut k: usize = 0;
            while k < j
                invariant
                    0 <= k <= j < wl@.len(),
                    forall|x: int| 0 <= x < k ==> wl@[x] != wl@[j as int],
                decreases j - k,
            {
                if wl[k].tier == wl[j].tier {
                    proof {
                        assert(ud@.wants[a as int].1[k as int] == ud@.wants[a as int].1[j as int]);
                        assert(!wants_distinct(ud@.wants[a as int].1));
                    }
                    return false;
                }
                k = k + 1;
            }
            j = j + 1;
        }
        proof {
            assert(wants_distinct(ud@.wants[a as int].1));
        }
        a = a + 1;
    }
    proof {
        assert(timeframes_distinct(ud@.wants));
    }
    true
}

impl ShStatus {
    /// Builds a store from a list of records, refusing duplicate user ids
    /// and ill-formed records.
    #[verifier::loop_isolation(false)]
    pub fn from_users(users: Vec<(u64, UserData)>) -> (r: Option<ShStatus>)
        ensures
            ({
                let m = Seq::new(users@.len(), |i: int| (users@[i].0, users@[i].1@));
                match r {
                    Some(st) => st@ == m && st.wf(),
                    None => !(users_distinct(m) && forall|i: int|
                        0 <= i < m.len() ==> (#[trigger] m[i].1).wf()),
                }
            }),
    {
        let ghost m = Seq::new(users@.len(), |i: int| (users@[i].0, users@[i].1@));
        let n = users.len();
        let mut i: usize = 0;
        while i < n
            invariant
                0 <= i <= n,
                n == users@.len(),
                m == Seq::new(users@.len(), |k: int| (users@[k].0, users@[k].1@)),
                forall|x: int, y: int| 0 <= x < y < i ==> (#[trigger] m[x]).0 != (#[trigger] m[y]).0,
                forall|x: int| 0 <= x < i ==> (#[trigger] m[x]).1.wf(),
            decreases n - i,
        {
            let mut j: usize = 0;
            while j < i
                invariant
                    0 <= j <= i < n,
                    n == users@.len(),
                    m == Seq::new(users@.len(), |k: int| (users@[k].0, users@[k].1@)),
                    forall|y: int| 0 <= y < j ==> (#[trigger] m[y]).0 != m[i as int].0,
                decreases i - j,
            {
                if users[j].0 == users[i].0 {
                    proof {
                        assert(m[j as int].0 == m[i as int].0);
                        assert(!users_distinct(m));
                    }
                    return None;
                }
                j = j + 1;
            }
            if !check_user_wf(&users[i].1) {
                proof {
                    assert(!m[i as int].1.wf());
                }
                return None;
            }
            i = i + 1;
        }
        let st = ShStatus { users_data: users };
        proof {
            assert(st@ =~= m);
        }
        Some(st)
    }
}

} // verus!

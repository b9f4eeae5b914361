use vstd::prelude::*;

verus! {

/// A fixed scheduling category.
#[derive(Clone, Copy, PartialEq, Eq, Structural, Debug)]
pub enum Tier {
    Tier6,
    Tier8,
    Tier10,
}

/// A recorded desire for a specific scheduling tier.
#[derive(Clone, Copy, PartialEq, Eq, Structural, Debug)]
pub struct Want {
    pub tier: Tier,
}

/// A point in time: seconds since the epoch plus a nanosecond offset.
#[derive(Clone, Copy, PartialEq, Eq, Structural, Debug)]
pub struct Timespec {
    pub sec: i64,
    pub nsec: i32,
}

/// `a` is strictly later than `b`.
pub open spec fn spec_ts_after(a: Timespec, b: Timespec) -> bool {
    a.sec > b.sec || (a.sec == b.sec && a.nsec > b.nsec)
}

pub fn ts_after(a: Timespec, b: Timespec) -> (r: bool)
    ensures
        r == spec_ts_after(a, b),
{
    a.sec > b.sec || (a.sec == b.sec && a.nsec > b.nsec)
}

/// The validity window of a recorded want.
#[derive(Clone, Copy, PartialEq, Eq, Structural, Debug)]
pub enum Timeframe {
    Always,
    UntilLogout,
    Timespan { until: Timespec },
}

/// A user's presence state as reported by the chat platform.
#[derive(Clone, Copy, PartialEq, Eq, Structural, Debug)]
pub enum OnlineStatus {
    Online,
    Idle,
    Offline,
}

/// An aggregate, point-in-time count of online users with active wants,
/// broken down by tier.
#[derive(Clone, Copy, PartialEq, Eq, Structural, Debug)]
pub struct StatusReport {
    pub num_wanting_total: usize,
    pub num_wanting_t6: usize,
    pub num_wanting_t8: usize,
    pub num_wanting_t10: usize,
}

/// Mathematical model of one user's record: presence state plus the wants
/// recorded per timeframe, in insertion order.
pub struct UserV {
    pub status: OnlineStatus,
    pub wants: Seq<(Timeframe, Seq<Want>)>,
}

/// One user's record: presence state plus the wants recorded per timeframe.
#[derive(PartialEq, Eq, Debug)]
pub struct UserData {
    pub status: OnlineStatus,
    pub time_wants: Vec<(Timeframe, Vec<Want>)>,
}

impl View for UserData {
    type V = UserV;

    open spec fn view(&self) -> UserV {
        UserV {
            status: self.status,
            wants: Seq::new(
                self.time_wants@.len(),
                |i: int| (self.time_wants@[i].0, self.time_wants@[i].1@),
            ),
        }
    }
}

/// No want occurs twice in the list.
pub open spec fn wants_distinct(ws: Seq<Want>) -> bool {
    forall|i: int, j: int| 0 <= i < j < ws.len() ==> ws[i] != ws[j]
}

/// No timeframe occurs twice as a key.
pub open spec fn timeframes_distinct(w: Seq<(Timeframe, Seq<Want>)>) -> bool {
    forall|i: int, j: int| 0 <= i < j < w.len() ==> w[i].0 != w[j].0
}

impl UserV {
    /// Well-formedness: the per-timeframe map has distinct keys, and each
    /// want set has no duplicates.
    pub open spec fn wf(self) -> bool {
        &&& timeframes_distinct(self.wants)
        &&& forall|i: int| 0 <= i < self.wants.len() ==> wants_distinct(#[trigger] self.wants[i].1)
    }
}

/// Index of `time` among the keys of `w`, or `-1`.
pub open spec fn find_timeframe(w: Seq<(Timeframe, Seq<Want>)>, time: Timeframe) -> int
    decreases w.len(),
{
    if w.len() == 0 {
        -1
    } else if w[0].0 == time {
        0
    } else {
        let r = find_timeframe(w.drop_first(), time);
        if r == -1 {
            -1
        } else {
            r + 1
        }
    }
}

pub broadcast proof fn lemma_find_timeframe(w: Seq<(Timeframe, Seq<Want>)>, time: Timeframe)
    ensures
        -1 <= #[trigger] find_timeframe(w, time) < w.len(),
        find_timeframe(w, time) >= 0 ==> w[find_timeframe(w, time)].0 == time,
        find_timeframe(w, time) == -1 ==> forall|i: int| 0 <= i < w.len() ==> w[i].0 != time,
        forall|i: int| 0 <= i < find_timeframe(w, time) ==> w[i].0 != time,
    decreases w.len(),
{
    if w.len() > 0 && w[0].0 != time {
        lemma_find_timeframe(w.drop_first(), time);
        assert forall|i: int| 0 < i < w.len() implies w.drop_first()[i - 1] == w[i] by {}
    }
}

/// The request produced by the parser, as seen by specifications.
pub enum RequestV {
    Nothing,
    Unknown,
    Echo { msg: Seq<char> },
    Help,
    Want { time: Timeframe, wants: Seq<Want> },
    DontWant,
    Status,
}

/// The request produced by the parser: its sole output.
#[derive(PartialEq, Eq, Debug)]
pub enum Request {
    Nothing,
    Unknown,
    Echo { echo_msg: String },
    Help,
    Want { time: Timeframe, wants: Vec<Want> },
    DontWant,
    Status,
}

impl View for Request {
    type V = RequestV;

    open spec fn view(&self) -> RequestV {
        match self {
            Request::Nothing => RequestV::Nothing,
            Request::Unknown => RequestV::Unknown,
            Request::Echo { echo_msg } => RequestV::Echo { msg: echo_msg@ },
            Request::Help => RequestV::Help,
            Request::Want { time, wants } => RequestV::Want { time: *time, wants: wants@ },
            Request::DontWant => RequestV::DontWant,
            Request::Status => RequestV::Status,
        }
    }
}

} // verus!

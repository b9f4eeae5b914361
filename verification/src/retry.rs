use vstd::prelude::*;

verus! {

/// A failure reported by the external transport, as the retry logic sees
/// it: rate limiting with a prescribed delay, or anything else with a
/// description.
pub enum TransportError {
    RateLimited { delay_millis: u64 },
    Other { description: String },
}

/// What the caller of a resilient operation should do after a failure.
pub enum RetryAction {
    RetryAfterMillis { millis: u64 },
    GiveUp { message: String },
}

/// Bounded-retry state for one resilient call: how many attempts remain and
/// the message to fail with once none does.
pub struct Retrier {
    tries_left: u32,
    last_error: String,
}

impl Retrier {
    /// How many attempts remain.
    pub closed spec fn tries(&self) -> int {
        self.tries_left as int
    }

    /// The message a failure would carry now.
    pub closed spec fn message(&self) -> Seq<char> {
        self.last_error@
    }

    /// The failure message before any non-rate-limit error was seen.
    pub open spec fn spec_default_message() -> Seq<char> {
        "Maximum number of retries exceeded."@
    }

    pub fn new(max_tries: u32) -> (r: Self)
        ensures
            r.tries() == max_tries,
            r.message() == Self::spec_default_message(),
    {
        Retrier {
            tries_left: max_tries,
            last_error: "Maximum number of retries exceeded.".to_owned(),
        }
    }

    /// Whether the operation may be attempted (again).
    pub fn may_attempt(&self) -> (b: bool)
        ensures
            b == (self.tries() > 0),
    {
        self.tries_left > 0
    }

    /// The message to fail with once no attempts remain.
    pub fn failure_message(&self) -> (m: String)
        ensures
            m@ == self.message(),
    {
        self.last_error.clone()
    }

    /// Digests one failure. Rate limiting asks for the server-prescribed
    /// sleep and costs no attempt; any other failure asks for a one-second
    /// sleep, costs one attempt, and its description becomes the failure
    /// message — handed out at once when it used up the last attempt.
    pub fn on_error(&mut self, err: TransportError) -> (a: RetryAction)
        requires
            old(self).tries() > 0,
        ensures
            match err {
                TransportError::RateLimited { delay_millis } => {
                    &&& final(self).tries() == old(self).tries()
                    &&& final(self).message() == old(self).message()
                    &&& a matches RetryAction::RetryAfterMillis { millis } && millis
                        == delay_millis
                },
                TransportError::Other { description } => {
                    &&& final(self).tries() == old(self).tries() - 1
                    &&& final(self).message() == description@
                    &&& if old(self).tries() == 1 {
                        a matches RetryAction::GiveUp { message } && message@ == description@
                    } else {
                        a matches RetryAction::RetryAfterMillis { millis } && millis == 1000
                    }
                },
            },
    {
        match err {
            TransportError::RateLimited { delay_millis } => RetryAction::RetryAfterMillis {
                millis: delay_millis,
            },
            TransportError::Other { description } => {
                self.tries_left = self.tries_left - 1;
                self.last_error = description.clone();
                if self.tries_left == 0 {
                    RetryAction::GiveUp { message: description }
                } else {
                    RetryAction::RetryAfterMillis { millis: 1000 }
                }
            },
        }
    }
}

} // verus!

use vstd::prelude::*;

use crate::common::spec_head_tail;
use crate::common::str_eq_exact;
use crate::common::str_head_tail;
use crate::message_parser::now_fits;
use crate::message_parser::parse_message;
use crate::message_parser::spec_parse;
use crate::model::Request;
use crate::model::RequestV;
use crate::model::Tier;
use crate::model::Timespec;
use crate::replier;
use crate::replier::spec_dont_want_reply;
use crate::replier::spec_echo_reply;
use crate::replier::spec_help_reply;
use crate::replier::spec_status_reply;
use crate::replier::spec_unknown_reply;
use crate::replier::spec_want_reply;
use crate::sh_status::ShStatus;
use crate::sh_status::count_tier;
use crate::sh_status::count_wanting;
use crate::sh_status::find_user;
use crate::sh_status::spec_add_wants;
use crate::sh_status::spec_cleanup;
use crate::sh_status::spec_clear_wants;
use crate::sh_status::spec_fresh_user;
use crate::sh_status::spec_set_wants;
use crate::model::OnlineStatus;

verus! {

/// What kind of channel a message arrived on, as far as addressing is
/// concerned.
#[derive(Clone, Copy, PartialEq, Eq, Structural, Debug)]
pub enum ChannelKind {
    Public,
    Private,
}

/// Decides whether a message is addressed to the bot, and with what body:
/// own messages are ignored; on a public channel the body must start with
/// the bot command, which is stripped; on a private channel everything is
/// handled as it stands.
pub fn message_concerns_me(author_is_me: bool, channel: ChannelKind, content: &str) -> (r: (
    bool,
    String,
))
    ensures
        author_is_me ==> !r.0 && r.1@ == content@,
        !author_is_me && channel == ChannelKind::Private ==> r.0 && r.1@ == content@,
        !author_is_me && channel == ChannelKind::Public ==> {
            let ht = spec_head_tail(content@);
            if ht.0 == ".sh"@ {
                r.0 && r.1@ == ht.1
            } else {
                !r.0 && r.1@ == content@
            }
        },
{
    if author_is_me {
        return (false, content.to_owned());
    }
    match channel {
        ChannelKind::Private => (true, content.to_owned()),
        ChannelKind::Public => {
            let ht = str_head_tail(content);
            if str_eq_exact(ht.0.as_str(), ".sh") {
                (true, ht.1)
            } else {
                (false, content.to_owned())
            }
        },
    }
}

/// Runs one message through the pipeline: parses the body, applies the
/// request to the store, and renders the reply text, if any.
pub fn handle_message(
    sh_status: &mut ShStatus,
    author_id: u64,
    author_name: &str,
    content: &str,
    now: Timespec,
) -> (reply: Option<String>)
    requires
        old(sh_status).wf(),
        now_fits(now),
    ensures
        final(sh_status).wf(),
        match spec_parse(content@, now) {
            RequestV::Nothing => final(sh_status)@ == old(sh_status)@ && reply is None,
            RequestV::Unknown => final(sh_status)@ == old(sh_status)@ && (reply matches Some(r)
                && r@ == spec_unknown_reply(content@)),
            RequestV::Echo { msg } => final(sh_status)@ == old(sh_status)@ && (reply matches Some(
                r,
            ) && r@ == spec_echo_reply(author_name@, msg)),
            RequestV::Help => final(sh_status)@ == old(sh_status)@ && (reply matches Some(r) && r@
                == spec_help_reply()),
            RequestV::Want { time, wants } => {
                &&& final(sh_status)@ == spec_set_wants(old(sh_status)@, author_id, time, wants)
                &&& reply matches Some(r) && r@ == spec_want_reply(
                    spec_add_wants(
                        {
                            let i = find_user(old(sh_status)@, author_id);
                            if i == -1 {
                                spec_fresh_user(OnlineStatus::Online)
                            } else {
                                old(sh_status)@[i].1
                            }
                        },
                        time,
                        wants,
                    ),
                )
            },
            RequestV::DontWant => final(sh_status)@ == spec_clear_wants(
                old(sh_status)@,
                author_id,
            ) && (reply matches Some(r) && r@ == spec_dont_want_reply()),
            RequestV::Status => {
                &&& final(sh_status)@ == spec_cleanup(old(sh_status)@, now)
                &&& reply matches Some(r) && r@ == spec_status_reply(
                    crate::model::StatusReport {
                        num_wanting_total: count_wanting(final(sh_status)@) as usize,
                        num_wanting_t6: count_tier(final(sh_status)@, Tier::Tier6) as usize,
                        num_wanting_t8: count_tier(final(sh_status)@, Tier::Tier8) as usize,
                        num_wanting_t10: count_tier(final(sh_status)@, Tier::Tier10) as usize,
                    },
                )
            },
        },
{
    let req = parse_message(content, now);
    match req {
        Request::Nothing => Option::None,
        Request::Unknown => Option::Some(replier::unknown_request(content)),
        Request::Echo { echo_msg } => Option::Some(replier::echo(author_name, echo_msg.as_str())),
        Request::Help => Option::Some(replier::help()),
        Request::Want { time, wants } => {
            let ud = sh_status.set_user_wants_sh(author_id, time, wants);
            Option::Some(replier::want(ud))
        },
        Request::DontWant => {
            sh_status.set_user_doesnt_want_sh(author_id);
            Option::Some(replier::dont_want())
        },
        Request::Status => {
            let report = sh_status.get_current_status_at(now);
            let reply = replier::status(&report);
            proof {
                assert(report.num_wanting_total == count_wanting(final(sh_status)@) as usize);
            }
            Option::Some(reply)
        },
    }
}

} // verus!

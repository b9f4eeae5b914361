use vstd::prelude::*;

mod bot;
mod codec;
mod common;
mod model;
mod sh_status;
mod message_parser;
mod numbers;
mod retry;
mod replier;

pub use bot::ChannelKind;
pub use bot::handle_message;
pub use bot::message_concerns_me;
pub use codec::DecodeError;
pub use codec::SERIALIZATION_VERSION;
pub use codec::Value;
pub use common::SplitWhitespaceWithRest;
pub use replier::dont_want;
pub use replier::echo;
pub use replier::help;
pub use replier::status;
pub use replier::unknown_request;
pub use replier::want;
pub use retry::Retrier;
pub use retry::RetryAction;
pub use retry::TransportError;
pub use common::str_head_tail;
pub use message_parser::DurationError;
pub use message_parser::parse_duration;
pub use message_parser::parse_message;
pub use message_parser::check_now_fits;
pub use model::OnlineStatus;
pub use model::Request;
pub use model::RequestV;
pub use model::StatusReport;
pub use model::Tier;
pub use model::Timeframe;
pub use model::Timespec;
pub use model::UserData;
pub use model::UserV;
pub use model::Want;
pub use sh_status::ShStatus;

verus! {

} // verus!

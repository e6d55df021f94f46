//! The rules of the order gateway that do not depend on the transport: the
//! shapes of its requests and answers, how a bearer token is read from a
//! header, how long a login lasts, and how a request becomes an order.

use vstd::prelude::*;
use vstd::string::StrSliceExecFns;
use crate::types::{
    EnrichedOrderRequest, MarketType, OrderKind, OrderType, OrderView, market_named, same_text,
};

verus! {

/// Whether a request succeeded.
#[derive(Debug, Clone, Copy, PartialEq, Eq, Structural)]
pub enum Status {
    Error,
    Success,
}

/// A request to log in.
#[derive(Debug, Clone, PartialEq, Eq)]
pub struct IncomingLoginRequest {
    pub name: String,
    pub email: String,
}

/// An order as a client sends it, before the server adds who sent it and
/// an identifier.
#[derive(Debug, Clone, PartialEq, Eq)]
pub struct IncomingOrderRequest {
    pub kind: OrderKind,
    pub order_type: OrderType,
    pub price: u64,
    pub quantity: u64,
    /// The name of the market.
    pub market: String,
}

/// The answer to a login that succeeded.
#[derive(Debug, Clone, PartialEq, Eq)]
pub struct LoginResponse {
    pub status: Status,
    pub message: String,
    pub token: String,
}

/// The answer to a request that failed.
#[derive(Debug, Clone, PartialEq, Eq)]
pub struct ErrorResponse {
    pub status: Status,
    pub error: String,
}

/// The answer to an order that was queued.
#[derive(Debug, Clone, PartialEq, Eq)]
pub struct OrderResponse {
    pub status: Status,
    pub order_id: String,
}

/// What a login token states: who logged in, and the second at which the
/// login ends, counted from the start of 1970.
#[derive(Debug, Clone, PartialEq, Eq)]
pub struct Claim {
    pub email: String,
    pub exp: usize,
}

/// How long a login lasts, in seconds: five hours.
pub const SESSION_SECONDS: i64 = 18000;

/// The token that an authorization header carries: what follows the word
/// `Bearer` and one space at the start of the header.
pub open spec fn bearer_of(header: Seq<char>) -> Option<Seq<char>> {
    if header.len() >= 7 && header.subrange(0, 7) == "Bearer "@ {
        Some(header.subrange(7, header.len() as int))
    } else {
        None
    }
}

/// Reads the bearer token from the value of an authorization header; none
/// where the header does not start with `Bearer` and a space.
pub fn bearer_token(header: &str) -> (token: Option<String>)
    ensures
        match token {
            Some(text) => bearer_of(header@) == Some(text@),
            None => bearer_of(header@).is_none(),
        },
{
    let length = header.unicode_len();
    if length < 7 {
        None
    } else if same_text(header.substring_char(0, 7), "Bearer ") {
        Some(header.substring_char(7, length).to_owned())
    } else {
        None
    }
}

/// The second at which a login made at second `now` ends, where that is a
/// second from 1970 on that the machine can count.
pub open spec fn expiry_of(now: int) -> Option<int> {
    if 0 <= now + SESSION_SECONDS <= i64::MAX && now + SESSION_SECONDS <= usize::MAX {
        Some(now + SESSION_SECONDS)
    } else {
        None
    }
}

/// The claim of a login of `email` made at second `now`; none where the end
/// of the login cannot be counted.
pub fn login_claim(email: String, now: i64) -> (claim: Option<Claim>)
    ensures
        match claim {
            Some(made) => made.email@ == email@ && expiry_of(now as int) == Some(made.exp as int),
            None => expiry_of(now as int).is_none(),
        },
{
    if now < -SESSION_SECONDS || now > i64::MAX - SESSION_SECONDS {
        None
    } else {
        let end: i64 = now + SESSION_SECONDS;
        if end as u64 > usize::MAX as u64 {
            None
        } else {
            Some(Claim { email, exp: end as usize })
        }
    }
}

/// `Utc::now` and `DateTime::timestamp` of chrono: the reading of the
/// system clock in whole seconds. Nothing is claimed of it.
#[verifier::external_body]
fn clock_seconds() -> i64 {
    chrono::Utc::now().timestamp()
}

/// The claim of a login of `email` made now: what a login at the second
/// that the clock reads gives, whatever that second is.
pub fn issue_claim(email: String) -> (claim: Option<Claim>)
    ensures
        claim.is_some() ==> claim.unwrap().email@ == email@,
        exists|now: int| i64::MIN <= now <= i64::MAX && #[trigger] claim_made_at(email@, now, claim),
{
    let now = clock_seconds();
    let claim = login_claim(email, now);
    proof {
        assert(claim_made_at(email@, now as int, claim));
    }
    claim
}

/// `claim` is what a login of `email` at second `now` gives: a claim that
/// names `email` and ends five hours after `now`, or none where that end
/// cannot be counted.
pub open spec fn claim_made_at(email: Seq<char>, now: int, claim: Option<Claim>) -> bool {
    match claim {
        Some(made) => made.email@ == email && expiry_of(now) == Some(made.exp as int),
        None => expiry_of(now).is_none(),
    }
}

/// The answer to a login, given the token or the reason why none could be
/// made.
pub fn login_response(token: Result<String, String>) -> (answer: Result<
    LoginResponse,
    ErrorResponse,
>)
    ensures
        match token {
            Ok(text) => answer.is_ok() && answer.unwrap().status == Status::Success
                && answer.unwrap().message@ == "login successful"@ && answer.unwrap().token@
                == text@,
            Err(reason) => answer.is_err() && answer.unwrap_err().status == Status::Error
                && answer.unwrap_err().error@ == reason@,
        },
{
    match token {
        Ok(text) => Ok(
            LoginResponse {
                status: Status::Success,
                message: "login successful".to_owned(),
                token: text,
            },
        ),
        Err(reason) => Err(ErrorResponse { status: Status::Error, error: reason }),
    }
}

/// The order that a request of the user `email` becomes under the
/// identifier `order_id`, where the request names a market.
pub open spec fn enriched(
    email: Seq<char>,
    order_id: Seq<char>,
    request: IncomingOrderRequest,
) -> Option<OrderView> {
    match market_named(request.market@) {
        Some(market) => Some(
            OrderView {
                user_id: email,
                order_id,
                kind: request.kind,
                order_type: request.order_type,
                price: request.price as nat,
                quantity: request.quantity as nat,
                market,
            },
        ),
        None => None,
    }
}

/// Makes the order that the engine admits from a client's request: the
/// request with the user who sent it and the identifier given to it. None
/// where the request names no market.
pub fn enrich(email: String, order_id: String, request: IncomingOrderRequest) -> (order: Option<
    EnrichedOrderRequest,
>)
    ensures
        match order {
            Some(made) => enriched(email@, order_id@, request) == Some(made@),
            None => enriched(email@, order_id@, request).is_none(),
        },
{
    match MarketType::named(request.market.as_str()) {
        Some(market) => Some(
            EnrichedOrderRequest {
                user_id: email,
                order_id,
                kind: request.kind,
                order_type: request.order_type,
                price: request.price,
                quantity: request.quantity,
                market,
            },
        ),
        None => None,
    }
}

/// `Uuid::new_v4` of uuid, written out by its `to_string`: a random
/// identifier. Nothing is claimed of it.
#[verifier::external_body]
fn fresh_order_id() -> String {
    uuid::Uuid::new_v4().to_string()
}

/// Makes the order that the engine admits from a client's request under a
/// fresh identifier. None where the request names no market; otherwise the
/// order is the request's, whatever identifier was drawn.
pub fn accept_order(email: String, request: IncomingOrderRequest) -> (order: Option<EnrichedOrderRequest>)
    ensures
        match order {
            Some(made) => enriched(email@, made.order_id@, request) == Some(made@),
            None => market_named(request.market@).is_none(),
        },
{
    enrich(email, fresh_order_id(), request)
}

/// The answer to an order, given whether it could be queued or the reason
/// why not.
pub fn order_response(order_id: String, queued: Result<(), String>) -> (answer: Result<
    OrderResponse,
    ErrorResponse,
>)
    ensures
        match queued {
            Ok(_) => answer.is_ok() && answer.unwrap().status == Status::Success
                && answer.unwrap().order_id@ == order_id@,
            Err(reason) => answer.is_err() && answer.unwrap_err().status == Status::Error
                && answer.unwrap_err().error@ == reason@,
        },
{
    match queued {
        Ok(_) => Ok(OrderResponse { status: Status::Success, order_id }),
        Err(reason) => Err(ErrorResponse { status: Status::Error, error: reason }),
    }
}

} // verus!

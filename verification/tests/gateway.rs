use exchange_core::gateway::{
    accept_order, bearer_token, enrich, issue_claim, login_claim, login_response, order_response,
    Claim, ErrorResponse, IncomingLoginRequest, IncomingOrderRequest, LoginResponse,
    OrderResponse, Status, SESSION_SECONDS,
};
use exchange_core::types::{MarketType, OrderKind, OrderType};

fn request(market: &str) -> IncomingOrderRequest {
    IncomingOrderRequest {
        kind: OrderKind::Limit,
        order_type: OrderType::Sell,
        price: 250,
        quantity: 4,
        market: market.to_string(),
    }
}

#[test]
fn bearer_token_is_what_follows_the_word() {
    assert_eq!(bearer_token("Bearer abc.def"), Some("abc.def".to_string()));
    assert_eq!(bearer_token("Bearer "), Some(String::new()));
    assert_eq!(bearer_token("Bearer  x"), Some(" x".to_string()));
}

#[test]
fn header_without_bearer_has_no_token() {
    assert_eq!(bearer_token(""), None);
    assert_eq!(bearer_token("Bearer"), None);
    assert_eq!(bearer_token("bearer abc"), None);
    assert_eq!(bearer_token("Basic abc"), None);
    assert_eq!(bearer_token("xBearer abc"), None);
}

#[test]
fn login_lasts_five_hours() {
    assert_eq!(SESSION_SECONDS, 5 * 60 * 60);
    assert_eq!(
        login_claim("a@b.c".to_string(), 1_000),
        Some(Claim { email: "a@b.c".to_string(), exp: 19_000 })
    );
    assert_eq!(
        login_claim("a@b.c".to_string(), -18_000),
        Some(Claim { email: "a@b.c".to_string(), exp: 0 })
    );
}

#[test]
fn login_needs_an_end_that_can_be_counted() {
    assert_eq!(login_claim("a@b.c".to_string(), -18_001), None);
    assert_eq!(login_claim("a@b.c".to_string(), i64::MAX), None);
    assert_eq!(login_claim("a@b.c".to_string(), i64::MAX - 17_999), None);
}

#[test]
fn claim_made_now_names_the_user() {
    let seconds = || {
        std::time::SystemTime::now()
            .duration_since(std::time::UNIX_EPOCH)
            .expect("the clock is past 1970")
            .as_secs() as usize
    };
    let before = seconds();
    let claim = issue_claim("a@b.c".to_string()).expect("the clock is past 1970");
    let after = seconds();
    assert_eq!(claim.email, "a@b.c");
    assert!(before + 18_000 <= claim.exp && claim.exp <= after + 18_000);
    let again = login_claim("a@b.c".to_string(), (claim.exp - 18_000) as i64);
    assert_eq!(again, Some(claim));
}

#[test]
fn login_answers() {
    assert_eq!(
        login_response(Ok("tok".to_string())),
        Ok(LoginResponse {
            status: Status::Success,
            message: "login successful".to_string(),
            token: "tok".to_string(),
        })
    );
    assert_eq!(
        login_response(Err("bad key".to_string())),
        Err(ErrorResponse { status: Status::Error, error: "bad key".to_string() })
    );
}

#[test]
fn request_becomes_an_order() {
    let order = enrich("a@b.c".to_string(), "id-1".to_string(), request("JIO_INR")).unwrap();
    assert_eq!(order.user_id, "a@b.c");
    assert_eq!(order.order_id, "id-1");
    assert_eq!(order.kind, OrderKind::Limit);
    assert_eq!(order.order_type, OrderType::Sell);
    assert_eq!(order.price, 250);
    assert_eq!(order.quantity, 4);
    assert_eq!(order.market, MarketType::JIO_INR);
}

#[test]
fn request_for_an_unknown_market_becomes_nothing() {
    assert_eq!(enrich("a@b.c".to_string(), "id-1".to_string(), request("GOLD")), None);
    assert_eq!(accept_order("a@b.c".to_string(), request("tata_inr")), None);
}

#[test]
fn accepted_orders_get_their_own_identifiers() {
    let first = accept_order("a@b.c".to_string(), request("TATA_INR")).unwrap();
    let second = accept_order("a@b.c".to_string(), request("TATA_INR")).unwrap();
    assert!(!first.order_id.is_empty());
    assert_ne!(first.order_id, second.order_id);
    assert_eq!(first.user_id, "a@b.c");
    assert_eq!(first.market, MarketType::TATA_INR);
    assert_eq!(first.quantity, 4);
}

#[test]
fn order_answers() {
    assert_eq!(
        order_response("id-1".to_string(), Ok(())),
        Ok(OrderResponse { status: Status::Success, order_id: "id-1".to_string() })
    );
    assert_eq!(
        order_response("id-1".to_string(), Err("queue down".to_string())),
        Err(ErrorResponse { status: Status::Error, error: "queue down".to_string() })
    );
}

#[test]
fn markets_go_by_their_names() {
    assert_eq!(MarketType::TATA_INR.name(), "TATA_INR");
    assert_eq!(MarketType::JIO_INR.name(), "JIO_INR");
    assert_eq!(MarketType::named("TATA_INR"), Some(MarketType::TATA_INR));
    assert_eq!(MarketType::named("JIO_INR"), Some(MarketType::JIO_INR));
    assert_eq!(MarketType::named("JIO"), None);
    assert_eq!(MarketType::named(MarketType::JIO_INR.name()), Some(MarketType::JIO_INR));
}

#[test]
fn login_request_holds_name_and_email() {
    let request = IncomingLoginRequest { name: "A".to_string(), email: "a@b.c".to_string() };
    assert_eq!(request.clone(), request);
}

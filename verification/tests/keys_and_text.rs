use curius_feed::errors::FeedError;
use curius_feed::keys::{content_key, follow_list_key, profile_key, CACHE_TTL_SECONDS};
use curius_feed::routes::{clamp_limit, default_limit, AppError, FeedFormat, MAX_FEED_LIMIT};
use curius_feed::text::{i64_to_string, str_eq, str_lex_le};
use curius_feed::upstream::{links_url, parse_response_outcome, profile_url, status_is_success};

#[test]
fn cache_keys_follow_the_schema() {
    assert_eq!(profile_key("alice"), "profile:alice".to_string());
    assert_eq!(content_key(42), "content:42".to_string());
    assert_eq!(content_key(-7), "content:-7".to_string());
    assert_eq!(follow_list_key(5, 2), "follow_list:5:2".to_string());
    assert_eq!(CACHE_TTL_SECONDS, 21600);
}

#[test]
fn decimal_rendering_matches_the_standard_one() {
    assert_eq!(i64_to_string(0), "0".to_string());
    assert_eq!(i64_to_string(105), "105".to_string());
    assert_eq!(i64_to_string(-1), "-1".to_string());
    assert_eq!(i64_to_string(i64::MAX), format!("{}", i64::MAX));
    assert_eq!(i64_to_string(i64::MIN), format!("{}", i64::MIN));
}

#[test]
fn lexicographic_comparison_orders_timestamps() {
    assert!(str_lex_le("2024-01-01", "2024-06-01"));
    assert!(!str_lex_le("2024-06-01", "2024-01-01"));
    assert!(str_lex_le("2024-06-01", "2024-06-01"));
    assert!(str_lex_le("2024-06", "2024-06-01"));
    assert!(!str_lex_le("2024-06-01", "2024-06"));
}

#[test]
fn string_equality_compares_characters() {
    assert!(str_eq("alice", "alice"));
    assert!(!str_eq("alice", "alicia"));
    assert!(!str_eq("alice", "alic"));
    assert!(str_eq("", ""));
}

#[test]
fn upstream_urls_follow_the_api_surface() {
    let base = "https://curius.app/api/";
    assert_eq!(profile_url(base, "alice"), "https://curius.app/api/users/alice".to_string());
    assert_eq!(
        links_url(base, 42),
        "https://curius.app/api/users/42/links?page=0".to_string()
    );
}

#[test]
fn non_success_status_is_a_transport_failure() {
    let r = parse_response_outcome::<u64>(404, Ok(3));
    match r {
        Err(FeedError::Transport(m)) => {
            assert_eq!(m, "HTTP request failed with status: 404".to_string());
        }
        other => panic!("expected a transport error, got {:?}", other),
    }
    assert!(status_is_success(200));
    assert!(status_is_success(299));
    assert!(!status_is_success(199));
    assert!(!status_is_success(300));
}

#[test]
fn undecodable_body_is_a_decode_failure_with_its_path() {
    let r = parse_response_outcome::<u64>(200, Err("user.followingUsers[3].id".to_string()));
    match r {
        Err(FeedError::Decode(m)) => {
            assert_eq!(m, "user.followingUsers[3].id".to_string());
        }
        other => panic!("expected a decode error, got {:?}", other),
    }
    assert_eq!(parse_response_outcome::<u64>(200, Ok(3)), Ok(3));
}

#[test]
fn feed_limit_is_clamped_to_the_server_maximum() {
    assert_eq!(clamp_limit(10), 10);
    assert_eq!(clamp_limit(500), 500);
    assert_eq!(clamp_limit(100_000), 500);
    assert_eq!(MAX_FEED_LIMIT, 500);
    assert_eq!(default_limit(), 100);
}

#[test]
fn feed_format_defaults_to_json() {
    assert_eq!(FeedFormat::default(), FeedFormat::Json);
}

#[test]
fn request_types_carry_the_route_parameters() {
    let fl = curius_feed::routes::FollowListRequest {
        user_handle: "alice".to_string(),
        order: 2,
    };
    assert_eq!(fl.user_handle, "alice".to_string());
    assert_eq!(fl.order, 2);
    let fr = curius_feed::routes::FeedRequest {
        user_handle: "alice".to_string(),
        order: 1,
        limit: default_limit(),
        format: FeedFormat::Rss,
    };
    assert_eq!(fr.limit, 100);
    assert_eq!(fr.format, FeedFormat::Rss);
}

#[test]
fn failure_response_names_the_underlying_error() {
    let err = AppError::from(FeedError::PartialTask("a branch failed".to_string()));
    assert_eq!(err.response_body(), "Something went wrong: a branch failed".to_string());
    assert_eq!(err.0.message(), "a branch failed");
}

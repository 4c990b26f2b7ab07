use curius_feed::model::{FollowWithOrder, FollowingUser, UserProfile};
use curius_feed::resolver::{dedup_min_order, lookup_profile, resolve_follow_graph};

fn follower(id: i64, handle: &str) -> FollowingUser {
    FollowingUser {
        id,
        first_name: format!("First{}", id),
        last_name: format!("Last{}", id),
        user_link: handle.to_string(),
        last_online: 1_700_000_000_000 + id,
    }
}

fn profile(id: i64, handle: &str, follows: Vec<FollowingUser>) -> UserProfile {
    UserProfile {
        id,
        first_name: format!("First{}", id),
        last_name: format!("Last{}", id),
        user_link: handle.to_string(),
        major: None,
        interests: None,
        expertise: None,
        school: None,
        github: None,
        twitter: None,
        website: None,
        created_date: 1_600_000_000_000,
        modified_date: 1_650_000_000_000,
        last_online: 1_700_000_000_000 + id,
        last_checked_notifications: 0,
        views: 0,
        num_followers: follows.len() as i64,
        followed: None,
        following_me: None,
        recent_users: Vec::new(),
        following_users: follows,
    }
}

fn order_of(edges: &[FollowWithOrder], id: i64) -> Option<i64> {
    edges.iter().find(|e| e.following_user.id == id).map(|e| e.order)
}

#[test]
fn zero_hops_resolves_to_the_root_alone() {
    let root = profile(1, "root", vec![follower(2, "a")]);
    let table = vec![profile(2, "a", vec![])];
    let edges = resolve_follow_graph(&table, &root, 0);
    assert_eq!(edges.len(), 1);
    assert_eq!(edges[0].following_user.id, 1);
    assert_eq!(edges[0].following_user.user_link, "root".to_string());
    assert_eq!(edges[0].order, 0);
}

#[test]
fn duplicate_discovery_keeps_the_smallest_order() {
    // the root follows a and b; b also follows a, so a is reachable at one
    // hop and again at two hops: the one-hop record must win
    let root = profile(1, "root", vec![follower(2, "a"), follower(3, "b")]);
    let table = vec![
        profile(2, "a", vec![]),
        profile(3, "b", vec![follower(2, "a")]),
    ];
    let edges = resolve_follow_graph(&table, &root, 2);
    assert_eq!(order_of(&edges, 1), Some(0));
    assert_eq!(order_of(&edges, 2), Some(1));
    assert_eq!(order_of(&edges, 3), Some(1));
    assert_eq!(edges.len(), 3);
}

#[test]
fn unresolvable_followee_is_dropped_without_failing() {
    // "ghost-handle" has no profile in the directory: that branch vanishes
    let root = profile(1, "root", vec![follower(2, "a"), follower(9, "ghost-handle")]);
    let table = vec![profile(2, "a", vec![])];
    let edges = resolve_follow_graph(&table, &root, 1);
    assert_eq!(edges.len(), 2);
    assert_eq!(order_of(&edges, 1), Some(0));
    assert_eq!(order_of(&edges, 2), Some(1));
    assert_eq!(order_of(&edges, 9), None);
}

#[test]
fn cyclic_follows_stay_bounded_by_the_hop_cap() {
    // a and b follow each other; resolution must still terminate and give
    // each user its minimum distance
    let root = profile(1, "root", vec![follower(2, "a")]);
    let table = vec![
        profile(2, "a", vec![follower(3, "b")]),
        profile(3, "b", vec![follower(2, "a")]),
    ];
    let edges = resolve_follow_graph(&table, &root, 4);
    assert_eq!(order_of(&edges, 1), Some(0));
    assert_eq!(order_of(&edges, 2), Some(1));
    assert_eq!(order_of(&edges, 3), Some(2));
    assert_eq!(edges.len(), 3);
}

#[test]
fn dedup_keeps_lowest_order_and_first_record_on_ties() {
    let mk = |id: i64, handle: &str, order: i64| FollowWithOrder {
        following_user: follower(id, handle),
        order,
    };
    let candidates = vec![
        mk(5, "first-seen", 2),
        mk(6, "other", 1),
        mk(5, "smaller-order", 1),
        mk(6, "tied-later", 1),
    ];
    let deduped = dedup_min_order(candidates);
    assert_eq!(deduped.len(), 2);
    let five = deduped.iter().find(|e| e.following_user.id == 5).unwrap();
    assert_eq!(five.order, 1);
    assert_eq!(five.following_user.user_link, "smaller-order".to_string());
    let six = deduped.iter().find(|e| e.following_user.id == 6).unwrap();
    assert_eq!(six.order, 1);
    assert_eq!(six.following_user.user_link, "other".to_string());
}

#[test]
fn lookup_finds_the_first_profile_with_the_handle() {
    let table = vec![profile(2, "a", vec![]), profile(3, "b", vec![])];
    assert_eq!(lookup_profile(&table, "b").map(|p| p.id), Some(3));
    assert_eq!(lookup_profile(&table, "a").map(|p| p.id), Some(2));
    assert!(lookup_profile(&table, "missing").is_none());
}

use curius_feed::feed::{
    apply_saved_by, assemble_feed, dedup_by_id, flatten_pages, partition_pages, split_flat,
    sort_by_created_desc, truncate_feed,
};
use curius_feed::model::{Content, FollowWithOrder, FollowingUser, LinkResponse};

fn follower(id: i64, handle: &str) -> FollowingUser {
    FollowingUser {
        id,
        first_name: format!("First{}", id),
        last_name: format!("Last{}", id),
        user_link: handle.to_string(),
        last_online: 1_700_000_000_000 + id,
    }
}

fn edge(id: i64, handle: &str, order: i64) -> FollowWithOrder {
    FollowWithOrder { following_user: follower(id, handle), order }
}

fn content(id: i64, created: &str) -> Content {
    Content {
        id,
        link: format!("https://example.org/{}", id),
        title: format!("Item {}", id),
        favorite: false,
        snippet: None,
        to_read: None,
        created_by: None,
        created_date: created.to_string(),
        modified_date: created.to_string(),
        last_crawled: None,
        metadata: None,
        highlights: Vec::new(),
        user_ids: None,
        saved_by: None,
    }
}

fn page(items: Vec<Content>) -> LinkResponse {
    LinkResponse { user_saved: items }
}

#[test]
fn content_keys_follow_the_edges_in_order() {
    let edges = vec![edge(7, "a", 0), edge(-3, "b", 1)];
    let keys = curius_feed::feed::content_keys(&edges);
    assert_eq!(keys, vec!["content:7".to_string(), "content:-3".to_string()]);
}

#[test]
fn partition_splits_hits_and_misses_in_input_order() {
    let edges = vec![edge(1, "a", 0), edge(2, "b", 1), edge(3, "c", 1)];
    let cached = vec![Some(page(vec![content(10, "2024")])), None, None];
    let (hits, misses) = partition_pages(&edges, cached);
    assert_eq!(hits.len(), 1);
    assert_eq!(hits[0].0, 1);
    assert_eq!(hits[0].1.user_saved[0].id, 10);
    assert_eq!(misses, vec![2, 3]);
}

#[test]
fn flatten_tags_each_item_with_its_page_owner() {
    let pages = vec![
        (1i64, page(vec![content(10, "2024-01"), content(11, "2024-02")])),
        (2i64, page(vec![content(12, "2024-03")])),
    ];
    let flat = flatten_pages(pages);
    assert_eq!(flat.len(), 3);
    assert_eq!((flat[0].0, flat[0].1.id), (1, 10));
    assert_eq!((flat[1].0, flat[1].1.id), (1, 11));
    assert_eq!((flat[2].0, flat[2].1.id), (2, 12));
}

#[test]
fn sort_is_newest_first_and_keeps_ties_stable() {
    let items = vec![
        content(1, "2024-02-01"),
        content(2, "2024-06-01"),
        content(3, "2024-02-01"),
        content(4, "2023-12-31"),
    ];
    let sorted = sort_by_created_desc(items);
    let ids: Vec<i64> = sorted.iter().map(|c| c.id).collect();
    assert_eq!(ids, vec![2, 1, 3, 4]);
}

#[test]
fn dedup_keeps_the_first_occurrence_after_the_sort() {
    let items = vec![
        content(7, "2024-06-01"),
        content(8, "2024-05-01"),
        content(7, "2024-04-01"),
    ];
    let deduped = dedup_by_id(items);
    let ids: Vec<i64> = deduped.iter().map(|c| c.id).collect();
    assert_eq!(ids, vec![7, 8]);
    assert_eq!(deduped[0].created_date, "2024-06-01".to_string());
}

#[test]
fn truncate_keeps_only_the_leading_items() {
    let items = vec![content(1, "c"), content(2, "b"), content(3, "a")];
    let cut = truncate_feed(items, 2);
    assert_eq!(cut.len(), 2);
    assert_eq!(cut[0].id, 1);
    assert_eq!(cut[1].id, 2);
    let items2 = vec![content(1, "c")];
    assert_eq!(truncate_feed(items2, 2).len(), 1);
}

#[test]
fn saved_by_is_rebuilt_from_every_occurrence() {
    let edges = vec![edge(1, "a", 0), edge(2, "b", 1)];
    let pages = vec![
        (1i64, page(vec![content(10, "2024-03")])),
        (2i64, page(vec![content(10, "2024-03")])),
    ];
    let flat = flatten_pages(pages);
    let (contents, refs) = split_flat(flat);
    let stamped = apply_saved_by(contents, &edges, &refs);
    // both occurrences of item 10 name their saver, in flatten order
    let saved = stamped[0].saved_by.as_ref().unwrap();
    assert_eq!(saved.len(), 2);
    assert_eq!(saved[0].following_user.id, 1);
    assert_eq!(saved[1].following_user.id, 2);
}

#[test]
fn feed_is_sorted_unique_and_bounded_by_the_limit() {
    let edges = vec![edge(1, "a", 0), edge(2, "b", 1)];
    let pages = vec![
        (1i64, page(vec![content(10, "2024-03-01"), content(11, "2024-01-01")])),
        (2i64, page(vec![content(10, "2024-03-01"), content(12, "2024-02-01")])),
    ];
    let feed = assemble_feed(&edges, pages, 2);
    assert_eq!(feed.len(), 2);
    let ids: Vec<i64> = feed.iter().map(|c| c.id).collect();
    assert_eq!(ids, vec![10, 12]);
    assert!(feed[0].created_date >= feed[1].created_date);
    // the duplicate of item 10 merged both savers into its provenance
    let saved = feed[0].saved_by.as_ref().unwrap();
    assert_eq!(saved.len(), 2);
    assert_eq!(saved[0].following_user.id, 1);
    assert_eq!(saved[1].following_user.id, 2);
}

#[test]
fn two_user_network_feed_lists_both_links_newest_first() {
    // the root handle "alice" follows "bob"; each saved one link, bob's is
    // newer; a one-hop resolution then a feed of at most ten items
    let alice = curius_feed::model::UserProfile {
        id: 1,
        first_name: "Alice".to_string(),
        last_name: "A".to_string(),
        user_link: "alice".to_string(),
        major: None,
        interests: None,
        expertise: None,
        school: None,
        github: None,
        twitter: None,
        website: None,
        created_date: 0,
        modified_date: 0,
        last_online: 0,
        last_checked_notifications: 0,
        views: 0,
        num_followers: 1,
        followed: None,
        following_me: None,
        recent_users: Vec::new(),
        following_users: vec![follower(2, "bob")],
    };
    let bob = curius_feed::model::UserProfile {
        id: 2,
        first_name: "Bob".to_string(),
        last_name: "B".to_string(),
        user_link: "bob".to_string(),
        major: None,
        interests: None,
        expertise: None,
        school: None,
        github: None,
        twitter: None,
        website: None,
        created_date: 0,
        modified_date: 0,
        last_online: 0,
        last_checked_notifications: 0,
        views: 0,
        num_followers: 0,
        followed: None,
        following_me: None,
        recent_users: Vec::new(),
        following_users: Vec::new(),
    };
    let table = vec![bob];
    let edges = curius_feed::resolver::resolve_follow_graph(&table, &alice, 1);
    assert_eq!(edges.len(), 2);

    // one page per resolved user: alice saved link 100, bob the newer 200
    let pages: Vec<(i64, LinkResponse)> = edges
        .iter()
        .map(|e| {
            if e.following_user.id == 1 {
                (1i64, page(vec![content(100, "2024-01-01T00:00:00")]))
            } else {
                (2i64, page(vec![content(200, "2024-06-01T00:00:00")]))
            }
        })
        .collect();
    let feed = assemble_feed(&edges, pages, 10);
    assert_eq!(feed.len(), 2);
    assert_eq!(feed[0].id, 200);
    assert_eq!(feed[1].id, 100);
    // each item's provenance is exactly the edge of the user who saved it
    let saved0 = feed[0].saved_by.as_ref().unwrap();
    assert_eq!(saved0.len(), 1);
    assert_eq!(saved0[0].following_user.id, 2);
    assert_eq!(saved0[0].order, 1);
    let saved1 = feed[1].saved_by.as_ref().unwrap();
    assert_eq!(saved1.len(), 1);
    assert_eq!(saved1[0].following_user.id, 1);
    assert_eq!(saved1[0].order, 0);
}

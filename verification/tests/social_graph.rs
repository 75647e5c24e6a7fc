use rust_social_app::auth::AuthUser;
use rust_social_app::store::{Profile, Store};
use rust_social_app::ApiError;

fn seeded() -> Store {
    let mut s = Store::new();
    assert!(s.add_user(1, "alice".to_string(), "likes formal methods".to_string(), None));
    assert!(s.add_user(
        2,
        "bob".to_string(),
        String::new(),
        Some("https://example.net/bob.png".to_string()),
    ));
    assert!(s.add_user(3, "carol".to_string(), String::new(), None));
    s
}

#[test]
fn add_user_refuses_duplicates() {
    let mut s = seeded();
    assert!(!s.add_user(1, "dave".to_string(), String::new(), None));
    assert!(!s.add_user(9, "alice".to_string(), String::new(), None));
    assert!(s.add_user(9, "dave".to_string(), String::new(), None));
}

#[test]
fn self_follow_is_forbidden() {
    let mut s = seeded();
    let alice = AuthUser { user_id: 1 };
    assert_eq!(
        s.follow(&alice, &"alice".to_string()).unwrap_err(),
        ApiError::Forbidden
    );
    assert_eq!(s.edge_count(), 0);
    assert!(!s.is_following(1, 1));
}

#[test]
fn follow_unknown_user_is_not_found() {
    let mut s = seeded();
    let alice = AuthUser { user_id: 1 };
    assert_eq!(s.follow(&alice, &"nobody".to_string()).unwrap_err(), ApiError::NotFound);
    assert_eq!(s.unfollow(&alice, &"nobody".to_string()).unwrap_err(), ApiError::NotFound);
    assert_eq!(
        s.get_profile(Some(1), &"nobody".to_string()).unwrap_err(),
        ApiError::NotFound
    );
}

#[test]
fn follow_twice_keeps_one_edge() {
    let mut s = seeded();
    let alice = AuthUser { user_id: 1 };
    let p1 = s.follow(&alice, &"bob".to_string()).expect("first follow");
    assert!(p1.following);
    let p2 = s.follow(&alice, &"bob".to_string()).expect("second follow");
    assert!(p2.following);
    assert_eq!(s.edge_count(), 1);
    assert!(s.is_following(1, 2));
}

#[test]
fn unfollow_without_edge_is_a_no_op() {
    let mut s = seeded();
    let alice = AuthUser { user_id: 1 };
    s.follow(&alice, &"carol".to_string()).expect("follow carol");
    let p = s.unfollow(&alice, &"bob".to_string()).expect("unfollow succeeds");
    assert!(!p.following);
    assert_eq!(s.edge_count(), 1);
    assert!(s.is_following(1, 3));
}

#[test]
fn unfollow_removes_the_edge() {
    let mut s = seeded();
    let alice = AuthUser { user_id: 1 };
    s.follow(&alice, &"bob".to_string()).expect("follow");
    assert!(s.is_following(1, 2));
    let p = s.unfollow(&alice, &"bob".to_string()).expect("unfollow");
    assert!(!p.following);
    assert!(!s.is_following(1, 2));
    assert_eq!(s.edge_count(), 0);
}

#[test]
fn follow_reports_target_profile() {
    let mut s = seeded();
    let alice = AuthUser { user_id: 1 };
    let p = s.follow(&alice, &"bob".to_string()).expect("follow");
    assert_eq!(p.username, "bob");
    assert_eq!(p.bio, "");
    assert_eq!(p.image.as_deref(), Some("https://example.net/bob.png"));
    assert!(p.following);
}

#[test]
fn get_profile_viewer_relative() {
    let mut s = seeded();
    let alice = AuthUser { user_id: 1 };
    s.follow(&alice, &"bob".to_string()).expect("follow");
    let seen_by_alice = s.get_profile(Some(1), &"bob".to_string()).expect("profile");
    assert!(seen_by_alice.following);
    let seen_by_carol = s.get_profile(Some(3), &"bob".to_string()).expect("profile");
    assert!(!seen_by_carol.following);
    let seen_anonymously = s.get_profile(None, &"bob".to_string()).expect("profile");
    assert!(!seen_anonymously.following);
}

#[test]
fn listing_excludes_viewer_and_tracks_edges() {
    let mut s = seeded();
    let alice = AuthUser { user_id: 1 };
    s.follow(&alice, &"carol".to_string()).expect("follow");
    let rows: Vec<Profile> = s.list_profiles(Some(1));
    assert_eq!(rows.len(), 2);
    assert!(rows.iter().all(|p| p.username != "alice"));
    for p in &rows {
        if p.username == "carol" {
            assert!(p.following);
        } else {
            assert_eq!(p.username, "bob");
            assert!(!p.following);
        }
    }
}

#[test]
fn anonymous_listing_shows_everyone_unfollowed() {
    let s = seeded();
    let rows = s.list_profiles(None);
    assert_eq!(rows.len(), 3);
    assert!(rows.iter().all(|p| !p.following));
    let names: Vec<&str> = rows.iter().map(|p| p.username.as_str()).collect();
    assert_eq!(names, ["alice", "bob", "carol"]);
}

#[test]
fn empty_store_lists_nothing() {
    let s = Store::new();
    assert!(s.list_profiles(None).is_empty());
    assert!(s.list_profiles(Some(1)).is_empty());
}

#[test]
fn follow_then_view_then_unfollow() {
    let mut s = seeded();
    let alice = AuthUser { user_id: 1 };
    let p = s.follow(&alice, &"bob".to_string()).expect("follow");
    assert!(p.following);
    assert!(s.get_profile(Some(1), &"bob".to_string()).expect("as alice").following);
    assert!(!s.get_profile(None, &"bob".to_string()).expect("anonymous").following);
    let p = s.unfollow(&alice, &"bob".to_string()).expect("unfollow");
    assert!(!p.following);
    assert!(!s.get_profile(Some(1), &"bob".to_string()).expect("as alice").following);
}

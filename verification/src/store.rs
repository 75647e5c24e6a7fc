//! The user table and the directed follow graph, with viewer-relative
//! profile projections.
//!
//! The store is the library's model of persisted state: a duplicate-free
//! user list and a duplicate-free, self-follow-free edge list. Follow
//! and unfollow are idempotent at the edge level; profile queries
//! compute the `following` flag from the current edge state.

use vstd::prelude::*;

use crate::auth::AuthUser;
use crate::ApiError;

verus! {

/// A stored user row: identity, unique username, and public attributes.
#[derive(Debug)]
pub struct UserRecord {
    pub user_id: u128,
    pub username: String,
    pub bio: String,
    pub image: Option<String>,
}

/// "follower follows followed"; never a self-loop, at most one per pair.
#[derive(Clone, Copy, PartialEq, Eq, Structural, Debug)]
pub struct FollowEdge {
    pub follower_id: u128,
    pub followed_id: u128,
}

/// A user's public projection plus the viewer-relative `following` flag.
#[derive(Debug)]
pub struct Profile {
    pub username: String,
    pub bio: String,
    pub image: Option<String>,
    pub following: bool,
}

/// The profile row for `u` with a given `following` flag.
pub open spec fn profile_for(u: UserRecord, following: bool) -> Profile {
    Profile { username: u.username, bio: u.bio, image: u.image, following }
}

/// User rows carry pairwise distinct ids and usernames.
pub open spec fn users_wf(users: Seq<UserRecord>) -> bool {
    forall|i: int, j: int|
        0 <= i < j < users.len() ==> users[i].user_id != users[j].user_id && users[i].username@
            != users[j].username@
}

/// Edges are never self-loops and no ordered pair appears twice.
pub open spec fn edges_wf(edges: Seq<FollowEdge>) -> bool {
    &&& forall|i: int|
        0 <= i < edges.len() ==> (#[trigger] edges[i]).follower_id != edges[i].followed_id
    &&& forall|i: int, j: int| 0 <= i < j < edges.len() ==> edges[i] != edges[j]
}

/// Users and follow edges.
pub struct Store {
    users: Vec<UserRecord>,
    edges: Vec<FollowEdge>,
}

impl Store {
    pub closed spec fn users_view(self) -> Seq<UserRecord> {
        self.users@
    }

    pub closed spec fn edges_view(self) -> Seq<FollowEdge> {
        self.edges@
    }

    /// Well-formedness: user ids and usernames are unique, edges are
    /// unique and never self-loops.
    pub open spec fn wf(self) -> bool {
        users_wf(self.users_view()) && edges_wf(self.edges_view())
    }

    /// The follow relation holds from `follower` to `followed`.
    pub open spec fn has_edge(self, follower: u128, followed: u128) -> bool {
        self.edges_view().contains(FollowEdge { follower_id: follower, followed_id: followed })
    }

    pub open spec fn contains_user_id(self, uid: u128) -> bool {
        exists|i: int|
            0 <= i < self.users_view().len() && (#[trigger] self.users_view()[i]).user_id == uid
    }

    pub open spec fn has_user_named(self, name: Seq<char>) -> bool {
        exists|i: int|
            0 <= i < self.users_view().len() && (#[trigger] self.users_view()[i]).username@ == name
    }

    /// The unique user with this username (meaningful under `wf` when
    /// `has_user_named` holds).
    pub open spec fn user_named(self, name: Seq<char>) -> UserRecord {
        self.users_view()[choose|i: int|
            0 <= i < self.users_view().len() && (#[trigger] self.users_view()[i]).username@
                == name]
    }

    /// In a well-formed store, any row with the name is the named row.
    pub proof fn lemma_user_named_at(self, name: Seq<char>, i: int)
        requires
            self.wf(),
            0 <= i < self.users_view().len(),
            self.users_view()[i].username@ == name,
        ensures
            self.has_user_named(name),
            self.user_named(name) == self.users_view()[i],
    {
        let j = choose|j: int|
            0 <= j < self.users_view().len() && (#[trigger] self.users_view()[j]).username@
                == name;
        if i != j {
            if i < j {
                assert(self.users_view()[i].username@ != self.users_view()[j].username@);
            } else {
                assert(self.users_view()[j].username@ != self.users_view()[i].username@);
            }
        }
    }

    /// The viewer-relative `following` flag: absent viewers follow nobody.
    pub open spec fn viewer_follows(self, viewer: Option<u128>, target: u128) -> bool {
        match viewer {
            Some(v) => self.has_edge(v, target),
            None => false,
        }
    }

    /// The target of a follow request exists and is not the follower.
    pub open spec fn follow_allowed(self, follower: u128, name: Seq<char>) -> bool {
        self.has_user_named(name) && self.user_named(name).user_id != follower
    }

    /// An empty store.
    pub fn new() -> (s: Store)
        ensures
            s.wf(),
            s.users_view() == Seq::<UserRecord>::empty(),
            s.edges_view() == Seq::<FollowEdge>::empty(),
    {
        Store { users: Vec::new(), edges: Vec::new() }
    }

    /// Adds a user row; refused if the id or the username is taken.
    pub fn add_user(&mut self, user_id: u128, username: String, bio: String, image: Option<
        String,
    >) -> (r: bool)
        requires
            old(self).wf(),
        ensures
            final(self).wf(),
            final(self).edges_view() == old(self).edges_view(),
            r == (!old(self).contains_user_id(user_id) && !old(self).has_user_named(username@)),
            r ==> final(self).users_view() == old(self).users_view().push(
                UserRecord { user_id, username, bio, image },
            ),
            !r ==> *final(self) == *old(self),
    {
        let mut i: usize = 0;
        while i < self.users.len()
            invariant
                old(self).wf(),
                *self == *old(self),
                self.users@ == old(self).users@,
                self.edges@ == old(self).edges@,
                i <= self.users@.len(),
                forall|k: int|
                    0 <= k < i ==> (#[trigger] self.users@[k]).user_id != user_id
                        && self.users@[k].username@ != username@,
            decreases self.users@.len() - i,
        {
            if self.users[i].user_id == user_id || self.users[i].username == username {
                return false;
            }
            i += 1;
        }
        let ghost pre_users = self.users@;
        let rec = UserRecord { user_id, username, bio, image };
        self.users.push(rec);
        proof {
            let post = self.users@;
            assert forall|a: int, b: int|
                0 <= a < b < post.len() implies post[a].user_id != post[b].user_id
                && post[a].username@ != post[b].username@ by {
                assert(post[a] == pre_users[a]);
                if b < post.len() - 1 {
                    assert(post[b] == pre_users[b]);
                }
            }
            assert(users_wf(post));
        }
        true
    }

    /// Index of the user with this username.
    fn find_by_username(&self, name: &String) -> (r: Option<usize>)
        ensures
            match r {
                Some(i) => i < self.users_view().len() && self.users_view()[i as int].username@
                    == name@,
                None => !self.has_user_named(name@),
            },
    {
        let mut i: usize = 0;
        while i < self.users.len()
            invariant
                i <= self.users@.len(),
                forall|k: int| 0 <= k < i ==> (#[trigger] self.users@[k]).username@ != name@,
            decreases self.users@.len() - i,
        {
            if self.users[i].username == *name {
                return Some(i);
            }
            i += 1;
        }
        None
    }

    /// Index of the edge `follower -> followed`.
    fn edge_index(&self, follower: u128, followed: u128) -> (r: Option<usize>)
        ensures
            match r {
                Some(i) => i < self.edges_view().len() && self.edges_view()[i as int]
                    == (FollowEdge { follower_id: follower, followed_id: followed }),
                None => !self.has_edge(follower, followed),
            },
    {
        let mut i: usize = 0;
        while i < self.edges.len()
            invariant
                i <= self.edges@.len(),
                forall|k: int|
                    0 <= k < i ==> (#[trigger] self.edges@[k]) != (FollowEdge {
                        follower_id: follower,
                        followed_id: followed,
                    }),
            decreases self.edges@.len() - i,
        {
            if self.edges[i].follower_id == follower && self.edges[i].followed_id == followed {
                return Some(i);
            }
            i += 1;
        }
        None
    }

    /// The follow relation holds, as an executable check.
    pub fn is_following(&self, follower: u128, followed: u128) -> (r: bool)
        ensures
            r == self.has_edge(follower, followed),
    {
        match self.edge_index(follower, followed) {
            Some(_) => true,
            None => false,
        }
    }

    /// Number of follow edges.
    pub fn edge_count(&self) -> (r: usize)
        ensures
            r == self.edges_view().len(),
    {
        self.edges.len()
    }

    /// The user id exists, as an executable check.
    pub fn contains_user(&self, uid: u128) -> (r: bool)
        ensures
            r == self.contains_user_id(uid),
    {
        let mut i: usize = 0;
        while i < self.users.len()
            invariant
                i <= self.users@.len(),
                forall|k: int| 0 <= k < i ==> (#[trigger] self.users@[k]).user_id != uid,
            decreases self.users@.len() - i,
        {
            if self.users[i].user_id == uid {
                return true;
            }
            i += 1;
        }
        false
    }

    fn profile_at(&self, i: usize, following: bool) -> (r: Profile)
        requires
            i < self.users_view().len(),
        ensures
            r == profile_for(self.users_view()[i as int], following),
    {
        let u = &self.users[i];
        let image = match &u.image {
            Some(s) => Some(s.clone()),
            None => None,
        };
        Profile { username: u.username.clone(), bio: u.bio.clone(), image, following }
    }
}

/// What a successful follow call does to the store: the target resolves,
/// is not the follower, the user table is untouched, and exactly the one
/// edge is present afterwards — added now, or already there.
pub open spec fn follow_ok_transition(pre: Store, post: Store, follower: u128, name: Seq<
    char,
>) -> bool {
    &&& pre.follow_allowed(follower, name)
    &&& post.wf()
    &&& post.users_view() == pre.users_view()
    &&& {
        let t = pre.user_named(name).user_id;
        if pre.has_edge(follower, t) {
            post.edges_view() == pre.edges_view()
        } else {
            post.edges_view() == pre.edges_view().push(
                FollowEdge { follower_id: follower, followed_id: t },
            )
        }
    }
}

impl Store {
    /// Follows the user named `username` on behalf of `follower`.
    ///
    /// `NotFound` when the target does not resolve; `Forbidden` on a
    /// self-follow, with the graph untouched; otherwise success, with
    /// the edge present afterwards (re-follow is a no-op) and the
    /// target's profile reported with `following = true`.
    pub fn follow(&mut self, follower: &AuthUser, username: &String) -> (r: Result<
        Profile,
        ApiError,
    >)
        requires
            old(self).wf(),
        ensures
            final(self).wf(),
            final(self).users_view() == old(self).users_view(),
            r matches Err(e) ==> *final(self) == *old(self) && (e == ApiError::NotFound || e
                == ApiError::Forbidden),
            (r == Err::<Profile, ApiError>(ApiError::NotFound)) <==> !old(self).has_user_named(
                username@,
            ),
            (r == Err::<Profile, ApiError>(ApiError::Forbidden)) <==> (old(self).has_user_named(
                username@,
            ) && old(self).user_named(username@).user_id == follower.user_id),
            r is Ok <==> old(self).follow_allowed(follower.user_id, username@),
            r is Ok ==> follow_ok_transition(
                *old(self),
                *final(self),
                follower.user_id,
                username@,
            ),
            r matches Ok(p) ==> p == profile_for(old(self).user_named(username@), true)
                && final(self).has_edge(follower.user_id, old(self).user_named(username@).user_id),
    {
        let idx = match self.find_by_username(username) {
            Some(i) => i,
            None => {
                return Err(ApiError::NotFound);
            },
        };
        proof {
            self.lemma_user_named_at(username@, idx as int);
        }
        let tid = self.users[idx].user_id;
        if tid == follower.user_id {
            return Err(ApiError::Forbidden);
        }
        let already = match self.edge_index(follower.user_id, tid) {
            Some(_) => true,
            None => false,
        };
        if !already {
            let ghost pre_edges = self.edges@;
            self.edges.push(FollowEdge { follower_id: follower.user_id, followed_id: tid });
            proof {
                assert forall|i: int, j: int|
                    0 <= i < j < self.edges@.len() implies self.edges@[i] != self.edges@[j] by {
                    if j == self.edges@.len() - 1 {
                        assert(!pre_edges.contains(self.edges@[j]));
                        assert(pre_edges[i] == self.edges@[i]);
                    }
                }
            }
        }
        let p = self.profile_at(idx, true);
        proof {
            let e = FollowEdge { follower_id: follower.user_id, followed_id: tid };
            if !already {
                assert(self.edges_view().last() == e);
            }
            assert(self.edges_view().contains(e));
        }
        Ok(p)
    }

    /// Unfollows the user named `username` on behalf of `follower`.
    ///
    /// `NotFound` when the target does not resolve; otherwise success:
    /// the edge is removed if present and nothing changes if it is
    /// absent, and the target's profile is reported with
    /// `following = false`.
    pub fn unfollow(&mut self, follower: &AuthUser, username: &String) -> (r: Result<
        Profile,
        ApiError,
    >)
        requires
            old(self).wf(),
        ensures
            final(self).wf(),
            final(self).users_view() == old(self).users_view(),
            r matches Err(e) ==> *final(self) == *old(self) && e == ApiError::NotFound,
            (r is Err) <==> !old(self).has_user_named(username@),
            r matches Ok(p) ==> p == profile_for(old(self).user_named(username@), false),
            r is Ok ==> {
                let t = old(self).user_named(username@).user_id;
                &&& !final(self).has_edge(follower.user_id, t)
                &&& forall|e: FollowEdge|
                    final(self).edges_view().contains(e) <==> (old(
                        self,
                    ).edges_view().contains(e) && !(e.follower_id == follower.user_id
                        && e.followed_id == t))
                &&& (!old(self).has_edge(follower.user_id, t) ==> final(self).edges_view() == old(
                    self,
                ).edges_view())
                &&& (old(self).has_edge(follower.user_id, t) ==> final(self).edges_view().len()
                    == old(self).edges_view().len() - 1)
            },
    {
        let idx = match self.find_by_username(username) {
            Some(i) => i,
            None => {
                return Err(ApiError::NotFound);
            },
        };
        proof {
            self.lemma_user_named_at(username@, idx as int);
        }
        let tid = self.users[idx].user_id;
        let ghost target = FollowEdge { follower_id: follower.user_id, followed_id: tid };
        match self.edge_index(follower.user_id, tid) {
            Some(ei) => {
                let ghost pre_edges = self.edges@;
                self.edges.remove(ei);
                proof {
                    let post = self.edges@;
                    assert(post =~= pre_edges.subrange(0, ei as int) + pre_edges.subrange(
                        ei + 1,
                        pre_edges.len() as int,
                    ));
                    assert forall|i: int, j: int|
                        0 <= i < j < post.len() implies post[i] != post[j] by {
                        let oi = if i < ei as int {
                            i
                        } else {
                            i + 1
                        };
                        let oj = if j < ei as int {
                            j
                        } else {
                            j + 1
                        };
                        assert(post[i] == pre_edges[oi]);
                        assert(post[j] == pre_edges[oj]);
                    }
                    assert forall|e: FollowEdge|
                        post.contains(e) <==> (pre_edges.contains(e) && e != target) by {
                        if post.contains(e) {
                            let k = choose|k: int| 0 <= k < post.len() && post[k] == e;
                            let ok = if k < ei as int {
                                k
                            } else {
                                k + 1
                            };
                            assert(pre_edges[ok] == e);
                            if e == target {
                                if ok < ei as int {
                                    assert(pre_edges[ok] != pre_edges[ei as int]);
                                } else {
                                    assert(pre_edges[ei as int] != pre_edges[ok]);
                                }
                            }
                        }
                        if pre_edges.contains(e) && e != target {
                            let k = choose|k: int| 0 <= k < pre_edges.len() && pre_edges[k] == e;
                            assert(k != ei as int);
                            if k < ei as int {
                                assert(post[k] == e);
                            } else {
                                assert(post[k - 1] == e);
                            }
                        }
                    }
                    assert(!post.contains(target));
                }
            },
            None => {
                proof {
                    assert forall|e: FollowEdge|
                        self.edges@.contains(e) <==> (self.edges@.contains(e) && e != target) by {
                        if self.edges@.contains(e) && e == target {
                            assert(self.has_edge(follower.user_id, tid));
                        }
                    }
                }
            },
        }
        let p = self.profile_at(idx, false);
        Ok(p)
    }

    /// The profile of `username` as seen by `viewer`: `following` is the
    /// current edge state, `false` for an anonymous viewer.
    pub fn get_profile(&self, viewer: Option<u128>, username: &String) -> (r: Result<
        Profile,
        ApiError,
    >)
        requires
            self.wf(),
        ensures
            (r is Err) <==> !self.has_user_named(username@),
            r matches Err(e) ==> e == ApiError::NotFound,
            r matches Ok(p) ==> p == profile_for(
                self.user_named(username@),
                self.viewer_follows(viewer, self.user_named(username@).user_id),
            ),
    {
        let idx = match self.find_by_username(username) {
            Some(i) => i,
            None => {
                return Err(ApiError::NotFound);
            },
        };
        proof {
            self.lemma_user_named_at(username@, idx as int);
        }
        let tid = self.users[idx].user_id;
        let following = match viewer {
            Some(v) => self.is_following(v, tid),
            None => false,
        };
        Ok(self.profile_at(idx, following))
    }
}

/// The profile rows for `users` in order, as `viewer` sees them: the
/// viewer's own row is skipped, every other row carries the current
/// edge state.
pub open spec fn profile_rows(s: Store, users: Seq<UserRecord>, viewer: Option<u128>) -> Seq<
    Profile,
>
    decreases users.len(),
{
    if users.len() == 0 {
        Seq::empty()
    } else {
        let rest = profile_rows(s, users.drop_last(), viewer);
        let u = users.last();
        match viewer {
            Some(v) => if u.user_id == v {
                rest
            } else {
                rest.push(profile_for(u, s.has_edge(v, u.user_id)))
            },
            None => rest.push(profile_for(u, false)),
        }
    }
}

impl Store {
    /// All profiles as `viewer` sees them, the viewer's own row excluded.
    pub fn list_profiles(&self, viewer: Option<u128>) -> (r: Vec<Profile>)
        requires
            self.wf(),
        ensures
            r@ == profile_rows(*self, self.users_view(), viewer),
    {
        let mut out: Vec<Profile> = Vec::new();
        let mut i: usize = 0;
        while i < self.users.len()
            invariant
                self.wf(),
                i <= self.users@.len(),
                out@ == profile_rows(*self, self.users_view().take(i as int), viewer),
            decreases self.users@.len() - i,
        {
            let tid = self.users[i].user_id;
            proof {
                let t = self.users_view().take(i + 1 as int);
                assert(t.drop_last() =~= self.users_view().take(i as int));
                assert(t.last() == self.users_view()[i as int]);
            }
            match viewer {
                Some(v) => {
                    if tid != v {
                        let following = self.is_following(v, tid);
                        let p = self.profile_at(i, following);
                        out.push(p);
                    }
                },
                None => {
                    let p = self.profile_at(i, false);
                    out.push(p);
                },
            }
            i += 1;
        }
        proof {
            assert(self.users_view().take(self.users_view().len() as int) =~= self.users_view());
        }
        out
    }
}

/// Listing for a signed-in viewer: no row is the viewer's own — neither
/// by id nor, in a well-formed store, by username — and every row's
/// `following` flag is exactly the edge state for that row's user.
pub proof fn lemma_profile_rows_viewer(s: Store, users: Seq<UserRecord>, v: u128)
    ensures
        forall|j: int|
            #![trigger profile_rows(s, users, Some(v))[j]]
            0 <= j < profile_rows(s, users, Some(v)).len() ==> exists|i: int|
                0 <= i < users.len() && (#[trigger] users[i]).user_id != v && profile_rows(
                    s,
                    users,
                    Some(v),
                )[j] == profile_for(users[i], s.has_edge(v, users[i].user_id)),
    decreases users.len(),
{
    if users.len() > 0 {
        lemma_profile_rows_viewer(s, users.drop_last(), v);
        let rows = profile_rows(s, users, Some(v));
        let rest = profile_rows(s, users.drop_last(), Some(v));
        assert forall|j: int| #![trigger rows[j]] 0 <= j < rows.len() implies exists|i: int|
            0 <= i < users.len() && (#[trigger] users[i]).user_id != v && rows[j] == profile_for(
                users[i],
                s.has_edge(v, users[i].user_id),
            ) by {
            if j < rest.len() {
                let i = choose|i: int|
                    0 <= i < users.drop_last().len() && (#[trigger] users.drop_last()[i]).user_id
                        != v && rest[j] == profile_for(
                        users.drop_last()[i],
                        s.has_edge(v, users.drop_last()[i].user_id),
                    );
                assert(users[i] == users.drop_last()[i]);
                assert(users[i].user_id != v && rows[j] == profile_for(
                    users[i],
                    s.has_edge(v, users[i].user_id),
                ));
            } else {
                let i = users.len() - 1;
                assert(users[i] == users.last());
                assert(users[i].user_id != v && rows[j] == profile_for(
                    users[i],
                    s.has_edge(v, users[i].user_id),
                ));
            }
        }
    }
}

/// In a well-formed store the viewer's own row is absent from the
/// listing even by name: no returned profile carries the viewer's
/// username.
pub proof fn lemma_profile_rows_not_viewers_name(s: Store, v: u128, vi: int)
    requires
        s.wf(),
        0 <= vi < s.users_view().len(),
        s.users_view()[vi].user_id == v,
    ensures
        forall|j: int|
            0 <= j < profile_rows(s, s.users_view(), Some(v)).len() ==> (#[trigger] profile_rows(
                s,
                s.users_view(),
                Some(v),
            )[j]).username@ != s.users_view()[vi].username@,
{
    lemma_profile_rows_viewer(s, s.users_view(), v);
    let users = s.users_view();
    let rows = profile_rows(s, users, Some(v));
    assert forall|j: int| 0 <= j < rows.len() implies (#[trigger] rows[j]).username@
        != users[vi].username@ by {
        let i = choose|i: int|
            0 <= i < users.len() && (#[trigger] users[i]).user_id != v && rows[j] == profile_for(
                users[i],
                s.has_edge(v, users[i].user_id),
            );
        if i < vi {
            assert(users[i].username@ != users[vi].username@);
        } else if vi < i {
            assert(users[vi].username@ != users[i].username@);
        }
    }
}

/// Following twice is the same as following once: after a successful
/// follow, the same request is still allowed — the target still resolves
/// and is still not the follower — and a second successful call leaves
/// the edge set exactly as it was, with the one edge present at exactly
/// one position.
pub proof fn lemma_follow_idempotent(s0: Store, s1: Store, s2: Store, f: u128, name: Seq<char>)
    requires
        follow_ok_transition(s0, s1, f, name),
        follow_ok_transition(s1, s2, f, name),
    ensures
        s2.edges_view() == s1.edges_view(),
        s1.has_edge(f, s1.user_named(name).user_id),
        forall|i: int, j: int|
            0 <= i < j < s1.edges_view().len() ==> s1.edges_view()[i] != s1.edges_view()[j],
{
    let t = s0.user_named(name).user_id;
    assert(s1.user_named(name) == s0.user_named(name));
    if s0.has_edge(f, t) {
        assert(s1.edges_view() == s0.edges_view());
    } else {
        assert(s1.edges_view().last() == (FollowEdge { follower_id: f, followed_id: t }));
    }
    assert(s1.has_edge(f, t));
    assert(s2.edges_view() == s1.edges_view());
}

/// A successful follow never touches the user table, so the same
/// request succeeds again.
pub proof fn lemma_follow_again_allowed(s0: Store, s1: Store, f: u128, name: Seq<char>)
    requires
        follow_ok_transition(s0, s1, f, name),
    ensures
        s1.follow_allowed(f, name),
{
    assert(s1.user_named(name) == s0.user_named(name));
    assert(s1.has_user_named(name));
}

} // verus!

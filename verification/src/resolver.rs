use vstd::prelude::*;
use crate::model::{FollowWithOrder, FollowingUser, UserProfile, spec_following_of};

verus! {

/// The first profile of the directory whose handle (`user_link`) is
/// `handle`, if any.
pub open spec fn spec_lookup(table: Seq<UserProfile>, handle: Seq<char>) -> Option<UserProfile>
    decreases table.len(),
{
    if table.len() == 0 {
        None
    } else if table[0].user_link@ == handle {
        Some(table[0])
    } else {
        spec_lookup(table.drop_first(), handle)
    }
}

/// A profile found by lookup is a member of the directory.
pub proof fn lemma_lookup_is_member(table: Seq<UserProfile>, handle: Seq<char>)
    requires
        spec_lookup(table, handle) is Some,
    ensures
        exists|j: int| 0 <= j < table.len() && #[trigger] table[j] == spec_lookup(
            table,
            handle,
        )->Some_0,
    decreases table.len(),
{
    if table.len() > 0 && table[0].user_link@ != handle {
        lemma_lookup_is_member(table.drop_first(), handle);
        let j = choose|j: int|
            0 <= j < table.drop_first().len() && #[trigger] table.drop_first()[j] == spec_lookup(
                table.drop_first(),
                handle,
            )->Some_0;
        assert(table[j + 1] == spec_lookup(table, handle)->Some_0);
    }
}

/// No two edges name the same user.
pub open spec fn unique_edge_ids(s: Seq<FollowWithOrder>) -> bool {
    forall|k1: int, k2: int|
        0 <= k1 < k2 < s.len() ==> (#[trigger] s[k1]).following_user.id != (
        #[trigger] s[k2]).following_user.id
}

/// The singleton orders map of one edge.
pub open spec fn edge_entry(e: FollowWithOrder) -> Map<int, int> {
    map![e.following_user.id as int => e.order as int]
}

/// Merge of two orders maps: the union of their domains, the smaller order
/// where both name a user.
pub open spec fn merge_min(a: Map<int, int>, b: Map<int, int>) -> Map<int, int> {
    Map::new(
        |id: int| a.dom().contains(id) || b.dom().contains(id),
        |id: int|
            if !b.dom().contains(id) {
                a[id]
            } else if !a.dom().contains(id) {
                b[id]
            } else if a[id] <= b[id] {
                a[id]
            } else {
                b[id]
            },
    )
}

/// All orders of a map, one hop further out.
pub open spec fn shift_up(m: Map<int, int>) -> Map<int, int> {
    Map::new(|id: int| m.dom().contains(id), |id: int| m[id] + 1)
}

/// The orders map of a candidate edge sequence: each named user id to the
/// smallest order any of its edges gives it.
pub open spec fn edge_orders(s: Seq<FollowWithOrder>) -> Map<int, int>
    decreases s.len(),
{
    if s.len() == 0 {
        Map::empty()
    } else {
        merge_min(edge_orders(s.drop_last()), edge_entry(s.last()))
    }
}

/// Merging with the empty map changes nothing.
pub proof fn lemma_merge_min_empty(m: Map<int, int>)
    ensures
        merge_min(m, Map::empty()) == m,
        merge_min(Map::empty(), m) == m,
{
    assert(merge_min(m, Map::empty()) =~= m);
    assert(merge_min(Map::empty(), m) =~= m);
}

/// Merging orders maps is associative.
pub proof fn lemma_merge_min_assoc(a: Map<int, int>, b: Map<int, int>, c: Map<int, int>)
    ensures
        merge_min(merge_min(a, b), c) == merge_min(a, merge_min(b, c)),
{
    assert(merge_min(merge_min(a, b), c) =~= merge_min(a, merge_min(b, c)));
}

/// The orders map of a concatenation is the merge of the orders maps.
pub proof fn lemma_edge_orders_concat(a: Seq<FollowWithOrder>, b: Seq<FollowWithOrder>)
    ensures
        edge_orders(a + b) == merge_min(edge_orders(a), edge_orders(b)),
    decreases b.len(),
{
    if b.len() == 0 {
        assert(a + b =~= a);
        lemma_merge_min_empty(edge_orders(a));
    } else {
        lemma_edge_orders_concat(a, b.drop_last());
        assert((a + b).drop_last() =~= a + b.drop_last());
        assert((a + b).last() == b.last());
        lemma_merge_min_assoc(edge_orders(a), edge_orders(b.drop_last()), edge_entry(b.last()));
    }
}

/// A user id is in the orders map exactly when some edge names it.
pub proof fn lemma_edge_orders_dom(s: Seq<FollowWithOrder>, id: int)
    ensures
        edge_orders(s).dom().contains(id) <==> exists|k: int|
            0 <= k < s.len() && (#[trigger] s[k]).following_user.id == id,
    decreases s.len(),
{
    if s.len() > 0 {
        lemma_edge_orders_dom(s.drop_last(), id);
        if edge_orders(s).dom().contains(id) {
            if edge_orders(s.drop_last()).dom().contains(id) {
                let k = choose|k: int|
                    0 <= k < s.drop_last().len() && (#[trigger] s.drop_last()[k]).following_user.id
                        == id;
                assert(s[k].following_user.id == id);
            } else {
                assert(s[s.len() - 1].following_user.id == id);
            }
        }
        if exists|k: int| 0 <= k < s.len() && (#[trigger] s[k]).following_user.id == id {
            let k = choose|k: int| 0 <= k < s.len() && (#[trigger] s[k]).following_user.id == id;
            if k < s.len() - 1 {
                assert(s.drop_last()[k].following_user.id == id);
            }
        }
    }
}

/// In a sequence without repeated ids, the orders map gives each edge its
/// own order.
pub proof fn lemma_edge_orders_unique_at(s: Seq<FollowWithOrder>, k: int)
    requires
        unique_edge_ids(s),
        0 <= k < s.len(),
    ensures
        edge_orders(s).dom().contains(s[k].following_user.id as int),
        edge_orders(s)[s[k].following_user.id as int] == s[k].order,
    decreases s.len(),
{
    lemma_edge_orders_dom(s, s[k].following_user.id as int);
    if k == s.len() - 1 {
        lemma_edge_orders_dom(s.drop_last(), s[k].following_user.id as int);
        if edge_orders(s.drop_last()).dom().contains(s[k].following_user.id as int) {
            let j = choose|j: int|
                0 <= j < s.drop_last().len() && (#[trigger] s.drop_last()[j]).following_user.id
                    == s[k].following_user.id;
            assert(s[j].following_user.id == s[k].following_user.id);
            assert(false);
        }
    } else {
        assert(unique_edge_ids(s.drop_last()));
        lemma_edge_orders_unique_at(s.drop_last(), k);
        assert(s.drop_last()[k] == s[k]);
        assert(s[s.len() - 1].following_user.id != s[k].following_user.id);
    }
}

/// Shifting orders distributes over merging.
pub proof fn lemma_shift_merge(a: Map<int, int>, b: Map<int, int>)
    ensures
        shift_up(merge_min(a, b)) == merge_min(shift_up(a), shift_up(b)),
{
    assert(shift_up(merge_min(a, b)) =~= merge_min(shift_up(a), shift_up(b)));
}

/// Raising every edge's order by one shifts the whole orders map.
pub proof fn lemma_edge_orders_bump(s: Seq<FollowWithOrder>, t: Seq<FollowWithOrder>)
    requires
        t.len() == s.len(),
        forall|k: int|
            0 <= k < s.len() ==> (#[trigger] t[k]).following_user == s[k].following_user
                && t[k].order == s[k].order + 1,
    ensures
        edge_orders(t) == shift_up(edge_orders(s)),
    decreases s.len(),
{
    if s.len() == 0 {
        assert(edge_orders(t) =~= shift_up(edge_orders(s)));
    } else {
        assert(forall|k: int|
            0 <= k < s.drop_last().len() ==> (#[trigger] t.drop_last()[k]).following_user
                == s.drop_last()[k].following_user && t.drop_last()[k].order == s.drop_last()[k].order
                + 1);
        lemma_edge_orders_bump(s.drop_last(), t.drop_last());
        lemma_shift_merge(edge_orders(s.drop_last()), edge_entry(s.last()));
        assert(t.last().following_user == s.last().following_user && t.last().order == s.last().order
            + 1);
        assert(edge_entry(t.last()) =~= shift_up(edge_entry(s.last())));
    }
}

/// Replacing the edge that names a user by one with a smaller order is the
/// minimum-merge of that order.
pub proof fn lemma_edge_orders_update(s: Seq<FollowWithOrder>, k: int, e: FollowWithOrder)
    requires
        unique_edge_ids(s),
        0 <= k < s.len(),
        s[k].following_user.id == e.following_user.id,
        e.order <= s[k].order,
    ensures
        unique_edge_ids(s.update(k, e)),
        edge_orders(s.update(k, e)) == merge_min(edge_orders(s), edge_entry(e)),
{
    let s2 = s.update(k, e);
    assert(forall|j: int|
        0 <= j < s.len() ==> (#[trigger] s2[j]).following_user.id == s[j].following_user.id);
    assert(unique_edge_ids(s2));
    let lhs = edge_orders(s2);
    let rhs = merge_min(edge_orders(s), edge_entry(e));
    assert forall|id: int| lhs.dom().contains(id) == rhs.dom().contains(id) by {
        lemma_edge_orders_dom(s, id);
        lemma_edge_orders_dom(s2, id);
        if exists|j: int| 0 <= j < s.len() && (#[trigger] s[j]).following_user.id == id {
            let j = choose|j: int| 0 <= j < s.len() && (#[trigger] s[j]).following_user.id == id;
            assert(s2[j].following_user.id == id);
        }
        if exists|j: int| 0 <= j < s2.len() && (#[trigger] s2[j]).following_user.id == id {
            let j = choose|j: int| 0 <= j < s2.len() && (#[trigger] s2[j]).following_user.id == id;
            assert(s[j].following_user.id == id);
        }
    }
    assert forall|id: int| lhs.dom().contains(id) implies lhs[id] == rhs[id] by {
        lemma_edge_orders_dom(s2, id);
        let j = choose|j: int| 0 <= j < s2.len() && (#[trigger] s2[j]).following_user.id == id;
        lemma_edge_orders_unique_at(s2, j);
        lemma_edge_orders_dom(s, id);
        lemma_edge_orders_unique_at(s, k);
        if id == e.following_user.id {
            assert(s2[k].following_user.id == id);
            if j != k {
                assert(s2[j].following_user.id != s2[k].following_user.id);
                assert(false);
            }
            assert(lhs[id] == e.order);
        } else {
            assert(j != k);
            assert(s[j] == s2[j]);
            lemma_edge_orders_unique_at(s, j);
        }
    }
    assert(lhs =~= rhs);
}

/// An edge whose user already carries an order no larger merges to nothing.
pub proof fn lemma_edge_orders_skip(s: Seq<FollowWithOrder>, k: int, e: FollowWithOrder)
    requires
        unique_edge_ids(s),
        0 <= k < s.len(),
        s[k].following_user.id == e.following_user.id,
        s[k].order <= e.order,
    ensures
        edge_orders(s) == merge_min(edge_orders(s), edge_entry(e)),
{
    let lhs = edge_orders(s);
    let rhs = merge_min(edge_orders(s), edge_entry(e));
    lemma_edge_orders_unique_at(s, k);
    assert forall|id: int| lhs.dom().contains(id) implies lhs[id] == rhs[id] by {
        if id == e.following_user.id as int {
            assert(lhs[id] == s[k].order);
        }
    }
    assert(lhs =~= rhs);
}

/// Appending one edge to the candidates merges its order in.
pub proof fn lemma_edge_orders_push(s: Seq<FollowWithOrder>, e: FollowWithOrder)
    ensures
        edge_orders(s.push(e)) == merge_min(edge_orders(s), edge_entry(e)),
{
    assert(s.push(e).drop_last() =~= s);
    assert(s.push(e).last() == e);
}

/// The resolved follow graph of `root` within `order` hops, as an orders
/// map: each reachable user id (through profiles the directory `table`
/// resolves) to the minimum hop distance at which it is discovered. The
/// root itself is at distance zero; a followee whose profile the directory
/// does not resolve is a failed branch and contributes nothing.
pub open spec fn spec_resolve(table: Seq<UserProfile>, root: UserProfile, order: int) -> Map<
    int,
    int,
>
    decreases order, 1int, 0int,
{
    let base = map![root.id as int => 0int];
    if order <= 0 {
        base
    } else {
        merge_min(base, spec_children(table, root.following_users@, order))
    }
}

/// The merged contribution of the root's followees: each followee's own
/// resolution at one hop less, every order raised by one, merged by
/// minimum; a followee without a resolvable profile is dropped.
pub open spec fn spec_children(
    table: Seq<UserProfile>,
    followees: Seq<FollowingUser>,
    order: int,
) -> Map<int, int>
    decreases order, 0int, followees.len(),
{
    if order <= 0 || followees.len() == 0 {
        Map::empty()
    } else {
        let rest = spec_children(table, followees.drop_last(), order);
        let branch = match spec_lookup(table, followees.last().user_link@) {
            Some(p) => shift_up(spec_resolve(table, p, order - 1)),
            None => Map::empty(),
        };
        merge_min(rest, branch)
    }
}

/// Every order a resolution assigns lies between zero and the hop bound,
/// and the root is present at distance zero.
pub proof fn lemma_spec_resolve_bounds(table: Seq<UserProfile>, root: UserProfile, order: int)
    requires
        order >= 0,
    ensures
        spec_resolve(table, root, order).dom().contains(root.id as int),
        spec_resolve(table, root, order)[root.id as int] == 0,
        forall|id: int| #[trigger]
            spec_resolve(table, root, order).dom().contains(id) ==> 0 <= spec_resolve(
                table,
                root,
                order,
            )[id] <= order,
    decreases order, 1int, 0int,
{
    let base = map![root.id as int => 0int];
    let m = spec_resolve(table, root, order);
    assert(base.dom().contains(root.id as int));
    if order <= 0 {
        assert(m == base);
    } else {
        lemma_spec_children_bounds(table, root.following_users@, order);
        let ch = spec_children(table, root.following_users@, order);
        assert(m == merge_min(base, ch));
        assert(m.dom().contains(root.id as int));
        if ch.dom().contains(root.id as int) {
            assert(1 <= ch[root.id as int]);
        }
        assert(m[root.id as int] == 0);
        assert forall|id: int| #[trigger] m.dom().contains(id) implies 0 <= m[id] <= order by {
            if ch.dom().contains(id) {
                assert(1 <= ch[id] <= order);
            }
        }
    }
}

/// Every order a followee contribution assigns lies between one and the
/// hop bound.
pub proof fn lemma_spec_children_bounds(
    table: Seq<UserProfile>,
    followees: Seq<FollowingUser>,
    order: int,
)
    requires
        order >= 1,
    ensures
        forall|id: int| #[trigger]
            spec_children(table, followees, order).dom().contains(id) ==> 1 <= spec_children(
                table,
                followees,
                order,
            )[id] <= order,
    decreases order, 0int, followees.len(),
{
    let m = spec_children(table, followees, order);
    if followees.len() == 0 {
        assert(m == Map::<int, int>::empty());
    } else {
        lemma_spec_children_bounds(table, followees.drop_last(), order);
        let rest = spec_children(table, followees.drop_last(), order);
        match spec_lookup(table, followees.last().user_link@) {
            Some(p) => {
                lemma_spec_resolve_bounds(table, p, order - 1);
                let sub = spec_resolve(table, p, order - 1);
                assert(m == merge_min(rest, shift_up(sub)));
                assert forall|id: int| #[trigger] m.dom().contains(id) implies 1 <= m[id]
                    <= order by {
                    if shift_up(sub).dom().contains(id) {
                        assert(sub.dom().contains(id));
                        assert(0 <= sub[id] <= order - 1);
                    }
                }
            },
            None => {
                assert(m == merge_min(rest, Map::empty()));
                lemma_merge_min_empty(rest);
            },
        }
    }
}

/// Finds the first profile of the directory whose handle is `handle`.
#[verifier::loop_isolation(false)]
pub fn lookup_profile<'a>(table: &'a Vec<UserProfile>, handle: &str) -> (r: Option<&'a UserProfile>)
    ensures
        match r {
            Some(p) => spec_lookup(table@, handle@) == Some(*p),
            None => spec_lookup(table@, handle@) is None,
        },
{
    let n = table.len();
    let mut i: usize = 0;
    proof {
        assert(table@.skip(0) =~= table@);
    }
    while i < n
        invariant
            i <= n,
            spec_lookup(table@, handle@) == spec_lookup(table@.skip(i as int), handle@),
        decreases n - i,
    {
        if crate::text::str_eq(table[i].user_link.as_str(), handle) {
            proof {
                assert(table@.skip(i as int)[0] == table@[i as int]);
            }
            return Some(&table[i]);
        }
        proof {
            assert(table@.skip(i as int)[0] == table@[i as int]);
            assert(table@.skip(i as int).drop_first() =~= table@.skip(i as int + 1));
        }
        i = i + 1;
    }
    None
}

/// Raises every edge's order by one hop: a followee's resolved graph, seen
/// from the root, is one hop further out.
#[verifier::loop_isolation(false)]
pub fn bump_orders(edges: Vec<FollowWithOrder>) -> (r: Vec<FollowWithOrder>)
    requires
        forall|k: int| 0 <= k < edges@.len() ==> (#[trigger] edges@[k]).order < i64::MAX,
    ensures
        r@.len() == edges@.len(),
        forall|k: int|
            0 <= k < edges@.len() ==> (#[trigger] r@[k]).following_user
                == edges@[k].following_user && r@[k].order == edges@[k].order + 1,
        edge_orders(r@) == shift_up(edge_orders(edges@)),
{
    let ghost e0 = edges@;
    let mut edges = edges;
    let mut out: Vec<FollowWithOrder> = Vec::new();
    proof {
        assert(e0.skip(0) =~= e0);
    }
    while edges.len() > 0
        invariant
            edges@ == e0.skip(out@.len() as int),
            out@.len() <= e0.len(),
            forall|k: int|
                0 <= k < out@.len() ==> (#[trigger] out@[k]).following_user
                    == e0[k].following_user && out@[k].order == e0[k].order + 1,
        decreases edges@.len(),
    {
        let ghost i = out@.len() as int;
        let e = edges.remove(0);
        proof {
            assert(e == e0[i]);
            assert(edges@ =~= e0.skip(i + 1));
        }
        out.push(FollowWithOrder { following_user: e.following_user, order: e.order + 1 });
    }
    proof {
        lemma_edge_orders_bump(e0, out@);
    }
    out
}

/// Finds an edge that names user `id` in the accumulator, if one is there.
#[verifier::loop_isolation(false)]
fn find_by_id(acc: &Vec<FollowWithOrder>, id: i64) -> (r: Option<usize>)
    ensures
        match r {
            Some(idx) => idx < acc@.len() && acc@[idx as int].following_user.id == id,
            None => forall|k: int|
                0 <= k < acc@.len() ==> (#[trigger] acc@[k]).following_user.id != id,
        },
{
    let n = acc.len();
    let mut k: usize = 0;
    while k < n
        invariant
            k <= n,
            forall|j: int| 0 <= j < k ==> (#[trigger] acc@[j]).following_user.id != id,
        decreases n - k,
    {
        if acc[k].following_user.id == id {
            return Some(k);
        }
        k = k + 1;
    }
    None
}

/// Deduplicates candidate edges by user id, keeping for each user the
/// record with the smallest order (on a tie, the record seen first): an
/// explicit fold over the candidate list with the minimum-order comparator.
#[verifier::loop_isolation(false)]
pub fn dedup_min_order(candidates: Vec<FollowWithOrder>) -> (r: Vec<FollowWithOrder>)
    ensures
        unique_edge_ids(r@),
        edge_orders(r@) == edge_orders(candidates@),
        forall|k: int|
            0 <= k < r@.len() ==> exists|j: int|
                0 <= j < candidates@.len() && #[trigger] r@[k] == candidates@[j],
{
    let ghost c0 = candidates@;
    let mut rest = candidates;
    let n0 = rest.len();
    let mut acc: Vec<FollowWithOrder> = Vec::new();
    let mut i: usize = 0;
    proof {
        assert(c0.len() == n0);
        assert(c0.skip(0) =~= c0);
        assert(c0.take(0) =~= Seq::<FollowWithOrder>::empty());
    }
    while rest.len() > 0
        invariant
            rest@ == c0.skip(i as int),
            i <= c0.len(),
            unique_edge_ids(acc@),
            edge_orders(acc@) == edge_orders(c0.take(i as int)),
            forall|k: int|
                0 <= k < acc@.len() ==> exists|j: int|
                    0 <= j < c0.len() && #[trigger] acc@[k] == c0[j],
        decreases rest@.len(),
    {
        let e = rest.remove(0);
        proof {
            assert(e == c0[i as int]);
            assert(rest@ =~= c0.skip(i as int + 1));
            assert(c0.take(i as int + 1).drop_last() =~= c0.take(i as int));
            assert(c0.take(i as int + 1).last() == c0[i as int]);
        }
        let ghost acc0 = acc@;
        match find_by_id(&acc, e.following_user.id) {
            Some(idx) => {
                if e.order < acc[idx].order {
                    proof {
                        lemma_edge_orders_update(acc0, idx as int, e);
                    }
                    acc.set(idx, e);
                    proof {
                        assert(acc@ =~= acc0.update(idx as int, e));
                    }
                } else {
                    proof {
                        lemma_edge_orders_skip(acc0, idx as int, e);
                    }
                }
            },
            None => {
                proof {
                    lemma_edge_orders_push(acc0, e);
                }
                acc.push(e);
            },
        }
        i = i + 1;
    }
    proof {
        assert(c0.take(c0.len() as int) =~= c0);
    }
    acc
}

/// An edge's user record comes from the resolution itself: it is the
/// projection of the root's profile or of a profile of the directory.
pub open spec fn edge_from_directory(
    table: Seq<UserProfile>,
    root: UserProfile,
    e: FollowWithOrder,
) -> bool {
    e.following_user == spec_following_of(root) || exists|j: int|
        0 <= j < table.len() && e.following_user == spec_following_of(#[trigger] table[j])
}

/// Resolves the follow graph of `root` up to `order` hops: the recursive,
/// bounded-depth expansion of the "follows" relation, with each followee's
/// profile resolved through the directory `table`.
///
/// The result always holds the root itself at order zero. A user reached on
/// several discovery paths appears once, at the smallest hop distance (on a
/// tie, the record discovered first is kept). A followee whose profile the
/// directory does not resolve is a failed branch: its whole contribution is
/// dropped without failing the resolution.
#[verifier::loop_isolation(false)]
pub fn resolve_follow_graph(table: &Vec<UserProfile>, root: &UserProfile, order: i64) -> (r: Vec<
    FollowWithOrder,
>)
    requires
        0 <= order,
    ensures
        unique_edge_ids(r@),
        edge_orders(r@) == spec_resolve(table@, *root, order as int),
        forall|k: int| 0 <= k < r@.len() ==> 0 <= (#[trigger] r@[k]).order <= order,
        forall|k: int| 0 <= k < r@.len() ==> edge_from_directory(table@, *root, #[trigger] r@[k]),
        order == 0 ==> r@ == seq![
            (FollowWithOrder { following_user: spec_following_of(*root), order: 0 }),
        ],
    decreases order,
{
    let root_edge = FollowWithOrder {
        following_user: FollowingUser {
            id: root.id,
            first_name: root.first_name.clone(),
            last_name: root.last_name.clone(),
            user_link: root.user_link.clone(),
            last_online: root.last_online,
        },
        order: 0,
    };
    let ghost base = map![root.id as int => 0int];
    proof {
        assert(root_edge.following_user == spec_following_of(*root));
        assert(edge_entry(root_edge) =~= base);
    }
    if order == 0 {
        let mut r: Vec<FollowWithOrder> = Vec::new();
        r.push(root_edge);
        proof {
            assert(r@ =~= seq![root_edge]);
            assert(r@.drop_last() =~= Seq::<FollowWithOrder>::empty());
            lemma_merge_min_empty(edge_entry(root_edge));
            assert(r@.last() == root_edge);
            assert(edge_orders(r@) == merge_min(
                edge_orders(r@.drop_last()),
                edge_entry(root_edge),
            ));
            assert(edge_orders(r@) == base);
        }
        return r;
    }
    let mut candidates: Vec<FollowWithOrder> = Vec::new();
    candidates.push(root_edge);
    proof {
        assert(candidates@.drop_last() =~= Seq::<FollowWithOrder>::empty());
        lemma_merge_min_empty(edge_entry(root_edge));
        assert(candidates@.last() == root_edge);
        assert(edge_orders(candidates@) == merge_min(
            edge_orders(candidates@.drop_last()),
            edge_entry(root_edge),
        ));
        assert(edge_orders(candidates@) == base);
        assert(root.following_users@.take(0) =~= Seq::<FollowingUser>::empty());
        lemma_merge_min_empty(base);
    }
    let m = root.following_users.len();
    let mut fi: usize = 0;
    while fi < m
        invariant
            fi <= m,
            edge_orders(candidates@) == merge_min(
                base,
                spec_children(table@, root.following_users@.take(fi as int), order as int),
            ),
            forall|k: int|
                0 <= k < candidates@.len() ==> 0 <= (#[trigger] candidates@[k]).order <= order,
            forall|k: int|
                0 <= k < candidates@.len() ==> edge_from_directory(
                    table@,
                    *root,
                    #[trigger] candidates@[k],
                ),
        decreases m - fi,
    {
        let f = &root.following_users[fi];
        let ghost prefix = root.following_users@.take(fi as int);
        let ghost prefix1 = root.following_users@.take(fi as int + 1);
        proof {
            assert(prefix1.drop_last() =~= prefix);
            assert(prefix1.last() == root.following_users@[fi as int]);
        }
        match lookup_profile(table, f.user_link.as_str()) {
            Some(p) => {
                let sub = resolve_follow_graph(table, p, order - 1);
                let mut bumped = bump_orders(sub);
                let ghost cand0 = candidates@;
                let ghost subm = spec_resolve(table@, *p, order as int - 1);
                proof {
                    lemma_lookup_is_member(table@, f.user_link@);
                    lemma_edge_orders_concat(cand0, bumped@);
                    lemma_merge_min_assoc(
                        base,
                        spec_children(table@, prefix, order as int),
                        shift_up(subm),
                    );
                    assert(spec_children(table@, prefix1, order as int) == merge_min(
                        spec_children(table@, prefix, order as int),
                        shift_up(subm),
                    ));
                }
                candidates.append(&mut bumped);
            },
            None => {
                proof {
                    lemma_merge_min_empty(spec_children(table@, prefix, order as int));
                    assert(spec_children(table@, prefix1, order as int) == spec_children(
                        table@,
                        prefix,
                        order as int,
                    ));
                }
            },
        }
        fi = fi + 1;
    }
    proof {
        assert(root.following_users@.take(m as int) =~= root.following_users@);
    }
    let r = dedup_min_order(candidates);
    proof {
        assert(spec_resolve(table@, *root, order as int) == merge_min(
            base,
            spec_children(table@, root.following_users@, order as int),
        ));
        assert forall|k: int|
            0 <= k < r@.len() implies 0 <= (#[trigger] r@[k]).order <= order
                && edge_from_directory(table@, *root, r@[k]) by {
            let j = choose|j: int| 0 <= j < candidates@.len() && r@[k] == candidates@[j];
            assert(0 <= candidates@[j].order <= order);
            assert(edge_from_directory(table@, *root, candidates@[j]));
        }
    }
    r
}

} // verus!

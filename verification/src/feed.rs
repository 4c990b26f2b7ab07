use vstd::prelude::*;
use crate::model::{Content, FollowWithOrder, LinkResponse, UserId};
use crate::text::lex_le;

verus! {

/// The feed is sorted by creation timestamp, newest first.
pub open spec fn sorted_desc(s: Seq<Content>) -> bool {
    forall|i: int, j: int|
        0 <= i < j < s.len() ==> lex_le((#[trigger] s[j]).created_date@, (
        #[trigger] s[i]).created_date@)
}

/// No two feed items share a content id.
pub open spec fn unique_content_ids(s: Seq<Content>) -> bool {
    forall|k1: int, k2: int| 0 <= k1 < k2 < s.len() ==> (#[trigger] s[k1]).id != (#[trigger] s[k2]).id
}

/// Equality of two content items everywhere but in their save-provenance.
pub open spec fn same_but_saved_by(a: Content, b: Content) -> bool {
    &&& b.id == a.id
    &&& b.link == a.link
    &&& b.title == a.title
    &&& b.favorite == a.favorite
    &&& b.snippet == a.snippet
    &&& b.to_read == a.to_read
    &&& b.created_by == a.created_by
    &&& b.created_date == a.created_date
    &&& b.modified_date == a.modified_date
    &&& b.last_crawled == a.last_crawled
    &&& b.metadata == a.metadata
    &&& b.highlights == a.highlights
    &&& b.user_ids == a.user_ids
}

/// The flattening of the fetched pages: every saved item of every page, in
/// page order, each paired with the id of the user whose page it came from.
pub open spec fn spec_flat(pages: Seq<(UserId, LinkResponse)>) -> Seq<(UserId, Content)>
    decreases pages.len(),
{
    if pages.len() == 0 {
        Seq::empty()
    } else {
        spec_flat(pages.drop_last()) + pages.last().1.user_saved@.map_values(
            |c: Content| (pages.last().0, c),
        )
    }
}

/// The cache hits of a batched content read, in input order: each edge's
/// user id with its cached page.
pub open spec fn spec_hits(
    edges: Seq<FollowWithOrder>,
    cached: Seq<Option<LinkResponse>>,
    i: int,
) -> Seq<(UserId, LinkResponse)>
    decreases i,
{
    if i <= 0 {
        Seq::empty()
    } else if cached[i - 1] is Some {
        spec_hits(edges, cached, i - 1).push(
            (edges[i - 1].following_user.id, cached[i - 1]->Some_0),
        )
    } else {
        spec_hits(edges, cached, i - 1)
    }
}

/// The cache misses of a batched content read, in input order: the user
/// ids that need a live fetch.
pub open spec fn spec_misses(
    edges: Seq<FollowWithOrder>,
    cached: Seq<Option<LinkResponse>>,
    i: int,
) -> Seq<UserId>
    decreases i,
{
    if i <= 0 {
        Seq::empty()
    } else if cached[i - 1] is None {
        spec_misses(edges, cached, i - 1).push(edges[i - 1].following_user.id)
    } else {
        spec_misses(edges, cached, i - 1)
    }
}

/// Splits the slots of a batched cache read into hits — each edge's user id
/// with its cached page — and misses — the user ids whose pages need a live
/// fetch — preserving the input order of the edges.
#[verifier::loop_isolation(false)]
pub fn partition_pages(edges: &Vec<FollowWithOrder>, cached: Vec<Option<LinkResponse>>) -> (r: (
    Vec<(UserId, LinkResponse)>,
    Vec<UserId>,
))
    requires
        cached@.len() == edges@.len(),
    ensures
        r.0@ == spec_hits(edges@, cached@, edges@.len() as int),
        r.1@ == spec_misses(edges@, cached@, edges@.len() as int),
{
    let ghost ca0 = cached@;
    let mut cached = cached;
    let n = edges.len();
    let mut hits: Vec<(UserId, LinkResponse)> = Vec::new();
    let mut misses: Vec<UserId> = Vec::new();
    let mut i: usize = 0;
    proof {
        assert(ca0.skip(0) =~= ca0);
    }
    while i < n
        invariant
            i <= n,
            cached@ == ca0.skip(i as int),
            hits@ == spec_hits(edges@, ca0, i as int),
            misses@ == spec_misses(edges@, ca0, i as int),
        decreases n - i,
    {
        let slot = cached.remove(0);
        proof {
            assert(slot == ca0[i as int]);
            assert(cached@ =~= ca0.skip(i as int + 1));
        }
        match slot {
            Some(page) => {
                hits.push((edges[i].following_user.id, page));
            },
            None => {
                misses.push(edges[i].following_user.id);
            },
        }
        i = i + 1;
    }
    (hits, misses)
}

/// Flattens the fetched pages into one list of saved items, each paired
/// with the id of the user whose page it came from.
#[verifier::loop_isolation(false)]
pub fn flatten_pages(pages: Vec<(UserId, LinkResponse)>) -> (r: Vec<(UserId, Content)>)
    ensures
        r@ == spec_flat(pages@),
{
    let ghost p0 = pages@;
    let n_pages = pages.len();
    let mut pages = pages;
    let mut out: Vec<(UserId, Content)> = Vec::new();
    let mut i: usize = 0;
    proof {
        assert(p0.len() == n_pages);
        assert(p0.skip(0) =~= p0);
        assert(p0.take(0) =~= Seq::<(UserId, LinkResponse)>::empty());
        assert(out@ =~= spec_flat(p0.take(0)));
    }
    while pages.len() > 0
        invariant
            i <= p0.len(),
            pages@ == p0.skip(i as int),
            out@ == spec_flat(p0.take(i as int)),
        decreases pages@.len(),
    {
        let (uid, page) = pages.remove(0);
        proof {
            assert((uid, page) == p0[i as int]);
            assert(pages@ =~= p0.skip(i as int + 1));
            assert(p0.take(i as int + 1).drop_last() =~= p0.take(i as int));
            assert(p0.take(i as int + 1).last() == p0[i as int]);
        }
        let ghost items0 = page.user_saved@;
        let mut items = page.user_saved;
        let n_items = items.len();
        let mut j: usize = 0;
        proof {
            assert(items0.len() == n_items);
            assert(items0.skip(0) =~= items0);
        }
        while items.len() > 0
            invariant
                j <= items0.len(),
                items@ == items0.skip(j as int),
                out@ == spec_flat(p0.take(i as int)) + items0.take(j as int).map_values(
                    |c: Content| (p0[i as int].0, c),
                ),
            decreases items@.len(),
        {
            let c = items.remove(0);
            proof {
                assert(c == items0[j as int]);
                assert(items@ =~= items0.skip(j as int + 1));
            }
            out.push((uid, c));
            proof {
                assert(items0.take(j as int + 1).map_values(|c: Content| (p0[i as int].0, c))
                    =~= items0.take(j as int).map_values(|c: Content| (p0[i as int].0, c)).push(
                    (p0[i as int].0, items0[j as int]),
                ));
                assert(out@ =~= spec_flat(p0.take(i as int)) + items0.take(j as int + 1).map_values(
                    |c: Content| (p0[i as int].0, c),
                ));
            }
            j = j + 1;
        }
        proof {
            assert(items0.take(items0.len() as int) =~= items0);
            assert(out@ =~= spec_flat(p0.take(i as int + 1)));
        }
        i = i + 1;
    }
    proof {
        assert(p0.take(p0.len() as int) =~= p0);
    }
    out
}

/// The position in the sorted feed where `c` belongs: just after every item
/// whose timestamp is no older, so that equal timestamps keep their order.
#[verifier::loop_isolation(false)]
fn find_insert_pos(out: &Vec<Content>, c: &Content) -> (k: usize)
    ensures
        k <= out@.len(),
        forall|k2: int|
            0 <= k2 < k ==> lex_le(c.created_date@, (#[trigger] out@[k2]).created_date@),
        k < out@.len() ==> !lex_le(c.created_date@, out@[k as int].created_date@),
{
    let n = out.len();
    let mut k: usize = 0;
    while k < n
        invariant
            k <= n,
            forall|k2: int|
                0 <= k2 < k ==> lex_le(c.created_date@, (#[trigger] out@[k2]).created_date@),
        decreases n - k,
    {
        if !crate::text::str_lex_le(c.created_date.as_str(), out[k].created_date.as_str()) {
            return k;
        }
        k = k + 1;
    }
    k
}

/// Sorts the flattened feed by creation timestamp, newest first: a stable
/// insertion sort, so items with equal timestamps keep their relative
/// order. The result is a permutation of the input.
#[verifier::loop_isolation(false)]
pub fn sort_by_created_desc(items: Vec<Content>) -> (r: Vec<Content>)
    ensures
        r@.to_multiset() == items@.to_multiset(),
        r@.len() == items@.len(),
        sorted_desc(r@),
{
    broadcast use vstd::seq_lib::group_to_multiset_ensures;

    let ghost it0 = items@;
    let n = items.len();
    let mut items = items;
    let mut out: Vec<Content> = Vec::new();
    let mut i: usize = 0;
    proof {
        assert(it0.skip(0) =~= it0);
        assert(it0.take(0) =~= Seq::<Content>::empty());
        assert(out@.to_multiset() =~= it0.take(0).to_multiset());
    }
    while items.len() > 0
        invariant
            i <= n,
            items@ == it0.skip(i as int),
            out@.len() == i,
            out@.to_multiset() == it0.take(i as int).to_multiset(),
            sorted_desc(out@),
        decreases items@.len(),
    {
        let c = items.remove(0);
        proof {
            assert(c == it0[i as int]);
            assert(items@ =~= it0.skip(i as int + 1));
            assert(it0.take(i as int + 1) =~= it0.take(i as int).push(c));
        }
        let k = find_insert_pos(&out, &c);
        let ghost out0 = out@;
        out.insert(k, c);
        proof {
            assert(out@ == out0.insert(k as int, c));
            assert forall|x: int, y: int| 0 <= x < y < out@.len() implies lex_le(
                out@[y].created_date@,
                out@[x].created_date@,
            ) by {
                let kk = k as int;
                if y == kk {
                    assert(out@[x] == out0[x]);
                    assert(lex_le(c.created_date@, out0[x].created_date@));
                } else if x == kk {
                    assert(out@[y] == out0[y - 1]);
                    assert(y - 1 >= kk);
                    assert(!lex_le(c.created_date@, out0[kk].created_date@));
                    crate::text::lemma_lex_le_total(c.created_date@, out0[kk].created_date@);
                    assert(lex_le(out0[kk].created_date@, c.created_date@));
                    if y - 1 > kk {
                        assert(lex_le(out0[y - 1].created_date@, out0[kk].created_date@));
                        crate::text::lemma_lex_le_trans(
                            out@[y].created_date@,
                            out0[kk].created_date@,
                            c.created_date@,
                        );
                    }
                } else if x < kk && y > kk {
                    assert(out@[x] == out0[x]);
                    assert(out@[y] == out0[y - 1]);
                    if x < y - 1 {
                        assert(lex_le(out0[y - 1].created_date@, out0[x].created_date@));
                    }
                } else if y < kk {
                    assert(out@[x] == out0[x]);
                    assert(out@[y] == out0[y]);
                } else {
                    assert(out@[x] == out0[x - 1]);
                    assert(out@[y] == out0[y - 1]);
                }
            }
        }
        i = i + 1;
    }
    proof {
        assert(it0.take(n as int) =~= it0);
    }
    out
}

/// Some item of the sequence has this content id.
pub open spec fn has_content_id(s: Seq<Content>, id: i64) -> bool {
    exists|k: int| 0 <= k < s.len() && (#[trigger] s[k]).id == id
}

/// The position of the first item with this content id.
pub open spec fn first_with_id(s: Seq<Content>, id: i64) -> int
    decreases s.len(),
{
    if s.len() == 0 {
        0
    } else if s[0].id == id {
        0
    } else {
        1 + first_with_id(s.drop_first(), id)
    }
}

/// Where an id occurs, the first occurrence is a well-placed index carrying
/// that id, with none before it.
proof fn lemma_first_with_id(s: Seq<Content>, id: i64)
    requires
        has_content_id(s, id),
    ensures
        0 <= first_with_id(s, id) < s.len(),
        s[first_with_id(s, id)].id == id,
        forall|j: int| 0 <= j < first_with_id(s, id) ==> (#[trigger] s[j]).id != id,
    decreases s.len(),
{
    if s.len() > 0 && s[0].id != id {
        let k = choose|k: int| 0 <= k < s.len() && (#[trigger] s[k]).id == id;
        assert(s.drop_first()[k - 1].id == id);
        lemma_first_with_id(s.drop_first(), id);
        let f = first_with_id(s.drop_first(), id);
        assert forall|j: int| 0 <= j < 1 + f implies (#[trigger] s[j]).id != id by {
            if j > 0 {
                assert(s.drop_first()[j - 1].id != id);
            }
        }
    }
}

/// An occurrence with no earlier occurrence of its id is the first.
proof fn lemma_first_with_id_at(s: Seq<Content>, i: int)
    requires
        0 <= i < s.len(),
        forall|j: int| 0 <= j < i ==> (#[trigger] s[j]).id != s[i].id,
    ensures
        first_with_id(s, s[i].id) == i,
    decreases i,
{
    if i == 0 {
    } else {
        assert(s[0].id != s[i].id);
        assert(forall|j: int|
            0 <= j < i - 1 ==> (#[trigger] s.drop_first()[j]).id != s.drop_first()[i - 1].id);
        lemma_first_with_id_at(s.drop_first(), i - 1);
    }
}

/// Whether some feed item already carries this content id.
#[verifier::loop_isolation(false)]
fn contains_id(items: &Vec<Content>, id: i64) -> (r: bool)
    ensures
        r == has_content_id(items@, id),
{
    let n = items.len();
    let mut k: usize = 0;
    while k < n
        invariant
            k <= n,
            forall|j: int| 0 <= j < k ==> (#[trigger] items@[j]).id != id,
        decreases n - k,
    {
        if items[k].id == id {
            return true;
        }
        k = k + 1;
    }
    false
}

/// Deduplicates the sorted feed by content id, keeping for each id its
/// first surviving occurrence after the sort (among equal timestamps,
/// whichever the stable sort placed first).
#[verifier::loop_isolation(false)]
pub fn dedup_by_id(items: Vec<Content>) -> (r: Vec<Content>)
    ensures
        unique_content_ids(r@),
        r@.len() <= items@.len(),
        sorted_desc(items@) ==> sorted_desc(r@),
        forall|k: int|
            0 <= k < r@.len() ==> 0 <= first_with_id(items@, (#[trigger] r@[k]).id) < items@.len()
                && r@[k] == items@[first_with_id(items@, r@[k].id)],
        forall|j: int| 0 <= j < items@.len() ==> has_content_id(r@, (#[trigger] items@[j]).id),
{
    let ghost it0 = items@;
    let n = items.len();
    let mut items = items;
    let mut out: Vec<Content> = Vec::new();
    let mut i: usize = 0;
    proof {
        assert(it0.skip(0) =~= it0);
    }
    while items.len() > 0
        invariant
            i <= n,
            items@ == it0.skip(i as int),
            out@.len() <= i,
            unique_content_ids(out@),
            forall|k: int|
                0 <= k < out@.len() ==> 0 <= first_with_id(it0, (#[trigger] out@[k]).id) < i
                    && out@[k] == it0[first_with_id(it0, out@[k].id)],
            forall|k1: int, k2: int|
                0 <= k1 < k2 < out@.len() ==> first_with_id(it0, (#[trigger] out@[k1]).id)
                    < first_with_id(it0, (#[trigger] out@[k2]).id),
            forall|j: int| 0 <= j < i ==> has_content_id(out@, (#[trigger] it0[j]).id),
        decreases items@.len(),
    {
        let c = items.remove(0);
        proof {
            assert(c == it0[i as int]);
            assert(items@ =~= it0.skip(i as int + 1));
        }
        if !contains_id(&out, c.id) {
            proof {
                assert forall|j: int| 0 <= j < i implies (#[trigger] it0[j]).id != c.id by {
                    assert(has_content_id(out@, it0[j].id));
                }
                lemma_first_with_id_at(it0, i as int);
            }
            let ghost outb = out@;
            out.push(c);
            proof {
                assert(out@ == outb.push(c));
                assert(has_content_id(out@, c.id)) by {
                    assert(out@[outb.len() as int] == c);
                }
                assert forall|j: int|
                    0 <= j < i + 1 implies has_content_id(out@, (#[trigger] it0[j]).id) by {
                    if j < i {
                        assert(has_content_id(outb, it0[j].id));
                        let w = choose|w: int|
                            0 <= w < outb.len() && (#[trigger] outb[w]).id == it0[j].id;
                        assert(out@[w].id == it0[j].id);
                    }
                }
            }
        } else {
            proof {
                assert(has_content_id(out@, it0[i as int].id));
            }
        }
        i = i + 1;
    }
    proof {
        assert forall|x: int, y: int|
            0 <= x < y < out@.len() && sorted_desc(it0) implies lex_le(
            out@[y].created_date@,
            out@[x].created_date@,
        ) by {
            let fx = first_with_id(it0, out@[x].id);
            let fy = first_with_id(it0, out@[y].id);
            assert(fx < fy);
            assert(lex_le(it0[fy].created_date@, it0[fx].created_date@));
        }
    }
    out
}

/// Some resolved edge names user `id`.
pub open spec fn has_edge_for(edges: Seq<FollowWithOrder>, id: UserId) -> bool {
    exists|k: int| 0 <= k < edges.len() && (#[trigger] edges[k]).following_user.id == id
}

/// The first resolved edge that names user `id`.
pub open spec fn spec_edge_of(edges: Seq<FollowWithOrder>, id: UserId) -> FollowWithOrder
    recommends
        has_edge_for(edges, id),
    decreases edges.len(),
{
    if edges.len() == 0 {
        vstd::pervasive::arbitrary()
    } else if edges[0].following_user.id == id {
        edges[0]
    } else {
        spec_edge_of(edges.drop_first(), id)
    }
}

/// An edge preceded by no other edge of its user is the one the lookup
/// finds.
proof fn lemma_edge_of_at(edges: Seq<FollowWithOrder>, k: int)
    requires
        0 <= k < edges.len(),
        forall|j: int|
            0 <= j < k ==> (#[trigger] edges[j]).following_user.id
                != edges[k].following_user.id,
    ensures
        spec_edge_of(edges, edges[k].following_user.id) == edges[k],
    decreases k,
{
    if k > 0 {
        assert(forall|j: int|
            0 <= j < k - 1 ==> (#[trigger] edges.drop_first()[j]).following_user.id
                != edges.drop_first()[k - 1].following_user.id);
        lemma_edge_of_at(edges.drop_first(), k - 1);
    }
}

/// Finds the first resolved edge that names user `id`.
#[verifier::loop_isolation(false)]
fn find_edge<'a>(edges: &'a Vec<FollowWithOrder>, id: UserId) -> (r: Option<&'a FollowWithOrder>)
    ensures
        match r {
            Some(e) => has_edge_for(edges@, id) && *e == spec_edge_of(edges@, id),
            None => !has_edge_for(edges@, id),
        },
{
    let n = edges.len();
    let mut k: usize = 0;
    while k < n
        invariant
            k <= n,
            forall|j: int| 0 <= j < k ==> (#[trigger] edges@[j]).following_user.id != id,
        decreases n - k,
    {
        if edges[k].following_user.id == id {
            proof {
                lemma_edge_of_at(edges@, k as int);
            }
            return Some(&edges[k]);
        }
        k = k + 1;
    }
    None
}

/// The provenance skeleton of the flattened pages: each item's owner id
/// paired with its content id.
pub open spec fn spec_refs(flat: Seq<(UserId, Content)>) -> Seq<(UserId, i64)> {
    flat.map_values(|p: (UserId, Content)| (p.0, p.1.id))
}

/// The save-provenance of content id `id` over the first `i` flattened
/// items: the resolved edge of each user whose page holds an item with that
/// id, one per occurrence, in flatten order.
pub open spec fn spec_saved_by(
    edges: Seq<FollowWithOrder>,
    refs: Seq<(UserId, i64)>,
    id: i64,
    i: int,
) -> Seq<FollowWithOrder>
    decreases i,
{
    if i <= 0 {
        Seq::empty()
    } else if refs[i - 1].1 == id {
        spec_saved_by(edges, refs, id, i - 1).push(spec_edge_of(edges, refs[i - 1].0))
    } else {
        spec_saved_by(edges, refs, id, i - 1)
    }
}

/// Splits the flattened items into their contents and their provenance
/// skeleton, index-aligned.
#[verifier::loop_isolation(false)]
pub fn split_flat(flat: Vec<(UserId, Content)>) -> (r: (Vec<Content>, Vec<(UserId, i64)>))
    ensures
        r.0@.len() == flat@.len(),
        forall|i: int| 0 <= i < flat@.len() ==> r.0@[i] == (#[trigger] flat@[i]).1,
        r.1@ == spec_refs(flat@),
{
    let ghost f0 = flat@;
    let n = flat.len();
    let mut flat = flat;
    let mut contents: Vec<Content> = Vec::new();
    let mut refs: Vec<(UserId, i64)> = Vec::new();
    let mut i: usize = 0;
    proof {
        assert(f0.skip(0) =~= f0);
        assert(refs@ =~= spec_refs(f0.take(0)));
    }
    while flat.len() > 0
        invariant
            i <= n,
            flat@ == f0.skip(i as int),
            contents@.len() == i,
            forall|j: int| 0 <= j < i ==> contents@[j] == (#[trigger] f0[j]).1,
            refs@ == spec_refs(f0.take(i as int)),
        decreases flat@.len(),
    {
        let (uid, c) = flat.remove(0);
        proof {
            assert((uid, c) == f0[i as int]);
            assert(flat@ =~= f0.skip(i as int + 1));
        }
        refs.push((uid, c.id));
        contents.push(c);
        proof {
            assert(refs@ =~= spec_refs(f0.take(i as int + 1)));
        }
        i = i + 1;
    }
    proof {
        assert(f0.take(n as int) =~= f0);
    }
    (contents, refs)
}

/// Collects the save-provenance of content id `id`: the resolved edge of
/// every user whose page holds an item with that id, in flatten order.
#[verifier::loop_isolation(false)]
fn collect_saved(edges: &Vec<FollowWithOrder>, refs: &Vec<(UserId, i64)>, id: i64) -> (r: Vec<
    FollowWithOrder,
>)
    requires
        forall|j: int| 0 <= j < refs@.len() ==> has_edge_for(edges@, (#[trigger] refs@[j]).0),
    ensures
        r@ == spec_saved_by(edges@, refs@, id, refs@.len() as int),
{
    let n = refs.len();
    let mut out: Vec<FollowWithOrder> = Vec::new();
    let mut j: usize = 0;
    while j < n
        invariant
            j <= n,
            out@ == spec_saved_by(edges@, refs@, id, j as int),
        decreases n - j,
    {
        if refs[j].1 == id {
            match find_edge(edges, refs[j].0) {
                Some(e) => {
                    out.push(e.clone());
                },
                None => {
                    proof {
                        assert(false);
                    }
                },
            }
        }
        j = j + 1;
    }
    out
}

/// Rebuilds each feed item's save-provenance from scratch: `saved_by`
/// becomes the list of every resolved follower whose page saved the item,
/// replacing whatever was attached before.
#[verifier::loop_isolation(false)]
pub fn apply_saved_by(
    items: Vec<Content>,
    edges: &Vec<FollowWithOrder>,
    refs: &Vec<(UserId, i64)>,
) -> (r: Vec<Content>)
    requires
        forall|j: int| 0 <= j < refs@.len() ==> has_edge_for(edges@, (#[trigger] refs@[j]).0),
    ensures
        r@.len() == items@.len(),
        forall|i: int| 0 <= i < items@.len() ==> same_but_saved_by(#[trigger] items@[i], r@[i]),
        forall|i: int|
            0 <= i < items@.len() ==> ((#[trigger] r@[i]).saved_by matches Some(sb) && sb@
                == spec_saved_by(edges@, refs@, items@[i].id, refs@.len() as int)),
{
    let ghost it0 = items@;
    let n = items.len();
    let mut items = items;
    let mut out: Vec<Content> = Vec::new();
    let mut i: usize = 0;
    proof {
        assert(it0.skip(0) =~= it0);
    }
    while items.len() > 0
        invariant
            i <= n,
            items@ == it0.skip(i as int),
            out@.len() == i,
            forall|j: int| 0 <= j < i ==> same_but_saved_by(#[trigger] it0[j], out@[j]),
            forall|j: int|
                0 <= j < i ==> ((#[trigger] out@[j]).saved_by matches Some(sb) && sb@
                    == spec_saved_by(edges@, refs@, it0[j].id, refs@.len() as int)),
        decreases items@.len(),
    {
        let mut c = items.remove(0);
        proof {
            assert(c == it0[i as int]);
            assert(items@ =~= it0.skip(i as int + 1));
        }
        let sb = collect_saved(edges, refs, c.id);
        c.saved_by = Some(sb);
        out.push(c);
        i = i + 1;
    }
    out
}

/// Truncates the feed to at most `limit` items, keeping the newest.
pub fn truncate_feed(items: Vec<Content>, limit: usize) -> (r: Vec<Content>)
    ensures
        r@ == if items@.len() > limit {
            items@.take(limit as int)
        } else {
            items@
        },
{
    let mut items = items;
    if items.len() > limit {
        items.truncate(limit);
        proof {
            assert(items@ =~= items@.take(limit as int));
        }
    }
    items
}

/// One content cache key per resolved edge, in edge order.
#[verifier::loop_isolation(false)]
pub fn content_keys(edges: &Vec<FollowWithOrder>) -> (r: Vec<String>)
    ensures
        r@.len() == edges@.len(),
        forall|i: int|
            0 <= i < edges@.len() ==> (#[trigger] r@[i])@ == crate::keys::spec_content_key(
                edges@[i].following_user.id as int,
            ),
{
    let n = edges.len();
    let mut out: Vec<String> = Vec::new();
    let mut i: usize = 0;
    while i < n
        invariant
            i <= n,
            out@.len() == i,
            forall|j: int|
                0 <= j < i ==> (#[trigger] out@[j])@ == crate::keys::spec_content_key(
                    edges@[j].following_user.id as int,
                ),
        decreases n - i,
    {
        out.push(crate::keys::content_key(edges[i].following_user.id));
        i = i + 1;
    }
    out
}

/// Some flattened item equals `c` everywhere but in its save-provenance.
pub open spec fn some_flat_matches(fs: Seq<(UserId, Content)>, c: Content) -> bool {
    exists|fi: int| 0 <= fi < fs.len() && same_but_saved_by((#[trigger] fs[fi]).1, c)
}

/// Every flattened item's owner is one of the fetched pages' users.
proof fn lemma_flat_owner_member(pages: Seq<(UserId, LinkResponse)>, fi: int)
    requires
        0 <= fi < spec_flat(pages).len(),
    ensures
        exists|j: int| 0 <= j < pages.len() && spec_flat(pages)[fi].0 == (#[trigger] pages[j]).0,
    decreases pages.len(),
{
    let head = spec_flat(pages.drop_last());
    if fi < head.len() {
        lemma_flat_owner_member(pages.drop_last(), fi);
        let j = choose|j: int|
            0 <= j < pages.drop_last().len() && spec_flat(pages.drop_last())[fi].0 == (
            #[trigger] pages.drop_last()[j]).0;
        assert(spec_flat(pages)[fi].0 == pages[j].0);
    } else {
        assert(spec_flat(pages)[fi].0 == pages[pages.len() - 1].0);
    }
}

/// Assembles the feed from the resolved follow set and the fetched pages:
/// flattens every user's page, sorts by creation timestamp newest first,
/// deduplicates by content id keeping the first survivor, rebuilds each
/// survivor's save-provenance as the list of every resolved follower who
/// saved it, and truncates to at most `limit` items.
#[verifier::loop_isolation(false)]
pub fn assemble_feed(
    edges: &Vec<FollowWithOrder>,
    pages: Vec<(UserId, LinkResponse)>,
    limit: usize,
) -> (r: Vec<Content>)
    requires
        forall|j: int| 0 <= j < pages@.len() ==> has_edge_for(edges@, (#[trigger] pages@[j]).0),
    ensures
        r@.len() <= limit,
        sorted_desc(r@),
        unique_content_ids(r@),
        forall|k: int|
            0 <= k < r@.len() ==> some_flat_matches(spec_flat(pages@), #[trigger] r@[k]),
        forall|k: int|
            0 <= k < r@.len() ==> ((#[trigger] r@[k]).saved_by matches Some(sb) && sb@
                == spec_saved_by(
                edges@,
                spec_refs(spec_flat(pages@)),
                r@[k].id,
                spec_flat(pages@).len() as int,
            )),
        forall|fi: int|
            #![trigger spec_flat(pages@)[fi]]
            0 <= fi < spec_flat(pages@).len() ==> (exists|k: int|
                0 <= k < r@.len() && (#[trigger] r@[k]).id == spec_flat(pages@)[fi].1.id)
                || r@.len() == limit,
{
    broadcast use vstd::seq_lib::group_to_multiset_ensures;

    let ghost pages0 = pages@;
    let ghost flat_spec = spec_flat(pages@);
    let flat = flatten_pages(pages);
    let (contents, refs) = split_flat(flat);
    proof {
        assert forall|j: int|
            0 <= j < refs@.len() implies has_edge_for(edges@, (#[trigger] refs@[j]).0) by {
            assert(refs@[j].0 == flat_spec[j].0);
            lemma_flat_owner_member(pages0, j);
            let w = choose|w: int|
                0 <= w < pages0.len() && flat_spec[j].0 == (#[trigger] pages0[w]).0;
            assert(has_edge_for(edges@, pages0[w].0));
        }
    }
    let sorted = sort_by_created_desc(contents);
    let deduped = dedup_by_id(sorted);
    let stamped = apply_saved_by(deduped, edges, &refs);
    let result = truncate_feed(stamped, limit);
    proof {
        let fs = flat_spec;
        let nr = result@.len() as int;
        // the truncation is a prefix of the stamped feed
        assert(forall|k: int| 0 <= k < nr ==> result@[k] == stamped@[k]);
        assert(nr <= limit);
        // order, ids and timestamps carry from the deduplicated feed
        assert forall|k: int| 0 <= k < nr implies same_but_saved_by(
            #[trigger] deduped@[k],
            result@[k],
        ) by {
            assert(same_but_saved_by(deduped@[k], stamped@[k]));
        }
        assert(sorted_desc(result@));
        assert(unique_content_ids(result@));
        // provenance: every surviving item is a flattened item, up to saved_by
        assert forall|k: int| 0 <= k < nr implies some_flat_matches(
            spec_flat(pages0),
            #[trigger] result@[k],
        ) by {
            let f = first_with_id(sorted@, deduped@[k].id);
            assert(deduped@[k] == sorted@[f]);
            assert(sorted@.to_multiset().contains(sorted@[f]));
            assert(contents@.to_multiset().contains(sorted@[f]));
            assert(contents@.contains(sorted@[f]));
            let fi = choose|fi: int| 0 <= fi < contents@.len() && contents@[fi] == sorted@[f];
            assert(contents@[fi] == fs[fi].1);
            assert(0 <= fi < spec_flat(pages0).len() && same_but_saved_by(
                spec_flat(pages0)[fi].1,
                result@[k],
            ));
        }
        // completeness up to the limit
        assert forall|fi: int| #![trigger fs[fi]] 0 <= fi < fs.len() implies (exists|k: int|
            0 <= k < nr && (#[trigger] result@[k]).id == fs[fi].1.id) || nr == limit by {
            if nr < limit {
                assert(stamped@.len() <= limit);
                assert(result@ == stamped@);
                assert(contents@[fi] == fs[fi].1);
                assert(contents@.to_multiset().contains(contents@[fi]));
                assert(sorted@.to_multiset().contains(contents@[fi]));
                assert(sorted@.contains(contents@[fi]));
                let si = choose|si: int| 0 <= si < sorted@.len() && sorted@[si] == contents@[fi];
                assert(has_content_id(deduped@, sorted@[si].id));
                let k = choose|k: int|
                    0 <= k < deduped@.len() && (#[trigger] deduped@[k]).id == sorted@[si].id;
                assert(result@[k].id == fs[fi].1.id);
            }
        }
    }
    result
}

} // verus!

use vstd::prelude::*;
use crate::errors::FeedError;

verus! {

/// Reply of the key-value store to a single-key read, as the application
/// hands it to the gateway.
#[derive(Debug, PartialEq)]
pub enum StoreReply {
    /// The key holds this serialized blob.
    Found(String),
    /// The store answered that the key is absent: a clean miss.
    Missing,
    /// The store could not be reached, or answered with a protocol error.
    Fault(String),
}

/// A model of the store's contents: key to serialized blob.
pub type StoreModel = Map<Seq<char>, Seq<char>>;

/// Relates a store reply for `key` to a model of the store's contents.
/// A `Fault` can happen whatever the contents.
pub open spec fn reply_consistent(reply: StoreReply, store: StoreModel, key: Seq<char>) -> bool {
    match reply {
        StoreReply::Found(blob) => store.contains_key(key) && store[key] == blob@,
        StoreReply::Missing => !store.contains_key(key),
        StoreReply::Fault(_) => true,
    }
}

/// The store's contents after a successful write of `blob` under `key`.
pub open spec fn store_after_set(store: StoreModel, key: Seq<char>, blob: Seq<char>) -> StoreModel {
    store.insert(key, blob)
}

/// The store's contents after a deletion of `key`.
pub open spec fn store_after_delete(store: StoreModel, key: Seq<char>) -> StoreModel {
    store.remove(key)
}

/// The decode of the blob a reply carries, under decoder `dec`; nothing
/// when the reply carries no blob.
pub open spec fn decode_of<T>(reply: StoreReply, dec: spec_fn(Seq<char>) -> Option<T>) -> Option<
    T,
> {
    match reply {
        StoreReply::Found(blob) => dec(blob@),
        _ => None,
    }
}

/// What a cached read resolved to: possibly a value, and whether the caller
/// must delete the entry because its blob was corrupted.
#[derive(Debug, PartialEq)]
pub struct ReadResolution<T> {
    pub value: Option<T>,
    pub delete_entry: bool,
}

/// The single-key read policy, as a function of the store's reply and of
/// the decode of the blob (if any).
pub open spec fn spec_resolve_read<T>(reply: StoreReply, decoded: Option<T>) -> Result<
    ReadResolution<T>,
    FeedError,
> {
    match reply {
        StoreReply::Found(_) => match decoded {
            Some(v) => Ok(ReadResolution { value: Some(v), delete_entry: false }),
            None => Ok(ReadResolution { value: None, delete_entry: true }),
        },
        StoreReply::Missing => Ok(ReadResolution { value: None, delete_entry: false }),
        StoreReply::Fault(m) => Err(FeedError::Transport(m)),
    }
}

/// Resolves one cached read. `decoded` must be the application's decode of
/// the blob when the reply carries one (values are stored serialized, and
/// only the application can decode them).
///
/// A blob that decoded is a hit. A blob that failed to decode is treated as
/// a corrupted entry: the read degrades to a miss and the caller must delete
/// the entry (best-effort) so that it heals. A clean miss is a successful
/// `None`. Only a store fault is surfaced as an error.
pub fn resolve_read<T>(reply: StoreReply, decoded: Option<T>) -> (r: Result<
    ReadResolution<T>,
    FeedError,
>)
    ensures
        r == spec_resolve_read(reply, decoded),
{
    match reply {
        StoreReply::Found(_) => match decoded {
            Some(v) => Ok(ReadResolution { value: Some(v), delete_entry: false }),
            None => Ok(ReadResolution { value: None, delete_entry: true }),
        },
        StoreReply::Missing => Ok(ReadResolution { value: None, delete_entry: false }),
        StoreReply::Fault(m) => Err(FeedError::Transport(m)),
    }
}

/// What the cache-aside primitive does after the initial read: use the
/// cached value, or invoke the compute function and store its result.
#[derive(Debug, PartialEq)]
pub enum CachePlan<T> {
    UseCached(T),
    ComputeAndStore,
}

/// The cache-aside decision as a function of the read's outcome.
pub open spec fn spec_get_or_set_plan<T>(cached: Option<T>) -> CachePlan<T> {
    match cached {
        Some(v) => CachePlan::UseCached(v),
        None => CachePlan::ComputeAndStore,
    }
}

/// Decides the cache-aside step: on a hit return the cached value; on a
/// miss the caller invokes the compute function once, stores the result
/// with the requested TTL, and returns it.
pub fn get_or_set_plan<T>(cached: Option<T>) -> (r: CachePlan<T>)
    ensures
        r == spec_get_or_set_plan(cached),
{
    match cached {
        Some(v) => CachePlan::UseCached(v),
        None => CachePlan::ComputeAndStore,
    }
}

/// The index of the first failed subtask, or the number of subtasks when
/// none failed.
pub open spec fn spec_first_fail<T>(items: Seq<Result<T, FeedError>>) -> int
    decreases items.len(),
{
    if items.len() == 0 {
        0
    } else if items[0] is Err {
        0
    } else {
        1 + spec_first_fail(items.drop_first())
    }
}

/// Collects the results of concurrently dispatched subtasks under the
/// abort-on-any-failure policy: every success in order when all succeeded,
/// or the first failure for the entire call — no partial result.
#[verifier::loop_isolation(false)]
pub fn gate_all<T>(items: Vec<Result<T, FeedError>>) -> (r: Result<Vec<T>, FeedError>)
    ensures
        (r is Ok) == (forall|k: int| 0 <= k < items@.len() ==> items@[k] is Ok),
        r matches Ok(v) ==> v@.len() == items@.len() && (forall|k: int|
            0 <= k < items@.len() ==> items@[k] is Ok && v@[k] == items@[k]->Ok_0),
        r matches Err(e) ==> {
            let f = spec_first_fail(items@);
            &&& 0 <= f < items@.len()
            &&& items@[f] is Err
            &&& e == items@[f]->Err_0
        },
{
    let ghost items0 = items@;
    let n_items = items.len();
    let mut items = items;
    let mut out: Vec<T> = Vec::new();
    let mut k: usize = 0;
    proof {
        assert(items0.len() == n_items);
        assert(items0.skip(0) =~= items0);
        lemma_first_fail_bounds(items0);
    }
    while items.len() > 0
        invariant
            items0.len() <= usize::MAX,
            items@ == items0.skip(k as int),
            k <= items0.len(),
            out@.len() == k,
            forall|j: int|
                0 <= j < k ==> (#[trigger] items0[j]) is Ok && out@[j] == items0[j]->Ok_0,
            k as int <= spec_first_fail(items0),
        decreases items0.len() - k,
    {
        proof {
            lemma_first_fail_step(items0, k as int);
        }
        let item = items.remove(0);
        proof {
            assert(items@ =~= items0.skip(k as int + 1));
        }
        match item {
            Ok(v) => {
                out.push(v);
                k = k + 1;
            },
            Err(e) => {
                return Err(e);
            },
        }
    }
    proof {
        lemma_first_fail_all_ok(items0);
    }
    Ok(out)
}

/// The first failure index lies between zero and the number of subtasks.
proof fn lemma_first_fail_bounds<T>(items: Seq<Result<T, FeedError>>)
    ensures
        0 <= spec_first_fail(items) <= items.len(),
    decreases items.len(),
{
    if items.len() > 0 && !(items[0] is Err) {
        lemma_first_fail_bounds(items.drop_first());
    }
}

/// Unfolding helper: the first failure among the suffix from `k` is at `k`
/// exactly when item `k` failed.
proof fn lemma_first_fail_step<T>(items: Seq<Result<T, FeedError>>, k: int)
    requires
        0 <= k < items.len(),
        k <= spec_first_fail(items),
    ensures
        items[k] is Err ==> spec_first_fail(items) == k,
        items[k] is Ok ==> k + 1 <= spec_first_fail(items),
    decreases k,
{
    if k == 0 {
        lemma_first_fail_bounds(items.drop_first());
    } else {
        assert(items[0] is Ok);
        lemma_first_fail_step(items.drop_first(), k - 1);
        assert(items.drop_first()[k - 1] == items[k]);
    }
}

/// When every item succeeded, the first failure index is the length.
proof fn lemma_first_fail_all_ok<T>(items: Seq<Result<T, FeedError>>)
    requires
        forall|j: int| 0 <= j < items.len() ==> items[j] is Ok,
    ensures
        spec_first_fail(items) == items.len(),
    decreases items.len(),
{
    if items.len() > 0 {
        lemma_first_fail_all_ok(items.drop_first());
    }
}

/// Keys of a batched read are fetched in chunks of at most this many keys,
/// one batched store request per chunk, to bound per-request payload size.
pub const MGET_CHUNK_SIZE: usize = 10;

/// One chunk of a batched read: the keys of one batched store request, and
/// the position of the chunk's first key in the original key list.
#[derive(Debug, PartialEq)]
pub struct KeyChunk {
    pub start: usize,
    pub keys: Vec<String>,
}

/// The end (exclusive) of chunk `k` of a key list of length `n`.
pub open spec fn spec_chunk_end(n: int, k: int) -> int {
    let sz = MGET_CHUNK_SIZE as int;
    if sz * (k + 1) <= n {
        sz * (k + 1)
    } else {
        n
    }
}

/// `plan` splits `keys` into consecutive chunks of at most
/// `MGET_CHUNK_SIZE` keys, in order, covering every key exactly once.
pub open spec fn is_mget_plan(keys: Seq<String>, plan: Seq<KeyChunk>) -> bool {
    let sz = MGET_CHUNK_SIZE as int;
    let n = keys.len() as int;
    &&& plan.len() == (n + sz - 1) / sz
    &&& forall|k: int| 0 <= k < plan.len() ==> (#[trigger] plan[k]).start == sz * k
    &&& forall|k: int|
        0 <= k < plan.len() ==> (#[trigger] plan[k]).keys@ == keys.subrange(
            sz * k,
            spec_chunk_end(n, k),
        )
}

/// Splits the keys of a batched read into chunks of at most
/// `MGET_CHUNK_SIZE` keys, each chunk one batched store request, tagged with
/// its position so the replies can be reassembled by index whatever order
/// they complete in.
#[verifier::loop_isolation(false)]
pub fn plan_mget(keys: &Vec<String>) -> (r: Vec<KeyChunk>)
    ensures
        is_mget_plan(keys@, r@),
{
    let n = keys.len();
    let mut plan: Vec<KeyChunk> = Vec::new();
    let mut i: usize = 0;
    while i < n
        invariant
            i <= n,
            i == MGET_CHUNK_SIZE * plan@.len() || (i == n && plan@.len() == (n as int
                + MGET_CHUNK_SIZE - 1) / (MGET_CHUNK_SIZE as int)),
            forall|k: int|
                0 <= k < plan@.len() ==> (#[trigger] plan@[k]).start == MGET_CHUNK_SIZE * k
                    && plan@[k].keys@ == keys@.subrange(
                    MGET_CHUNK_SIZE * k,
                    spec_chunk_end(n as int, k),
                ),
        decreases n - i,
    {
        let end = if n - i > MGET_CHUNK_SIZE {
            i + MGET_CHUNK_SIZE
        } else {
            n
        };
        let mut chunk: Vec<String> = Vec::new();
        let mut j: usize = i;
        proof {
            assert(keys@.subrange(i as int, i as int) =~= chunk@);
        }
        while j < end
            invariant
                i <= j <= end,
                chunk@ == keys@.subrange(i as int, j as int),
            decreases end - j,
        {
            chunk.push(keys[j].clone());
            j = j + 1;
            proof {
                assert(keys@.subrange(i as int, j as int) =~= keys@.subrange(
                    i as int,
                    j - 1,
                ).push(keys@[j - 1]));
            }
        }
        plan.push(KeyChunk { start: i, keys: chunk });
        i = end;
    }
    plan
}

/// Reply of the store to one chunk of a batched read: the chunk's position
/// and one optional blob per key of the chunk, in chunk order.
#[derive(Debug, PartialEq)]
pub struct ChunkReply {
    pub start: usize,
    pub values: Vec<Option<String>>,
}

/// The slots chunk reply `c` fills.
pub open spec fn chunk_covers(c: ChunkReply, i: int) -> bool {
    c.start <= i < c.start + c.values@.len()
}

/// Every reply's slots lie inside the result's `n` slots.
pub open spec fn replies_in_bounds(replies: Seq<ChunkReply>, n: int) -> bool {
    forall|k: int| 0 <= k < replies.len() ==> (#[trigger] replies[k]).start
        + replies[k].values@.len() <= n
}

/// Two chunk replies fill disjoint slot ranges.
pub open spec fn chunks_disjoint(a: ChunkReply, b: ChunkReply) -> bool {
    a.start + a.values@.len() <= b.start || b.start + b.values@.len() <= a.start
}

/// No two replies fill a common slot.
pub open spec fn replies_disjoint(replies: Seq<ChunkReply>) -> bool {
    forall|k1: int, k2: int|
        0 <= k1 < replies.len() && 0 <= k2 < replies.len() && k1 != k2 ==> chunks_disjoint(
            #[trigger] replies[k1],
            #[trigger] replies[k2],
        )
}

/// Some reply fills slot `i`.
pub open spec fn slot_covered(replies: Seq<ChunkReply>, i: int) -> bool {
    exists|k: int| 0 <= k < replies.len() && chunk_covers(#[trigger] replies[k], i)
}

/// Checks at run time that a set of chunk replies has the shape
/// `assemble_mget` needs: every reply inside `n` slots, no two overlapping.
#[verifier::loop_isolation(false)]
pub fn replies_well_formed(n: usize, replies: &Vec<ChunkReply>) -> (r: bool)
    ensures
        r == (replies_in_bounds(replies@, n as int) && replies_disjoint(replies@)),
{
    let m = replies.len();
    let mut k: usize = 0;
    while k < m
        invariant
            k <= m,
            forall|j: int| 0 <= j < k ==> (#[trigger] replies@[j]).start + replies@[j].values@.len()
                <= n,
        decreases m - k,
    {
        let c = &replies[k];
        if c.start > n || c.values.len() > n - c.start {
            return false;
        }
        k = k + 1;
    }
    let mut k1: usize = 0;
    while k1 < m
        invariant
            k1 <= m,
            replies_in_bounds(replies@, n as int),
            forall|j1: int, j2: int|
                0 <= j1 < k1 && j1 < j2 < m ==> chunks_disjoint(
                    #[trigger] replies@[j1],
                    #[trigger] replies@[j2],
                ),
        decreases m - k1,
    {
        let a = &replies[k1];
        let mut k2: usize = k1 + 1;
        while k2 < m
            invariant
                k1 < k2 <= m || k2 == k1 + 1,
                k1 < m,
                forall|j2: int| k1 < j2 < k2 ==> chunks_disjoint(
                    replies@[k1 as int],
                    #[trigger] replies@[j2],
                ),
            decreases m - k2,
        {
            let b = &replies[k2];
            if !(a.start + a.values.len() <= b.start || b.start + b.values.len() <= a.start) {
                return false;
            }
            k2 = k2 + 1;
        }
        k1 = k1 + 1;
    }
    proof {
        assert forall|j1: int, j2: int|
            0 <= j1 < m && 0 <= j2 < m && j1 != j2 implies chunks_disjoint(
            #[trigger] replies@[j1],
            #[trigger] replies@[j2],
        ) by {
            if j1 > j2 {
                assert(chunks_disjoint(replies@[j2], replies@[j1]));
            }
        }
    }
    true
}

/// Taking one more reply into view covers exactly the slots of that reply
/// in addition.
proof fn lemma_slot_covered_take_succ(replies: Seq<ChunkReply>, k: int, i: int)
    requires
        0 <= k < replies.len(),
    ensures
        slot_covered(replies.take(k + 1), i) <==> (slot_covered(replies.take(k), i)
            || chunk_covers(replies[k], i)),
{
    let a = replies.take(k);
    let b = replies.take(k + 1);
    assert(b =~= a.push(replies[k]));
    if slot_covered(b, i) {
        let w = choose|w: int| 0 <= w < b.len() && chunk_covers(#[trigger] b[w], i);
        if w < k {
            assert(0 <= w < a.len() && chunk_covers(a[w], i));
        }
    }
    if slot_covered(a, i) {
        let w = choose|w: int| 0 <= w < a.len() && chunk_covers(#[trigger] a[w], i);
        assert(0 <= w < b.len() && chunk_covers(b[w], i));
    }
    if chunk_covers(replies[k], i) {
        assert(0 <= k < b.len() && chunk_covers(b[k], i));
    }
}

/// Reassembles the replies of a batched read into one result vector of `n`
/// slots: every reply's values land at the positions of its chunk's keys,
/// whatever order the replies completed in.
#[verifier::loop_isolation(false)]
pub fn assemble_mget(n: usize, replies: &Vec<ChunkReply>) -> (r: Vec<Option<String>>)
    requires
        replies_in_bounds(replies@, n as int),
        replies_disjoint(replies@),
    ensures
        r@.len() == n,
        forall|k: int, j: int|
            #![trigger replies@[k].values@[j]]
            0 <= k < replies@.len() && 0 <= j < replies@[k].values@.len() ==> r@[replies@[k].start
                + j] == replies@[k].values@[j],
        forall|i: int| 0 <= i < n && !slot_covered(replies@, i) ==> r@[i] is None,
{
    let m = replies.len();
    let mut r: Vec<Option<String>> = Vec::new();
    while r.len() < n
        invariant
            r@.len() <= n,
            forall|i: int| 0 <= i < r@.len() ==> r@[i] is None,
        decreases n - r@.len(),
    {
        r.push(None);
    }
    let mut k: usize = 0;
    proof {
        assert(replies@.take(0) =~= Seq::<ChunkReply>::empty());
    }
    while k < m
        invariant
            k <= m,
            r@.len() == n,
            forall|k2: int, j: int|
                #![trigger replies@[k2].values@[j]]
                0 <= k2 < k && 0 <= j < replies@[k2].values@.len() ==> r@[replies@[k2].start + j]
                    == replies@[k2].values@[j],
            forall|i: int| 0 <= i < n && !slot_covered(replies@.take(k as int), i) ==> r@[i] is None,
        decreases m - k,
    {
        let c = &replies[k];
        let mut j: usize = 0;
        while j < c.values.len()
            invariant
                j <= c.values@.len(),
                r@.len() == n,
                forall|k2: int, j2: int|
                    #![trigger replies@[k2].values@[j2]]
                    0 <= k2 < k && 0 <= j2 < replies@[k2].values@.len() ==> r@[replies@[k2].start
                        + j2] == replies@[k2].values@[j2],
                forall|j2: int| 0 <= j2 < j ==> r@[c.start + j2] == c.values@[j2],
                forall|i: int|
                    0 <= i < n && !slot_covered(replies@.take(k as int), i) && !(c.start <= i
                        < c.start + j) ==> r@[i] is None,
            decreases c.values@.len() - j,
        {
            let v: Option<String> = match &c.values[j] {
                Some(s) => Some(s.clone()),
                None => None,
            };
            r.set(c.start + j, v);
            j = j + 1;
        }
        proof {
            assert forall|i: int|
                0 <= i < n && !slot_covered(replies@.take(k as int + 1), i) implies r@[i]
                is None by {
                lemma_slot_covered_take_succ(replies@, k as int, i);
            }
        }
        k = k + 1;
    }
    proof {
        assert(replies@.take(m as int) =~= replies@);
    }
    r
}

/// What a reply's blob says against the store model: a blob is exactly the
/// store's entry for the key, an empty slot means the store holds no entry.
pub open spec fn blob_matches(v: Option<String>, store: StoreModel, key: Seq<char>) -> bool {
    match v {
        Some(b) => store.contains_key(key) && store[key] == b@,
        None => !store.contains_key(key),
    }
}

/// Reply `reply` answers chunk `chunk` against the store model: same
/// position, one slot per key, each slot the store's answer for its key.
pub open spec fn reply_answers_chunk(reply: ChunkReply, chunk: KeyChunk, store: StoreModel) -> bool {
    &&& reply.start == chunk.start
    &&& reply.values@.len() == chunk.keys@.len()
    &&& forall|j: int|
        0 <= j < chunk.keys@.len() ==> blob_matches(
            #[trigger] reply.values@[j],
            store,
            chunk.keys@[j]@,
        )
}

/// The value of one result slot of a batch read: the decoded value where
/// the store held a blob, nothing where it held none.
pub open spec fn spec_mget_slot<T>(raw: Option<String>, decoded: Option<T>) -> Option<T> {
    if raw is Some {
        decoded
    } else {
        None
    }
}

/// The keys of the corrupted entries among the first `i` slots: those whose
/// blob was present but failed to decode, in input order.
pub open spec fn spec_corrupt_keys<T>(
    keys: Seq<String>,
    raws: Seq<Option<String>>,
    decoded: Seq<Option<T>>,
    i: int,
) -> Seq<String>
    decreases i,
{
    if i <= 0 {
        Seq::empty()
    } else if raws[i - 1] is Some && decoded[i - 1] is None {
        spec_corrupt_keys(keys, raws, decoded, i - 1) + seq![keys[i - 1]]
    } else {
        spec_corrupt_keys(keys, raws, decoded, i - 1)
    }
}

/// Applies the per-entry corruption policy to the decoded slots of a batch
/// read. `decoded[i]` must be the application's decode of `raws[i]` where a
/// blob is present. Slot `i` of the result is that decoded value, or `None`
/// where the store held nothing; each key whose blob failed to decode is a
/// corrupted entry: its slot degrades to `None` without aborting the call,
/// and the key is collected for best-effort deletion.
#[verifier::loop_isolation(false)]
pub fn finish_mget<T>(keys: &Vec<String>, raws: &Vec<Option<String>>, decoded: Vec<Option<T>>) -> (r:
    (Vec<Option<T>>, Vec<String>))
    requires
        keys@.len() == raws@.len(),
        decoded@.len() == raws@.len(),
    ensures
        r.0@.len() == raws@.len(),
        forall|i: int|
            0 <= i < raws@.len() ==> r.0@[i] == spec_mget_slot(#[trigger] raws@[i], decoded@[i]),
        r.1@ == spec_corrupt_keys(keys@, raws@, decoded@, raws@.len() as int),
{
    let ghost dec0 = decoded@;
    let mut decoded = decoded;
    let n = raws.len();
    let mut out: Vec<Option<T>> = Vec::new();
    let mut corrupt: Vec<String> = Vec::new();
    let mut i: usize = 0;
    proof {
        assert(dec0.skip(0) =~= dec0);
    }
    while i < n
        invariant
            i <= n,
            decoded@ == dec0.skip(i as int),
            out@.len() == i,
            forall|j: int| 0 <= j < i ==> out@[j] == spec_mget_slot(#[trigger] raws@[j], dec0[j]),
            corrupt@ == spec_corrupt_keys(keys@, raws@, dec0, i as int),
        decreases n - i,
    {
        let d = decoded.remove(0);
        proof {
            assert(decoded@ =~= dec0.skip(i as int + 1));
        }
        if raws[i].is_some() {
            if d.is_none() {
                corrupt.push(keys[i].clone());
                proof {
                    assert(corrupt@ =~= spec_corrupt_keys(keys@, raws@, dec0, i as int) + seq![
                        keys@[i as int],
                    ]);
                }
            }
            out.push(d);
        } else {
            out.push(None);
        }
        i = i + 1;
    }
    (out, corrupt)
}

/// Index alignment of the batched read. If each chunk of the plan for
/// `keys` was answered by exactly one reply against `store` — in whatever
/// completion order `assign` records — then the replies are in bounds and
/// pairwise disjoint (the shape `assemble_mget` asks for), and a result
/// vector `r` assembled from them holds, at every position, exactly the
/// store's answer for that position's key: the result is index-aligned with
/// the input keys, whatever the chunk boundaries and completion order.
pub proof fn lemma_mget_index_alignment(
    keys: Seq<String>,
    plan: Seq<KeyChunk>,
    replies: Seq<ChunkReply>,
    assign: Seq<int>,
    store: StoreModel,
    r: Seq<Option<String>>,
)
    requires
        is_mget_plan(keys, plan),
        assign.len() == replies.len(),
        replies.len() == plan.len(),
        forall|k: int| 0 <= k < replies.len() ==> 0 <= #[trigger] assign[k] < plan.len(),
        forall|k: int|
            0 <= k < replies.len() ==> reply_answers_chunk(
                #[trigger] replies[k],
                plan[assign[k]],
                store,
            ),
        forall|k1: int, k2: int|
            #![trigger assign[k1], assign[k2]]
            0 <= k1 < k2 < replies.len() ==> assign[k1] != assign[k2],
        forall|c: int|
            #![trigger plan[c]]
            0 <= c < plan.len() ==> exists|k: int|
                0 <= k < replies.len() && #[trigger] assign[k] == c,
        r.len() == keys.len(),
        forall|k: int, j: int|
            #![trigger replies[k].values@[j]]
            0 <= k < replies.len() && 0 <= j < replies[k].values@.len() ==> r[replies[k].start + j]
                == replies[k].values@[j],
    ensures
        replies_in_bounds(replies, keys.len() as int),
        replies_disjoint(replies),
        forall|i: int| 0 <= i < keys.len() ==> blob_matches(#[trigger] r[i], store, keys[i]@),
{
    let sz = MGET_CHUNK_SIZE as int;
    let n = keys.len() as int;
    assert forall|k: int| 0 <= k < replies.len() implies (#[trigger] replies[k]).start
        + replies[k].values@.len() <= n by {
        let c = assign[k];
        assert(replies[k].start == sz * c);
        assert(replies[k].values@.len() == plan[c].keys@.len());
    }
    assert forall|k1: int, k2: int|
        0 <= k1 < replies.len() && 0 <= k2 < replies.len() && k1 != k2 implies chunks_disjoint(
        #[trigger] replies[k1],
        #[trigger] replies[k2],
    ) by {
        let c1 = assign[k1];
        let c2 = assign[k2];
        if k1 < k2 {
            assert(assign[k1] != assign[k2]);
        } else {
            assert(assign[k2] != assign[k1]);
        }
        assert(replies[k1].start == sz * c1);
        assert(replies[k2].start == sz * c2);
        assert(replies[k1].values@.len() == plan[c1].keys@.len());
        assert(replies[k2].values@.len() == plan[c2].keys@.len());
        if c1 < c2 {
            assert(sz * (c1 + 1) <= sz * c2) by (nonlinear_arith)
                requires
                    c1 + 1 <= c2,
                    sz == 10,
            ;
        } else {
            assert(sz * (c2 + 1) <= sz * c1) by (nonlinear_arith)
                requires
                    c2 + 1 <= c1,
                    sz == 10,
            ;
        }
    }
    assert forall|i: int| 0 <= i < n implies blob_matches(#[trigger] r[i], store, keys[i]@) by {
        let c = i / sz;
        assert(sz * c <= i < sz * c + sz && 0 <= c) by (nonlinear_arith)
            requires
                sz == 10,
                c == i / sz,
                0 <= i,
        ;
        assert(c < plan.len()) by (nonlinear_arith)
            requires
                plan.len() == (n + sz - 1) / sz,
                sz == 10,
                c == i / sz,
                0 <= i < n,
        ;
        assert(plan[c].start == sz * c);
        assert(plan[c].keys@ == keys.subrange(sz * c, spec_chunk_end(n, c)));
        let k = choose|k: int| 0 <= k < replies.len() && #[trigger] assign[k] == c;
        assert(reply_answers_chunk(replies[k], plan[c], store));
        let j = i - sz * c;
        assert(0 <= j < plan[c].keys@.len());
        assert(plan[c].keys@[j] == keys[i]);
        assert(blob_matches(replies[k].values@[j], store, keys[i]@));
        assert(r[replies[k].start + j] == replies[k].values@[j]);
    }
}

/// A corrupted cache entry self-heals. If `key` holds a blob that does not
/// decode as the requested type, a read of it resolves to `None` and orders
/// the entry deleted; after the deletion the entry is absent from the store,
/// and a following read of the same key resolves to `None` again, this time
/// as a clean miss.
pub proof fn lemma_corrupt_entry_self_heals<T>(
    store: StoreModel,
    key: Seq<char>,
    dec: spec_fn(Seq<char>) -> Option<T>,
    reply1: StoreReply,
    reply2: StoreReply,
)
    requires
        store.contains_key(key),
        dec(store[key]) is None,
        reply_consistent(reply1, store, key),
        !(reply1 is Fault),
        reply_consistent(reply2, store_after_delete(store, key), key),
        !(reply2 is Fault),
    ensures
        spec_resolve_read(reply1, decode_of(reply1, dec)) == Ok::<_, FeedError>(
            ReadResolution::<T> { value: None, delete_entry: true },
        ),
        !store_after_delete(store, key).contains_key(key),
        spec_resolve_read(reply2, decode_of(reply2, dec)) == Ok::<_, FeedError>(
            ReadResolution::<T> { value: None, delete_entry: false },
        ),
{
}

/// Cache-aside round trip on a cold cache. The first read is a clean miss,
/// so the plan is to invoke the compute function (once per call site) and
/// store its encoding; once stored, a following read of the same key
/// resolves to an equal value, provided the codec round-trips for it.
pub proof fn lemma_cold_cache_round_trip<T>(
    store: StoreModel,
    key: Seq<char>,
    v: T,
    enc: spec_fn(T) -> Seq<char>,
    dec: spec_fn(Seq<char>) -> Option<T>,
    reply1: StoreReply,
    reply2: StoreReply,
)
    requires
        !store.contains_key(key),
        dec(enc(v)) == Some(v),
        reply_consistent(reply1, store, key),
        !(reply1 is Fault),
        reply_consistent(reply2, store_after_set(store, key, enc(v)), key),
        !(reply2 is Fault),
    ensures
        spec_resolve_read(reply1, decode_of(reply1, dec)) == Ok::<_, FeedError>(
            ReadResolution::<T> { value: None, delete_entry: false },
        ),
        spec_get_or_set_plan(spec_resolve_read(reply1, decode_of(reply1, dec))->Ok_0.value)
            == CachePlan::<T>::ComputeAndStore,
        spec_resolve_read(reply2, decode_of(reply2, dec)) == Ok::<_, FeedError>(
            ReadResolution::<T> { value: Some(v), delete_entry: false },
        ),
{
}

} // verus!

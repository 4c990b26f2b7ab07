use curius_feed::cache::{
    assemble_mget, finish_mget, gate_all, get_or_set_plan, plan_mget, replies_well_formed,
    resolve_read, CachePlan, ChunkReply, ReadResolution, StoreReply,
};
use curius_feed::errors::FeedError;

fn key(i: usize) -> String {
    format!("content:{}", i)
}

#[test]
fn plan_splits_keys_into_chunks_of_ten() {
    let keys: Vec<String> = (0..25).map(key).collect();
    let plan = plan_mget(&keys);
    assert_eq!(plan.len(), 3);
    assert_eq!(plan[0].start, 0);
    assert_eq!(plan[1].start, 10);
    assert_eq!(plan[2].start, 20);
    assert_eq!(plan[0].keys.len(), 10);
    assert_eq!(plan[1].keys.len(), 10);
    assert_eq!(plan[2].keys.len(), 5);
    assert_eq!(plan[1].keys[3], key(13));
    assert_eq!(plan[2].keys[4], key(24));
}

#[test]
fn plan_of_empty_key_list_is_empty() {
    let keys: Vec<String> = Vec::new();
    let plan = plan_mget(&keys);
    assert_eq!(plan.len(), 0);
}

#[test]
fn assembled_slots_align_with_input_keys_whatever_the_reply_order() {
    let keys: Vec<String> = (0..25).map(key).collect();
    let plan = plan_mget(&keys);
    // the store holds a blob only for even positions
    let reply_for = |chunk: &curius_feed::cache::KeyChunk| ChunkReply {
        start: chunk.start,
        values: (0..chunk.keys.len())
            .map(|off| {
                let pos = chunk.start + off;
                if pos % 2 == 0 {
                    Some(format!("blob-{}", pos))
                } else {
                    None
                }
            })
            .collect(),
    };
    // replies arrive in a different order than the chunks were sent
    let replies = vec![reply_for(&plan[2]), reply_for(&plan[0]), reply_for(&plan[1])];
    assert!(replies_well_formed(25, &replies));
    let slots = assemble_mget(25, &replies);
    assert_eq!(slots.len(), 25);
    for (pos, slot) in slots.iter().enumerate() {
        if pos % 2 == 0 {
            assert_eq!(slot.as_deref(), Some(format!("blob-{}", pos).as_str()));
        } else {
            assert!(slot.is_none());
        }
    }
}

#[test]
fn overlapping_replies_are_rejected() {
    let replies = vec![
        ChunkReply { start: 0, values: vec![None, None, None] },
        ChunkReply { start: 2, values: vec![None] },
    ];
    assert!(!replies_well_formed(4, &replies));
    let out_of_bounds = vec![ChunkReply { start: 3, values: vec![None, None] }];
    assert!(!replies_well_formed(4, &out_of_bounds));
}

#[test]
fn corrupted_slot_degrades_to_miss_and_marks_its_key() {
    let keys = vec![key(0), key(1), key(2)];
    let raws = vec![Some("good".to_string()), None, Some("broken".to_string())];
    // the application could decode only the first blob
    let decoded: Vec<Option<u64>> = vec![Some(7), None, None];
    let (slots, corrupt) = finish_mget(&keys, &raws, decoded);
    assert_eq!(slots, vec![Some(7), None, None]);
    assert_eq!(corrupt, vec![key(2)]);
}

#[test]
fn corrupt_entry_read_orders_deletion_and_degrades_to_miss() {
    let r = resolve_read::<u64>(StoreReply::Found("not a number".to_string()), None);
    assert_eq!(r, Ok(ReadResolution { value: None, delete_entry: true }));
    // after the deletion the key is absent: a clean miss, no healing needed
    let r2 = resolve_read::<u64>(StoreReply::Missing, None);
    assert_eq!(r2, Ok(ReadResolution { value: None, delete_entry: false }));
}

#[test]
fn store_fault_is_surfaced_as_transport_error() {
    let r = resolve_read::<u64>(StoreReply::Fault("connection refused".to_string()), None);
    assert_eq!(r, Err(FeedError::Transport("connection refused".to_string())));
}

#[test]
fn cache_hit_returns_decoded_value_without_healing() {
    let r = resolve_read::<u64>(StoreReply::Found("41".to_string()), Some(41));
    assert_eq!(r, Ok(ReadResolution { value: Some(41), delete_entry: false }));
}

#[test]
fn cold_cache_computes_once_and_round_trips() {
    // a tiny in-process store for one key
    let mut store: Option<String> = None;
    let mut computed = 0u32;

    // first read: clean miss, so the plan is to compute and store
    let reply = match &store {
        Some(blob) => StoreReply::Found(blob.clone()),
        None => StoreReply::Missing,
    };
    let read = resolve_read::<u64>(reply, None).unwrap();
    assert_eq!(read.value, None);
    assert!(!read.delete_entry);
    let value: u64 = match get_or_set_plan(read.value) {
        CachePlan::UseCached(v) => v,
        CachePlan::ComputeAndStore => {
            computed += 1;
            let v = 7031u64;
            store = Some(format!("{}", v));
            v
        }
    };
    assert_eq!(computed, 1);
    assert_eq!(value, 7031);

    // second read: the stored value round-trips
    let reply2 = match &store {
        Some(blob) => StoreReply::Found(blob.clone()),
        None => StoreReply::Missing,
    };
    let decoded2 = match &reply2 {
        StoreReply::Found(blob) => blob.parse::<u64>().ok(),
        _ => None,
    };
    let read2 = resolve_read::<u64>(reply2, decoded2).unwrap();
    assert_eq!(read2.value, Some(7031));
    assert!(!read2.delete_entry);
}

#[test]
fn gate_collects_all_successes_in_order() {
    let items: Vec<Result<u64, FeedError>> = vec![Ok(1), Ok(2), Ok(3)];
    assert_eq!(gate_all(items), Ok(vec![1, 2, 3]));
}

#[test]
fn gate_aborts_whole_call_on_first_failure() {
    let items: Vec<Result<u64, FeedError>> = vec![
        Ok(1),
        Err(FeedError::Transport("chunk two failed".to_string())),
        Err(FeedError::PartialTask("task panicked".to_string())),
    ];
    assert_eq!(gate_all(items), Err(FeedError::Transport("chunk two failed".to_string())));
}

#[test]
fn gate_of_empty_task_list_is_ok() {
    let items: Vec<Result<u64, FeedError>> = Vec::new();
    assert_eq!(gate_all(items), Ok(Vec::new()));
}

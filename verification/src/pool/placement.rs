//! Rules for where objects are placed.

use vstd::prelude::*;
use crate::pool::error::PoolError;
use crate::storage::block::BtreeKind;
use crate::storage::device::{BlockDevice, StorageError};
use crate::storage::node::{LoadedNode, SortedRun};
use crate::storage::region::{codec_fits, load_node, node_loaded, node_stored, store_node,
    stored_region_loads};
use crate::types::policy::{ChunkParams, StorageTier};
use crate::types::query::{Query, QueryModel};

verus! {

/// Size of the region that holds the rules.
pub const PLACEMENT_RULES_REGION_SIZE: u64 = 262144;

/// Binary logarithm of [`PLACEMENT_RULES_REGION_SIZE`].
pub const REGION_SIZE_LOG2: u8 = 18;

/// One rule.
#[derive(Debug, PartialEq)]
pub enum PlacementRule {
    /// What the query means stays on the tier.
    Pin { query: Query, tier: StorageTier },
    /// Objects move to colder tiers the longer they are not used.
    AutoTier { hot_threshold_days: u32, warm_threshold_days: u32, cold_after: u32 },
    /// What the query means is cut into chunks.
    Chunk { query: Query, params: ChunkParams },
}

/// The mathematical content of a [`PlacementRule`].
pub ghost enum RuleModel {
    Pin(QueryModel, StorageTier),
    AutoTier(u32, u32, u32),
    Chunk(QueryModel, ChunkParams),
}

impl View for PlacementRule {
    type V = RuleModel;

    open spec fn view(&self) -> RuleModel {
        match self {
            PlacementRule::Pin { query, tier } => RuleModel::Pin(query@, *tier),
            PlacementRule::AutoTier { hot_threshold_days, warm_threshold_days, cold_after } =>
                RuleModel::AutoTier(*hot_threshold_days, *warm_threshold_days, *cold_after),
            PlacementRule::Chunk { query, params } => RuleModel::Chunk(query@, *params),
        }
    }
}

impl PlacementRule {
    /// A copy of the rule.
    pub fn duplicate(&self) -> (r: Self)
        ensures
            r@ == self@,
    {
        match self {
            PlacementRule::Pin { query, tier } => PlacementRule::Pin {
                query: query.duplicate(),
                tier: *tier,
            },
            PlacementRule::AutoTier { hot_threshold_days, warm_threshold_days, cold_after } =>
                PlacementRule::AutoTier {
                    hot_threshold_days: *hot_threshold_days,
                    warm_threshold_days: *warm_threshold_days,
                    cold_after: *cold_after,
                },
            PlacementRule::Chunk { query, params } => PlacementRule::Chunk {
                query: query.duplicate(),
                params: *params,
            },
        }
    }
}

impl Clone for PlacementRule {
    fn clone(&self) -> (r: Self)
        ensures
            r@ == self@,
    {
        self.duplicate()
    }
}

/// The contents of some rules.
pub open spec fn rule_list(v: Seq<PlacementRule>) -> Seq<RuleModel> {
    v.map_values(|r: PlacementRule| r@)
}

/// Copies of some rules.
pub fn copy_rules(rules: &Vec<PlacementRule>) -> (r: Vec<PlacementRule>)
    ensures
        rule_list(r@) == rule_list(rules@),
{
    let mut out: Vec<PlacementRule> = Vec::new();
    let mut i: usize = 0;
    while i < rules.len()
        invariant
            i <= rules@.len(),
            rule_list(out@) =~= rule_list(rules@).take(i as int),
        decreases rules@.len() - i,
    {
        let ghost before = rule_list(out@);
        out.push(rules[i].duplicate());
        proof {
            assert(rule_list(out@) =~= before.push(rules@[i as int]@));
        }
        i = i + 1;
    }
    proof {
        assert(rule_list(out@) =~= rule_list(rules@));
    }
    out
}

/// The rules that a node from disk holds: those of its first entry for the
/// live state, none where it has no such entry.
pub open spec fn rules_of(entries: Seq<(u32, Vec<PlacementRule>)>) -> Seq<RuleModel>
    decreases entries.len(),
{
    if entries.len() == 0 {
        Seq::empty()
    } else if entries[0].0 == 0 {
        rule_list(entries[0].1@)
    } else {
        rules_of(entries.skip(1))
    }
}

/// The rules as the node that goes to disk: one entry, for the live state.
pub fn placement_rules_to_loaded_node(rules: &Vec<PlacementRule>) -> (r: LoadedNode<
    u32,
    Vec<PlacementRule>,
>)
    ensures
        r.fresh(BtreeKind::PlacementRules, REGION_SIZE_LOG2),
        r.entries().len() == 1,
        r.entries()[0].0 == 0,
        rule_list(r.entries()[0].1@) == rule_list(rules@),
        rules_of(r.entries()) == rule_list(rules@),
{
    let mut entries: Vec<(u32, Vec<PlacementRule>)> = Vec::new();
    entries.push((0u32, copy_rules(rules)));
    LoadedNode::with_run(BtreeKind::PlacementRules, 0, REGION_SIZE_LOG2, entries)
}

/// The rules that a node from disk holds.
pub fn placement_rules_from_loaded_node(node: &LoadedNode<u32, Vec<PlacementRule>>) -> (r: Vec<
    PlacementRule,
>)
    ensures
        rule_list(r@) == rules_of(node.entries()),
{
    let all = node.merge_iter();
    let ghost es = node.entries();
    let mut i: usize = 0;
    proof {
        assert(es.skip(0) =~= es);
    }
    while i < all.len()
        invariant
            i <= all@.len(),
            es == node.entries(),
            all@.len() == es.len(),
            forall|j: int| 0 <= j < all@.len() ==> *(#[trigger] all@[j]) == es[j],
            rules_of(es) == rules_of(es.skip(i as int)),
        decreases all@.len() - i,
    {
        let e = all[i];
        proof {
            assert(*all@[i as int] == es[i as int]);
            assert(es.skip(i as int).skip(1) =~= es.skip(i + 1));
        }
        if e.0 == 0 {
            return copy_rules(&e.1);
        }
        i = i + 1;
    }
    let out: Vec<PlacementRule> = Vec::new();
    proof {
        assert(rule_list(out@) =~= Seq::empty());
    }
    out
}

/// The node holds the rules: one entry, for the live state.
pub open spec fn is_rule_node(
    node: LoadedNode<u32, Vec<PlacementRule>>,
    rules: Seq<RuleModel>,
) -> bool {
    &&& node.fresh(BtreeKind::PlacementRules, REGION_SIZE_LOG2)
    &&& node.entries().len() == 1
    &&& node.entries()[0].0 == 0
    &&& rule_list(node.entries()[0].1@) == rules
}

/// `r` are the rules that were read.
pub open spec fn rules_read(
    read: Result<Option<LoadedNode<u32, Vec<PlacementRule>>>, StorageError>,
    r: Result<Seq<RuleModel>, PoolError>,
) -> bool {
    r == match read {
        Ok(None) => Ok::<Seq<RuleModel>, PoolError>(Seq::empty()),
        Ok(Some(node)) => Ok(rules_of(node.entries())),
        Err(e) => Err(PoolError::Storage(e)),
    }
}

/// Write the rules to the region at `offset` on `device`. `encode` turns the runs
/// of the node into bytes.
pub fn flush_placement_rules_to_region<
    D: BlockDevice,
    F: Fn(&Vec<SortedRun<u32, Vec<PlacementRule>>>) -> Result<Vec<u8>, StorageError>,
>(rules: &Vec<PlacementRule>, device: &mut D, offset: u64, encode: F) -> (r: Result<(), PoolError>)
    requires
        forall|runs: &Vec<SortedRun<u32, Vec<PlacementRule>>>| encode.requires((runs,)),
    ensures
        old(device).reliable() ==> final(device).reliable(),
        exists|
            node: LoadedNode<u32, Vec<PlacementRule>>,
            encoded: Result<Vec<u8>, StorageError>,
            stored: Result<(), StorageError>,
        |
            {
                &&& #[trigger] is_rule_node(node, rule_list(rules@))
                &&& #[trigger] encode.ensures((&node.sorted_runs,), encoded)
                &&& #[trigger] node_stored(
                    old(device).contents(),
                    final(device).contents(),
                    old(device).reliable(),
                    offset as int,
                    node.header,
                    encoded,
                    stored,
                )
                &&& r == match stored {
                    Ok(_) => Ok::<(), PoolError>(()),
                    Err(e) => Err(PoolError::Storage(e)),
                }
            },
{
    let node = placement_rules_to_loaded_node(rules);
    proof {
        assert(is_rule_node(node, rule_list(rules@)));
    }
    match store_node(device, offset, &node, encode) {
        Ok(_) => Ok(()),
        Err(e) => Err(PoolError::Storage(e)),
    }
}

/// Read the rules from the region at `offset` on `device`; a blank region holds
/// none. `decode` turns the bytes of the runs into runs.
pub fn load_placement_rules_from_region<
    D: BlockDevice,
    G: Fn(Vec<u8>) -> Result<Vec<SortedRun<u32, Vec<PlacementRule>>>, StorageError>,
>(device: &D, offset: u64, decode: G) -> (r: Result<Vec<PlacementRule>, PoolError>)
    requires
        forall|bytes: Vec<u8>| decode.requires((bytes,)),
    ensures
        exists|read: Result<Option<LoadedNode<u32, Vec<PlacementRule>>>, StorageError>|
            #[trigger] node_loaded(
                device.contents(),
                device.reliable(),
                offset as int,
                None,
                decode,
                read,
            ) && rules_read(read, match r {
                Ok(v) => Ok(rule_list(v@)),
                Err(e) => Err(e),
            }),
{
    match load_node(device, offset, None, decode) {
        Ok(Some(node)) => Ok(placement_rules_from_loaded_node(&node)),
        Ok(None) => {
            let none: Vec<PlacementRule> = Vec::new();
            proof {
                assert(rule_list(none@) =~= Seq::<RuleModel>::empty());
            }
            Ok(none)
        },
        Err(e) => Err(PoolError::Storage(e)),
    }
}

/// Entries that hold the same rules.
pub open spec fn same_rules() -> spec_fn(
    Seq<(u32, Vec<PlacementRule>)>,
    Seq<(u32, Vec<PlacementRule>)>,
) -> bool {
    |a: Seq<(u32, Vec<PlacementRule>)>, b: Seq<(u32, Vec<PlacementRule>)>|
        rules_of(a) == rules_of(b)
}

/// Rules that were flushed are loaded again as they were, if the two functions
/// for their runs belong together.
pub proof fn rules_flush_then_load<
    F: Fn(&Vec<SortedRun<u32, Vec<PlacementRule>>>) -> Result<Vec<u8>, StorageError>,
    G: Fn(Vec<u8>) -> Result<Vec<SortedRun<u32, Vec<PlacementRule>>>, StorageError>,
>(
    rules: Seq<RuleModel>,
    before: Seq<u8>,
    after: Seq<u8>,
    offset: int,
    node: LoadedNode<u32, Vec<PlacementRule>>,
    encode: F,
    encoded: Result<Vec<u8>, StorageError>,
    decode: G,
    read: Result<Option<LoadedNode<u32, Vec<PlacementRule>>>, StorageError>,
    r: Result<Seq<RuleModel>, PoolError>,
)
    requires
        0 <= offset <= u64::MAX - 4096,
        codec_fits(encode, decode, same_rules()),
        is_rule_node(node, rules),
        encode.ensures((&node.sorted_runs,), encoded),
        node_stored(before, after, true, offset, node.header, encoded, Ok(())),
        node_loaded(after, true, offset, None, decode, read),
        rules_read(read, r),
    ensures
        r == Ok::<Seq<RuleModel>, PoolError>(rules),
{
    stored_region_loads(
        before,
        after,
        offset,
        node,
        BtreeKind::PlacementRules,
        None,
        encode,
        encoded,
        decode,
        same_rules(),
        read,
    );
}

} // verus!

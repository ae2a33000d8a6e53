//! What a pool keeps, and how it comes back after it was closed.

use vstd::prelude::*;
use crate::pool::config::{is_primary, new_pool_ok, repeats, EntryModel, PoolConfig};
use crate::pool::error::PoolError;
use crate::pool::manager::{fresh_disk, fresh_disks, last_entry, lists, opened, pool_reopens,
    root_describes, DiskModel, PoolManager};
use crate::pool::root::{root_read, PoolStateRoot};
use crate::pool::superblock::{formatted, formatted_list, identity_fault, SuperblockModel};
use crate::storage::device::BlockDevice;
use crate::types::id::{DiskId, NodeId};
use crate::types::policy::DiskState;

verus! {

/// The disks at work are those of the entries, each under its own id.
pub open spec fn matches_entries(s: Seq<EntryModel>, m: Map<DiskId, DiskModel>) -> bool {
    &&& forall|i: int, j: int|
        0 <= i < j < s.len() ==> (#[trigger] s[i]).id != (#[trigger] s[j]).id
    &&& forall|i: int|
        0 <= i < s.len() ==> m.contains_key((#[trigger] s[i]).id) && m[s[i].id].config == s[i]
    &&& forall|id: DiskId| #[trigger]
        m.contains_key(id) ==> exists|i: int| 0 <= i < s.len() && (#[trigger] s[i]).id == id
}

/// Every disk at work has the superblock that it was formatted with.
pub open spec fn all_formatted(node: NodeId, m: Map<DiskId, DiskModel>) -> bool {
    forall|id: DiskId| #[trigger]
        m.contains_key(id) ==> m[id].superblock == formatted(node, m[id].config)
}

/// The disks of entries with different ids, just taken in.
proof fn lemma_fresh_disks(s: Seq<EntryModel>, bs: Seq<SuperblockModel>, k: int)
    requires
        0 <= k <= s.len(),
        forall|i: int, j: int|
            0 <= i < j < s.len() ==> (#[trigger] s[i]).id != (#[trigger] s[j]).id,
    ensures
        forall|i: int|
            0 <= i < k ==> fresh_disks(s, bs, k).contains_key((#[trigger] s[i]).id) && fresh_disks(
                s,
                bs,
                k,
            )[s[i].id] == fresh_disk(s[i], bs[i]),
        forall|id: DiskId| #[trigger]
            fresh_disks(s, bs, k).contains_key(id) ==> exists|i: int|
                0 <= i < k && (#[trigger] s[i]).id == id,
    decreases k,
{
    if k > 0 {
        lemma_fresh_disks(s, bs, k - 1);
        let m = fresh_disks(s, bs, k);
        assert forall|i: int| 0 <= i < k implies m.contains_key((#[trigger] s[i]).id)
            && m[s[i].id] == fresh_disk(s[i], bs[i]) by {
            if i < k - 1 {
                assert(s[i].id != s[k - 1].id);
            }
        }
        assert forall|id: DiskId| #[trigger] m.contains_key(id) implies exists|i: int|
            0 <= i < k && (#[trigger] s[i]).id == id by {
            if id == s[k - 1].id {
            } else {
                assert(fresh_disks(s, bs, k - 1).contains_key(id));
                let i = choose|i: int| 0 <= i < k - 1 && (#[trigger] s[i]).id == id;
                assert(s[i].id == id);
            }
        }
    }
}

/// A new pool has the disks of its entries, each formatted for its entry.
pub proof fn new_pool_matches(node: NodeId, s: Seq<EntryModel>)
    requires
        new_pool_ok(s),
    ensures
        matches_entries(s, fresh_disks(s, formatted_list(node, s), s.len() as int)),
        all_formatted(node, fresh_disks(s, formatted_list(node, s), s.len() as int)),
{
    let bs = formatted_list(node, s);
    assert forall|i: int, j: int| 0 <= i < j < s.len() implies (#[trigger] s[i]).id != (
    #[trigger] s[j]).id by {
        assert(!repeats(s, j));
    }
    lemma_fresh_disks(s, bs, s.len() as int);
    let m = fresh_disks(s, bs, s.len() as int);
    assert forall|id: DiskId| #[trigger] m.contains_key(id) implies m[id].superblock == formatted(
        node,
        m[id].config,
    ) by {
        let i = choose|i: int| 0 <= i < s.len() && (#[trigger] s[i]).id == id;
        assert(m[s[i].id] == fresh_disk(s[i], bs[i]));
    }
}

/// The disk of an entry in a new pool.
pub(crate) proof fn lemma_new_disk(node: NodeId, s: Seq<EntryModel>, i: int)
    requires
        new_pool_ok(s),
        0 <= i < s.len(),
    ensures
        fresh_disks(s, formatted_list(node, s), s.len() as int)[s[i].id] == fresh_disk(
            s[i],
            formatted(node, s[i]),
        ),
{
    assert forall|a: int, b: int| 0 <= a < b < s.len() implies (#[trigger] s[a]).id != (
    #[trigger] s[b]).id by {
        assert(!repeats(s, b));
    }
    lemma_fresh_disks(s, formatted_list(node, s), s.len() as int);
}

/// Taking in a disk with a new id keeps disks and entries in agreement.
pub proof fn adding_keeps_matching(
    node: NodeId,
    s: Seq<EntryModel>,
    m: Map<DiskId, DiskModel>,
    e: EntryModel,
)
    requires
        matches_entries(s, m),
        all_formatted(node, m),
        !m.contains_key(e.id),
    ensures
        matches_entries(s.push(e), m.insert(e.id, fresh_disk(e, formatted(node, e)))),
        all_formatted(node, m.insert(e.id, fresh_disk(e, formatted(node, e)))),
{
    let t = s.push(e);
    let n = m.insert(e.id, fresh_disk(e, formatted(node, e)));
    assert forall|i: int, j: int| 0 <= i < j < t.len() implies (#[trigger] t[i]).id != (
    #[trigger] t[j]).id by {
        assert(t[i] == s[i]);
        assert(m.contains_key(s[i].id));
        if j < s.len() {
            assert(t[j] == s[j]);
        }
    }
    assert forall|i: int| 0 <= i < t.len() implies n.contains_key((#[trigger] t[i]).id)
        && n[t[i].id].config == t[i] by {
        if i < s.len() {
            assert(t[i] == s[i]);
            assert(m.contains_key(s[i].id));
        }
    }
    assert forall|id: DiskId| #[trigger] n.contains_key(id) implies exists|i: int|
        0 <= i < t.len() && (#[trigger] t[i]).id == id by {
        if id == e.id {
            assert(t[s.len() as int].id == id);
        } else {
            let i = choose|i: int| 0 <= i < s.len() && (#[trigger] s[i]).id == id;
            assert(t[i].id == id);
        }
    }
    assert forall|id: DiskId| #[trigger] n.contains_key(id) implies n[id].superblock == formatted(
        node,
        n[id].config,
    ) by {
        if id != e.id {
            assert(m.contains_key(id));
        }
    }
}

/// Letting a disk drain keeps disks and entries in agreement.
pub proof fn draining_keeps_matching(
    node: NodeId,
    s: Seq<EntryModel>,
    m: Map<DiskId, DiskModel>,
    id: DiskId,
)
    requires
        matches_entries(s, m),
        all_formatted(node, m),
        m.contains_key(id),
    ensures
        matches_entries(s, m.insert(id, DiskModel { state: DiskState::Draining, ..m[id] })),
        all_formatted(node, m.insert(id, DiskModel { state: DiskState::Draining, ..m[id] })),
{
    let n = m.insert(id, DiskModel { state: DiskState::Draining, ..m[id] });
    assert forall|x: DiskId| #[trigger] n.contains_key(x) implies m.contains_key(x) && n[x].config
        == m[x].config && n[x].superblock == m[x].superblock by {}
    assert forall|i: int| 0 <= i < s.len() implies n.contains_key((#[trigger] s[i]).id)
        && n[s[i].id].config == s[i] by {
        assert(m.contains_key(s[i].id));
    }
    assert forall|x: DiskId| #[trigger] n.contains_key(x) implies exists|i: int|
        0 <= i < s.len() && (#[trigger] s[i]).id == x by {
        assert(m.contains_key(x));
    }
}

/// A pool that was saved opens again as it was: with its configuration, its
/// devices and the superblocks that it formatted, none of the disks is taken
/// for that of another pool, and every disk has the state and use that it had.
pub proof fn saved_pool_opens_again<D: BlockDevice>(
    p: PoolManager<D>,
    config: PoolConfig,
    devices: Seq<D>,
    superblocks: Seq<SuperblockModel>,
    i: int,
    read: Result<PoolStateRoot, PoolError>,
    r: Result<PoolManager<D>, PoolError>,
)
    requires
        p.wf(),
        p.is_saved(),
        matches_entries(p.entries(), p.models()),
        all_formatted(p.node(), p.models()),
        config.node_id == p.node(),
        config.entries() == p.entries(),
        superblocks == formatted_list(p.node(), p.entries()),
        forall|k: int|
            0 <= k < p.entries().len() ==> (#[trigger] devices[k]).reliable()
                && devices[k].contents() == p.devices()[p.entries()[k].id].contents(),
        is_primary(config.entries(), i),
        opened(config, devices, superblocks, i, read, r),
    ensures
        forall|k: int|
            0 <= k < p.entries().len() ==> identity_fault(
                p.node(),
                (#[trigger] p.entries()[k]).id,
                superblocks[k],
            ) is None,
        r is Ok,
        r->Ok_0.entries() == p.entries(),
        r->Ok_0.models() == p.models(),
{
    let s = p.entries();
    let m = p.models();
    let n = s.len() as int;
    p.lemma_listing();
    let (a, b) = choose|a: int, b: PoolStateRoot|
        {
            &&& #[trigger] is_primary(s, a)
            &&& #[trigger] root_describes(b, p.listing())
            &&& p.devices().contains_key(s[a].id)
            &&& 20480 <= p.devices()[s[a].id].contents().len()
            &&& p.devices()[s[a].id].contents().subrange(16384, 20480) == b.sealed().image()
        };
    assert(s[a].id == s[i].id) by {
        assert(s[a].id <= s[i].id);
        assert(s[i].id <= s[a].id);
    }
    let k = choose|k: int|
        #[trigger] last_entry(s, s[i].id, k) && root_read(
            devices[k].contents(),
            devices[k].reliable(),
            16384,
            read,
        );
    assert(devices[k].contents() == p.devices()[s[k].id].contents());
    lemma_fresh_disks(s, superblocks, n);
    let start = fresh_disks(s, superblocks, n);
    assert forall|id: DiskId| #[trigger] m.contains_key(id) implies start.contains_key(id)
        && start[id].config == m[id].config && start[id].superblock == m[id].superblock
        && m[id].config.id == id by {
        let x = choose|x: int| 0 <= x < s.len() && (#[trigger] s[x]).id == id;
        assert(start[s[x].id] == fresh_disk(s[x], superblocks[x]));
        assert(m[s[x].id].config == s[x]);
    }
    assert(start.dom() =~= m.dom()) by {
        assert forall|id: DiskId| #[trigger] start.contains_key(id) implies m.contains_key(id) by {
            let x = choose|x: int| 0 <= x < n && (#[trigger] s[x]).id == id;
            assert(m.contains_key(s[x].id));
        }
        assert forall|id: DiskId| start.dom().contains(id) <==> #[trigger] m.dom().contains(id) by {
            assert(start.contains_key(id) == start.dom().contains(id));
            assert(m.contains_key(id) == m.dom().contains(id));
        }
    }
    assert(lists(p.listing(), m));
    pool_reopens(b, p.listing(), m, start, devices[k].contents(), read);
}

} // verus!

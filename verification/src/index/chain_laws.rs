//! What operations of the forward index give together: a flush and a load,
//! an addition and a removal.

use vstd::prelude::*;
use crate::bytes::{lemma_le_value_of_le, lemma_pow256_values, zeros};
use crate::index::error::IndexError;
use crate::index::forward_index::{all_laid, chain_result, entry_list, entry_packed, entry_value,
    first_match, header_value, lemma_slots_grow, list_fault, list_model, loaded, packed_list,
    packed_lists, slots_before, swap_removed, unpacked_list, ForwardIndex, ForwardIndexKey,
    ForwardIndexValue, LoadFault};
use crate::index::overflow_chain::{chain_gives, chunk, chunk_count, is_region, lays_out,
    lemma_chain_unique, lemma_region_len, link_after, ref_at, region_header, region_holds,
    slot_offset, written, ChainFault, SlotWrite};
use crate::index::packed::{lemma_packed_injective, lemma_packed_len, packed_images,
    PackedAssertion};
use crate::storage::block::{BlockRef, BtreeNodeHeader};
use crate::storage::device::{read_after_write, write_elsewhere};
use crate::types::assertion::{assertion_eq, Assertion, AssertionModel, TagOrigin};
use crate::types::value::ValueModel;

verus! {

/// The contents of a slot of the area.
pub open spec fn slot_bytes(contents: Seq<u8>, area: int, slot: int) -> Seq<u8> {
    contents.subrange(slot_offset(area, slot), slot_offset(area, slot + 1))
}

/// The writes go to distinct slots among the first `total`, a full region each.
pub open spec fn in_slots(writes: Seq<SlotWrite>, total: int) -> bool {
    &&& forall|i: int|
        0 <= i < writes.len() ==> 0 <= (#[trigger] writes[i]).slot < total
            && writes[i].bytes.len() == 262144
    &&& forall|i: int, j: int|
        0 <= i < j < writes.len() ==> (#[trigger] writes[i]).slot != (#[trigger] writes[j]).slot
}

/// Each write to a slot of its own is there in the end.
proof fn lemma_slot_written(
    contents: Seq<u8>,
    area: int,
    writes: Seq<SlotWrite>,
    total: int,
)
    requires
        0 <= area,
        in_slots(writes, total),
        slot_offset(area, total) <= contents.len() || writes.len() == 0,
    ensures
        written(contents, area, writes).len() == contents.len(),
        forall|i: int|
            0 <= i < writes.len() ==> slot_bytes(
                written(contents, area, writes),
                area,
                (#[trigger] writes[i]).slot,
            ) == writes[i].bytes,
    decreases writes.len(),
{
    if writes.len() > 0 {
        let front = writes.drop_last();
        assert forall|i: int| 0 <= i < front.len() implies 0 <= (#[trigger] front[i]).slot < total
            && front[i].bytes.len() == 262144 by {
            assert(front[i] == writes[i]);
        }
        assert forall|i: int, j: int| 0 <= i < j < front.len() implies (#[trigger] front[i]).slot
            != (#[trigger] front[j]).slot by {
            assert(front[i] == writes[i] && front[j] == writes[j]);
        }
        lemma_slot_written(contents, area, front, total);
        let c = written(contents, area, front);
        let w = writes.last();
        assert(w == writes[writes.len() - 1]);
        let at = slot_offset(area, w.slot);
        assert(at + 262144 <= c.len());
        read_after_write(c, at, w.bytes);
        assert forall|i: int| 0 <= i < writes.len() implies slot_bytes(
            written(contents, area, writes),
            area,
            (#[trigger] writes[i]).slot,
        ) == writes[i].bytes by {
            if i < front.len() {
                assert(front[i] == writes[i]);
                assert(writes[i].slot != writes[writes.len() - 1].slot);
                write_elsewhere(
                    c,
                    at,
                    w.bytes,
                    slot_offset(area, writes[i].slot),
                    slot_offset(area, writes[i].slot + 1),
                );
            }
        }
    }
}

/// The writes of a flush go to distinct slots.
pub proof fn lemma_all_in_slots(
    writes: Seq<SlotWrite>,
    ls: Seq<Seq<PackedAssertion>>,
    area: int,
    k: int,
)
    requires
        0 <= k,
        all_laid(writes, ls, area, k),
    ensures
        in_slots(writes, slots_before(ls, k) as int),
    decreases k,
{
    if k > 0 {
        lemma_slots_grow(ls, k - 1, k);
        let mid = slots_before(ls, k - 1) as int;
        let end = slots_before(ls, k) as int;
        let front = writes.take(mid);
        assert(all_laid(front, ls, area, k - 1)) by {
            assert forall|i: int|
                0 <= i < k - 1 && (#[trigger] ls[i]).len() > 8 implies lays_out(
                front.subrange(slots_before(ls, i) as int, slots_before(ls, i + 1) as int),
                ls[i],
                area,
                slots_before(ls, i) as int,
            ) by {
                lemma_slots_grow(ls, i, i + 1);
                lemma_slots_grow(ls, i + 1, k - 1);
                assert(front.subrange(slots_before(ls, i) as int, slots_before(ls, i + 1) as int)
                    =~= writes.subrange(
                    slots_before(ls, i) as int,
                    slots_before(ls, i + 1) as int,
                ));
            }
        }
        lemma_all_in_slots(front, ls, area, k - 1);
        if ls[k - 1].len() > 8 {
            let p = ls[k - 1];
            let n = chunk_count(p.len()) as int;
            let back = writes.subrange(mid, end);
            assert(lays_out(back, p, area, mid));
            assert forall|i: int| 0 <= i < writes.len() implies {
                &&& 0 <= (#[trigger] writes[i]).slot < end
                &&& writes[i].bytes.len() == 262144
                &&& i < mid ==> writes[i].slot < mid
                &&& i >= mid ==> writes[i].slot == mid + (n - 1 - (i - mid))
            } by {
                if i < mid {
                    assert(front[i] == writes[i]);
                } else {
                    assert(back[i - mid] == writes[i]);
                    lemma_region_len(
                        writes[i].bytes,
                        chunk(p, n - 1 - (i - mid)),
                        link_after(area, mid, n, n - 1 - (i - mid)),
                    );
                }
            }
            assert forall|i: int, j: int| 0 <= i < j < writes.len() implies (
            #[trigger] writes[i]).slot != (#[trigger] writes[j]).slot by {
                if j < mid {
                    assert(front[i] == writes[i] && front[j] == writes[j]);
                }
            }
        } else {
            assert(front =~= writes);
        }
    }
}

/// The link to region `c` of a chain of `n` regions.
spec fn link_to(area: int, slot: int, n: int, c: int) -> BlockRef {
    link_after(area, slot, n, c - 1)
}

/// What a chain that was laid out gives, from region `c` on.
proof fn lemma_chain_back(
    contents: Seq<u8>,
    p: Seq<PackedAssertion>,
    area: int,
    slot: int,
    c: int,
)
    requires
        0 < p.len(),
        0 <= area,
        area % 4096 == 0,
        0 <= slot,
        0 <= c <= chunk_count(p.len()),
        slot_offset(area, slot + chunk_count(p.len())) <= contents.len(),
        slot_offset(area, slot + chunk_count(p.len())) <= 0x1000_0000_0000,
        forall|i: int|
            0 <= i < chunk_count(p.len()) ==> is_region(
                #[trigger] slot_bytes(contents, area, slot + i),
                chunk(p, i),
                link_after(area, slot, chunk_count(p.len()) as int, i),
            ),
    ensures
        chain_gives(
            contents,
            link_to(area, slot, chunk_count(p.len()) as int, c),
            p.len(),
            c as nat,
            if c == chunk_count(p.len()) {
                p
            } else {
                p.take(c * 16379)
            },
            Ok(p),
        ),
    decreases chunk_count(p.len()) - c,
{
    let n = chunk_count(p.len()) as int;
    let cur = link_to(area, slot, n, c);
    if c < n {
        lemma_chain_back(contents, p, area, slot, c + 1);
        let offset = slot_offset(area, slot + c);
        assert(cur == ref_at(offset));
        assert(offset % 4096 == 0 && offset / 4096 < 0x1_0000_0000);
        assert(cur.block_no as int * 4096 == offset);
        let bytes = contents.subrange(offset, offset + 262144);
        assert(bytes == slot_bytes(contents, area, slot + c));
        let q = chunk(p, c);
        let next = link_after(area, slot, n, c);
        assert(is_region(slot_bytes(contents, area, slot + c), q, next));
        let h = choose|h: BtreeNodeHeader|
            #[trigger] region_header(h, q.len()) && bytes == h.image() + packed_images(
                q,
                q.len() as int,
            ) + zeros((262064 - 16 * q.len()) as nat) + next.image();
        h.image_len();
        next.image_len();
        lemma_packed_len(q, q.len() as int);
        assert(h.image() =~= bytes.subrange(0, 64));
        assert(next.image() =~= bytes.subrange(262128, 262144));
        assert(packed_images(q, q.len() as int) =~= bytes.subrange(64, 64 + 16 * q.len() as int));
        assert(region_holds(bytes, h, q, next));
        assert(next == link_to(area, slot, n, c + 1));
        let acc = p.take(c * 16379);
        if c + 1 == n {
            assert(acc + q =~= p);
        } else {
            assert(acc + q =~= p.take((c + 1) * 16379));
        }
    }
}

/// A chain that a flush laid out reads back as what was written.
proof fn lemma_flushed_chain(
    contents: Seq<u8>,
    writes: Seq<SlotWrite>,
    ls: Seq<Seq<PackedAssertion>>,
    area: int,
    n: int,
    k: int,
)
    requires
        0 <= k < n,
        ls[k].len() > 8,
        all_laid(writes, ls, area, n),
        0 <= area,
        area % 4096 == 0,
        slot_offset(area, slots_before(ls, n) as int) <= contents.len(),
        slot_offset(area, slots_before(ls, n) as int) <= 0x1000_0000_0000,
    ensures
        chain_result(
            written(contents, area, writes),
            ref_at(slot_offset(area, slots_before(ls, k) as int)),
            ls[k].len(),
        ) == Ok::<Seq<PackedAssertion>, ChainFault>(ls[k]),
{
    let total = slots_before(ls, n) as int;
    lemma_all_in_slots(writes, ls, area, n);
    lemma_slot_written(contents, area, writes, total);
    lemma_slots_grow(ls, k + 1, n);
    let after = written(contents, area, writes);
    let p = ls[k];
    let m = chunk_count(p.len()) as int;
    let slot = slots_before(ls, k) as int;
    assert(slots_before(ls, k + 1) == slot + m);
    let mine = writes.subrange(slot, slot + m);
    assert(lays_out(mine, p, area, slot));
    assert forall|i: int| 0 <= i < m implies is_region(
        #[trigger] slot_bytes(after, area, slot + i),
        chunk(p, i),
        link_after(area, slot, m, i),
    ) by {
        assert(mine[m - 1 - i] == writes[slot + m - 1 - i]);
        assert(mine[m - 1 - i].slot == slot + (m - 1 - (m - 1 - i)));
        assert(m - 1 - (m - 1 - i) == i);
    }
    lemma_chain_back(after, p, area, slot, 0);
    assert(p.take(0) =~= Seq::empty());
    let head = ref_at(slot_offset(area, slot));
    assert(link_to(area, slot, m, 0) == head);
    let ok = Ok::<Seq<PackedAssertion>, ChainFault>(p);
    assert(chain_gives(after, head, p.len(), 0, Seq::empty(), ok));
    lemma_chain_unique(
        after,
        head,
        p.len(),
        0,
        Seq::empty(),
        ok,
        chain_result(after, head, p.len()),
    );
}

/// The directory entry of a list stands for the list, on the device after the flush.
#[verifier::rlimit(40)]
proof fn lemma_entry_back(
    contents: Seq<u8>,
    writes: Seq<SlotWrite>,
    ls: Seq<Seq<PackedAssertion>>,
    area: int,
    n: int,
    k: int,
)
    requires
        0 <= k < n,
        ls[k].len() <= 0x7FFF,
        all_laid(writes, ls, area, n),
        0 <= area,
        slots_before(ls, n) > 0 ==> area % 4096 == 0,
        slots_before(ls, n) > 0 ==> slot_offset(area, slots_before(ls, n) as int)
            <= contents.len(),
        slots_before(ls, n) > 0 ==> slot_offset(area, slots_before(ls, n) as int)
            <= 0x1000_0000_0000,
    ensures
        entry_packed(written(contents, area, writes), entry_value(ls, area, k)) == Ok::<
            Seq<PackedAssertion>,
            LoadFault,
        >(ls[k]),
{
    broadcast use crate::bytes::lemma_le_len;

    let p = ls[k];
    let bytes = entry_value(ls, area, k);
    let after = written(contents, area, writes);
    lemma_pow256_values();
    if p.len() <= 8 {
        lemma_packed_len(p, p.len() as int);
        lemma_le_value_of_le(p.len(), 2);
        assert(bytes.subrange(0, 2) =~= crate::bytes::le(p.len(), 2));
        assert(header_value(bytes) == p.len());
        let body = bytes.skip(2);
        assert(body.take(16 * p.len() as int) =~= packed_images(p, p.len() as int));
        let q = choose|q: Seq<PackedAssertion>|
            q.len() == p.len() && #[trigger] packed_images(q, q.len() as int) == body.take(
                16 * p.len() as int,
            );
        lemma_packed_injective(p, q);
    } else {
        let head = ref_at(slot_offset(area, slots_before(ls, k) as int));
        head.image_len();
        lemma_le_value_of_le(p.len() + 0x8000, 2);
        assert(bytes.subrange(0, 2) =~= crate::bytes::le(p.len() + 0x8000, 2));
        assert(header_value(bytes) == p.len() + 0x8000);
        let body = bytes.skip(2);
        assert(body.take(16) =~= head.image());
        let b = choose|b: BlockRef| b.image() == body.take(16);
        BlockRef::image_injective(b, head);
        lemma_slots_grow(ls, k + 1, n);
        lemma_flushed_chain(contents, writes, ls, area, n, k);
    }
}

/// The list with every attribute's value replaced by zero, the value that a
/// packed assertion does not keep.
pub open spec fn blanked(l: Seq<(AssertionModel, TagOrigin)>) -> Seq<(AssertionModel, TagOrigin)> {
    l.map_values(
        |p: (AssertionModel, TagOrigin)|
            match p.0 {
                AssertionModel::Attr(k, _) => (AssertionModel::Attr(k, ValueModel::Int(0)), p.1),
                other => p,
            },
    )
}

proof fn lemma_unpacked_back(l: Seq<(AssertionModel, TagOrigin)>, k: int)
    requires
        0 <= k <= l.len(),
    ensures
        unpacked_list(packed_list(l), k) == Ok::<Seq<(AssertionModel, TagOrigin)>, IndexError>(
            blanked(l).take(k),
        ),
    decreases k,
{
    if k > 0 {
        lemma_unpacked_back(l, k - 1);
        assert(packed_list(l)[k - 1] == crate::index::packed::packed_form(l[k - 1].0, l[k - 1].1));
        assert(blanked(l).take(k) =~= blanked(l).take(k - 1).push(blanked(l)[k - 1]));
    } else {
        assert(blanked(l).take(0) =~= Seq::empty());
    }
}

/// The directory entries are those of the lists `all` of the objects `ids`.
spec fn directory_of(
    entries: Seq<(ForwardIndexKey, ForwardIndexValue)>,
    ids: Seq<u64>,
    all: Seq<Seq<(AssertionModel, TagOrigin)>>,
    area: int,
) -> bool {
    let ls = all.map_values(|l: Seq<(AssertionModel, TagOrigin)>| packed_list(l));
    &&& entries.len() == ids.len()
    &&& all.len() == ids.len()
    &&& forall|k: int|
        0 <= k < entries.len() ==> (#[trigger] entries[k]).0.oid == ids[k]
            && entries[k].1.0@ == entry_value(ls, area, k)
}

/// What was flushed is what is loaded: each object with its assertions in
/// their order, the values of attributes replaced by zero. The area starts at
/// a block, and its block numbers fit into a reference.
pub proof fn flush_then_load(
    index: &ForwardIndex,
    contents: Seq<u8>,
    writes: Seq<SlotWrite>,
    entries: Seq<(ForwardIndexKey, ForwardIndexValue)>,
    area: int,
    cap: int,
)
    requires
        index.wf(),
        0 <= area,
        entries.len() == index.items().len(),
        ({
            let ls = packed_lists(index.items());
            let used = slots_before(ls, ls.len() as int) as int;
            &&& forall|k: int| 0 <= k < ls.len() ==> #[trigger] list_fault(ls, cap, k) is None
            &&& forall|k: int|
                0 <= k < entries.len() ==> (#[trigger] entries[k]).0.oid == index.items()[k].0
                    && entries[k].1.0@ == entry_value(ls, area, k)
            &&& all_laid(writes, ls, area, ls.len() as int)
            &&& used > 0 ==> area % 4096 == 0 && slot_offset(area, used) <= contents.len()
                && slot_offset(area, used) <= 0x1000_0000_0000
        }),
    ensures
        loaded(written(contents, area, writes), entries, entries.len() as int) == Ok::<
            Map<u64, Seq<(AssertionModel, TagOrigin)>>,
            LoadFault,
        >(index@.map_values(|l: Seq<(AssertionModel, TagOrigin)>| blanked(l))),
{
    let items = index.items();
    let ids = items.map_values(|e: (u64, Vec<(Assertion, TagOrigin)>)| e.0);
    let all = items.map_values(|e: (u64, Vec<(Assertion, TagOrigin)>)| list_model(e.1@));
    let ls = packed_lists(items);
    index.lemma_items();
    assert(all.map_values(|l: Seq<(AssertionModel, TagOrigin)>| packed_list(l)) =~= ls);
    assert forall|k: int| 0 <= k < all.len() implies (#[trigger] all[k]).len() <= 0x7FFF by {
        assert(list_fault(ls, cap, k) is None);
        assert(ls[k] == packed_list(all[k]));
    }
    assert forall|i: int, j: int| 0 <= i < ids.len() && 0 <= j < ids.len() && i != j implies ids[i]
        != ids[j] by {
        if i < j {
            assert(items[i].0 < items[j].0);
        } else {
            assert(items[j].0 < items[i].0);
        }
    }
    assert(directory_of(entries, ids, all, area));
    lemma_loaded_back(contents, writes, entries, ids, all, area, ids.len() as int);
    let m = loaded(written(contents, area, writes), entries, entries.len() as int);
    assert(ids.take(ids.len() as int) =~= ids);
    let want = index@.map_values(|l: Seq<(AssertionModel, TagOrigin)>| blanked(l));
    assert(m->Ok_0.dom() =~= want.dom()) by {
        assert forall|x: u64| ids.contains(x) == index@.contains_key(x) by {
            if ids.contains(x) {
                let i = choose|i: int| 0 <= i < ids.len() && #[trigger] ids[i] == x;
                assert(items[i].0 == x);
            }
            if index@.contains_key(x) {
                let i = choose|i: int| 0 <= i < items.len() && (#[trigger] items[i]).0 == x;
                assert(ids[i] == x);
            }
        }
    }
    assert forall|x: u64| #[trigger] want.contains_key(x) implies m->Ok_0[x] == want[x] by {
        let i = choose|i: int| 0 <= i < items.len() && (#[trigger] items[i]).0 == x;
        assert(ids[i] == x);
        assert(all[i] == list_model(items[i].1@));
    }
    assert(m->Ok_0 =~= want);
}

proof fn lemma_loaded_back(
    contents: Seq<u8>,
    writes: Seq<SlotWrite>,
    entries: Seq<(ForwardIndexKey, ForwardIndexValue)>,
    ids: Seq<u64>,
    all: Seq<Seq<(AssertionModel, TagOrigin)>>,
    area: int,
    k: int,
)
    requires
        0 <= k <= ids.len(),
        0 <= area,
        directory_of(entries, ids, all, area),
        ids.no_duplicates(),
        forall|k: int| 0 <= k < all.len() ==> (#[trigger] all[k]).len() <= 0x7FFF,
        ({
            let ls = all.map_values(|l: Seq<(AssertionModel, TagOrigin)>| packed_list(l));
            let n = slots_before(ls, ls.len() as int) as int;
            &&& all_laid(writes, ls, area, ls.len() as int)
            &&& n > 0 ==> area % 4096 == 0 && slot_offset(area, n) <= contents.len()
                && slot_offset(area, n) <= 0x1000_0000_0000
        }),
    ensures
        ({
            let m = loaded(written(contents, area, writes), entries, k);
            &&& m is Ok
            &&& m->Ok_0.dom() == ids.take(k).to_set()
            &&& forall|i: int| 0 <= i < k ==> m->Ok_0[#[trigger] ids[i]] == blanked(all[i])
        }),
    decreases k,
{
    let after = written(contents, area, writes);
    if k > 0 {
        lemma_loaded_back(contents, writes, entries, ids, all, area, k - 1);
        let ls = all.map_values(|l: Seq<(AssertionModel, TagOrigin)>| packed_list(l));
        let i = k - 1;
        assert(entries[i].0.oid == ids[i]);
        assert(ls[i] == packed_list(all[i]));
        assert(all[i].len() <= 0x7FFF);
        lemma_entry_back(contents, writes, ls, area, ls.len() as int, i);
        lemma_unpacked_back(all[i], all[i].len() as int);
        assert(blanked(all[i]).take(all[i].len() as int) =~= blanked(all[i]));
        assert(entry_list(after, entries[i].1.0@) == Ok::<
            Seq<(AssertionModel, TagOrigin)>,
            LoadFault,
        >(blanked(all[i])));
        assert(ids.take(k) =~= ids.take(k - 1).push(ids[i]));
        assert(ids.take(k).to_set() =~= ids.take(k - 1).to_set().insert(ids[i])) by {
            assert forall|x: u64| ids.take(k).contains(x) == (ids.take(k - 1).contains(x) || x
                == ids[i]) by {
                if ids.take(k).contains(x) {
                    let j = choose|j: int| 0 <= j < k && #[trigger] ids.take(k)[j] == x;
                    if j < i {
                        assert(ids.take(k - 1)[j] == x);
                    }
                }
                if ids.take(k - 1).contains(x) {
                    let front = ids.take(k - 1);
                    let j = choose|j: int| 0 <= j < k - 1 && #[trigger] front[j] == x;
                    assert(ids.take(k)[j] == x);
                }
                assert(ids.take(k)[i] == ids[i]);
            }
        }
    } else {
        assert(ids.take(0).to_set() =~= Set::empty());
    }
}

/// An assertion that an object did not have is added and removed again: the
/// index is as it was. The assertion is equal to itself, which one with a
/// value that is not a number is not.
pub proof fn add_then_remove(
    m: Map<u64, Seq<(AssertionModel, TagOrigin)>>,
    oid: u64,
    a: AssertionModel,
    origin: TagOrigin,
)
    requires
        m.contains_key(oid) ==> m[oid].len() > 0,
        assertion_eq(a, a),
        m.contains_key(oid) ==> forall|j: int|
            0 <= j < m[oid].len() ==> !assertion_eq((#[trigger] m[oid][j]).0, a),
    ensures
        ({
            let before = if m.contains_key(oid) {
                m[oid]
            } else {
                Seq::empty()
            };
            let l = before.push((a, origin));
            let i = before.len() as int;
            &&& first_match(l, a, i)
            &&& m == (if l.len() == 1 {
                m.insert(oid, l).remove(oid)
            } else {
                m.insert(oid, l).insert(oid, swap_removed(l, i))
            })
        }),
{
    let before = if m.contains_key(oid) {
        m[oid]
    } else {
        Seq::empty()
    };
    let l = before.push((a, origin));
    let i = before.len() as int;
    assert forall|j: int| 0 <= j < i implies !assertion_eq((#[trigger] l[j]).0, a) by {
        assert(l[j] == m[oid][j]);
    }
    assert(swap_removed(l, i) =~= before);
    if l.len() == 1 {
        assert(m.insert(oid, l).remove(oid) =~= m);
    } else {
        assert(m.insert(oid, l).insert(oid, swap_removed(l, i)) =~= m);
    }
}

} // verus!

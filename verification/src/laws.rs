//! The registry's laws, stated over the models its contracts use and
//! proved once for all inputs.

use vstd::prelude::*;

use crate::codec::enc_registry;
use crate::codec::sp_entries;
use crate::codec::sp_entry;
use crate::codec::sp_int;
use crate::codec::sp_registry;
use crate::codec::sp_ws;
use crate::entry::EntryView;
use crate::parse::lemma_sp_digits_lower;
use crate::store::loaded_or_empty;
use crate::registry::contains_path;
use crate::registry::lemma_remove_path_keeps_all;
use crate::registry::lemma_remove_path_sound;
use crate::registry::remove_path;
use crate::registry::upsert_model;
use crate::roundtrip::lemma_registry_round_trip;
use crate::roundtrip::ts_in_i64;
use crate::REGISTRY_CAP;

verus! {

/// Front insert: after an upsert of `p`, the registry is non-empty and
/// its first entry is the new one, whatever was stored before.
pub proof fn lemma_upsert_front(es: Seq<EntryView>, p: Seq<char>, n: Seq<char>, ts: int)
    ensures
        upsert_model(es, p, n, ts).len() >= 1,
        upsert_model(es, p, n, ts)[0] == (EntryView { path: p, name: n, last_opened: ts }),
{
}

/// Dedup: after an upsert of `p`, exactly one entry has path `p` — the
/// front one, carrying the name and time of that upsert. In particular,
/// two upserts of the same path leave one entry, with the later name.
pub proof fn lemma_upsert_dedup(es: Seq<EntryView>, p: Seq<char>, n: Seq<char>, ts: int)
    ensures
        upsert_model(es, p, n, ts)[0] == (EntryView { path: p, name: n, last_opened: ts }),
        forall|i: int|
            1 <= i < upsert_model(es, p, n, ts).len() ==> (#[trigger] upsert_model(
                es,
                p,
                n,
                ts,
            )[i]).path != p,
{
    lemma_remove_path_sound(es, p);
    let grown = seq![EntryView { path: p, name: n, last_opened: ts }] + remove_path(es, p);
    assert(forall|i: int|
        1 <= i < grown.len() ==> (#[trigger] grown[i]).path == remove_path(es, p)[i - 1].path);
}

/// The registry never exceeds its capacity after an upsert.
pub proof fn lemma_upsert_capacity(es: Seq<EntryView>, p: Seq<char>, n: Seq<char>, ts: int)
    ensures
        upsert_model(es, p, n, ts).len() <= REGISTRY_CAP as int,
        es.len() <= REGISTRY_CAP as int ==> upsert_model(es, p, n, ts).len() <= es.len() + 1,
{
    lemma_remove_path_sound(es, p);
}

/// The state after a run of upserts, applied oldest first.
pub open spec fn apply_upserts(es: Seq<EntryView>, ops: Seq<EntryView>) -> Seq<EntryView>
    decreases ops.len(),
{
    if ops.len() == 0 {
        es
    } else {
        apply_upserts(
            upsert_model(es, ops[0].path, ops[0].name, ops[0].last_opened),
            ops.skip(1),
        )
    }
}

/// A run of upserts with pairwise-distinct paths, none already present,
/// stacks the new entries newest-first on top of the old ones, cut to
/// capacity: entry `j` of the result is op `len - 1 - j` while ops last,
/// then the old entries in order.
pub proof fn lemma_apply_upserts_distinct(es: Seq<EntryView>, ops: Seq<EntryView>)
    requires
        es.len() <= REGISTRY_CAP as int,
        forall|i: int, j: int|
            0 <= i < j < ops.len() ==> (#[trigger] ops[i]).path != (#[trigger] ops[j]).path,
        forall|i: int| 0 <= i < ops.len() ==> !contains_path(es, (#[trigger] ops[i]).path),
    ensures
        apply_upserts(es, ops).len() == vstd::math::min(
            REGISTRY_CAP as int,
            ops.len() + es.len() as int,
        ),
        forall|j: int|
            0 <= j < apply_upserts(es, ops).len() ==> #[trigger] apply_upserts(es, ops)[j] == (
            if j < ops.len() {
                ops[ops.len() - 1 - j]
            } else {
                es[j - ops.len()]
            }),
    decreases ops.len(),
{
    if ops.len() == 0 {
    } else {
        let e0 = ops[0];
        let up = upsert_model(es, e0.path, e0.name, e0.last_opened);
        assert forall|i: int| 0 <= i < es.len() implies (#[trigger] es[i]).path != e0.path by {
            if es[i].path == e0.path {
                assert(contains_path(es, e0.path));
            }
        }
        lemma_remove_path_keeps_all(es, e0.path);
        let grown = seq![EntryView { path: e0.path, name: e0.name, last_opened: e0.last_opened }]
            + es;
        assert(EntryView { path: e0.path, name: e0.name, last_opened: e0.last_opened } == e0);
        assert(grown[0] == e0);
        assert(up.len() == vstd::math::min(REGISTRY_CAP as int, es.len() + 1 as int));
        assert(forall|j: int| 0 <= j < up.len() ==> #[trigger] up[j] == grown[j]);
        let tail = ops.skip(1);
        assert forall|i: int, j: int| 0 <= i < j < tail.len() implies (#[trigger] tail[i]).path
            != (#[trigger] tail[j]).path by {
            assert(tail[i] == ops[i + 1]);
            assert(tail[j] == ops[j + 1]);
        }
        assert forall|i: int| 0 <= i < tail.len() implies !contains_path(
            up,
            (#[trigger] tail[i]).path,
        ) by {
            assert(tail[i] == ops[i + 1]);
            if contains_path(up, tail[i].path) {
                let k = choose|k: int| 0 <= k < up.len() && up[k].path == tail[i].path;
                assert(up[k] == grown[k]);
                if k == 0 {
                    assert(ops[0].path == ops[i + 1].path);
                } else {
                    assert(grown[k] == es[k - 1]);
                    assert(contains_path(es, tail[i].path));
                }
            }
        }
        lemma_apply_upserts_distinct(up, tail);
        assert(apply_upserts(es, ops) == apply_upserts(up, tail));
        let r = apply_upserts(up, tail);
        assert forall|j: int| 0 <= j < r.len() implies #[trigger] r[j] == (
        if j < ops.len() {
            ops[ops.len() - 1 - j]
        } else {
            es[j - ops.len()]
        }) by {
            if j < tail.len() {
                assert(r[j] == tail[tail.len() - 1 - j]);
                assert(tail[tail.len() - 1 - j] == ops[ops.len() - 1 - j]);
            } else {
                assert(r[j] == up[j - tail.len()]);
                assert(up[j - tail.len()] == grown[j - tail.len()]);
            }
        }
    }
}

/// Capacity: a run of more than `REGISTRY_CAP` upserts of distinct paths
/// into an empty registry leaves exactly `REGISTRY_CAP` entries, and the
/// path of the oldest upsert is no longer among them.
pub proof fn lemma_capacity_eviction(ops: Seq<EntryView>)
    requires
        ops.len() > REGISTRY_CAP as int,
        forall|i: int, j: int|
            0 <= i < j < ops.len() ==> (#[trigger] ops[i]).path != (#[trigger] ops[j]).path,
    ensures
        apply_upserts(Seq::empty(), ops).len() == REGISTRY_CAP as int,
        !contains_path(apply_upserts(Seq::empty(), ops), ops[0].path),
{
    let es = Seq::<EntryView>::empty();
    assert(forall|i: int| 0 <= i < ops.len() ==> !contains_path(es, (#[trigger] ops[i]).path));
    lemma_apply_upserts_distinct(es, ops);
    let r = apply_upserts(es, ops);
    if contains_path(r, ops[0].path) {
        let j = choose|j: int| 0 <= j < r.len() && r[j].path == ops[0].path;
        assert(r[j] == ops[ops.len() - 1 - j]);
        assert(ops.len() - 1 - j >= 1);
        assert(ops[ops.len() - 1 - j].path != ops[0].path);
    }
}

/// An upsert with a representable time keeps every stored time
/// representable.
pub proof fn lemma_upsert_ts_range(es: Seq<EntryView>, p: Seq<char>, n: Seq<char>, ts: int)
    requires
        forall|k: int| 0 <= k < es.len() ==> ts_in_i64(#[trigger] es[k]),
        -0x8000000000000000 <= ts <= 0x7fffffffffffffff,
    ensures
        forall|k: int|
            0 <= k < upsert_model(es, p, n, ts).len() ==> ts_in_i64(
                #[trigger] upsert_model(es, p, n, ts)[k],
            ),
{
    lemma_remove_path_sound(es, p);
    let grown = seq![EntryView { path: p, name: n, last_opened: ts }] + remove_path(es, p);
    assert forall|k: int| 0 <= k < grown.len() implies ts_in_i64(#[trigger] grown[k]) by {
        if k >= 1 {
            assert(grown[k] == remove_path(es, p)[k - 1]);
            assert(es.contains(remove_path(es, p)[k - 1]));
            let m = choose|m: int| 0 <= m < es.len() && es[m] == remove_path(es, p)[k - 1];
            assert(ts_in_i64(es[m]));
        }
    }
    assert(forall|k: int|
        0 <= k < upsert_model(es, p, n, ts).len() ==> #[trigger] upsert_model(es, p, n, ts)[k]
            == grown[k]);
}

/// A persisted upsert reads back exactly: the content written for the
/// new registry parses to that registry, so a read after an upsert sees
/// the upsert's result — its new entry at the front.
pub proof fn lemma_upsert_reads_back(es: Seq<EntryView>, p: Seq<char>, n: Seq<char>, ts: int)
    requires
        forall|k: int| 0 <= k < es.len() ==> ts_in_i64(#[trigger] es[k]),
        -0x8000000000000000 <= ts <= 0x7fffffffffffffff,
    ensures
        sp_registry(enc_registry(upsert_model(es, p, n, ts))) == Some(upsert_model(es, p, n, ts)),
{
    lemma_upsert_ts_range(es, p, n, ts);
    lemma_registry_round_trip(upsert_model(es, p, n, ts));
}

/// A persisted removal reads back exactly; in particular, removing the
/// last remaining entry leaves an existing store whose content parses to
/// the empty registry — unlike a clear, which removes the store itself.
pub proof fn lemma_remove_reads_back(es: Seq<EntryView>, p: Seq<char>)
    requires
        forall|k: int| 0 <= k < es.len() ==> ts_in_i64(#[trigger] es[k]),
    ensures
        sp_registry(enc_registry(remove_path(es, p))) == Some(remove_path(es, p)),
{
    lemma_remove_path_sound(es, p);
    let r = remove_path(es, p);
    assert forall|k: int| 0 <= k < r.len() implies ts_in_i64(#[trigger] r[k]) by {
        assert(es.contains(r[k]));
        let m = choose|m: int| 0 <= m < es.len() && es[m] == r[k];
        assert(ts_in_i64(es[m]));
    }
    lemma_registry_round_trip(r);
}

/// The registry's structural invariant: no two entries share a path.
pub open spec fn paths_unique(es: Seq<EntryView>) -> bool {
    forall|i: int, j: int|
        0 <= i < j < es.len() ==> (#[trigger] es[i]).path != (#[trigger] es[j]).path
}

/// Removal keeps paths unique.
pub proof fn lemma_remove_path_unique(es: Seq<EntryView>, p: Seq<char>)
    requires
        paths_unique(es),
    ensures
        paths_unique(remove_path(es, p)),
    decreases es.len(),
{
    if es.len() == 0 {
    } else {
        assert forall|i: int, j: int| 0 <= i < j < es.skip(1).len() implies (#[trigger] es.skip(
            1,
        )[i]).path != (#[trigger] es.skip(1)[j]).path by {
            assert(es.skip(1)[i] == es[i + 1]);
            assert(es.skip(1)[j] == es[j + 1]);
        }
        lemma_remove_path_unique(es.skip(1), p);
        if es[0].path != p {
            lemma_remove_path_sound(es.skip(1), p);
            let r = remove_path(es, p);
            assert forall|i: int, j: int| 0 <= i < j < r.len() implies (#[trigger] r[i]).path != (
            #[trigger] r[j]).path by {
                if i == 0 {
                    assert(r[j] == remove_path(es.skip(1), p)[j - 1]);
                    assert(contains_path(es.skip(1), r[j].path));
                    let m = choose|m: int|
                        0 <= m < es.skip(1).len() && es.skip(1)[m].path == r[j].path;
                    assert(es[m + 1].path == r[j].path);
                    assert(es[0].path != es[m + 1].path);
                } else {
                    assert(r[i] == remove_path(es.skip(1), p)[i - 1]);
                    assert(r[j] == remove_path(es.skip(1), p)[j - 1]);
                }
            }
        }
    }
}

/// The data-model invariant holds after every upsert: paths stay unique
/// and the length stays within capacity.
pub proof fn lemma_upsert_invariant(es: Seq<EntryView>, p: Seq<char>, n: Seq<char>, ts: int)
    requires
        paths_unique(es),
    ensures
        paths_unique(upsert_model(es, p, n, ts)),
        upsert_model(es, p, n, ts).len() <= REGISTRY_CAP as int,
{
    lemma_remove_path_unique(es, p);
    lemma_remove_path_sound(es, p);
    let grown = seq![EntryView { path: p, name: n, last_opened: ts }] + remove_path(es, p);
    assert forall|i: int, j: int| 0 <= i < j < grown.len() implies (#[trigger] grown[i]).path != (
    #[trigger] grown[j]).path by {
        if i >= 1 {
            assert(grown[i] == remove_path(es, p)[i - 1]);
            assert(grown[j] == remove_path(es, p)[j - 1]);
        } else {
            assert(grown[j] == remove_path(es, p)[j - 1]);
            assert(remove_path(es, p)[j - 1].path != p);
        }
    }
    let up = upsert_model(es, p, n, ts);
    assert(forall|k: int| 0 <= k < up.len() ==> #[trigger] up[k] == grown[k]);
}

/// An integer the grammar accepts lies in the signed 64-bit range.
pub proof fn lemma_sp_int_range(s: Seq<char>)
    ensures
        sp_int(s) matches Some(p) ==> -0x8000000000000000 <= p.0 <= 0x7fffffffffffffff,
{
    if s.len() > 0 && s[0] == '-' {
        if s.len() > 1 {
            lemma_sp_digits_lower(s.skip(1), 0);
        }
    } else if s.len() > 0 {
        lemma_sp_digits_lower(s, 0);
    }
}

/// An entry the grammar accepts carries a representable time.
pub proof fn lemma_sp_entry_ts_range(s: Seq<char>)
    ensures
        sp_entry(s) matches Some(p) ==> ts_in_i64(p.0),
{
    assert forall|x: Seq<char>| #[trigger] sp_int(x) is Some implies -0x8000000000000000 <= sp_int(
        x,
    ).unwrap().0 <= 0x7fffffffffffffff by {
        lemma_sp_int_range(x);
    }
}

/// Every entry in a run the grammar accepts carries a representable time.
pub proof fn lemma_sp_entries_ts_range(s: Seq<char>)
    ensures
        sp_entries(s) matches Some(p) ==> forall|k: int|
            0 <= k < p.0.len() ==> ts_in_i64(#[trigger] p.0[k]),
    decreases s.len(),
{
    if sp_entries(s) is Some {
        lemma_sp_entry_ts_range(s);
        let q = sp_entry(s).unwrap();
        let r2 = sp_ws(q.1);
        if r2.len() > 0 && r2[0] == ',' && r2.len() <= s.len() {
            lemma_sp_entries_ts_range(r2.skip(1));
            let inner = sp_entries(r2.skip(1)).unwrap();
            let es = sp_entries(s).unwrap().0;
            assert(es == seq![q.0] + inner.0);
            assert forall|k: int| 0 <= k < es.len() implies ts_in_i64(#[trigger] es[k]) by {
                if k >= 1 {
                    assert(es[k] == inner.0[k - 1]);
                }
            }
        }
    }
}

/// Every entry of a registry the grammar accepts carries a representable
/// time.
pub proof fn lemma_sp_registry_ts_range(s: Seq<char>)
    ensures
        sp_registry(s) matches Some(es) ==> forall|k: int|
            0 <= k < es.len() ==> ts_in_i64(#[trigger] es[k]),
{
    let t = sp_ws(s);
    if t.len() > 0 && t[0] == '[' {
        lemma_sp_entries_ts_range(t.skip(1));
    }
}

/// Whatever a backing-store state loads as carries representable times.
pub proof fn lemma_loaded_ts_range(c: Option<Seq<char>>)
    ensures
        forall|k: int|
            0 <= k < loaded_or_empty(c).len() ==> ts_in_i64(#[trigger] loaded_or_empty(c)[k]),
{
    if c is Some {
        lemma_sp_registry_ts_range(c.unwrap());
    }
}

/// Front insert, at the store: after an upsert against any backing-store
/// state is persisted, a read parses the persisted content back exactly,
/// and the first entry it returns is the upsert's.
pub proof fn lemma_store_upsert_then_get(
    c: Option<Seq<char>>,
    p: Seq<char>,
    n: Seq<char>,
    ts: int,
)
    requires
        -0x8000000000000000 <= ts <= 0x7fffffffffffffff,
    ensures
        sp_registry(enc_registry(upsert_model(loaded_or_empty(c), p, n, ts))) == Some(
            upsert_model(loaded_or_empty(c), p, n, ts),
        ),
        upsert_model(loaded_or_empty(c), p, n, ts).len() >= 1,
        upsert_model(loaded_or_empty(c), p, n, ts)[0] == (EntryView {
            path: p,
            name: n,
            last_opened: ts,
        }),
{
    lemma_loaded_ts_range(c);
    lemma_upsert_reads_back(loaded_or_empty(c), p, n, ts);
    lemma_upsert_front(loaded_or_empty(c), p, n, ts);
}

/// Remove versus clear, at the store: the content persisted by a removal
/// against any backing-store state parses back exactly — so the resource
/// still exists and reads as the filtered registry (empty, when the last
/// entry went), where a clear leaves no resource at all.
pub proof fn lemma_store_remove_then_get(c: Option<Seq<char>>, p: Seq<char>)
    ensures
        sp_registry(enc_registry(remove_path(loaded_or_empty(c), p))) == Some(
            remove_path(loaded_or_empty(c), p),
        ),
{
    lemma_loaded_ts_range(c);
    lemma_remove_reads_back(loaded_or_empty(c), p);
}

} // verus!

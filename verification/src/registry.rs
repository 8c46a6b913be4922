//! The registry's mutation rules: dedup by path, front insert, bounded
//! capacity with tail eviction, and order-preserving removal.

use vstd::prelude::*;

use crate::entry::EntryView;
use crate::entry::RecentFile;
use crate::REGISTRY_CAP;

verus! {

/// All entries whose path differs from `p`, in their original order.
pub open spec fn remove_path(es: Seq<EntryView>, p: Seq<char>) -> Seq<EntryView>
    decreases es.len(),
{
    if es.len() == 0 {
        Seq::empty()
    } else if es[0].path == p {
        remove_path(es.skip(1), p)
    } else {
        seq![es[0]] + remove_path(es.skip(1), p)
    }
}

/// Whether some entry of `es` has path `p`.
pub open spec fn contains_path(es: Seq<EntryView>, p: Seq<char>) -> bool {
    exists|i: int| 0 <= i < es.len() && es[i].path == p
}

/// The registry after recording that `p` (displayed as `n`) was opened at
/// time `ts`: any previous entry for `p` is dropped, the new entry goes to
/// the front, and the list is cut to `REGISTRY_CAP` entries.
pub open spec fn upsert_model(es: Seq<EntryView>, p: Seq<char>, n: Seq<char>, ts: int) -> Seq<
    EntryView,
> {
    let grown = seq![EntryView { path: p, name: n, last_opened: ts }] + remove_path(es, p);
    if grown.len() <= REGISTRY_CAP as int {
        grown
    } else {
        grown.take(REGISTRY_CAP as int)
    }
}

/// `remove_path` distributes over concatenation.
pub proof fn lemma_remove_path_concat(a: Seq<EntryView>, b: Seq<EntryView>, p: Seq<char>)
    ensures
        remove_path(a + b, p) == remove_path(a, p) + remove_path(b, p),
    decreases a.len(),
{
    if a.len() == 0 {
        assert(a + b =~= b);
        assert(remove_path(a, p) + remove_path(b, p) =~= remove_path(b, p));
    } else {
        lemma_remove_path_concat(a.skip(1), b, p);
        assert((a + b).skip(1) =~= a.skip(1) + b);
        if a[0].path == p {
        } else {
            assert(seq![a[0]] + (remove_path(a.skip(1), p) + remove_path(b, p)) =~= (seq![a[0]]
                + remove_path(a.skip(1), p)) + remove_path(b, p));
        }
    }
}

/// No entry of `remove_path(es, p)` has path `p`, every entry of it occurs
/// in `es`, and it is no longer than `es`.
pub proof fn lemma_remove_path_sound(es: Seq<EntryView>, p: Seq<char>)
    ensures
        forall|i: int|
            0 <= i < remove_path(es, p).len() ==> (#[trigger] remove_path(es, p)[i]).path != p,
        forall|i: int|
            0 <= i < remove_path(es, p).len() ==> contains_path(es, remove_path(es, p)[i].path),
        forall|i: int| 0 <= i < remove_path(es, p).len() ==> es.contains(
            #[trigger] remove_path(es, p)[i],
        ),
        remove_path(es, p).len() <= es.len(),
    decreases es.len(),
{
    if es.len() == 0 {
    } else {
        lemma_remove_path_sound(es.skip(1), p);
        assert(forall|i: int|
            0 <= i < es.skip(1).len() && (#[trigger] es.skip(1)[i]).path != p ==> es[i + 1].path
                != p);
        assert forall|i: int| 0 <= i < remove_path(es, p).len() implies contains_path(
            es,
            remove_path(es, p)[i].path,
        ) && es.contains(#[trigger] remove_path(es, p)[i]) by {
            let r = remove_path(es, p);
            if es[0].path == p {
                assert(contains_path(es.skip(1), r[i].path));
                let j = choose|j: int| 0 <= j < es.skip(1).len() && es.skip(1)[j].path == r[i].path;
                assert(es[j + 1].path == r[i].path);
                assert(es.skip(1).contains(r[i]));
                let m = choose|m: int| 0 <= m < es.skip(1).len() && es.skip(1)[m] == r[i];
                assert(es[m + 1] == r[i]);
            } else {
                if i == 0 {
                    assert(es[0].path == r[0].path);
                    assert(es[0] == r[0]);
                } else {
                    assert(r[i] == remove_path(es.skip(1), p)[i - 1]);
                    assert(contains_path(es.skip(1), r[i].path));
                    let j = choose|j: int|
                        0 <= j < es.skip(1).len() && es.skip(1)[j].path == r[i].path;
                    assert(es[j + 1].path == r[i].path);
                    assert(es.skip(1).contains(r[i]));
                    let m = choose|m: int| 0 <= m < es.skip(1).len() && es.skip(1)[m] == r[i];
                    assert(es[m + 1] == r[i]);
                }
            }
        }
    }
}

/// An entry with a path other than `p` keeps its place relative to the
/// others: dropping one marked entry from the middle leaves the rest in
/// their original order.
pub proof fn lemma_remove_path_middle(
    a: Seq<EntryView>,
    x: EntryView,
    b: Seq<EntryView>,
    p: Seq<char>,
)
    requires
        forall|i: int| 0 <= i < a.len() ==> (#[trigger] a[i]).path != p,
        x.path == p,
        forall|i: int| 0 <= i < b.len() ==> (#[trigger] b[i]).path != p,
    ensures
        remove_path(a + seq![x] + b, p) == a + b,
{
    lemma_remove_path_concat(a + seq![x], b, p);
    lemma_remove_path_concat(a, seq![x], p);
    lemma_remove_path_keeps_all(a, p);
    lemma_remove_path_keeps_all(b, p);
    lemma_remove_path_single(x, p);
    assert(remove_path(a, p) + remove_path(seq![x], p) =~= a);
    assert((a + seq![x]) + b =~= a + seq![x] + b);
}

/// `remove_path` on a single entry keeps or drops it by its path.
pub proof fn lemma_remove_path_single(x: EntryView, p: Seq<char>)
    ensures
        x.path == p ==> remove_path(seq![x], p) == Seq::<EntryView>::empty(),
        x.path != p ==> remove_path(seq![x], p) == seq![x],
{
    assert(seq![x].skip(1) =~= Seq::<EntryView>::empty());
    assert(remove_path(Seq::<EntryView>::empty(), p) =~= Seq::<EntryView>::empty());
    if x.path != p {
        assert(seq![x] + Seq::<EntryView>::empty() =~= seq![x]);
    }
}

/// When no entry of `es` has path `p`, removal changes nothing.
pub proof fn lemma_remove_path_keeps_all(es: Seq<EntryView>, p: Seq<char>)
    requires
        forall|i: int| 0 <= i < es.len() ==> (#[trigger] es[i]).path != p,
    ensures
        remove_path(es, p) == es,
    decreases es.len(),
{
    if es.len() == 0 {
        assert(remove_path(es, p) =~= es);
    } else {
        assert(forall|i: int|
            0 <= i < es.skip(1).len() ==> (#[trigger] es.skip(1)[i]).path != p);
        lemma_remove_path_keeps_all(es.skip(1), p);
        assert(seq![es[0]] + es.skip(1) =~= es);
    }
}

impl RecentFile {
    /// Whether this entry's path equals `p`.
    pub fn path_is(&self, p: &String) -> (r: bool)
        ensures
            r == (self@.path == p@),
    {
        self.path == *p
    }
}

/// All entries of `files` whose path differs from `path`, in order.
pub fn remove_list(files: &Vec<RecentFile>, path: &String) -> (r: Vec<RecentFile>)
    ensures
        r.deep_view() == remove_path(files.deep_view(), path@),
{
    let ghost es = files.deep_view();
    let mut out: Vec<RecentFile> = Vec::new();
    proof {
        assert(es.take(0) =~= Seq::<EntryView>::empty());
        assert(remove_path(Seq::<EntryView>::empty(), path@) =~= Seq::<EntryView>::empty());
        assert(out.deep_view() =~= Seq::<EntryView>::empty());
    }
    let mut i: usize = 0;
    while i < files.len()
        invariant
            0 <= i <= files.len(),
            es == files.deep_view(),
            es.len() == files.len(),
            forall|j: int| 0 <= j < es.len() ==> es[j] == #[trigger] files[j]@,
            out.deep_view() == remove_path(es.take(i as int), path@),
        decreases files.len() - i,
    {
        proof {
            lemma_remove_path_concat(es.take(i as int), seq![es[i as int]], path@);
            lemma_remove_path_single(es[i as int], path@);
            assert(es.take(i as int) + seq![es[i as int]] =~= es.take(i + 1 as int));
        }
        let f = &files[i];
        if !f.path_is(path) {
            let ghost old_out = out.deep_view();
            out.push(f.duplicate());
            proof {
                assert(out.deep_view() =~= old_out + seq![es[i as int]]);
                assert(old_out + seq![es[i as int]] =~= remove_path(es.take(i + 1 as int), path@));
            }
        } else {
            proof {
                assert(out.deep_view() + Seq::<EntryView>::empty() =~= out.deep_view());
                assert(out.deep_view() =~= remove_path(es.take(i + 1 as int), path@));
            }
        }
        i = i + 1;
    }
    proof {
        assert(es.take(es.len() as int) =~= es);
    }
    out
}

/// The registry after an upsert of (`path`, `name`) at time `last_opened`:
/// the result follows `upsert_model`.
pub fn upsert_list(
    files: &Vec<RecentFile>,
    path: String,
    name: String,
    last_opened: i64,
) -> (r: Vec<RecentFile>)
    ensures
        r.deep_view() == upsert_model(files.deep_view(), path@, name@, last_opened as int),
{
    let ghost es = files.deep_view();
    let ghost p = path@;
    let ghost n = name@;
    let kept = remove_list(files, &path);
    let mut out: Vec<RecentFile> = Vec::new();
    out.push(RecentFile { path, name, last_opened });
    proof {
        assert(kept.deep_view().take(0) =~= Seq::<EntryView>::empty());
        assert(out.deep_view() =~= seq![
            EntryView { path: p, name: n, last_opened: last_opened as int },
        ] + kept.deep_view().take(0));
    }
    let mut i: usize = 0;
    while i < kept.len()
        invariant
            0 <= i <= kept.len(),
            kept.deep_view() == remove_path(es, p),
            out.deep_view() =~= seq![
                EntryView { path: p, name: n, last_opened: last_opened as int },
            ] + kept.deep_view().take(i as int),
            kept.deep_view().len() == kept.len(),
            forall|j: int| 0 <= j < kept.len() ==> kept.deep_view()[j] == #[trigger] kept[j]@,
        decreases kept.len() - i,
    {
        let ghost old_out = out.deep_view();
        out.push(kept[i].duplicate());
        proof {
            assert(out.deep_view() =~= old_out + seq![kept.deep_view()[i as int]]);
            assert(kept.deep_view().take(i + 1 as int) =~= kept.deep_view().take(i as int)
                + seq![kept.deep_view()[i as int]]);
            assert(out.deep_view() =~= seq![
                EntryView { path: p, name: n, last_opened: last_opened as int },
            ] + kept.deep_view().take(i + 1 as int));
        }
        i = i + 1;
    }
    proof {
        assert(kept.deep_view().take(kept.len() as int) =~= kept.deep_view());
    }
    if out.len() > REGISTRY_CAP {
        let ghost before = out.deep_view();
        let ghost before_raw = out@;
        out.truncate(REGISTRY_CAP);
        proof {
            assert(out@ =~= before_raw.subrange(0, REGISTRY_CAP as int));
            assert(out.deep_view() =~= before.take(REGISTRY_CAP as int));
        }
    }
    out
}

} // verus!

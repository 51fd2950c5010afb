use vstd::prelude::*;
use vstd::string::StrSliceExecFns;

use crate::config::spec_base_name;
use crate::config::base_name;
use crate::launcher::is_littera_work;
use crate::launcher::path_is_dir;

verus! {

/// One candidate work directory found in the workspace.
#[derive(Debug)]
pub struct WorkEntry {
    pub name: String,
    pub path: String,
}

/// Lexicographic order on character sequences by code point.
pub open spec fn lex_le(a: Seq<char>, b: Seq<char>) -> bool
    decreases a.len(),
{
    if a.len() == 0 {
        true
    } else if b.len() == 0 {
        false
    } else if (a[0] as u32) < (b[0] as u32) {
        true
    } else if (a[0] as u32) > (b[0] as u32) {
        false
    } else {
        lex_le(a.drop_first(), b.drop_first())
    }
}

pub open spec fn sorted_by_name(s: Seq<WorkEntry>) -> bool {
    forall|i: int, j: int| 0 <= i < j < s.len() ==> lex_le(s[i].name@, s[j].name@)
}

/// An entry derived from a candidate path: the path itself, named by its
/// base name.
pub open spec fn entry_from(e: WorkEntry, p: Seq<char>) -> bool {
    e.path@ == p && e.name@ == spec_base_name(p)
}

/// An entry that belongs in the listing: derived from some candidate
/// that was marked to keep.
pub open spec fn from_kept(e: WorkEntry, paths: Seq<String>, keep: Seq<bool>) -> bool {
    exists|i: int| 0 <= i < paths.len() && keep[i] && entry_from(e, paths[i]@)
}

/// The view of an entry: its name and its path.
pub open spec fn entry_pair(e: WorkEntry) -> (Seq<char>, Seq<char>) {
    (e.name@, e.path@)
}

/// The views of a listing's entries, in order.
pub open spec fn entry_pairs(s: Seq<WorkEntry>) -> Seq<(Seq<char>, Seq<char>)> {
    s.map_values(|e: WorkEntry| entry_pair(e))
}

/// The (name, path) pairs of the kept candidates, one per kept index, in
/// candidate order.
pub open spec fn kept_pairs(paths: Seq<String>, keep: Seq<bool>) -> Seq<(Seq<char>, Seq<char>)>
    decreases paths.len(),
{
    if paths.len() == 0 {
        Seq::empty()
    } else {
        kept_pairs(paths.drop_last(), keep.drop_last()) + (if keep.len() > 0 && keep.last() {
            seq![(spec_base_name(paths.last()@), paths.last()@)]
        } else {
            Seq::empty()
        })
    }
}

/// Inserting an entry anywhere in a listing adds exactly its pair to the
/// multiset of the listing's pairs.
proof fn lemma_pairs_insert(s: Seq<WorkEntry>, k: int, e: WorkEntry)
    requires
        0 <= k <= s.len(),
    ensures
        entry_pairs(s.insert(k, e)).to_multiset() == entry_pairs(s).to_multiset().insert(
            entry_pair(e),
        ),
{
    broadcast use vstd::seq_lib::group_to_multiset_ensures;

    let a = s.subrange(0, k);
    let b = s.subrange(k, s.len() as int);
    let pa = entry_pairs(a);
    let pb = entry_pairs(b);
    let p = entry_pair(e);
    assert(s.insert(k, e) == a.push(e) + b);
    assert(entry_pairs(s.insert(k, e)) =~= pa.push(p) + pb);
    assert(entry_pairs(s) =~= pa + pb);
    vstd::seq_lib::lemma_multiset_commutative(pa.push(p), pb);
    vstd::seq_lib::lemma_multiset_commutative(pa, pb);
    assert(pa.push(p).to_multiset() =~= pa.to_multiset().insert(p));
    assert(entry_pairs(s.insert(k, e)).to_multiset() =~= entry_pairs(s).to_multiset().insert(p));
}

/// How many candidates were kept.
pub open spec fn num_kept(keep: Seq<bool>) -> nat
    decreases keep.len(),
{
    if keep.len() == 0 {
        0
    } else {
        num_kept(keep.drop_last()) + if keep.last() {
            1nat
        } else {
            0nat
        }
    }
}

proof fn lemma_lex_total(a: Seq<char>, b: Seq<char>)
    ensures
        lex_le(a, b) || lex_le(b, a),
    decreases a.len(),
{
    if a.len() > 0 && b.len() > 0 && (a[0] as u32) == (b[0] as u32) {
        lemma_lex_total(a.drop_first(), b.drop_first());
    }
}

proof fn lemma_lex_trans(a: Seq<char>, b: Seq<char>, c: Seq<char>)
    requires
        lex_le(a, b),
        lex_le(b, c),
    ensures
        lex_le(a, c),
    decreases a.len(),
{
    if a.len() > 0 {
        if (a[0] as u32) == (b[0] as u32) && (b[0] as u32) == (c[0] as u32) {
            lemma_lex_trans(a.drop_first(), b.drop_first(), c.drop_first());
        }
    }
}

/// Decide `lex_le` on two strings.
pub fn str_lex_le(a: &str, b: &str) -> (r: bool)
    ensures
        r == lex_le(a@, b@),
{
    let an: usize = a.unicode_len();
    let bn: usize = b.unicode_len();
    let mut i: usize = 0;
    proof {
        assert(a@.skip(0) =~= a@);
        assert(b@.skip(0) =~= b@);
    }
    while i < an && i < bn
        invariant
            0 <= i <= an,
            0 <= i <= bn,
            an == a@.len(),
            bn == b@.len(),
            lex_le(a@, b@) == lex_le(a@.skip(i as int), b@.skip(i as int)),
        decreases an - i,
    {
        let ca = a.get_char(i);
        let cb = b.get_char(i);
        proof {
            assert(a@.skip(i as int)[0] == a@[i as int]);
            assert(b@.skip(i as int)[0] == b@[i as int]);
            assert(a@.skip(i as int).drop_first() =~= a@.skip(i as int + 1));
            assert(b@.skip(i as int).drop_first() =~= b@.skip(i as int + 1));
        }
        if (ca as u32) < (cb as u32) {
            return true;
        }
        if (ca as u32) > (cb as u32) {
            return false;
        }
        i = i + 1;
    }
    if i == an {
        proof {
            assert(a@.skip(i as int) =~= Seq::<char>::empty());
        }
        true
    } else {
        proof {
            assert(b@.skip(i as int) =~= Seq::<char>::empty());
            assert(a@.skip(i as int).len() > 0);
        }
        false
    }
}

/// Insert an entry into a name-sorted list, keeping it sorted. Every
/// element of the result is the new entry or an old one, so a property
/// that held of all of them and of the new entry still holds of all.
fn insert_sorted(out: &mut Vec<WorkEntry>, e: WorkEntry, Ghost(good): Ghost<
    spec_fn(WorkEntry) -> bool,
>)
    requires
        sorted_by_name(old(out)@),
        forall|m: int| 0 <= m < old(out)@.len() ==> good(#[trigger] old(out)@[m]),
        good(e),
    ensures
        sorted_by_name(final (out)@),
        final (out)@.len() == old(out)@.len() + 1,
        forall|k: int| 0 <= k < final (out)@.len() ==> good(#[trigger] final (out)@[k]),
        entry_pairs(final (out)@).to_multiset() == entry_pairs(old(out)@).to_multiset().insert(
            entry_pair(e),
        ),
{
    let ghost before = out@;
    let ghost ename = e.name@;
    let mut k: usize = 0;
    while k < out.len() && str_lex_le(out[k].name.as_str(), e.name.as_str())
        invariant
            0 <= k <= out@.len(),
            out@ == before,
            e.name@ == ename,
            sorted_by_name(out@),
            forall|m: int| 0 <= m < k ==> lex_le(#[trigger] before[m].name@, ename),
        decreases out@.len() - k,
    {
        k = k + 1;
    }
    proof {
        if (k as int) < before.len() {
            lemma_lex_total(before[k as int].name@, ename);
            assert(lex_le(ename, before[k as int].name@));
        }
    }
    let ghost p = entry_pair(e);
    out.insert(k, e);
    proof {
        let after = out@;
        assert(after == before.insert(k as int, e));
        lemma_pairs_insert(before, k as int, e);
        assert(entry_pairs(after).to_multiset() == entry_pairs(before).to_multiset().insert(p));
        assert forall|i: int, j: int|
            0 <= i < j < after.len() implies lex_le(after[i].name@, after[j].name@) by {
            if j < k {
                assert(after[i] == before[i] && after[j] == before[j]);
            } else if i < k && j == k {
                assert(after[i] == before[i] && after[j] == e);
            } else if i < k && j > k {
                assert(after[i] == before[i] && after[j] == before[j - 1]);
            } else if i == k {
                assert(after[i] == e && after[j] == before[j - 1]);
                assert(lex_le(ename, before[k as int].name@));
                if j - 1 > k {
                    assert(lex_le(before[k as int].name@, before[j - 1].name@));
                    lemma_lex_trans(ename, before[k as int].name@, before[j - 1].name@);
                }
            } else {
                assert(after[i] == before[i - 1] && after[j] == before[j - 1]);
            }
        }
        assert forall|kk: int| 0 <= kk < after.len() implies good(#[trigger] after[kk]) by {
            if kk < k {
                assert(after[kk] == before[kk]);
            } else if kk == k {
                assert(after[kk] == e);
            } else {
                assert(after[kk] == before[kk - 1]);
            }
        }
    }
}

/// Build the sorted listing of the candidates marked to keep: exactly
/// one entry per kept candidate — the multiset of the entries' (name,
/// path) pairs equals the kept candidates' pairs, so nothing is added,
/// dropped or repeated — sorted by name.
#[verifier::rlimit(50)]
pub fn work_entries(paths: &Vec<String>, keep: &Vec<bool>) -> (out: Vec<WorkEntry>)
    requires
        paths@.len() == keep@.len(),
    ensures
        sorted_by_name(out@),
        out@.len() == num_kept(keep@),
        forall|k: int| 0 <= k < out@.len() ==> from_kept(#[trigger] out@[k], paths@, keep@),
        entry_pairs(out@).to_multiset() == kept_pairs(paths@, keep@).to_multiset(),
{
    let ghost good = |e: WorkEntry| from_kept(e, paths@, keep@);
    let mut out: Vec<WorkEntry> = Vec::new();
    let mut i: usize = 0;
    proof {
        assert(keep@.take(0) =~= Seq::<bool>::empty());
        assert(paths@.take(0) =~= Seq::<String>::empty());
        assert(entry_pairs(out@) =~= kept_pairs(paths@.take(0), keep@.take(0)));
    }
    while i < paths.len()
        invariant
            0 <= i <= paths@.len(),
            paths@.len() == keep@.len(),
            sorted_by_name(out@),
            out@.len() == num_kept(keep@.take(i as int)),
            good == (|e: WorkEntry| from_kept(e, paths@, keep@)),
            forall|k: int| 0 <= k < out@.len() ==> good(#[trigger] out@[k]),
            entry_pairs(out@).to_multiset() == kept_pairs(
                paths@.take(i as int),
                keep@.take(i as int),
            ).to_multiset(),
        decreases paths@.len() - i,
    {
        proof {
            assert(keep@.take(i as int + 1).drop_last() =~= keep@.take(i as int));
            assert(keep@.take(i as int + 1).last() == keep@[i as int]);
            assert(paths@.take(i as int + 1).drop_last() =~= paths@.take(i as int));
            assert(paths@.take(i as int + 1).last() == paths@[i as int]);
        }
        if keep[i] {
            let name = base_name(paths[i].as_str());
            let entry = WorkEntry { name, path: paths[i].clone() };
            let ghost q = entry_pair(entry);
            proof {
                broadcast use vstd::seq_lib::group_to_multiset_ensures;

                assert(keep@[i as int] && entry_from(entry, paths@[i as int]@));
                assert(from_kept(entry, paths@, keep@));
                assert(kept_pairs(paths@.take(i as int + 1), keep@.take(i as int + 1))
                    =~= kept_pairs(paths@.take(i as int), keep@.take(i as int)).push(q));
            }
            insert_sorted(&mut out, entry, Ghost(good));
        } else {
            proof {
                assert(kept_pairs(paths@.take(i as int + 1), keep@.take(i as int + 1))
                    =~= kept_pairs(paths@.take(i as int), keep@.take(i as int)));
            }
        }
        i = i + 1;
    }
    proof {
        assert(keep@.take(i as int) =~= keep@);
        assert(paths@.take(i as int) =~= paths@);
        assert forall|k: int|
            0 <= k < out@.len() implies from_kept(#[trigger] out@[k], paths@, keep@) by {
            assert(good(out@[k]));
        }
    }
    out
}

/// The listing is exactly a keep-marking of the candidates: the multiset
/// of the entries' (name, path) pairs equals the kept candidates' pairs,
/// so each kept candidate is listed exactly once and nothing else is.
pub open spec fn marks_listing(out: Seq<WorkEntry>, children: Seq<String>, keep: Seq<bool>) -> bool {
    &&& keep.len() == children.len()
    &&& out.len() == num_kept(keep)
    &&& forall|k: int| 0 <= k < out.len() ==> from_kept(#[trigger] out[k], children, keep)
    &&& entry_pairs(out).to_multiset() == kept_pairs(children, keep).to_multiset()
}

/// From the immediate children of the workspace directory, the work
/// directories (those holding the marker subdirectory), named by their
/// base names and sorted by name. Which children qualify depends on the
/// filesystem at the time of the call, so the contract says only that
/// the result is some keep-marking's listing, sorted.
pub fn scan_workspace(children: &Vec<String>) -> (out: Vec<WorkEntry>)
    ensures
        sorted_by_name(out@),
        exists|keep: Seq<bool>| #[trigger] marks_listing(out@, children@, keep),
{
    let mut keep: Vec<bool> = Vec::new();
    let mut i: usize = 0;
    while i < children.len()
        invariant
            0 <= i <= children@.len(),
            keep@.len() == i,
        decreases children@.len() - i,
    {
        let c = children[i].as_str();
        let flag = path_is_dir(c) && is_littera_work(c);
        keep.push(flag);
        i = i + 1;
    }
    let out = work_entries(children, &keep);
    proof {
        assert forall|k: int|
            0 <= k < out@.len() implies from_kept(#[trigger] out@[k], children@, keep@) by {
            assert(0 <= k < out@.len());
        }
        assert(marks_listing(out@, children@, keep@));
    }
    out
}

} // verus!

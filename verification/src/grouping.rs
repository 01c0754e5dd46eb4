//! Grouping indexed files into duplicate groups, and the stable orders in which
//! groups are listed.
use vstd::prelude::*;
use crate::model::{DuplicateGroup, FileRecord, GroupRecord, IndexedFile, files_view, groups_view, opt_eq};
use crate::text::{chars_of, compare_chars, lemma_seq_lt_asymmetric, lemma_seq_lt_irreflexive, lemma_seq_lt_transitive, seq_lt};

verus! {

broadcast use vstd::seq_lib::group_to_multiset_ensures;

/// The order in which duplicate groups are listed.
#[derive(Debug, Clone, Copy, PartialEq, Eq, Structural)]
pub enum GroupOrder {
    /// Larger files first; groups of equal size keep their relative order.
    LargestFirst,
    /// Larger files first, then by the disk id of the first file, then by its path.
    LargestThenFirstFile,
}

/// Group `a` is listed strictly before group `b`.
pub open spec fn precedes(order: GroupOrder, a: GroupRecord, b: GroupRecord) -> bool {
    match order {
        GroupOrder::LargestFirst => a.size > b.size,
        GroupOrder::LargestThenFirstFile => {
            ||| a.size > b.size
            ||| a.size == b.size && seq_lt(a.files[0].disk_id, b.files[0].disk_id)
            ||| a.size == b.size && a.files[0].disk_id == b.files[0].disk_id && seq_lt(
                a.files[0].path,
                b.files[0].path,
            )
        },
    }
}

/// Where a stable insertion places `x` in the sorted sequence `s`: before the
/// first element that `x` strictly precedes.
pub open spec fn insert_pos(order: GroupOrder, s: Seq<GroupRecord>, x: GroupRecord) -> nat
    decreases s.len(),
{
    if s.len() == 0 {
        0
    } else if precedes(order, x, s[0]) {
        0
    } else {
        1 + insert_pos(order, s.drop_first(), x)
    }
}

/// The stable sort of `s` by `order`: each element in turn is inserted after every
/// earlier element that it does not strictly precede.
pub open spec fn sort_spec(order: GroupOrder, s: Seq<GroupRecord>) -> Seq<GroupRecord>
    decreases s.len(),
{
    if s.len() == 0 {
        s
    } else {
        let r = sort_spec(order, s.drop_last());
        r.insert(insert_pos(order, r, s.last()) as int, s.last())
    }
}

/// Every pair of positions in `s` respects `order`: no element strictly precedes
/// one that comes before it.
pub open spec fn sorted_by_order(order: GroupOrder, s: Seq<GroupRecord>) -> bool {
    forall|i: int, j: int| 0 <= i < j < s.len() ==> !precedes(order, #[trigger] s[j], #[trigger] s[i])
}

pub(crate) proof fn lemma_insert_pos_bound(order: GroupOrder, s: Seq<GroupRecord>, x: GroupRecord)
    ensures
        insert_pos(order, s, x) <= s.len(),
    decreases s.len(),
{
    if s.len() > 0 && !precedes(order, x, s[0]) {
        lemma_insert_pos_bound(order, s.drop_first(), x);
    }
}

proof fn lemma_insert_pos_at(order: GroupOrder, s: Seq<GroupRecord>, x: GroupRecord, j: int)
    requires
        0 <= j <= s.len(),
        forall|k: int| 0 <= k < j ==> !precedes(order, x, #[trigger] s[k]),
        j == s.len() || precedes(order, x, s[j]),
    ensures
        insert_pos(order, s, x) == j,
    decreases j,
{
    if j > 0 {
        assert(!precedes(order, x, s[0]));
        assert forall|k: int| 0 <= k < j - 1 implies !precedes(order, x, #[trigger] s.drop_first()[k]) by {
            assert(s.drop_first()[k] == s[k + 1]);
        }
        lemma_insert_pos_at(order, s.drop_first(), x, j - 1);
    }
}

proof fn lemma_insert_pos_props(order: GroupOrder, s: Seq<GroupRecord>, x: GroupRecord)
    ensures
        insert_pos(order, s, x) <= s.len(),
        forall|k: int| 0 <= k < insert_pos(order, s, x) ==> !precedes(order, x, #[trigger] s[k]),
        insert_pos(order, s, x) < s.len() ==> precedes(order, x, s[insert_pos(order, s, x) as int]),
    decreases s.len(),
{
    if s.len() > 0 && !precedes(order, x, s[0]) {
        lemma_insert_pos_props(order, s.drop_first(), x);
        assert forall|k: int| 0 <= k < insert_pos(order, s, x) implies !precedes(order, x, #[trigger] s[k]) by {
            if k > 0 {
                assert(s[k] == s.drop_first()[k - 1]);
            }
        }
    }
}

/// `precedes` is irreflexive.
pub proof fn lemma_precedes_irreflexive(order: GroupOrder, a: GroupRecord)
    ensures
        !precedes(order, a, a),
{
    lemma_seq_lt_irreflexive(a.files[0].disk_id);
    lemma_seq_lt_irreflexive(a.files[0].path);
}

/// `precedes` is transitive.
pub proof fn lemma_precedes_transitive(order: GroupOrder, a: GroupRecord, b: GroupRecord, c: GroupRecord)
    requires
        precedes(order, a, b),
        precedes(order, b, c),
    ensures
        precedes(order, a, c),
{
    if order == GroupOrder::LargestThenFirstFile && a.size == c.size {
        let (da, db, dc) = (a.files[0].disk_id, b.files[0].disk_id, c.files[0].disk_id);
        let (pa, pb, pc) = (a.files[0].path, b.files[0].path, c.files[0].path);
        if seq_lt(da, db) && seq_lt(db, dc) {
            lemma_seq_lt_transitive(da, db, dc);
        }
        if pa != pc && da == db && db == dc {
            if seq_lt(pa, pb) && seq_lt(pb, pc) {
                lemma_seq_lt_transitive(pa, pb, pc);
            }
        }
        if da == dc && seq_lt(da, db) && seq_lt(db, dc) {
            lemma_seq_lt_transitive(da, db, dc);
            lemma_seq_lt_irreflexive(da);
        }
        if pa == pc && da == db && db == dc && seq_lt(pa, pb) && seq_lt(pb, pc) {
            lemma_seq_lt_transitive(pa, pb, pc);
            lemma_seq_lt_irreflexive(pa);
        }
    }
}

/// A stable sort yields a sequence that respects the order.
pub proof fn lemma_sort_sorted(order: GroupOrder, s: Seq<GroupRecord>)
    ensures
        sorted_by_order(order, sort_spec(order, s)),
    decreases s.len(),
{
    if s.len() > 0 {
        let r = sort_spec(order, s.drop_last());
        let x = s.last();
        lemma_sort_sorted(order, s.drop_last());
        lemma_insert_pos_props(order, r, x);
        let p = insert_pos(order, r, x) as int;
        let t = r.insert(p, x);
        r.insert_ensures(p, x);
        assert forall|i: int, j: int| 0 <= i < j < t.len() implies !precedes(order, #[trigger] t[j], #[trigger] t[i]) by {
            if j < p {
                assert(t[i] == r[i] && t[j] == r[j]);
            } else if j == p {
                assert(t[i] == r[i]);
            } else if i == p {
                // t[j] == r[j - 1] comes after r[p], which x strictly precedes.
                assert(t[j] == r[j - 1]);
                assert(precedes(order, x, r[p]));
                if precedes(order, r[j - 1], x) {
                    lemma_precedes_transitive(order, r[j - 1], x, r[p]);
                    if j - 1 == p {
                        lemma_precedes_irreflexive(order, r[p]);
                    }
                }
            } else if i < p {
                assert(t[i] == r[i] && t[j] == r[j - 1]);
            } else {
                assert(t[i] == r[i - 1] && t[j] == r[j - 1]);
            }
        }
    }
}

/// A stable sort rearranges its input: the same elements, as often.
pub proof fn lemma_sort_permutes(order: GroupOrder, s: Seq<GroupRecord>)
    ensures
        sort_spec(order, s).to_multiset() == s.to_multiset(),
        sort_spec(order, s).len() == s.len(),
    decreases s.len(),
{
    if s.len() > 0 {
        let r = sort_spec(order, s.drop_last());
        lemma_sort_permutes(order, s.drop_last());
        lemma_insert_pos_bound(order, r, s.last());
        let p = insert_pos(order, r, s.last()) as int;
        vstd::seq_lib::to_multiset_insert(r, p, s.last());
        assert(s.drop_last().push(s.last()) =~= s);
        vstd::seq_lib::to_multiset_build(s.drop_last(), s.last());
    }
}

/// Whether group `a` is listed strictly before group `b`.
fn precedes_exec(order: GroupOrder, a: &DuplicateGroup, b: &DuplicateGroup) -> (r: bool)
    requires
        order == GroupOrder::LargestFirst || (a.files@.len() > 0 && b.files@.len() > 0),
    ensures
        r == precedes(order, a@, b@),
{
    match order {
        GroupOrder::LargestFirst => a.size > b.size,
        GroupOrder::LargestThenFirstFile => {
            if a.size != b.size {
                return a.size > b.size;
            }
            let fa = &a.files[0];
            let fb = &b.files[0];
            let da = chars_of(fa.disk_id.as_str());
            let db = chars_of(fb.disk_id.as_str());
            let c = compare_chars(&da, &db);
            if c != 0 {
                proof {
                    lemma_seq_lt_asymmetric(da@, db@);
                }
                return c == -1;
            }
            let pa = chars_of(fa.path.as_str());
            let pb = chars_of(fb.path.as_str());
            proof {
                lemma_seq_lt_irreflexive(da@);
            }
            compare_chars(&pa, &pb) == -1
        },
    }
}

/// Sorts groups stably by `order`.
pub fn sort_groups(groups: &Vec<DuplicateGroup>, order: GroupOrder) -> (r: Vec<DuplicateGroup>)
    requires
        order == GroupOrder::LargestFirst || forall|k: int|
            0 <= k < groups@.len() ==> (#[trigger] groups@[k]).files@.len() > 0,
    ensures
        groups_view(r@) == sort_spec(order, groups_view(groups@)),
{
    let ghost input = groups_view(groups@);
    let mut out: Vec<DuplicateGroup> = Vec::new();
    let n = groups.len();
    for i in 0..n
        invariant
            n == groups@.len(),
            input == groups_view(groups@),
            groups_view(out@) == sort_spec(order, input.take(i as int)),
            order == GroupOrder::LargestFirst || forall|k: int|
                0 <= k < groups@.len() ==> (#[trigger] groups@[k]).files@.len() > 0,
            order == GroupOrder::LargestFirst || forall|k: int|
                0 <= k < out@.len() ==> (#[trigger] out@[k]).files@.len() > 0,
    {
        let g = groups[i].copy();
        assert(g.files@.len() == g@.files.len());
        assert(groups@[i as int].files@.len() == groups@[i as int]@.files.len());
        let ghost before = groups_view(out@);
        let mut j: usize = 0;
        while j < out.len() && !precedes_exec(order, &g, &out[j])
            invariant
                j <= out@.len(),
                before == groups_view(out@),
                g@ == groups@[i as int]@,
                order == GroupOrder::LargestFirst || g.files@.len() > 0,
                order == GroupOrder::LargestFirst || forall|k: int|
                    0 <= k < out@.len() ==> (#[trigger] out@[k]).files@.len() > 0,
                forall|k: int| 0 <= k < j ==> !precedes(order, g@, #[trigger] before[k]),
            decreases out@.len() - j,
        {
            j = j + 1;
        }
        proof {
            lemma_insert_pos_at(order, before, g@, j as int);
            assert(input.take(i + 1).drop_last() =~= input.take(i as int));
            assert(input.take(i + 1).last() == g@);
        }
        out.insert(j, g);
        assert(groups_view(out@) =~= before.insert(j as int, g@));
    }
    assert(input.take(n as int) =~= input);
    out
}

// ---------------------------------------------------------------------------
// Grouping rows by size and sample hash
// ---------------------------------------------------------------------------

/// File `r` belongs to group `g`: same size and same sample hash as its first file.
pub open spec fn key_matches(g: GroupRecord, r: FileRecord) -> bool {
    g.files.len() > 0 && g.size == r.size && g.files[0].sample_hash == r.sample_hash
}

/// Adds one row: to the group with its key, or to a new group at the end.
pub open spec fn add_row(groups: Seq<GroupRecord>, r: FileRecord) -> Seq<GroupRecord> {
    if exists|i: int| 0 <= i < groups.len() && key_matches(#[trigger] groups[i], r) {
        let i = choose|i: int| 0 <= i < groups.len() && key_matches(#[trigger] groups[i], r);
        groups.update(i, GroupRecord { size: groups[i].size, files: groups[i].files.push(r) })
    } else {
        groups.push(GroupRecord { size: r.size, files: seq![r] })
    }
}

/// The groups of rows with equal size and sample hash, in the order in which each
/// key first appears; within a group the rows keep their order.
pub open spec fn collect_groups(rows: Seq<FileRecord>) -> Seq<GroupRecord>
    decreases rows.len(),
{
    if rows.len() == 0 {
        Seq::empty()
    } else {
        add_row(collect_groups(rows.drop_last()), rows.last())
    }
}

/// The groups are non-empty, each holds files of one key, and no two share a key.
pub open spec fn groups_well_formed(gs: Seq<GroupRecord>) -> bool {
    &&& forall|i: int| 0 <= i < gs.len() ==> (#[trigger] gs[i]).files.len() > 0
    &&& forall|i: int, k: int|
        0 <= i < gs.len() && 0 <= k < gs[i].files.len() ==> (#[trigger] gs[i].files[k]).size
            == gs[i].size && gs[i].files[k].sample_hash == gs[i].files[0].sample_hash
    &&& forall|i: int, j: int|
        0 <= i < gs.len() && 0 <= j < gs.len() && i != j ==> !key_matches(
            #[trigger] gs[i],
            (#[trigger] gs[j]).files[0],
        )
}

/// A group with more than one file.
pub open spec fn copies_pred() -> spec_fn(GroupRecord) -> bool {
    |g: GroupRecord| g.files.len() > 1
}

/// The duplicate groups of the index rows: the groups of more than one file,
/// larger files first, then by the disk id and path of their first file.
pub open spec fn duplicate_listing(rows: Seq<FileRecord>) -> Seq<GroupRecord> {
    sort_spec(GroupOrder::LargestThenFirstFile, collect_groups(rows).filter(copies_pred()))
}

proof fn lemma_add_row_well_formed(gs: Seq<GroupRecord>, r: FileRecord)
    requires
        groups_well_formed(gs),
    ensures
        groups_well_formed(add_row(gs, r)),
{
    let n = add_row(gs, r);
    if exists|i: int| 0 <= i < gs.len() && key_matches(#[trigger] gs[i], r) {
        let c = choose|i: int| 0 <= i < gs.len() && key_matches(#[trigger] gs[i], r);
        assert forall|i: int, k: int|
            0 <= i < n.len() && 0 <= k < n[i].files.len() implies (#[trigger] n[i].files[k]).size
            == n[i].size && n[i].files[k].sample_hash == n[i].files[0].sample_hash by {
            if i == c && k < gs[c].files.len() {
                assert(n[i].files[k] == gs[c].files[k]);
            }
        }
        assert forall|i: int, j: int|
            0 <= i < n.len() && 0 <= j < n.len() && i != j implies !key_matches(
            #[trigger] n[i],
            (#[trigger] n[j]).files[0],
        ) by {
            assert(n[i].files[0] == gs[i].files[0]);
            assert(n[j].files[0] == gs[j].files[0]);
            assert(!key_matches(gs[i], gs[j].files[0]));
        }
    } else {
        assert forall|i: int, j: int|
            0 <= i < n.len() && 0 <= j < n.len() && i != j implies !key_matches(
            #[trigger] n[i],
            (#[trigger] n[j]).files[0],
        ) by {
            if i < gs.len() && j < gs.len() {
                assert(!key_matches(gs[i], gs[j].files[0]));
            } else if i < gs.len() {
                assert(!key_matches(gs[i], r));
            } else {
                assert(gs[j].files[0].size == gs[j].size);
                if key_matches(n[i], n[j].files[0]) {
                    assert(key_matches(gs[j], r));
                }
            }
        }
    }
}

/// The grouping of any rows is well formed.
pub proof fn lemma_collect_groups_well_formed(rows: Seq<FileRecord>)
    ensures
        groups_well_formed(collect_groups(rows)),
    decreases rows.len(),
{
    if rows.len() > 0 {
        lemma_collect_groups_well_formed(rows.drop_last());
        lemma_add_row_well_formed(collect_groups(rows.drop_last()), rows.last());
    }
}

/// Whether file `r` belongs to group `g`.
fn key_matches_exec(g: &DuplicateGroup, r: &IndexedFile) -> (b: bool)
    ensures
        b == key_matches(g@, r@),
{
    if g.files.len() == 0 || g.size != r.size {
        return false;
    }
    opt_eq(&g.files[0].sample_hash, &r.sample_hash)
}

/// Groups index rows by size and sample hash, keeps the groups of more than one
/// file, and lists them larger files first, then by the disk id and path of their
/// first file.
pub fn group_duplicates(rows: &Vec<IndexedFile>) -> (r: Vec<DuplicateGroup>)
    ensures
        groups_view(r@) == duplicate_listing(files_view(rows@)),
{
    let ghost rv = files_view(rows@);
    let mut groups: Vec<DuplicateGroup> = Vec::new();
    let n = rows.len();
    for i in 0..n
        invariant
            n == rows@.len(),
            rv == files_view(rows@),
            groups_view(groups@) == collect_groups(rv.take(i as int)),
            groups_well_formed(groups_view(groups@)),
    {
        let row = rows[i].copy();
        let ghost gv = groups_view(groups@);
        let mut j: usize = 0;
        while j < groups.len() && !key_matches_exec(&groups[j], &row)
            invariant
                j <= groups@.len(),
                gv == groups_view(groups@),
                forall|k: int| 0 <= k < j ==> !key_matches(#[trigger] gv[k], row@),
            decreases groups@.len() - j,
        {
            j = j + 1;
        }
        proof {
            assert(rv.take(i + 1).drop_last() =~= rv.take(i as int));
            assert(rv.take(i + 1).last() == row@);
            lemma_add_row_well_formed(gv, row@);
        }
        if j < groups.len() {
            proof {
                let c = choose|c: int| 0 <= c < gv.len() && key_matches(#[trigger] gv[c], row@);
                if c != j {
                    assert(gv[j as int].files[0].size == gv[j as int].size);
                    assert(key_matches(gv[c], gv[j as int].files[0]));
                }
            }
            let mut g = groups.remove(j);
            g.files.push(row);
            groups.insert(j, g);
            assert(files_view(groups@[j as int].files@) =~= gv[j as int].files.push(row@));
            assert(groups_view(groups@) =~= add_row(gv, row@));
        } else {
            let mut files: Vec<IndexedFile> = Vec::new();
            let size = row.size;
            files.push(row);
            groups.push(DuplicateGroup { size, files });
            assert(files_view(groups@[j as int].files@) =~= seq![row@]);
            assert(groups_view(groups@) =~= add_row(gv, row@));
        }
    }
    assert(rv.take(n as int) =~= rv);
    let ghost all = groups_view(groups@);
    let mut dups: Vec<DuplicateGroup> = Vec::new();
    let m = groups.len();
    for k in 0..m
        invariant
            m == groups@.len(),
            all == groups_view(groups@),
            groups_view(dups@) == all.take(k as int).filter(copies_pred()),
            forall|q: int| 0 <= q < dups@.len() ==> (#[trigger] dups@[q]).files@.len() > 1,
    {
        assert(all.take(k + 1) =~= all.take(k as int).push(all[k as int]));
        proof { all.take(k as int).lemma_filter_push(all[k as int], copies_pred()); }
        if groups[k].files.len() > 1 {
            dups.push(groups[k].copy());
            assert(groups_view(dups@) =~= groups_view(dups@).drop_last().push(all[k as int]));
        }
        assert(groups_view(dups@) =~= all.take(k + 1).filter(copies_pred()));
    }
    assert(all.take(m as int) =~= all);
    sort_groups(&dups, GroupOrder::LargestThenFirstFile)
}

// ---------------------------------------------------------------------------
// Laws of the duplicate listing
// ---------------------------------------------------------------------------

/// Every listed group holds at least two files, all of the group's size and with
/// the same sample hash.
pub proof fn lemma_listing_groups_are_duplicates(rows: Seq<FileRecord>, i: int)
    requires
        0 <= i < duplicate_listing(rows).len(),
    ensures
        duplicate_listing(rows)[i].files.len() >= 2,
        forall|k: int|
            0 <= k < duplicate_listing(rows)[i].files.len() ==> (#[trigger] duplicate_listing(
                rows,
            )[i].files[k]).size == duplicate_listing(rows)[i].size && duplicate_listing(
                rows,
            )[i].files[k].sample_hash == duplicate_listing(rows)[i].files[0].sample_hash,
{
    let all = collect_groups(rows);
    let kept = all.filter(copies_pred());
    let listed = duplicate_listing(rows);
    lemma_collect_groups_well_formed(rows);
    lemma_sort_permutes(GroupOrder::LargestThenFirstFile, kept);
    let g = listed[i];
    assert(listed.to_multiset().count(g) > 0);
    assert(kept.contains(g));
    let j = choose|j: int| 0 <= j < kept.len() && kept[j] == g;
    all.lemma_filter_pred(copies_pred(), j);
    all.lemma_filter_contains_rev(copies_pred(), g);
    let a = choose|a: int| 0 <= a < all.len() && all[a] == g;
    assert forall|k: int| 0 <= k < g.files.len() implies (#[trigger] g.files[k]).size == g.size
        && g.files[k].sample_hash == g.files[0].sample_hash by {
        assert(all[a].files[k] == g.files[k]);
    }
}

/// The listing respects its order: larger sizes first, then the first file's
/// disk id and path.
pub proof fn lemma_listing_sorted(rows: Seq<FileRecord>)
    ensures
        sorted_by_order(GroupOrder::LargestThenFirstFile, duplicate_listing(rows)),
{
    lemma_sort_sorted(
        GroupOrder::LargestThenFirstFile,
        collect_groups(rows).filter(copies_pred()),
    );
}

/// Rows with the same size and sample hash as row `r`.
pub open spec fn same_key(r: FileRecord) -> spec_fn(FileRecord) -> bool {
    |x: FileRecord| x.size == r.size && x.sample_hash == r.sample_hash
}

/// Each group holds exactly the rows of its key, in their order, and every row
/// has a group.
pub open spec fn groups_cover(rows: Seq<FileRecord>, gs: Seq<GroupRecord>) -> bool {
    &&& forall|a: int| 0 <= a < gs.len() ==> (#[trigger] gs[a]).files == rows.filter(same_key(gs[a].files[0]))
    &&& forall|i: int| 0 <= i < rows.len() ==> exists|a: int| 0 <= a < gs.len() && key_matches(#[trigger] gs[a], #[trigger] rows[i])
}

proof fn lemma_collect_groups_cover(rows: Seq<FileRecord>)
    ensures
        groups_cover(rows, collect_groups(rows)),
    decreases rows.len(),
{
    if rows.len() > 0 {
        let prev = rows.drop_last();
        let x = rows.last();
        let gs = collect_groups(prev);
        let n = add_row(gs, x);
        lemma_collect_groups_cover(prev);
        lemma_collect_groups_well_formed(prev);
        assert(prev.push(x) =~= rows);
        assert forall|a: int| 0 <= a < n.len() implies (#[trigger] n[a]).files == rows.filter(same_key(n[a].files[0])) by {
            prev.lemma_filter_push(x, same_key(n[a].files[0]));
            if exists|c: int| 0 <= c < gs.len() && key_matches(#[trigger] gs[c], x) {
                let c = choose|c: int| 0 <= c < gs.len() && key_matches(#[trigger] gs[c], x);
                assert(gs[c].files[0].size == gs[c].size);
                if a != c {
                    assert(n[a] == gs[a]);
                    if same_key(gs[a].files[0])(x) {
                        assert(gs[a].files[0].size == gs[a].size);
                        assert(key_matches(gs[a], gs[c].files[0]));
                    }
                }
            } else {
                if a < gs.len() {
                    assert(n[a] == gs[a]);
                    assert(gs[a].files[0].size == gs[a].size);
                    assert(!key_matches(gs[a], x));
                } else {
                    assert(n[a].files =~= seq![x]);
                    assert(prev.filter(same_key(x)) =~= Seq::<FileRecord>::empty()) by {
                        if prev.filter(same_key(x)).len() > 0 {
                            prev.lemma_filter_pred(same_key(x), 0);
                            let y = prev.filter(same_key(x))[0];
                            assert(prev.filter(same_key(x)).contains(y));
                            prev.lemma_filter_contains_rev(same_key(x), y);
                            let i = choose|i: int| 0 <= i < prev.len() && prev[i] == y;
                            let b = choose|b: int| 0 <= b < gs.len() && key_matches(#[trigger] gs[b], #[trigger] prev[i]);
                            assert(key_matches(gs[b], x));
                        }
                    }
                }
            }
        }
        assert forall|i: int| 0 <= i < rows.len() implies exists|a: int| 0 <= a < n.len() && key_matches(#[trigger] n[a], #[trigger] rows[i]) by {
            if i < prev.len() {
                assert(rows[i] == prev[i]);
                let b = choose|b: int| 0 <= b < gs.len() && key_matches(#[trigger] gs[b], #[trigger] prev[i]);
                assert(n[b].files[0] == gs[b].files[0] && n[b].size == gs[b].size);
                assert(key_matches(n[b], rows[i]));
            } else if exists|c: int| 0 <= c < gs.len() && key_matches(#[trigger] gs[c], x) {
                let c = choose|c: int| 0 <= c < gs.len() && key_matches(#[trigger] gs[c], x);
                assert(n[c].files[0] == gs[c].files[0]);
                assert(key_matches(n[c], rows[i]));
            } else {
                assert(key_matches(n[gs.len() as int], rows[i]));
            }
        }
    }
}

proof fn lemma_filter_two(s: Seq<FileRecord>, p: spec_fn(FileRecord) -> bool, i: int, j: int)
    requires
        0 <= i < j < s.len(),
        p(s[i]),
        p(s[j]),
    ensures
        s.filter(p).len() >= 2,
        s.filter(p).contains(s[i]),
    decreases s.len(),
{
    let prev = s.drop_last();
    assert(prev.push(s.last()) =~= s);
    prev.lemma_filter_push(s.last(), p);
    if j < s.len() - 1 {
        assert(prev[i] == s[i] && prev[j] == s[j]);
        lemma_filter_two(prev, p, i, j);
    } else {
        assert(prev[i] == s[i]);
        prev.lemma_filter_contains(p, i);
    }
}

/// No duplicate is missed: a row that shares its size and sample hash with another
/// row appears in a listed group, and that group holds exactly the rows of that
/// key, in their order.
pub proof fn lemma_listing_finds_every_duplicate(rows: Seq<FileRecord>, i: int, j: int)
    requires
        0 <= i < rows.len(),
        0 <= j < rows.len(),
        i != j,
        rows[i].size == rows[j].size,
        rows[i].sample_hash == rows[j].sample_hash,
    ensures
        exists|g: int| 0 <= g < duplicate_listing(rows).len()
            && (#[trigger] duplicate_listing(rows)[g]).files == rows.filter(same_key(rows[i]))
            && duplicate_listing(rows)[g].files.contains(rows[i]),
{
    let gs = collect_groups(rows);
    lemma_collect_groups_cover(rows);
    lemma_collect_groups_well_formed(rows);
    let a = choose|a: int| 0 <= a < gs.len() && key_matches(#[trigger] gs[a], #[trigger] rows[i]);
    let f0 = gs[a].files[0];
    assert(f0.size == gs[a].size);
    assert(same_key(f0) =~= same_key(rows[i]));
    if i < j {
        lemma_filter_two(rows, same_key(rows[i]), i, j);
    } else {
        lemma_filter_two(rows, same_key(rows[i]), j, i);
        rows.lemma_filter_contains(same_key(rows[i]), i);
    }
    let g = gs[a];
    assert(copies_pred()(g));
    gs.lemma_filter_contains(copies_pred(), a);
    let kept = gs.filter(copies_pred());
    lemma_sort_permutes(GroupOrder::LargestThenFirstFile, kept);
    let listed = duplicate_listing(rows);
    assert(kept.to_multiset().count(g) > 0);
    assert(listed.to_multiset().count(g) > 0);
    assert(listed.contains(g));
    let k = choose|k: int| 0 <= k < listed.len() && listed[k] == g;
    assert(listed[k].files == rows.filter(same_key(rows[i])));
}

} // verus!

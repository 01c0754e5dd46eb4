//! The duplicate groups on screen: which of them pass the size filter, which
//! copies are ticked for deletion, and the totals shown beside them.
use vstd::prelude::*;
use crate::keys::{file_key, file_key_spec, group_key, group_key_spec};
use crate::model::{DuplicateGroup, FileRecord, GroupRecord, IndexedFile, files_view, groups_view};
use crate::report::{removable, removable_fn, saving, saving_fn, sum_of};
use crate::selection::Selection;

verus! {

/// The number of files of a group.
pub open spec fn count_fn() -> spec_fn(GroupRecord) -> nat {
    |g: GroupRecord| g.files.len()
}

/// Groups of files of at least `min` bytes.
pub open spec fn at_least(min: u64) -> spec_fn(GroupRecord) -> bool {
    |g: GroupRecord| g.size >= min
}

/// The groups that pass the size filter.
pub open spec fn visible_of(groups: Seq<GroupRecord>, min: u64) -> Seq<GroupRecord> {
    groups.filter(at_least(min))
}

/// The totals over some groups fit the machine integers that hold them.
pub open spec fn totals_fit(gs: Seq<GroupRecord>) -> bool {
    &&& sum_of(gs, saving_fn()) <= u64::MAX
    &&& sum_of(gs, count_fn()) <= usize::MAX
}

/// The mathematical value of the results on screen.
pub struct ResultsModel {
    pub groups: Seq<GroupRecord>,
    pub selected: Map<Seq<char>, bool>,
    pub min_size: u64,
    pub total_candidates: nat,
    pub total_duplicates: nat,
    pub potential_savings: nat,
}

impl ResultsModel {
    /// The groups that pass the size filter.
    pub open spec fn visible(self) -> Seq<GroupRecord> {
        visible_of(self.groups, self.min_size)
    }

    /// The totals are those of the visible groups: all their files, the copies
    /// beyond the first of each, and the space those copies take.
    pub open spec fn statistics_match(self) -> bool {
        &&& self.total_candidates == sum_of(self.visible(), count_fn())
        &&& self.total_duplicates == sum_of(self.visible(), removable_fn())
        &&& self.potential_savings == sum_of(self.visible(), saving_fn())
    }
}

/// The duplicate groups on screen with their selection, filter and totals.
pub struct DuplicateResults {
    groups: Vec<DuplicateGroup>,
    selected: Selection,
    min_size: u64,
    total_candidates: usize,
    total_duplicates: usize,
    potential_savings: u64,
}

impl View for DuplicateResults {
    type V = ResultsModel;

    closed spec fn view(&self) -> ResultsModel {
        ResultsModel {
            groups: groups_view(self.groups@),
            selected: self.selected@,
            min_size: self.min_size,
            total_candidates: self.total_candidates as nat,
            total_duplicates: self.total_duplicates as nat,
            potential_savings: self.potential_savings as nat,
        }
    }
}

// ---------------------------------------------------------------------------
// Sums over filtered groups
// ---------------------------------------------------------------------------

proof fn lemma_sum_filter_prefix(s: Seq<GroupRecord>, p: spec_fn(GroupRecord) -> bool, i: int, f: spec_fn(GroupRecord) -> nat)
    requires
        0 <= i <= s.len(),
    ensures
        sum_of(s.take(i).filter(p), f) <= sum_of(s.filter(p), f),
    decreases s.len() - i,
{
    if i < s.len() {
        lemma_sum_filter_prefix(s, p, i + 1, f);
        assert(s.take(i + 1) =~= s.take(i).push(s[i]));
        s.take(i).lemma_filter_push(s[i], p);
        assert(s.take(i).filter(p).push(s[i]).drop_last() =~= s.take(i).filter(p));
    } else {
        assert(s.take(i) =~= s);
    }
}

proof fn lemma_sum_pointwise(s: Seq<GroupRecord>, f: spec_fn(GroupRecord) -> nat, h: spec_fn(GroupRecord) -> nat)
    requires
        forall|g: GroupRecord| #[trigger] f(g) <= h(g),
    ensures
        sum_of(s, f) <= sum_of(s, h),
    decreases s.len(),
{
    if s.len() > 0 {
        lemma_sum_pointwise(s.drop_last(), f, h);
    }
}

proof fn lemma_removable_le_count()
    ensures
        forall|g: GroupRecord| #[trigger] removable_fn()(g) <= count_fn()(g),
{
}

/// Totals of the visible groups.
fn compute_statistics(groups: &Vec<DuplicateGroup>, min: u64) -> (r: (usize, usize, u64))
    requires
        totals_fit(visible_of(groups_view(groups@), min)),
    ensures
        r.0 == sum_of(visible_of(groups_view(groups@), min), count_fn()),
        r.1 == sum_of(visible_of(groups_view(groups@), min), removable_fn()),
        r.2 == sum_of(visible_of(groups_view(groups@), min), saving_fn()),
{
    let ghost gv = groups_view(groups@);
    let ghost p = at_least(min);
    let mut candidates: usize = 0;
    let mut duplicates: usize = 0;
    let mut savings: u64 = 0;
    proof {
        lemma_removable_le_count();
        lemma_sum_pointwise(visible_of(gv, min), removable_fn(), count_fn());
    }
    let n = groups.len();
    for i in 0..n
        invariant
            n == groups@.len(),
            gv == groups_view(groups@),
            p == at_least(min),
            totals_fit(gv.filter(p)),
            sum_of(gv.filter(p), removable_fn()) <= sum_of(gv.filter(p), count_fn()),
            candidates == sum_of(gv.take(i as int).filter(p), count_fn()),
            duplicates == sum_of(gv.take(i as int).filter(p), removable_fn()),
            savings == sum_of(gv.take(i as int).filter(p), saving_fn()),
    {
        let g = &groups[i];
        let ghost x = gv[i as int];
        assert(x == g@);
        assert(gv.take(i + 1) =~= gv.take(i as int).push(x));
        proof {
            gv.take(i as int).lemma_filter_push(x, p);
            lemma_sum_filter_prefix(gv, p, i + 1, count_fn());
            lemma_sum_filter_prefix(gv, p, i + 1, removable_fn());
            lemma_sum_filter_prefix(gv, p, i + 1, saving_fn());
            assert(gv.take(i as int).filter(p).push(x).drop_last() =~= gv.take(i as int).filter(p));
        }
        if g.size >= min {
            let len = g.files.len();
            assert(x.files.len() == len);
            let extra: usize = if len >= 1 { len - 1 } else { 0 };
            assert(removable(x) == extra);
            let saved = g.size * (extra as u64);
            candidates = candidates + len;
            duplicates = duplicates + extra;
            savings = savings + saved;
        }
    }
    assert(gv.take(n as int) =~= gv);
    (candidates, duplicates, savings)
}

impl DuplicateResults {
    /// The results are well formed: the selection keeps each key once, the totals
    /// of the visible groups fit, and the totals shown are theirs.
    pub closed spec fn wf(&self) -> bool {
        &&& self.selected.wf()
        &&& totals_fit(self@.visible())
        &&& self@.statistics_match()
    }

    /// No groups, nothing selected, no size filter.
    pub fn new() -> (r: DuplicateResults)
        ensures
            r.wf(),
            r@.groups == Seq::<GroupRecord>::empty(),
            r@.selected == Map::<Seq<char>, bool>::empty(),
            r@.min_size == 0,
            r@.statistics_match(),
    {
        let r = DuplicateResults {
            groups: Vec::new(),
            selected: Selection::new(),
            min_size: 0,
            total_candidates: 0,
            total_duplicates: 0,
            potential_savings: 0,
        };
        assert(groups_view(r.groups@) =~= Seq::<GroupRecord>::empty());
        assert(r@.visible() =~= Seq::<GroupRecord>::empty());
        r
    }

    /// Shows newly found groups: the selection is cleared and the totals are
    /// computed for the groups that pass the current filter.
    pub fn set_groups(&mut self, groups: Vec<DuplicateGroup>)
        requires
            totals_fit(visible_of(groups_view(groups@), old(self)@.min_size)),
        ensures
            final(self).wf(),
            final(self)@.groups == groups_view(groups@),
            final(self)@.selected == Map::<Seq<char>, bool>::empty(),
            final(self)@.min_size == old(self)@.min_size,
            final(self)@.statistics_match(),
    {
        let (c, d, s) = compute_statistics(&groups, self.min_size);
        let mut sel = Selection::new();
        *self = DuplicateResults {
            groups,
            selected: sel,
            min_size: self.min_size,
            total_candidates: c,
            total_duplicates: d,
            potential_savings: s,
        };
    }

    /// Changes the size filter, keeps only the ticks of files that remain visible,
    /// and recomputes the totals.
    pub fn set_min_size(&mut self, min_size: u64)
        requires
            old(self).wf(),
            totals_fit(visible_of(old(self)@.groups, min_size)),
        ensures
            final(self).wf(),
            final(self)@.groups == old(self)@.groups,
            final(self)@.min_size == min_size,
            final(self)@.selected == old(self)@.selected.restrict(visible_file_keys(final(self)@.visible())),
            final(self)@.statistics_match(),
    {
        self.min_size = min_size;
        self.restrict_to_visible();
    }

    /// Keeps only the ticks of files in visible groups and recomputes the totals.
    pub fn apply_duplicate_size_filter(&mut self)
        requires
            old(self).wf(),
        ensures
            final(self).wf(),
            final(self)@.groups == old(self)@.groups,
            final(self)@.min_size == old(self)@.min_size,
            final(self)@.selected == old(self)@.selected.restrict(visible_file_keys(old(self)@.visible())),
            final(self)@.statistics_match(),
    {
        self.restrict_to_visible();
    }

    fn restrict_to_visible(&mut self)
        requires
            old(self).selected.wf(),
            totals_fit(old(self)@.visible()),
        ensures
            final(self).wf(),
            final(self)@.groups == old(self)@.groups,
            final(self)@.min_size == old(self)@.min_size,
            final(self)@.selected == old(self)@.selected.restrict(visible_file_keys(old(self)@.visible())),
            final(self)@.statistics_match(),
    {
        let visible = self.visible_duplicate_groups();
        let keys = keys_of_files(&visible);
        self.selected.retain_keys(&keys);
        assert(Set::new(|k: Seq<char>| exists|j: int| 0 <= j < keys@.len() && (#[trigger] keys@[j])@ == k)
            =~= visible_file_keys(old(self)@.visible())) by {
            assert forall|k: Seq<char>| Set::new(|k: Seq<char>| exists|j: int| 0 <= j < keys@.len() && (#[trigger] keys@[j])@ == k).contains(k)
                == visible_file_keys(old(self)@.visible()).contains(k) by {
                assert(listed(keys@, k) == visible_file_keys(old(self)@.visible()).contains(k));
            }
        }
        let (c, d, s) = compute_statistics(&self.groups, self.min_size);
        self.total_candidates = c;
        self.total_duplicates = d;
        self.potential_savings = s;
    }

    /// The groups.
    pub fn groups(&self) -> (r: &Vec<DuplicateGroup>)
        ensures
            groups_view(r@) == self@.groups,
    {
        &self.groups
    }

    /// The size filter, in bytes.
    pub fn min_size(&self) -> (r: u64)
        ensures
            r == self@.min_size,
    {
        self.min_size
    }

    /// The number of files in the visible groups.
    pub fn total_candidates(&self) -> (r: usize)
        ensures
            r == self@.total_candidates,
    {
        self.total_candidates
    }

    /// The number of copies beyond the first in the visible groups.
    pub fn total_duplicates(&self) -> (r: usize)
        ensures
            r == self@.total_duplicates,
    {
        self.total_duplicates
    }

    /// The space that the copies beyond the first of the visible groups take.
    pub fn potential_savings(&self) -> (r: u64)
        ensures
            r == self@.potential_savings,
    {
        self.potential_savings
    }

    /// Whether a group passes the size filter.
    pub fn group_passes_duplicate_size_filter(&self, group: &DuplicateGroup) -> (r: bool)
        ensures
            r == (group.size >= self@.min_size),
    {
        group.size >= self.min_size
    }

    /// Recomputes the totals for the visible groups.
    pub fn calculate_statistics(&mut self)
        requires
            old(self).wf(),
        ensures
            final(self).wf(),
            final(self)@ == old(self)@,
    {
        let (c, d, s) = compute_statistics(&self.groups, self.min_size);
        self.total_candidates = c;
        self.total_duplicates = d;
        self.potential_savings = s;
    }

    /// Copies of the groups that pass the size filter, in order.
    pub fn visible_duplicate_groups(&self) -> (r: Vec<DuplicateGroup>)
        ensures
            groups_view(r@) == self@.visible(),
    {
        let ghost gv = groups_view(self.groups@);
        let ghost p = at_least(self.min_size);
        let mut out: Vec<DuplicateGroup> = Vec::new();
        let n = self.groups.len();
        for i in 0..n
            invariant
                n == self.groups@.len(),
                gv == groups_view(self.groups@),
                p == at_least(self.min_size),
                groups_view(out@) == gv.take(i as int).filter(p),
        {
            let ghost before = groups_view(out@);
            assert(gv.take(i + 1) =~= gv.take(i as int).push(gv[i as int]));
            proof {
                gv.take(i as int).lemma_filter_push(gv[i as int], p);
            }
            if self.groups[i].size >= self.min_size {
                out.push(self.groups[i].copy());
                assert(groups_view(out@) =~= before.push(gv[i as int]));
            }
        }
        assert(gv.take(n as int) =~= gv);
        out
    }

    /// Whether the file with key `key` is ticked.
    pub fn is_selected(&self, key: &str) -> (r: bool)
        requires
            self.wf(),
        ensures
            r == (self@.selected.contains_key(key@) && self@.selected[key@]),
    {
        self.selected.is_selected(key)
    }

    /// Whether a checkbox state is recorded for the file with key `key`.
    pub fn contains_key(&self, key: &str) -> (r: bool)
        requires
            self.wf(),
        ensures
            r == self@.selected.contains_key(key@),
    {
        self.selected.contains_key(key)
    }

    /// Records a checkbox change.
    pub fn set_selected(&mut self, key: String, selected: bool)
        requires
            old(self).wf(),
        ensures
            final(self).wf(),
            final(self)@ == (ResultsModel { selected: old(self)@.selected.insert(key@, selected), ..old(self)@ }),
    {
        self.selected.insert(key, selected);
    }

    /// Clears every tick.
    pub fn clear_selection(&mut self)
        requires
            old(self).wf(),
        ensures
            final(self).wf(),
            final(self)@ == (ResultsModel { selected: Map::<Seq<char>, bool>::empty(), ..old(self)@ }),
    {
        self.selected.clear();
    }

    /// The number of ticked files.
    pub fn selected_count(&self) -> (r: usize)
        requires
            self.wf(),
        ensures
            r == self@.selected.dom().filter(|k: Seq<char>| self@.selected[k]).len(),
    {
        self.selected.selected_count()
    }
}

/// Key `k` is the text of one of the strings.
pub open spec fn listed(keys: Seq<String>, k: Seq<char>) -> bool {
    exists|j: int| 0 <= j < keys.len() && (#[trigger] keys[j])@ == k
}

/// Key `k` belongs to a file of one of the first `gi` groups.
pub open spec fn in_first_groups(gv: Seq<GroupRecord>, gi: int, k: Seq<char>) -> bool {
    exists|a: int, b: int| 0 <= a < gi && 0 <= b < gv[a].files.len() && file_key_spec(#[trigger] gv[a].files[b]) == k
}

/// Key `k` belongs to one of the first `fi` files of group `g`.
pub open spec fn in_first_files(g: GroupRecord, fi: int, k: Seq<char>) -> bool {
    exists|b: int| 0 <= b < fi && file_key_spec(#[trigger] g.files[b]) == k
}

/// The keys of all files of the groups, group after group.
fn keys_of_files(gs: &Vec<DuplicateGroup>) -> (r: Vec<String>)
    ensures
        forall|k: Seq<char>| #[trigger] listed(r@, k) == visible_file_keys(groups_view(gs@)).contains(k),
{
    let ghost gv = groups_view(gs@);
    let mut keys: Vec<String> = Vec::new();
    let n = gs.len();
    for gi in 0..n
        invariant
            n == gs@.len(),
            gv == groups_view(gs@),
            forall|k: Seq<char>| #[trigger] listed(keys@, k) == in_first_groups(gv, gi as int, k),
    {
        let m = gs[gi].files.len();
        assert(gv[gi as int].files.len() == m);
        for fi in 0..m
            invariant
                n == gs@.len(),
                gi < n,
                gv == groups_view(gs@),
                m == gs@[gi as int].files@.len(),
                m == gv[gi as int].files.len(),
                forall|k: Seq<char>| #[trigger] listed(keys@, k) == (in_first_groups(gv, gi as int, k)
                    || in_first_files(gv[gi as int], fi as int, k)),
        {
            let key = file_key(&gs[gi].files[fi]);
            let ghost before = keys@;
            keys.push(key);
            assert(gv[gi as int].files[fi as int] == gs@[gi as int].files@[fi as int]@);
            assert forall|k: Seq<char>| #[trigger] listed(keys@, k) == (in_first_groups(gv, gi as int, k)
                || in_first_files(gv[gi as int], fi + 1, k)) by {
                if listed(keys@, k) {
                    let j = choose|j: int| 0 <= j < keys@.len() && (#[trigger] keys@[j])@ == k;
                    if j < before.len() {
                        assert(before[j]@ == k);
                        assert(listed(before, k));
                    } else {
                        assert(file_key_spec(gv[gi as int].files[fi as int]) == k);
                    }
                }
                if in_first_files(gv[gi as int], fi + 1, k) {
                    let b = choose|b: int| 0 <= b < fi + 1 && file_key_spec(#[trigger] gv[gi as int].files[b]) == k;
                    if b == fi {
                        assert(keys@[before.len() as int]@ == k);
                    } else {
                        assert(in_first_files(gv[gi as int], fi as int, k));
                        assert(listed(before, k));
                        let j = choose|j: int| 0 <= j < before.len() && (#[trigger] before[j])@ == k;
                        assert(keys@[j]@ == k);
                    }
                }
                if in_first_groups(gv, gi as int, k) {
                    assert(listed(before, k));
                    let j = choose|j: int| 0 <= j < before.len() && (#[trigger] before[j])@ == k;
                    assert(keys@[j]@ == k);
                }
            }
        }
        assert forall|k: Seq<char>| #[trigger] in_first_groups(gv, gi + 1, k) == (in_first_groups(gv, gi as int, k)
            || in_first_files(gv[gi as int], m as int, k)) by {
            if in_first_groups(gv, gi + 1, k) {
                let (a, b) = choose|a: int, b: int| 0 <= a < gi + 1 && 0 <= b < gv[a].files.len() && file_key_spec(#[trigger] gv[a].files[b]) == k;
                if a == gi {
                    assert(file_key_spec(gv[gi as int].files[b]) == k);
                } else {
                    assert(in_first_groups(gv, gi as int, k));
                }
            }
            if in_first_files(gv[gi as int], m as int, k) {
                let b = choose|b: int| 0 <= b < m && file_key_spec(#[trigger] gv[gi as int].files[b]) == k;
                assert(file_key_spec(gv[gi as int].files[b]) == k);
            }
            if in_first_groups(gv, gi as int, k) {
                let (a, b) = choose|a: int, b: int| 0 <= a < gi && 0 <= b < gv[a].files.len() && file_key_spec(#[trigger] gv[a].files[b]) == k;
                assert(file_key_spec(gv[a].files[b]) == k);
            }
        }
    }
    assert forall|k: Seq<char>| #[trigger] listed(keys@, k) == visible_file_keys(gv).contains(k) by {
        if visible_file_keys(gv).contains(k) {
            let (a, b) = choose|a: int, b: int| 0 <= a < gv.len() && 0 <= b < gv[a].files.len() && file_key_spec(#[trigger] gv[a].files[b]) == k;
            assert(in_first_groups(gv, n as int, k));
        }
    }
    keys
}

/// The keys of all files of the given groups.
pub open spec fn visible_file_keys(gs: Seq<GroupRecord>) -> Set<Seq<char>> {
    Set::new(
        |k: Seq<char>|
            exists|gi: int, fi: int|
                0 <= gi < gs.len() && 0 <= fi < gs[gi].files.len() && file_key_spec(
                    #[trigger] gs[gi].files[fi],
                ) == k,
    )
}

/// The keys of the copies (every file after the first) of the given groups.
pub open spec fn copy_keys(gs: Seq<GroupRecord>) -> Set<Seq<char>> {
    Set::new(
        |k: Seq<char>|
            exists|gi: int, fi: int|
                0 <= gi < gs.len() && 1 <= fi < gs[gi].files.len() && file_key_spec(
                    #[trigger] gs[gi].files[fi],
                ) == k,
    )
}

/// The keys of all files of one group.
pub open spec fn group_file_keys(g: GroupRecord) -> Set<Seq<char>> {
    Set::new(|k: Seq<char>| exists|fi: int| 0 <= fi < g.files.len() && file_key_spec(#[trigger] g.files[fi]) == k)
}

/// Key `k` belongs to a copy in one of the first `gi` groups.
pub open spec fn in_first_copies(gv: Seq<GroupRecord>, gi: int, k: Seq<char>) -> bool {
    exists|a: int, b: int| 0 <= a < gi && 1 <= b < gv[a].files.len() && file_key_spec(#[trigger] gv[a].files[b]) == k
}

/// Key `k` belongs to one of the files `1..fi` of group `g`.
pub open spec fn in_copy_prefix(g: GroupRecord, fi: int, k: Seq<char>) -> bool {
    exists|b: int| 1 <= b < fi && file_key_spec(#[trigger] g.files[b]) == k
}

/// The position of the first group with key `t`, or `-1` when no group has it.
pub open spec fn first_with_key(gs: Seq<GroupRecord>, t: Seq<char>) -> int
    decreases gs.len(),
{
    if gs.len() == 0 {
        -1
    } else if group_key_spec(gs[0]) == t {
        0
    } else {
        let r = first_with_key(gs.drop_first(), t);
        if r < 0 {
            -1
        } else {
            r + 1
        }
    }
}

proof fn lemma_first_with_key_at(gs: Seq<GroupRecord>, t: Seq<char>, j: int)
    requires
        0 <= j <= gs.len(),
        forall|k: int| 0 <= k < j ==> group_key_spec(#[trigger] gs[k]) != t,
        j == gs.len() || group_key_spec(gs[j]) == t,
    ensures
        first_with_key(gs, t) == (if j == gs.len() {
            -1
        } else {
            j
        }),
    decreases j,
{
    if j > 0 {
        assert(group_key_spec(gs[0]) != t);
        assert forall|k: int| 0 <= k < j - 1 implies group_key_spec(#[trigger] gs.drop_first()[k]) != t by {
            assert(gs.drop_first()[k] == gs[k + 1]);
        }
        lemma_first_with_key_at(gs.drop_first(), t, j - 1);
    }
}

/// Groups whose key is not `t`.
pub open spec fn key_is_not(t: Seq<char>) -> spec_fn(GroupRecord) -> bool {
    |g: GroupRecord| group_key_spec(g) != t
}

/// File `f` is ticked in the selection.
pub open spec fn is_ticked(sel: Map<Seq<char>, bool>, f: FileRecord) -> bool {
    sel.contains_key(file_key_spec(f)) && sel[file_key_spec(f)]
}

/// The predicate "is ticked in `sel`".
pub open spec fn ticked_pred(sel: Map<Seq<char>, bool>) -> spec_fn(FileRecord) -> bool {
    |f: FileRecord| is_ticked(sel, f)
}

/// The copies of a group: every file after the first.
pub open spec fn copies_of(g: GroupRecord) -> Seq<FileRecord> {
    if g.files.len() <= 1 {
        Seq::empty()
    } else {
        g.files.skip(1)
    }
}

/// The ticked copies (files after the first) of the groups, group after group.
pub open spec fn selected_copies(gs: Seq<GroupRecord>, sel: Map<Seq<char>, bool>) -> Seq<FileRecord>
    decreases gs.len(),
{
    if gs.len() == 0 {
        Seq::empty()
    } else {
        selected_copies(gs.drop_last(), sel) + copies_of(gs.last()).filter(ticked_pred(sel))
    }
}

/// The total size of some files.
pub open spec fn total_size(fs: Seq<FileRecord>) -> nat
    decreases fs.len(),
{
    if fs.len() == 0 {
        0
    } else {
        total_size(fs.drop_last()) + (fs.last().size as nat)
    }
}

/// File `f` is not one of the removed files (same disk id and path) and, when a
/// disk is given, is not on that disk.
pub open spec fn survives(removed: Seq<FileRecord>, disk: Option<Seq<char>>, f: FileRecord) -> bool {
    &&& !(exists|i: int| 0 <= i < removed.len() && (#[trigger] removed[i]).disk_id == f.disk_id && removed[i].path == f.path)
    &&& match disk {
        Some(d) => f.disk_id != d,
        None => true,
    }
}

/// The predicate `survives(removed, disk, _)`.
pub open spec fn survives_pred(removed: Seq<FileRecord>, disk: Option<Seq<char>>) -> spec_fn(FileRecord) -> bool {
    |f: FileRecord| survives(removed, disk, f)
}

/// The groups after files were removed: each group keeps its surviving files, and
/// only groups that still hold more than one file remain.
pub open spec fn prune_groups(gs: Seq<GroupRecord>, keep: spec_fn(FileRecord) -> bool) -> Seq<GroupRecord>
    decreases gs.len(),
{
    if gs.len() == 0 {
        Seq::empty()
    } else {
        let prev = prune_groups(gs.drop_last(), keep);
        let files = gs.last().files.filter(keep);
        if files.len() > 1 {
            prev.push(GroupRecord { size: gs.last().size, files })
        } else {
            prev
        }
    }
}

/// The keys of the removed files.
pub open spec fn removed_keys(removed: Seq<FileRecord>) -> Set<Seq<char>> {
    Set::new(|k: Seq<char>| exists|i: int| 0 <= i < removed.len() && file_key_spec(#[trigger] removed[i]) == k)
}

proof fn lemma_sum_filter_filter(s: Seq<GroupRecord>, q: spec_fn(GroupRecord) -> bool, p: spec_fn(GroupRecord) -> bool, f: spec_fn(GroupRecord) -> nat)
    ensures
        sum_of(s.filter(q).filter(p), f) <= sum_of(s.filter(p), f),
    decreases s.len(),
{
    if s.len() > 0 {
        let t = s.drop_last();
        let x = s.last();
        lemma_sum_filter_filter(t, q, p, f);
        assert(t.push(x) =~= s);
        t.lemma_filter_push(x, q);
        t.lemma_filter_push(x, p);
        t.filter(q).lemma_filter_push(x, p);
        assert(t.filter(p).push(x).drop_last() =~= t.filter(p));
        assert(t.filter(q).filter(p).push(x).drop_last() =~= t.filter(q).filter(p));
    }
}

proof fn lemma_prune_shrinks(gs: Seq<GroupRecord>, keep: spec_fn(FileRecord) -> bool, p: spec_fn(GroupRecord) -> bool, f: spec_fn(GroupRecord) -> nat)
    requires
        forall|g: GroupRecord, fs: Seq<FileRecord>| fs.len() <= g.files.len() ==> #[trigger] f(GroupRecord { size: g.size, files: fs }) <= #[trigger] f(g),
        forall|g: GroupRecord, fs: Seq<FileRecord>| #[trigger] p(GroupRecord { size: g.size, files: fs }) == #[trigger] p(g),
    ensures
        sum_of(prune_groups(gs, keep).filter(p), f) <= sum_of(gs.filter(p), f),
    decreases gs.len(),
{
    if gs.len() > 0 {
        let t = gs.drop_last();
        let x = gs.last();
        lemma_prune_shrinks(t, keep, p, f);
        assert(t.push(x) =~= gs);
        t.lemma_filter_push(x, p);
        assert(t.filter(p).push(x).drop_last() =~= t.filter(p));
        let files = x.files.filter(keep);
        let y = GroupRecord { size: x.size, files };
        x.files.lemma_filter_len(keep);
        if files.len() > 1 {
            let pt = prune_groups(t, keep);
            pt.lemma_filter_push(y, p);
            assert(pt.filter(p).push(y).drop_last() =~= pt.filter(p));
            assert(p(y) == p(x));
            assert(f(y) <= f(x));
        }
    }
}

proof fn lemma_count_shrinks()
    ensures
        forall|g: GroupRecord, fs: Seq<FileRecord>| fs.len() <= g.files.len() ==> #[trigger] count_fn()(GroupRecord { size: g.size, files: fs }) <= #[trigger] count_fn()(g),
{
}

proof fn lemma_saving_shrinks()
    ensures
        forall|g: GroupRecord, fs: Seq<FileRecord>| fs.len() <= g.files.len() ==> #[trigger] saving_fn()(GroupRecord { size: g.size, files: fs }) <= #[trigger] saving_fn()(g),
{
    assert forall|g: GroupRecord, fs: Seq<FileRecord>| fs.len() <= g.files.len() implies #[trigger] saving_fn()(GroupRecord { size: g.size, files: fs }) <= #[trigger] saving_fn()(g) by {
        let h = GroupRecord { size: g.size, files: fs };
        assert(removable(h) <= removable(g));
        let a = g.size as nat;
        let rh = removable(h);
        let rg = removable(g);
        assert(a * rh <= a * rg) by (nonlinear_arith)
            requires
                rh <= rg,
        ;
    }
}

proof fn lemma_size_filter_ignores_files(min: u64)
    ensures
        forall|g: GroupRecord, fs: Seq<FileRecord>| #[trigger] at_least(min)(GroupRecord { size: g.size, files: fs }) == #[trigger] at_least(min)(g),
{
}

/// Whether the file was removed, or lies on the removed disk.
fn is_removed(f: &IndexedFile, removed: &Vec<IndexedFile>, disk: &Option<String>) -> (r: bool)
    ensures
        r == !survives(crate::model::files_view(removed@), match disk {
            Some(d) => Some(d@),
            None => None,
        }, f@),
{
    let ghost rv = files_view(removed@);
    match disk {
        Some(d) => {
            if crate::text::str_eq(f.disk_id.as_str(), d.as_str()) {
                return true;
            }
        },
        None => {},
    }
    let n = removed.len();
    for i in 0..n
        invariant
            n == removed@.len(),
            rv == files_view(removed@),
            forall|j: int| 0 <= j < i ==> !((#[trigger] rv[j]).disk_id == f@.disk_id && rv[j].path == f@.path),
    {
        assert(rv[i as int] == removed@[i as int]@);
        if crate::text::str_eq(removed[i].disk_id.as_str(), f.disk_id.as_str()) && crate::text::str_eq(
            removed[i].path.as_str(),
            f.path.as_str(),
        ) {
            return true;
        }
    }
    false
}

/// The groups after removing files: surviving files kept, groups of one file or
/// none dropped.
fn prune(groups: &Vec<DuplicateGroup>, removed: &Vec<IndexedFile>, disk: &Option<String>) -> (r: Vec<DuplicateGroup>)
    ensures
        groups_view(r@) == prune_groups(
            groups_view(groups@),
            survives_pred(files_view(removed@), match disk {
                Some(d) => Some(d@),
                None => None,
            }),
        ),
{
    let ghost gv = groups_view(groups@);
    let ghost keep = survives_pred(files_view(removed@), match disk {
        Some(d) => Some(d@),
        None => None,
    });
    let mut out: Vec<DuplicateGroup> = Vec::new();
    let n = groups.len();
    for i in 0..n
        invariant
            n == groups@.len(),
            gv == groups_view(groups@),
            keep == survives_pred(files_view(removed@), match disk {
                Some(d) => Some(d@),
                None => None,
            }),
            groups_view(out@) == prune_groups(gv.take(i as int), keep),
    {
        let g = &groups[i];
        let ghost fv = files_view(g.files@);
        let mut files: Vec<IndexedFile> = Vec::new();
        let m = g.files.len();
        for k in 0..m
            invariant
                m == g.files@.len(),
                fv == files_view(g.files@),
                keep == survives_pred(files_view(removed@), match disk {
                    Some(d) => Some(d@),
                    None => None,
                }),
                files_view(files@) == fv.take(k as int).filter(keep),
        {
            let ghost before = files_view(files@);
            assert(fv.take(k + 1) =~= fv.take(k as int).push(fv[k as int]));
            proof {
                fv.take(k as int).lemma_filter_push(fv[k as int], keep);
            }
            if !is_removed(&g.files[k], removed, disk) {
                files.push(g.files[k].copy());
                assert(files_view(files@) =~= before.push(fv[k as int]));
            }
        }
        assert(fv.take(m as int) =~= fv);
        assert(gv.take(i + 1).drop_last() =~= gv.take(i as int));
        assert(gv[i as int] == g@);
        let ghost before = groups_view(out@);
        if files.len() > 1 {
            out.push(DuplicateGroup { size: g.size, files });
            assert(groups_view(out@) =~= before.push(GroupRecord { size: gv[i as int].size, files: fv.filter(keep) }));
        }
    }
    assert(gv.take(n as int) =~= gv);
    out
}

impl DuplicateResults {
    /// Ticks every copy (each file after the first) of every visible group.
    pub fn select_all_duplicates(&mut self)
        requires
            old(self).wf(),
        ensures
            final(self).wf(),
            final(self)@ == (ResultsModel {
                selected: old(self)@.selected.union_prefer_right(
                    Map::new(|k: Seq<char>| copy_keys(old(self)@.visible()).contains(k), |k: Seq<char>| true),
                ),
                ..old(self)@
            }),
    {
        let visible = self.visible_duplicate_groups();
        let ghost gv = groups_view(visible@);
        let ghost s0 = self.selected@;
        let n = visible.len();
        for gi in 0..n
            invariant
                n == visible@.len(),
                gv == groups_view(visible@),
                self.selected.wf(),
                self@ == (ResultsModel { selected: self.selected@, ..old(self)@ }),
                s0 == old(self)@.selected,
                forall|k: Seq<char>| #[trigger] self.selected@.contains_key(k) == (s0.contains_key(k) || in_first_copies(gv, gi as int, k)),
                forall|k: Seq<char>| #[trigger] self.selected@.contains_key(k) ==> self.selected@[k] == (if in_first_copies(gv, gi as int, k) {
                    true
                } else {
                    s0[k]
                }),
        {
            let m = visible[gi].files.len();
            assert(gv[gi as int].files.len() == m);
            let mut fi: usize = 1;
            while fi < m
                invariant
                    1 <= fi,
                    fi <= m || fi == 1,
                    n == visible@.len(),
                    gi < n,
                    gv == groups_view(visible@),
                    m == gv[gi as int].files.len(),
                    m == visible@[gi as int].files@.len(),
                    self.selected.wf(),
                    self@ == (ResultsModel { selected: self.selected@, ..old(self)@ }),
                    s0 == old(self)@.selected,
                    forall|k: Seq<char>| #[trigger] self.selected@.contains_key(k) == (s0.contains_key(k) || in_first_copies(gv, gi as int, k)
                        || in_copy_prefix(gv[gi as int], fi as int, k)),
                    forall|k: Seq<char>| #[trigger] self.selected@.contains_key(k) ==> self.selected@[k] == (if in_first_copies(gv, gi as int, k)
                        || in_copy_prefix(gv[gi as int], fi as int, k) {
                        true
                    } else {
                        s0[k]
                    }),
                decreases m - fi,
            {
                let key = file_key(&visible[gi].files[fi]);
                assert(gv[gi as int].files[fi as int] == visible@[gi as int].files@[fi as int]@);
                let ghost kk = key@;
                self.selected.insert(key, true);
                assert forall|k: Seq<char>| in_copy_prefix(gv[gi as int], fi + 1, k) == (in_copy_prefix(gv[gi as int], fi as int, k) || k == kk) by {
                    if in_copy_prefix(gv[gi as int], fi + 1, k) {
                        let b = choose|b: int| 1 <= b < fi + 1 && file_key_spec(#[trigger] gv[gi as int].files[b]) == k;
                        if b < fi {
                            assert(in_copy_prefix(gv[gi as int], fi as int, k));
                        }
                    }
                    if k == kk {
                        assert(file_key_spec(gv[gi as int].files[fi as int]) == k);
                    }
                    if in_copy_prefix(gv[gi as int], fi as int, k) {
                        let b = choose|b: int| 1 <= b < fi && file_key_spec(#[trigger] gv[gi as int].files[b]) == k;
                        assert(file_key_spec(gv[gi as int].files[b]) == k);
                    }
                }
                fi = fi + 1;
            }
            assert(fi >= m);
            assert(fi == m || (fi == 1 && m == 0));
            assert forall|k: Seq<char>| #[trigger] in_first_copies(gv, gi + 1, k) == (in_first_copies(gv, gi as int, k)
                || in_copy_prefix(gv[gi as int], fi as int, k)) by {
                if in_first_copies(gv, gi + 1, k) {
                    let (a, b) = choose|a: int, b: int| 0 <= a < gi + 1 && 1 <= b < gv[a].files.len() && file_key_spec(#[trigger] gv[a].files[b]) == k;
                    if a == gi {
                        assert(b < fi);
                        assert(file_key_spec(gv[gi as int].files[b]) == k);
                        assert(in_copy_prefix(gv[gi as int], fi as int, k));
                    } else {
                        assert(in_first_copies(gv, gi as int, k));
                    }
                }
                if in_copy_prefix(gv[gi as int], fi as int, k) {
                    let b = choose|b: int| 1 <= b < fi && file_key_spec(#[trigger] gv[gi as int].files[b]) == k;
                    assert(b < m);
                    assert(file_key_spec(gv[gi as int].files[b]) == k);
                    assert(in_first_copies(gv, gi + 1, k));
                }
                if in_first_copies(gv, gi as int, k) {
                    let (a, b) = choose|a: int, b: int| 0 <= a < gi && 1 <= b < gv[a].files.len() && file_key_spec(#[trigger] gv[a].files[b]) == k;
                    assert(file_key_spec(gv[a].files[b]) == k);
                }
            }
        }
        assert forall|k: Seq<char>| in_first_copies(gv, n as int, k) == copy_keys(old(self)@.visible()).contains(k) by {
            if copy_keys(gv).contains(k) {
                let (a, b) = choose|a: int, b: int| 0 <= a < gv.len() && 1 <= b < gv[a].files.len() && file_key_spec(#[trigger] gv[a].files[b]) == k;
                assert(file_key_spec(gv[a].files[b]) == k);
            }
        }
        assert(self.selected@ =~= s0.union_prefer_right(
            Map::new(|k: Seq<char>| copy_keys(old(self)@.visible()).contains(k), |k: Seq<char>| true),
        ));
    }

    /// Hides the first group with key `target_group_key` and every other group with
    /// that key for this run, and forgets the ticks of the first one's files.
    pub fn ignore_duplicate_group(&mut self, target_group_key: &str)
        requires
            old(self).wf(),
        ensures
            final(self).wf(),
            final(self)@.groups == old(self)@.groups.filter(key_is_not(target_group_key@)),
            final(self)@.selected == (if first_with_key(old(self)@.groups, target_group_key@) >= 0 {
                old(self)@.selected.remove_keys(
                    group_file_keys(old(self)@.groups[first_with_key(old(self)@.groups, target_group_key@)]),
                )
            } else {
                old(self)@.selected
            }),
            final(self)@.min_size == old(self)@.min_size,
            final(self)@.statistics_match(),
    {
        let ghost gv = groups_view(self.groups@);
        let ghost t = target_group_key@;
        let n = self.groups.len();
        let mut j: usize = 0;
        while j < n && !has_group_key(&self.groups[j], target_group_key)
            invariant
                n == self.groups@.len(),
                gv == groups_view(self.groups@),
                t == target_group_key@,
                j <= n,
                forall|k: int| 0 <= k < j ==> group_key_spec(#[trigger] gv[k]) != t,
            decreases n - j,
        {
            assert(gv[j as int] == self.groups@[j as int]@);
            j = j + 1;
        }
        proof {
            if j < n {
                assert(gv[j as int] == self.groups@[j as int]@);
            }
            lemma_first_with_key_at(gv, t, j as int);
        }
        if j < n {
            let ghost g = gv[j as int];
            let ghost s0 = self.selected@;
            let m = self.groups[j].files.len();
            assert(g.files.len() == m);
            for fi in 0..m
                invariant
                    n == self.groups@.len(),
                    j < n,
                    gv == groups_view(self.groups@),
                    g == gv[j as int],
                    m == g.files.len(),
                    m == self.groups@[j as int].files@.len(),
                    self.selected.wf(),
                    self@ == (ResultsModel { selected: self.selected@, ..old(self)@ }),
                    self.selected@ == s0.remove_keys(
                        Set::new(|k: Seq<char>| in_first_files(g, fi as int, k)),
                    ),
            {
                let key = file_key(&self.groups[j].files[fi]);
                assert(g.files[fi as int] == self.groups@[j as int].files@[fi as int]@);
                let ghost before = self.selected@;
                self.selected.remove(key.as_str());
                assert forall|k: Seq<char>| #[trigger] in_first_files(g, fi + 1, k) == (in_first_files(g, fi as int, k) || k == key@) by {
                    if in_first_files(g, fi + 1, k) {
                        let b = choose|b: int| 0 <= b < fi + 1 && file_key_spec(#[trigger] g.files[b]) == k;
                        if b < fi {
                            assert(in_first_files(g, fi as int, k));
                        }
                    }
                    if k == key@ {
                        assert(file_key_spec(g.files[fi as int]) == k);
                    }
                    if in_first_files(g, fi as int, k) {
                        let b = choose|b: int| 0 <= b < fi && file_key_spec(#[trigger] g.files[b]) == k;
                        assert(file_key_spec(g.files[b]) == k);
                    }
                }
                assert(self.selected@ =~= s0.remove_keys(Set::new(|k: Seq<char>| in_first_files(g, fi + 1, k))));
            }
            assert(Set::new(|k: Seq<char>| in_first_files(g, m as int, k)) =~= group_file_keys(g));
        } else {
            assert(self.selected@ == old(self)@.selected);
        }
        let ghost q = key_is_not(t);
        let mut kept: Vec<DuplicateGroup> = Vec::new();
        for i in 0..n
            invariant
                n == self.groups@.len(),
                gv == groups_view(self.groups@),
                q == key_is_not(t),
                t == target_group_key@,
                groups_view(kept@) == gv.take(i as int).filter(q),
        {
            let ghost before = groups_view(kept@);
            assert(gv.take(i + 1) =~= gv.take(i as int).push(gv[i as int]));
            proof {
                gv.take(i as int).lemma_filter_push(gv[i as int], q);
            }
            assert(gv[i as int] == self.groups@[i as int]@);
            if !has_group_key(&self.groups[i], target_group_key) {
                kept.push(self.groups[i].copy());
                assert(groups_view(kept@) =~= before.push(gv[i as int]));
            }
        }
        assert(gv.take(n as int) =~= gv);
        proof {
            lemma_sum_filter_filter(gv, q, at_least(self.min_size), saving_fn());
            lemma_sum_filter_filter(gv, q, at_least(self.min_size), count_fn());
        }
        let (c, d, s) = compute_statistics(&kept, self.min_size);
        self.groups = kept;
        self.total_candidates = c;
        self.total_duplicates = d;
        self.potential_savings = s;
    }

    /// The ticked copies of the visible groups, group after group.
    pub fn selected_indexed_files(&self) -> (r: Vec<IndexedFile>)
        requires
            self.wf(),
        ensures
            files_view(r@) == selected_copies(self@.visible(), self@.selected),
    {
        let visible = self.visible_duplicate_groups();
        let ghost gv = groups_view(visible@);
        let ghost sel = self@.selected;
        let ghost tp = ticked_pred(sel);
        let mut out: Vec<IndexedFile> = Vec::new();
        let n = visible.len();
        for gi in 0..n
            invariant
                n == visible@.len(),
                gv == groups_view(visible@),
                self.wf(),
                sel == self@.selected,
                tp == ticked_pred(sel),
                files_view(out@) == selected_copies(gv.take(gi as int), sel),
        {
            let g = &visible[gi];
            let ghost fv = files_view(g.files@);
            let ghost copies = copies_of(g@);
            let ghost start = files_view(out@);
            let m = g.files.len();
            assert(gv[gi as int] == g@);
            assert(fv.len() == m);
            assert(m > 1 ==> copies == fv.skip(1));
            if m > 1 {
                for fi in 1..m
                    invariant
                        m == g.files@.len(),
                        m > 1,
                        fv == files_view(g.files@),
                        copies == fv.skip(1),
                        fv.len() == m,
                        self.wf(),
                        sel == self@.selected,
                        tp == ticked_pred(sel),
                        files_view(out@) == start + copies.take(fi - 1).filter(tp),
                {
                    let ghost before = files_view(out@);
                    assert(copies.take(fi as int) =~= copies.take(fi - 1).push(copies[fi - 1]));
                    assert(copies[fi - 1] == g.files@[fi as int]@);
                    proof {
                        copies.take(fi - 1).lemma_filter_push(copies[fi - 1], tp);
                    }
                    let key = file_key(&g.files[fi]);
                    if self.selected.is_selected(key.as_str()) {
                        out.push(g.files[fi].copy());
                        assert(files_view(out@) =~= before.push(copies[fi - 1]));
                    }
                    assert(files_view(out@) =~= start + copies.take(fi as int).filter(tp));
                }
                assert(copies.take(m - 1) =~= copies);
            } else {
                assert(fv.len() == m);
                assert(copies =~= Seq::<FileRecord>::empty());
                assert(copies.filter(tp) =~= Seq::<FileRecord>::empty()) by {
                    copies.lemma_filter_len(tp);
                }
                assert(files_view(out@) =~= start + copies.filter(tp));
            }
            assert(gv.take(gi + 1).drop_last() =~= gv.take(gi as int));
        }
        assert(gv.take(n as int) =~= gv);
        out
    }

    /// The total size of the ticked copies of the visible groups.
    pub fn selected_size(&self) -> (r: u64)
        requires
            self.wf(),
            total_size(selected_copies(self@.visible(), self@.selected)) <= u64::MAX,
        ensures
            r == total_size(selected_copies(self@.visible(), self@.selected)),
    {
        let files = self.selected_indexed_files();
        let ghost fv = files_view(files@);
        let mut total: u64 = 0;
        let n = files.len();
        for i in 0..n
            invariant
                n == files@.len(),
                fv == files_view(files@),
                total_size(fv) <= u64::MAX,
                total == total_size(fv.take(i as int)),
        {
            proof {
                lemma_total_size_prefix(fv, i + 1);
                assert(fv.take(i + 1).drop_last() =~= fv.take(i as int));
            }
            total = total + files[i].size;
        }
        assert(fv.take(n as int) =~= fv);
        total
    }

    /// Drops the removed files (same disk id and path) from the groups and their
    /// ticks, drops groups left with one file or none, and recomputes the totals.
    pub fn remove_files(&mut self, removed: &Vec<IndexedFile>)
        requires
            old(self).wf(),
        ensures
            final(self).wf(),
            final(self)@.groups == prune_groups(old(self)@.groups, survives_pred(files_view(removed@), None)),
            final(self)@.selected == old(self)@.selected.remove_keys(removed_keys(files_view(removed@))),
            final(self)@.min_size == old(self)@.min_size,
            final(self)@.statistics_match(),
    {
        let ghost rv = files_view(removed@);
        let ghost s0 = self.selected@;
        let n = removed.len();
        for i in 0..n
            invariant
                n == removed@.len(),
                rv == files_view(removed@),
                self.selected.wf(),
                self@ == (ResultsModel { selected: self.selected@, ..old(self)@ }),
                s0 == old(self)@.selected,
                self.selected@ == s0.remove_keys(removed_keys(rv.take(i as int))),
        {
            let key = file_key(&removed[i]);
            assert(rv[i as int] == removed@[i as int]@);
            self.selected.remove(key.as_str());
            proof {
                lemma_removed_keys_push(rv, i as int);
            }
            assert(self.selected@ =~= s0.remove_keys(removed_keys(rv.take(i + 1))));
        }
        assert(rv.take(n as int) =~= rv);
        let no_disk: Option<String> = None;
        let pruned = prune(&self.groups, removed, &no_disk);
        proof {
            lemma_count_shrinks();
            lemma_saving_shrinks();
            lemma_size_filter_ignores_files(self.min_size);
            lemma_prune_shrinks(groups_view(self.groups@), survives_pred(rv, None), at_least(self.min_size), count_fn());
            lemma_prune_shrinks(groups_view(self.groups@), survives_pred(rv, None), at_least(self.min_size), saving_fn());
        }
        let (c, d, s) = compute_statistics(&pruned, self.min_size);
        self.groups = pruned;
        self.total_candidates = c;
        self.total_duplicates = d;
        self.potential_savings = s;
    }

    /// Drops every file of disk `disk_id` from the groups, drops groups left with
    /// one file or none, clears every tick, and recomputes the totals.
    pub fn remove_disk(&mut self, disk_id: &str)
        requires
            old(self).wf(),
        ensures
            final(self).wf(),
            final(self)@.groups == prune_groups(old(self)@.groups, survives_pred(Seq::empty(), Some(disk_id@))),
            final(self)@.selected == Map::<Seq<char>, bool>::empty(),
            final(self)@.min_size == old(self)@.min_size,
            final(self)@.statistics_match(),
    {
        let none: Vec<IndexedFile> = Vec::new();
        let disk: Option<String> = Some(disk_id.to_owned());
        let pruned = prune(&self.groups, &none, &disk);
        assert(files_view(none@) =~= Seq::<FileRecord>::empty());
        proof {
            lemma_count_shrinks();
            lemma_saving_shrinks();
            lemma_size_filter_ignores_files(self.min_size);
            lemma_prune_shrinks(groups_view(self.groups@), survives_pred(Seq::empty(), Some(disk_id@)), at_least(self.min_size), count_fn());
            lemma_prune_shrinks(groups_view(self.groups@), survives_pred(Seq::empty(), Some(disk_id@)), at_least(self.min_size), saving_fn());
        }
        let (c, d, s) = compute_statistics(&pruned, self.min_size);
        self.selected.clear();
        self.groups = pruned;
        self.total_candidates = c;
        self.total_duplicates = d;
        self.potential_savings = s;
    }
}

proof fn lemma_removed_keys_push(rv: Seq<FileRecord>, i: int)
    requires
        0 <= i < rv.len(),
    ensures
        removed_keys(rv.take(i + 1)) == removed_keys(rv.take(i)).insert(file_key_spec(rv[i])),
{
    let a = rv.take(i + 1);
    let b = rv.take(i);
    assert forall|k: Seq<char>| removed_keys(a).contains(k) == removed_keys(b).insert(file_key_spec(rv[i])).contains(k) by {
        if removed_keys(a).contains(k) {
            let j = choose|j: int| 0 <= j < a.len() && file_key_spec(#[trigger] a[j]) == k;
            if j < i {
                assert(b[j] == a[j]);
                assert(removed_keys(b).contains(k));
            }
        }
        if removed_keys(b).contains(k) {
            let j = choose|j: int| 0 <= j < b.len() && file_key_spec(#[trigger] b[j]) == k;
            assert(a[j] == b[j]);
            assert(removed_keys(a).contains(k));
        }
        if k == file_key_spec(rv[i]) {
            assert(a[i] == rv[i]);
            assert(removed_keys(a).contains(k));
        }
    }
    assert(removed_keys(a) =~= removed_keys(b).insert(file_key_spec(rv[i])));
}

proof fn lemma_total_size_prefix(fs: Seq<FileRecord>, i: int)
    requires
        0 <= i <= fs.len(),
    ensures
        total_size(fs.take(i)) <= total_size(fs),
    decreases fs.len() - i,
{
    if i < fs.len() {
        lemma_total_size_prefix(fs, i + 1);
        assert(fs.take(i + 1).drop_last() =~= fs.take(i));
    } else {
        assert(fs.take(i) =~= fs);
    }
}

/// Whether a group's key is `target`.
fn has_group_key(g: &DuplicateGroup, target: &str) -> (r: bool)
    ensures
        r == (group_key_spec(g@) == target@),
{
    let k = group_key(g);
    crate::text::str_eq(k.as_str(), target)
}

/// Only ticked copies are deleted: every file chosen for deletion is ticked and is a
/// file after the first of one of the groups, so the first file of each group is
/// kept.
pub proof fn lemma_selected_are_ticked_copies(gs: Seq<GroupRecord>, sel: Map<Seq<char>, bool>, k: int)
    requires
        0 <= k < selected_copies(gs, sel).len(),
    ensures
        is_ticked(sel, selected_copies(gs, sel)[k]),
        exists|gi: int, fi: int|
            0 <= gi < gs.len() && 1 <= fi < gs[gi].files.len() && #[trigger] gs[gi].files[fi] == selected_copies(gs, sel)[k],
    decreases gs.len(),
{
    let prev = selected_copies(gs.drop_last(), sel);
    let c = copies_of(gs.last());
    let tail = c.filter(ticked_pred(sel));
    let x = selected_copies(gs, sel)[k];
    if k < prev.len() {
        assert(x == prev[k]);
        lemma_selected_are_ticked_copies(gs.drop_last(), sel, k);
        let (gi, fi) = choose|gi: int, fi: int|
            0 <= gi < gs.drop_last().len() && 1 <= fi < gs.drop_last()[gi].files.len()
                && #[trigger] gs.drop_last()[gi].files[fi] == prev[k];
        assert(gs[gi] == gs.drop_last()[gi]);
    } else {
        let t = k - prev.len();
        assert(x == tail[t]);
        c.lemma_filter_pred(ticked_pred(sel), t);
        assert(tail.contains(x));
        c.lemma_filter_contains_rev(ticked_pred(sel), x);
        let m = choose|m: int| 0 <= m < c.len() && c[m] == x;
        let last = gs.len() - 1;
        assert(gs[last] == gs.last());
        assert(gs[last].files[m + 1] == x);
    }
}

/// The copies (files after the first) of the groups, group after group.
pub open spec fn all_copies(gs: Seq<GroupRecord>) -> Seq<FileRecord>
    decreases gs.len(),
{
    if gs.len() == 0 {
        Seq::empty()
    } else {
        all_copies(gs.drop_last()) + copies_of(gs.last())
    }
}

proof fn lemma_filter_keeps_all(s: Seq<FileRecord>, p: spec_fn(FileRecord) -> bool)
    requires
        forall|i: int| 0 <= i < s.len() ==> p(#[trigger] s[i]),
    ensures
        s.filter(p) == s,
    decreases s.len(),
{
    if s.len() > 0 {
        let prev = s.drop_last();
        assert(prev.push(s.last()) =~= s);
        assert forall|i: int| 0 <= i < prev.len() implies p(#[trigger] prev[i]) by {
            assert(prev[i] == s[i]);
        }
        lemma_filter_keeps_all(prev, p);
        prev.lemma_filter_push(s.last(), p);
        assert(p(s[s.len() - 1]));
    } else {
        assert(s.filter(p) =~= s);
    }
}

proof fn lemma_all_ticked_copies(gs: Seq<GroupRecord>, sel: Map<Seq<char>, bool>)
    requires
        forall|gi: int, fi: int|
            0 <= gi < gs.len() && 1 <= fi < gs[gi].files.len() ==> is_ticked(sel, #[trigger] gs[gi].files[fi]),
    ensures
        selected_copies(gs, sel) == all_copies(gs),
    decreases gs.len(),
{
    if gs.len() > 0 {
        let prev = gs.drop_last();
        assert forall|gi: int, fi: int|
            0 <= gi < prev.len() && 1 <= fi < prev[gi].files.len() implies is_ticked(sel, #[trigger] prev[gi].files[fi]) by {
            assert(prev[gi] == gs[gi]);
        }
        lemma_all_ticked_copies(prev, sel);
        let last = gs.len() - 1;
        let c = copies_of(gs.last());
        assert forall|i: int| 0 <= i < c.len() implies ticked_pred(sel)(#[trigger] c[i]) by {
            assert(gs[last] == gs.last());
            assert(c[i] == gs[last].files[i + 1]);
        }
        lemma_filter_keeps_all(c, ticked_pred(sel));
    }
}

/// Selecting all duplicates chooses every copy: once every copy of the visible
/// groups is ticked, the files chosen for deletion are exactly those copies, group
/// after group.
pub proof fn lemma_select_all_chooses_every_copy(gs: Seq<GroupRecord>, sel: Map<Seq<char>, bool>)
    ensures
        selected_copies(
            gs,
            sel.union_prefer_right(Map::new(|k: Seq<char>| copy_keys(gs).contains(k), |k: Seq<char>| true)),
        ) == all_copies(gs),
{
    let ticks = Map::new(|k: Seq<char>| copy_keys(gs).contains(k), |k: Seq<char>| true);
    let all = sel.union_prefer_right(ticks);
    assert forall|gi: int, fi: int|
        0 <= gi < gs.len() && 1 <= fi < gs[gi].files.len() implies is_ticked(all, #[trigger] gs[gi].files[fi]) by {
        let k = file_key_spec(gs[gi].files[fi]);
        assert(copy_keys(gs).contains(k));
        assert(ticks.dom().contains(k));
    }
    lemma_all_ticked_copies(gs, all);
}

} // verus!

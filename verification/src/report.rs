//! Human-readable byte sizes and the plain-text duplicate report.
use vstd::prelude::*;
use crate::grouping::{GroupOrder, sort_groups, sort_spec, lemma_sort_permutes};
use crate::model::{DuplicateGroup, GroupRecord, FileRecord, groups_view, files_view};
use crate::text::{decimal, digit_char, push_char, push_decimal, push_str};

verus! {

/// The file name under which a report is saved by default.
pub const DEFAULT_REPORT_PATH: &'static str = "duplicate_files_report.txt";

// ---------------------------------------------------------------------------
// Byte sizes
// ---------------------------------------------------------------------------

/// `2` to the power `e`.
pub open spec fn pow2(e: nat) -> nat
    decreases e,
{
    if e == 0 {
        1
    } else {
        2 * pow2((e - 1) as nat)
    }
}

/// `1024` to the power `u`.
pub open spec fn pow1024(u: nat) -> nat
    decreases u,
{
    if u == 0 {
        1
    } else {
        1024 * pow1024((u - 1) as nat)
    }
}

/// The number of binary digits of `n`.
pub open spec fn bit_len(n: nat) -> nat
    decreases n,
{
    if n == 0 {
        0
    } else {
        1 + bit_len(n / 2)
    }
}

/// `a / d` rounded to the nearest integer, ties to the even one.
pub open spec fn div_round_even(a: nat, d: nat) -> nat {
    let q = a / d;
    let r = a % d;
    if r * 2 > d || (r * 2 == d && q % 2 == 1) {
        q + 1
    } else {
        q
    }
}

/// The value that `n` takes as a 64-bit binary float: rounded to 53 significant
/// bits, ties to even.
pub open spec fn as_double(n: nat) -> nat {
    if bit_len(n) <= 53 {
        n
    } else {
        let p = pow2((bit_len(n) - 53) as nat);
        div_round_even(n, p) * p
    }
}

/// The unit in which a size of `x` bytes is shown: `x` is divided by 1024 while it
/// is at least 1024 and the unit is below terabytes.
pub open spec fn unit_from(x: nat, u: nat) -> nat
    decreases 4 - u,
{
    if u < 4 && x >= pow1024(u + 1) {
        unit_from(x, u + 1)
    } else {
        u
    }
}

/// The name of a unit.
pub open spec fn unit_name(u: nat) -> Seq<char> {
    if u == 0 {
        "B"@
    } else if u == 1 {
        "KB"@
    } else if u == 2 {
        "MB"@
    } else if u == 3 {
        "GB"@
    } else {
        "TB"@
    }
}

/// Two decimal digits of `n`, with a leading zero.
pub open spec fn two_digits(n: nat) -> Seq<char> {
    seq![digit_char(n / 10), digit_char(n % 10)]
}

/// A byte count as text: below 1024 the exact count and `B`; otherwise the size
/// in the largest unit up to `TB` that keeps it at least 1 (after conversion to a
/// 64-bit float), with two decimals rounded to nearest, ties to even.
pub open spec fn format_bytes_spec(bytes: u64) -> Seq<char> {
    let x = as_double(bytes as nat);
    let u = unit_from(x, 0);
    if u == 0 {
        decimal(bytes as nat) + " "@ + unit_name(0)
    } else {
        let c = div_round_even(x * 100, pow1024(u));
        decimal(c / 100) + "."@ + two_digits(c % 100) + " "@ + unit_name(u)
    }
}

pub(crate) proof fn lemma_bit_len_bound(n: nat, k: nat)
    requires
        n < pow2(k),
    ensures
        bit_len(n) <= k,
    decreases k,
{
    if n > 0 && k > 0 {
        lemma_bit_len_bound(n / 2, (k - 1) as nat);
    }
}

/// `a / d` rounded to the nearest integer, ties to the even one.
pub(crate) fn div_round_even_exec(a: u128, d: u128) -> (r: u128)
    requires
        d > 0,
        d <= 0x4000_0000_0000_0000_0000_0000_0000_0000,
        a < 0x4000_0000_0000_0000_0000_0000_0000_0000,
    ensures
        r == div_round_even(a as nat, d as nat),
        r <= a + 1,
        r <= a / d + 1,
{
    let q = a / d;
    let rem = a % d;
    assert(q <= a) by (nonlinear_arith)
        requires
            q == a / d,
            d > 0,
    ;
    if rem * 2 > d || (rem * 2 == d && q % 2 == 1) {
        q + 1
    } else {
        q
    }
}

/// The value of `n` as a 64-bit float.
fn double_value(n: u64) -> (x: u128)
    ensures
        x == as_double(n as nat),
        x <= 0x1_0000_0000_0000_0000 * 2048,
{
    let mut m = n;
    let mut bl: u64 = 0;
    proof {
        lemma_pow2_values();
        lemma_bit_len_bound(n as nat, 64);
    }
    while m > 0
        invariant
            bl + bit_len(m as nat) == bit_len(n as nat),
            bit_len(n as nat) <= 64,
        decreases m,
    {
        m = m / 2;
        bl = bl + 1;
    }
    if bl <= 53 {
        return n as u128;
    }
    let e = bl - 53;
    let mut p: u128 = 1;
    let mut k: u64 = 0;
    while k < e
        invariant
            k <= e,
            e <= 11,
            p == pow2(k as nat),
            p <= 2048,
            p >= 1,
        decreases e - k,
    {
        proof {
            assert(pow2(k as nat) <= 1024) by {
                lemma_pow2_mono(k as nat, 10);
                lemma_pow2_values();
            }
        }
        p = p * 2;
        k = k + 1;
    }
    let r = div_round_even_exec(n as u128, p);
    assert(r <= n as u128 + 1);
    assert(r * p <= (0x1_0000_0000_0000_0000) * 2048) by (nonlinear_arith)
        requires
            r <= 0x1_0000_0000_0000_0000,
            p <= 2048,
    ;
    r * p
}

proof fn lemma_pow2_values()
    ensures
        pow2(10) == 1024,
        pow2(53) == 0x20_0000_0000_0000,
        pow2(64) == 0x1_0000_0000_0000_0000,
{
    reveal_with_fuel(pow2, 65);
}

proof fn lemma_pow1024_values()
    ensures
        pow1024(1) == 1024,
        pow1024(3) == 0x4000_0000,
        pow1024(4) == 0x100_0000_0000,
{
    reveal_with_fuel(pow1024, 5);
}

pub(crate) proof fn lemma_pow2_mono(a: nat, b: nat)
    requires
        a <= b,
    ensures
        pow2(a) <= pow2(b),
    decreases b,
{
    if a < b {
        lemma_pow2_mono(a, (b - 1) as nat);
    }
}

/// A byte count as text, such as `512 B` or `1.00 MB`.
pub fn format_bytes(bytes: u64) -> (s: String)
    ensures
        s@ == format_bytes_spec(bytes),
{
    let x = double_value(bytes);
    let mut unit: u64 = 0;
    let mut div: u128 = 1;
    while unit < 4 && x >= div * 1024
        invariant
            unit <= 4,
            div == pow1024(unit as nat),
            div <= 0x100_0000_0000,
            div >= 1,
            unit_from(x as nat, 0) == unit_from(x as nat, unit as nat),
        decreases 4 - unit,
    {
        proof {
            lemma_pow1024_values();
            if unit < 3 {
                lemma_pow1024_mono((unit + 1) as nat, 3);

            }
        }
        div = div * 1024;
        unit = unit + 1;
    }
    let mut s = String::new();
    if unit == 0 {
        push_decimal(&mut s, bytes as u128);
        push_str(&mut s, " B");
        proof {
            reveal_strlit(" B");
            reveal_strlit(" ");
            reveal_strlit("B");
        }
        assert(s@ =~= format_bytes_spec(bytes));
    } else {
        let c = div_round_even_exec(x * 100, div);
        push_decimal(&mut s, c / 100);
        push_char(&mut s, '.');
        push_char(&mut s, digit2((c % 100) / 10));
        push_char(&mut s, digit2((c % 100) % 10));
        push_char(&mut s, ' ');
        let name = if unit == 1 {
            "KB"
        } else if unit == 2 {
            "MB"
        } else if unit == 3 {
            "GB"
        } else {
            "TB"
        };
        push_str(&mut s, name);
        proof {
            reveal_strlit(".");
            reveal_strlit(" ");
        }
        assert(s@ =~= format_bytes_spec(bytes));
    }
    s
}

pub(crate) fn digit2(d: u128) -> (c: char)
    requires
        d < 10,
    ensures
        c == digit_char(d as nat),
{
    match d {
        0 => '0',
        1 => '1',
        2 => '2',
        3 => '3',
        4 => '4',
        5 => '5',
        6 => '6',
        7 => '7',
        8 => '8',
        _ => '9',
    }
}

proof fn lemma_pow1024_mono(a: nat, b: nat)
    requires
        a <= b,
    ensures
        pow1024(a) <= pow1024(b),
    decreases b,
{
    if a < b {
        lemma_pow1024_mono(a, (b - 1) as nat);
    }
}

/// Below 1024 bytes the exact count is shown in bytes.
pub proof fn lemma_small_sizes_in_bytes(bytes: u64)
    requires
        bytes < 1024,
    ensures
        format_bytes_spec(bytes) == decimal(bytes as nat) + " "@ + "B"@,
{
    lemma_pow2_values();
    lemma_bit_len_bound(bytes as nat, 53);
    lemma_pow1024_values();
}

// ---------------------------------------------------------------------------
// The duplicate report
// ---------------------------------------------------------------------------

/// The number of copies of a group that could be removed (all but one).
pub open spec fn removable(g: GroupRecord) -> nat {
    if g.files.len() >= 2 {
        (g.files.len() - 1) as nat
    } else {
        0
    }
}

/// The space that removing every copy but one of a group would free.
pub open spec fn saving(g: GroupRecord) -> nat {
    (g.size as nat) * removable(g)
}

/// `1` for a group of duplicates (two or more files), `0` otherwise.
pub open spec fn is_duplicate(g: GroupRecord) -> nat {
    if g.files.len() >= 2 {
        1
    } else {
        0
    }
}

/// The sum of `f` over a sequence of groups.
pub open spec fn sum_of(s: Seq<GroupRecord>, f: spec_fn(GroupRecord) -> nat) -> nat
    decreases s.len(),
{
    if s.len() == 0 {
        0
    } else {
        sum_of(s.drop_last(), f) + f(s.last())
    }
}

/// The function `removable`.
pub open spec fn removable_fn() -> spec_fn(GroupRecord) -> nat {
    |g: GroupRecord| removable(g)
}

/// The function `saving`.
pub open spec fn saving_fn() -> spec_fn(GroupRecord) -> nat {
    |g: GroupRecord| saving(g)
}

/// The function `is_duplicate`.
pub open spec fn is_duplicate_fn() -> spec_fn(GroupRecord) -> nat {
    |g: GroupRecord| is_duplicate(g)
}

/// The report line of one file.
pub open spec fn file_line(f: FileRecord) -> Seq<char> {
    "  - ["@ + f.disk_id + "] "@ + f.path + "\n"@
}

/// The report lines of the files of a group, in order.
pub open spec fn file_lines(fs: Seq<FileRecord>) -> Seq<char>
    decreases fs.len(),
{
    if fs.len() == 0 {
        Seq::empty()
    } else {
        file_lines(fs.drop_last()) + file_line(fs.last())
    }
}

/// The heading of a report section: the group's number, its file size and its
/// number of files.
pub open spec fn section_heading(index: nat, g: GroupRecord) -> Seq<char> {
    "重复组 #"@ + decimal(index + 1) + "\n"@ + "文件大小: "@ + decimal(g.size as nat) + " ("@
        + format_bytes_spec(g.size) + ")\n"@ + "文件数量: "@ + decimal(g.files.len()) + "\n"@
}

/// The rest of a report section: the space to be saved and the file lines.
pub open spec fn section_details(g: GroupRecord) -> Seq<char> {
    "可节省空间: "@ + decimal(saving(g)) + " ("@ + format_bytes_spec(saving(g) as u64) + ")\n"@
        + "文件路径:\n"@ + file_lines(g.files) + "\n---\n\n"@
}

/// The report section of the group at position `index` of the sorted groups.
pub open spec fn group_section(index: nat, g: GroupRecord) -> Seq<char> {
    section_heading(index, g) + section_details(g)
}

/// The sections of the sorted groups: one per group of two or more files, numbered
/// by the group's position among all the sorted groups.
pub open spec fn report_body(s: Seq<GroupRecord>) -> Seq<char>
    decreases s.len(),
{
    if s.len() == 0 {
        Seq::empty()
    } else {
        report_body(s.drop_last()) + if s.last().files.len() >= 2 {
            group_section((s.len() - 1) as nat, s.last())
        } else {
            Seq::empty()
        }
    }
}

/// The closing summary text for the given totals.
pub open spec fn summary_text(groups: nat, files: nat, saved: nat) -> Seq<char> {
    "总结:\n"@ + "重复文件组: "@ + decimal(groups) + " 组\n"@ + "可删除文件数: "@ + decimal(files)
        + " 个\n"@ + "可节省空间: "@ + decimal(saved) + " ("@ + format_bytes_spec(saved as u64)
        + ")\n"@
}

/// The closing summary: number of duplicate groups, of removable files, and the
/// space that removing them would free.
pub open spec fn report_summary(s: Seq<GroupRecord>) -> Seq<char> {
    summary_text(
        sum_of(s, is_duplicate_fn()),
        sum_of(s, removable_fn()),
        sum_of(s, saving_fn()),
    )
}

/// The whole report on a set of groups: the groups are sorted by size, largest
/// first (groups of equal size keep their order).
pub open spec fn report_text(groups: Seq<GroupRecord>) -> Seq<char> {
    let sorted = sort_spec(GroupOrder::LargestFirst, groups);
    "=== 重复文件报告 ===\n\n"@ + report_body(sorted) + report_summary(sorted)
}

/// The totals of a report fit the machine integers that hold them.
pub open spec fn report_fits(groups: Seq<GroupRecord>) -> bool {
    &&& sum_of(groups, saving_fn()) <= u64::MAX
    &&& sum_of(groups, removable_fn()) <= usize::MAX
}

proof fn lemma_sum_insert(s: Seq<GroupRecord>, p: int, x: GroupRecord, f: spec_fn(GroupRecord) -> nat)
    requires
        0 <= p <= s.len(),
    ensures
        sum_of(s.insert(p, x), f) == sum_of(s, f) + f(x),
    decreases s.len(),
{
    if p == s.len() {
        assert(s.insert(p, x) =~= s.push(x));
        assert(s.push(x).drop_last() =~= s);
    } else {
        let t = s.insert(p, x);
        assert(t.drop_last() =~= s.drop_last().insert(p, x));
        assert(t.last() == s.last());
        lemma_sum_insert(s.drop_last(), p, x, f);
    }
}

/// Sorting does not change a sum over the groups.
pub proof fn lemma_sum_sort(order: GroupOrder, s: Seq<GroupRecord>, f: spec_fn(GroupRecord) -> nat)
    ensures
        sum_of(sort_spec(order, s), f) == sum_of(s, f),
    decreases s.len(),
{
    if s.len() > 0 {
        let r = sort_spec(order, s.drop_last());
        lemma_sum_sort(order, s.drop_last(), f);
        crate::grouping::lemma_insert_pos_bound(order, r, s.last());
        lemma_sum_insert(r, crate::grouping::insert_pos(order, r, s.last()) as int, s.last(), f);
    }
}

proof fn lemma_sum_prefix(s: Seq<GroupRecord>, i: int, f: spec_fn(GroupRecord) -> nat)
    requires
        0 <= i <= s.len(),
    ensures
        sum_of(s.take(i), f) <= sum_of(s, f),
    decreases s.len() - i,
{
    if i < s.len() {
        lemma_sum_prefix(s, i + 1, f);
        assert(s.take(i + 1).drop_last() =~= s.take(i));
    } else {
        assert(s.take(i) =~= s);
    }
}

fn push_file_lines(s: &mut String, files: &Vec<crate::model::IndexedFile>)
    ensures
        final(s)@ == old(s)@ + file_lines(files_view(files@)),
{
    let ghost fv = files_view(files@);
    let n = files.len();
    for i in 0..n
        invariant
            n == files@.len(),
            fv == files_view(files@),
            s@ == old(s)@ + file_lines(fv.take(i as int)),
    {
        let ghost before = s@;
        push_str(s, "  - [");
        push_str(s, files[i].disk_id.as_str());
        push_str(s, "] ");
        push_str(s, files[i].path.as_str());
        push_str(s, "\n");
        assert(fv.take(i + 1).drop_last() =~= fv.take(i as int));
        assert(s@ =~= before + file_line(fv[i as int]));
    }
    assert(fv.take(n as int) =~= fv);
}

fn push_section_heading(s: &mut String, index: usize, g: &DuplicateGroup)
    requires
        index < usize::MAX,
    ensures
        final(s)@ == old(s)@ + section_heading(index as nat, g@),
{
    let ghost start = s@;
    push_str(s, "重复组 #");
    push_decimal(s, (index + 1) as u128);
    push_str(s, "\n");
    push_str(s, "文件大小: ");
    push_decimal(s, g.size as u128);
    push_str(s, " (");
    let size_text = format_bytes(g.size);
    push_str(s, size_text.as_str());
    push_str(s, ")\n");
    push_str(s, "文件数量: ");
    push_decimal(s, g.files.len() as u128);
    push_str(s, "\n");
    assert(g@.files.len() == g.files@.len());
    assert(s@ =~= start + section_heading(index as nat, g@));
}

fn push_section_details(s: &mut String, g: &DuplicateGroup, saved: u64)
    requires
        saved == saving(g@),
    ensures
        final(s)@ == old(s)@ + section_details(g@),
{
    let ghost start = s@;
    push_str(s, "可节省空间: ");
    push_decimal(s, saved as u128);
    push_str(s, " (");
    let saved_text = format_bytes(saved);
    push_str(s, saved_text.as_str());
    push_str(s, ")\n");
    push_str(s, "文件路径:\n");
    push_file_lines(s, &g.files);
    push_str(s, "\n---\n\n");
    assert(s@ =~= start + section_details(g@));
}

fn push_group_section(s: &mut String, index: usize, g: &DuplicateGroup, saved: u64)
    requires
        index < usize::MAX,
        saved == saving(g@),
    ensures
        final(s)@ == old(s)@ + group_section(index as nat, g@),
{
    let ghost start = s@;
    push_section_heading(s, index, g);
    push_section_details(s, g, saved);
    assert(s@ =~= start + group_section(index as nat, g@));
}

#[verifier::rlimit(40)]
/// The plain-text report on duplicate groups, largest files first: one section
/// per group of two or more files, then the totals.
pub fn build_report(groups: &Vec<DuplicateGroup>) -> (report: String)
    requires
        report_fits(groups_view(groups@)),
    ensures
        report@ == report_text(groups_view(groups@)),
{
    let sorted = sort_groups(groups, GroupOrder::LargestFirst);
    let ghost sv = groups_view(sorted@);
    proof {
        lemma_sum_sort(GroupOrder::LargestFirst, groups_view(groups@), saving_fn());
        lemma_sum_sort(GroupOrder::LargestFirst, groups_view(groups@), removable_fn());
        lemma_sort_permutes(GroupOrder::LargestFirst, groups_view(groups@));
    }
    let mut report = String::new();
    push_str(&mut report, "=== 重复文件报告 ===\n\n");
    let ghost header = report@;
    let mut total_duplicates: usize = 0;
    let mut total_size_saved: u64 = 0;
    let mut group_count: usize = 0;
    let n = sorted.len();
    for idx in 0..n
        invariant
            n == sorted@.len(),
            sv == groups_view(sorted@),
            sum_of(sv, saving_fn()) <= u64::MAX,
            sum_of(sv, removable_fn()) <= usize::MAX,
            report@ == header + report_body(sv.take(idx as int)),
            total_duplicates == sum_of(sv.take(idx as int), removable_fn()),
            total_size_saved == sum_of(sv.take(idx as int), saving_fn()),
            group_count == sum_of(sv.take(idx as int), is_duplicate_fn()),
            group_count <= idx,
    {
        let g = &sorted[idx];
        let ghost gv = sv[idx as int];
        assert(gv == g@);
        assert(gv.files.len() == g.files@.len());
        proof {
            lemma_sum_prefix(sv, idx + 1, saving_fn());
            lemma_sum_prefix(sv, idx + 1, removable_fn());
            assert(sv.take(idx + 1).drop_last() =~= sv.take(idx as int));
        }
        if g.files.len() >= 2 {
            let duplicate_count = g.files.len() - 1;
            assert(saving(gv) == sum_of(sv.take(idx + 1), saving_fn()) - sum_of(sv.take(idx as int), saving_fn()));
            let size_saved = g.size * (duplicate_count as u64);
            total_duplicates = total_duplicates + duplicate_count;
            total_size_saved = total_size_saved + size_saved;
            group_count = group_count + 1;
            push_group_section(&mut report, idx, g, size_saved);
        } else {
            assert(saving(gv) == 0) by {
                assert((gv.size as nat) * 0 == 0) by (nonlinear_arith);
            }
        }
        assert(report@ =~= header + report_body(sv.take(idx + 1)));
    }
    assert(sv.take(n as int) =~= sv);
    push_summary(&mut report, group_count, total_duplicates, total_size_saved);
    report
}

fn push_summary(s: &mut String, groups: usize, files: usize, saved: u64)
    ensures
        final(s)@ == old(s)@ + summary_text(groups as nat, files as nat, saved as nat),
{
    let ghost start = s@;
    push_str(s, "总结:\n");
    push_str(s, "重复文件组: ");
    push_decimal(s, groups as u128);
    push_str(s, " 组\n");
    push_str(s, "可删除文件数: ");
    push_decimal(s, files as u128);
    push_str(s, " 个\n");
    push_str(s, "可节省空间: ");
    push_decimal(s, saved as u128);
    push_str(s, " (");
    let total_text = format_bytes(saved);
    push_str(s, total_text.as_str());
    push_str(s, ")\n");
    assert(s@ =~= start + summary_text(groups as nat, files as nat, saved as nat));
}

proof fn lemma_report_body_prefix(s: Seq<GroupRecord>, k: int) -> (rest: Seq<char>)
    requires
        0 <= k <= s.len(),
    ensures
        report_body(s) == report_body(s.take(k)) + rest,
    decreases s.len() - k,
{
    if k < s.len() {
        let rest = lemma_report_body_prefix(s, k + 1);
        let t = s.take(k + 1);
        assert(t.drop_last() =~= s.take(k));
        assert(t.last() == s[k]);
        let tail = if s[k].files.len() >= 2 {
            group_section(k as nat, s[k])
        } else {
            Seq::<char>::empty()
        };
        assert(report_body(t) == report_body(s.take(k)) + tail);
        assert(report_body(s) =~= report_body(s.take(k)) + (tail + rest));
        tail + rest
    } else {
        assert(s.take(k) =~= s);
        assert(report_body(s) =~= report_body(s.take(k)) + Seq::<char>::empty());
        Seq::<char>::empty()
    }
}

/// The report states, right after the heading of each group of two or more files,
/// the space that its copies take: the file size times the number of files after
/// the first.
pub proof fn lemma_report_states_each_saving(groups: Seq<GroupRecord>, i: int) -> (around: (Seq<char>, Seq<char>))
    requires
        0 <= i < groups.len(),
        sort_spec(GroupOrder::LargestFirst, groups)[i].files.len() >= 2,
    ensures
        ({
            let g = sort_spec(GroupOrder::LargestFirst, groups)[i];
            let saved = (g.size as nat) * ((g.files.len() - 1) as nat);
            report_text(groups) == around.0 + section_heading(i as nat, g) + "可节省空间: "@ + decimal(saved) + " ("@
                + format_bytes_spec(saved as u64) + ")\n"@ + around.1
        }),
{
    let s = sort_spec(GroupOrder::LargestFirst, groups);
    lemma_sort_permutes(GroupOrder::LargestFirst, groups);
    let g = s[i];
    let saved = (g.size as nat) * ((g.files.len() - 1) as nat);
    assert(saving(g) == saved);
    let rest = lemma_report_body_prefix(s, i + 1);
    let t = s.take(i + 1);
    assert(t.drop_last() =~= s.take(i));
    assert(t.last() == g);
    assert(report_body(t) == report_body(s.take(i)) + group_section(i as nat, g));
    let pre = "=== 重复文件报告 ===\n\n"@ + report_body(s.take(i));
    let post = "文件路径:\n"@ + file_lines(g.files) + "\n---\n\n"@ + rest + report_summary(s);
    assert(report_text(groups) =~= pre + section_heading(i as nat, g) + "可节省空间: "@ + decimal(saved) + " ("@
        + format_bytes_spec(saved as u64) + ")\n"@ + post);
    (pre, post)
}

} // verus!

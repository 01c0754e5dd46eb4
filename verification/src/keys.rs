//! Keys that identify a file (disk id and path) and a duplicate group (the sorted
//! keys of its files) in the list of results.
use vstd::prelude::*;
use crate::model::{DuplicateGroup, FileRecord, GroupRecord, IndexedFile, files_view};
use crate::text::{chars_of, compare_chars, lemma_seq_lt_irreflexive, lemma_seq_lt_total, lemma_seq_lt_transitive, push_char, push_str, seq_lt};

verus! {

broadcast use vstd::seq_lib::group_to_multiset_ensures;

/// The key of a file: its disk id, the unit separator U+001F, and its path.
pub open spec fn file_key_spec(f: FileRecord) -> Seq<char> {
    f.disk_id + seq!['\u{1f}'] + f.path
}

/// The key of a file: its disk id and its path, separated by U+001F.
pub fn file_key(file: &IndexedFile) -> (r: String)
    ensures
        r@ == file_key_spec(file@),
{
    let mut r = String::new();
    push_str(&mut r, file.disk_id.as_str());
    push_char(&mut r, '\u{1f}');
    push_str(&mut r, file.path.as_str());
    assert(r@ =~= file_key_spec(file@));
    r
}

/// Where a stable insertion places `x` among sorted keys.
pub open spec fn key_insert_pos(s: Seq<Seq<char>>, x: Seq<char>) -> nat
    decreases s.len(),
{
    if s.len() == 0 {
        0
    } else if seq_lt(x, s[0]) {
        0
    } else {
        1 + key_insert_pos(s.drop_first(), x)
    }
}

/// Keys sorted in lexicographic order.
pub open spec fn sort_keys(s: Seq<Seq<char>>) -> Seq<Seq<char>>
    decreases s.len(),
{
    if s.len() == 0 {
        s
    } else {
        let r = sort_keys(s.drop_last());
        r.insert(key_insert_pos(r, s.last()) as int, s.last())
    }
}

proof fn lemma_key_insert_pos_at(s: Seq<Seq<char>>, x: Seq<char>, j: int)
    requires
        0 <= j <= s.len(),
        forall|k: int| 0 <= k < j ==> !seq_lt(x, #[trigger] s[k]),
        j == s.len() || seq_lt(x, s[j]),
    ensures
        key_insert_pos(s, x) == j,
    decreases j,
{
    if j > 0 {
        assert(!seq_lt(x, s[0]));
        assert forall|k: int| 0 <= k < j - 1 implies !seq_lt(x, #[trigger] s.drop_first()[k]) by {
            assert(s.drop_first()[k] == s[k + 1]);
        }
        lemma_key_insert_pos_at(s.drop_first(), x, j - 1);
    }
}

/// The texts of a list of strings.
pub open spec fn texts(s: Seq<String>) -> Seq<Seq<char>> {
    s.map_values(|x: String| x@)
}

fn key_before(x: &Vec<char>, s: &String) -> (r: bool)
    ensures
        r == seq_lt(x@, s@),
{
    let sc = chars_of(s.as_str());
    compare_chars(x, &sc) == -1
}

/// Sorts keys in lexicographic order.
pub fn sort_key_list(keys: &Vec<String>) -> (r: Vec<String>)
    ensures
        texts(r@) == sort_keys(texts(keys@)),
{
    let ghost input = texts(keys@);
    let mut out: Vec<String> = Vec::new();
    let n = keys.len();
    for i in 0..n
        invariant
            n == keys@.len(),
            input == texts(keys@),
            texts(out@) == sort_keys(input.take(i as int)),
    {
        let x = keys[i].clone();
        let xc = chars_of(x.as_str());
        let ghost before = texts(out@);
        let mut j: usize = 0;
        while j < out.len() && !key_before(&xc, &out[j])
            invariant
                j <= out@.len(),
                before == texts(out@),
                xc@ == x@,
                forall|k: int| 0 <= k < j ==> !seq_lt(x@, #[trigger] before[k]),
            decreases out@.len() - j,
        {
            assert(before[j as int] == out@[j as int]@);
            j = j + 1;
        }
        proof {
            if j < out@.len() {
                assert(before[j as int] == out@[j as int]@);
            }
            lemma_key_insert_pos_at(before, x@, j as int);
            assert(input.take(i + 1).drop_last() =~= input.take(i as int));
            assert(input.take(i + 1).last() == x@);
        }
        out.insert(j, x);
        assert(texts(out@) =~= before.insert(j as int, input[i as int]));
    }
    assert(input.take(n as int) =~= input);
    out
}

/// Keys joined by the record separator U+001E.
pub open spec fn join_keys(s: Seq<Seq<char>>) -> Seq<char>
    decreases s.len(),
{
    if s.len() == 0 {
        Seq::empty()
    } else if s.len() == 1 {
        s[0]
    } else {
        join_keys(s.drop_last()) + seq!['\u{1e}'] + s.last()
    }
}

/// The key of each file.
pub open spec fn key_of() -> spec_fn(FileRecord) -> Seq<char> {
    |f: FileRecord| file_key_spec(f)
}

/// The key of a group: the keys of its files in lexicographic order, separated by
/// U+001E.
pub open spec fn group_key_spec(g: GroupRecord) -> Seq<char> {
    join_keys(sort_keys(g.files.map_values(key_of())))
}

/// The key of a group, which does not depend on the order of its files.
pub fn group_key(group: &DuplicateGroup) -> (r: String)
    ensures
        r@ == group_key_spec(group@),
{
    let ghost fk = files_view(group.files@).map_values(key_of());
    let mut keys: Vec<String> = Vec::new();
    let n = group.files.len();
    for i in 0..n
        invariant
            n == group.files@.len(),
            fk == files_view(group.files@).map_values(key_of()),
            texts(keys@) == fk.take(i as int),
    {
        let ghost before = texts(keys@);
        keys.push(file_key(&group.files[i]));
        assert(fk[i as int] == file_key_spec(group.files@[i as int]@));
        assert(texts(keys@) =~= before.push(fk[i as int]));
        assert(texts(keys@) =~= fk.take(i + 1));
    }
    assert(fk.take(n as int) =~= fk);
    let sorted = sort_key_list(&keys);
    let ghost sv = texts(sorted@);
    let mut r = String::new();
    let m = sorted.len();
    for i in 0..m
        invariant
            m == sorted@.len(),
            sv == texts(sorted@),
            r@ == join_keys(sv.take(i as int)),
    {
        if i > 0 {
            push_char(&mut r, '\u{1e}');
        }
        push_str(&mut r, sorted[i].as_str());
        assert(sv.take(i + 1).drop_last() =~= sv.take(i as int));
        assert(i == 0 ==> sv.take(i + 1) =~= seq![sv[0]]);
        assert(r@ =~= join_keys(sv.take(i + 1)));
    }
    assert(sv.take(m as int) =~= sv);
    r
}

// ---------------------------------------------------------------------------
// The key of a group does not depend on the order of its files
// ---------------------------------------------------------------------------

/// Keys in lexicographic order: no key precedes one listed before it.
pub open spec fn keys_sorted(s: Seq<Seq<char>>) -> bool {
    forall|i: int, j: int| 0 <= i < j < s.len() ==> !seq_lt(#[trigger] s[j], #[trigger] s[i])
}

proof fn lemma_key_insert_pos_props(s: Seq<Seq<char>>, x: Seq<char>)
    ensures
        key_insert_pos(s, x) <= s.len(),
        forall|k: int| 0 <= k < key_insert_pos(s, x) ==> !seq_lt(x, #[trigger] s[k]),
        key_insert_pos(s, x) < s.len() ==> seq_lt(x, s[key_insert_pos(s, x) as int]),
    decreases s.len(),
{
    if s.len() > 0 && !seq_lt(x, s[0]) {
        lemma_key_insert_pos_props(s.drop_first(), x);
        assert forall|k: int| 0 <= k < key_insert_pos(s, x) implies !seq_lt(x, #[trigger] s[k]) by {
            if k > 0 {
                assert(s[k] == s.drop_first()[k - 1]);
            }
        }
    }
}

/// Sorting yields keys in lexicographic order.
pub proof fn lemma_sort_keys_sorted(s: Seq<Seq<char>>)
    ensures
        keys_sorted(sort_keys(s)),
    decreases s.len(),
{
    if s.len() > 0 {
        let r = sort_keys(s.drop_last());
        let x = s.last();
        lemma_sort_keys_sorted(s.drop_last());
        lemma_key_insert_pos_props(r, x);
        let p = key_insert_pos(r, x) as int;
        let t = r.insert(p, x);
        assert forall|i: int, j: int| 0 <= i < j < t.len() implies !seq_lt(#[trigger] t[j], #[trigger] t[i]) by {
            if j < p {
                assert(t[i] == r[i] && t[j] == r[j]);
            } else if j == p {
                assert(t[i] == r[i]);
            } else if i == p {
                assert(t[j] == r[j - 1]);
                if seq_lt(r[j - 1], x) {
                    lemma_seq_lt_transitive(r[j - 1], x, r[p]);
                    if j - 1 == p {
                        lemma_seq_lt_irreflexive(r[p]);
                    }
                }
            } else if i < p {
                assert(t[i] == r[i] && t[j] == r[j - 1]);
            } else {
                assert(t[i] == r[i - 1] && t[j] == r[j - 1]);
            }
        }
    }
}

/// Sorting rearranges the keys: the same keys, as often.
pub proof fn lemma_sort_keys_permutes(s: Seq<Seq<char>>)
    ensures
        sort_keys(s).to_multiset() == s.to_multiset(),
    decreases s.len(),
{
    if s.len() > 0 {
        let r = sort_keys(s.drop_last());
        lemma_sort_keys_permutes(s.drop_last());
        lemma_key_insert_pos_props(r, s.last());
        assert(s.drop_last().push(s.last()) =~= s);
    }
}

/// Two sorted sequences of the same keys, each as often, are equal.
proof fn lemma_sorted_keys_unique(a: Seq<Seq<char>>, b: Seq<Seq<char>>)
    requires
        keys_sorted(a),
        keys_sorted(b),
        a.to_multiset() == b.to_multiset(),
    ensures
        a == b,
    decreases a.len(),
{
    assert(a.len() == a.to_multiset().len());
    assert(b.len() == b.to_multiset().len());
    if a.len() == 0 {
        assert(a =~= b);
    } else {
        assert(a.contains(a[0]));
        assert(a.to_multiset().count(a[0]) > 0);
        assert(b.contains(a[0]));
        let j = choose|j: int| 0 <= j < b.len() && b[j] == a[0];
        assert(b.contains(b[0]));
        assert(b.to_multiset().count(b[0]) > 0);
        assert(a.contains(b[0]));
        let i = choose|i: int| 0 <= i < a.len() && a[i] == b[0];
        if i > 0 {
            assert(!seq_lt(a[i], a[0]));
        } else {
            lemma_seq_lt_irreflexive(a[0]);
        }
        if j > 0 {
            assert(!seq_lt(b[j], b[0]));
        } else {
            lemma_seq_lt_irreflexive(b[0]);
        }
        lemma_seq_lt_total(a[0], b[0]);
        assert(a[0] == b[0]);
        assert(a.remove(0) =~= a.drop_first());
        assert(b.remove(0) =~= b.drop_first());
        assert(a.drop_first().to_multiset() == b.drop_first().to_multiset());
        assert(keys_sorted(a.drop_first())) by {
            assert forall|x: int, y: int| 0 <= x < y < a.drop_first().len() implies !seq_lt(
                #[trigger] a.drop_first()[y],
                #[trigger] a.drop_first()[x],
            ) by {
                assert(a.drop_first()[y] == a[y + 1] && a.drop_first()[x] == a[x + 1]);
            }
        }
        assert(keys_sorted(b.drop_first())) by {
            assert forall|x: int, y: int| 0 <= x < y < b.drop_first().len() implies !seq_lt(
                #[trigger] b.drop_first()[y],
                #[trigger] b.drop_first()[x],
            ) by {
                assert(b.drop_first()[y] == b[y + 1] && b.drop_first()[x] == b[x + 1]);
            }
        }
        lemma_sorted_keys_unique(a.drop_first(), b.drop_first());
        assert(a =~= seq![a[0]] + a.drop_first());
        assert(b =~= seq![b[0]] + b.drop_first());
    }
}

/// Rearranging files rearranges their keys.
proof fn lemma_keys_follow_files(s: Seq<FileRecord>, t: Seq<FileRecord>)
    requires
        s.to_multiset() == t.to_multiset(),
    ensures
        s.map_values(key_of()).to_multiset() == t.map_values(key_of()).to_multiset(),
    decreases s.len(),
{
    broadcast use vstd::multiset::group_multiset_axioms;

    assert(s.len() == s.to_multiset().len());
    assert(t.len() == t.to_multiset().len());
    if s.len() == 0 {
        assert(s.map_values(key_of()) =~= t.map_values(key_of()));
    } else {
        let x = s.last();
        let s2 = s.drop_last();
        assert(s.contains(x));
        assert(s.to_multiset().count(x) > 0);
        assert(t.contains(x));
        let j = choose|j: int| 0 <= j < t.len() && t[j] == x;
        let t2 = t.remove(j);
        assert(s2.push(x) =~= s);
        assert(s.to_multiset() == s2.to_multiset().insert(x));
        assert(t2.to_multiset() == t.to_multiset().remove(x));
        assert(s2.to_multiset() =~= s2.to_multiset().insert(x).remove(x));
        lemma_keys_follow_files(s2, t2);
        assert(s.map_values(key_of()) =~= s2.map_values(key_of()).push(key_of()(x)));
        assert(t.map_values(key_of()) =~= t2.map_values(key_of()).insert(j, key_of()(x)));
    }
}

/// The key of a group does not depend on the order of its files: groups of the
/// same files, each as often, have the same key.
pub proof fn lemma_group_key_ignores_file_order(a: GroupRecord, b: GroupRecord)
    requires
        a.files.to_multiset() == b.files.to_multiset(),
    ensures
        group_key_spec(a) == group_key_spec(b),
{
    let ka = a.files.map_values(key_of());
    let kb = b.files.map_values(key_of());
    lemma_keys_follow_files(a.files, b.files);
    lemma_sort_keys_sorted(ka);
    lemma_sort_keys_sorted(kb);
    lemma_sort_keys_permutes(ka);
    lemma_sort_keys_permutes(kb);
    lemma_sorted_keys_unique(sort_keys(ka), sort_keys(kb));
}

} // verus!

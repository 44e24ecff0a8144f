use vstd::prelude::*;

use crate::entry::{DirectoryEntry, DisplayOptions, SortOrder};

verus! {

/// A name that starts with a dot is hidden.
pub open spec fn is_hidden(name: Seq<char>) -> bool {
    name.len() > 0 && name[0] == '.'
}

/// The entries that are shown at all, in their original order.
pub open spec fn visible(entries: Seq<DirectoryEntry>, show_hidden: bool) -> Seq<DirectoryEntry> {
    if show_hidden {
        entries
    } else {
        entries.filter(|e: DirectoryEntry| !is_hidden(e.display_name@))
    }
}

/// Lexicographic order on character sequences by code point. UTF-8 keeps
/// the order of code points, so this is also the order of the encoded bytes.
pub open spec fn chars_lt(a: Seq<char>, b: Seq<char>) -> bool
    decreases a.len(),
{
    if a.len() == 0 {
        b.len() > 0
    } else if b.len() == 0 {
        false
    } else if a[0] != b[0] {
        (a[0] as u32) < (b[0] as u32)
    } else {
        chars_lt(a.drop_first(), b.drop_first())
    }
}

/// The first index at or after `j` whose entry's path sorts strictly after
/// `key`; the length of `s` when there is none.
pub open spec fn first_after(key: Seq<char>, s: Seq<DirectoryEntry>, j: int) -> int
    decreases s.len() - j,
{
    if j >= s.len() {
        s.len() as int
    } else if chars_lt(key, s[j].full_path@) {
        j
    } else {
        first_after(key, s, j + 1)
    }
}

/// `s` with `e` put in before the first entry whose path sorts after its own.
pub open spec fn insert_by_path(s: Seq<DirectoryEntry>, e: DirectoryEntry) -> Seq<
    DirectoryEntry,
> {
    s.insert(first_after(e.full_path@, s, 0), e)
}

/// Stable sort by full path: each entry in turn goes in after those whose
/// paths do not sort after its own.
pub open spec fn sort_by_path(s: Seq<DirectoryEntry>) -> Seq<DirectoryEntry>
    decreases s.len(),
{
    if s.len() == 0 {
        s
    } else {
        insert_by_path(sort_by_path(s.drop_last()), s.last())
    }
}

/// The sequence of entries to render for the given options.
pub open spec fn selection(entries: Seq<DirectoryEntry>, options: DisplayOptions) -> Seq<
    DirectoryEntry,
> {
    let v = visible(entries, options.show_hidden);
    match options.sort {
        SortOrder::Natural => v,
        SortOrder::Lexicographic => sort_by_path(v),
        SortOrder::LexicographicReversed => sort_by_path(v).reverse(),
    }
}

/// Ascending by full path, equal paths allowed.
pub open spec fn sorted_by_path(s: Seq<DirectoryEntry>) -> bool {
    forall|i: int, j: int|
        0 <= i < j < s.len() ==> !chars_lt(#[trigger] s[j].full_path@, #[trigger] s[i].full_path@)
}

proof fn lemma_chars_lt_asymmetric(a: Seq<char>, b: Seq<char>)
    ensures
        chars_lt(a, b) ==> !chars_lt(b, a),
    decreases a.len(),
{
    if a.len() > 0 && b.len() > 0 && a[0] == b[0] {
        lemma_chars_lt_asymmetric(a.drop_first(), b.drop_first());
    }
}

proof fn lemma_chars_lt_transitive(a: Seq<char>, b: Seq<char>, c: Seq<char>)
    requires
        chars_lt(a, b),
        chars_lt(b, c),
    ensures
        chars_lt(a, c),
    decreases a.len(),
{
    if a.len() > 0 && b.len() > 0 && c.len() > 0 && a[0] == b[0] && b[0] == c[0] {
        lemma_chars_lt_transitive(a.drop_first(), b.drop_first(), c.drop_first());
    }
}

proof fn lemma_first_after(key: Seq<char>, s: Seq<DirectoryEntry>, j: int)
    requires
        0 <= j <= s.len(),
    ensures
        j <= first_after(key, s, j) <= s.len(),
        forall|i: int| j <= i < first_after(key, s, j) ==> !chars_lt(key, #[trigger] s[i].full_path@),
        first_after(key, s, j) < s.len() ==> chars_lt(key, s[first_after(key, s, j)].full_path@),
    decreases s.len() - j,
{
    if j < s.len() && !chars_lt(key, s[j].full_path@) {
        lemma_first_after(key, s, j + 1);
    }
}

proof fn lemma_insert_keeps_sorted(s: Seq<DirectoryEntry>, e: DirectoryEntry)
    requires
        sorted_by_path(s),
    ensures
        sorted_by_path(insert_by_path(s, e)),
{
    let key = e.full_path@;
    let k = first_after(key, s, 0);
    lemma_first_after(key, s, 0);
    let t = insert_by_path(s, e);
    assert forall|a: int, b: int| 0 <= a < b < t.len() implies !chars_lt(
        #[trigger] t[b].full_path@,
        #[trigger] t[a].full_path@,
    ) by {
        if b < k {
        } else if b == k {
            lemma_chars_lt_asymmetric(t[a].full_path@, key);
        } else if a < k {
        } else if a == k {
            lemma_chars_lt_asymmetric(key, s[k].full_path@);
            if chars_lt(s[b - 1].full_path@, key) {
                lemma_chars_lt_transitive(s[b - 1].full_path@, key, s[k].full_path@);
            }
        } else {
        }
    }
}

/// Sorting by path orders the entries ascending by full path.
pub proof fn lemma_sort_sorted(s: Seq<DirectoryEntry>)
    ensures
        sorted_by_path(sort_by_path(s)),
    decreases s.len(),
{
    if s.len() > 0 {
        lemma_sort_sorted(s.drop_last());
        lemma_insert_keeps_sorted(sort_by_path(s.drop_last()), s.last());
    }
}

/// Sorting by path neither adds nor drops nor duplicates an entry.
pub proof fn lemma_sort_permutes(s: Seq<DirectoryEntry>)
    ensures
        sort_by_path(s).to_multiset() == s.to_multiset(),
    decreases s.len(),
{
    broadcast use vstd::seq_lib::group_to_multiset_ensures;

    if s.len() > 0 {
        let t = sort_by_path(s.drop_last());
        lemma_sort_permutes(s.drop_last());
        lemma_first_after(s.last().full_path@, t, 0);
        vstd::seq_lib::to_multiset_insert(t, first_after(s.last().full_path@, t, 0), s.last());
        assert(s.drop_last().push(s.last()) =~= s);
    }
}

/// The selection holds the shown entries and nothing else, whatever the order.
pub proof fn lemma_selection_permutes(entries: Seq<DirectoryEntry>, options: DisplayOptions)
    ensures
        selection(entries, options).to_multiset() == visible(
            entries,
            options.show_hidden,
        ).to_multiset(),
{
    let v = visible(entries, options.show_hidden);
    lemma_sort_permutes(v);
    sort_by_path(v).lemma_reverse_to_multiset();
}

/// Without `show_hidden` no selected entry has a name that starts with a dot;
/// with it, the selection is exactly the given entries, in some order.
pub proof fn lemma_select_hidden(entries: Seq<DirectoryEntry>, options: DisplayOptions)
    ensures
        !options.show_hidden ==> forall|i: int|
            0 <= i < selection(entries, options).len() ==> !is_hidden(
                #[trigger] selection(entries, options)[i].display_name@,
            ),
        options.show_hidden ==> selection(entries, options).to_multiset()
            == entries.to_multiset(),
{
    broadcast use vstd::seq_lib::group_to_multiset_ensures;

    lemma_selection_permutes(entries, options);
    if !options.show_hidden {
        let pred = |e: DirectoryEntry| !is_hidden(e.display_name@);
        let v = visible(entries, false);
        let sel = selection(entries, options);
        broadcast use vstd::seq_lib::group_filter_ensures;
        assert forall|i: int| 0 <= i < sel.len() implies !is_hidden(
            #[trigger] sel[i].display_name@,
        ) by {
            assert(sel.to_multiset().count(sel[i]) > 0);
            assert(v.contains(sel[i]));
        }
    }
}

/// Every selected entry is one of the given entries.
pub proof fn lemma_selection_from_entries(entries: Seq<DirectoryEntry>, options: DisplayOptions)
    ensures
        forall|i: int|
            0 <= i < selection(entries, options).len() ==> entries.contains(
                #[trigger] selection(entries, options)[i],
            ),
{
    broadcast use vstd::seq_lib::group_to_multiset_ensures;

    lemma_selection_permutes(entries, options);
    let sel = selection(entries, options);
    let v = visible(entries, options.show_hidden);
    assert forall|i: int| 0 <= i < sel.len() implies entries.contains(#[trigger] sel[i]) by {
        assert(sel.to_multiset().count(sel[i]) > 0);
        assert(v.contains(sel[i]));
        if !options.show_hidden {
            entries.lemma_filter_contains_rev(|e: DirectoryEntry| !is_hidden(e.display_name@), sel[i]);
        }
    }
}

/// Sorting in reverse gives the ascending order, reversed.
pub proof fn lemma_reverse_of_sorted(entries: Seq<DirectoryEntry>, options: DisplayOptions)
    requires
        options.sort == SortOrder::Lexicographic,
    ensures
        selection(entries, DisplayOptions { sort: SortOrder::LexicographicReversed, ..options })
            == selection(entries, options).reverse(),
        selection(entries, options) == selection(
            entries,
            DisplayOptions { sort: SortOrder::LexicographicReversed, ..options },
        ).reverse(),
{
    let s = sort_by_path(visible(entries, options.show_hidden));
    assert(s.reverse().reverse() =~= s);
}

/// Two entries that agree in every field's value.
pub open spec fn same_entry(a: DirectoryEntry, b: DirectoryEntry) -> bool {
    &&& a.display_name@ == b.display_name@
    &&& a.full_path@ == b.full_path@
    &&& a.kind == b.kind
    &&& a.size_bytes == b.size_bytes
    &&& a.is_executable == b.is_executable
}

/// Two listings that agree entry for entry.
pub open spec fn same_snapshot(a: Seq<DirectoryEntry>, b: Seq<DirectoryEntry>) -> bool {
    a.len() == b.len() && forall|i: int| 0 <= i < a.len() ==> same_entry(#[trigger] a[i], b[i])
}

proof fn lemma_visible_same(a: Seq<DirectoryEntry>, b: Seq<DirectoryEntry>, show_hidden: bool)
    requires
        same_snapshot(a, b),
    ensures
        same_snapshot(visible(a, show_hidden), visible(b, show_hidden)),
    decreases a.len(),
{
    if !show_hidden && a.len() > 0 {
        let pred = |e: DirectoryEntry| !is_hidden(e.display_name@);
        let (da, db) = (a.drop_last(), b.drop_last());
        assert(same_entry(a[a.len() - 1], b[b.len() - 1]));
        lemma_visible_same(da, db, show_hidden);
        assert(da.push(a.last()) =~= a);
        assert(db.push(b.last()) =~= b);
        da.lemma_filter_push(a.last(), pred);
        db.lemma_filter_push(b.last(), pred);
        let (fa, fb) = (da.filter(pred), db.filter(pred));
        if pred(a.last()) {
            assert forall|i: int| 0 <= i < fa.push(a.last()).len() implies same_entry(
                #[trigger] fa.push(a.last())[i],
                fb.push(b.last())[i],
            ) by {
                if i < fa.len() {
                    assert(same_entry(fa[i], fb[i]));
                }
            }
        }
    }
}

proof fn lemma_first_after_same(key: Seq<char>, a: Seq<DirectoryEntry>, b: Seq<DirectoryEntry>, j: int)
    requires
        same_snapshot(a, b),
        0 <= j,
    ensures
        first_after(key, a, j) == first_after(key, b, j),
    decreases a.len() - j,
{
    if j < a.len() {
        assert(same_entry(a[j], b[j]));
        lemma_first_after_same(key, a, b, j + 1);
    }
}

proof fn lemma_sort_same(a: Seq<DirectoryEntry>, b: Seq<DirectoryEntry>)
    requires
        same_snapshot(a, b),
    ensures
        same_snapshot(sort_by_path(a), sort_by_path(b)),
    decreases a.len(),
{
    if a.len() > 0 {
        let (da, db) = (a.drop_last(), b.drop_last());
        assert forall|i: int| 0 <= i < da.len() implies same_entry(#[trigger] da[i], db[i]) by {
            assert(same_entry(a[i], b[i]));
        }
        lemma_sort_same(da, db);
        let (ta, tb) = (sort_by_path(da), sort_by_path(db));
        assert(same_entry(a[a.len() - 1], b[b.len() - 1]));
        lemma_first_after_same(a.last().full_path@, ta, tb, 0);
        lemma_first_after(a.last().full_path@, ta, 0);
        let k = first_after(a.last().full_path@, ta, 0);
        assert forall|i: int| 0 <= i < ta.insert(k, a.last()).len() implies same_entry(
            #[trigger] ta.insert(k, a.last())[i],
            tb.insert(k, b.last())[i],
        ) by {
            if i < k {
                assert(same_entry(ta[i], tb[i]));
            } else if i > k {
                assert(same_entry(ta[i - 1], tb[i - 1]));
            }
        }
    }
}

/// The selection depends on the entries' values alone.
pub proof fn lemma_selection_same(a: Seq<DirectoryEntry>, b: Seq<DirectoryEntry>, options: DisplayOptions)
    requires
        same_snapshot(a, b),
    ensures
        same_snapshot(selection(a, options), selection(b, options)),
{
    let (va, vb) = (visible(a, options.show_hidden), visible(b, options.show_hidden));
    lemma_visible_same(a, b, options.show_hidden);
    lemma_sort_same(va, vb);
    let (sa, sb) = (sort_by_path(va), sort_by_path(vb));
    assert forall|i: int| 0 <= i < sa.reverse().len() implies same_entry(
        #[trigger] sa.reverse()[i],
        sb.reverse()[i],
    ) by {
        assert(same_entry(sa[sa.len() - 1 - i], sb[sb.len() - 1 - i]));
    }
}

/// Whether `a` sorts strictly before `b`.
fn path_lt(a: &String, b: &String) -> (r: bool)
    ensures
        r == chars_lt(a@, b@),
{
    let na = a.unicode_len();
    let nb = b.unicode_len();
    let mut i: usize = 0;
    assert(a@.subrange(0, na as int) =~= a@);
    assert(b@.subrange(0, nb as int) =~= b@);
    while i < na && i < nb
        invariant
            na == a@.len(),
            nb == b@.len(),
            i <= na,
            i <= nb,
            chars_lt(a@, b@) == chars_lt(a@.subrange(i as int, na as int), b@.subrange(i as int, nb as int)),
        decreases na - i,
    {
        let ca = a.as_str().get_char(i);
        let cb = b.as_str().get_char(i);
        if ca != cb {
            return (ca as u32) < (cb as u32);
        }
        assert(a@.subrange(i as int, na as int).drop_first() =~= a@.subrange(i + 1, na as int));
        assert(b@.subrange(i as int, nb as int).drop_first() =~= b@.subrange(i + 1, nb as int));
        i = i + 1;
    }
    i == na && i < nb
}

/// Where `key` goes into `s`: before the first entry whose path sorts after it.
fn insertion_point(s: &Vec<DirectoryEntry>, key: &String) -> (r: usize)
    ensures
        r as int == first_after(key@, s@, 0),
{
    let mut j: usize = 0;
    while j < s.len()
        invariant
            j <= s@.len(),
            first_after(key@, s@, 0) == first_after(key@, s@, j as int),
        decreases s@.len() - j,
    {
        if path_lt(key, &s[j].full_path) {
            return j;
        }
        j = j + 1;
    }
    j
}

fn drop_hidden(entries: Vec<DirectoryEntry>) -> (r: Vec<DirectoryEntry>)
    ensures
        r@ == visible(entries@, false),
{
    let ghost orig = entries@;
    let mut rest = entries;
    let mut out: Vec<DirectoryEntry> = Vec::new();
    let n = rest.len();
    let mut i: usize = 0;
    while i < n
        invariant
            n == orig.len(),
            i <= n,
            rest@ == orig.subrange(i as int, n as int),
            out@ == orig.subrange(0, i as int).filter(
                |e: DirectoryEntry| !is_hidden(e.display_name@),
            ),
        decreases n - i,
    {
        let e = rest.remove(0);
        proof {
            assert(orig.subrange(0, i + 1) =~= orig.subrange(0, i as int).push(e));
            orig.subrange(0, i as int).lemma_filter_push(
                e,
                |e: DirectoryEntry| !is_hidden(e.display_name@),
            );
            assert(rest@ =~= orig.subrange(i + 1, n as int));
        }
        let hidden = e.display_name.unicode_len() > 0 && e.display_name.as_str().get_char(0)
            == '.';
        if !hidden {
            out.push(e);
        }
        i = i + 1;
    }
    assert(orig.subrange(0, n as int) =~= orig);
    out
}

fn sort_entries(entries: Vec<DirectoryEntry>) -> (r: Vec<DirectoryEntry>)
    ensures
        r@ == sort_by_path(entries@),
{
    let ghost orig = entries@;
    let mut rest = entries;
    let mut out: Vec<DirectoryEntry> = Vec::new();
    let n = rest.len();
    let mut i: usize = 0;
    assert(orig.subrange(0, 0) =~= Seq::<DirectoryEntry>::empty());
    while i < n
        invariant
            n == orig.len(),
            i <= n,
            rest@ == orig.subrange(i as int, n as int),
            out@ == sort_by_path(orig.subrange(0, i as int)),
        decreases n - i,
    {
        let e = rest.remove(0);
        proof {
            assert(orig.subrange(0, i + 1).drop_last() =~= orig.subrange(0, i as int));
            assert(rest@ =~= orig.subrange(i + 1, n as int));
            lemma_first_after(e.full_path@, out@, 0);
        }
        let j = insertion_point(&out, &e.full_path);
        out.insert(j, e);
        i = i + 1;
    }
    assert(orig.subrange(0, n as int) =~= orig);
    out
}

fn reversed(entries: Vec<DirectoryEntry>) -> (r: Vec<DirectoryEntry>)
    ensures
        r@ == entries@.reverse(),
{
    let ghost orig = entries@;
    let mut rest = entries;
    let mut out: Vec<DirectoryEntry> = Vec::new();
    let n = rest.len();
    while rest.len() > 0
        invariant
            n == orig.len(),
            rest@.len() <= n,
            rest@ == orig.subrange(0, rest@.len() as int),
            out@ =~= Seq::new((n - rest@.len()) as nat, |k: int| orig[n - 1 - k]),
        decreases rest@.len(),
    {
        let e = rest.pop().unwrap();
        out.push(e);
        assert(rest@ =~= orig.subrange(0, rest@.len() as int));
        assert(out@ =~= Seq::new((n - rest@.len()) as nat, |k: int| orig[n - 1 - k]));
    }
    assert(out@ =~= orig.reverse());
    out
}

/// The entries to render, in order: hidden names are dropped unless
/// `show_hidden`; then the natural order is kept, or the entries are sorted
/// by full path, ascending or descending.
pub fn select(entries: Vec<DirectoryEntry>, options: &DisplayOptions) -> (r: Vec<DirectoryEntry>)
    ensures
        r@ == selection(entries@, *options),
{
    let v = if options.show_hidden {
        entries
    } else {
        drop_hidden(entries)
    };
    match options.sort {
        SortOrder::Natural => v,
        SortOrder::Lexicographic => sort_entries(v),
        SortOrder::LexicographicReversed => reversed(sort_entries(v)),
    }
}

} // verus!

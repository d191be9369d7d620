//! The wiki's `_index.md`: which articles it lists, in which order, and
//! its markdown text.

use vstd::prelude::*;
use crate::order::{before, chars_before, lemma_before_irreflexive, lemma_before_total, lemma_before_transitive};
use crate::text::{capitalize, capitalized, chars_of, ends_with_chars, has_suffix, starts_with_chars, string_of};
use vstd::string::StringExecFns;

verus! {

/// One article of the index: its type (the heading it is listed under),
/// its path relative to the wiki, and its title.
pub struct IndexEntry {
    pub article_type: String,
    pub path: String,
    pub title: String,
}

/// An index entry as text: `(article type, path, title)`.
pub type EntryText = (Seq<char>, Seq<char>, Seq<char>);

impl View for IndexEntry {
    type V = EntryText;

    open spec fn view(&self) -> EntryText {
        (self.article_type@, self.path@, self.title@)
    }
}

/// The texts of a sequence of entries.
pub open spec fn entry_views(s: Seq<IndexEntry>) -> Seq<EntryText> {
    Seq::new(s.len(), |i: int| s[i]@)
}

/// `a` is listed before `b`: by article type, then by title.
pub open spec fn entry_before(a: EntryText, b: EntryText) -> bool {
    chars_before(a.0, b.0) || (a.0 == b.0 && chars_before(a.2, b.2))
}

/// `a` and `b` have the same article type and the same title.
pub open spec fn same_key(a: EntryText, b: EntryText) -> bool {
    a.0 == b.0 && a.2 == b.2
}

/// The entries of `s` with the key of `k`, in their order in `s`.
pub open spec fn with_key(s: Seq<EntryText>, k: EntryText) -> Seq<EntryText> {
    s.filter(key_is(k))
}

/// The test "has the key of `k`".
pub open spec fn key_is(k: EntryText) -> spec_fn(EntryText) -> bool {
    |x: EntryText| same_key(x, k)
}

/// No entry of `s` is listed before an entry that precedes it.
pub open spec fn sorted_by_key(s: Seq<EntryText>) -> bool {
    forall|i: int, j: int| 0 <= i < j < s.len() ==> !entry_before(#[trigger] s[j], #[trigger] s[i])
}

/// `r` is `s` sorted by key, stably: it is sorted, and for every key it
/// holds the entries of `s` with that key, in the order they have in `s`.
pub open spec fn stable_sort_of(r: Seq<EntryText>, s: Seq<EntryText>) -> bool {
    &&& sorted_by_key(r)
    &&& forall|k: EntryText| #[trigger] with_key(r, k) == with_key(s, k)
}

/// Of two entries with different keys, exactly one is listed first; none
/// is listed before an entry with its own key.
pub proof fn lemma_entry_total(a: EntryText, b: EntryText)
    ensures
        !same_key(a, b) ==> (entry_before(a, b) || entry_before(b, a)),
        !(entry_before(a, b) && entry_before(b, a)),
        same_key(a, b) ==> !entry_before(a, b),
{
    lemma_before_total(a.0, b.0);
    lemma_before_total(a.2, b.2);
    lemma_before_irreflexive(a.0);
    lemma_before_irreflexive(a.2);
}

/// The listing order is transitive.
pub proof fn lemma_entry_transitive(a: EntryText, b: EntryText, c: EntryText)
    requires
        entry_before(a, b),
        entry_before(b, c),
    ensures
        entry_before(a, c),
{
    if chars_before(a.0, b.0) && chars_before(b.0, c.0) {
        lemma_before_transitive(a.0, b.0, c.0);
    } else if chars_before(a.0, b.0) {
    } else if chars_before(b.0, c.0) {
    } else {
        lemma_before_transitive(a.2, b.2, c.2);
    }
}

/// Whether `a` is listed before `b`.
pub fn is_listed_before(a: &IndexEntry, b: &IndexEntry) -> (r: bool)
    ensures
        r == entry_before(a@, b@),
{
    let at = chars_of(a.article_type.as_str());
    let bt = chars_of(b.article_type.as_str());
    if before(at.as_slice(), bt.as_slice()) {
        return true;
    }
    if before(bt.as_slice(), at.as_slice()) {
        proof {
            lemma_before_total(a.article_type@, b.article_type@);
        }
        return false;
    }
    proof {
        lemma_before_total(a.article_type@, b.article_type@);
    }
    let an = chars_of(a.title.as_str());
    let bn = chars_of(b.title.as_str());
    before(an.as_slice(), bn.as_slice())
}

/// Inserting `x` after the entries not listed after it, and before the
/// first entry listed after it, keeps a sorted sequence sorted and appends
/// `x` to the entries with its key.
pub proof fn lemma_insert_sorted(s: Seq<EntryText>, p: int, x: EntryText)
    requires
        sorted_by_key(s),
        0 <= p <= s.len(),
        forall|j: int| 0 <= j < p ==> !entry_before(x, #[trigger] s[j]),
        p == s.len() || entry_before(x, s[p]),
    ensures
        sorted_by_key(s.insert(p, x)),
        forall|k: EntryText|
            #[trigger] with_key(s.insert(p, x), k) == if same_key(x, k) {
                with_key(s, k).push(x)
            } else {
                with_key(s, k)
            },
{
    let t = s.insert(p, x);
    assert forall|j: int| p <= j < s.len() implies entry_before(x, #[trigger] s[j]) by {
        if j > p {
            lemma_entry_total(s[p], s[j]);
            if entry_before(s[p], s[j]) {
                lemma_entry_transitive(x, s[p], s[j]);
            }
        }
    }
    assert forall|i: int, j: int| 0 <= i < j < t.len() implies !entry_before(
        #[trigger] t[j],
        #[trigger] t[i],
    ) by {
        if j < p {
            assert(t[i] == s[i] && t[j] == s[j]);
        } else if j == p {
            assert(t[i] == s[i]);
            lemma_entry_total(x, s[i]);
        } else if i < p {
            assert(t[i] == s[i] && t[j] == s[j - 1]);
            if entry_before(s[j - 1], s[i]) {
                lemma_entry_total(x, s[i]);
                lemma_entry_transitive(x, s[j - 1], s[i]);
            }
        } else if i == p {
            assert(t[j] == s[j - 1]);
            lemma_entry_total(x, s[j - 1]);
        } else {
            assert(t[i] == s[i - 1] && t[j] == s[j - 1]);
        }
    }
    let a = s.subrange(0, p);
    let b = s.subrange(p, s.len() as int);
    assert(s =~= a + b);
    assert forall|k: EntryText| #[trigger] with_key(t, k) == if same_key(x, k) {
        with_key(s, k).push(x)
    } else {
        with_key(s, k)
    } by {
        let pred = key_is(k);
        Seq::filter_distributes_over_add(a.push(x), b, pred);
        Seq::filter_distributes_over_add(a, b, pred);
        a.lemma_filter_push(x, pred);
        if same_key(x, k) {
            assert forall|j: int| 0 <= j < b.len() implies !pred(#[trigger] b[j]) by {
                assert(b[j] == s[p + j]);
                lemma_entry_total(x, b[j]);
            }
            assert(b.all(|y: EntryText| !pred(y))) by {
                assert forall|j: int| 0 <= j < b.len() implies (|y: EntryText| !pred(y))(#[trigger] b[j]) by {
                    assert(b[j] == s[p + j]);
                    lemma_entry_total(x, b[j]);
                }
            }
            b.lemma_all_neg_filter_empty(pred);
            assert(b.filter(pred) =~= Seq::<EntryText>::empty());
            assert(with_key(t, k) =~= with_key(s, k).push(x));
        } else {
            assert(with_key(t, k) =~= with_key(s, k));
        }
    }
}

/// `entries` sorted by article type, then by title; entries with the same
/// type and title keep their order (as `sort_by` does).
pub fn sort_entries(entries: Vec<IndexEntry>) -> (r: Vec<IndexEntry>)
    ensures
        stable_sort_of(entry_views(r@), entry_views(entries@)),
        entry_views(r@).to_multiset() == entry_views(entries@).to_multiset(),
{
    let ghost input = entry_views(entries@);
    let mut rest = entries;
    let mut r: Vec<IndexEntry> = Vec::new();
    let ghost mut done: int = 0;
    proof {
        assert(entry_views(rest@) =~= input.skip(0));
        assert forall|k: EntryText| #[trigger] with_key(entry_views(r@), k) == with_key(input.take(0), k) by {
            assert(entry_views(r@) =~= input.take(0));
        }
        assert(entry_views(r@) =~= input.take(0));
    }
    while rest.len() > 0
        invariant
            0 <= done <= input.len(),
            entry_views(rest@) == input.skip(done),
            sorted_by_key(entry_views(r@)),
            forall|k: EntryText| #[trigger] with_key(entry_views(r@), k) == with_key(input.take(done), k),
            entry_views(r@).to_multiset() == input.take(done).to_multiset(),
        decreases rest@.len(),
    {
        let ghost rv = entry_views(r@);
        let ghost before_rest = rest@;
        assert(entry_views(before_rest).len() == input.len() - done);
        assert(input.skip(done)[0] == input[done]);
        assert(before_rest[0]@ == entry_views(before_rest)[0]);
        let e = rest.remove(0);
        assert(rest@ == before_rest.remove(0));
        assert forall|j: int| 0 <= j < entry_views(rest@).len() implies #[trigger] entry_views(rest@)[j]
            == input.skip(done + 1)[j] by {
            assert(rest@[j] == before_rest[j + 1]);
            assert(entry_views(before_rest)[j + 1] == input.skip(done)[j + 1]);
        }
        assert(entry_views(rest@) =~= input.skip(done + 1));
        let mut p: usize = 0;
        while p < r.len() && !is_listed_before(&e, &r[p])
            invariant
                rv == entry_views(r@),
                p <= r@.len(),
                forall|j: int| 0 <= j < p ==> !entry_before(e@, #[trigger] rv[j]),
            decreases r@.len() - p,
        {
            p = p + 1;
        }
        proof {
            lemma_insert_sorted(rv, p as int, e@);
            assert(input.take(done + 1) =~= input.take(done).push(e@));
            assert forall|k: EntryText| #[trigger] with_key(input.take(done + 1), k) == if same_key(e@, k) {
                with_key(input.take(done), k).push(e@)
            } else {
                with_key(input.take(done), k)
            } by {
                input.take(done).lemma_filter_push(e@, key_is(k));
            }
        }
        r.insert(p, e);
        proof {
            assert(entry_views(r@) =~= rv.insert(p as int, e@));
            vstd::seq_lib::to_multiset_insert(rv, p as int, e@);
            vstd::seq_lib::to_multiset_build(input.take(done), e@);
            done = done + 1;
        }
    }
    proof {
        assert(input.take(done) =~= input);
    }
    r
}

/// The suffix `".md"` of markdown file names.
pub open spec fn md_suffix() -> Seq<char> {
    seq!['.', 'm', 'd']
}

/// `path` without its trailing `".md"` suffixes (`trim_end_matches(".md")`).
pub open spec fn link_name(path: Seq<char>) -> Seq<char>
    decreases path.len(),
{
    if has_suffix(path, md_suffix()) {
        link_name(path.take(path.len() - 3))
    } else {
        path
    }
}

/// The wiki link target of an article path: the path without `".md"`.
pub fn link_target(path: &str) -> (r: String)
    ensures
        r@ == link_name(path@),
{
    let mut v = chars_of(path);
    let md: Vec<char> = vec!['.', 'm', 'd'];
    assert(md@ =~= md_suffix());
    while ends_with_chars(v.as_slice(), md.as_slice())
        invariant
            md@ == md_suffix(),
            link_name(path@) == link_name(v@),
        decreases v@.len(),
    {
        let n = v.len();
        v.truncate(n - 3);
    }
    string_of(v.as_slice())
}

/// The index lines listing `es`, under a heading each time the article
/// type differs from the previous one; `current` is the type listed just
/// before `es`.
pub open spec fn index_lines(es: Seq<EntryText>, current: Seq<char>) -> Seq<char>
    decreases es.len(),
{
    if es.len() == 0 {
        seq![]
    } else {
        let e = es[0];
        let heading = if e.0 != current {
            "## "@ + capitalized(e.0) + "\n\n"@
        } else {
            seq![]
        };
        heading + "- [["@ + link_name(e.1) + "|"@ + e.2 + "]]\n"@ + index_lines(es.drop_first(), e.0)
    }
}

/// The text of `_index.md` listing `es` in order.
pub open spec fn index_text(es: Seq<EntryText>) -> Seq<char> {
    "# Wiki Index\n\n"@ + index_lines(es, seq![]) + if es.len() == 0 {
        "_No articles yet. Wiki needs compilation._\n"@
    } else {
        seq![]
    }
}

/// The markdown text of the wiki index listing `entries` in the order given.
pub fn render_index(entries: &Vec<IndexEntry>) -> (r: String)
    ensures
        r@ == index_text(entry_views(entries@)),
{
    let ghost all = entry_views(entries@);
    let mut r = String::from_str("# Wiki Index\n\n");
    let mut current = String::new();
    let mut i: usize = 0;
    proof {
        assert(all.skip(0) =~= all);
    }
    while i < entries.len()
        invariant
            all == entry_views(entries@),
            i <= entries@.len(),
            "# Wiki Index\n\n"@ + index_lines(all, seq![]) == r@ + index_lines(all.skip(i as int), current@),
        decreases entries@.len() - i,
    {
        let e = &entries[i];
        let ghost rest = all.skip(i as int);
        let ghost before = r@;
        let ghost cur0 = current@;
        assert(rest[0] == e@);
        assert(rest.drop_first() =~= all.skip(i + 1));
        if !(e.article_type == current) {
            current = e.article_type.clone();
            r.append("## ");
            let heading = capitalize(current.as_str());
            r.append(heading.as_str());
            r.append("\n\n");
        }
        r.append("- [[");
        let target = link_target(e.path.as_str());
        r.append(target.as_str());
        r.append("|");
        r.append(e.title.as_str());
        r.append("]]\n");
        assert(current@ == e@.0);
        assert(r@ + index_lines(all.skip(i + 1), current@) =~= before + index_lines(rest, cur0));
        i = i + 1;
    }
    proof {
        assert(all.skip(entries@.len() as int) =~= Seq::<EntryText>::empty());
    }
    if entries.len() == 0 {
        r.append("_No articles yet. Wiki needs compilation._\n");
    }
    r
}

} // verus!

verus! {

/// The text of an optional string, or `default` when there is none.
pub open spec fn text_or(s: Option<String>, default: Seq<char>) -> Seq<char> {
    match s {
        Some(t) => t@,
        None => default,
    }
}

/// The path of the index file itself, `_index.md`.
pub open spec fn index_file_path() -> Seq<char> {
    seq!['_', 'i', 'n', 'd', 'e', 'x', '.', 'm', 'd']
}

/// The index entry of the article at `path`, given the title and type its
/// front matter declares: the title defaults to the path and the type to
/// `"unknown"`. Every article is listed but the index file `_index.md`.
pub fn index_entry(path: &str, title: Option<String>, article_type: Option<String>) -> (r: Option<IndexEntry>)
    ensures
        r is None <==> path@ == index_file_path(),
        r matches Some(e) ==> e@ == (text_or(article_type, "unknown"@), path@, text_or(title, path@)),
{
    let p = chars_of(path);
    let index_file: Vec<char> = vec!['_', 'i', 'n', 'd', 'e', 'x', '.', 'm', 'd'];
    assert(index_file@ =~= index_file_path());
    if p.len() == index_file.len() && starts_with_chars(p.as_slice(), index_file.as_slice()) {
        assert(p@ =~= p@.take(index_file@.len() as int));
        return None;
    }
    proof {
        if p@ == index_file_path() {
            assert(p@.take(index_file@.len() as int) =~= p@);
        }
    }
    let title = match title {
        Some(t) => t,
        None => String::from_str(path),
    };
    let article_type = match article_type {
        Some(t) => t,
        None => String::from_str("unknown"),
    };
    Some(IndexEntry { article_type, path: String::from_str(path), title })
}

} // verus!

verus! {

/// The entries with a key, after the first entry of `r`.
proof fn lemma_with_key_prepend(r: Seq<EntryText>, k: EntryText)
    requires
        r.len() > 0,
    ensures
        with_key(r, k) == if same_key(r[0], k) {
            seq![r[0]] + with_key(r.drop_first(), k)
        } else {
            with_key(r.drop_first(), k)
        },
{
    assert(r =~= seq![r[0]] + r.drop_first());
    r.drop_first().lemma_filter_prepend(r[0], key_is(k));
    if !same_key(r[0], k) {
        assert(Seq::<EntryText>::empty() + with_key(r.drop_first(), k) =~= with_key(r.drop_first(), k));
    }
}

/// Some entry of `r` has the key of `k` when `with_key(r, k)` is not empty.
proof fn lemma_with_key_witness(r: Seq<EntryText>, k: EntryText)
    requires
        with_key(r, k).len() > 0,
    ensures
        exists|j: int| 0 <= j < r.len() && same_key(#[trigger] r[j], k),
{
    r.lemma_filter_pred(key_is(k), 0);
    let x = with_key(r, k)[0];
    assert(r.filter(key_is(k)).contains(x));
    r.lemma_filter_contains_rev(key_is(k), x);
    let j = choose|j: int| 0 <= j < r.len() && r[j] == x;
    assert(same_key(r[j], k));
}

/// Two sorted sequences with the same entries for every key are equal.
proof fn lemma_sorted_unique(r1: Seq<EntryText>, r2: Seq<EntryText>)
    requires
        sorted_by_key(r1),
        sorted_by_key(r2),
        forall|k: EntryText| #[trigger] with_key(r1, k) == with_key(r2, k),
    ensures
        r1 == r2,
    decreases r1.len(),
{
    if r1.len() == 0 || r2.len() == 0 {
        if r1.len() > 0 {
            r1.lemma_filter_contains(key_is(r1[0]), 0);
            assert(with_key(r1, r1[0]).len() > 0);
            assert(with_key(r2, r1[0]).len() > 0);
            r2.lemma_filter_len(key_is(r1[0]));
        }
        if r2.len() > 0 {
            r2.lemma_filter_contains(key_is(r2[0]), 0);
            assert(with_key(r2, r2[0]).len() > 0);
            assert(with_key(r1, r2[0]).len() > 0);
            r1.lemma_filter_len(key_is(r2[0]));
        }
        assert(r1 =~= r2);
    } else {
        let a = r1[0];
        let b = r2[0];
        r1.lemma_filter_contains(key_is(a), 0);
        r2.lemma_filter_contains(key_is(b), 0);
        assert(with_key(r1, a).len() > 0);
        assert(with_key(r2, a).len() > 0);
        assert(with_key(r2, b).len() > 0);
        assert(with_key(r1, b).len() > 0);
        lemma_with_key_witness(r2, a);
        lemma_with_key_witness(r1, b);
        let j2 = choose|j: int| 0 <= j < r2.len() && same_key(#[trigger] r2[j], a);
        let j1 = choose|j: int| 0 <= j < r1.len() && same_key(#[trigger] r1[j], b);
        if j2 > 0 {
            assert(!entry_before(r2[j2], r2[0]));
        }
        if j1 > 0 {
            assert(!entry_before(r1[j1], r1[0]));
        }
        lemma_entry_total(a, b);
        lemma_entry_total(a, a);
        lemma_entry_total(b, b);
        assert(same_key(a, b));
        assert(key_is(a) =~= key_is(b));
        lemma_with_key_prepend(r1, a);
        lemma_with_key_prepend(r2, a);
        assert(with_key(r1, a)[0] == a);
        assert(with_key(r2, a)[0] == b);
        let t1 = r1.drop_first();
        let t2 = r2.drop_first();
        assert forall|k: EntryText| #[trigger] with_key(t1, k) == with_key(t2, k) by {
            lemma_with_key_prepend(r1, k);
            lemma_with_key_prepend(r2, k);
            if same_key(a, k) {
                assert(key_is(a) =~= key_is(k));
                assert(with_key(r1, k) == with_key(r1, a));
                assert(with_key(t1, k) =~= with_key(r1, k).drop_first());
                assert(with_key(t2, k) =~= with_key(r2, k).drop_first());
            }
        }
        assert forall|i: int, j: int| 0 <= i < j < t1.len() implies !entry_before(#[trigger] t1[j], #[trigger] t1[i]) by {
            assert(t1[j] == r1[j + 1] && t1[i] == r1[i + 1]);
        }
        assert forall|i: int, j: int| 0 <= i < j < t2.len() implies !entry_before(#[trigger] t2[j], #[trigger] t2[i]) by {
            assert(t2[j] == r2[j + 1] && t2[i] == r2[i + 1]);
        }
        lemma_sorted_unique(t1, t2);
        assert(r1 =~= seq![a] + t1);
        assert(r2 =~= seq![b] + t2);
    }
}

/// Law: the order of the index is determined: any two stable sorts of the
/// same entries are equal.
pub proof fn law_stable_sort_unique(r1: Seq<EntryText>, r2: Seq<EntryText>, s: Seq<EntryText>)
    requires
        stable_sort_of(r1, s),
        stable_sort_of(r2, s),
    ensures
        r1 == r2,
{
    assert forall|k: EntryText| #[trigger] with_key(r1, k) == with_key(r2, k) by {
        assert(with_key(r1, k) == with_key(s, k));
        assert(with_key(r2, k) == with_key(s, k));
    }
    lemma_sorted_unique(r1, r2);
}

} // verus!

verus! {

/// `s` sorted stably by article type, then by title (the one order that
/// `stable_sort_of` allows, see `law_stable_sort_unique`).
pub open spec fn stable_sorted(s: Seq<EntryText>) -> Seq<EntryText> {
    choose|r: Seq<EntryText>| stable_sort_of(r, s)
}

/// The text of `_index.md` for the given articles: sorted stably by type,
/// then by title, and listed under a heading per type.
pub fn build_index(entries: Vec<IndexEntry>) -> (r: String)
    ensures
        r@ == index_text(stable_sorted(entry_views(entries@))),
{
    let ghost input = entry_views(entries@);
    let sorted = sort_entries(entries);
    proof {
        let witness = entry_views(sorted@);
        assert(stable_sort_of(witness, input));
        let chosen = stable_sorted(input);
        assert(stable_sort_of(chosen, input));
        law_stable_sort_unique(chosen, witness, input);
    }
    render_index(&sorted)
}

} // verus!

verus! {

/// The article type listed just before entry `i` (none before the first).
pub open spec fn previous_type(es: Seq<EntryText>, i: int) -> Seq<char> {
    if i == 0 {
        seq![]
    } else {
        es[i - 1].0
    }
}

/// Entry `i` is listed under a new `## ` heading: its type differs from
/// the type listed before it.
pub open spec fn opens_heading(es: Seq<EntryText>, i: int) -> bool {
    es[i].0 != previous_type(es, i)
}

/// The index lines of entry `i`: its heading when it opens one, then its link.
pub open spec fn index_item(es: Seq<EntryText>, i: int) -> Seq<char> {
    let e = es[i];
    let heading = if opens_heading(es, i) {
        "## "@ + capitalized(e.0) + "\n\n"@
    } else {
        seq![]
    };
    heading + "- [["@ + link_name(e.1) + "|"@ + e.2 + "]]\n"@
}

/// The index lines of the entries from `i` on.
pub open spec fn index_items_from(es: Seq<EntryText>, i: int) -> Seq<char>
    decreases es.len() - i,
{
    if i < 0 || i >= es.len() {
        seq![]
    } else {
        index_item(es, i) + index_items_from(es, i + 1)
    }
}

proof fn lemma_index_lines_items(es: Seq<EntryText>, i: int)
    requires
        0 <= i <= es.len(),
    ensures
        index_lines(es.skip(i), previous_type(es, i)) == index_items_from(es, i),
    decreases es.len() - i,
{
    if i < es.len() {
        lemma_index_lines_items(es, i + 1);
        let rest = es.skip(i);
        assert(rest[0] == es[i]);
        assert(rest.drop_first() =~= es.skip(i + 1));
        assert(previous_type(es, i + 1) == es[i].0);
    } else {
        assert(es.skip(i) =~= Seq::<EntryText>::empty());
    }
}

/// Law: the index is the title, then for each entry in order its heading
/// (when its type differs from the type listed before it) and its link,
/// then, when there is no entry, the note that the wiki needs compiling.
pub proof fn law_index_text_items(es: Seq<EntryText>)
    ensures
        index_text(es) == "# Wiki Index\n\n"@ + index_items_from(es, 0) + if es.len() == 0 {
            "_No articles yet. Wiki needs compilation._\n"@
        } else {
            seq![]
        },
{
    lemma_index_lines_items(es, 0);
    assert(es.skip(0) =~= es);
}

/// Law: in a sorted index, an entry opens a heading exactly when it is the
/// first entry of its type and the type is not empty: each non-empty type
/// gets one heading, before its first entry, and the empty type none.
pub proof fn law_one_heading_per_type(es: Seq<EntryText>, i: int)
    requires
        sorted_by_key(es),
        0 <= i < es.len(),
    ensures
        opens_heading(es, i) <==> (es[i].0.len() > 0 && forall|j: int| 0 <= j < i ==> #[trigger] es[j].0 != es[i].0),
{
    if i > 0 {
        let t = es[i].0;
        let u = es[i - 1].0;
        assert(!entry_before(es[i], es[i - 1]));
        crate::order::lemma_before_total(t, u);
        if t.len() == 0 {
            assert(u.len() == 0 ==> u =~= t);
            if u.len() > 0 {
                assert(chars_before(t, u));
            }
            assert(es[i - 1].0 == es[i].0);
        }
        if u != t {
            assert forall|j: int| 0 <= j < i implies #[trigger] es[j].0 != es[i].0 by {
                if es[j].0 == t && j < i - 1 {
                    assert(!entry_before(es[i - 1], es[j]));
                    crate::order::lemma_before_total(u, t);
                }
            }
        }
    } else {
        if es[0].0.len() == 0 {
            assert(es[0].0 =~= Seq::<char>::empty());
        }
    }
}

} // verus!

verus! {

/// No two entries of `s` have the same type and title.
pub open spec fn distinct_keys(s: Seq<EntryText>) -> bool {
    forall|i: int, j: int| 0 <= i < j < s.len() ==> !same_key(#[trigger] s[i], #[trigger] s[j])
}

/// With distinct keys, the entries with a key are the one entry that has it,
/// or none.
proof fn lemma_with_key_distinct(s: Seq<EntryText>, k: EntryText)
    requires
        distinct_keys(s),
    ensures
        forall|i: int| 0 <= i < s.len() && same_key(#[trigger] s[i], k) ==> with_key(s, k) == seq![s[i]],
        (forall|i: int| 0 <= i < s.len() ==> !same_key(#[trigger] s[i], k)) ==> with_key(s, k)
            == Seq::<EntryText>::empty(),
    decreases s.len(),
{
    if s.len() == 0 {
        assert(with_key(s, k) =~= Seq::<EntryText>::empty()) by {
            s.lemma_filter_len(key_is(k));
        }
    } else {
        let t = s.drop_first();
        assert(distinct_keys(t)) by {
            assert forall|i: int, j: int| 0 <= i < j < t.len() implies !same_key(#[trigger] t[i], #[trigger] t[j]) by {
                assert(t[i] == s[i + 1] && t[j] == s[j + 1]);
            }
        }
        lemma_with_key_distinct(t, k);
        lemma_with_key_prepend(s, k);
        if same_key(s[0], k) {
            assert forall|i: int| 0 <= i < t.len() implies !same_key(#[trigger] t[i], k) by {
                assert(t[i] == s[i + 1]);
                assert(!same_key(s[0], s[i + 1]));
            }
            assert(with_key(s, k) =~= seq![s[0]]);
            assert forall|i: int| 0 <= i < s.len() && same_key(#[trigger] s[i], k) implies with_key(s, k)
                == seq![s[i]] by {
                if i > 0 {
                    assert(!same_key(s[0], s[i]));
                }
            }
        } else {
            assert forall|i: int| 0 <= i < s.len() && same_key(#[trigger] s[i], k) implies with_key(s, k)
                == seq![s[i]] by {
                assert(i > 0);
                assert(t[i - 1] == s[i]);
            }
            assert((forall|i: int| 0 <= i < s.len() ==> !same_key(#[trigger] s[i], k)) ==> (forall|i: int|
                0 <= i < t.len() ==> !same_key(#[trigger] t[i], k))) by {
                if forall|i: int| 0 <= i < s.len() ==> !same_key(#[trigger] s[i], k) {
                    assert forall|i: int| 0 <= i < t.len() implies !same_key(#[trigger] t[i], k) by {
                        assert(t[i] == s[i + 1]);
                    }
                }
            }
        }
    }
}

/// Distinct keys carry over to any arrangement of the same entries.
proof fn lemma_distinct_keys_permutation(s1: Seq<EntryText>, s2: Seq<EntryText>)
    requires
        distinct_keys(s1),
        s1.to_multiset() == s2.to_multiset(),
    ensures
        distinct_keys(s2),
        forall|x: EntryText| s2.contains(x) <==> s1.contains(x),
{
    broadcast use vstd::seq_lib::group_to_multiset_ensures;

    assert(s1.no_duplicates()) by {
        assert forall|i: int, j: int| 0 <= i < s1.len() && 0 <= j < s1.len() && i != j implies s1[i] != s1[j] by {
            if i < j {
                assert(!same_key(s1[i], s1[j]));
            } else {
                assert(!same_key(s1[j], s1[i]));
            }
        }
    }
    s1.lemma_multiset_has_no_duplicates();
    s2.lemma_multiset_has_no_duplicates_conv();
    assert forall|x: EntryText| s2.contains(x) <==> s1.contains(x) by {
        assert(s2.contains(x) <==> s2.to_multiset().count(x) > 0);
        assert(s1.contains(x) <==> s1.to_multiset().count(x) > 0);
    }
    assert forall|i: int, j: int| 0 <= i < j < s2.len() implies !same_key(#[trigger] s2[i], #[trigger] s2[j]) by {
        assert(s2.contains(s2[i]));
        assert(s2.contains(s2[j]));
        let a = choose|a: int| 0 <= a < s1.len() && s1[a] == s2[i];
        let b = choose|b: int| 0 <= b < s1.len() && s1[b] == s2[j];
        assert(s2[i] != s2[j]);
        if a < b {
            assert(!same_key(s1[a], s1[b]));
        } else if b < a {
            assert(!same_key(s1[b], s1[a]));
        }
    }
}

/// Law: when no two articles share a type and a title, the order in which
/// they are found does not matter: a stable sort of them is a stable sort
/// of any other arrangement of the same entries, so `build_index` gives the
/// same index for both.
pub proof fn law_index_ignores_input_order(r: Seq<EntryText>, s1: Seq<EntryText>, s2: Seq<EntryText>)
    requires
        stable_sort_of(r, s1),
        distinct_keys(s1),
        s1.to_multiset() == s2.to_multiset(),
    ensures
        stable_sort_of(r, s2),
        stable_sorted(s1) == r,
        stable_sorted(s2) == r,
{
    lemma_distinct_keys_permutation(s1, s2);
    assert forall|k: EntryText| #[trigger] with_key(r, k) == with_key(s2, k) by {
        lemma_with_key_distinct(s1, k);
        lemma_with_key_distinct(s2, k);
        assert(with_key(r, k) == with_key(s1, k));
        if exists|i: int| 0 <= i < s1.len() && same_key(#[trigger] s1[i], k) {
            let i = choose|i: int| 0 <= i < s1.len() && same_key(#[trigger] s1[i], k);
            assert(s1.contains(s1[i]));
            assert(s2.contains(s1[i]));
            let j = choose|j: int| 0 <= j < s2.len() && s2[j] == s1[i];
            assert(same_key(s2[j], k));
        } else {
            assert forall|j: int| 0 <= j < s2.len() implies !same_key(#[trigger] s2[j], k) by {
                assert(s2.contains(s2[j]));
                assert(s1.contains(s2[j]));
                let i = choose|i: int| 0 <= i < s1.len() && s1[i] == s2[j];
                assert(!same_key(s1[i], k));
            }
        }
    }
    let c1 = stable_sorted(s1);
    assert(stable_sort_of(c1, s1));
    law_stable_sort_unique(c1, r, s1);
    assert(stable_sort_of(r, s2));
    let c2 = stable_sorted(s2);
    assert(stable_sort_of(c2, s2));
    law_stable_sort_unique(c2, r, s2);
}

/// Law: the index text has no front matter (its first line is the title),
/// so reading it back as an article finds nothing to list.
pub proof fn law_index_has_no_front_matter(es: Seq<EntryText>)
    ensures
        crate::frontmatter::front_matter(index_text(es)) is None,
{
    reveal_strlit("# Wiki Index\n\n");
    let t = index_text(es);
    let title = "# Wiki Index\n\n"@;
    assert(t.subrange(0, 14) =~= title) by {
        assert(t == title + (index_lines(es, seq![]) + if es.len() == 0 {
            "_No articles yet. Wiki needs compilation._\n"@
        } else {
            seq![]
        }));
    }
    assert(forall|k: int| 0 <= k < 12 ==> t[k] == title[k]);
    assert(t[12] == '\n');
    crate::lines::lemma_line_end(t, 12);
    assert(crate::lines::lines_of(t)[0] == crate::lines::strip_cr(t.take(12)));
    assert(crate::lines::lines_of(t)[0].len() >= 11);
}

} // verus!

verus! {

/// Law: the listing order compares article types, and for entries of the
/// same type compares titles, both in the order of strings
/// (`order::law_chars_before_lexicographic`): it does not look at paths.
pub proof fn law_listing_order(a: EntryText, b: EntryText)
    ensures
        a.0 != b.0 ==> (entry_before(a, b) <==> chars_before(a.0, b.0)),
        a.0 == b.0 ==> (entry_before(a, b) <==> chars_before(a.2, b.2)),
{
    lemma_before_irreflexive(a.0);
}

/// Law: of two entries of the same type, the one whose title is a proper
/// prefix of the other's title is listed first.
pub proof fn law_prefix_title_first(a: EntryText, b: EntryText)
    requires
        a.0 == b.0,
        a.2.len() < b.2.len(),
        b.2.take(a.2.len() as int) == a.2,
    ensures
        entry_before(a, b),
{
    crate::order::law_chars_before_lexicographic(a.2, b.2);
    let i = a.2.len() as int;
    assert(a.2.take(i) =~= a.2);
    assert(a.2.take(i) == b.2.take(i));
}

/// Law: the link target of a path ending in `".md"` is the link target of
/// the path without it, and a path that does not end in `".md"` is its own
/// link target.
pub proof fn law_link_name(q: Seq<char>, p: Seq<char>)
    ensures
        link_name(q + seq!['.', 'm', 'd']) == link_name(q),
        !(p.len() >= 3 && p.subrange(p.len() - 3, p.len() as int) == seq!['.', 'm', 'd']) ==> link_name(p) == p,
{
    let s = q + seq!['.', 'm', 'd'];
    assert(s.skip(s.len() - 3) =~= md_suffix());
    assert(s.take(s.len() - 3) =~= q);
    if p.len() >= 3 && has_suffix(p, md_suffix()) {
        assert(p.subrange(p.len() - 3, p.len() as int) =~= p.skip(p.len() - 3));
    }
}

} // verus!

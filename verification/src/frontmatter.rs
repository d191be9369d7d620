//! Locating the YAML front matter of a wiki article: the lines between a
//! first line `---` and the next line `---`.

use vstd::prelude::*;
use crate::lines::{join_lines, lines_of, split_lines, views};
use crate::text::{chars_of, push_char, push_chars};

verus! {

/// The line `---` that opens and closes front matter.
pub open spec fn fence() -> Seq<char> {
    seq!['-', '-', '-']
}

/// The index of the first fence line among `ls` from index `from` on.
pub open spec fn next_fence(ls: Seq<Seq<char>>, from: int) -> Option<int>
    decreases ls.len() - from,
{
    if from < 0 || from >= ls.len() {
        None
    } else if ls[from] == fence() {
        Some(from)
    } else {
        next_fence(ls, from + 1)
    }
}

/// The front matter of an article: when its first line is `---` and a
/// later line is `---`, the lines in between, each ended by `\n`.
pub open spec fn front_matter(content: Seq<char>) -> Option<Seq<char>> {
    let ls = lines_of(content);
    if ls.len() > 0 && ls[0] == fence() {
        match next_fence(ls, 1) {
            Some(j) => Some(join_lines(ls.subrange(1, j))),
            None => None,
        }
    } else {
        None
    }
}

/// `next_fence` finds the first fence at or after `from`.
proof fn lemma_next_fence(ls: Seq<Seq<char>>, from: int, j: int)
    requires
        0 <= from <= j <= ls.len(),
        forall|k: int| from <= k < j ==> ls[k] != fence(),
        j == ls.len() || ls[j] == fence(),
    ensures
        next_fence(ls, from) == if j < ls.len() {
            Some(j)
        } else {
            None::<int>
        },
    decreases j - from,
{
    if from < j {
        lemma_next_fence(ls, from + 1, j);
    }
}

/// Whether `l` is the fence line `---`.
fn is_fence(l: &Vec<char>) -> (r: bool)
    ensures
        r == (l@ == fence()),
{
    let r = l.len() == 3 && l[0] == '-' && l[1] == '-' && l[2] == '-';
    if r {
        assert(l@ =~= fence());
    }
    r
}

/// The YAML front matter of an article, if it has one.
pub fn front_matter_block(content: &str) -> (r: Option<String>)
    ensures
        r matches Some(t) ==> front_matter(content@) == Some(t@),
        r is None ==> front_matter(content@) is None,
{
    let c = chars_of(content);
    let ls = split_lines(c.as_slice());
    let ghost all = views(ls@);
    if ls.len() == 0 || !is_fence(&ls[0]) {
        return None;
    }
    let mut j: usize = 1;
    while j < ls.len() && !is_fence(&ls[j])
        invariant
            all == views(ls@),
            1 <= j <= ls@.len(),
            forall|k: int| 1 <= k < j ==> all[k] != fence(),
        decreases ls@.len() - j,
    {
        j = j + 1;
    }
    proof {
        lemma_next_fence(all, 1, j as int);
    }
    if j == ls.len() {
        return None;
    }
    let mut r = String::new();
    let mut i: usize = 1;
    proof {
        assert(all.subrange(1, 1) =~= Seq::<Seq<char>>::empty());
    }
    while i < j
        invariant
            all == views(ls@),
            1 <= i <= j < ls@.len(),
            r@ == join_lines(all.subrange(1, i as int)),
        decreases j - i,
    {
        push_chars(&mut r, ls[i].as_slice());
        push_char(&mut r, '\n');
        proof {
            crate::lines::lemma_join_lines_push(all.subrange(1, i as int), all[i as int]);
            assert(all.subrange(1, i as int).push(all[i as int]) =~= all.subrange(1, i + 1));
        }
        i = i + 1;
    }
    Some(r)
}

} // verus!

verus! {

proof fn lemma_next_fence_found(ls: Seq<Seq<char>>, from: int)
    requires
        0 <= from,
    ensures
        next_fence(ls, from) matches Some(j) ==> from <= j < ls.len() && ls[j] == fence() && forall|k: int|
            from <= k < j ==> ls[k] != fence(),
        next_fence(ls, from) is None ==> forall|k: int| from <= k < ls.len() ==> ls[k] != fence(),
    decreases ls.len() - from,
{
    if from < ls.len() && ls[from] != fence() {
        lemma_next_fence_found(ls, from + 1);
    }
}

/// Law: front matter is found exactly when the first line is `---` and a
/// later line is `---`; it is then the lines between the first line and
/// the first later `---` line, so none of its lines is `---`.
pub proof fn law_front_matter_first_fence(content: Seq<char>)
    ensures
        front_matter(content) is Some <==> (lines_of(content).len() > 0 && lines_of(content)[0] == seq!['-', '-', '-']
            && exists|j: int| 1 <= j < lines_of(content).len() && #[trigger] lines_of(content)[j] == seq!['-', '-', '-']),
        front_matter(content) matches Some(t) ==> exists|j: int|
            1 <= j < lines_of(content).len() && #[trigger] lines_of(content)[j] == seq!['-', '-', '-'] && (forall|k: int|
                1 <= k < j ==> lines_of(content)[k] != seq!['-', '-', '-']) && t == join_lines(
                lines_of(content).subrange(1, j),
            ),
{
    let ls = lines_of(content);
    lemma_next_fence_found(ls, 1);
    assert(fence() == seq!['-', '-', '-']);
    if ls.len() > 0 && ls[0] == fence() {
        match next_fence(ls, 1) {
            Some(j) => {
                assert(ls[j] == seq!['-', '-', '-']);
            },
            None => {
                if exists|j: int| 1 <= j < ls.len() && #[trigger] ls[j] == seq!['-', '-', '-'] {
                    let j = choose|j: int| 1 <= j < ls.len() && #[trigger] ls[j] == seq!['-', '-', '-'];
                    assert(ls[j] != fence());
                }
            },
        }
    }
}

} // verus!

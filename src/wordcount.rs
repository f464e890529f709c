use vstd::prelude::*;
use crate::bst::{BSTNode, BSTree, insert_shape, sorted, holds_key, inserted, keeps_key, applies_to_key, lemma_key_unique};
use crate::entry::{Ordered, Word, bytes_less, same_key, lemma_same_key_text};
use vstd::utf8::encode_utf8;

verus! {

/// How many times `x` stands in `s`.
pub open spec fn times_in(s: Seq<Seq<char>>, x: Seq<char>) -> nat
    decreases s.len(),
{
    if s.len() == 0 {
        0
    } else {
        times_in(s.drop_last(), x) + if s.last() == x { 1nat } else { 0nat }
    }
}

/// The texts of a list of strings.
pub open spec fn texts_of(words: Seq<String>) -> Seq<Seq<char>> {
    words.map_values(|w: String| w@)
}

/// Some entry has the text `t`.
pub open spec fn has_text(s: Seq<Word>, t: Seq<char>) -> bool {
    exists|i: int| 0 <= i < s.len() && #[trigger] s[i].text() == t
}

proof fn lemma_times_in_bound(s: Seq<Seq<char>>, x: Seq<char>)
    ensures
        times_in(s, x) <= s.len(),
        times_in(s, x) > 0 ==> exists|j: int| 0 <= j < s.len() && s[j] == x,
    decreases s.len(),
{
    if s.len() > 0 {
        lemma_times_in_bound(s.drop_last(), x);
        if times_in(s.drop_last(), x) > 0 {
            let j = choose|j: int| 0 <= j < s.drop_last().len() && s.drop_last()[j] == x;
            assert(s[j] == x);
        }
        if s.last() == x {
            assert(s[s.len() - 1] == x);
        }
    }
}

/// Inserting an absent word, then the same word again with an update that
/// counts one more occurrence, leaves exactly one entry with its key, seen twice.
pub proof fn lemma_insert_twice<F: Fn(Word) -> Word>(s: Seq<Word>, w: Word, f: F, s1: Seq<Word>, s2: Seq<Word>)
    requires
        sorted(s),
        sorted(s1),
        sorted(s2),
        !holds_key(s, w),
        w.occurrences() == 1,
        forall|x: Word, y: Word| #[trigger] f.ensures((x,), y) ==> y.text() == x.text()
            && y.occurrences() == x.occurrences() + 1,
        inserted(s, w, f, s1),
        inserted(s1, w, f, s2),
    ensures
        s2.len() == s.len() + 1,
        exists|i: int| 0 <= i < s2.len() && same_key(s2[i], w) && #[trigger] s2[i].occurrences() == 2,
        forall|i: int, j: int| 0 <= i < s2.len() && 0 <= j < s2.len() && same_key(#[trigger] s2[i], w)
            && same_key(#[trigger] s2[j], w) ==> i == j,
{
    let p = choose|p: int| 0 <= p <= s.len() && s1 == #[trigger] s.insert(p, w);
    Word::precedes_irreflexive(w);
    assert(s1[p] == w);
    assert(holds_key(s1, w));
    let i = choose|i: int|
        0 <= i < s1.len() && same_key(s1[i], w) && s2.len() == s1.len() && s2 == s1.update(i, s2[i])
            && #[trigger] f.ensures((s1[i],), s2[i]);
    lemma_key_unique(s1, w, i, p);
    lemma_same_key_text(s2[i], w);
    assert forall|a: int, b: int| 0 <= a < s2.len() && 0 <= b < s2.len() && same_key(#[trigger] s2[a], w)
        && same_key(#[trigger] s2[b], w) implies a == b by {
        lemma_key_unique(s2, w, a, b);
    }
}

/// The shape of a word tree with each node reduced to its text and count.
pub enum Tally {
    Empty,
    Node { left: Box<Tally>, text: Seq<char>, count: nat, right: Box<Tally> },
}

/// A word tree reduced to texts and counts.
pub open spec fn tally_of(t: Option<Box<BSTNode<Word>>>) -> Tally
    decreases t,
{
    match t {
        None => Tally::Empty,
        Some(n) => Tally::Node {
            left: Box::new(tally_of(n.left)),
            text: n.data.text(),
            count: n.data.occurrences() as nat,
            right: Box::new(tally_of(n.right)),
        },
    }
}

/// Counting one more occurrence of `x`: the search goes left or right by the
/// bytes of the texts; a node with the text of `x` counts one more, and an
/// empty slot becomes a leaf with count one.
pub open spec fn tally_insert(t: Tally, x: Seq<char>) -> Tally
    decreases t,
{
    match t {
        Tally::Empty => Tally::Node { left: Box::new(Tally::Empty), text: x, count: 1, right: Box::new(Tally::Empty) },
        Tally::Node { left, text, count, right } => if bytes_less(encode_utf8(x), encode_utf8(text)) {
            Tally::Node { left: Box::new(tally_insert(*left, x)), text, count, right }
        } else if bytes_less(encode_utf8(text), encode_utf8(x)) {
            Tally::Node { left, text, count, right: Box::new(tally_insert(*right, x)) }
        } else {
            Tally::Node { left, text, count: count + 1, right }
        },
    }
}

/// The tally after counting each of `texts` in turn into an empty tree.
pub open spec fn tally_of_texts(texts: Seq<Seq<char>>) -> Tally
    decreases texts.len(),
{
    if texts.len() == 0 {
        Tally::Empty
    } else {
        tally_insert(tally_of_texts(texts.drop_last()), texts.last())
    }
}

proof fn lemma_insert_counts(
    t: Option<Box<BSTNode<Word>>>,
    w: Word,
    merged: spec_fn(Word, Word) -> bool,
    r: Option<Box<BSTNode<Word>>>,
)
    requires
        insert_shape(t, w, merged, r),
        w.occurrences() == 1,
        forall|a: Word, b: Word| #[trigger] merged(a, b) ==> b.text() == a.text()
            && b.occurrences() == a.occurrences() + 1,
    ensures
        tally_of(r) == tally_insert(tally_of(t), w.text()),
    decreases t,
{
    if let Some(n) = t {
        if w.precedes(n.data) {
            lemma_insert_counts(n.left, w, merged, r->0.left);
        } else if n.data.precedes(w) {
            lemma_insert_counts(n.right, w, merged, r->0.right);
        } else {
            assert(merged(n.data, r->0.data));
        }
    }
}

/// Builds the tree of the distinct words of `words`, each with the number of
/// times it occurs.
pub fn count_words(words: &Vec<String>) -> (r: BSTree<Word>)
    requires
        words.len() < u32::MAX,
    ensures
        r.wf(),
        forall|k: int| 0 <= k < words.len() ==> has_text(r@, #[trigger] words@[k]@),
        forall|i: int| 0 <= i < r@.len() ==> (#[trigger] r@[i]).occurrences() == times_in(
            texts_of(words@), r@[i].text()) && times_in(texts_of(words@), r@[i].text()) > 0,
        tally_of(r.root) == tally_of_texts(texts_of(words@)),
{
    let mut tree: BSTree<Word> = BSTree::new();
    let bump = |w: Word| -> (r: Word)
        requires
            w.occurrences() < u32::MAX,
        ensures
            r.text() == w.text(),
            r.occurrences() == w.occurrences() + 1,
        {
            let mut w = w;
            w.add();
            w
        };
    proof {
        assert forall|x: Word, y: Word| #[trigger] bump.ensures((x,), y) implies same_key(x, y) by {
            Word::precedes_irreflexive(x);
        }
    }
    let ghost texts = texts_of(words@);
    let mut k: usize = 0;
    while k < words.len()
        invariant
            texts == texts_of(words@),
            words.len() < u32::MAX,
            0 <= k <= words.len(),
            tree.wf(),
            tally_of(tree.root) == tally_of_texts(texts.take(k as int)),
            keeps_key(bump),
            forall|x: Word, y: Word| #[trigger] bump.ensures((x,), y) ==> y.text() == x.text()
                && y.occurrences() == x.occurrences() + 1,
            forall|x: Word| x.occurrences() < u32::MAX ==> #[trigger] bump.requires((x,)),
            forall|j: int| 0 <= j < k ==> has_text(tree@, #[trigger] words@[j]@),
            forall|i: int| 0 <= i < tree@.len() ==> (#[trigger] tree@[i]).occurrences() == times_in(
                texts.take(k as int), tree@[i].text()) && times_in(texts.take(k as int), tree@[i].text()) > 0,
        decreases words.len() - k,
    {
        let word = Word::new(words[k].clone());
        let ghost t = words@[k as int]@;
        let ghost s = tree@;
        let ghost root0 = tree.root;
        let ghost pre = texts.take(k as int);
        proof {
            assert(texts.take(k + 1) =~= pre.push(t));
            assert(texts.take(k + 1).drop_last() =~= pre);
            assert(texts[k as int] == t);
            assert(word.text() == t);
            assert forall|i: int| 0 <= i < s.len() && same_key(#[trigger] s[i], word)
                implies bump.requires((s[i],)) by {
                lemma_times_in_bound(pre, s[i].text());
            }
        }
        tree.insert_fn(word, bump);
        proof {
            lemma_insert_counts(root0, word, |a: Word, b: Word| bump.ensures((a,), b), tree.root);
            let s2 = tree@;
            if holds_key(s, word) {
                let i = choose|i: int|
                    0 <= i < s.len() && same_key(s[i], word) && s2.len() == s.len() && s2 == s.update(i, s2[i])
                        && #[trigger] bump.ensures((s[i],), s2[i]);
                lemma_same_key_text(s[i], word);
                assert(s2[i].text() == s[i].text() && s2[i].occurrences() == s[i].occurrences() + 1);
                assert(s[i].occurrences() == times_in(pre, s[i].text()));
                assert(s[i].text() == t);
                assert(times_in(texts.take(k + 1), t) == times_in(pre, t) + 1);
                assert forall|m: int| 0 <= m < s2.len() implies (#[trigger] s2[m]).occurrences() == times_in(
                    texts.take(k + 1), s2[m].text()) && times_in(texts.take(k + 1), s2[m].text()) > 0 by {
                    if m != i {
                        assert(s2[m] == s[m]);
                        lemma_same_key_text(s[m], word);
                        if same_key(s[m], word) {
                            lemma_key_unique(s, word, i, m);
                        }
                    }
                }
                assert forall|j: int| 0 <= j < k + 1 implies has_text(s2, #[trigger] words@[j]@) by {
                    if j < k {
                        let m = choose|m: int| 0 <= m < s.len() && #[trigger] s[m].text() == words@[j]@;
                        if m != i {
                            assert(s2[m] == s[m]);
                        } else {
                            assert(s2[m].text() == words@[j]@);
                        }
                    } else {
                        assert(s2[i].text() == words@[j]@);
                    }
                }
            } else {
                let p = choose|p: int| 0 <= p <= s.len() && s2 == #[trigger] s.insert(p, word);
                if times_in(pre, t) > 0 {
                    lemma_times_in_bound(pre, t);
                    let j = choose|j: int| 0 <= j < pre.len() && pre[j] == t;
                    assert(pre[j] == words@[j]@);
                    let m = choose|m: int| 0 <= m < s.len() && #[trigger] s[m].text() == words@[j]@;
                    lemma_same_key_text(s[m], word);
                    assert(same_key(s[m], word));
                }
                assert forall|m: int| 0 <= m < s2.len() implies (#[trigger] s2[m]).occurrences() == times_in(
                    texts.take(k + 1), s2[m].text()) && times_in(texts.take(k + 1), s2[m].text()) > 0 by {
                    if m < p {
                        assert(s2[m] == s[m]);
                    } else if m > p {
                        assert(s2[m] == s[m - 1]);
                    }
                    if m != p {
                        let q = if m < p { m } else { m - 1 };
                        if s[q].text() == t {
                            lemma_same_key_text(s[q], word);
                        }
                    }
                }
                assert forall|j: int| 0 <= j < k + 1 implies has_text(s2, #[trigger] words@[j]@) by {
                    if j < k {
                        let m = choose|m: int| 0 <= m < s.len() && #[trigger] s[m].text() == words@[j]@;
                        if m < p {
                            assert(s2[m] == s[m]);
                        } else {
                            assert(s2[m + 1] == s[m]);
                        }
                    } else {
                        assert(s2[p].text() == words@[j]@);
                    }
                }
            }
        }
        k = k + 1;
    }
    proof {
        assert(texts.take(k as int) =~= texts);
    }
    tree
}

} // verus!

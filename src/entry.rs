use vstd::prelude::*;
use vstd::utf8::{encode_utf8, encode_utf8_decode_utf8};
use std::cmp::Ordering;

verus! {

/// The three orders in which a tree can be walked.
#[derive(Clone, Copy, PartialEq, Eq, Structural)]
pub enum Order {
    Pre,
    In,
    Post,
}

/// A value that can be stored in a search tree: it is ordered by a strict
/// weak order `precedes`, and two values that precede neither each other
/// share a key.
pub trait Ordered: Sized {
    spec fn precedes(self, other: Self) -> bool;

    proof fn precedes_irreflexive(a: Self)
        ensures
            !a.precedes(a),
    ;

    proof fn precedes_transitive(a: Self, b: Self, c: Self)
        requires
            a.precedes(b),
            b.precedes(c),
        ensures
            a.precedes(c),
    ;

    /// Any third value falls after the first or before the second.
    proof fn precedes_split(a: Self, b: Self, c: Self)
        requires
            a.precedes(c),
        ensures
            a.precedes(b) || b.precedes(c),
    ;

    fn compare(&self, other: &Self) -> (r: Ordering)
        ensures
            (r == Ordering::Less) == self.precedes(*other),
            (r == Ordering::Greater) == other.precedes(*self),
    ;
}

/// Neither value precedes the other: they stand for the same key.
pub open spec fn same_key<T: Ordered>(a: T, b: T) -> bool {
    !a.precedes(b) && !b.precedes(a)
}

pub proof fn lemma_same_key_transitive<T: Ordered>(a: T, b: T, c: T)
    requires
        same_key(a, b),
        same_key(b, c),
    ensures
        same_key(a, c),
{
    if a.precedes(c) {
        T::precedes_split(a, b, c);
    }
    if c.precedes(a) {
        T::precedes_split(c, b, a);
    }
}

/// A value that precedes one key precedes every value of that key.
pub proof fn lemma_precedes_same_key<T: Ordered>(a: T, b: T, c: T)
    requires
        same_key(b, c),
    ensures
        a.precedes(b) ==> a.precedes(c),
        b.precedes(a) ==> c.precedes(a),
{
    if a.precedes(b) {
        T::precedes_split(a, c, b);
    }
    if b.precedes(a) {
        T::precedes_split(b, c, a);
    }
}

impl Ordered for u64 {
    open spec fn precedes(self, other: Self) -> bool {
        self < other
    }

    proof fn precedes_irreflexive(a: Self) {
    }

    proof fn precedes_transitive(a: Self, b: Self, c: Self) {
    }

    proof fn precedes_split(a: Self, b: Self, c: Self) {
    }

    fn compare(&self, other: &Self) -> (r: Ordering) {
        if *self < *other {
            Ordering::Less
        } else if *self > *other {
            Ordering::Greater
        } else {
            Ordering::Equal
        }
    }
}

/// Byte-wise lexicographic order: the first differing byte decides, and a
/// proper prefix comes first.
pub open spec fn bytes_less(a: Seq<u8>, b: Seq<u8>) -> bool
    decreases a.len(),
{
    if b.len() == 0 {
        false
    } else if a.len() == 0 {
        true
    } else if a[0] != b[0] {
        a[0] < b[0]
    } else {
        bytes_less(a.drop_first(), b.drop_first())
    }
}

pub proof fn lemma_bytes_less_irreflexive(a: Seq<u8>)
    ensures
        !bytes_less(a, a),
    decreases a.len(),
{
    if a.len() > 0 {
        lemma_bytes_less_irreflexive(a.drop_first());
    }
}

pub proof fn lemma_bytes_less_transitive(a: Seq<u8>, b: Seq<u8>, c: Seq<u8>)
    requires
        bytes_less(a, b),
        bytes_less(b, c),
    ensures
        bytes_less(a, c),
    decreases a.len(),
{
    if a.len() > 0 && b.len() > 0 && c.len() > 0 && a[0] == b[0] && b[0] == c[0] {
        lemma_bytes_less_transitive(a.drop_first(), b.drop_first(), c.drop_first());
    }
}

pub proof fn lemma_bytes_less_total(a: Seq<u8>, b: Seq<u8>)
    ensures
        bytes_less(a, b) || bytes_less(b, a) || a == b,
    decreases a.len(),
{
    if a.len() > 0 && b.len() > 0 && a[0] == b[0] {
        lemma_bytes_less_total(a.drop_first(), b.drop_first());
        if a.drop_first() == b.drop_first() {
            assert(a =~= seq![a[0]] + a.drop_first());
            assert(b =~= seq![b[0]] + b.drop_first());
        }
    } else if a.len() == 0 && b.len() == 0 {
        assert(a =~= b);
    }
}


pub proof fn lemma_bytes_less_skip(a: Seq<u8>, b: Seq<u8>, i: int)
    requires
        0 <= i <= a.len(),
        i <= b.len(),
        forall|k: int| 0 <= k < i ==> a[k] == b[k],
    ensures
        bytes_less(a, b) == bytes_less(a.skip(i), b.skip(i)),
    decreases i,
{
    if i > 0 {
        lemma_bytes_less_skip(a.drop_first(), b.drop_first(), i - 1);
        assert(a.drop_first().skip(i - 1) =~= a.skip(i));
        assert(b.drop_first().skip(i - 1) =~= b.skip(i));
    } else {
        assert(a.skip(0) =~= a);
        assert(b.skip(0) =~= b);
    }
}

/// The decimal digits of `n`, most significant first.
pub open spec fn decimal_of(n: nat) -> Seq<char>
    decreases n,
{
    if n < 10 {
        seq![digit_of(n)]
    } else {
        decimal_of(n / 10).push(digit_of(n % 10))
    }
}

pub open spec fn digit_of(d: nat) -> char {
    ((48 + d) as u8) as char
}

fn push_decimal(n: u32, out: &mut Vec<char>)
    ensures
        final(out)@ == old(out)@ + decimal_of(n as nat),
    decreases n,
{
    if n >= 10 {
        push_decimal(n / 10, out);
    }
    let d: u8 = (n % 10) as u8;
    out.push((48u8 + d) as char);
    assert(out@ =~= old(out)@ + decimal_of(n as nat));
}

/// A word of text and the number of times it has been seen.
#[derive(Clone, Debug)]
pub struct Word {
    pub value: String,
    pub count: u32,
}

impl Word {
    /// The word's text.
    pub open spec fn text(self) -> Seq<char> {
        self.value@
    }

    /// The word's text as UTF-8 bytes: the key it is ordered by.
    pub open spec fn key(self) -> Seq<u8> {
        encode_utf8(self.text())
    }

    /// How many times the word has been seen.
    pub open spec fn occurrences(self) -> u32 {
        self.count
    }

    pub fn new(value: String) -> (r: Word)
        ensures
            r.text() == value@,
            r.occurrences() == 1,
    {
        Word { value, count: 1 }
    }

    /// A word already seen `count` times, as when a saved tree is restored.
    pub fn with_count(value: String, count: u32) -> (r: Word)
        ensures
            r.text() == value@,
            r.occurrences() == count,
    {
        Word { value, count }
    }

    /// Counts one more occurrence of the word.
    pub fn add(&mut self)
        requires
            old(self).occurrences() < u32::MAX,
        ensures
            final(self).text() == old(self).text(),
            final(self).occurrences() == old(self).occurrences() + 1,
    {
        self.count = self.count + 1;
    }

    pub fn count(&self) -> (r: u32)
        ensures
            r == self.occurrences(),
    {
        self.count
    }

    /// The word as `"<text>: <occurrences>"`.
    pub fn render(&self) -> (r: String)
        ensures
            r@ == self.text() + seq![':', ' '] + decimal_of(self.occurrences() as nat),
    {
        let mut out: Vec<char> = Vec::new();
        for c in it: self.value.as_str().chars()
            invariant
                it.seq() == self.text(),
                out@ == self.text().take(it.index() as int),
        {
            proof {
                assert(self.text().take(it.index() + 1) =~= out@.push(c));
            }
            out.push(c);
        }
        proof {
            assert(out@ =~= self.text());
        }
        out.push(':');
        out.push(' ');
        push_decimal(self.count, &mut out);
        string_from_chars(&out)
    }

    /// Compares two words by their bytes; the occurrence counts play no part.
    pub fn cmp(&self, other: &Word) -> (r: Ordering)
        ensures
            (r == Ordering::Less) == bytes_less(self.key(), other.key()),
            (r == Ordering::Greater) == bytes_less(other.key(), self.key()),
            (r == Ordering::Equal) == (self.key() == other.key()),
    {
        let x = self.value.as_str().as_bytes();
        let y = other.value.as_str().as_bytes();
        proof {
            lemma_bytes_less_total(x@, y@);
            lemma_bytes_less_irreflexive(x@);
        }
        let mut i: usize = 0;
        while i < x.len() && i < y.len()
            invariant
                x@ == self.key(),
                y@ == other.key(),
                0 <= i <= x@.len(),
                i <= y@.len(),
                forall|k: int| 0 <= k < i ==> x@[k] == y@[k],
            decreases x@.len() - i,
        {
            if x[i] < y[i] {
                proof {
                    lemma_bytes_less_skip(x@, y@, i as int);
                    lemma_bytes_less_skip(y@, x@, i as int);
                }
                return Ordering::Less;
            } else if x[i] > y[i] {
                proof {
                    lemma_bytes_less_skip(x@, y@, i as int);
                    lemma_bytes_less_skip(y@, x@, i as int);
                }
                return Ordering::Greater;
            }
            i = i + 1;
        }
        proof {
            lemma_bytes_less_skip(x@, y@, i as int);
            lemma_bytes_less_skip(y@, x@, i as int);
        }
        if x.len() < y.len() {
            Ordering::Less
        } else if x.len() > y.len() {
            Ordering::Greater
        } else {
            proof {
                assert(x@ =~= y@);
            }
            Ordering::Equal
        }
    }
}

/// Two words share a key exactly when their texts are equal.
pub proof fn lemma_same_key_text(a: Word, b: Word)
    ensures
        same_key(a, b) <==> a.text() == b.text(),
{
    lemma_bytes_less_total(a.key(), b.key());
    lemma_bytes_less_irreflexive(a.key());
    if a.key() == b.key() {
        encode_utf8_decode_utf8(a.text());
        encode_utf8_decode_utf8(b.text());
    }
}

/// Relies on `String`'s `FromIterator<&char>`: the characters in order.
#[verifier::external_body]
pub(crate) fn string_from_chars(chars: &Vec<char>) -> (r: String)
    ensures
        r@ == chars@,
{
    chars.iter().collect()
}

impl PartialEq for Word {
    fn eq(&self, other: &Word) -> (r: bool) {
        self.value == other.value
    }
}

impl vstd::std_specs::cmp::PartialEqSpecImpl for Word {
    open spec fn obeys_eq_spec() -> bool {
        true
    }

    open spec fn eq_spec(&self, other: &Word) -> bool {
        self.text() == other.text()
    }
}

/// How the key `a` stands to the key `b`.
pub open spec fn bytes_order(a: Seq<u8>, b: Seq<u8>) -> Ordering {
    if bytes_less(a, b) {
        Ordering::Less
    } else if bytes_less(b, a) {
        Ordering::Greater
    } else {
        Ordering::Equal
    }
}

impl PartialOrd for Word {
    fn partial_cmp(&self, other: &Word) -> (r: Option<Ordering>) {
        let c = self.cmp(other);
        proof {
            lemma_bytes_less_irreflexive(self.key());
            if bytes_less(self.key(), other.key()) && bytes_less(other.key(), self.key()) {
                lemma_bytes_less_transitive(self.key(), other.key(), self.key());
            }
        }
        Some(c)
    }
}

impl vstd::std_specs::cmp::PartialOrdSpecImpl for Word {
    open spec fn obeys_partial_cmp_spec() -> bool {
        true
    }

    open spec fn partial_cmp_spec(&self, other: &Word) -> Option<Ordering> {
        Some(bytes_order(self.key(), other.key()))
    }
}

impl Ordered for Word {
    open spec fn precedes(self, other: Self) -> bool {
        bytes_less(self.key(), other.key())
    }

    proof fn precedes_irreflexive(a: Self) {
        lemma_bytes_less_irreflexive(a.key());
    }

    proof fn precedes_transitive(a: Self, b: Self, c: Self) {
        lemma_bytes_less_transitive(a.key(), b.key(), c.key());
    }

    proof fn precedes_split(a: Self, b: Self, c: Self) {
        lemma_bytes_less_total(a.key(), b.key());
        if bytes_less(b.key(), a.key()) {
            lemma_bytes_less_transitive(b.key(), a.key(), c.key());
        }
    }

    fn compare(&self, other: &Self) -> (r: Ordering) {
        self.cmp(other)
    }
}

} // verus!

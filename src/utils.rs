use vstd::prelude::*;
use crate::entry::string_from_chars;

verus! {

/// What `str::to_lowercase` makes of a text.
pub uninterp spec fn lower_of(s: Seq<char>) -> Seq<char>;

/// Relies on `str::to_lowercase`: the result depends on the characters alone,
/// and an empty text stays empty.
#[verifier::external_body]
fn lowercase(s: &str) -> (r: String)
    ensures
        r@ == lower_of(s@),
        s@.len() == 0 ==> r@.len() == 0,
{
    s.to_lowercase()
}

pub open spec fn is_letter(c: char) -> bool {
    ('a' <= c && c <= 'z') || ('A' <= c && c <= 'Z')
}

fn is_ascii_letter(c: char) -> (r: bool)
    ensures
        r == is_letter(c),
{
    ('a' <= c && c <= 'z') || ('A' <= c && c <= 'Z')
}

/// The maximal runs of ASCII letters in `s`, from left to right.
pub open spec fn words_of(s: Seq<char>) -> Seq<Seq<char>>
    decreases s.len(),
{
    if s.len() == 0 {
        Seq::empty()
    } else {
        let rest = s.drop_last();
        let c = s.last();
        if !is_letter(c) {
            words_of(rest)
        } else if rest.len() > 0 && is_letter(rest.last()) {
            let w = words_of(rest);
            w.update(w.len() - 1, w.last().push(c))
        } else {
            words_of(rest).push(seq![c])
        }
    }
}

/// The words of a text: split on every character that is not an ASCII letter,
/// dropping the empty pieces.
pub fn split_words(s: &str) -> (r: Vec<String>)
    ensures
        r@.map_values(|w: String| w@) == words_of(s@),
{
    let mut words: Vec<String> = Vec::new();
    let mut cur: Vec<char> = Vec::new();
    let ghost mut seen: Seq<char> = Seq::empty();
    for c in it: s.chars()
        invariant
            seen == s@.take(it.index() as int),
            it.seq() == s@,
            cur@.len() > 0 <==> (seen.len() > 0 && is_letter(seen.last())),
            words_of(seen) == if cur@.len() > 0 {
                words@.map_values(|w: String| w@).push(cur@)
            } else {
                words@.map_values(|w: String| w@)
            },
    {
        let ghost prev = seen;
        let ghost ws0 = words@.map_values(|w: String| w@);
        let ghost cur0 = cur@;
        proof {
            assert(s@.take(it.index() + 1) =~= seen.push(c));
            seen = seen.push(c);
            assert(seen.drop_last() =~= prev);
            assert(seen.last() == c);
        }
        if is_ascii_letter(c) {
            cur.push(c);
            proof {
                if cur0.len() > 0 {
                    let w = ws0.push(cur0);
                    assert(words_of(seen) == w.update(w.len() - 1, w.last().push(c)));
                    assert(words_of(seen) =~= ws0.push(cur@));
                } else {
                    assert(words_of(seen) == ws0.push(seq![c]));
                    assert(cur@ =~= seq![c]);
                }
            }
        } else if cur.len() > 0 {
            let w = string_from_chars(&cur);
            words.push(w);
            cur = Vec::new();
            proof {
                assert(words@.map_values(|w: String| w@) =~= ws0.push(cur0));
            }
        }
        proof {
            let ws = words@.map_values(|w: String| w@);
            assert(words_of(seen) =~= if cur@.len() > 0 {
                ws.push(cur@)
            } else {
                ws
            });
        }
    }
    let ghost ws1 = words@.map_values(|w: String| w@);
    if cur.len() > 0 {
        let w = string_from_chars(&cur);
        words.push(w);
        proof {
            assert(words@.map_values(|w: String| w@) =~= ws1.push(cur@));
        }
    }
    proof {
        assert(seen =~= s@);
        assert(words@.map_values(|w: String| w@) =~= words_of(s@));
    }
    words
}

/// Lower-cases `context` in place and returns its words.
pub fn filter_word(context: &mut String) -> (r: Vec<String>)
    ensures
        final(context)@ == lower_of(old(context)@),
        r@.map_values(|w: String| w@) == words_of(lower_of(old(context)@)),
{
    let lower = lowercase(context.as_str());
    *context = lower;
    split_words(context.as_str())
}

} // verus!

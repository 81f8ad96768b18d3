//! Turning text into words: ASCII punctuation is removed from the whole
//! text, then what is left is split on ASCII whitespace.
use vstd::prelude::*;

verus! {

/// Relies on `String::push`: the character is appended at the end.
pub assume_specification[ String::push ](s: &mut String, ch: char)
    ensures
        final(s)@ == old(s)@.push(ch),
;

/// ASCII punctuation: the printable ASCII characters that are neither
/// letters, digits nor the space.
pub open spec fn is_ascii_punctuation(c: char) -> bool {
    let u = c as u32;
    (0x21 <= u <= 0x2f) || (0x3a <= u <= 0x40) || (0x5b <= u <= 0x60) || (0x7b <= u <= 0x7e)
}

/// ASCII whitespace: space, tab, line feed, form feed and carriage return.
pub open spec fn is_ascii_whitespace(c: char) -> bool {
    let u = c as u32;
    u == 0x20 || u == 0x09 || u == 0x0a || u == 0x0c || u == 0x0d
}

/// The text with every ASCII punctuation character removed.
pub open spec fn strip_punctuation(s: Seq<char>) -> Seq<char>
    decreases s.len(),
{
    if s.len() == 0 {
        seq![]
    } else {
        let rest = strip_punctuation(s.drop_last());
        if is_ascii_punctuation(s.last()) {
            rest
        } else {
            rest.push(s.last())
        }
    }
}

/// Reading `s` from the left: the words already closed by whitespace, and
/// the (possibly empty) word still open at the end.
pub open spec fn scan_words(s: Seq<char>) -> (Seq<Seq<char>>, Seq<char>)
    decreases s.len(),
{
    if s.len() == 0 {
        (seq![], seq![])
    } else {
        let (done, open) = scan_words(s.drop_last());
        if is_ascii_whitespace(s.last()) {
            if open.len() > 0 {
                (done.push(open), seq![])
            } else {
                (done, seq![])
            }
        } else {
            (done, open.push(s.last()))
        }
    }
}

/// The maximal non-empty runs of non-whitespace characters of `s`, in order.
pub open spec fn split_whitespace(s: Seq<char>) -> Seq<Seq<char>> {
    let (done, open) = scan_words(s);
    if open.len() > 0 {
        done.push(open)
    } else {
        done
    }
}

/// The words of a text, in order of occurrence, repeats included.
pub open spec fn words_of(s: Seq<char>) -> Seq<Seq<char>> {
    split_whitespace(strip_punctuation(s))
}

fn is_punctuation(c: char) -> (r: bool)
    ensures
        r == is_ascii_punctuation(c),
{
    let u = c as u32;
    (0x21 <= u && u <= 0x2f) || (0x3a <= u && u <= 0x40) || (0x5b <= u && u <= 0x60) || (0x7b
        <= u && u <= 0x7e)
}

fn is_whitespace(c: char) -> (r: bool)
    ensures
        r == is_ascii_whitespace(c),
{
    let u = c as u32;
    u == 0x20 || u == 0x09 || u == 0x0a || u == 0x0c || u == 0x0d
}

/// The text with every ASCII punctuation character removed.
pub fn strip(text: &str) -> (r: String)
    ensures
        r@ == strip_punctuation(text@),
{
    let mut out = String::new();
    for c in it: text.chars()
        invariant
            it.seq() == text@,
            out@ == strip_punctuation(text@.take(it.index())),
    {
        proof {
            assert(text@.take(it.index() + 1).drop_last() == text@.take(it.index()));
        }
        if !is_punctuation(c) {
            out.push(c);
        }
    }
    proof {
        assert(text@.take(text@.len() as int) == text@);
    }
    out
}

/// Splits a text into its maximal runs of non-whitespace characters.
pub fn split(text: &str) -> (r: Vec<String>)
    ensures
        r.len() == split_whitespace(text@).len(),
        forall|i: int| 0 <= i < r.len() ==> r[i]@ == split_whitespace(text@)[i],
{
    let mut done: Vec<String> = Vec::new();
    let mut open = String::new();
    for c in it: text.chars()
        invariant
            it.seq() == text@,
            done.len() == scan_words(text@.take(it.index())).0.len(),
            forall|i: int|
                0 <= i < done.len() ==> done[i]@ == scan_words(text@.take(it.index())).0[i],
            open@ == scan_words(text@.take(it.index())).1,
    {
        proof {
            assert(text@.take(it.index() + 1).drop_last() == text@.take(it.index()));
        }
        if is_whitespace(c) {
            if !open.as_str().is_empty() {
                done.push(open);
                open = String::new();
            }
        } else {
            open.push(c);
        }
    }
    proof {
        assert(text@.take(text@.len() as int) == text@);
    }
    if !open.as_str().is_empty() {
        done.push(open);
    }
    done
}

/// The words of a text: punctuation removed, then split on whitespace.
pub fn words(text: &str) -> (r: Vec<String>)
    ensures
        r.len() == words_of(text@).len(),
        forall|i: int| 0 <= i < r.len() ==> r[i]@ == words_of(text@)[i],
{
    let stripped = strip(text);
    split(stripped.as_str())
}

} // verus!

//! Splitting raw text into normalized tokens.
use vstd::prelude::*;

verus! {

/// What `str::to_lowercase` makes of a text.
pub uninterp spec fn lower_of(s: Seq<char>) -> Seq<char>;

/// What `char::is_alphanumeric` says of a character.
pub uninterp spec fn is_alphanumeric_char(c: char) -> bool;

/// Relies on `str::to_lowercase`: the lowercase form of the text, which
/// depends on the characters alone.
#[verifier::external_body]
fn lowercase(s: &str) -> (r: String)
    ensures
        r@ == lower_of(s@),
{
    s.to_lowercase()
}

/// Relies on `char::is_alphanumeric`: whether the character is alphabetic
/// or numeric in Unicode's classification.
#[verifier::external_body]
fn is_alphanumeric(c: char) -> (b: bool)
    ensures
        b == is_alphanumeric_char(c),
{
    c.is_alphanumeric()
}

/// Relies on `String::push`: appends one character.
#[verifier::external_body]
fn push_char(s: &mut String, c: char)
    ensures
        final(s)@ == old(s)@.push(c),
{
    s.push(c)
}

/// Scans `s` left to right: the tokens completed so far, and the run of
/// alphanumeric characters still open at the end.
pub open spec fn scan(s: Seq<char>) -> (Seq<Seq<char>>, Seq<char>)
    decreases s.len(),
{
    if s.len() == 0 {
        (Seq::empty(), Seq::empty())
    } else {
        let (done, open) = scan(s.drop_last());
        let c = s.last();
        if is_alphanumeric_char(c) {
            (done, open.push(c))
        } else if open.len() >= 2 {
            (done.push(open), Seq::empty())
        } else {
            (done, Seq::empty())
        }
    }
}

/// The maximal runs of alphanumeric characters of `s` with at least two
/// characters, left to right.
pub open spec fn tokens_of(s: Seq<char>) -> Seq<Seq<char>> {
    let (done, open) = scan(s);
    if open.len() >= 2 {
        done.push(open)
    } else {
        done
    }
}

/// The views of a vector of strings.
pub open spec fn views(v: Seq<String>) -> Seq<Seq<char>> {
    Seq::new(v.len(), |i: int| v[i]@)
}

/// Lowercases `text` and splits it into its alphanumeric runs, dropping runs
/// shorter than two characters.
pub fn tokenize(text: &str) -> (r: Vec<String>)
    ensures
        views(r@) == tokens_of(lower_of(text@)),
{
    let lowered = lowercase(text);
    split_tokens(lowered.as_str())
}

/// Splits already-lowercased text into its alphanumeric runs, dropping runs
/// shorter than two characters.
pub fn split_tokens(lowered: &str) -> (r: Vec<String>)
    ensures
        views(r@) == tokens_of(lowered@),
{
    let ghost chars = lowered@;
    let mut done: Vec<String> = Vec::new();
    let mut open = String::new();
    // length of the open run, counted up to two
    let mut open_len: usize = 0;
    for c in it: lowered.chars()
        invariant
            it.seq() == chars,
            (views(done@), open@) == scan(chars.take(it.index() as int)),
            open_len == (if open@.len() < 2 { open@.len() } else { 2 }),
    {
        proof {
            assert(chars.take(it.index() as int + 1).drop_last() == chars.take(it.index() as int));
        }
        if is_alphanumeric(c) {
            push_char(&mut open, c);
            if open_len < 2 {
                open_len = open_len + 1;
            }
        } else {
            if open_len >= 2 {
                let finished = open;
                done.push(finished);
                assert(views(done@) == views(done@.drop_last()).push(finished@));
            }
            open = String::new();
            open_len = 0;
        }
    }
    assert(chars.take(chars.len() as int) == chars);
    if open_len >= 2 {
        let finished = open;
        done.push(finished);
        assert(views(done@) == views(done@.drop_last()).push(finished@));
    }
    done
}

} // verus!

//! Word normalization: ASCII lowercasing and removal of ASCII punctuation.

use vstd::prelude::*;
use vstd::string::StrSliceExecFns;
use crate::outside::push_char;

verus! {

/// ASCII punctuation, as `char::is_ascii_punctuation` classifies it.
pub open spec fn is_punct(c: char) -> bool {
    ('!' <= c && c <= '/') || (':' <= c && c <= '@') || ('[' <= c && c <= '`') || ('{' <= c
        && c <= '~')
}

/// ASCII lowercase of one character; other characters are kept.
pub open spec fn lower(c: char) -> char {
    if 'A' <= c && c <= 'Z' {
        ((c as u32) + 32) as char
    } else {
        c
    }
}

/// A word with ASCII punctuation removed and ASCII letters lowercased.
pub open spec fn normalize(w: Seq<char>) -> Seq<char>
    decreases w.len(),
{
    if w.len() == 0 {
        seq![]
    } else {
        let p = normalize(w.drop_last());
        if is_punct(w.last()) {
            p
        } else {
            p.push(lower(w.last()))
        }
    }
}

fn lower_char(c: char) -> (r: char)
    ensures
        r == lower(c),
{
    if 'A' <= c && c <= 'Z' {
        ((c as u8) + 32) as char
    } else {
        c
    }
}

fn is_punct_char(c: char) -> (r: bool)
    ensures
        r == is_punct(c),
{
    ('!' <= c && c <= '/') || (':' <= c && c <= '@') || ('[' <= c && c <= '`') || ('{' <= c
        && c <= '~')
}

/// Lowercases the ASCII letters of `word` and drops its ASCII punctuation.
pub fn normalize_word(word: &str) -> (r: String)
    ensures
        r@ == normalize(word@),
{
    let n = word.unicode_len();
    let mut out = String::new();
    let mut i: usize = 0;
    while i < n
        invariant
            n == word@.len(),
            i <= n,
            out@ == normalize(word@.subrange(0, i as int)),
        decreases n - i,
    {
        let c = word.get_char(i);
        assert(word@.subrange(0, i + 1).drop_last() =~= word@.subrange(0, i as int));
        if !is_punct_char(c) {
            push_char(&mut out, lower_char(c));
        }
        i = i + 1;
    }
    assert(word@.subrange(0, n as int) =~= word@);
    out
}

} // verus!

use vstd::prelude::*;
use crate::score::Score;

verus! {

/// Per-call comparison settings, passed unchanged to every scorer.
#[derive(Clone, Copy, Debug)]
pub struct CompareOptions {
    /// When false, both operands are folded to ASCII upper case first.
    pub case_sensitive: bool,
    /// When true, whitespace characters are dropped from both operands first.
    pub remove_whitespace: bool,
    /// Accepted and carried along, but not consulted by any scorer.
    pub threshold: Score,
}

/// Case-insensitive, whitespace kept, threshold zero.
pub open spec fn default_options() -> CompareOptions {
    CompareOptions { case_sensitive: false, remove_whitespace: false, threshold: Score { num: 0, den: 1 } }
}

impl Default for CompareOptions {
    fn default() -> (r: CompareOptions)
        ensures
            r == default_options(),
    {
        CompareOptions { case_sensitive: false, remove_whitespace: false, threshold: Score::whole(0) }
    }
}

/// The Unicode `White_Space` characters.
pub open spec fn is_space(c: char) -> bool {
    ('\t' <= c <= '\r') || c == ' ' || c == '\u{85}' || c == '\u{a0}' || c == '\u{1680}'
        || ('\u{2000}' <= c <= '\u{200a}') || c == '\u{2028}' || c == '\u{2029}'
        || c == '\u{202f}' || c == '\u{205f}' || c == '\u{3000}'
}

pub open spec fn ascii_upper(c: char) -> char {
    if 'a' <= c <= 'z' {
        ((c as u32 - 32) as u8) as char
    } else {
        c
    }
}

pub open spec fn fold_char(c: char, case_sensitive: bool) -> char {
    if case_sensitive {
        c
    } else {
        ascii_upper(c)
    }
}

/// The operand as the scorers see it: whitespace dropped if asked, then case folded if asked.
pub open spec fn normalize(s: Seq<char>, o: CompareOptions) -> Seq<char>
    decreases s.len(),
{
    if s.len() == 0 {
        Seq::empty()
    } else {
        let rest = normalize(s.drop_last(), o);
        let c = s.last();
        if o.remove_whitespace && is_space(c) {
            rest
        } else {
            rest.push(fold_char(c, o.case_sensitive))
        }
    }
}

pub fn is_space_char(c: char) -> (r: bool)
    ensures
        r == is_space(c),
{
    ('\t' <= c && c <= '\r') || c == ' ' || c == '\u{85}' || c == '\u{a0}' || c == '\u{1680}'
        || ('\u{2000}' <= c && c <= '\u{200a}') || c == '\u{2028}' || c == '\u{2029}'
        || c == '\u{202f}' || c == '\u{205f}' || c == '\u{3000}'
}

pub fn ascii_upper_char(c: char) -> (r: char)
    ensures
        r == ascii_upper(c),
{
    if 'a' <= c && c <= 'z' {
        ((c as u32 - 32) as u8) as char
    } else {
        c
    }
}

pub proof fn lemma_normalize_len(s: Seq<char>, o: CompareOptions)
    ensures
        normalize(s, o).len() <= s.len(),
    decreases s.len(),
{
    if s.len() > 0 {
        lemma_normalize_len(s.drop_last(), o);
    }
}

/// The normalized characters of `s`.
pub fn normalized_chars(s: &str, o: CompareOptions) -> (r: Vec<char>)
    ensures
        r@ == normalize(s@, o),
        r@.len() <= s@.len(),
{
    proof {
        lemma_normalize_len(s@, o);
    }
    let mut out: Vec<char> = Vec::new();
    let mut it = s.chars();
    for c in iter: it
        invariant
            iter.seq() == s@,
            out@ == normalize(s@.take(iter.index() as int), o),
    {
        proof {
            let k = iter.index() as int;
            assert(s@.take(k + 1).drop_last() == s@.take(k));
        }
        if !(o.remove_whitespace && is_space_char(c)) {
            let f = if o.case_sensitive { c } else { ascii_upper_char(c) };
            out.push(f);
        }
    }
    proof {
        assert(s@.take(s@.len() as int) == s@);
    }
    out
}

/// The characters of `s`, in order.
pub fn chars_of(s: &str) -> (r: Vec<char>)
    ensures
        r@ == s@,
{
    let mut out: Vec<char> = Vec::new();
    let mut it = s.chars();
    for c in iter: it
        invariant
            iter.seq() == s@,
            out@ == s@.take(iter.index() as int),
    {
        proof {
            assert(s@.take(iter.index() as int + 1) == out@.push(c));
        }
        out.push(c);
    }
    proof {
        assert(s@.take(s@.len() as int) == s@);
    }
    out
}

/// Whether two character vectors hold the same sequence.
pub fn same_chars(a: &Vec<char>, b: &Vec<char>) -> (r: bool)
    ensures
        r == (a@ == b@),
{
    if a.len() != b.len() {
        return false;
    }
    let mut i: usize = 0;
    while i < a.len()
        invariant
            i <= a.len(),
            a.len() == b.len(),
            forall|k: int| 0 <= k < i ==> a@[k] == b@[k],
        decreases a.len() - i,
    {
        if a[i] != b[i] {
            return false;
        }
        i += 1;
    }
    proof {
        assert(a@ =~= b@);
    }
    true
}

/// The normalized form of `s[start..end]`.
pub fn normalize_range(s: &Vec<char>, start: usize, end: usize, o: CompareOptions) -> (r: Vec<char>)
    requires
        start <= end <= s.len(),
    ensures
        r@ == normalize(s@.subrange(start as int, end as int), o),
        r@.len() <= end - start,
{
    let mut out: Vec<char> = Vec::new();
    let mut k: usize = start;
    while k < end
        invariant
            start <= k <= end,
            end <= s.len(),
            out@ == normalize(s@.subrange(start as int, k as int), o),
        decreases end - k,
    {
        proof {
            let next = s@.subrange(start as int, k + 1);
            assert(next.drop_last() == s@.subrange(start as int, k as int));
            assert(next.last() == s@[k as int]);
        }
        if !(o.remove_whitespace && is_space_char(s[k])) {
            let f = if o.case_sensitive { s[k] } else { ascii_upper_char(s[k]) };
            out.push(f);
        }
        k += 1;
    }
    proof {
        lemma_normalize_len(s@.subrange(start as int, end as int), o);
    }
    out
}

} // verus!

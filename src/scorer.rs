use vstd::prelude::*;
use crate::error::MatchError;
use crate::registry::AlgorithmKind;
use crate::score::Score;
use crate::text::{lemma_normalize_len, normalize, normalized_chars, same_chars, CompareOptions};

verus! {

/// The longest operand, in characters, that a scorer accepts: it keeps every
/// exact fraction within 64 bits.
pub const MAX_CHARS: usize = 524288;

pub open spec fn fits(s: Seq<char>) -> bool {
    s.len() <= MAX_CHARS
}

pub open spec fn min3(x: nat, y: nat, z: nat) -> nat {
    if x <= y && x <= z {
        x
    } else if y <= z {
        y
    } else {
        z
    }
}

/// Edit distance with unit cost for insertion, deletion and substitution.
pub open spec fn lev(a: Seq<char>, b: Seq<char>) -> nat
    decreases a.len() + b.len(),
{
    if a.len() == 0 {
        b.len()
    } else if b.len() == 0 {
        a.len()
    } else {
        min3(
            lev(a.drop_last(), b) + 1,
            lev(a, b.drop_last()) + 1,
            lev(a.drop_last(), b.drop_last()) + if a.last() == b.last() {
                0nat
            } else {
                1nat
            },
        )
    }
}

proof fn lemma_lev_bound(a: Seq<char>, b: Seq<char>)
    ensures
        lev(a, b) <= a.len() + b.len(),
    decreases a.len() + b.len(),
{
    if a.len() > 0 && b.len() > 0 {
        lemma_lev_bound(a.drop_last(), b);
    }
}

/// Edit distance of two character sequences, by dynamic programming over two rows.
fn edit_distance(a: &Vec<char>, b: &Vec<char>) -> (r: usize)
    requires
        a.len() <= MAX_CHARS,
        b.len() <= MAX_CHARS,
    ensures
        r == lev(a@, b@),
{
    let n = a.len();
    let m = b.len();
    let mut prev: Vec<usize> = Vec::new();
    let mut j: usize = 0;
    while j <= m
        invariant
            j <= m + 1,
            m == b.len(),
            m <= MAX_CHARS,
            prev.len() == j,
            forall|k: int| 0 <= k < j ==> prev[k] == lev(a@.take(0), b@.take(k)),
        decreases m + 1 - j,
    {
        proof {
            assert(a@.take(0).len() == 0);
        }
        prev.push(j);
        j += 1;
    }
    let mut i: usize = 0;
    while i < n
        invariant
            i <= n,
            n == a.len(),
            m == b.len(),
            n <= MAX_CHARS,
            m <= MAX_CHARS,
            prev.len() == m + 1,
            forall|k: int| 0 <= k <= m ==> prev[k] == lev(a@.take(i as int), b@.take(k)),
        decreases n - i,
    {
        let ghost ai = a@.take(i as int);
        let ghost ai1 = a@.take(i as int + 1);
        proof {
            assert(ai1.drop_last() == ai);
            assert(ai1.last() == a@[i as int]);
            assert(b@.take(0).len() == 0);
        }
        let mut cur: Vec<usize> = Vec::new();
        cur.push(i + 1);
        let mut j: usize = 1;
        while j <= m
            invariant
                1 <= j <= m + 1,
                i < n,
                n == a.len(),
                m == b.len(),
                n <= MAX_CHARS,
                m <= MAX_CHARS,
                prev.len() == m + 1,
                ai == a@.take(i as int),
                ai1 == a@.take(i as int + 1),
                ai1.drop_last() == ai,
                ai1.last() == a@[i as int],
                forall|k: int| 0 <= k <= m ==> prev[k] == lev(ai, b@.take(k)),
                cur.len() == j,
                forall|k: int| 0 <= k < j ==> cur[k] == lev(ai1, b@.take(k)),
            decreases m + 1 - j,
        {
            let ghost bj = b@.take(j as int);
            proof {
                assert(bj.drop_last() == b@.take(j - 1));
                assert(bj.last() == b@[j - 1]);
                lemma_lev_bound(ai, bj);
                lemma_lev_bound(ai1, b@.take(j - 1));
                lemma_lev_bound(ai, b@.take(j - 1));
            }
            let del = prev[j] + 1;
            let ins = cur[j - 1] + 1;
            let sub = if a[i] == b[j - 1] {
                prev[j - 1]
            } else {
                prev[j - 1] + 1
            };
            let best = if del <= ins && del <= sub {
                del
            } else if ins <= sub {
                ins
            } else {
                sub
            };
            cur.push(best);
            j += 1;
        }
        prev = cur;
        i += 1;
    }
    proof {
        assert(a@.take(n as int) == a@);
        assert(b@.take(m as int) == b@);
    }
    prev[m]
}

/// Number of positions at which two equally long sequences differ.
pub open spec fn mismatches(a: Seq<char>, b: Seq<char>) -> nat
    decreases a.len(),
{
    if a.len() == 0 || b.len() == 0 {
        0
    } else {
        mismatches(a.drop_last(), b.drop_last()) + if a.last() == b.last() {
            0nat
        } else {
            1nat
        }
    }
}

proof fn lemma_mismatches_bound(a: Seq<char>, b: Seq<char>)
    ensures
        mismatches(a, b) <= a.len(),
    decreases a.len(),
{
    if a.len() > 0 && b.len() > 0 {
        lemma_mismatches_bound(a.drop_last(), b.drop_last());
    }
}

fn count_mismatches(a: &Vec<char>, b: &Vec<char>) -> (r: usize)
    requires
        a.len() == b.len(),
    ensures
        r == mismatches(a@, b@),
{
    let mut count: usize = 0;
    let mut i: usize = 0;
    while i < a.len()
        invariant
            i <= a.len(),
            a.len() == b.len(),
            count == mismatches(a@.take(i as int), b@.take(i as int)),
        decreases a.len() - i,
    {
        proof {
            let (x, y) = (a@.take(i + 1), b@.take(i + 1));
            assert(x.drop_last() == a@.take(i as int));
            assert(y.drop_last() == b@.take(i as int));
            lemma_mismatches_bound(a@.take(i as int), b@.take(i as int));
        }
        if a[i] != b[i] {
            count += 1;
        }
        i += 1;
    }
    proof {
        assert(a@.take(i as int) == a@);
        assert(b@.take(i as int) == b@);
    }
    count
}

/// Half-width of the Jaro match window; a negative width is taken as zero.
pub open spec fn match_window(n: nat, m: nat) -> int {
    let w = (if n >= m { n } else { m }) as int / 2 - 1;
    if w < 0 { 0 } else { w }
}

/// The first position in `lo..hi` of `b` that holds `c` and is not yet taken, or `hi`.
pub open spec fn first_free(c: char, b: Seq<char>, used: Seq<bool>, lo: int, hi: int) -> int
    decreases hi - lo,
{
    if lo >= hi {
        hi
    } else if b[lo] == c && !used[lo] {
        lo
    } else {
        first_free(c, b, used, lo + 1, hi)
    }
}

/// Greedy matching of the first `i` characters of `a` into `b`: whether each of
/// them found a partner, and which positions of `b` are taken.
pub open spec fn scan(a: Seq<char>, b: Seq<char>, i: nat) -> (Seq<bool>, Seq<bool>)
    decreases i,
{
    if i == 0 {
        (Seq::empty(), Seq::new(b.len(), |k: int| false))
    } else {
        let prior = scan(a, b, (i - 1) as nat);
        let w = match_window(a.len(), b.len());
        let lo = if i - 1 - w < 0 { 0 } else { i - 1 - w };
        let hi = if i + w < b.len() { i + w } else { b.len() as int };
        let j = first_free(a[i - 1], b, prior.1, lo, hi);
        if j < hi {
            (prior.0.push(true), prior.1.update(j, true))
        } else {
            (prior.0.push(false), prior.1)
        }
    }
}

/// The characters of `s` at the flagged positions, in order.
pub open spec fn pick(s: Seq<char>, f: Seq<bool>) -> Seq<char>
    decreases f.len(),
{
    if f.len() == 0 {
        Seq::empty()
    } else if f.last() {
        pick(s, f.drop_last()).push(s[f.len() - 1])
    } else {
        pick(s, f.drop_last())
    }
}

pub open spec fn count_true(f: Seq<bool>) -> nat
    decreases f.len(),
{
    if f.len() == 0 {
        0
    } else {
        count_true(f.drop_last()) + if f.last() { 1nat } else { 0nat }
    }
}

/// Matched characters of `a`, in the order of `a`.
pub open spec fn matched_a(a: Seq<char>, b: Seq<char>) -> Seq<char> {
    pick(a, scan(a, b, a.len()).0)
}

/// Matched characters of `b`, in the order of `b`.
pub open spec fn matched_b(a: Seq<char>, b: Seq<char>) -> Seq<char> {
    pick(b, scan(a, b, a.len()).1)
}

/// Number of matched characters.
pub open spec fn jaro_matches(a: Seq<char>, b: Seq<char>) -> nat {
    matched_a(a, b).len()
}

/// Transpositions: places where the matched characters disagree, halved once.
pub open spec fn jaro_transpositions(a: Seq<char>, b: Seq<char>) -> nat {
    mismatches(matched_a(a, b), matched_b(a, b)) / 2
}

/// Numerator of the Jaro similarity over the denominator `jaro_den`:
/// `(k/n + k/m + (k - t)/k) / 3` with `k` matches and `t` transpositions.
pub open spec fn jaro_num(a: Seq<char>, b: Seq<char>) -> int {
    let (n, m, k, t) = (
        a.len() as int,
        b.len() as int,
        jaro_matches(a, b) as int,
        jaro_transpositions(a, b) as int,
    );
    if a == b {
        1
    } else if k == 0 {
        0
    } else {
        k * k * m + k * k * n + (k - t) * n * m
    }
}

pub open spec fn jaro_den(a: Seq<char>, b: Seq<char>) -> int {
    let (n, m, k) = (a.len() as int, b.len() as int, jaro_matches(a, b) as int);
    if a == b || k == 0 {
        1
    } else {
        3 * n * m * k
    }
}

/// Length of the longest common prefix.
pub open spec fn prefix_from(a: Seq<char>, b: Seq<char>, i: int) -> nat
    decreases a.len() - i,
{
    if 0 <= i < a.len() && i < b.len() && a[i] == b[i] {
        1 + prefix_from(a, b, i + 1)
    } else {
        0
    }
}

/// The prefix length that Jaro-Winkler rewards, at most four.
pub open spec fn winkler_prefix(a: Seq<char>, b: Seq<char>) -> int {
    let p = prefix_from(a, b, 0) as int;
    if p < 4 { p } else { 4 }
}

/// Whether the Jaro score exceeds 0.7, the point from which the prefix boost applies.
pub open spec fn boosted(a: Seq<char>, b: Seq<char>) -> bool {
    10 * jaro_num(a, b) > 7 * jaro_den(a, b)
}

/// Jaro-Winkler: `j + p/10 * (1 - j)` when `j > 0.7`, else `j`.
pub open spec fn jw_num(a: Seq<char>, b: Seq<char>) -> int {
    if boosted(a, b) {
        10 * jaro_num(a, b) + winkler_prefix(a, b) * (jaro_den(a, b) - jaro_num(a, b))
    } else {
        jaro_num(a, b)
    }
}

pub open spec fn jw_den(a: Seq<char>, b: Seq<char>) -> int {
    if boosted(a, b) {
        10 * jaro_den(a, b)
    } else {
        jaro_den(a, b)
    }
}

proof fn lemma_count_update(f: Seq<bool>, j: int)
    requires
        0 <= j < f.len(),
        !f[j],
    ensures
        count_true(f.update(j, true)) == count_true(f) + 1,
    decreases f.len(),
{
    let g = f.update(j, true);
    assert(g.drop_last() == if j == f.len() - 1 { f.drop_last() } else { f.drop_last().update(j, true) });
    if j < f.len() - 1 {
        lemma_count_update(f.drop_last(), j);
    }
}

proof fn lemma_count_bound(f: Seq<bool>)
    ensures
        count_true(f) <= f.len(),
    decreases f.len(),
{
    if f.len() > 0 {
        lemma_count_bound(f.drop_last());
    }
}

proof fn lemma_pick_len(s: Seq<char>, f: Seq<bool>)
    ensures
        pick(s, f).len() == count_true(f),
    decreases f.len(),
{
    if f.len() > 0 {
        lemma_pick_len(s, f.drop_last());
    }
}

proof fn lemma_all_false(m: nat)
    ensures
        count_true(Seq::new(m, |k: int| false)) == 0,
    decreases m,
{
    if m > 0 {
        assert(Seq::new(m, |k: int| false).drop_last() == Seq::new((m - 1) as nat, |k: int| false));
        lemma_all_false((m - 1) as nat);
    }
}

proof fn lemma_scan(a: Seq<char>, b: Seq<char>, i: nat)
    requires
        i <= a.len(),
    ensures
        scan(a, b, i).0.len() == i,
        scan(a, b, i).1.len() == b.len(),
        count_true(scan(a, b, i).0) == count_true(scan(a, b, i).1),
    decreases i,
{
    if i == 0 {
        lemma_all_false(b.len());
    } else {
        lemma_scan(a, b, (i - 1) as nat);
        let prior = scan(a, b, (i - 1) as nat);
        let w = match_window(a.len(), b.len());
        let lo = if i - 1 - w < 0 { 0 } else { i - 1 - w };
        let hi = if i + w < b.len() { i + w } else { b.len() as int };
        let j = first_free(a[i - 1], b, prior.1, lo, hi);
        lemma_first_free(a[i - 1], b, prior.1, lo, hi);
        assert(prior.0.push(true).drop_last() == prior.0);
        assert(prior.0.push(false).drop_last() == prior.0);
        if j < hi {
            lemma_count_update(prior.1, j);
        }
    }
}

proof fn lemma_first_free(c: char, b: Seq<char>, used: Seq<bool>, lo: int, hi: int)
    requires
        0 <= lo,
        hi <= b.len(),
        used.len() == b.len(),
    ensures
        first_free(c, b, used, lo, hi) < hi ==> {
            let j = first_free(c, b, used, lo, hi);
            lo <= j && b[j] == c && !used[j]
        },
    decreases hi - lo,
{
    if lo < hi {
        lemma_first_free(c, b, used, lo + 1, hi);
    }
}

/// Matches of `a` and of `b` are equally many, and no more than either length.
proof fn lemma_matches(a: Seq<char>, b: Seq<char>)
    ensures
        matched_b(a, b).len() == jaro_matches(a, b),
        jaro_matches(a, b) <= a.len(),
        jaro_matches(a, b) <= b.len(),
        jaro_transpositions(a, b) <= jaro_matches(a, b),
{
    let s = scan(a, b, a.len());
    lemma_scan(a, b, a.len());
    lemma_pick_len(a, s.0);
    lemma_pick_len(b, s.1);
    lemma_count_bound(s.0);
    lemma_count_bound(s.1);
    lemma_mismatches_bound(matched_a(a, b), matched_b(a, b));
}

/// The Jaro score is a fraction in `[0, 1]` whose terms fit the bounds below.
proof fn lemma_jaro_range(a: Seq<char>, b: Seq<char>)
    requires
        fits(a),
        fits(b),
    ensures
        0 <= jaro_num(a, b) <= jaro_den(a, b),
        0 < jaro_den(a, b) <= 3 * (MAX_CHARS as int) * (MAX_CHARS as int) * (MAX_CHARS as int),
{
    lemma_matches(a, b);
    let (n, m, k, t) = (
        a.len() as int,
        b.len() as int,
        jaro_matches(a, b) as int,
        jaro_transpositions(a, b) as int,
    );
    if a != b && k != 0 {
        let big = MAX_CHARS as int;
        assert(k * k * m <= k * n * m) by (nonlinear_arith)
            requires 0 <= k <= n, 0 <= m;
        assert(k * k * n <= k * n * m) by (nonlinear_arith)
            requires 0 <= k <= m, 0 <= n;
        assert((k - t) * n * m <= k * n * m) by (nonlinear_arith)
            requires 0 <= t <= k, 0 <= n, 0 <= m;
        assert(0 <= (k - t) * n * m) by (nonlinear_arith)
            requires 0 <= t <= k, 0 <= n, 0 <= m;
        assert(0 <= k * k * m && 0 <= k * k * n) by (nonlinear_arith)
            requires 0 <= k, 0 <= n, 0 <= m;
        assert(0 < 3 * n * m * k <= 3 * big * big * big) by (nonlinear_arith)
            requires 0 < k <= n <= big, k <= m <= big;
        assert(k * k * m + k * k * n + (k - t) * n * m <= 3 * n * m * k) by (nonlinear_arith)
            requires
                k * k * m <= k * n * m,
                k * k * n <= k * n * m,
                (k - t) * n * m <= k * n * m;
    }
}

/// The characters of `s` at the flagged positions.
fn pick_flagged(s: &Vec<char>, f: &Vec<bool>) -> (r: Vec<char>)
    requires
        f.len() <= s.len(),
    ensures
        r@ == pick(s@, f@),
{
    let mut out: Vec<char> = Vec::new();
    let mut i: usize = 0;
    while i < f.len()
        invariant
            i <= f.len(),
            f.len() <= s.len(),
            out@ == pick(s@, f@.take(i as int)),
        decreases f.len() - i,
    {
        proof {
            assert(f@.take(i + 1).drop_last() == f@.take(i as int));
        }
        if f[i] {
            out.push(s[i]);
        }
        i += 1;
    }
    proof {
        assert(f@.take(i as int) == f@);
    }
    out
}

/// Greedy Jaro matching of `a` into `b`.
fn match_flags(a: &Vec<char>, b: &Vec<char>) -> (r: (Vec<bool>, Vec<bool>))
    requires
        a.len() <= MAX_CHARS,
        b.len() <= MAX_CHARS,
    ensures
        r.0@ == scan(a@, b@, a@.len()).0,
        r.1@ == scan(a@, b@, a@.len()).1,
{
    let n = a.len();
    let m = b.len();
    let big = if n >= m { n } else { m };
    let w: usize = if big / 2 >= 1 { big / 2 - 1 } else { 0 };
    assert(w == match_window(n as nat, m as nat));
    let mut used: Vec<bool> = Vec::new();
    let mut k: usize = 0;
    while k < m
        invariant
            k <= m,
            m == b.len(),
            used@ == Seq::new(k as nat, |x: int| false),
        decreases m - k,
    {
        used.push(false);
        k += 1;
        assert(used@ =~= Seq::new(k as nat, |x: int| false));
    }
    let mut matched: Vec<bool> = Vec::new();
    let mut i: usize = 0;
    while i < n
        invariant
            i <= n,
            n == a.len(),
            m == b.len(),
            n <= MAX_CHARS,
            m <= MAX_CHARS,
            w == match_window(n as nat, m as nat),
            matched@ == scan(a@, b@, i as nat).0,
            used@ == scan(a@, b@, i as nat).1,
        decreases n - i,
    {
        proof {
            lemma_scan(a@, b@, i as nat);
        }
        let lo: usize = if i >= w { i - w } else { 0 };
        let hi: usize = if i + w + 1 < m { i + w + 1 } else { m };
        let c = a[i];
        let mut j: usize = lo;
        while j < hi && !(b[j] == c && !used[j])
            invariant
                lo <= j,
                hi <= m,
                m == b.len(),
                used.len() == m,
                first_free(c, b@, used@, lo as int, hi as int) == first_free(
                    c,
                    b@,
                    used@,
                    j as int,
                    hi as int,
                ),
            decreases hi - j,
        {
            j += 1;
        }
        if j < hi {
            matched.push(true);
            used.set(j, true);
        } else {
            matched.push(false);
        }
        i += 1;
    }
    (matched, used)
}

/// Jaro similarity of two character sequences.
fn jaro_of(a: &Vec<char>, b: &Vec<char>) -> (r: Score)
    requires
        fits(a@),
        fits(b@),
    ensures
        r.num == jaro_num(a@, b@),
        r.den == jaro_den(a@, b@),
{
    proof {
        lemma_jaro_range(a@, b@);
        lemma_matches(a@, b@);
    }
    if same_chars(a, b) {
        return Score { num: 1, den: 1 };
    }
    let (matched, used) = match_flags(a, b);
    proof {
        lemma_scan(a@, b@, a@.len());
    }
    let xa = pick_flagged(a, &matched);
    let xb = pick_flagged(b, &used);
    let k = xa.len() as u64;
    if k == 0 {
        return Score { num: 0, den: 1 };
    }
    let t = (count_mismatches(&xa, &xb) / 2) as u64;
    let n = a.len() as u64;
    let m = b.len() as u64;
    proof {
        let big = MAX_CHARS as int;
        assert(k * k <= big * big && (k - t) * n <= big * big && n * m <= big * big)
            by (nonlinear_arith)
            requires 0 <= t <= k <= big, 0 <= n <= big, 0 <= m <= big;
        assert(k * k * m <= big * big * big) by (nonlinear_arith)
            requires 0 <= k <= big, 0 <= m <= big;
        assert(k * k * n <= big * big * big) by (nonlinear_arith)
            requires 0 <= k <= big, 0 <= n <= big;
        assert((k - t) * n * m <= big * big * big) by (nonlinear_arith)
            requires 0 <= t <= k <= big, 0 <= n <= big, 0 <= m <= big;
        assert(3 * (n * m) * k == 3 * n * m * k) by (nonlinear_arith);
    }
    let kk = k * k;
    let kt = (k - t) * n;
    let nm = n * m;
    Score { num: kk * m + kk * n + kt * m, den: 3 * nm * k }
}

/// The shared prefix of `a` and `b`, counted up to four.
fn short_prefix(a: &Vec<char>, b: &Vec<char>) -> (r: u64)
    ensures
        r == winkler_prefix(a@, b@),
{
    let mut i: usize = 0;
    while i < 4 && i < a.len() && i < b.len() && a[i] == b[i]
        invariant
            i <= 4,
            prefix_from(a@, b@, 0) == i + prefix_from(a@, b@, i as int),
        decreases 4 - i,
    {
        i += 1;
    }
    i as u64
}

} // verus!

verus! {

/// Levenshtein distance of the normalized operands.
pub fn levenshtein_distance(word1: &str, word2: &str, options: CompareOptions) -> (r: Score)
    requires
        fits(word1@),
        fits(word2@),
    ensures
        r.den == 1,
        r.num == lev(normalize(word1@, options), normalize(word2@, options)),
{
    let a = normalized_chars(word1, options);
    let b = normalized_chars(word2, options);
    let d = edit_distance(&a, &b);
    Score::whole(d as u64)
}

/// Hamming distance of the normalized operands, which must be equally long.
pub fn hamming_distance(word1: &str, word2: &str, options: CompareOptions) -> (r: Result<
    Score,
    MatchError,
>)
    ensures
        ({
            let (a, b) = (normalize(word1@, options), normalize(word2@, options));
            &&& r is Ok <==> a.len() == b.len()
            &&& r is Ok ==> r->Ok_0 == (Score { num: mismatches(a, b) as u64, den: 1 })
            &&& r is Err ==> r->Err_0 == MatchError::LengthMismatch(a.len() as usize, b.len() as usize)
        }),
{
    let a = normalized_chars(word1, options);
    let b = normalized_chars(word2, options);
    if a.len() != b.len() {
        return Err(MatchError::LengthMismatch(a.len(), b.len()));
    }
    let d = count_mismatches(&a, &b);
    Ok(Score::whole(d as u64))
}

/// Jaro similarity of the normalized operands.
pub fn jaro_distance(word1: &str, word2: &str, options: CompareOptions) -> (r: Score)
    requires
        fits(word1@),
        fits(word2@),
    ensures
        r.num == jaro_num(normalize(word1@, options), normalize(word2@, options)),
        r.den == jaro_den(normalize(word1@, options), normalize(word2@, options)),
{
    let a = normalized_chars(word1, options);
    let b = normalized_chars(word2, options);
    jaro_of(&a, &b)
}

/// Jaro-Winkler similarity of the normalized operands.
pub fn jaro_winkler_distance(word1: &str, word2: &str, options: CompareOptions) -> (r: Score)
    requires
        fits(word1@),
        fits(word2@),
    ensures
        r.num == jw_num(normalize(word1@, options), normalize(word2@, options)),
        r.den == jw_den(normalize(word1@, options), normalize(word2@, options)),
{
    let a = normalized_chars(word1, options);
    let b = normalized_chars(word2, options);
    jaro_winkler_of(&a, &b)
}

fn jaro_winkler_of(a: &Vec<char>, b: &Vec<char>) -> (r: Score)
    requires
        fits(a@),
        fits(b@),
    ensures
        r.num == jw_num(a@, b@),
        r.den == jw_den(a@, b@),
{
    let j = jaro_of(a, b);
    proof {
        lemma_jaro_range(a@, b@);
        let big = MAX_CHARS as int;
        assert(3 * big * big * big * 10 < u64::MAX);
    }
    if 10 * j.num > 7 * j.den {
        let p = short_prefix(a, b);
        proof {
            assert(p * (j.den - j.num) <= 4 * j.den) by (nonlinear_arith)
                requires 0 <= p <= 4, 0 <= j.num <= j.den;
        }
        Score { num: 10 * j.num + p * (j.den - j.num), den: 10 * j.den }
    } else {
        j
    }
}

} // verus!

verus! {

/// A string is at Levenshtein distance zero from itself.
pub proof fn levenshtein_to_self(s: Seq<char>, o: CompareOptions)
    ensures
        lev(normalize(s, o), normalize(s, o)) == 0,
{
    lemma_lev_self(normalize(s, o));
}

proof fn lemma_lev_self(s: Seq<char>)
    ensures
        lev(s, s) == 0,
    decreases s.len(),
{
    if s.len() > 0 {
        lemma_lev_self(s.drop_last());
    }
}

/// Levenshtein distance does not depend on the order of its operands.
pub proof fn levenshtein_symmetric(a: Seq<char>, b: Seq<char>, o: CompareOptions)
    ensures
        lev(normalize(a, o), normalize(b, o)) == lev(normalize(b, o), normalize(a, o)),
{
    lemma_lev_symmetric(normalize(a, o), normalize(b, o));
}

proof fn lemma_lev_symmetric(a: Seq<char>, b: Seq<char>)
    ensures
        lev(a, b) == lev(b, a),
    decreases a.len() + b.len(),
{
    if a.len() > 0 && b.len() > 0 {
        lemma_lev_symmetric(a.drop_last(), b);
        lemma_lev_symmetric(a, b.drop_last());
        lemma_lev_symmetric(a.drop_last(), b.drop_last());
    }
}

/// From the empty string, the Levenshtein distance is the other operand's length;
/// when whitespace is kept, that is its length before normalization.
pub proof fn levenshtein_from_empty(s: Seq<char>, o: CompareOptions)
    ensures
        lev(normalize(Seq::empty(), o), normalize(s, o)) == normalize(s, o).len(),
        !o.remove_whitespace ==> lev(normalize(Seq::empty(), o), normalize(s, o)) == s.len(),
{
    lemma_normalize_keeps_len(s, o);
}

proof fn lemma_normalize_keeps_len(s: Seq<char>, o: CompareOptions)
    ensures
        !o.remove_whitespace ==> normalize(s, o).len() == s.len(),
    decreases s.len(),
{
    if s.len() > 0 {
        lemma_normalize_keeps_len(s.drop_last(), o);
    }
}

/// A string has Jaro similarity exactly one with itself.
pub proof fn jaro_to_self(s: Seq<char>, o: CompareOptions)
    ensures
        jaro_num(normalize(s, o), normalize(s, o)) == 1,
        jaro_den(normalize(s, o), normalize(s, o)) == 1,
{
}

/// The Winkler prefix boost never lowers the Jaro score, and it leaves it
/// unchanged unless the Jaro score exceeds 0.7.
pub proof fn jaro_winkler_at_least_jaro(a: Seq<char>, b: Seq<char>, o: CompareOptions)
    requires
        fits(a),
        fits(b),
    ensures
        ({
            let (x, y) = (normalize(a, o), normalize(b, o));
            &&& jw_num(x, y) * jaro_den(x, y) >= jaro_num(x, y) * jw_den(x, y)
            &&& !boosted(x, y) ==> jw_num(x, y) == jaro_num(x, y) && jw_den(x, y) == jaro_den(x, y)
        }),
{
    let (x, y) = (normalize(a, o), normalize(b, o));
    lemma_normalize_len(a, o);
    lemma_normalize_len(b, o);
    lemma_jaro_range(x, y);
    if boosted(x, y) {
        let (j, d, p) = (jaro_num(x, y), jaro_den(x, y), winkler_prefix(x, y));
        assert(p >= 0);
        assert((10 * j + p * (d - j)) * d >= j * (10 * d)) by (nonlinear_arith)
            requires 0 <= j <= d, 0 <= p;
    }
}

} // verus!

verus! {

/// The score of `b` against `a` under `kind`, both already normalized.
pub open spec fn score_value(kind: AlgorithmKind, a: Seq<char>, b: Seq<char>) -> Score {
    match kind {
        AlgorithmKind::Levenshtein => Score { num: lev(a, b) as u64, den: 1 },
        AlgorithmKind::Hamming => Score { num: mismatches(a, b) as u64, den: 1 },
        AlgorithmKind::Jaro => Score { num: jaro_num(a, b) as u64, den: jaro_den(a, b) as u64 },
        AlgorithmKind::JaroWinkler => Score { num: jw_num(a, b) as u64, den: jw_den(a, b) as u64 },
    }
}

/// Whether `kind` can score `b` against `a`: Hamming asks for equal lengths.
pub open spec fn scorable(kind: AlgorithmKind, a: Seq<char>, b: Seq<char>) -> bool {
    fits(a) && fits(b) && (kind == AlgorithmKind::Hamming ==> a.len() == b.len())
}

/// Scores normalized operands with the chosen algorithm.
pub fn score_chars(kind: AlgorithmKind, a: &Vec<char>, b: &Vec<char>) -> (r: Score)
    requires
        scorable(kind, a@, b@),
    ensures
        r == score_value(kind, a@, b@),
        r.wf(),
{
    proof {
        lemma_jaro_range(a@, b@);
    }
    match kind {
        AlgorithmKind::Levenshtein => Score::whole(edit_distance(a, b) as u64),
        AlgorithmKind::Hamming => Score::whole(count_mismatches(a, b) as u64),
        AlgorithmKind::Jaro => jaro_of(a, b),
        AlgorithmKind::JaroWinkler => jaro_winkler_of(a, b),
    }
}

} // verus!

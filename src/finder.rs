use vstd::prelude::*;
use rayon::iter::{IntoParallelIterator, IntoParallelRefIterator, ParallelIterator};
use vstd::string::StrSliceExecFns;
use vstd::utf8::encode_utf8;
use crate::error::MatchError;
use crate::registry::{kind_for_name, AlgorithmKind};
use crate::rank::{rank, ranked, reorders, tagged, ties_in_order, PARALLEL_SORT_MIN};
use crate::score::{better, is_better, lemma_better_asymmetric, lemma_better_trans, Order, Score};
use crate::scorer::{fits, score_chars, score_value, scorable};
use crate::text::{chars_of, default_options, lemma_normalize_len, normalize, normalize_range, normalized_chars, CompareOptions};

verus! {

/// The target and every candidate are short enough to score.
pub open spec fn all_fit(target: Seq<char>, candidates: Seq<&str>) -> bool {
    fits(target) && forall|i: int| 0 <= i < candidates.len() ==> fits(#[trigger] candidates[i]@)
}

/// Hamming cannot score `candidate` against `target`: their normalized lengths differ.
pub open spec fn misfit(kind: AlgorithmKind, target: Seq<char>, candidate: Seq<char>, o: CompareOptions) -> bool {
    kind == AlgorithmKind::Hamming && normalize(candidate, o).len() != normalize(target, o).len()
}

pub open spec fn any_misfit(kind: AlgorithmKind, target: Seq<char>, candidates: Seq<&str>, o: CompareOptions) -> bool {
    exists|i: int| 0 <= i < candidates.len() && misfit(kind, target, #[trigger] candidates[i]@, o)
}

/// The error for a candidate whose normalized length differs from the target's.
pub open spec fn mismatch_error(target: Seq<char>, candidate: Seq<char>, o: CompareOptions) -> MatchError {
    MatchError::LengthMismatch(
        normalize(target, o).len() as usize,
        normalize(candidate, o).len() as usize,
    )
}

/// The score of each candidate against the target.
pub open spec fn candidate_scores(
    kind: AlgorithmKind,
    target: Seq<char>,
    candidates: Seq<&str>,
    o: CompareOptions,
) -> Seq<Score> {
    Seq::new(
        candidates.len(),
        |i: int| score_value(kind, normalize(target, o), normalize(candidates[i]@, o)),
    )
}

/// Position `i` holds the best score, and no earlier position scores as well.
pub open spec fn first_best(o: Order, s: Seq<Score>, i: int) -> bool {
    &&& 0 <= i < s.len()
    &&& forall|j: int| 0 <= j < s.len() ==> !better(o, #[trigger] s[j], s[i])
    &&& forall|j: int| 0 <= j < i ==> better(o, s[i], #[trigger] s[j])
}

/// Relies on rayon's `par_iter`, `map` and `collect` into a `Vec`: one result
/// per item, in the order of the items.
#[verifier::external_body]
fn score_each(kind: AlgorithmKind, target: &Vec<char>, items: &Vec<Vec<char>>) -> (r: Vec<Score>)
    requires
        forall|i: int| 0 <= i < items.len() ==> scorable(kind, target@, #[trigger] items[i]@),
    ensures
        r.len() == items.len(),
        forall|i: int|
            0 <= i < r.len() ==> #[trigger] r[i] == score_value(kind, target@, items[i]@) && r[i].wf(),
{
    items.par_iter().map(|c| score_chars(kind, target, c)).collect()
}

/// Normalizes the target and every candidate, and checks that Hamming can score them.
fn prepare(kind: AlgorithmKind, target: &str, candidates: &[&str], o: CompareOptions) -> (r: Result<
    (Vec<char>, Vec<Vec<char>>),
    MatchError,
>)
    requires
        all_fit(target@, candidates@),
    ensures
        r is Ok <==> !any_misfit(kind, target@, candidates@, o),
        r is Ok ==> ({
            let (t, c) = r->Ok_0;
            &&& t@ == normalize(target@, o)
            &&& c.len() == candidates.len()
            &&& forall|i: int|
                0 <= i < c.len() ==> #[trigger] c[i]@ == normalize(candidates[i]@, o)
                    && scorable(kind, t@, c[i]@)
        }),
        r is Err ==> exists|i: int|
            0 <= i < candidates.len() && misfit(kind, target@, #[trigger] candidates[i]@, o)
                && r->Err_0 == mismatch_error(target@, candidates[i]@, o),
{
    let t = normalized_chars(target, o);
    let mut c: Vec<Vec<char>> = Vec::new();
    let mut i: usize = 0;
    while i < candidates.len()
        invariant
            i <= candidates.len(),
            all_fit(target@, candidates@),
            t@ == normalize(target@, o),
            t@.len() <= target@.len(),
            c.len() == i,
            forall|k: int| 0 <= k < i ==> !misfit(kind, target@, #[trigger] candidates[k]@, o),
            forall|k: int|
                0 <= k < i ==> #[trigger] c[k]@ == normalize(candidates[k]@, o) && scorable(
                    kind,
                    t@,
                    c[k]@,
                ),
        decreases candidates.len() - i,
    {
        let n = normalized_chars(candidates[i], o);
        assert(fits(candidates@[i as int]@));
        if kind == AlgorithmKind::Hamming && n.len() != t.len() {
            assert(misfit(kind, target@, candidates@[i as int]@, o));
            return Err(MatchError::LengthMismatch(t.len(), n.len()));
        }
        c.push(n);
        i += 1;
    }
    Ok((t, c))
}

/// Position of the best score, the earliest among equals: a left-to-right fold.
fn best_position(o: Order, s: &Vec<Score>) -> (r: usize)
    requires
        s.len() > 0,
        forall|k: int| 0 <= k < s.len() ==> #[trigger] s[k].wf(),
    ensures
        first_best(o, s@, r as int),
{
    let mut best: usize = 0;
    let mut i: usize = 1;
    while i < s.len()
        invariant
            1 <= i <= s.len(),
            best < i,
            forall|k: int| 0 <= k < s.len() ==> #[trigger] s[k].wf(),
            forall|j: int| 0 <= j < i ==> !better(o, #[trigger] s@[j], s@[best as int]),
            forall|j: int| 0 <= j < best ==> better(o, s@[best as int], #[trigger] s@[j]),
        decreases s.len() - i,
    {
        if is_better(o, s[i], s[best]) {
            proof {
                assert forall|j: int| 0 <= j < i implies better(o, s@[i as int], #[trigger] s@[j]) by {
                    if j < best {
                        lemma_better_asymmetric(o, s@[best as int], s@[j]);
                    }
                    lemma_better_trans(o, s@[i as int], s@[best as int], s@[j]);
                }
                assert forall|j: int| 0 <= j <= i implies !better(o, #[trigger] s@[j], s@[i as int]) by {
                    if j < i {
                        lemma_better_asymmetric(o, s@[i as int], s@[j]);
                    }
                }
            }
            best = i;
        }
        i += 1;
    }
    best
}

/// What `closest` returns: the algorithm is resolved first, then the candidates
/// are checked, then the first best-scoring candidate is picked.
pub open spec fn closest_outcome(
    target: Seq<char>,
    candidates: Seq<&str>,
    algorithm: Seq<char>,
    options: CompareOptions,
    r: Result<String, MatchError>,
) -> bool {
    &&& kind_for_name(algorithm) is None ==> (r matches Err(MatchError::InvalidAlgorithm(s))
        && s@ == algorithm)
    &&& kind_for_name(algorithm) is Some ==> ({
        let kind = kind_for_name(algorithm)->Some_0;
        let s = candidate_scores(kind, target, candidates, options);
        &&& candidates.len() == 0 ==> r == Err::<String, MatchError>(MatchError::EmptyCandidates)
        &&& candidates.len() > 0 && any_misfit(kind, target, candidates, options) ==> exists|i: int|
            0 <= i < candidates.len() && misfit(kind, target, #[trigger] candidates[i]@, options)
                && r == Err::<String, MatchError>(mismatch_error(target, candidates[i]@, options))
        &&& candidates.len() > 0 && !any_misfit(kind, target, candidates, options) ==> (r is Ok
            && exists|i: int| first_best(kind.spec_order(), s, i) && r->Ok_0@ == candidates[i]@)
    })
}

/// The candidate closest to `target` under the named algorithm; among equally
/// good candidates, the first.
pub fn closest(target: &str, candidates: &[&str], algorithm: &str, options: CompareOptions) -> (r:
    Result<String, MatchError>)
    requires
        all_fit(target@, candidates@),
    ensures
        closest_outcome(target@, candidates@, algorithm@, options, r),
{
    let kind = AlgorithmKind::resolve(algorithm)?;
    if candidates.len() == 0 {
        return Err(MatchError::EmptyCandidates);
    }
    let (t, c) = prepare(kind, target, candidates, options)?;
    let scores = score_each(kind, &t, &c);
    assert(scores@ =~= candidate_scores(kind, target@, candidates@, options));
    let best = best_position(kind.order(), &scores);
    Ok(candidates[best].to_owned())
}

/// `picked` lists, best first, the candidates in the order of a ranking of their
/// scores; a small collection is ranked stably, so equals keep their order.
pub open spec fn picks_in_rank_order(
    o: Order,
    s: Seq<Score>,
    candidates: Seq<&str>,
    picked: Seq<String>,
    ranking: Seq<(usize, Score)>,
) -> bool {
    &&& reorders(ranking, tagged(s))
    &&& ranked(o, ranking)
    &&& s.len() < PARALLEL_SORT_MIN ==> ties_in_order(o, ranking)
    &&& picked.len() <= ranking.len()
    &&& forall|k: int| 0 <= k < picked.len() ==> #[trigger] picked[k]@ == candidates[ranking[k].0 as int]@
}

/// What `n_closest` returns: the algorithm is resolved first, then the
/// candidates and `n` are checked, then the first `n` of a ranking are listed.
pub open spec fn n_closest_outcome(
    target: Seq<char>,
    candidates: Seq<&str>,
    n: usize,
    algorithm: Seq<char>,
    options: CompareOptions,
    r: Result<Vec<String>, MatchError>,
) -> bool {
    &&& kind_for_name(algorithm) is None ==> (r matches Err(MatchError::InvalidAlgorithm(s))
        && s@ == algorithm)
    &&& kind_for_name(algorithm) is Some ==> ({
        let kind = kind_for_name(algorithm)->Some_0;
        let s = candidate_scores(kind, target, candidates, options);
        &&& candidates.len() == 0 ==> r == Err::<Vec<String>, MatchError>(MatchError::EmptyCandidates)
        &&& candidates.len() > 0 && n < 1 ==> r == Err::<Vec<String>, MatchError>(MatchError::InvalidN(n))
        &&& candidates.len() > 0 && n >= 1 && any_misfit(kind, target, candidates, options) ==> exists|i: int|
            0 <= i < candidates.len() && misfit(kind, target, #[trigger] candidates[i]@, options)
                && r == Err::<Vec<String>, MatchError>(mismatch_error(target, candidates[i]@, options))
        &&& candidates.len() > 0 && n >= 1 && !any_misfit(kind, target, candidates, options) ==> (r is Ok
            && r->Ok_0.len() == if n < candidates.len() { n as int } else { candidates.len() as int }
            && exists|ranking: Seq<(usize, Score)>|
                picks_in_rank_order(kind.spec_order(), s, candidates, r->Ok_0@, ranking))
    })
}

/// The `n` candidates closest to `target` under the named algorithm, best first
/// (all of them when there are fewer than `n`).
pub fn n_closest(
    target: &str,
    candidates: &[&str],
    n: usize,
    algorithm: &str,
    options: CompareOptions,
) -> (r: Result<Vec<String>, MatchError>)
    requires
        all_fit(target@, candidates@),
    ensures
        n_closest_outcome(target@, candidates@, n, algorithm@, options, r),
{
    let kind = AlgorithmKind::resolve(algorithm)?;
    if candidates.len() == 0 {
        return Err(MatchError::EmptyCandidates);
    }
    if n < 1 {
        return Err(MatchError::InvalidN(n));
    }
    let (t, c) = prepare(kind, target, candidates, options)?;
    let scores = score_each(kind, &t, &c);
    assert(scores@ =~= candidate_scores(kind, target@, candidates@, options));
    let ranking = rank(&scores, kind.order());
    let mut best: Vec<String> = Vec::new();
    let mut k: usize = 0;
    while k < n && k < ranking.len()
        invariant
            k <= ranking.len(),
            k <= n,
            ranking.len() == candidates.len(),
            reorders(ranking@, tagged(scores@)),
            best.len() == k,
            forall|x: int| 0 <= x < k ==> #[trigger] best@[x]@ == candidates@[ranking@[x].0 as int]@,
        decreases ranking.len() - k,
    {
        let at = ranking[k].0;
        best.push(candidates[at].to_owned());
        k += 1;
    }
    let ghost picked = best@;
    let r: Result<Vec<String>, MatchError> = Ok(best);
    assert(r->Ok_0@ == picked);
    assert(picks_in_rank_order(kind.spec_order(), scores@, candidates@, r->Ok_0@, ranking@));
    assert(exists|rk: Seq<(usize, Score)>|
        picks_in_rank_order(kind.spec_order(), scores@, candidates@, r->Ok_0@, rk));
    r
}

/// The `width` characters of `text` from position `start`.
pub open spec fn window(text: Seq<char>, start: int, width: int) -> Seq<char> {
    text.subrange(start, start + width)
}

/// Byte offset, in UTF-8, of the character at position `k` of `s`.
pub open spec fn byte_offset(s: Seq<char>, k: int) -> int {
    encode_utf8(s.take(k)).len() as int
}

/// The score of each window of `text` as long as `target` against `target`.
pub open spec fn window_scores(kind: AlgorithmKind, target: Seq<char>, text: Seq<char>, o: CompareOptions) -> Seq<Score> {
    Seq::new(
        (text.len() - target.len() + 1) as nat,
        |i: int| score_value(kind, normalize(target, o), normalize(window(text, i, target.len() as int), o)),
    )
}

pub open spec fn window_misfit(kind: AlgorithmKind, target: Seq<char>, text: Seq<char>, o: CompareOptions) -> bool {
    exists|i: int|
        0 <= i <= text.len() - target.len() && misfit(kind, target, #[trigger] window(text, i, target.len() as int), o)
}

/// Window `i` scores best, and, where the ranking is stable, no earlier window scores as well.
pub open spec fn best_window(o: Order, s: Seq<Score>, i: int) -> bool {
    &&& 0 <= i < s.len()
    &&& forall|j: int| 0 <= j < s.len() ==> !better(o, #[trigger] s[j], s[i])
    &&& s.len() < PARALLEL_SORT_MIN ==> first_best(o, s, i)
}

fn window_score(
    kind: AlgorithmKind,
    target: &Vec<char>,
    text: &Vec<char>,
    start: usize,
    width: usize,
    o: CompareOptions,
) -> (r: Score)
    requires
        start + width <= text.len(),
        scorable(kind, target@, normalize(window(text@, start as int, width as int), o)),
    ensures
        r == score_value(kind, target@, normalize(window(text@, start as int, width as int), o)),
        r.wf(),
{
    let w = normalize_range(text, start, start + width, o);
    score_chars(kind, target, &w)
}

/// Relies on rayon's `into_par_iter` on a range, then `map` and `collect` into a
/// `Vec`: one result per index, in index order.
#[verifier::external_body]
fn score_windows(
    kind: AlgorithmKind,
    target: &Vec<char>,
    text: &Vec<char>,
    width: usize,
    last: usize,
    o: CompareOptions,
) -> (r: Vec<Score>)
    requires
        forall|i: int|
            0 <= i <= last ==> i + width <= text.len() && scorable(
                kind,
                target@,
                normalize(#[trigger] window(text@, i, width as int), o),
            ),
    ensures
        r.len() == last + 1,
        forall|i: int|
            0 <= i <= last ==> #[trigger] r[i] == score_value(
                kind,
                target@,
                normalize(window(text@, i, width as int), o),
            ) && r[i].wf(),
{
    (0..=last).into_par_iter().map(|i| window_score(kind, target, text, i, width, o)).collect()
}

/// What `closest_index_pair` returns: the algorithm is resolved first, then
/// the text is checked, then the best window's byte range is given.
pub open spec fn index_pair_outcome(
    target: Seq<char>,
    text: Seq<char>,
    algorithm: Seq<char>,
    options: CompareOptions,
    r: Result<(usize, usize), MatchError>,
) -> bool {
    &&& kind_for_name(algorithm) is None ==> (r matches Err(MatchError::InvalidAlgorithm(s))
        && s@ == algorithm)
    &&& kind_for_name(algorithm) is Some ==> ({
        let kind = kind_for_name(algorithm)->Some_0;
        let width = target.len() as int;
        let s = window_scores(kind, target, text, options);
        &&& text.len() == 0 ==> r == Ok::<(usize, usize), MatchError>((0, 0))
        &&& 0 < text.len() < width ==> r == Ok::<(usize, usize), MatchError>(
            (0, #[verifier::truncate] (byte_offset(text, text.len() as int) as usize)),
        )
        &&& 0 < text.len() && width <= text.len() && window_misfit(kind, target, text, options)
            ==> exists|i: int|
            0 <= i <= text.len() - width && misfit(kind, target, #[trigger] window(text, i, width), options)
                && r == Err::<(usize, usize), MatchError>(
                mismatch_error(target, window(text, i, width), options),
            )
        &&& 0 < text.len() && width <= text.len() && !window_misfit(kind, target, text, options)
            ==> exists|i: int|
            best_window(kind.spec_order(), s, i) && r == Ok::<(usize, usize), MatchError>(
                (#[verifier::truncate] (byte_offset(text, i) as usize), #[verifier::truncate] (byte_offset(text, i + width) as usize)),
            )
    })
}

/// The byte range of the window of `text`, as long as `target`, that scores
/// best against `target` under the named algorithm. An empty `text` gives
/// `(0, 0)`; a `text` shorter than `target` is taken whole.
pub fn closest_index_pair(
    target: &str,
    text: &str,
    algorithm: &str,
    options: CompareOptions,
) -> (r: Result<(usize, usize), MatchError>)
    requires
        fits(target@),
    ensures
        index_pair_outcome(target@, text@, algorithm@, options, r),
{
    let kind = AlgorithmKind::resolve(algorithm)?;
    if text.is_empty() {
        return Ok((0, 0));
    }
    let tc = chars_of(text);
    let width = chars_of(target).len();
    if tc.len() < width {
        let whole = text.substring_char(0, tc.len());
        proof {
            assert(text@.subrange(0, text@.len() as int) == text@.take(text@.len() as int));
        }
        return Ok((0, whole.len()));
    }
    let tn = normalized_chars(target, options);
    let last = tc.len() - width;
    if kind == AlgorithmKind::Hamming {
        let mut i: usize = 0;
        while i <= last
            invariant
                i <= last + 1,
                last == tc.len() - width,
                kind_for_name(algorithm@) == Some(kind),
                0 < text@.len(),
                width <= text@.len(),
                tc@ == text@,
                width == target@.len(),
                tn@ == normalize(target@, options),
                kind == AlgorithmKind::Hamming,
                forall|j: int| 0 <= j < i ==> !misfit(kind, target@, #[trigger] window(text@, j, width as int), options),
            ensures
                forall|j: int| 0 <= j <= last ==> !misfit(kind, target@, #[trigger] window(text@, j, width as int), options),
            decreases last + 1 - i,
        {
            let w = normalize_range(&tc, i, i + width, options);
            let ghost win = window(text@, i as int, width as int);
            if w.len() != tn.len() {
                assert(misfit(kind, target@, win, options));
                assert(window_misfit(kind, target@, text@, options));
                return Err(MatchError::LengthMismatch(tn.len(), w.len()));
            }
            if i == last {
                break;
            }
            i += 1;
        }
    }
    proof {
        assert forall|i: int| 0 <= i <= last implies i + width <= tc.len() && scorable(
            kind,
            tn@,
            normalize(#[trigger] window(tc@, i, width as int), options),
        ) by {
            lemma_normalize_len(window(tc@, i, width as int), options);
            lemma_normalize_len(target@, options);
            assert(window(tc@, i, width as int).len() == width);
            if kind == AlgorithmKind::Hamming {
                assert(!misfit(kind, target@, window(text@, i, width as int), options));
            }
        }
    }
    let scores = score_windows(kind, &tn, &tc, width, last, options);
    assert(scores@ =~= window_scores(kind, target@, text@, options));
    let ranking = rank(&scores, kind.order());
    let best = ranking[0].0;
    proof {
        let s = scores@;
        let o = kind.spec_order();
        let rk = ranking@;
        assert forall|j: int| 0 <= j < s.len() implies !better(o, #[trigger] s[j], s[best as int]) by {
            assert(tagged(s)[j] == (j as usize, s[j]));
            let k = choose|k: int| 0 <= k < rk.len() && rk[k] == #[trigger] tagged(s)[j];
            assert(rk[0] == tagged(s)[best as int]);
            assert(rk[k].1 == s[j]);
            if k > 0 {
                assert(!better(o, rk[k].1, rk[0].1));
            }
        }
        if s.len() < PARALLEL_SORT_MIN {
            assert forall|j: int| 0 <= j < best implies better(o, s[best as int], #[trigger] s[j]) by {
                assert(tagged(s)[j] == (j as usize, s[j]));
                let k = choose|k: int| 0 <= k < rk.len() && rk[k] == #[trigger] tagged(s)[j];
                assert(rk[0] == tagged(s)[best as int]);
                assert(rk[k].1 == s[j] && rk[k].0 == j);
                assert(k != 0);
                if !better(o, rk[0].1, rk[k].1) {
                    assert(rk[0].0 < rk[k].0);
                }
            }
        }
        assert(best_window(o, s, best as int));
    }
    let start = text.substring_char(0, best).len();
    let end = text.substring_char(0, best + width).len();
    proof {
        assert(text@.subrange(0, best as int) == text@.take(best as int));
        assert(text@.subrange(0, best + width) == text@.take(best + width));
    }
    Ok((start, end))
}

/// `closest` with the default options: case-insensitive, whitespace kept.
pub fn closest_string_matching(target: &str, options: &[&str], algorithm: &str) -> (r: Result<
    String,
    MatchError,
>)
    requires
        all_fit(target@, options@),
    ensures
        closest_outcome(target@, options@, algorithm@, default_options(), r),
{
    closest(target, options, algorithm, CompareOptions::default())
}

/// `n_closest` with the default options: case-insensitive, whitespace kept.
pub fn n_closest_string_matching(target: &str, options: &[&str], n: usize, algorithm: &str) -> (r:
    Result<Vec<String>, MatchError>)
    requires
        all_fit(target@, options@),
    ensures
        n_closest_outcome(target@, options@, n, algorithm@, default_options(), r),
{
    n_closest(target, options, n, algorithm, CompareOptions::default())
}

/// With a single candidate that the algorithm can score, `closest` returns that
/// candidate, whatever its score.
pub proof fn closest_of_one(
    target: Seq<char>,
    candidates: Seq<&str>,
    algorithm: Seq<char>,
    options: CompareOptions,
    r: Result<String, MatchError>,
)
    requires
        closest_outcome(target, candidates, algorithm, options, r),
        candidates.len() == 1,
        kind_for_name(algorithm) is Some,
        !any_misfit(kind_for_name(algorithm)->Some_0, target, candidates, options),
    ensures
        r is Ok,
        r->Ok_0@ == candidates[0]@,
{
}

/// An algorithm name that selects nothing makes every finder fail with
/// `InvalidAlgorithm`, whatever the other arguments.
pub proof fn unknown_algorithm_fails(
    target: Seq<char>,
    candidates: Seq<&str>,
    n: usize,
    algorithm: Seq<char>,
    options: CompareOptions,
    text: Seq<char>,
    one: Result<String, MatchError>,
    many: Result<Vec<String>, MatchError>,
    range: Result<(usize, usize), MatchError>,
)
    requires
        kind_for_name(algorithm) is None,
        closest_outcome(target, candidates, algorithm, options, one),
        n_closest_outcome(target, candidates, n, algorithm, options, many),
        index_pair_outcome(target, text, algorithm, options, range),
    ensures
        one matches Err(MatchError::InvalidAlgorithm(s)) && s@ == algorithm,
        many matches Err(MatchError::InvalidAlgorithm(s)) && s@ == algorithm,
        range matches Err(MatchError::InvalidAlgorithm(s)) && s@ == algorithm,
{
}

} // verus!

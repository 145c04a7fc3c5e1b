//! The fuzzy matcher: scores candidate keys against a short query and picks a
//! winner, with tie-breaks by recency and name, and a multi-match bucket for
//! prefix disambiguation.
use crate::strutil::{is_substring, lex_lt, str_contains, str_eq, str_starts_with};
use vstd::prelude::*;
use vstd::string::*;

verus! {

/// Scores at or above this are confident matches.
pub const HIGH_THRESHOLD: u32 = 60;

/// A candidate: its fuzz key and the time it was last active.
#[derive(Debug)]
pub struct FuzzItem {
    pub key: String,
    pub last_time: i64,
}

/// The matcher's answer; indices point into the candidate list.
#[derive(Debug)]
pub enum FuzzResult {
    /// One unambiguous winner.
    High(usize),
    /// One low-confidence winner.
    Low(usize),
    /// Ambiguity: the winner, the candidates its key prefixes, and the other
    /// close-scoring candidates.
    Multi { ans: usize, others: Vec<usize>, still_others: Vec<usize> },
}

/// `q` appears in `k` in order, not necessarily contiguously.
pub open spec fn is_subsequence(q: Seq<char>, k: Seq<char>) -> bool
    decreases k.len(),
{
    if q.len() == 0 {
        true
    } else if k.len() == 0 {
        false
    } else if q[0] == k[0] {
        is_subsequence(q.skip(1), k.skip(1))
    } else {
        is_subsequence(q, k.skip(1))
    }
}

/// The match score of a query against a key: a contiguous occurrence scores
/// highest, a scattered one scores low, anything else does not match.
pub open spec fn spec_score(q: Seq<char>, k: Seq<char>) -> u32 {
    if is_substring(k, q) {
        100u32
    } else if is_subsequence(q, k) {
        40u32
    } else {
        0u32
    }
}

/// `b` equals `a`, or continues it across the separator.
pub open spec fn spec_is_prefix(a: Seq<char>, b: Seq<char>, sep: Seq<char>) -> bool {
    b == a || (b.len() >= a.len() + sep.len() && b.subrange(0, a.len() as int) == a && b.subrange(
        a.len() as int,
        (a.len() + sep.len()) as int,
    ) == sep)
}

/// Candidate `a` strictly beats candidate `b`: higher score, then more
/// recently active, then lexicographically smaller key.
pub open spec fn spec_beats(items: Seq<FuzzItem>, scores: Seq<u32>, a: int, b: int) -> bool {
    ||| scores[a] > scores[b]
    ||| (scores[a] == scores[b] && items[a].last_time > items[b].last_time)
    ||| (scores[a] == scores[b] && items[a].last_time == items[b].last_time && lex_lt(
        items[a].key@,
        items[b].key@,
    ))
}

/// `w` is the scan's winner: it matched, no candidate strictly beats it, and
/// no earlier candidate ties with it completely.
pub open spec fn spec_winner(items: Seq<FuzzItem>, scores: Seq<u32>, w: int) -> bool {
    &&& 0 <= w < items.len()
    &&& scores[w] > 0
    &&& forall|j: int| 0 <= j < items.len() && j != w ==> !spec_beats(items, scores, j, w)
    &&& forall|j: int|
        0 <= j < w ==> !(scores[j] == scores[w] && items[j].last_time == items[w].last_time
            && items[j].key@ == items[w].key@)
}

/// The winner clears the confidence bar: its score reaches the threshold and
/// every other candidate scores below six tenths of it.
pub open spec fn high_outcome(q: Seq<char>, items: Seq<FuzzItem>, w: int) -> bool {
    &&& spec_score(q, items[w].key@) >= HIGH_THRESHOLD
    &&& forall|j: int|
        0 <= j < items.len() && j != w ==> (#[trigger] spec_score(q, items[j].key@)) * 10
            < spec_score(q, items[w].key@) * 6
}

/// Some other matching candidate continues the winner's key across the
/// separator.
pub open spec fn prefix_outcome(q: Seq<char>, items: Seq<FuzzItem>, sep: Seq<char>, w: int) -> bool {
    exists|j: int|
        0 <= j < items.len() && j != w && #[trigger] spec_score(q, items[j].key@) > 0
            && spec_is_prefix(items[w].key@, items[j].key@, sep)
}

/// No candidate besides the winner matched at all.
pub open spec fn lone_outcome(q: Seq<char>, items: Seq<FuzzItem>, w: int) -> bool {
    forall|j: int|
        0 <= j < items.len() && j != w ==> #[trigger] spec_score(q, items[j].key@) == 0
}

/// The scan's winner is unique.
pub proof fn lemma_winner_unique(items: Seq<FuzzItem>, scores: Seq<u32>, w1: int, w2: int)
    requires
        scores.len() == items.len(),
        spec_winner(items, scores, w1),
        spec_winner(items, scores, w2),
    ensures
        w1 == w2,
{
    if w1 != w2 {
        assert(!spec_beats(items, scores, w1, w2));
        assert(!spec_beats(items, scores, w2, w1));
        crate::strutil::lemma_lex_total(items[w1].key@, items[w2].key@);
        // neither beats the other, so they tie completely — and the
        // first-wins clause of the later one forbids an earlier full tie
        assert(scores[w1] == scores[w2] && items[w1].last_time == items[w2].last_time
            && items[w1].key@ == items[w2].key@);
        assert(false);
    }
}

/// An exec subsequence check; mirrors `is_subsequence`.
pub fn check_subsequence(q: &str, k: &str) -> (r: bool)
    ensures
        r == is_subsequence(q@, k@),
{
    let qlen = q.unicode_len();
    let klen = k.unicode_len();
    let mut qi: usize = 0;
    let mut ki: usize = 0;
    proof {
        assert(q@.skip(0) =~= q@);
        assert(k@.skip(0) =~= k@);
    }
    while ki < klen && qi < qlen
        invariant
            qi <= qlen,
            ki <= klen,
            qlen == q@.len(),
            klen == k@.len(),
            is_subsequence(q@, k@) == is_subsequence(q@.skip(qi as int), k@.skip(ki as int)),
        decreases klen - ki,
    {
        proof {
            assert(q@.skip(qi as int)[0] == q@[qi as int]);
            assert(k@.skip(ki as int)[0] == k@[ki as int]);
            assert(q@.skip(qi as int).skip(1) =~= q@.skip(qi + 1));
            assert(k@.skip(ki as int).skip(1) =~= k@.skip(ki + 1));
        }
        if q.get_char(qi) == k.get_char(ki) {
            qi = qi + 1;
        }
        ki = ki + 1;
    }
    proof {
        if qi == qlen {
            assert(q@.skip(qi as int).len() == 0);
        } else {
            assert(k@.skip(ki as int).len() == 0);
            assert(q@.skip(qi as int).len() > 0);
        }
    }
    qi == qlen
}

/// The match score of a query against a key; mirrors `spec_score`.
pub fn score_of(q: &str, k: &str) -> (r: u32)
    ensures
        r == spec_score(q@, k@),
{
    if str_contains(k, q) {
        100
    } else if check_subsequence(q, k) {
        40
    } else {
        0
    }
}

/// Whether `b` equals `a` or continues it across the separator.
pub fn is_prefix(a: &str, b: &str, sep: &str) -> (r: bool)
    ensures
        r == spec_is_prefix(a@, b@, sep@),
{
    if str_eq(a, b) {
        proof {
            assert(spec_is_prefix(a@, b@, sep@));
        }
        return true;
    }
    let alen = a.unicode_len();
    let blen = b.unicode_len();
    let seplen = sep.unicode_len();
    if blen < alen || blen - alen < seplen {
        return false;
    }
    if !str_starts_with(b, a) {
        return false;
    }
    let mid = b.substring_char(alen, alen + seplen);
    proof {
        assert(mid@ =~= b@.subrange(a@.len() as int, (a@.len() + sep@.len()) as int));
    }
    str_eq(mid, sep)
}

/// Score each candidate, and find the winner of the scan order.
fn score_all(q: &str, items: &Vec<FuzzItem>) -> (r: (Vec<u32>, Option<usize>))
    ensures
        r.0@.len() == items@.len(),
        forall|i: int|
            0 <= i < items@.len() ==> #[trigger] r.0@[i] == spec_score(q@, items@[i].key@),
        r.1 is None ==> forall|i: int|
            0 <= i < items@.len() ==> #[trigger] r.0@[i] == 0,
        r.1 matches Some(w) ==> spec_winner(items@, r.0@, w as int),
{
    let len = items.len();
    let mut scores: Vec<u32> = Vec::new();
    let mut i: usize = 0;
    while i < len
        invariant
            i <= len,
            len == items@.len(),
            scores@.len() == i,
            forall|j: int|
                0 <= j < i ==> #[trigger] scores@[j] == spec_score(q@, items@[j].key@),
        decreases len - i,
    {
        scores.push(score_of(q, items[i].key.as_str()));
        i = i + 1;
    }
    let mut best: Option<usize> = None;
    let mut j: usize = 0;
    while j < len
        invariant
            j <= len,
            len == items@.len(),
            scores@.len() == len,
            forall|x: int|
                0 <= x < len ==> #[trigger] scores@[x] == spec_score(q@, items@[x].key@),
            best is None ==> forall|x: int| 0 <= x < j ==> #[trigger] scores@[x] == 0,
            best matches Some(w) ==> 0 <= (w as int) < j && scores@[w as int] > 0 && (forall|
                x: int,
            |
                0 <= x < j && x != w as int ==> !spec_beats(items@, scores@, x, w as int)) && (
            forall|x: int|
                0 <= x < w as int ==> !(scores@[x] == scores@[w as int] && items@[x].last_time
                    == items@[w as int].last_time && items@[x].key@ == items@[w as int].key@)),
        decreases len - j,
    {
        if scores[j] > 0 {
            match best {
                None => {
                    best = Some(j);
                },
                Some(w) => {
                    let better = scores[j] > scores[w] || (scores[j] == scores[w]
                        && items[j].last_time > items[w].last_time) || (scores[j] == scores[w]
                        && items[j].last_time == items[w].last_time && crate::strutil::str_lex_lt(
                        items[j].key.as_str(),
                        items[w].key.as_str(),
                    ));
                    if better {
                        proof {
                            assert(spec_beats(items@, scores@, j as int, w as int));
                            assert forall|x: int|
                                0 <= x < j && x != j as int implies !spec_beats(
                                items@,
                                scores@,
                                x,
                                j as int,
                            ) by {
                                if spec_beats(items@, scores@, x, j as int) {
                                    if x != w as int {
                                        lemma_beats_trans(items@, scores@, x, j as int, w as int);
                                    } else {
                                        lemma_beats_asym(items@, scores@, x, j as int);
                                    }
                                }
                            }
                            assert forall|x: int|
                                0 <= x < j implies !(scores@[x] == scores@[j as int]
                                && items@[x].last_time == items@[j as int].last_time
                                && items@[x].key@ == items@[j as int].key@) by {
                                if scores@[x] == scores@[j as int] && items@[x].last_time
                                    == items@[j as int].last_time && items@[x].key@ == items@[
                                    j as int
                                ].key@ {
                                    assert(spec_beats(items@, scores@, j as int, w as int));
                                    if x == w as int {
                                        assert(lex_lt(items@[j as int].key@, items@[w as int].key@));
                                        crate::strutil::lemma_lex_asymmetric(
                                            items@[j as int].key@,
                                            items@[w as int].key@,
                                        );
                                    } else {
                                        if scores@[j as int] > scores@[w as int] {
                                            assert(spec_beats(items@, scores@, x, w as int));
                                        } else if scores@[j as int] == scores@[w as int]
                                            && items@[j as int].last_time
                                            > items@[w as int].last_time {
                                            assert(spec_beats(items@, scores@, x, w as int));
                                        } else {
                                            assert(lex_lt(
                                                items@[j as int].key@,
                                                items@[w as int].key@,
                                            ));
                                            assert(lex_lt(items@[x].key@, items@[w as int].key@));
                                            assert(spec_beats(items@, scores@, x, w as int));
                                        }
                                    }
                                    assert(false);
                                }
                            }
                        }
                        best = Some(j);
                    }
                },
            }
        }
        j = j + 1;
    }
    (scores, best)
}

/// Resolve a query against candidates.
///
/// `None` when nothing matched. `High` when one candidate clearly wins: its
/// score reaches the confidence bar and the runner-up scores below six
/// tenths of it. `Multi` when close-scoring candidates continue the winner's
/// key across the separator: `others` holds those, `still_others` the rest.
/// `Low` when the winner matched alone, but weakly.
pub fn fuzz(q: &str, items: &Vec<FuzzItem>, sep: &str) -> (r: Option<FuzzResult>)
    ensures
        r is None ==> (forall|j: int|
            0 <= j < items@.len() ==> #[trigger] spec_score(q@, items@[j].key@) == 0) || (exists|
            x: int,
            y: int,
        |
            0 <= x < items@.len() && 0 <= y < items@.len() && x != y && #[trigger] spec_score(
                q@,
                items@[x].key@,
            ) > 0 && #[trigger] spec_score(q@, items@[y].key@) > 0),
        r matches Some(f) ==> match f {
            FuzzResult::High(w) => {
                &&& spec_winner(items@, spec_scores(q@, items@), w as int)
                &&& spec_score(q@, items@[w as int].key@) >= HIGH_THRESHOLD
                &&& forall|j: int|
                    0 <= j < items@.len() && j != w as int ==> (#[trigger] spec_score(
                        q@,
                        items@[j].key@,
                    )) * 10 < spec_score(q@, items@[w as int].key@) * 6
            },
            FuzzResult::Low(w) => {
                &&& spec_winner(items@, spec_scores(q@, items@), w as int)
                &&& forall|j: int|
                    0 <= j < items@.len() && j != w as int ==> #[trigger] spec_score(
                        q@,
                        items@[j].key@,
                    ) == 0
            },
            FuzzResult::Multi { ans, others, still_others } => {
                &&& spec_winner(items@, spec_scores(q@, items@), ans as int)
                &&& others@.len() >= 1
                &&& forall|x: int|
                    0 <= x < others@.len() ==> 0 <= (#[trigger] others@[x]) < items@.len()
                        && others@[x] != ans && spec_score(q@, items@[others@[x] as int].key@) > 0
                        && spec_is_prefix(
                        items@[ans as int].key@,
                        items@[others@[x] as int].key@,
                        sep@,
                    )
                &&& forall|x: int|
                    0 <= x < still_others@.len() ==> 0 <= (#[trigger] still_others@[x])
                        < items@.len() && still_others@[x] != ans && spec_score(
                        q@,
                        items@[still_others@[x] as int].key@,
                    ) > 0 && !spec_is_prefix(
                        items@[ans as int].key@,
                        items@[still_others@[x] as int].key@,
                        sep@,
                    )
                &&& forall|j: int|
                    0 <= j < items@.len() && j != ans as int && #[trigger] spec_score(
                        q@,
                        items@[j].key@,
                    ) > 0 ==> others@.contains(j as usize) || still_others@.contains(j as usize)
                &&& forall|p: int, x: int| 0 <= p < x < others@.len() ==> others@[p] < others@[x]
                &&& forall|p: int, x: int|
                    0 <= p < x < still_others@.len() ==> still_others@[p] < still_others@[x]
            },
        },
        // with a single candidate the answer is confident exactly when the
        // query occurs contiguously in its key
        items@.len() == 1 ==> ((r matches Some(f) && f == FuzzResult::High(0usize)) <==> spec_score(
            q@,
            items@[0].key@,
        ) >= HIGH_THRESHOLD),
        // whenever anything matched, there is a winner of the scan order
        (exists|x: int| 0 <= x < items@.len() && #[trigger] spec_score(q@, items@[x].key@) > 0)
            ==> exists|w: int| #[trigger] spec_winner(items@, spec_scores(q@, items@), w),
        // and the winner's situation decides the outcome
        forall|w: int| #[trigger] spec_winner(items@, spec_scores(q@, items@), w) ==> {
            &&& high_outcome(q@, items@, w) ==> r == Some(FuzzResult::High(w as usize))
            &&& !high_outcome(q@, items@, w) && prefix_outcome(q@, items@, sep@, w) ==> (r matches
                Some(f) && f matches FuzzResult::Multi { ans, .. } && ans == w as usize)
            &&& !high_outcome(q@, items@, w) && !prefix_outcome(q@, items@, sep@, w)
                && lone_outcome(q@, items@, w) ==> r == Some(FuzzResult::Low(w as usize))
            &&& !high_outcome(q@, items@, w) && !prefix_outcome(q@, items@, sep@, w)
                && !lone_outcome(q@, items@, w) ==> r is None
        },
{
    let len = items.len();
    let (scores, best) = score_all(q, items);
    proof {
        assert(scores@ =~= spec_scores(q@, items@));
    }
    let w = match best {
        None => {
            proof {
                assert forall|j: int| 0 <= j < items@.len() implies #[trigger] spec_score(
                    q@,
                    items@[j].key@,
                ) == 0 by {
                    assert(scores@[j] == 0);
                }
                assert forall|w: int| !(#[trigger] spec_winner(
                    items@,
                    spec_scores(q@, items@),
                    w,
                )) by {
                    if spec_winner(items@, spec_scores(q@, items@), w) {
                        assert(scores@[w] == 0);
                    }
                }
            }
            return None;
        },
        Some(w) => w,
    };
    // the runner-up score
    let mut second: u32 = 0;
    let mut j: usize = 0;
    while j < len
        invariant
            j <= len,
            len == items@.len(),
            scores@.len() == len,
            w < len,
            forall|x: int|
                0 <= x < len ==> #[trigger] scores@[x] == spec_score(q@, items@[x].key@),
            forall|x: int| 0 <= x < j && x != w as int ==> #[trigger] scores@[x] <= second,
            second == 0 || (exists|x: int|
                0 <= x < j && x != w as int && #[trigger] scores@[x] == second),
        decreases len - j,
    {
        if j != w && scores[j] > second {
            second = scores[j];
        }
        j = j + 1;
    }
    if scores[w] >= HIGH_THRESHOLD && second * 10 < scores[w] * 6 {
        proof {
            if items@.len() == 1 {
                assert(w == 0);
            }
            assert(spec_score(q@, items@[w as int].key@) >= HIGH_THRESHOLD) by {
                assert(scores@[w as int] == spec_score(q@, items@[w as int].key@));
            }
            assert forall|j: int|
                0 <= j < items@.len() && j != w as int implies (#[trigger] spec_score(
                q@,
                items@[j].key@,
            )) * 10 < spec_score(q@, items@[w as int].key@) * 6 by {
                assert(scores@[j] <= second);
            }
        }
        proof {
            assert(high_outcome(q@, items@, w as int));
            assert forall|w2: int|
                #[trigger] spec_winner(items@, spec_scores(q@, items@), w2) implies w2
                == w as int by {
                lemma_winner_unique(items@, spec_scores(q@, items@), w2, w as int);
            }
        }
        return Some(FuzzResult::High(w));
    }
    let ghost not_high: bool = !(scores@[w as int] >= HIGH_THRESHOLD && second * 10 < scores@[
        w as int
    ] * 6);
    proof {
        assert(!high_outcome(q@, items@, w as int)) by {
            if scores@[w as int] >= HIGH_THRESHOLD {
                // the ratio failed, so some other candidate scores too close
                assert(second * 10 >= scores@[w as int] * 6);
                assert(second > 0);
                let x = choose|x: int|
                    0 <= x < scores@.len() && x != w as int && #[trigger] scores@[x] == second;
                assert(spec_score(q@, items@[x].key@) * 10 >= spec_score(
                    q@,
                    items@[w as int].key@,
                ) * 6);
            }
        }
        assert forall|w2: int|
            #[trigger] spec_winner(items@, spec_scores(q@, items@), w2) implies w2 == w as int by {
            lemma_winner_unique(items@, spec_scores(q@, items@), w2, w as int);
        }
    }
    proof {
        if items@.len() == 1 {
            assert(scores@[0] == spec_score(q@, items@[0].key@));
        }
    }
    proof {
        if items@.len() == 1 {
            assert(second == 0);
            assert(!(scores@[0] >= HIGH_THRESHOLD && second * 10 < scores@[0] * 6)
                ==> scores@[0] < HIGH_THRESHOLD);
        }
    }
    // collect the close-scoring candidates around the winner
    let mut others: Vec<usize> = Vec::new();
    let mut still_others: Vec<usize> = Vec::new();
    let mut matched: usize = 0;
    let mut k: usize = 0;
    while k < len
        invariant
            k <= len,
            len == items@.len(),
            scores@.len() == len,
            w < len,
            scores@[w as int] > 0,
            forall|x: int|
                0 <= x < len ==> #[trigger] scores@[x] == spec_score(q@, items@[x].key@),
            forall|x: int|
                0 <= x < others@.len() ==> 0 <= (#[trigger] others@[x]) < len && others@[x] != w
                    && scores@[others@[x] as int] > 0 && spec_is_prefix(
                    items@[w as int].key@,
                    items@[others@[x] as int].key@,
                    sep@,
                ),
            forall|x: int|
                0 <= x < still_others@.len() ==> 0 <= (#[trigger] still_others@[x]) < len
                    && still_others@[x] != w && scores@[still_others@[x] as int] > 0
                    && !spec_is_prefix(
                    items@[w as int].key@,
                    items@[still_others@[x] as int].key@,
                    sep@,
                ),
            forall|x: int|
                0 <= x < k && x != w as int && #[trigger] scores@[x] > 0 ==> others@.contains(
                    x as usize,
                ) || still_others@.contains(x as usize),
            forall|p: int, x: int| 0 <= p < x < others@.len() ==> others@[p] < others@[x],
            forall|p: int, x: int|
                0 <= p < x < still_others@.len() ==> still_others@[p] < still_others@[x],
            forall|x: int| 0 <= x < others@.len() ==> (#[trigger] others@[x]) < k,
            forall|x: int| 0 <= x < still_others@.len() ==> (#[trigger] still_others@[x]) < k,
            matched <= k,
            (matched as int) == spec_count_matched(scores@.take(k as int), w as int),
        decreases len - k,
    {
        proof {
            assert(scores@.take(k + 1).drop_last() =~= scores@.take(k as int));
            assert(scores@.take(k + 1).last() == scores@[k as int]);
        }
        if k != w && scores[k] > 0 {
            let ghost old_others = others@;
            let ghost old_still = still_others@;
            if is_prefix(items[w].key.as_str(), items[k].key.as_str(), sep) {
                others.push(k);
                proof {
                    assert(forall|x: int| 0 <= x < old_others.len() ==> others@[x] == old_others[x]);
                    assert(others@.last() == k as usize);
                    assert(forall|x: int|
                        0 <= x < k && x != w as int && #[trigger] scores@[x] > 0 ==> (
                        old_others.contains(x as usize) ==> others@.contains(x as usize)) && (
                        old_still.contains(x as usize) ==> still_others@.contains(x as usize)))
                        by {
                        assert forall|u: usize| old_others.contains(u) implies others@.contains(u) by {
                            let p = choose|p: int| 0 <= p < old_others.len() && old_others[p] == u;
                            assert(others@[p] == u);
                        }
                    }
                    assert(others@.contains(k as usize)) by {
                        assert(others@[others@.len() - 1] == k as usize);
                    }
                }
            } else {
                still_others.push(k);
                proof {
                    assert(forall|x: int| 0 <= x < old_still.len() ==> still_others@[x] == old_still[x]);
                    assert(still_others@.last() == k as usize);
                    assert(forall|x: int|
                        0 <= x < k && x != w as int && #[trigger] scores@[x] > 0 ==> (
                        old_others.contains(x as usize) ==> others@.contains(x as usize)) && (
                        old_still.contains(x as usize) ==> still_others@.contains(x as usize)))
                        by {
                        assert forall|u: usize| old_still.contains(u) implies still_others@.contains(
                            u,
                        ) by {
                            let p = choose|p: int| 0 <= p < old_still.len() && old_still[p] == u;
                            assert(still_others@[p] == u);
                        }
                    }
                    assert(still_others@.contains(k as usize)) by {
                        assert(still_others@[still_others@.len() - 1] == k as usize);
                    }
                }
            }
            matched = matched + 1;
        }
        k = k + 1;
    }
    proof {
        assert(scores@.take(len as int) =~= scores@);
    }
    if others.len() > 0 {
        proof {
            if items@.len() == 1 {
                assert(0 <= others@[0] < 1 && others@[0] != 0usize);
                assert(false);
            }
            assert forall|x: int|
                0 <= x < others@.len() implies spec_score(
                q@,
                items@[#[trigger] others@[x] as int].key@,
            ) > 0 by {
                assert(scores@[others@[x] as int] > 0);
            }
            assert forall|x: int|
                0 <= x < still_others@.len() implies spec_score(
                q@,
                items@[#[trigger] still_others@[x] as int].key@,
            ) > 0 by {
                assert(scores@[still_others@[x] as int] > 0);
            }
            assert forall|j: int|
                0 <= j < items@.len() && j != w as int && #[trigger] spec_score(
                    q@,
                    items@[j].key@,
                ) > 0 implies others@.contains(j as usize) || still_others@.contains(
                j as usize,
            ) by {
                assert(scores@[j] == spec_score(q@, items@[j].key@));
            }
        }
        proof {
            assert(prefix_outcome(q@, items@, sep@, w as int)) by {
                assert(0 <= others@[0] < items@.len() && others@[0] != w);
                assert(spec_score(q@, items@[others@[0] as int].key@) > 0);
            }
        }
        return Some(FuzzResult::Multi { ans: w, others, still_others });
    }
    if matched == 0 {
        proof {
            lemma_count_matched_zero(scores@, w as int);
            assert forall|j: int|
                0 <= j < items@.len() && j != w as int implies #[trigger] spec_score(
                q@,
                items@[j].key@,
            ) == 0 by {
                assert(scores@[j] == 0);
            }
            if items@.len() == 1 {
                assert(scores@[0] < HIGH_THRESHOLD);
            }
            assert(lone_outcome(q@, items@, w as int));
            assert(!prefix_outcome(q@, items@, sep@, w as int));
        }
        return Some(FuzzResult::Low(w));
    }
    proof {
        lemma_count_matched_pos(scores@, w as int);
        let x = choose|x: int|
            0 <= x < scores@.len() && x != w as int && #[trigger] scores@[x] > 0;
        assert(spec_score(q@, items@[x].key@) > 0);
        assert(spec_score(q@, items@[w as int].key@) > 0) by {
            assert(scores@[w as int] > 0);
        }
        if items@.len() == 1 {
            assert(false);
        }
        assert(!lone_outcome(q@, items@, w as int));
        assert(!prefix_outcome(q@, items@, sep@, w as int)) by {
            if prefix_outcome(q@, items@, sep@, w as int) {
                let j = choose|j: int|
                    0 <= j < items@.len() && j != w as int && #[trigger] spec_score(
                        q@,
                        items@[j].key@,
                    ) > 0 && spec_is_prefix(items@[w as int].key@, items@[j].key@, sep@);
                assert(scores@[j] > 0);
                assert(others@.contains(j as usize) || still_others@.contains(j as usize));
                if others@.contains(j as usize) {
                    let p = choose|p: int| 0 <= p < others@.len() && others@[p] == j as usize;
                    assert(false);
                } else {
                    let p = choose|p: int|
                        0 <= p < still_others@.len() && still_others@[p] == j as usize;
                    assert(!spec_is_prefix(
                        items@[w as int].key@,
                        items@[still_others@[p] as int].key@,
                        sep@,
                    ));
                    assert(false);
                }
            }
        }
    }
    None
}

/// How many positions besides `w` hold a positive score.
pub open spec fn spec_count_matched(scores: Seq<u32>, w: int) -> int
    decreases scores.len(),
{
    if scores.len() == 0 {
        0
    } else {
        spec_count_matched(scores.drop_last(), w) + (if scores.len() - 1 != w && scores.last() > 0 {
            1int
        } else {
            0int
        })
    }
}

/// A zero count means no other candidate matched.
proof fn lemma_count_matched_zero(scores: Seq<u32>, w: int)
    requires
        spec_count_matched(scores, w) == 0,
    ensures
        forall|x: int| 0 <= x < scores.len() && x != w ==> #[trigger] scores[x] == 0,
    decreases scores.len(),
{
    if scores.len() > 0 {
        assert(spec_count_matched(scores.drop_last(), w) >= 0) by {
            lemma_count_matched_nonneg(scores.drop_last(), w);
        }
        lemma_count_matched_zero(scores.drop_last(), w);
        assert(forall|x: int| 0 <= x < scores.len() - 1 ==> scores[x] == scores.drop_last()[x]);
    }
}

/// The count is never negative.
proof fn lemma_count_matched_nonneg(scores: Seq<u32>, w: int)
    ensures
        spec_count_matched(scores, w) >= 0,
    decreases scores.len(),
{
    if scores.len() > 0 {
        lemma_count_matched_nonneg(scores.drop_last(), w);
    }
}

/// A positive count names another matching candidate.
proof fn lemma_count_matched_pos(scores: Seq<u32>, w: int)
    requires
        spec_count_matched(scores, w) > 0,
    ensures
        exists|x: int| 0 <= x < scores.len() && x != w && #[trigger] scores[x] > 0,
    decreases scores.len(),
{
    if scores.len() > 0 {
        if scores.len() - 1 != w && scores.last() > 0 {
            assert(scores[scores.len() - 1] > 0);
        } else {
            lemma_count_matched_pos(scores.drop_last(), w);
            let x = choose|x: int|
                0 <= x < scores.drop_last().len() && x != w && #[trigger] scores.drop_last()[x]
                    > 0;
            assert(scores[x] > 0);
        }
    }
}

/// The better-candidate relation is transitive.
proof fn lemma_beats_trans(items: Seq<FuzzItem>, scores: Seq<u32>, a: int, b: int, c: int)
    requires
        0 <= a < items.len(),
        0 <= b < items.len(),
        0 <= c < items.len(),
        scores.len() == items.len(),
        spec_beats(items, scores, a, b),
        spec_beats(items, scores, b, c),
    ensures
        spec_beats(items, scores, a, c),
{
    if scores[a] == scores[b] && scores[b] == scores[c] && items[a].last_time
        == items[b].last_time && items[b].last_time == items[c].last_time {
        crate::strutil::lemma_lex_trans(items[a].key@, items[b].key@, items[c].key@);
    }
}

/// No candidate beats itself or one that beats it.
proof fn lemma_beats_asym(items: Seq<FuzzItem>, scores: Seq<u32>, a: int, b: int)
    requires
        0 <= a < items.len(),
        0 <= b < items.len(),
        scores.len() == items.len(),
        spec_beats(items, scores, a, b),
    ensures
        !spec_beats(items, scores, b, a),
{
    if scores[a] == scores[b] && items[a].last_time == items[b].last_time {
        crate::strutil::lemma_lex_asymmetric(items[a].key@, items[b].key@);
    }
}

/// The scores of every candidate, as a specification.
pub open spec fn spec_scores(q: Seq<char>, items: Seq<FuzzItem>) -> Seq<u32> {
    Seq::new(items.len(), |i: int| spec_score(q, items[i].key@))
}

/// Candidate `a` is older than `b`, by last-active time then position.
pub open spec fn item_older(items: Seq<FuzzItem>, a: int, b: int) -> bool {
    items[a].last_time < items[b].last_time || (items[a].last_time == items[b].last_time && a < b)
}

/// `sorted` holds exactly the candidates of `src`, most recently active
/// first.
pub open spec fn sorted_by_activity(
    items: Seq<FuzzItem>,
    src: Seq<usize>,
    sorted: Seq<usize>,
) -> bool {
    &&& sorted.to_multiset() == src.to_multiset()
    &&& forall|p: int, q: int|
        0 <= p < q < sorted.len() ==> item_older(items, sorted[q] as int, sorted[p] as int)
}

/// Order candidate positions most recently active first.
fn sort_by_activity(items: &Vec<FuzzItem>, src: Vec<usize>) -> (r: Vec<usize>)
    requires
        forall|k: int| 0 <= k < src@.len() ==> (#[trigger] src@[k]) < items@.len(),
        forall|p: int, q: int| 0 <= p < q < src@.len() ==> src@[p] != src@[q],
    ensures
        sorted_by_activity(items@, src@, r@),
        forall|k: int| 0 <= k < r@.len() ==> (#[trigger] r@[k]) < items@.len(),
{
    let ghost src0 = src@;
    let mut work = src;
    let mut out: Vec<usize> = Vec::new();
    proof {
        broadcast use vstd::seq_lib::group_to_multiset_ensures;

        assert(out@.to_multiset().add(work@.to_multiset()) =~= src0.to_multiset());
    }
    while work.len() > 0
        invariant
            forall|k: int| 0 <= k < src0.len() ==> (#[trigger] src0[k]) < items@.len(),
            out@.to_multiset().add(work@.to_multiset()) =~= src0.to_multiset(),
            forall|p: int, q: int| 0 <= p < q < work@.len() ==> work@[p] != work@[q],
            forall|k: int| 0 <= k < work@.len() ==> (#[trigger] work@[k]) < items@.len(),
            forall|k: int| 0 <= k < out@.len() ==> (#[trigger] out@[k]) < items@.len(),
            forall|p: int, q: int|
                0 <= p < q < out@.len() ==> item_older(items@, out@[q] as int, out@[p] as int),
            forall|k: int|
                0 <= k < work@.len() && out@.len() > 0 ==> item_older(
                    items@,
                    #[trigger] work@[k] as int,
                    out@.last() as int,
                ),
        decreases work.len(),
    {
        let wlen = work.len();
        let mut m: usize = 0;
        let mut c: usize = 1;
        while c < wlen
            invariant
                m < c <= wlen,
                wlen == work@.len(),
                forall|k: int| 0 <= k < work@.len() ==> (#[trigger] work@[k]) < items@.len(),
                forall|p: int, q: int| 0 <= p < q < work@.len() ==> work@[p] != work@[q],
                forall|k: int|
                    0 <= k < c && k != m ==> item_older(
                        items@,
                        #[trigger] work@[k] as int,
                        work@[m as int] as int,
                    ),
            decreases wlen - c,
        {
            let a = &items[work[c]];
            let b = &items[work[m]];
            if a.last_time > b.last_time || (a.last_time == b.last_time && work[c] > work[m]) {
                m = c;
            }
            c = c + 1;
        }
        let ghost old_work = work@;
        let ghost old_out = out@;
        let item = work.remove(m);
        proof {
            broadcast use vstd::seq_lib::group_to_multiset_ensures;

            assert(item == old_work[m as int]);
            assert(old_work.to_multiset().contains(item));
        }
        out.push(item);
        proof {
            broadcast use vstd::seq_lib::group_to_multiset_ensures;

            assert(out@ == old_out.push(old_work[m as int]));
            assert(out@.to_multiset() =~= old_out.to_multiset().insert(old_work[m as int]));
            assert(work@.to_multiset() =~= old_work.to_multiset().remove(old_work[m as int]));
            assert(out@.to_multiset().add(work@.to_multiset()) =~= src0.to_multiset());
            assert(forall|k: int| 0 <= k < m ==> work@[k] == old_work[k]);
            assert(forall|k: int| m <= k < work@.len() ==> #[trigger] work@[k] == old_work[k + 1]);
            assert(out@.last() == old_work[m as int]);
            assert(forall|k: int| 0 <= k < old_out.len() ==> out@[k] == old_out[k]);
            assert(forall|k: int|
                0 <= k < work@.len() ==> item_older(
                    items@,
                    #[trigger] work@[k] as int,
                    out@.last() as int,
                ));
            if old_out.len() > 0 {
                assert(item_older(items@, out@.last() as int, old_out.last() as int));
            }
            assert forall|p: int, q: int|
                0 <= p < q < out@.len() implies item_older(
                items@,
                out@[q] as int,
                out@[p] as int,
            ) by {
                if q == out@.len() - 1 {
                    assert(item_older(items@, out@.last() as int, old_out.last() as int));
                    if p < old_out.len() - 1 {
                        assert(item_older(
                            items@,
                            old_out[old_out.len() - 1] as int,
                            old_out[p] as int,
                        ));
                    }
                } else {
                    assert(item_older(items@, old_out[q] as int, old_out[p] as int));
                }
            }
        }
    }
    proof {
        broadcast use vstd::seq_lib::group_to_multiset_ensures;

        assert(out@.to_multiset() =~= src0.to_multiset()) by {
            assert(work@.to_multiset().len() == 0);
            assert(forall|e: usize| work@.to_multiset().count(e) == 0);
        }
    }
    out
}

/// Flatten a fuzzy answer into an ordered candidate list for completion: the
/// winner first, then the candidates its key prefixes, then the other
/// close-scoring candidates, each bucket most recently active first. No
/// answer gives an empty list; a plain answer gives that candidate alone.
pub fn fuzz_arr(q: &str, items: &Vec<FuzzItem>, sep: &str) -> (r: Vec<usize>)
    ensures
        forall|k: int| 0 <= k < r@.len() ==> (#[trigger] r@[k]) < items@.len(),
        fuzz_spec_outcome(q@, items@, sep@, r@),
        // nothing matched: nothing to complete
        (forall|x: int| 0 <= x < items@.len() ==> #[trigger] spec_score(q@, items@[x].key@) == 0)
            ==> r@.len() == 0,
        // the winner's situation decides the answer's shape
        forall|w: int| #[trigger] spec_winner(items@, spec_scores(q@, items@), w) ==> {
            &&& (high_outcome(q@, items@, w) || (!prefix_outcome(q@, items@, sep@, w)
                && lone_outcome(q@, items@, w))) ==> r@ == seq![w as usize]
            &&& (!high_outcome(q@, items@, w) && prefix_outcome(q@, items@, sep@, w)) ==> (
            r@.len() >= 2 && r@[0] == w as usize)
            &&& (!high_outcome(q@, items@, w) && !prefix_outcome(q@, items@, sep@, w)
                && !lone_outcome(q@, items@, w)) ==> r@.len() == 0
        },
{
    let ghost gq = q@;
    let ghost gsep = sep@;
    match fuzz(q, items, sep) {
        None => {
            let r: Vec<usize> = Vec::new();
            proof {
                assert(fuzz_spec_outcome(gq, items@, gsep, r@));
                assert forall|w: int|
                    #[trigger] spec_winner(items@, spec_scores(gq, items@), w) implies (
                !high_outcome(gq, items@, w) && !prefix_outcome(gq, items@, gsep, w)
                    && !lone_outcome(gq, items@, w)) by {
                    if high_outcome(gq, items@, w) {
                        assert(false);
                    }
                    if !high_outcome(gq, items@, w) && prefix_outcome(gq, items@, gsep, w) {
                        assert(false);
                    }
                    if !high_outcome(gq, items@, w) && !prefix_outcome(gq, items@, gsep, w)
                        && lone_outcome(gq, items@, w) {
                        assert(false);
                    }
                }
            }
            r
        },
        Some(FuzzResult::High(w)) => {
            let mut r: Vec<usize> = Vec::new();
            r.push(w);
            proof {
                assert(r@ =~= seq![w]);
                assert(fuzz_spec_outcome(gq, items@, gsep, r@));
                assert forall|w2: int|
                    #[trigger] spec_winner(items@, spec_scores(gq, items@), w2) implies w2
                    == w as int by {
                    lemma_winner_unique(items@, spec_scores(gq, items@), w2, w as int);
                }
                assert(high_outcome(gq, items@, w as int));
            }
            r
        },
        Some(FuzzResult::Low(w)) => {
            let mut r: Vec<usize> = Vec::new();
            r.push(w);
            proof {
                assert(r@ =~= seq![w]);
                assert(fuzz_spec_outcome(gq, items@, gsep, r@));
                assert forall|w2: int|
                    #[trigger] spec_winner(items@, spec_scores(gq, items@), w2) implies w2
                    == w as int by {
                    lemma_winner_unique(items@, spec_scores(gq, items@), w2, w as int);
                }
                assert(lone_outcome(gq, items@, w as int));
                assert(!prefix_outcome(gq, items@, gsep, w as int));
                assert(!high_outcome(gq, items@, w as int)) by {
                    if high_outcome(gq, items@, w as int) {
                        assert(false);
                    }
                }
            }
            r
        },
        Some(FuzzResult::Multi { ans, others, still_others }) => {
            let ghost gothers = others@;
            let ghost grest = still_others@;
            let sorted_others = sort_by_activity(items, others);
            let sorted_rest = sort_by_activity(items, still_others);
            proof {
                broadcast use vstd::seq_lib::group_to_multiset_ensures;

                assert forall|k: int|
                    0 <= k < sorted_others@.len() implies spec_is_prefix(
                    items@[ans as int].key@,
                    items@[#[trigger] sorted_others@[k] as int].key@,
                    gsep,
                ) by {
                    assert(gothers.to_multiset().contains(sorted_others@[k])) by {
                        assert(sorted_others@.to_multiset().count(sorted_others@[k]) > 0);
                    }
                    assert(gothers.contains(sorted_others@[k]));
                    let l = choose|l: int|
                        0 <= l < gothers.len() && gothers[l] == sorted_others@[k];
                }
                assert forall|k: int|
                    0 <= k < sorted_rest@.len() implies !spec_is_prefix(
                    items@[ans as int].key@,
                    items@[#[trigger] sorted_rest@[k] as int].key@,
                    gsep,
                ) && sorted_rest@[k] != ans by {
                    assert(grest.to_multiset().contains(sorted_rest@[k])) by {
                        assert(sorted_rest@.to_multiset().count(sorted_rest@[k]) > 0);
                    }
                    assert(grest.contains(sorted_rest@[k]));
                    let l = choose|l: int| 0 <= l < grest.len() && grest[l] == sorted_rest@[k];
                }
            }
            let mut r: Vec<usize> = Vec::new();
            r.push(ans);
            let mut i: usize = 0;
            let olen = sorted_others.len();
            while i < olen
                invariant
                    i <= olen,
                    olen == sorted_others@.len(),
                    forall|k: int|
                        0 <= k < sorted_others@.len() ==> (#[trigger] sorted_others@[k])
                            < items@.len(),
                    ans < items@.len(),
                    r@ == seq![ans].add(sorted_others@.take(i as int)),
                decreases olen - i,
            {
                r.push(sorted_others[i]);
                proof {
                    assert(r@ =~= seq![ans].add(sorted_others@.take(i + 1)));
                }
                i = i + 1;
            }
            let mut j: usize = 0;
            let slen = sorted_rest.len();
            while j < slen
                invariant
                    j <= slen,
                    slen == sorted_rest@.len(),
                    olen == sorted_others@.len(),
                    forall|k: int|
                        0 <= k < sorted_rest@.len() ==> (#[trigger] sorted_rest@[k])
                            < items@.len(),
                    forall|k: int|
                        0 <= k < sorted_others@.len() ==> (#[trigger] sorted_others@[k])
                            < items@.len(),
                    ans < items@.len(),
                    r@ == seq![ans].add(sorted_others@).add(sorted_rest@.take(j as int)),
                decreases slen - j,
            {
                r.push(sorted_rest[j]);
                proof {
                    assert(r@ =~= seq![ans].add(sorted_others@).add(sorted_rest@.take(j + 1)));
                }
                j = j + 1;
            }
            proof {
                assert(sorted_others@.take(olen as int) =~= sorted_others@);
                assert(sorted_rest@.take(slen as int) =~= sorted_rest@);
                assert(fuzz_spec_outcome(gq, items@, gsep, r@)) by {
                    assert(r@ == seq![ans].add(sorted_others@).add(sorted_rest@));
                    assert(multi_shape(gq, items@, gsep, r@, ans, sorted_others@, sorted_rest@));
                }
                broadcast use vstd::seq_lib::group_to_multiset_ensures;

                assert(spec_winner(items@, spec_scores(gq, items@), ans as int));
                assert forall|w2: int|
                    #[trigger] spec_winner(items@, spec_scores(gq, items@), w2) implies w2
                    == ans as int by {
                    lemma_winner_unique(items@, spec_scores(gq, items@), w2, ans as int);
                }
                assert(sorted_others@.to_multiset() == gothers.to_multiset());
                assert(sorted_others@.len() == sorted_others@.to_multiset().len());
                assert(gothers.len() == gothers.to_multiset().len());
                assert(sorted_others@.len() == gothers.len());
                assert(gothers.len() >= 1);
                assert(prefix_outcome(gq, items@, gsep, ans as int)) by {
                    assert(sorted_others@.contains(sorted_others@[0])) by {
                        assert(0 <= 0 < sorted_others@.len());
                    }
                    assert(sorted_others@.to_multiset().count(sorted_others@[0]) > 0);
                    assert(gothers.contains(sorted_others@[0]));
                    let l = choose|l: int|
                        0 <= l < gothers.len() && gothers[l] == sorted_others@[0];
                }
                assert(!high_outcome(gq, items@, ans as int)) by {
                    if high_outcome(gq, items@, ans as int) {
                        assert(false);
                    }
                }
                assert(r@.len() >= 2);
                assert(r@[0] == ans);
            }
            r
        },
    }
}

/// The shape of an ambiguous flattened answer: the winner, then the
/// candidates its key prefixes, then the other close-scoring candidates,
/// each bucket most recently active first.
pub open spec fn multi_shape(
    q: Seq<char>,
    items: Seq<FuzzItem>,
    sep: Seq<char>,
    r: Seq<usize>,
    ans: usize,
    others: Seq<usize>,
    rest: Seq<usize>,
) -> bool {
    &&& r == seq![ans].add(others).add(rest)
    &&& spec_winner(items, spec_scores(q, items), ans as int)
    &&& forall|p: int, qq: int|
        0 <= p < qq < others.len() ==> item_older(items, others[qq] as int, others[p] as int)
    &&& forall|p: int, qq: int|
        0 <= p < qq < rest.len() ==> item_older(items, rest[qq] as int, rest[p] as int)
    &&& forall|k: int|
        0 <= k < others.len() ==> 0 <= (#[trigger] others[k]) < items.len() && spec_is_prefix(
            items[ans as int].key@,
            items[others[k] as int].key@,
            sep,
        )
    &&& forall|k: int|
        0 <= k < rest.len() ==> 0 <= (#[trigger] rest[k]) < items.len() && !spec_is_prefix(
            items[ans as int].key@,
            items[rest[k] as int].key@,
            sep,
        )
}

/// What a flattened answer looks like: empty, a single candidate, or the
/// winner followed by two activity-ordered buckets.
pub open spec fn fuzz_spec_outcome(
    q: Seq<char>,
    items: Seq<FuzzItem>,
    sep: Seq<char>,
    r: Seq<usize>,
) -> bool {
    ||| r.len() == 0
    ||| (r.len() == 1 && spec_winner(items, spec_scores(q, items), r[0] as int))
    ||| (exists|ans: usize, others: Seq<usize>, rest: Seq<usize>|
        #[trigger] multi_shape(q, items, sep, r, ans, others, rest))
}

} // verus!

//! "Did you mean" suggestions by edit distance.
use crate::style_model::Name;
use crate::text::{chars_less, chars_of, text_less};
use crate::token_path::TokenPath;
use crate::semantic_errors::dotted;
use vstd::prelude::*;

verus! {

/// The smallest of three numbers.
pub open spec fn min3(a: nat, b: nat, c: nat) -> nat {
    if a <= b && a <= c {
        a
    } else if b <= c {
        b
    } else {
        c
    }
}

/// Levenshtein distance: the fewest single-character insertions, deletions
/// and substitutions that turn `a` into `b`.
pub open spec fn levenshtein(a: Seq<char>, b: Seq<char>) -> nat
    decreases a.len() + b.len(),
{
    if a.len() == 0 {
        b.len()
    } else if b.len() == 0 {
        a.len()
    } else {
        min3(
            levenshtein(a.drop_last(), b) + 1,
            levenshtein(a, b.drop_last()) + 1,
            levenshtein(a.drop_last(), b.drop_last()) + if a.last() == b.last() {
                0nat
            } else {
                1nat
            },
        )
    }
}

/// The distance is at most the longer length.
pub proof fn lemma_levenshtein_bound(a: Seq<char>, b: Seq<char>)
    ensures
        levenshtein(a, b) <= if a.len() >= b.len() {
            a.len()
        } else {
            b.len()
        },
    decreases a.len() + b.len(),
{
    if a.len() > 0 && b.len() > 0 {
        lemma_levenshtein_bound(a.drop_last(), b.drop_last());
    }
}

/// Computes the Levenshtein distance between two texts.
pub fn edit_distance(left: &str, right: &str) -> (r: usize)
    ensures
        r == levenshtein(left@, right@),
{
    let a = chars_of(left);
    let b = chars_of(right);
    let n = a.len();
    let m = b.len();
    let mut previous: Vec<usize> = Vec::new();
    previous.push(0);
    let mut j: usize = 0;
    while j < m
        invariant
            m == b@.len(),
            j <= m,
            previous@.len() == j + 1,
            forall|k: int| 0 <= k <= j ==> #[trigger] previous@[k] == k,
        decreases m - j,
    {
        j = j + 1;
        previous.push(j);
    }
    let width = previous.len();
    proof {
        assert(width == m + 1);
        assert forall|k: int| 0 <= k <= m implies #[trigger] previous@[k] == levenshtein(
            a@.take(0),
            b@.take(k),
        ) by {
            assert(a@.take(0).len() == 0);
            assert(b@.take(k).len() == k);
        }
    }
    let mut i: usize = 0;
    while i < n
        invariant
            n == a@.len(),
            m == b@.len(),
            m < usize::MAX,
            i <= n,
            previous@.len() == m + 1,
            forall|k: int| 0 <= k <= m ==> #[trigger] previous@[k] == levenshtein(a@.take(i as int), b@.take(k)),
        decreases n - i,
    {
        let ghost row = a@.take(i + 1);
        let mut current: Vec<usize> = Vec::new();
        current.push(i + 1);
        proof {
            assert(row.len() == i + 1);
            assert(b@.take(0).len() == 0);
        }
        let mut k: usize = 0;
        while k < m
            invariant
                n == a@.len(),
                m == b@.len(),
                m < usize::MAX,
                i < n,
                row == a@.take(i + 1),
                previous@.len() == m + 1,
                forall|x: int| 0 <= x <= m ==> #[trigger] previous@[x] == levenshtein(a@.take(i as int), b@.take(x)),
                k <= m,
                current@.len() == k + 1,
                forall|x: int| 0 <= x <= k ==> #[trigger] current@[x] == levenshtein(row, b@.take(x)),
            decreases m - k,
        {
            let ghost col = b@.take(k + 1);
            proof {
                assert(row.drop_last() =~= a@.take(i as int));
                assert(col.drop_last() =~= b@.take(k as int));
                assert(row.last() == a@[i as int]);
                assert(col.last() == b@[k as int]);
                lemma_levenshtein_bound(a@.take(i as int), col);
                lemma_levenshtein_bound(row, b@.take(k as int));
                lemma_levenshtein_bound(a@.take(i as int), b@.take(k as int));
            }
            let cost: usize = if a[i] == b[k] {
                0
            } else {
                1
            };
            let shorter = if previous[k + 1] <= current[k] {
                previous[k + 1]
            } else {
                current[k]
            };
            let substitution = previous[k] + cost;
            let best = if shorter + 1 <= substitution {
                shorter + 1
            } else {
                substitution
            };
            current.push(best);
            proof {
                assert(levenshtein(row, col) == min3(
                    levenshtein(a@.take(i as int), col) + 1,
                    levenshtein(row, b@.take(k as int)) + 1,
                    levenshtein(a@.take(i as int), b@.take(k as int)) + if row.last() == col.last() {
                        0nat
                    } else {
                        1nat
                    },
                ));
            }
            k = k + 1;
        }
        previous = current;
        i = i + 1;
    }
    proof {
        assert(a@.take(n as int) =~= left@);
        assert(b@.take(m as int) =~= right@);
    }
    previous[m]
}

/// The largest distance at which a candidate is still suggested for `needle`.
pub open spec fn suggestion_threshold(needle: Seq<char>) -> nat {
    if needle.len() / 3 > 3 {
        needle.len() / 3
    } else {
        3
    }
}

/// Whether `candidate` is close enough to `needle` to be suggested.
pub open spec fn near(needle: Seq<char>, candidate: Seq<char>) -> bool {
    levenshtein(needle, candidate) <= suggestion_threshold(needle)
}

/// Whether `a` ranks strictly before `b`: nearer, or as near and earlier in text order.
pub open spec fn ranks_before(needle: Seq<char>, a: Seq<char>, b: Seq<char>) -> bool {
    levenshtein(needle, a) < levenshtein(needle, b) || (levenshtein(needle, a) == levenshtein(
        needle,
        b,
    ) && chars_less(a, b))
}

/// `r` is the position of the best near candidate: no near candidate ranks
/// before it, and none before it in the list ranks equal to it. `None` when
/// no candidate is near.
pub open spec fn closest_choice(needle: Seq<char>, candidates: Seq<Seq<char>>, r: Option<usize>) -> bool {
    match r {
        Some(i) => {
            &&& i < candidates.len()
            &&& near(needle, candidates[i as int])
            &&& forall|j: int|
                0 <= j < candidates.len() && near(needle, #[trigger] candidates[j]) ==> !ranks_before(
                    needle,
                    candidates[j],
                    candidates[i as int],
                ) && (j < i ==> ranks_before(needle, candidates[i as int], candidates[j]))
        },
        None => forall|j: int| 0 <= j < candidates.len() ==> !near(needle, #[trigger] candidates[j]),
    }
}

/// Returns the position of the candidate text closest to `needle`.
pub fn closest_text(needle: &str, candidates: &[String]) -> (r: Option<usize>)
    ensures
        closest_choice(needle@, candidates@.map_values(|c: String| c@), r),
{
    let ghost texts = candidates@.map_values(|c: String| c@);
    let count = needle.unicode_len();
    let threshold: usize = if count / 3 > 3 {
        count / 3
    } else {
        3
    };
    let mut best: Option<usize> = None;
    let mut best_distance: usize = 0;
    let mut i: usize = 0;
    while i < candidates.len()
        invariant
            texts == candidates@.map_values(|c: String| c@),
            threshold == suggestion_threshold(needle@),
            i <= candidates@.len(),
            closest_choice(needle@, texts.take(i as int), best),
            best matches Some(b) ==> best_distance == levenshtein(needle@, texts[b as int]) && b < i,
        decreases candidates@.len() - i,
    {
        let distance = edit_distance(needle, candidates[i].as_str());
        let ghost prefix = texts.take(i as int);
        let ghost extended = texts.take(i + 1);
        proof {
            assert(extended =~= prefix.push(candidates@[i as int]@));
        }
        if distance <= threshold {
            let better = match best {
                None => true,
                Some(b) => distance < best_distance || (distance == best_distance && text_less(
                    candidates[i].as_str(),
                    candidates[b].as_str(),
                )),
            };
            if better {
                proof {
                    match best {
                        Some(b) => {
                            assert forall|j: int|
                                0 <= j < extended.len() && near(needle@, #[trigger] extended[j]) implies !ranks_before(
                                needle@,
                                extended[j],
                                extended[i as int],
                            ) && (j < i ==> ranks_before(needle@, extended[i as int], extended[j])) by {
                                if j < i {
                                    assert(extended[j] == prefix[j]);
                                    assert(prefix[b as int] == texts[b as int]);
                                    assert(!ranks_before(needle@, prefix[j], prefix[b as int]));
                                    crate::text::lemma_chars_less_total(extended[i as int], prefix[j]);
                                    crate::text::lemma_chars_less_total(prefix[b as int], prefix[j]);
                                    if chars_less(extended[i as int], prefix[b as int]) && chars_less(prefix[b as int], prefix[j]) {
                                        crate::text::lemma_chars_less_transitive(extended[i as int], prefix[b as int], prefix[j]);
                                    }
                                    if chars_less(extended[i as int], prefix[b as int]) {
                                        crate::text::lemma_chars_less_asymmetric(extended[i as int], prefix[b as int]);
                                    }
                                    if chars_less(prefix[j], extended[i as int]) && chars_less(extended[i as int], prefix[b as int]) {
                                        crate::text::lemma_chars_less_transitive(prefix[j], extended[i as int], prefix[b as int]);
                                    }
                                } else {
                                    crate::text::lemma_chars_less_irreflexive(extended[j]);
                                }
                            }
                        },
                        None => {
                            assert forall|j: int|
                                0 <= j < extended.len() && near(needle@, #[trigger] extended[j]) implies !ranks_before(
                                needle@,
                                extended[j],
                                extended[i as int],
                            ) && (j < i ==> ranks_before(needle@, extended[i as int], extended[j])) by {
                                if j < i {
                                    assert(extended[j] == prefix[j]);
                                } else {
                                    crate::text::lemma_chars_less_irreflexive(extended[j]);
                                }
                            }
                        },
                    }
                }
                best = Some(i);
                best_distance = distance;
            } else {
                proof {
                    let b = best->0;
                    assert(prefix[b as int] == texts[b as int]);
                    assert forall|j: int|
                        0 <= j < extended.len() && near(needle@, #[trigger] extended[j]) implies !ranks_before(
                        needle@,
                        extended[j],
                        extended[b as int],
                    ) && (j < b ==> ranks_before(needle@, extended[b as int], extended[j])) by {
                        if j < i {
                            assert(extended[j] == prefix[j]);
                        } else {
                            crate::text::lemma_chars_less_total(extended[j], prefix[b as int]);
                            if chars_less(extended[j], prefix[b as int]) {
                                crate::text::lemma_chars_less_asymmetric(extended[j], prefix[b as int]);
                            }
                        }
                    }
                }
            }
        } else {
            proof {
                match best {
                    Some(b) => {
                        assert forall|j: int|
                            0 <= j < extended.len() && near(needle@, #[trigger] extended[j]) implies !ranks_before(
                            needle@,
                            extended[j],
                            extended[b as int],
                        ) && (j < b ==> ranks_before(needle@, extended[b as int], extended[j])) by {
                            assert(extended[j] == prefix[j]);
                        }
                    },
                    None => {
                        assert forall|j: int| 0 <= j < extended.len() implies !near(needle@, #[trigger] extended[j]) by {
                            if j < i {
                                assert(extended[j] == prefix[j]);
                            }
                        }
                    },
                }
            }
        }
        i = i + 1;
    }
    proof {
        assert(texts.take(candidates@.len() as int) =~= texts);
    }
    best
}

/// The paths of candidate tokens, rendered dotted.
pub open spec fn dotted_paths(candidates: Seq<TokenPath>) -> Seq<Seq<char>> {
    candidates.map_values(|c: TokenPath| dotted(c@))
}

/// Returns the position of the token path closest to `needle`.
pub fn closest_token(needle: &TokenPath, candidates: &[TokenPath]) -> (r: Option<usize>)
    ensures
        closest_choice(dotted(needle@), dotted_paths(candidates@), r),
{
    let mut texts: Vec<String> = Vec::new();
    let mut i: usize = 0;
    while i < candidates.len()
        invariant
            i <= candidates@.len(),
            texts@.len() == i,
            forall|k: int| 0 <= k < i ==> #[trigger] texts@[k]@ == dotted(candidates@[k]@),
        decreases candidates@.len() - i,
    {
        texts.push(candidates[i].to_string());
        i = i + 1;
    }
    assert(texts@.map_values(|c: String| c@) =~= dotted_paths(candidates@));
    let text = needle.to_string();
    closest_text(text.as_str(), texts.as_slice())
}

/// The texts of candidate names.
pub open spec fn name_texts(candidates: Seq<Name>) -> Seq<Seq<char>> {
    candidates.map_values(|c: Name| c@)
}

/// Returns the position of the name closest to `needle`.
pub fn closest_name(needle: &Name, candidates: &[Name]) -> (r: Option<usize>)
    ensures
        closest_choice(needle@, name_texts(candidates@), r),
{
    let mut texts: Vec<String> = Vec::new();
    let mut i: usize = 0;
    while i < candidates.len()
        invariant
            i <= candidates@.len(),
            texts@.len() == i,
            forall|k: int| 0 <= k < i ==> #[trigger] texts@[k]@ == candidates@[k]@,
        decreases candidates@.len() - i,
    {
        texts.push(candidates[i].to_string());
        i = i + 1;
    }
    assert(texts@.map_values(|c: String| c@) =~= name_texts(candidates@));
    closest_text(needle.as_str(), texts.as_slice())
}

} // verus!

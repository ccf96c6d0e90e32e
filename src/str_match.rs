//! Exact substring search (Knuth-Morris-Pratt).
use vstd::prelude::*;

verus! {

/// `pattern` occurs in `text` starting at position `i`.
pub open spec fn occurs_at(text: Seq<char>, pattern: Seq<char>, i: int) -> bool {
    &&& 0 <= i
    &&& i + pattern.len() <= text.len()
    &&& forall|k: int| 0 <= k < pattern.len() ==> #[trigger] text[i + k] == pattern[k]
}

/// `pattern` occurs somewhere in `text`.
pub open spec fn occurs_in(text: Seq<char>, pattern: Seq<char>) -> bool {
    exists|i: int| occurs_at(text, pattern, i)
}

/// Position of the first occurrence of `pattern` in `text` at or after `from`,
/// or -1 when there is none.
pub open spec fn first_occurrence_from(text: Seq<char>, pattern: Seq<char>, from: int) -> int
    decreases text.len() + 1 - from,
{
    if from < 0 || from + pattern.len() > text.len() {
        -1
    } else if occurs_at(text, pattern, from) {
        from
    } else {
        first_occurrence_from(text, pattern, from + 1)
    }
}

/// Position of the first occurrence of `pattern` in `text`, or -1 when there is none.
pub open spec fn first_occurrence(text: Seq<char>, pattern: Seq<char>) -> int {
    first_occurrence_from(text, pattern, 0)
}

/// The first `len` characters of `p` equal the `len` characters that end at `end`:
/// a border of `p[0..end]` of length `len`.
pub open spec fn is_border(p: Seq<char>, end: int, len: int) -> bool {
    &&& 0 <= len < end <= p.len()
    &&& forall|k: int| 0 <= k < len ==> #[trigger] p[end - len + k] == p[k]
}

/// `table[i]` is the length of the longest proper border of `p[0..=i]`.
pub open spec fn is_prefix_table(p: Seq<char>, table: Seq<usize>, upto: int) -> bool {
    forall|i: int|
        0 <= i < upto ==> {
            &&& is_border(p, i + 1, #[trigger] table[i] as int)
            &&& forall|b: int| table[i] < b <= i ==> !#[trigger] is_border(p, i + 1, b)
        }
}

proof fn lemma_first_occurrence_from(text: Seq<char>, pattern: Seq<char>, from: int)
    requires
        0 <= from,
        forall|s: int| 0 <= s < from ==> !occurs_at(text, pattern, s),
    ensures
        ({
            let r = first_occurrence_from(text, pattern, from);
            &&& r >= 0 ==> occurs_at(text, pattern, r) && forall|s: int|
                0 <= s < r ==> !occurs_at(text, pattern, s)
            &&& r < 0 ==> forall|s: int| !occurs_at(text, pattern, s)
        }),
    decreases text.len() + 1 - from,
{
    if from + pattern.len() > text.len() {
    } else if occurs_at(text, pattern, from) {
    } else {
        lemma_first_occurrence_from(text, pattern, from + 1);
    }
}

/// The first occurrence is an occurrence, and none comes before it; -1 means there is none.
pub proof fn lemma_first_occurrence(text: Seq<char>, pattern: Seq<char>)
    ensures
        ({
            let r = first_occurrence(text, pattern);
            &&& r >= 0 ==> occurs_at(text, pattern, r) && forall|s: int|
                0 <= s < r ==> !occurs_at(text, pattern, s)
            &&& r < 0 ==> forall|s: int| !occurs_at(text, pattern, s)
        }),
{
    lemma_first_occurrence_from(text, pattern, 0);
}

/// Builds the partial match table of `p`: entry `i` is the length of the
/// longest proper prefix of `p[0..=i]` that is also a suffix of it.
fn next(p: &[char]) -> (table: Vec<usize>)
    ensures
        table@.len() == p@.len(),
        is_prefix_table(p@, table@, p@.len() as int),
{
    let n = p.len();
    let mut table: Vec<usize> = Vec::new();
    if n == 0 {
        return table;
    }
    table.push(0);
    let mut i: usize = 1;
    let mut j: usize = 0;
    while i < n
        invariant
            n == p@.len(),
            1 <= i <= n,
            j < i,
            table@.len() == i,
            is_prefix_table(p@, table@, i as int),
            forall|k: int| 0 <= k < j ==> #[trigger] p@[i - j + k] == p@[k],
            // every border longer than `j` that could extend to `i` has been tried
            forall|c: int|
                j < c < i && (forall|k: int| 0 <= k < c ==> #[trigger] p@[i - c + k] == p@[k])
                    ==> p@[i as int] != #[trigger] p@[c],
        decreases 2 * n - 2 * i + j,
    {
        let ghost s = p@;
        if p[i] == p[j] {
            proof {
                assert forall|k: int| 0 <= k < j + 1 implies #[trigger] s[i + 1 - (j + 1) + k] == s[k] by {
                    if k < j {
                        assert(s[i - j + k] == s[k]);
                    }
                }
                assert forall|b: int| j + 1 < b <= i implies !#[trigger] is_border(s, i + 1, b) by {
                    if is_border(s, i + 1, b) {
                        let c = b - 1;
                        assert forall|k: int| 0 <= k < c implies #[trigger] s[i - c + k] == s[k] by {
                            assert(s[i + 1 - b + k] == s[k]);
                        }
                        assert(s[i + 1 - b + c] == s[c]);
                    }
                }
            }
            j += 1;
            table.push(j);
            proof {
                assert(is_border(s, i + 1, j as int));
                assert forall|c: int|
                    j < c < i + 1 && (forall|k: int| 0 <= k < c ==> #[trigger] s[i + 1 - c + k] == s[k])
                    implies s[i + 1] != #[trigger] s[c] by {
                    assert(table@[i as int] == j);
                    assert(is_border(s, i + 1, c));
                }
            }
            i += 1;
        } else if j != 0 {
            let nj = table[j - 1];
            proof {
                let t = nj as int;
                assert(is_border(s, j as int, t));
                assert forall|k: int| 0 <= k < t implies #[trigger] s[i - t + k] == s[k] by {
                    assert(s[i - j + (j - t + k)] == s[j - t + k]);
                    assert(s[j - t + k] == s[k]);
                }
                assert forall|c: int|
                    t < c < i && (forall|k: int| 0 <= k < c ==> #[trigger] s[i - c + k] == s[k])
                    implies s[i as int] != #[trigger] s[c] by {
                    if c < j {
                        assert forall|k: int| 0 <= k < c implies #[trigger] s[j - c + k] == s[k] by {
                            assert(s[i - j + (j - c + k)] == s[j - c + k]);
                            assert(s[i - c + k] == s[k]);
                        }
                        assert(is_border(s, j as int, c));
                    }
                }
            }
            j = nj;
        } else {
            proof {
                assert forall|b: int| 0 < b <= i implies !#[trigger] is_border(s, i + 1, b) by {
                    if is_border(s, i + 1, b) {
                        let c = b - 1;
                        assert forall|k: int| 0 <= k < c implies #[trigger] s[i - c + k] == s[k] by {
                            assert(s[i + 1 - b + k] == s[k]);
                        }
                        assert(s[i + 1 - b + c] == s[c]);
                    }
                }
            }
            table.push(0);
            proof {
                assert(is_border(s, i + 1, 0));
                assert forall|c: int|
                    0 < c < i + 1 && (forall|k: int| 0 <= k < c ==> #[trigger] s[i + 1 - c + k] == s[k])
                    implies s[i + 1] != #[trigger] s[c] by {
                    assert(is_border(s, i + 1, c));
                }
            }
            i += 1;
        }
    }
    table
}

/// Returns the position of the first occurrence of `pattern` in `input`, or
/// `None` when `pattern` does not occur there. An empty pattern occurs at 0.
pub fn kmp_search(input: &[char], pattern: &[char]) -> (r: Option<usize>)
    ensures
        match r {
            Some(i) => occurs_at(input@, pattern@, i as int) && forall|s: int|
                0 <= s < i ==> !occurs_at(input@, pattern@, s),
            None => forall|s: int| !occurs_at(input@, pattern@, s),
        },
        r == (if first_occurrence(input@, pattern@) >= 0 {
            Some(first_occurrence(input@, pattern@) as usize)
        } else {
            None::<usize>
        }),
{
    proof {
        lemma_first_occurrence(input@, pattern@);
    }
    let m = pattern.len();
    if m == 0 {
        assert(occurs_at(input@, pattern@, 0));
        return Some(0);
    }
    if input.len() < m {
        return None;
    }
    let table = next(pattern);
    let n = input.len();
    let mut i: usize = 0;
    let mut j: usize = 0;
    while i < n && j < m
        invariant
            n == input@.len(),
            m == pattern@.len(),
            table@.len() == m,
            is_prefix_table(pattern@, table@, m as int),
            j <= i <= n,
            j <= m,
            forall|k: int| 0 <= k < j ==> #[trigger] input@[i - j + k] == pattern@[k],
            forall|s: int| 0 <= s < i - j ==> !occurs_at(input@, pattern@, s),
        decreases 2 * n - 2 * i + j,
    {
        let ghost t = input@;
        let ghost p = pattern@;
        if input[i] == pattern[j] {
            proof {
                assert forall|k: int| 0 <= k < j + 1 implies #[trigger] t[i + 1 - (j + 1) + k] == p[k] by {
                    if k < j {
                        assert(t[i - j + k] == p[k]);
                    }
                }
            }
            i += 1;
            j += 1;
        } else if j != 0 {
            let nj = table[j - 1];
            proof {
                let b = nj as int;
                assert(is_border(p, j as int, b));
                assert forall|k: int| 0 <= k < b implies #[trigger] t[i - b + k] == p[k] by {
                    assert(t[i - j + (j - b + k)] == p[j - b + k]);
                    assert(p[j - b + k] == p[k]);
                }
                assert forall|s: int| 0 <= s < i - b implies !occurs_at(t, p, s) by {
                    if s >= i - j && occurs_at(t, p, s) {
                        let c = i - s;
                        if c == j {
                            assert(t[s + j] == p[j as int]);
                        } else {
                            assert forall|k: int| 0 <= k < c implies #[trigger] p[j - c + k] == p[k] by {
                                assert(t[i - j + (j - c + k)] == p[j - c + k]);
                                assert(t[s + k] == p[k]);
                            }
                            assert(is_border(p, j as int, c));
                        }
                    }
                }
            }
            j = nj;
        } else {
            proof {
                assert forall|s: int| 0 <= s < i + 1 implies !occurs_at(t, p, s) by {
                    if s == i && occurs_at(t, p, s) {
                        assert(t[s + 0] == p[0]);
                    }
                }
            }
            i += 1;
        }
    }
    if j == m {
        proof {
            assert(occurs_at(input@, pattern@, i - j));
        }
        Some(i - j)
    } else {
        proof {
            assert forall|s: int| !occurs_at(input@, pattern@, s) by {
                if 0 <= s && s >= i - j {
                    assert(s + m > n);
                }
            }
        }
        None
    }
}

} // verus!

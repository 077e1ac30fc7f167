//! Pattern search and load balancing.
use vstd::prelude::*;

verus! {

/// The last `k` bytes of `s` are the first `k` of `pat`.
pub open spec fn ends_with(s: Seq<u8>, pat: Seq<u8>, k: int) -> bool {
    &&& 0 <= k <= s.len()
    &&& k <= pat.len()
    &&& forall|j: int| 0 <= j < k ==> #[trigger] pat[j] == s[s.len() - k + j]
}

/// `q` is the greatest number up to `cap` with which `s` ends in the pattern.
spec fn longest(s: Seq<u8>, pat: Seq<u8>, q: int, cap: int) -> bool {
    &&& ends_with(s, pat, q)
    &&& q <= cap
    &&& forall|k: int| k <= cap && #[trigger] ends_with(s, pat, k) ==> k <= q
}

/// For each of the first `n` prefixes of the pattern, the length of the longest
/// part that is both a proper start and an end of it.
spec fn borders(fail: Seq<usize>, pat: Seq<u8>, n: int) -> bool {
    &&& fail.len() == pat.len()
    &&& forall|j: int|
        0 <= j < n ==> longest(pat.take(j + 1), pat, #[trigger] fail[j] as int, j)
}

/// The pattern stands in `data` at position `at`.
pub open spec fn matches_at(data: Seq<u8>, pat: Seq<u8>, at: int) -> bool {
    &&& 0 <= at
    &&& at + pat.len() <= data.len()
    &&& data.subrange(at, at + pat.len()) == pat
}

/// What `s` ends with below `q`, the first `q` bytes of the pattern end with too.
proof fn lemma_shorter_end(s: Seq<u8>, pat: Seq<u8>, q: int, k: int)
    requires
        ends_with(s, pat, q),
        0 <= k <= q,
    ensures
        ends_with(s, pat, k) <==> ends_with(pat.take(q), pat, k),
{
    let p = pat.take(q);
    if ends_with(s, pat, k) {
        assert forall|j: int| 0 <= j < k implies #[trigger] pat[j] == p[p.len() - k + j] by {
            assert(pat[q - k + j] == s[s.len() - q + (q - k + j)]);
        }
    }
    if ends_with(p, pat, k) {
        assert forall|j: int| 0 <= j < k implies #[trigger] pat[j] == s[s.len() - k + j] by {
            assert(pat[q - k + j] == s[s.len() - q + (q - k + j)]);
        }
    }
}

/// Ending with one byte more.
proof fn lemma_longer_end(s: Seq<u8>, b: u8, pat: Seq<u8>, k: int)
    requires
        0 <= k < pat.len(),
    ensures
        ends_with(s.push(b), pat, k + 1) <==> ends_with(s, pat, k) && pat[k] == b,
{
    let t = s.push(b);
    if ends_with(t, pat, k + 1) {
        assert(pat[k] == t[t.len() - (k + 1) + k]);
        assert forall|j: int| 0 <= j < k implies #[trigger] pat[j] == s[s.len() - k + j] by {
            assert(pat[j] == t[t.len() - (k + 1) + j]);
        }
    }
}

/// The longest end after one more byte `b`, by falling back from `q`.
fn advance(pattern: &[u8], fail: &Vec<usize>, q: usize, b: u8, Ghost(s): Ghost<Seq<u8>>) -> (r:
    usize)
    requires
        q < pattern@.len(),
        longest(s, pattern@, q as int, pattern@.len() - 1),
        borders(fail@, pattern@, q as int),
    ensures
        longest(s.push(b), pattern@, r as int, pattern@.len() as int),
{
    let ghost pat = pattern@;
    let ghost t = s.push(b);
    let mut k: usize = q;
    while k > 0 && pattern[k] != b
        invariant
            k <= q < pat.len(),
            pat == pattern@,
            ends_with(s, pat, k as int),
            borders(fail@, pat, q as int),
            forall|j: int|
                0 <= j < pat.len() && #[trigger] ends_with(s, pat, j) && pat[j] == b ==> j <= k,
        decreases k,
    {
        let ghost old_k = k as int;
        k = fail[k - 1];
        proof {
            let p = pat.take(old_k);
            assert(longest(p, pat, k as int, old_k - 1));
            lemma_shorter_end(s, pat, old_k, k as int);
            assert forall|j: int|
                0 <= j < pat.len() && #[trigger] ends_with(s, pat, j) && pat[j] == b implies j
                <= k by {
                lemma_shorter_end(s, pat, old_k, j);
                assert(ends_with(p, pat, j));
            }
        }
    }
    let hit = pattern[k] == b;
    proof {
        lemma_longer_end(s, b, pat, k as int);
        assert forall|m: int| m <= pat.len() && #[trigger] ends_with(t, pat, m) implies m <= if hit {
            k + 1
        } else {
            k as int
        } by {
            if m > 0 {
                lemma_longer_end(s, b, pat, m - 1);
                assert(ends_with(s, pat, m - 1));
            }
        }
        assert(ends_with(t, pat, 0));
    }
    if hit {
        k + 1
    } else {
        k
    }
}

fn failure_table(pattern: &[u8]) -> (fail: Vec<usize>)
    requires
        pattern@.len() > 0,
    ensures
        borders(fail@, pattern@, pattern@.len() as int),
{
    let ghost pat = pattern@;
    let plen = pattern.len();
    let mut fail: Vec<usize> = vec![0; plen];
    let mut k: usize = 0;
    let mut i: usize = 1;
    proof {
        assert(ends_with(pat.take(1), pat, 0));
        assert(longest(pat.take(1), pat, 0, 0));
        let s = pat.subrange(1, 1);
        assert(ends_with(s, pat, 0));
        assert(longest(s, pat, 0, plen - 1));
    }
    while i < plen
        invariant
            1 <= i <= plen,
            pat == pattern@,
            plen == pat.len(),
            k < i,
            borders(fail@, pat, i as int),
            longest(pat.subrange(1, i as int), pat, k as int, plen - 1),
        decreases plen - i,
    {
        let ghost s = pat.subrange(1, i as int);
        k = advance(pattern, &fail, k, pattern[i], Ghost(s));
        let ghost before = fail@;
        fail.set(i, k);
        proof {
            let t = pat.subrange(1, i + 1);
            assert(s.push(pat[i as int]) =~= t);
            let whole = pat.take(i + 1);
            assert forall|m: int| m <= i implies (#[trigger] ends_with(whole, pat, m) <==> ends_with(
                t,
                pat,
                m,
            )) by {
                if ends_with(whole, pat, m) {
                    assert forall|j: int| 0 <= j < m implies #[trigger] pat[j] == t[t.len() - m
                        + j] by {
                        assert(pat[j] == whole[whole.len() - m + j]);
                    }
                }
                if ends_with(t, pat, m) {
                    assert forall|j: int| 0 <= j < m implies #[trigger] pat[j]
                        == whole[whole.len() - m + j] by {
                        assert(pat[j] == t[t.len() - m + j]);
                    }
                }
            }
            assert(longest(whole, pat, k as int, i as int));
            assert forall|j: int| 0 <= j < i + 1 implies longest(
                pat.take(j + 1),
                pat,
                #[trigger] fail@[j] as int,
                j,
            ) by {
                if j < i {
                    assert(fail@[j] == before[j]);
                }
            }
        }
        i = i + 1;
    }
    fail
}

proof fn lemma_match_is_end(data: Seq<u8>, pat: Seq<u8>, i: int)
    requires
        0 <= i <= data.len(),
    ensures
        ends_with(data.take(i), pat, pat.len() as int) <==> matches_at(
            data,
            pat,
            i - pat.len(),
        ),
{
    let s = data.take(i);
    let at = i - pat.len();
    if ends_with(s, pat, pat.len() as int) {
        assert(data.subrange(at, i) =~= pat) by {
            assert forall|j: int| 0 <= j < pat.len() implies data.subrange(at, i)[j]
                == #[trigger] pat[j] by {}
        }
    }
    if matches_at(data, pat, at) {
        assert forall|j: int| 0 <= j < pat.len() implies #[trigger] pat[j] == s[s.len()
            - pat.len() + j] by {
            assert(data.subrange(at, at + pat.len())[j] == data[at + j]);
        }
    }
}

/// The positions at which the pattern stands in the data, overlapping ones too, in
/// rising order. The search stops after `max_matches` of them, but not before the
/// first. An empty pattern is found nowhere.
pub fn mem_scan_pattern(data: &[u8], pattern: &[u8], max_matches: usize) -> (r: Vec<usize>)
    ensures
        pattern@.len() == 0 ==> r@.len() == 0,
        forall|i: int, j: int| 0 <= i < j < r@.len() ==> r@[i] < r@[j],
        forall|i: int|
            0 <= i < r@.len() ==> matches_at(data@, pattern@, #[trigger] r@[i] as int),
        r@.len() <= if max_matches == 0 {
            1
        } else {
            max_matches
        },
        forall|at: usize|
            pattern@.len() > 0 && #[trigger] matches_at(data@, pattern@, at as int)
                && !r@.contains(at) ==> r@.len() >= max_matches && r@.len() > 0
                && r@.last() < at,
{
    let mut results: Vec<usize> = Vec::new();
    if pattern.len() == 0 || data.len() < pattern.len() {
        return results;
    }
    let ghost pat = pattern@;
    let plen = pattern.len();
    let fail = failure_table(pattern);
    let mut q: usize = 0;
    let mut i: usize = 0;
    proof {
        assert(ends_with(data@.take(0), pat, 0));
        assert(longest(data@.take(0), pat, 0, plen - 1));
    }
    while i < data.len()
        invariant
            i <= data@.len(),
            pat == pattern@,
            plen == pat.len(),
            plen > 0,
            q < plen,
            borders(fail@, pat, plen as int),
            longest(data@.take(i as int), pat, q as int, plen - 1),
            forall|a: int, b: int| 0 <= a < b < results@.len() ==> results@[a] < results@[b],
            forall|a: int|
                0 <= a < results@.len() ==> matches_at(data@, pat, #[trigger] results@[a] as int)
                    && results@[a] + plen <= i,
            results@.len() == 0 || results@.len() < max_matches,
            forall|at: usize| #[trigger]
                matches_at(data@, pat, at as int) && at + plen <= i ==> results@.contains(at),
        decreases data@.len() - i,
    {
        let ghost s = data@.take(i as int);
        let ghost t = data@.take(i + 1);
        let ghost found = results@;
        q = advance(pattern, &fail, q, data[i], Ghost(s));
        proof {
            assert(s.push(data@[i as int]) =~= t);
            lemma_match_is_end(data@, pat, i + 1);
            if q < plen {
                assert(!ends_with(t, pat, plen as int));
                assert(longest(t, pat, q as int, plen - 1));
            }
        }
        if q == plen {
            let at: usize = i - (plen - 1);
            results.push(at);
            proof {
                assert(results@[found.len() as int] == at);
                assert forall|b: usize| #[trigger]
                    matches_at(data@, pat, b as int) && b + plen <= i + 1 implies results@.contains(
                    b,
                ) by {
                    if b != at {
                        assert(found.contains(b));
                        let k = choose|k: int| 0 <= k < found.len() && found[k] == b;
                        assert(results@[k] == b);
                    }
                }
                assert forall|a: int, b: int| 0 <= a < b < results@.len() implies results@[a]
                    < results@[b] by {
                    assert(results@[a] == found[a]);
                    if b < found.len() {
                        assert(results@[b] == found[b]);
                    }
                }
            }
            if results.len() >= max_matches {
                assert forall|b: usize| #[trigger]
                    matches_at(data@, pat, b as int) && !results@.contains(b) implies results@.last()
                    < b by {}
                return results;
            }
            q = fail[q - 1];
            proof {
                assert(pat.take(plen as int) =~= pat);
                assert(longest(pat.take(plen as int), pat, q as int, plen - 1));
                lemma_shorter_end(t, pat, plen as int, q as int);
                assert forall|k: int| k <= plen - 1 && #[trigger] ends_with(t, pat, k) implies k
                    <= q by {
                    lemma_shorter_end(t, pat, plen as int, k);
                    assert(ends_with(pat.take(plen as int), pat, k));
                }
            }
        }
        i = i + 1;
    }
    results
}

/// What a processor offers: few tasks, a high priority, no wait for I/O, a warm
/// cache and the near half of the machine.
pub open spec fn cpu_score(tasks: Seq<usize>, prios: Seq<i32>, blocked: Seq<bool>, cpu: int) -> int {
    let pr = if cpu < prios.len() {
        prios[cpu] as int
    } else {
        0
    };
    let io = if cpu < blocked.len() && blocked[cpu] {
        500int
    } else {
        0
    };
    let cache = if tasks[cpu] > 0 {
        50int
    } else {
        0
    };
    let numa = if cpu < tasks.len() as int / 2 {
        10int
    } else {
        -10
    };
    pr * 10 - tasks[cpu] * 100 - io + cache + numa
}

/// The processor with the best score, the first of them if several share it; 0 if
/// there is none.
pub fn compute_load_balance(
    task_counts: &[usize],
    priorities: &[i32],
    io_blocked: &[bool],
) -> (r: usize)
    requires
        forall|i: int|
            0 <= i < task_counts@.len() ==> #[trigger] task_counts@[i] * 100 + 30_000_000_000
                <= i64::MAX,
    ensures
        task_counts@.len() == 0 ==> r == 0,
        task_counts@.len() > 0 ==> {
            &&& r < task_counts@.len()
            &&& forall|c: int|
                0 <= c < task_counts@.len() ==> #[trigger] cpu_score(
                    task_counts@,
                    priorities@,
                    io_blocked@,
                    c,
                ) <= cpu_score(task_counts@, priorities@, io_blocked@, r as int)
            &&& forall|c: int|
                0 <= c < r ==> #[trigger] cpu_score(task_counts@, priorities@, io_blocked@, c)
                    < cpu_score(task_counts@, priorities@, io_blocked@, r as int)
        },
{
    let ncpu = task_counts.len();
    if ncpu == 0 {
        return 0;
    }
    let ghost t = task_counts@;
    let ghost p = priorities@;
    let ghost b = io_blocked@;
    let mut best: usize = 0;
    let mut best_score: i64 = 0;
    let mut cpu: usize = 0;
    while cpu < ncpu
        invariant
            cpu <= ncpu == task_counts@.len(),
            t == task_counts@,
            p == priorities@,
            b == io_blocked@,
            ncpu > 0,
            forall|i: int|
                0 <= i < task_counts@.len() ==> #[trigger] task_counts@[i] * 100 + 30_000_000_000
                    <= i64::MAX,
            best < ncpu,
            cpu > 0 ==> best < cpu && best_score == cpu_score(t, p, b, best as int),
            forall|c: int| 0 <= c < cpu ==> #[trigger] cpu_score(t, p, b, c) <= best_score,
            forall|c: int| 0 <= c < best ==> #[trigger] cpu_score(t, p, b, c) < best_score,
        decreases ncpu - cpu,
    {
        let tc: usize = task_counts[cpu];
        let pr: i64 = if cpu < priorities.len() {
            priorities[cpu] as i64
        } else {
            0
        };
        let blocked = cpu < io_blocked.len() && io_blocked[cpu];
        let mut score: i64 = -(tc as i64) * 100;
        score = score + pr * 10;
        if blocked {
            score = score - 500;
        }
        if tc > 0 {
            score = score + 50;
        }
        if cpu < ncpu / 2 {
            score = score + 10;
        } else {
            score = score - 10;
        }
        assert(score == cpu_score(t, p, b, cpu as int));
        if cpu == 0 || score > best_score {
            best = cpu;
            best_score = score;
        }
        cpu = cpu + 1;
    }
    best
}

/// A pattern is found where every byte of it is.
pub proof fn lemma_match_by_bytes(data: Seq<u8>, pat: Seq<u8>, at: int)
    ensures
        matches_at(data, pat, at) <==> 0 <= at && at + pat.len() <= data.len() && forall|k: int|
            0 <= k < pat.len() ==> data[at + k] == #[trigger] pat[k],
{
    if 0 <= at && at + pat.len() <= data.len() {
        let w = data.subrange(at, at + pat.len());
        if w == pat {
            assert forall|k: int| 0 <= k < pat.len() implies data[at + k] == #[trigger] pat[k] by {
                assert(w[k] == data[at + k]);
            }
        }
        if forall|k: int| 0 <= k < pat.len() ==> data[at + k] == #[trigger] pat[k] {
            assert(w =~= pat);
        }
    }
}

/// A processor is chosen the rather the fewer tasks it has: one task less outweighs
/// that it runs nothing, and where it stands. One that waits is chosen last.
pub proof fn lemma_idle_processor_is_chosen(
    tasks: Seq<usize>,
    prios: Seq<i32>,
    blocked: Seq<bool>,
    a: int,
    b: int,
)
    requires
        0 <= a < tasks.len(),
        0 <= b < tasks.len(),
        prios.len() == tasks.len(),
        blocked.len() == tasks.len(),
    ensures
        tasks[a] < tasks[b] && prios[a] == prios[b] && blocked[a] == blocked[b] ==> cpu_score(
            tasks,
            prios,
            blocked,
            a,
        ) > cpu_score(tasks, prios, blocked, b),
        tasks[a] == tasks[b] && prios[a] == prios[b] && !blocked[a] && blocked[b] ==> cpu_score(
            tasks,
            prios,
            blocked,
            a,
        ) > cpu_score(tasks, prios, blocked, b),
        tasks[a] == tasks[b] && prios[a] > prios[b] + 2 && blocked[a] == blocked[b] ==> cpu_score(
            tasks,
            prios,
            blocked,
            a,
        ) > cpu_score(tasks, prios, blocked, b),
        tasks[a] == tasks[b] && prios[a] == prios[b] && blocked[a] == blocked[b] && a < tasks.len()
            / 2 && b >= tasks.len() / 2 ==> cpu_score(tasks, prios, blocked, a) > cpu_score(
            tasks,
            prios,
            blocked,
            b,
        ),
{
}

} // verus!

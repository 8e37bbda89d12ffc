//! Searches of a byte pattern in a text: Knuth-Morris-Pratt, and Boyer-Moore
//! with the bad-character rule. Both give all the places where the pattern
//! occurs, in increasing order.
use vstd::prelude::*;

verus! {

pub open spec fn matches_at(t: Seq<u8>, p: Seq<u8>, s: int) -> bool {
    0 <= s && s + p.len() <= t.len() && t.subrange(s, s + p.len()) == p
}

/// One more than the last index of `c` in `p`; 0 when `c` does not occur.
pub open spec fn last_occ1(p: Seq<u8>, c: u8) -> nat
    decreases p.len(),
{
    if p.len() == 0 {
        0
    } else if p.last() == c {
        p.len()
    } else {
        last_occ1(p.drop_last(), c)
    }
}

proof fn lemma_last_occ1(p: Seq<u8>, c: u8)
    ensures
        last_occ1(p, c) <= p.len(),
        forall|i: int| last_occ1(p, c) <= i < p.len() ==> p[i] != c,
    decreases p.len(),
{
    if p.len() > 0 {
        lemma_last_occ1(p.drop_last(), c);
        if p.last() != c {
            assert forall|i: int| last_occ1(p, c) <= i < p.len() implies p[i] != c by {
                if i < p.len() - 1 {
                    assert(p.drop_last()[i] == p[i]);
                }
            }
        }
    }
}

/// For each byte value, one more than its last index in the pattern (0 when
/// absent).
fn bad_character_heuristic(pattern: &[u8]) -> (r: Vec<usize>)
    ensures
        r@.len() == 256,
        forall|c: u8| #[trigger] r@[c as int] == last_occ1(pattern@, c),
{
    let mut table: Vec<usize> = Vec::new();
    let mut k: usize = 0;
    while k < 256
        invariant
            k <= 256,
            table@.len() == k,
            forall|c: int| 0 <= c < k ==> table@[c] == 0,
        decreases 256 - k,
    {
        table.push(0);
        k = k + 1;
    }
    let ghost p = pattern@;
    assert(p.take(0) =~= Seq::<u8>::empty());
    let mut i: usize = 0;
    while i < pattern.len()
        invariant
            i <= p.len(),
            p == pattern@,
            table@.len() == 256,
            forall|c: u8| #[trigger] table@[c as int] == last_occ1(p.take(i as int), c),
        decreases p.len() - i,
    {
        let b = pattern[i];
        table.set(b as usize, i + 1);
        assert(p.take(i + 1).drop_last() =~= p.take(i as int));
        assert forall|c: u8| #[trigger] table@[c as int] == last_occ1(p.take(i + 1), c) by {
            if c != b {
                assert(table@[c as int] == last_occ1(p.take(i as int), c));
            }
        }
        i = i + 1;
    }
    assert(p.take(p.len() as int) =~= p);
    table
}

/// Every place where `pattern` occurs in `text`, as byte offsets, in
/// increasing order.
pub fn boyer_moore_search(text: &[u8], pattern: &[u8]) -> (r: Vec<usize>)
    ensures
        forall|a: int, b: int| 0 <= a < b < r@.len() ==> r@[a] < r@[b],
        forall|k: int| 0 <= k < r@.len() ==> matches_at(text@, pattern@, r@[k] as int),
        forall|s: int| #[trigger] matches_at(text@, pattern@, s) ==> r@.contains(s as usize),
{
    let ghost t = text@;
    let ghost p = pattern@;
    let m = pattern.len();
    let n = text.len();
    let bad = bad_character_heuristic(pattern);
    let mut result: Vec<usize> = Vec::new();
    if m > n {
        assert forall|s: int| #[trigger] matches_at(t, p, s) implies result@.contains(s as usize) by {}
        return result;
    }
    let mut s: usize = 0;
    while s <= n - m
        invariant
            m <= n,
            n == t.len(),
            m == p.len(),
            t == text@,
            p == pattern@,
            bad@.len() == 256,
            forall|c: u8| #[trigger] bad@[c as int] == last_occ1(p, c),
            forall|a: int, b: int| 0 <= a < b < result@.len() ==> result@[a] < result@[b],
            forall|k: int| 0 <= k < result@.len() ==> result@[k] < s,
            forall|k: int| 0 <= k < result@.len() ==> matches_at(t, p, result@[k] as int),
            forall|x: int| 0 <= x < s && #[trigger] matches_at(t, p, x) ==> result@.contains(x as usize),
        decreases n + 1 - s,
    {
        let mut j = m;
        while j > 0 && pattern[j - 1] == text[s + j - 1]
            invariant
                j <= m,
                s + m <= n,
                n == t.len(),
                m == p.len(),
                t == text@,
                p == pattern@,
                forall|q: int| j <= q < m ==> p[q] == t[s + q],
            decreases j,
        {
            j = j - 1;
        }
        let ghost old_result = result@;
        let shift: usize;
        if j == 0 {
            assert(t.subrange(s as int, s + m) =~= p);
            result.push(s);
            if s + m < n {
                let c = text[s + m];
                proof {
                    lemma_last_occ1(p, c);
                }
                shift = m + 1 - bad[c as usize];
                proof {
                    assert forall|e: int| 0 < e < shift implies !#[trigger] matches_at(t, p, s + e) by {
                        if matches_at(t, p, s + e) {
                            assert(t.subrange(s + e, s + e + m)[m - e] == p[m - e]);
                        }
                    }
                }
            } else {
                shift = 1;
            }
        } else {
            let k = j - 1;
            let c = text[s + k];
            proof {
                lemma_last_occ1(p, c);
            }
            let occ = bad[c as usize];
            shift = if k > occ {
                k + 1 - occ
            } else {
                1
            };
            proof {
                assert(!matches_at(t, p, s as int)) by {
                    if matches_at(t, p, s as int) {
                        assert(t.subrange(s as int, s + m)[k as int] == p[k as int]);
                    }
                }
                assert forall|e: int| 0 < e < shift implies !#[trigger] matches_at(t, p, s + e) by {
                    if matches_at(t, p, s + e) {
                        assert(t.subrange(s + e, s + e + m)[k - e] == p[k - e]);
                    }
                }
            }
        }
        proof {
            assert forall|x: int| 0 <= x < s + shift && #[trigger] matches_at(t, p, x) implies result@.contains(
                x as usize,
            ) by {
                if x < s {
                    let w = choose|w: int| 0 <= w < old_result.len() && old_result[w] == x as usize;
                    assert(result@[w] == x as usize);
                } else if x == s {
                    assert(result@[result@.len() - 1] == s);
                } else {
                    assert(!matches_at(t, p, s + (x - s)));
                }
            }
        }
        if shift > n - s {
            proof {
                assert forall|x: int| #[trigger] matches_at(t, p, x) implies result@.contains(x as usize) by {
                    assert(x + m <= n);
                }
            }
            return result;
        }
        s = s + shift;
    }
    proof {
        assert forall|x: int| #[trigger] matches_at(t, p, x) implies result@.contains(x as usize) by {
            assert(x + m <= n);
        }
    }
    result
}

// ----- Knuth-Morris-Pratt -----

/// `k` is a proper border of the first `len` bytes of `p`: they begin and
/// end with the same `k` bytes.
pub open spec fn is_border(p: Seq<u8>, len: int, k: int) -> bool {
    0 <= k < len <= p.len() && p.take(k) == p.subrange(len - k, len)
}

/// `k` is the longest proper border of the first `len` bytes of `p`.
pub open spec fn is_longest_border(p: Seq<u8>, len: int, k: int) -> bool {
    is_border(p, len, k) && forall|b: int| #[trigger] is_border(p, len, b) ==> b <= k
}

/// The last `j` bytes of `t[..i]` are the first `j` bytes of `p`.
pub open spec fn ends_with_prefix(t: Seq<u8>, i: int, p: Seq<u8>, j: int) -> bool {
    0 <= j <= i <= t.len() && j <= p.len() && t.subrange(i - j, i) == p.take(j)
}

proof fn lemma_border_of_border(p: Seq<u8>, len: int, b: int, k: int)
    requires
        is_border(p, len, b),
        is_border(p, len, k),
        k < b,
    ensures
        is_border(p, b, k),
{
    assert forall|x: int| 0 <= x < k implies p.subrange(b - k, b)[x] == p.take(k)[x] by {
        assert(p.subrange(len - b, len)[b - k + x] == p.take(b)[b - k + x]);
        assert(p.subrange(len - k, len)[x] == p.take(k)[x]);
    }
    assert(p.subrange(b - k, b) =~= p.take(k));
}

proof fn lemma_border_trans(p: Seq<u8>, len: int, b: int, k: int)
    requires
        is_border(p, len, b),
        is_border(p, b, k),
    ensures
        is_border(p, len, k),
{
    assert forall|x: int| 0 <= x < k implies p.subrange(len - k, len)[x] == p.take(k)[x] by {
        assert(p.subrange(len - b, len)[b - k + x] == p.take(b)[b - k + x]);
        assert(p.subrange(b - k, b)[x] == p.take(k)[x]);
    }
    assert(p.subrange(len - k, len) =~= p.take(k));
}

/// A border one longer is a border whose next byte matches.
proof fn lemma_border_extend(p: Seq<u8>, len: int, k: int)
    requires
        0 <= k < len < p.len(),
    ensures
        is_border(p, len + 1, k + 1) <==> (is_border(p, len, k) && p[k] == p[len]),
{
    if is_border(p, len + 1, k + 1) {
        assert(p.subrange(len - k, len) =~= p.take(k)) by {
            assert forall|x: int| 0 <= x < k implies p.subrange(len - k, len)[x] == p.take(k)[x] by {
                assert(p.subrange(len - k, len + 1)[x] == p.take(k + 1)[x]);
            }
        }
        assert(p.subrange(len - k, len + 1)[k] == p.take(k + 1)[k]);
    }
    if is_border(p, len, k) && p[k] == p[len] {
        assert forall|x: int| 0 <= x < k + 1 implies #[trigger] p.subrange(len - k, len + 1)[x]
            == p.take(k + 1)[x] by {
            if x < k {
                assert(p.subrange(len - k, len)[x] == p.take(k)[x]);
            }
        }
        assert(p.subrange(len - k, len + 1) =~= p.take(k + 1));
    }
}

/// For each prefix length `i + 1`, the length of its longest proper border.
fn create_lps(pattern: &[u8]) -> (lps: Vec<usize>)
    ensures
        lps@.len() == pattern@.len(),
        forall|i: int| 0 <= i < lps@.len() ==> is_longest_border(pattern@, i + 1, lps@[i] as int),
{
    let ghost p = pattern@;
    let m = pattern.len();
    let mut lps: Vec<usize> = Vec::new();
    if m == 0 {
        return lps;
    }
    lps.push(0);
    assert(is_longest_border(p, 1, 0)) by {
        assert(p.take(0) =~= p.subrange(1, 1));
    }
    let mut length: usize = 0;
    let mut i: usize = 1;
    assert(p.take(0) =~= p.subrange(1, 1));
    while i < m
        invariant
            p == pattern@,
            m == p.len(),
            1 <= i <= m,
            lps@.len() == i,
            length < i,
            forall|x: int| 0 <= x < i ==> is_longest_border(p, x + 1, #[trigger] lps@[x] as int),
            is_border(p, i as int, length as int),
            forall|k: int| length < k && #[trigger] is_border(p, i as int, k) ==> p[k] != p[i as int],
        decreases m - i, length,
    {
        if pattern[i] == pattern[length] {
            proof {
                lemma_border_extend(p, i as int, length as int);
                assert forall|b: int| #[trigger] is_border(p, i + 1, b) implies b <= length + 1 by {
                    if b > length + 1 {
                        lemma_border_extend(p, i as int, b - 1);
                    }
                }
            }
            length = length + 1;
            lps.push(length);
            i = i + 1;
        } else if length != 0 {
            let shorter = lps[length - 1];
            proof {
                let l = length as int;
                lemma_border_trans(p, i as int, l, shorter as int);
                assert forall|k: int| shorter < k && #[trigger] is_border(p, i as int, k) implies p[k]
                    != p[i as int] by {
                    if k < l {
                        lemma_border_of_border(p, i as int, l, k);
                        assert(is_border(p, l, k));
                    }
                }
            }
            length = shorter;
        } else {
            proof {
                assert forall|b: int| #[trigger] is_border(p, i + 1, b) implies b <= 0 by {
                    if b > 0 {
                        lemma_border_extend(p, i as int, b - 1);
                    }
                }
                assert(p.take(0) =~= p.subrange(i + 1, i + 1));
            }
            lps.push(0);
            i = i + 1;
        }
    }
    lps
}

/// One more matching byte extends a prefix that ends the text so far.
proof fn lemma_prefix_extend(t: Seq<u8>, i: int, p: Seq<u8>, k: int)
    requires
        0 <= k < p.len(),
        0 <= i < t.len(),
    ensures
        ends_with_prefix(t, i + 1, p, k + 1) <==> (ends_with_prefix(t, i, p, k) && p[k] == t[i]),
{
    if ends_with_prefix(t, i + 1, p, k + 1) {
        assert(t.subrange(i - k, i) =~= p.take(k)) by {
            assert forall|x: int| 0 <= x < k implies #[trigger] t.subrange(i - k, i)[x] == p.take(
                k,
            )[x] by {
                assert(t.subrange(i - k, i + 1)[x] == p.take(k + 1)[x]);
            }
        }
        assert(t.subrange(i - k, i + 1)[k] == p.take(k + 1)[k]);
    }
    if ends_with_prefix(t, i, p, k) && p[k] == t[i] {
        assert forall|x: int| 0 <= x < k + 1 implies #[trigger] t.subrange(i - k, i + 1)[x]
            == p.take(k + 1)[x] by {
            if x < k {
                assert(t.subrange(i - k, i)[x] == p.take(k)[x]);
            }
        }
        assert(t.subrange(i - k, i + 1) =~= p.take(k + 1));
    }
}

/// Two prefixes that end the text at the same place: the shorter is a
/// border of the longer.
proof fn lemma_prefixes_border(t: Seq<u8>, i: int, p: Seq<u8>, j: int, k: int)
    requires
        ends_with_prefix(t, i, p, j),
        ends_with_prefix(t, i, p, k),
        k < j,
    ensures
        is_border(p, j, k),
{
    assert forall|x: int| 0 <= x < k implies #[trigger] p.subrange(j - k, j)[x] == p.take(k)[x] by {
        assert(t.subrange(i - j, i)[j - k + x] == p.take(j)[j - k + x]);
        assert(t.subrange(i - k, i)[x] == p.take(k)[x]);
    }
    assert(p.subrange(j - k, j) =~= p.take(k));
}

/// A border of a prefix that ends the text also ends the text.
proof fn lemma_border_ends(t: Seq<u8>, i: int, p: Seq<u8>, j: int, k: int)
    requires
        ends_with_prefix(t, i, p, j),
        is_border(p, j, k),
    ensures
        ends_with_prefix(t, i, p, k),
{
    assert forall|x: int| 0 <= x < k implies #[trigger] t.subrange(i - k, i)[x] == p.take(k)[x] by {
        assert(t.subrange(i - j, i)[j - k + x] == p.take(j)[j - k + x]);
        assert(p.subrange(j - k, j)[x] == p.take(k)[x]);
    }
    assert(t.subrange(i - k, i) =~= p.take(k));
}

proof fn lemma_match_is_full_prefix(t: Seq<u8>, p: Seq<u8>, x: int)
    ensures
        matches_at(t, p, x) <==> (0 <= x && ends_with_prefix(t, x + p.len(), p, p.len() as int)),
{
    assert(p.take(p.len() as int) =~= p);
}

/// Every place where a non-empty `pattern` occurs in `text`, as byte
/// offsets, in increasing order.
pub fn kmp_search(text: &[u8], pattern: &[u8]) -> (r: Vec<usize>)
    requires
        pattern@.len() > 0,
    ensures
        forall|a: int, b: int| 0 <= a < b < r@.len() ==> r@[a] < r@[b],
        forall|k: int| 0 <= k < r@.len() ==> matches_at(text@, pattern@, r@[k] as int),
        forall|s: int| #[trigger] matches_at(text@, pattern@, s) ==> r@.contains(s as usize),
{
    let ghost t = text@;
    let ghost p = pattern@;
    let lps = create_lps(pattern);
    let n = text.len();
    let m = pattern.len();
    let mut result: Vec<usize> = Vec::new();
    let mut i: usize = 0;
    let mut j: usize = 0;
    assert(t.subrange(0, 0) =~= p.take(0));
    while i < n
        invariant
            t == text@,
            p == pattern@,
            n == t.len(),
            m == p.len(),
            m > 0,
            lps@.len() == m,
            forall|x: int| 0 <= x < m ==> is_longest_border(p, x + 1, #[trigger] lps@[x] as int),
            i <= n,
            j < m,
            ends_with_prefix(t, i as int, p, j as int),
            i < n ==> forall|k: int|
                j < k < m && #[trigger] ends_with_prefix(t, i as int, p, k) ==> p[k] != t[i as int],
            forall|a: int, b: int| 0 <= a < b < result@.len() ==> result@[a] < result@[b],
            forall|k: int|
                0 <= k < result@.len() ==> matches_at(t, p, result@[k] as int) && result@[k] + m
                    <= i,
            forall|x: int| 0 <= x && x + m <= i && #[trigger] matches_at(t, p, x) ==> result@.contains(
                x as usize,
            ),
        decreases n - i, j,
    {
        let ghost ii = i as int;
        let ghost jj = j as int;
        if text[i] == pattern[j] {
            proof {
                lemma_prefix_extend(t, ii, p, jj);
                assert forall|kk: int| jj + 1 < kk <= m && #[trigger] ends_with_prefix(t, ii + 1, p, kk)
                    implies false by {
                    lemma_prefix_extend(t, ii, p, kk - 1);
                }
            }
            i = i + 1;
            j = j + 1;
            if j == m {
                let ghost old_result = result@;
                proof {
                    lemma_match_is_full_prefix(t, p, ii + 1 - m);
                }
                result.push(i - j);
                let shorter = lps[j - 1];
                proof {
                    lemma_border_ends(t, ii + 1, p, m as int, shorter as int);
                    assert forall|k: int| shorter < k < m && #[trigger] ends_with_prefix(t, ii + 1, p, k)
                        implies false by {
                        lemma_prefixes_border(t, ii + 1, p, m as int, k);
                    }
                    assert forall|x: int| 0 <= x && x + m <= ii + 1 && #[trigger] matches_at(t, p, x)
                        implies result@.contains(x as usize) by {
                        if x + m <= ii {
                            let w = choose|w: int|
                                0 <= w < old_result.len() && old_result[w] == x as usize;
                            assert(result@[w] == x as usize);
                        } else {
                            assert(result@[result@.len() - 1] == x as usize);
                        }
                    }
                }
                j = shorter;
            } else {
                proof {
                    assert forall|x: int| 0 <= x && x + m <= ii + 1 && #[trigger] matches_at(t, p, x)
                        implies result@.contains(x as usize) by {
                        if x + m == ii + 1 {
                            lemma_match_is_full_prefix(t, p, x);
                        }
                    }
                }
            }
        } else if j != 0 {
            let shorter = lps[j - 1];
            proof {
                lemma_border_ends(t, ii, p, jj, shorter as int);
                assert forall|k: int| shorter < k < m && #[trigger] ends_with_prefix(t, ii, p, k)
                    implies p[k] != t[ii] by {
                    if k < jj {
                        lemma_prefixes_border(t, ii, p, jj, k);
                    }
                }
            }
            j = shorter;
        } else {
            proof {
                assert forall|kk: int| 0 < kk <= m && #[trigger] ends_with_prefix(t, ii + 1, p, kk)
                    implies false by {
                    lemma_prefix_extend(t, ii, p, kk - 1);
                }
                assert(t.subrange(ii + 1, ii + 1) =~= p.take(0));
                assert forall|x: int| 0 <= x && x + m <= ii + 1 && #[trigger] matches_at(t, p, x)
                    implies result@.contains(x as usize) by {
                    if x + m == ii + 1 {
                        lemma_match_is_full_prefix(t, p, x);
                    }
                }
            }
            i = i + 1;
        }
    }
    proof {
        assert forall|x: int| #[trigger] matches_at(t, p, x) implies result@.contains(x as usize) by {
        }
    }
    result
}

} // verus!

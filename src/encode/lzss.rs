//! The LZSS pass: a sliding dictionary over the input, three ways to find a
//! back-reference in it, and the token stream with its bit-width histograms.
use vstd::arithmetic::power2::pow2;
use vstd::prelude::*;
use vstd::slice::slice_subrange;

use slice_deque::SliceDeque;

use crate::decode::copy_back;
use crate::encode::{
    bit_width, count_needed_bits, lemma_bit_width_le, two_sample_of, LzssBackend, TwoSample,
};
use crate::errors::VpkError;
use crate::format::VpkMethod;

verus! {

/// The three LZSS parameters: window and maximum match as bit counts, and
/// the longest run left uncoded.
///
/// The defaults (16, 8, 2) give a 65535-byte window, matches of at most 255
/// bytes and of at least 3.
#[derive(Debug, Clone, Copy, PartialEq, Eq, Structural)]
pub struct LzssSettings {
    /// Number of bits for an offset (the window size).
    pub offset_bits: usize,
    /// Number of bits for a length (the longest match).
    pub length_bits: usize,
    /// The longest match that is still written as literals.
    pub max_uncoded: usize,
}

impl LzssSettings {
    /// Settings whose offsets and lengths fit the 32-bit values of the
    /// format, with room for at least one byte ahead.
    pub open spec fn wf(self) -> bool {
        &&& self.offset_bits <= 32
        &&& 1 <= self.length_bits <= 32
    }

    pub open spec fn spec_window_size(self) -> nat {
        (pow2(self.offset_bits as nat) - 1) as nat
    }

    pub open spec fn spec_max_encoded(self) -> nat {
        (pow2(self.length_bits as nat) - 1) as nat
    }

    pub fn new(offset_bits: usize, size_bits: usize, max_uncoded: usize) -> (r: Self)
        ensures
            r == (LzssSettings { offset_bits, length_bits: size_bits, max_uncoded }),
    {
        LzssSettings { offset_bits, length_bits: size_bits, max_uncoded }
    }

    /// Settings from byte counts; window and maximum match are taken as the
    /// number of bits needed to write them.
    pub fn byte_sized(dictionary: usize, max_match: usize, min_match: usize) -> (r: Self)
        ensures
            r.offset_bits == bit_width(dictionary as nat),
            r.length_bits == bit_width(max_match as nat),
            r.max_uncoded == min_match,
    {
        let offset_bits = count_needed_bits(dictionary) as usize;
        let size_bits = count_needed_bits(max_match) as usize;
        LzssSettings { offset_bits, length_bits: size_bits, max_uncoded: min_match }
    }

    /// Whether offsets and lengths fit the format's 32-bit values.
    pub fn is_valid(&self) -> (r: bool)
        ensures
            r == self.wf(),
    {
        self.offset_bits <= 32 && 1 <= self.length_bits && self.length_bits <= 32
    }

    /// The largest offset: `2^offset_bits - 1`.
    pub fn window_size(&self) -> (r: usize)
        requires
            self.wf(),
        ensures
            r == self.spec_window_size(),
            r < 0x1_0000_0000,
    {
        pow2_minus_one(self.offset_bits as u32) as usize
    }

    /// The longest match: `2^length_bits - 1`.
    pub fn max_encoded(&self) -> (r: usize)
        requires
            self.wf(),
        ensures
            r == self.spec_max_encoded(),
            1 <= r < 0x1_0000_0000,
    {
        proof {
            vstd::arithmetic::power2::lemma2_to64();
            if self.length_bits > 1 {
                vstd::arithmetic::power2::lemma_pow2_strictly_increases(1, self.length_bits as nat);
            }
        }
        pow2_minus_one(self.length_bits as u32) as usize
    }
}

impl Default for LzssSettings {
    fn default() -> (r: Self)
        ensures
            r == (LzssSettings { offset_bits: 16, length_bits: 8, max_uncoded: 2 }),
    {
        LzssSettings { offset_bits: 16, length_bits: 8, max_uncoded: 2 }
    }
}

fn pow2_minus_one(k: u32) -> (r: u64)
    requires
        k <= 32,
    ensures
        r == pow2(k as nat) - 1,
        r < 0x1_0000_0000,
{
    let mut p: u64 = 1;
    let mut i: u32 = 0;
    proof {
        vstd::arithmetic::power2::lemma2_to64();
    }
    while i < k
        invariant
            i <= k <= 32,
            p == pow2(i as nat),
        decreases k - i,
    {
        proof {
            vstd::arithmetic::power2::lemma_pow2_unfold((i + 1) as nat);
            vstd::arithmetic::power2::lemma2_to64();
            if i + 1 < 32 {
                vstd::arithmetic::power2::lemma_pow2_strictly_increases((i + 1) as nat, 32);
            }
        }
        p = p * 2;
        i = i + 1;
    }
    proof {
        vstd::arithmetic::power2::lemma2_to64();
        if k < 32 {
            vstd::arithmetic::power2::lemma_pow2_strictly_increases(k as nat, 32);
        }
        vstd::arithmetic::power2::lemma_pow2_pos(k as nat);
    }
    p - 1
}

/// A back-reference: copy `size` bytes from `moveback` bytes back.
#[derive(Debug, Clone, Copy, PartialEq, Eq, Structural)]
pub struct MoveBack {
    pub size: usize,
    pub moveback: usize,
}

impl MoveBack {
    pub fn new(size: usize, moveback: usize) -> (r: Self)
        ensures
            r == (MoveBack { size, moveback }),
    {
        MoveBack { size, moveback }
    }
}

/// The number of equal leading bytes of `buf[i..i + n]` and `buf[j..j + n]`.
pub open spec fn lcp(buf: Seq<u8>, i: int, j: int, n: nat) -> nat
    decreases n,
{
    if n == 0 {
        0
    } else if buf[i] == buf[j] {
        1 + lcp(buf, i + 1, j + 1, (n - 1) as nat)
    } else {
        0
    }
}

/// The length of the match that starts at `i` in the window, against the
/// bytes from `split` to `end`, at most `cap`.
pub open spec fn capped_len(buf: Seq<u8>, i: int, split: int, end: int, cap: nat) -> nat {
    let l = lcp(buf, i, split, (end - split) as nat);
    if l < cap {
        l
    } else {
        cap
    }
}

/// `m` copies bytes of the window (from `start` up to `split`) that equal
/// the bytes from `split` on, without running past `end`.
pub open spec fn is_match(buf: Seq<u8>, start: int, split: int, end: int, m: MoveBack) -> bool {
    &&& 1 <= m.moveback <= split - start
    &&& split + m.size <= end
    &&& forall|t: int| 0 <= t < m.size ==> buf[split - m.moveback + t] == #[trigger] buf[split + t]
}

/// Leading bytes known to be equal count toward the equal leading bytes.
pub proof fn lemma_lcp_split(buf: Seq<u8>, i: int, j: int, n: nat, k: nat)
    requires
        k <= n,
        forall|t: int| 0 <= t < k ==> buf[i + t] == #[trigger] buf[j + t],
    ensures
        lcp(buf, i, j, n) == k + lcp(buf, i + k, j + k, (n - k) as nat),
    decreases k,
{
    if k > 0 {
        assert(buf[i + 0] == buf[j + 0]);
        assert forall|t: int| 0 <= t < k - 1 implies buf[(i + 1) + t] == #[trigger] buf[(j + 1) + t] by {
            assert(buf[i + (t + 1)] == buf[j + (t + 1)]);
        }
        lemma_lcp_split(buf, i + 1, j + 1, (n - 1) as nat, (k - 1) as nat);
    }
}

/// Equal leading bytes are equal.
pub proof fn lemma_lcp_equal(buf: Seq<u8>, i: int, j: int, n: nat)
    requires
        0 <= i,
        0 <= j,
        i + n <= buf.len(),
        j + n <= buf.len(),
    ensures
        lcp(buf, i, j, n) <= n,
        forall|t: int| 0 <= t < lcp(buf, i, j, n) ==> buf[i + t] == #[trigger] buf[j + t],
    decreases n,
{
    if n > 0 && buf[i] == buf[j] {
        lemma_lcp_equal(buf, i + 1, j + 1, (n - 1) as nat);
        assert forall|t: int| 0 <= t < lcp(buf, i, j, n) implies buf[i + t] == #[trigger] buf[j + t] by {
            if t > 0 {
                assert(buf[(i + 1) + (t - 1)] == buf[(j + 1) + (t - 1)]);
            }
        }
    }
}

/// Counts the equal leading bytes of `buf[i..]` and `buf[j..j + n]`, up to `cap`.
fn common_prefix(buf: &[u8], i: usize, j: usize, n: usize, cap: usize) -> (r: usize)
    requires
        i + n <= buf@.len(),
        j + n <= buf@.len(),
    ensures
        r == (if lcp(buf@, i as int, j as int, n as nat) < cap {
            lcp(buf@, i as int, j as int, n as nat)
        } else {
            cap as nat
        }),
{
    let mut k: usize = 0;
    let len = buf.len();
    while k < n && k < cap && buf[i + k] == buf[j + k]
        invariant
            len == buf@.len(),
            k <= n,
            k <= cap,
            i + n <= buf@.len(),
            j + n <= buf@.len(),
            lcp(buf@, i as int, j as int, n as nat) == k + lcp(
                buf@,
                i + k,
                j + k,
                (n - k) as nat,
            ),
        decreases n - k,
    {
        k = k + 1;
    }
    k
}

/// Searches every start in the window for the longest match against the
/// bytes ahead, preferring the closest among equally long ones.
#[verifier::rlimit(100)]
pub fn brute_find_match(buf: &[u8], start: usize, split: usize, end: usize, settings: &LzssSettings) -> (r:
    Option<MoveBack>)
    requires
        start <= split <= end <= buf@.len(),
        settings.wf(),
    ensures
        r is None <==> forall|i: int|
            start <= i < split ==> capped_len(
                buf@,
                i,
                split as int,
                end as int,
                settings.spec_max_encoded(),
            ) <= settings.max_uncoded,
        r matches Some(m) ==> {
            let at = split - m.moveback;
            &&& start <= at < split
            &&& m.size == capped_len(buf@, at, split as int, end as int, settings.spec_max_encoded())
            &&& m.size > settings.max_uncoded
            &&& forall|i: int|
                start <= i < split ==> #[trigger] capped_len(
                    buf@,
                    i,
                    split as int,
                    end as int,
                    settings.spec_max_encoded(),
                ) <= m.size && (capped_len(
                    buf@,
                    i,
                    split as int,
                    end as int,
                    settings.spec_max_encoded(),
                ) == m.size ==> i <= at)
        },
        r matches Some(m) ==> is_match(buf@, start as int, split as int, end as int, m),
{
    let ghost cap = settings.spec_max_encoded();
    let window_size = split - start;
    let longest_match = settings.max_encoded();
    let mut best: Option<MoveBack> = None;
    let mut i: usize = 0;
    while i < window_size
        invariant
            start <= split <= end <= buf@.len(),
            window_size == split - start,
            i <= window_size,
            longest_match == cap,
            best is None <==> forall|k: int|
                start <= k < start + i ==> capped_len(buf@, k, split as int, end as int, cap)
                    <= settings.max_uncoded,
            best matches Some(m) ==> {
                let at = split - m.moveback;
                &&& start <= at < start + i
                &&& m.size == capped_len(buf@, at, split as int, end as int, cap)
                &&& m.size > settings.max_uncoded
                &&& forall|k: int|
                    start <= k < start + i ==> #[trigger] capped_len(
                        buf@,
                        k,
                        split as int,
                        end as int,
                        cap,
                    ) <= m.size && (capped_len(buf@, k, split as int, end as int, cap) == m.size
                        ==> k <= at)
            },
        decreases window_size - i,
    {
        let length = common_prefix(buf, start + i, split, end - split, longest_match);
        assert(length == capped_len(buf@, start + i, split as int, end as int, cap));
        if length > settings.max_uncoded {
            let cur = MoveBack::new(length, window_size - i);
            best = match best {
                Some(b) => {
                    if b.size > cur.size {
                        Some(b)
                    } else {
                        Some(cur)
                    }
                },
                None => Some(cur),
            };
        }
        i = i + 1;
    }
    proof {
        if let Some(m) = best {
            let at = split - m.moveback;
            lemma_lcp_equal(buf@, at, split as int, (end - split) as nat);
            assert forall|t: int| 0 <= t < m.size implies buf@[split - m.moveback + t]
                == #[trigger] buf@[split + t] by {
                assert(buf@[at + t] == buf@[split + t]);
            }
        }
    }
    best
}

/// Whether the first `b` bytes of `p` equal the `b` bytes that end at `k`,
/// with `b` at most `k`: a proper prefix of `p[..=k]` that is also its suffix.
pub open spec fn is_border(p: Seq<u8>, k: int, b: nat) -> bool {
    &&& b <= k
    &&& forall|t: int| 0 <= t < b ==> #[trigger] p[t] == p[k + 1 - b + t]
}

/// The Knuth-Morris-Pratt table of `buf[from..to]`: entry `k` is the longest
/// border of the first `k + 1` bytes, found by falling back through shorter
/// ones.
#[verifier::rlimit(100)]
pub fn compute_lps(buf: &[u8], from: usize, to: usize) -> (r: Vec<usize>)
    requires
        from <= to <= buf@.len(),
    ensures
        r@.len() == to - from,
        forall|k: int|
            0 <= k < r@.len() ==> is_border(buf@.subrange(from as int, to as int), k, #[trigger] r@[k] as nat),
        forall|k: int, b: nat|
            0 <= k < r@.len() && #[trigger] is_border(buf@.subrange(from as int, to as int), k, b) ==> b
                <= r@[k],
{
    let ghost p = buf@.subrange(from as int, to as int);
    let n = to - from;
    let mut lps: Vec<usize> = Vec::new();
    let mut z: usize = 0;
    while z < n
        invariant
            z <= n,
            lps@.len() == z,
            forall|k: int| 0 <= k < z ==> lps@[k] == 0,
        decreases n - z,
    {
        lps.push(0);
        z = z + 1;
    }
    if n == 0 {
        return lps;
    }
    proof {
        assert forall|b: nat| #[trigger] is_border(p, 0, b) implies b <= 0 by {}
    }
    let mut prefix_idx: usize = 0;
    let mut i: usize = 1;
    while i < n
        invariant
            from <= to <= buf@.len(),
            n == to - from,
            p == buf@.subrange(from as int, to as int),
            1 <= i <= n,
            lps@.len() == n,
            prefix_idx < i,
            // `prefix_idx` bytes at the front equal the ones ending before `i`
            forall|t: int| 0 <= t < prefix_idx ==> #[trigger] p[t] == p[i - prefix_idx + t],
            forall|k: int| 0 <= k < lps@.len() ==> is_border(p, k, #[trigger] lps@[k] as nat),
            forall|k: int, b: nat| 0 <= k < i && #[trigger] is_border(p, k, b) ==> b <= lps@[k],
            forall|b: nat| #[trigger] is_border(p, i - 1, b) ==> b <= prefix_idx,
            forall|k: int| i <= k < n ==> #[trigger] lps@[k] == 0,
        decreases n - i,
    {
        let ch = buf[from + i];
        while prefix_idx > 0 && ch != buf[from + prefix_idx]
            invariant
                from <= to <= buf@.len(),
                n == to - from,
                p == buf@.subrange(from as int, to as int),
                1 <= i < n,
                lps@.len() == n,
                prefix_idx < i,
                ch == p[i as int],
                forall|t: int| 0 <= t < prefix_idx ==> #[trigger] p[t] == p[i - prefix_idx + t],
                forall|k: int| 0 <= k < lps@.len() ==> is_border(p, k, #[trigger] lps@[k] as nat),
                forall|k: int, b: nat| 0 <= k < i && #[trigger] is_border(p, k, b) ==> b <= lps@[k],
                forall|b: nat| #[trigger] is_border(p, i - 1, b) && b > prefix_idx ==> p[b as int] != ch,
                forall|k: int| i <= k < n ==> #[trigger] lps@[k] == 0,
            decreases prefix_idx,
        {
            let ghost old_idx = prefix_idx as int;
            let next = lps[prefix_idx - 1];
            proof {
                assert(is_border(p, old_idx - 1, next as nat));
                assert forall|t: int| 0 <= t < next implies #[trigger] p[t] == p[i - next + t] by {
                    assert(p[t] == p[old_idx - next + t]);
                    assert(p[old_idx - next + t] == p[i - old_idx + (old_idx - next + t)]);
                }
                assert forall|b: nat| #[trigger] is_border(p, i - 1, b) && b > next implies p[b as int] != ch by {
                    if b < old_idx {
                        assert forall|t: int| 0 <= t < b implies #[trigger] p[t] == p[old_idx - 1 + 1 - b + t] by {
                            assert(p[t] == p[i - 1 + 1 - b + t]);
                            assert(p[old_idx - b + t] == p[i - old_idx + (old_idx - b + t)]);
                        }
                        assert(is_border(p, old_idx - 1, b));
                    }
                }
            }
            prefix_idx = next;
        }
        let ghost found = prefix_idx as int;
        proof {
            // a border of the first `i + 1` bytes is one of the first `i`
            // bytes that the byte at `i` extends
            assert forall|b: nat| #[trigger] is_border(p, i as int, b) && b >= 1 implies is_border(p, i - 1, (b - 1) as nat)
                && p[b - 1] == ch by {
                assert forall|t: int| 0 <= t < b - 1 implies #[trigger] p[t] == p[i - 1 + 1 - (b - 1) + t] by {
                    assert(p[t] == p[i + 1 - b + t]);
                }
                assert(p[b - 1] == p[i + 1 - b + (b - 1)]);
            }
        }
        if buf[from + prefix_idx] == ch {
            let ghost old_idx = prefix_idx as int;
            prefix_idx = prefix_idx + 1;
            lps.set(i, prefix_idx);
            proof {
                assert forall|t: int| 0 <= t < prefix_idx implies #[trigger] p[t] == p[i + 1 - prefix_idx + t] by {
                    if t < old_idx {
                        assert(p[t] == p[i - old_idx + t]);
                    }
                }
                assert(is_border(p, i as int, prefix_idx as nat));
                assert forall|b: nat| #[trigger] is_border(p, i as int, b) implies b <= prefix_idx by {
                    if b >= 1 {
                        assert(is_border(p, i - 1, (b - 1) as nat));
                    }
                }
            }
        } else {
            proof {
                assert(prefix_idx == 0);
                assert forall|b: nat| #[trigger] is_border(p, i as int, b) implies b <= 0 by {
                    if b >= 1 {
                        assert(is_border(p, i - 1, (b - 1) as nat));
                    }
                }
            }
        }
        proof {
            assert forall|k: int| 0 <= k < lps@.len() implies is_border(p, k, #[trigger] lps@[k] as nat) by {}
            assert forall|k: int, b: nat| 0 <= k < i + 1 && #[trigger] is_border(p, k, b) implies b <= lps@[k] by {
                if k == i {
                    assert(lps@[k] == prefix_idx);
                }
            }
        }
        i = i + 1;
    }
    lps
}

/// The index of the last zero of `s`, or 0 when it holds none.
pub open spec fn last_zero(s: Seq<usize>) -> int
    decreases s.len(),
{
    if s.len() == 0 {
        0
    } else if s.last() == 0 {
        s.len() - 1
    } else {
        last_zero(s.drop_last())
    }
}

/// The index of the last zero in `limited`, or 0 when it holds none.
pub fn lps_partial_skip(limited: &[usize]) -> (r: usize)
    ensures
        r == last_zero(limited@),
        (exists|i: int| 0 <= i < limited@.len() && limited@[i] == 0) ==> {
            &&& r < limited@.len()
            &&& limited@[r as int] == 0
            &&& forall|i: int| r < i < limited@.len() ==> limited@[i] != 0
        },
        !(exists|i: int| 0 <= i < limited@.len() && limited@[i] == 0) ==> r == 0,
{
    let mut i = limited.len();
    assert(limited@.subrange(0, i as int) =~= limited@);
    while i > 0
        invariant
            i <= limited@.len(),
            forall|k: int| i <= k < limited@.len() ==> limited@[k] != 0,
            last_zero(limited@) == last_zero(limited@.subrange(0, i as int)),
        decreases i,
    {
        let ghost sub = limited@.subrange(0, i as int);
        if limited[i - 1] == 0 {
            assert(sub.last() == 0);
            return i - 1;
        }
        assert(sub.drop_last() =~= limited@.subrange(0, i - 1));
        i = i - 1;
    }
    0
}

/// The Knuth-Morris-Pratt table of `p`: each entry the longest border.
pub open spec fn is_lps_table(p: Seq<u8>, t: Seq<usize>) -> bool {
    &&& t.len() == p.len()
    &&& forall|k: int| 0 <= k < t.len() ==> is_border(p, k, #[trigger] t[k] as nat)
    &&& forall|k: int, b: nat| 0 <= k < t.len() && #[trigger] is_border(p, k, b) ==> b <= t[k]
}

/// There is one Knuth-Morris-Pratt table at most.
pub proof fn lemma_lps_unique(p: Seq<u8>, t1: Seq<usize>, t2: Seq<usize>)
    requires
        is_lps_table(p, t1),
        is_lps_table(p, t2),
    ensures
        t1 == t2,
{
    assert forall|k: int| 0 <= k < t1.len() implies t1[k] == t2[k] by {
        assert(is_border(p, k, t1[k] as nat));
        assert(is_border(p, k, t2[k] as nat));
    }
    assert(t1 =~= t2);
}

/// The Knuth-Morris-Pratt search from target index `target` and pattern
/// index `pat`, with table `t` and the best match so far: at each step the
/// match at `target - pat` is measured (capped at `max`) and kept when no
/// shorter than the best; then the search moves on, with `check_rl` to one
/// past the last zero of the table before the match's end, else by the KMP
/// rule.
pub open spec fn kmp_run(
    buf: Seq<u8>,
    start: int,
    split: int,
    end: int,
    max: nat,
    check_rl: bool,
    t: Seq<usize>,
    target: int,
    pat: int,
    best: Option<MoveBack>,
) -> Option<MoveBack>
    decreases (split - start) + (end - split) - target, pat,
{
    let ws = split - start;
    let ps = end - split;
    if !(0 <= pat < ps && target < ws && pat <= target && pat <= max && 0 <= target) {
        best
    } else {
        let s = target - pat;
        let ms = capped_len(buf, start + s, split, end, max) as int;
        let best2 = match best {
            Some(b) => {
                if b.size > ms {
                    best
                } else {
                    Some(MoveBack { size: ms as usize, moveback: (ws - s) as usize })
                }
            },
            None => Some(MoveBack { size: ms as usize, moveback: (ws - s) as usize }),
        };
        let lps_idx = if ms > 0 {
            ms - 1
        } else {
            0
        };
        if check_rl {
            let nt = target + last_zero(t.subrange(0, lps_idx)) + 1;
            if target < nt <= ws + ps {
                kmp_run(buf, start, split, end, max, check_rl, t, nt, 0, best2)
            } else {
                best2
            }
        } else {
            let adv = if pat == 0 {
                if ms > 1 {
                    ms
                } else {
                    1
                }
            } else {
                ms - pat
            };
            let next = if lps_idx < t.len() {
                t[lps_idx] as int
            } else {
                0
            };
            let nt = target + adv;
            if target <= nt <= ws + ps && (target < nt || (0 <= next < pat)) {
                kmp_run(buf, start, split, end, max, check_rl, t, nt, next, best2)
            } else {
                best2
            }
        }
    }
}

/// Extends a match whose first `pat_idx` bytes are known to agree: the bytes
/// newly matched and the whole match, capped at `max`.
fn kmp_extend(buf: &[u8], start: usize, split: usize, end: usize, target_idx: usize, pat_idx: usize, max: usize) -> (r: (usize, usize))
    requires
        start <= split <= end <= buf@.len(),
        pat_idx <= target_idx < split - start,
        pat_idx < end - split,
        pat_idx <= max,
        forall|t: int|
            0 <= t < pat_idx ==> buf@[start + target_idx - pat_idx + t] == #[trigger] buf@[split
                + t],
    ensures
        r.1 == r.0 + pat_idx,
        r.1 <= max,
        r.1 <= end - split,
        r.1 == capped_len(buf@, start + target_idx - pat_idx, split as int, end as int, max as nat),
        forall|t: int|
            0 <= t < r.1 ==> buf@[start + target_idx - pat_idx + t] == #[trigger] buf@[split + t],
{
    let pattern_size = end - split;
    let s = target_idx - pat_idx;
    let newly_matched = common_prefix(buf, start + target_idx, split + pat_idx, pattern_size - pat_idx, max - pat_idx);
    proof {
        lemma_lcp_equal(buf@, (start + target_idx) as int, (split + pat_idx) as int, (pattern_size - pat_idx) as nat);
    }
    let match_size = newly_matched + pat_idx;
    proof {
        lemma_lcp_split(buf@, (start + s) as int, split as int, pattern_size as nat, pat_idx as nat);
        assert forall|t: int| 0 <= t < match_size implies buf@[start + s + t] == #[trigger] buf@[split + t] by {
            if t >= pat_idx {
                assert(buf@[(start + target_idx) + (t - pat_idx)] == buf@[(split + pat_idx) + (t - pat_idx)]);
            }
        }
    }
    (newly_matched, match_size)
}

/// Knuth-Morris-Pratt search for the bytes ahead (from `split` to `end`)
/// in the window (from `start` to `split`), keeping the longest match seen
/// and the closest among equally long ones. With `check_rl` the search,
/// after each attempt, moves only to the last zero of the border table so
/// that no partial match inside a run is skipped.
#[verifier::rlimit(100)]
pub fn find_kmp(buf: &[u8], start: usize, split: usize, end: usize, max: usize, check_rl: bool) -> (r:
    Option<MoveBack>)
    requires
        start <= split <= end <= buf@.len(),
    ensures
        r matches Some(m) ==> is_match(buf@, start as int, split as int, end as int, m) && m.size
            <= max,
        r matches Some(m) ==> m.size == capped_len(buf@, split - m.moveback, split as int, end as int, max as nat),
        start < split && split < end ==> (r matches Some(m) && m.size >= capped_len(
            buf@,
            start as int,
            split as int,
            end as int,
            max as nat,
        )),
        r == kmp_result(buf@, start as int, split as int, end as int, max as nat, check_rl),
        forall|t: Seq<usize>|
            #[trigger] is_lps_table(buf@.subrange(split as int, end as int), t) ==> r == kmp_run(
                buf@,
                start as int,
                split as int,
                end as int,
                max as nat,
                check_rl,
                t,
                0,
                0,
                None,
            ),
{
    let lps = compute_lps(buf, split, end);
    let ghost goal = kmp_run(buf@, start as int, split as int, end as int, max as nat, check_rl, lps@, 0, 0, None);
    let ghost p = buf@.subrange(split as int, end as int);
    let window_size = split - start;
    let pattern_size = end - split;
    let mut best: Option<MoveBack> = None;
    let mut target_idx: usize = 0;
    let mut pat_idx: usize = 0;
    while pat_idx < pattern_size && target_idx < window_size
        invariant
            start <= split <= end <= buf@.len(),
            window_size == split - start,
            pattern_size == end - split,
            lps@.len() == pattern_size,
            p == buf@.subrange(split as int, end as int),
            forall|k: int| 0 <= k < lps@.len() ==> is_border(p, k, #[trigger] lps@[k] as nat),
            pat_idx <= target_idx <= window_size + pattern_size,
            pat_idx <= max,
            pat_idx <= pattern_size,
            forall|t: int|
                0 <= t < pat_idx ==> buf@[start + target_idx - pat_idx + t] == #[trigger] buf@[split
                    + t],
            best matches Some(m) ==> is_match(buf@, start as int, split as int, end as int, m)
                && m.size <= max,
            best matches Some(m) ==> m.size == capped_len(buf@, split - m.moveback, split as int, end as int, max as nat),
            target_idx > 0 ==> (best matches Some(m) && m.size >= capped_len(
                buf@,
                start as int,
                split as int,
                end as int,
                max as nat,
            )),
            target_idx == 0 ==> pat_idx == 0,
            forall|k: int, b: nat| 0 <= k < lps@.len() && #[trigger] is_border(p, k, b) ==> b <= lps@[k],
            goal == kmp_run(buf@, start as int, split as int, end as int, max as nat, check_rl, lps@, target_idx as int, pat_idx as int, best),
        decreases window_size + pattern_size - target_idx, pat_idx,
    {
        let s = target_idx - pat_idx;
        let (newly_matched, match_size) = kmp_extend(buf, start, split, end, target_idx, pat_idx, max);
        let keep = match best {
            Some(b) => b.size > match_size,
            None => false,
        };
        if !keep {
            best = Some(MoveBack::new(match_size, window_size - s));
        }
        let lps_idx = if match_size > 0 { match_size - 1 } else { 0 };
        if check_rl {
            let nearest_miss = lps_partial_skip(slice_subrange(lps.as_slice(), 0, lps_idx));
            target_idx = target_idx + nearest_miss + 1;
            pat_idx = 0;
        } else {
            let advance = if pat_idx == 0 {
                if match_size > 1 { match_size } else { 1 }
            } else {
                newly_matched
            };
            let ghost old_target = target_idx;
            target_idx = target_idx + advance;
            let next = if lps_idx < lps.len() { lps[lps_idx] } else { 0 };
            proof {
                if match_size > 0 {
                    assert(is_border(p, lps_idx as int, next as nat));
                    assert(target_idx == s + match_size);
                    assert forall|t: int| 0 <= t < next implies buf@[start + target_idx - next + t] == #[trigger] buf@[split + t] by {
                        let u = match_size - next + t;
                        assert(buf@[start + s + u] == buf@[split + u]);
                        assert(p[t] == p[lps_idx + 1 - next + t]);
                    }
                }
            }
            pat_idx = next;
        }
    }
    proof {
        assert(is_lps_table(p, lps@));
        assert forall|t: Seq<usize>| #[trigger] is_lps_table(p, t) implies best == kmp_run(
            buf@,
            start as int,
            split as int,
            end as int,
            max as nat,
            check_rl,
            t,
            0,
            0,
            None,
        ) by {
            lemma_lps_unique(p, lps@, t);
        }
        assert(is_lps_table(p, lps_table(p)));
    }
    best
}

/// The Knuth-Morris-Pratt table of `p`.
pub open spec fn lps_table(p: Seq<u8>) -> Seq<usize> {
    choose|t: Seq<usize>| is_lps_table(p, t)
}

/// What the Knuth-Morris-Pratt search returns.
pub open spec fn kmp_result(buf: Seq<u8>, start: int, split: int, end: int, max: nat, check_rl: bool) -> Option<MoveBack> {
    kmp_run(buf, start, split, end, max, check_rl, lps_table(buf.subrange(split, end)), 0, 0, None)
}

/// What the search of `backend` returns.
pub open spec fn find_result(
    backend: LzssBackend,
    buf: Seq<u8>,
    start: int,
    split: int,
    end: int,
    settings: LzssSettings,
) -> Option<MoveBack> {
    match backend {
        LzssBackend::Brute => brute_result(buf, start, split, end, settings),
        LzssBackend::Kmp => kmp_result(buf, start, split, end, settings.spec_max_encoded(), false),
        LzssBackend::KmpAhead => kmp_result(buf, start, split, end, settings.spec_max_encoded(), true),
    }
}

/// Runs the search that `backend` names.
pub fn find_match(backend: LzssBackend, buf: &[u8], start: usize, split: usize, end: usize, settings: &LzssSettings) -> (r:
    Option<MoveBack>)
    requires
        start <= split <= end <= buf@.len(),
        settings.wf(),
    ensures
        r matches Some(m) ==> is_match(buf@, start as int, split as int, end as int, m) && m.size
            <= settings.spec_max_encoded(),
        r == find_result(backend, buf@, start as int, split as int, end as int, *settings),
        backend != LzssBackend::Brute ==> (r matches Some(m) ==> m.size == capped_len(
            buf@,
            split - m.moveback,
            split as int,
            end as int,
            settings.spec_max_encoded(),
        )),
        backend != LzssBackend::Brute && start < split && split < end ==> (r matches Some(m) && m.size
            >= capped_len(buf@, start as int, split as int, end as int, settings.spec_max_encoded())),
{
    match backend {
        LzssBackend::Brute => {
            let r = brute_find_match(buf, start, split, end, settings);
            proof {
                lemma_brute_result(buf@, start as int, split as int, end as int, *settings, r);
            }
            r
        },
        LzssBackend::Kmp => find_kmp(buf, start, split, end, settings.max_encoded(), false),
        LzssBackend::KmpAhead => find_kmp(buf, start, split, end, settings.max_encoded(), true),
    }
}

/// Whether the match at `at` is longer than `max_uncoded`, as long as any
/// other, and the last of the longest.
pub open spec fn is_best(buf: Seq<u8>, start: int, split: int, end: int, settings: LzssSettings, at: int) -> bool {
    let cap = settings.spec_max_encoded();
    &&& start <= at < split
    &&& capped_len(buf, at, split, end, cap) > settings.max_uncoded
    &&& forall|i: int|
        start <= i < split ==> #[trigger] capped_len(buf, i, split, end, cap) <= capped_len(
            buf,
            at,
            split,
            end,
            cap,
        ) && (capped_len(buf, i, split, end, cap) == capped_len(buf, at, split, end, cap) ==> i <= at)
}

/// The match that the brute-force search picks: the longest, then the
/// closest, of those longer than `max_uncoded`.
#[verifier::opaque]
pub open spec fn brute_result(buf: Seq<u8>, start: int, split: int, end: int, settings: LzssSettings) -> Option<MoveBack> {
    let cap = settings.spec_max_encoded();
    if forall|i: int| start <= i < split ==> #[trigger] capped_len(buf, i, split, end, cap) <= settings.max_uncoded {
        None
    } else {
        let at = choose|at: int| #[trigger] is_best(buf, start, split, end, settings, at);
        Some(MoveBack { size: capped_len(buf, at, split, end, cap) as usize, moveback: (split - at) as usize })
    }
}

/// There is one best start at most.
proof fn lemma_best_unique(buf: Seq<u8>, start: int, split: int, end: int, settings: LzssSettings, x: int, y: int)
    requires
        is_best(buf, start, split, end, settings, x),
        is_best(buf, start, split, end, settings, y),
    ensures
        x == y,
{
    let cap = settings.spec_max_encoded();
    assert(capped_len(buf, x, split, end, cap) <= capped_len(buf, y, split, end, cap));
    assert(capped_len(buf, y, split, end, cap) <= capped_len(buf, x, split, end, cap));
}

/// The brute-force search returns `brute_result`.
proof fn lemma_brute_result(buf: Seq<u8>, start: int, split: int, end: int, settings: LzssSettings, r: Option<MoveBack>)
    requires
        r is None <==> forall|i: int|
            start <= i < split ==> capped_len(
                buf,
                i,
                split,
                end,
                settings.spec_max_encoded(),
            ) <= settings.max_uncoded,
        r matches Some(m) ==> {
            let at = split - m.moveback;
            &&& start <= at < split
            &&& m.size == capped_len(buf, at, split, end, settings.spec_max_encoded())
            &&& m.size > settings.max_uncoded
            &&& forall|i: int|
                start <= i < split ==> #[trigger] capped_len(
                    buf,
                    i,
                    split,
                    end,
                    settings.spec_max_encoded(),
                ) <= m.size && (capped_len(
                    buf,
                    i,
                    split,
                    end,
                    settings.spec_max_encoded(),
                ) == m.size ==> i <= at)
        },
    ensures
        r == brute_result(buf, start, split, end, settings),
{
    reveal(brute_result);
    let cap = settings.spec_max_encoded();
    if let Some(m) = r {
        let at = split - m.moveback;
        assert(is_best(buf, start, split, end, settings, at));
        let c = choose|c: int| #[trigger] is_best(buf, start, split, end, settings, c);
        lemma_best_unique(buf, start, split, end, settings, at, c);
    }
}

// The sliding dictionary keeps its bytes in a `SliceDeque`, which drains
// from the front and extends at the back while staying one slice.

#[verifier::external_type_specification]
#[verifier::external_body]
#[verifier::reject_recursive_types(T)]
pub struct ExSliceDeque<T>(SliceDeque<T>);

/// The bytes a deque holds, front first.
pub uninterp spec fn deque_items(d: SliceDeque<u8>) -> Seq<u8>;

/// Relies on `SliceDeque::new`: a new deque is empty.
#[verifier::external_body]
fn deque_new() -> (r: SliceDeque<u8>)
    ensures
        deque_items(r) == Seq::<u8>::empty(),
{
    SliceDeque::new()
}

/// Relies on `SliceDeque::extend_from_slice`: the bytes go to the back, in order.
#[verifier::external_body]
fn deque_extend(d: &mut SliceDeque<u8>, s: &[u8])
    ensures
        deque_items(*final(d)) == deque_items(*old(d)) + s@,
{
    d.extend_from_slice(s)
}

/// Relies on `SliceDeque::drain` over `..n`: the first `n` bytes leave; it
/// panics when fewer are held.
#[verifier::external_body]
fn deque_drain_front(d: &mut SliceDeque<u8>, n: usize)
    requires
        n <= deque_items(*old(d)).len(),
    ensures
        deque_items(*final(d)) == deque_items(*old(d)).subrange(n as int, deque_items(*old(d)).len() as int),
{
    d.drain(..n);
}

/// Relies on `SliceDeque::as_slice`: one slice of all bytes, front first.
#[verifier::external_body]
fn deque_slice(d: &SliceDeque<u8>) -> (r: &[u8])
    ensures
        r@ == deque_items(*d),
{
    d.as_slice()
}

pub open spec fn min_int(a: int, b: int) -> int {
    if a < b {
        a
    } else {
        b
    }
}

pub open spec fn max_int(a: int, b: int) -> int {
    if a < b {
        b
    } else {
        a
    }
}

/// Where the window starts, in input positions, for a search `s` bytes past
/// cursor `c`: at most `window_size` bytes back.
pub open spec fn win_start(c: int, s: int, settings: LzssSettings) -> int {
    max_int(0, c + s - settings.spec_window_size())
}

/// Where the bytes ahead end, in input positions, for a search `s` bytes
/// past cursor `c` in an input of `len` bytes: the dictionary holds up to
/// `max_encoded + 10` bytes past the cursor, and a search sees at most
/// `max_encoded` bytes past the window's full extent.
pub open spec fn ahead_end(len: int, c: int, s: int, settings: LzssSettings) -> int {
    min_int(
        min_int(len, c + settings.spec_max_encoded() + MAX_AHEAD_CHECK),
        max_int(settings.spec_window_size() as int, c) + settings.spec_max_encoded() + s,
    )
}

/// The number of bytes ahead of cursor `c` that the dictionary offers.
pub open spec fn remaining_at(len: int, c: int, settings: LzssSettings) -> int {
    ahead_end(len, c, 0, settings) - c
}

/// The most literals tried before a match.
pub const MAX_AHEAD_CHECK: usize = 10;

/// The window behind the cursor and the bytes ahead of it, refilled from
/// the input as the cursor moves.
pub struct SlidingDict {
    /// Size of the window behind the cursor.
    window: usize,
    /// Size of the lookahead.
    lookahead: usize,
    /// Window plus lookahead, without the bytes peeked beyond.
    buf_size: u64,
    /// Lookahead plus the bytes peeked beyond it.
    max_ahead: u64,
    /// Position in `buf` of the start of the lookahead.
    csr: usize,
    buf: SliceDeque<u8>,
    /// Whether the input may hold more bytes.
    more_to_read: bool,
    /// Bytes taken from the input so far.
    total_read: usize,
}

impl SlidingDict {
    pub closed spec fn items(&self) -> Seq<u8> {
        deque_items(self.buf)
    }

    /// Position in the input of the first byte held.
    pub closed spec fn front(&self) -> int {
        self.total_read - deque_items(self.buf).len()
    }

    /// Position in the input of the cursor.
    pub closed spec fn cur(&self) -> int {
        self.front() + self.csr
    }

    pub closed spec fn spec_ahead_end(&self) -> int {
        if deque_items(self.buf).len() < self.buf_size {
            deque_items(self.buf).len() as int
        } else {
            self.buf_size as int
        }
    }

    /// The bytes held from the cursor on, peeked ones included.
    pub closed spec fn held_ahead(&self) -> int {
        deque_items(self.buf).len() - self.csr
    }

    /// The number of bytes ahead of the cursor.
    pub closed spec fn spec_remaining(&self) -> int {
        self.spec_ahead_end() - self.csr
    }

    pub closed spec fn wf(&self, input: Seq<u8>, settings: LzssSettings) -> bool {
        &&& settings.wf()
        &&& self.window == settings.spec_window_size()
        &&& self.lookahead == settings.spec_max_encoded()
        &&& 1 <= self.lookahead < 0x1_0000_0000
        &&& self.window < 0x1_0000_0000
        &&& self.buf_size == self.window + self.lookahead
        &&& self.max_ahead == self.lookahead + MAX_AHEAD_CHECK
        &&& self.total_read <= input.len()
        &&& deque_items(self.buf).len() <= self.total_read
        &&& deque_items(self.buf) == input.subrange(self.front(), self.total_read as int)
        &&& self.csr <= deque_items(self.buf).len()
        &&& self.csr <= self.window
        &&& !self.more_to_read ==> self.total_read == input.len()
        &&& self.more_to_read ==> deque_items(self.buf).len() - self.csr == self.max_ahead
        &&& deque_items(self.buf).len() - self.csr <= self.max_ahead
        &&& self.csr == (if self.cur() < self.window {
            self.cur()
        } else {
            self.window as int
        })
    }

    pub fn new(input: &[u8], settings: &LzssSettings) -> (r: Self)
        requires
            settings.wf(),
        ensures
            r.wf(input@, *settings),
            r.cur() == 0,
    {
        let window = settings.window_size();
        let lookahead = settings.max_encoded();
        let buf_size = window as u64 + lookahead as u64;
        let max_ahead = lookahead as u64 + MAX_AHEAD_CHECK as u64;
        let mut buf = deque_new();
        let take = if (input.len() as u64) < max_ahead { input.len() } else { max_ahead as usize };
        deque_extend(&mut buf, slice_subrange(input, 0, take));
        let more_to_read = take as u64 >= max_ahead;
        let r = SlidingDict { window, lookahead, buf_size, max_ahead, csr: 0, buf, more_to_read, total_read: take };
        assert(deque_items(r.buf) =~= input@.subrange(r.front(), take as int));
        r
    }

    /// The number of bytes ahead of the cursor; 0 exactly when the input is used up.
    pub fn remaining(&self, Ghost(input): Ghost<Seq<u8>>, Ghost(settings): Ghost<LzssSettings>) -> (r: usize)
        requires
            self.wf(input, settings),
        ensures
            r == self.spec_remaining(),
            r == remaining_at(input.len() as int, self.cur(), settings),
            r == 0 <==> self.cur() == input.len(),
            self.cur() + r <= input.len(),
    {
        let len = deque_slice(&self.buf).len();
        let end = if (len as u64) < self.buf_size { len } else { self.buf_size as usize };
        end - self.csr
    }

    /// The byte at the cursor.
    pub fn next_uncoded_byte(&self, Ghost(input): Ghost<Seq<u8>>, Ghost(settings): Ghost<LzssSettings>) -> (r: u8)
        requires
            self.wf(input, settings),
            self.spec_remaining() > 0,
        ensures
            r == input[self.cur()],
    {
        deque_slice(&self.buf)[self.csr]
    }

    /// All bytes held, front first.
    pub fn slice(&self) -> (r: &[u8])
        ensures
            r@ == self.items(),
    {
        deque_slice(&self.buf)
    }

    /// The window and lookahead as if the cursor were `n` bytes on: the
    /// window runs from `r.0` to `r.1`, the lookahead from `r.1` to `r.2`.
    pub fn offset_csr(&self, n: usize, Ghost(input): Ghost<Seq<u8>>, Ghost(settings): Ghost<LzssSettings>) -> (r: (usize, usize, usize))
        requires
            self.wf(input, settings),
            n < self.spec_remaining(),
        ensures
            r.0 <= r.1 <= r.2 <= self.items().len(),
            r.1 == self.csr_pos() + n,
            r.1 - r.0 <= settings.spec_window_size(),
            r.2 - r.1 <= self.held_ahead() - n,
            self.front() + r.0 == win_start(self.cur(), n as int, settings),
            self.front() + r.2 == ahead_end(input.len() as int, self.cur(), n as int, settings),
    {
        let len = deque_slice(&self.buf).len();
        let limit = self.buf_size + n as u64;
        let offset_end = if (len as u64) < limit { len } else { limit as usize };
        let w_end = self.csr + n;
        let w_start = if w_end > self.window { w_end - self.window } else { 0 };
        (w_start, w_end, offset_end)
    }

    /// The position of the cursor among the bytes held.
    pub fn cursor(&self) -> (r: usize)
        ensures
            r == self.csr_pos(),
    {
        self.csr
    }

    /// The position of the cursor among the bytes held.
    pub closed spec fn csr_pos(&self) -> int {
        self.csr as int
    }

    /// The bytes held are the input from `front()` on, and the cursor sits
    /// among them.
    pub proof fn lemma_items(&self, input: Seq<u8>, settings: LzssSettings)
        requires
            self.wf(input, settings),
        ensures
            self.items() == input.subrange(self.front(), self.front() + self.items().len()),
            0 <= self.front(),
            self.front() + self.items().len() <= input.len(),
            self.cur() == self.front() + self.csr_pos(),
            0 <= self.csr_pos() <= self.items().len(),
            self.held_ahead() == self.items().len() - self.csr_pos(),
            self.spec_remaining() <= self.held_ahead(),
    {
    }

    /// Moves the cursor `n` bytes on, drains what leaves the window and
    /// reads as many new bytes from `input`.
    #[verifier::rlimit(100)]
    pub fn advance_by(&mut self, n: usize, input: &[u8], Ghost(settings): Ghost<LzssSettings>)
        requires
            old(self).wf(input@, settings),
            1 <= n <= old(self).held_ahead(),
        ensures
            final(self).wf(input@, settings),
            final(self).cur() == old(self).cur() + n,
    {
        let p = self.csr + n;
        let m = self.window;
        let new_csr = if p < m { p } else { m };
        let excess = if p > m { p - m } else { 0 };
        if excess > 0 {
            deque_drain_front(&mut self.buf, excess);
        }
        self.csr = new_csr;
        assert(deque_items(self.buf) =~= input@.subrange(self.front(), self.total_read as int));
        assert(self.cur() == old(self).cur() + n);
        if self.more_to_read {
            let avail = input.len() - self.total_read;
            let take = if n < avail { n } else { avail };
            let ghost before = deque_items(self.buf);
            deque_extend(&mut self.buf, slice_subrange(input, self.total_read, self.total_read + take));
            self.total_read = self.total_read + take;
            if take < n {
                self.more_to_read = false;
            }
            if take == 0 {
                self.more_to_read = false;
            }
            assert(deque_items(self.buf) =~= input@.subrange(self.front(), self.total_read as int));
        }
    }
}

/// A back-reference at input position `at` that the settings allow and
/// that copies bytes equal to those at `at`.
pub open spec fn valid_ref(input: Seq<u8>, at: int, m: MoveBack, settings: LzssSettings) -> bool {
    &&& 1 <= m.moveback <= at
    &&& m.moveback <= settings.spec_window_size()
    &&& settings.max_uncoded < m.size <= settings.spec_max_encoded()
    &&& at + m.size <= input.len()
    &&& forall|t: int| 0 <= t < m.size ==> input[at - m.moveback + t] == #[trigger] input[at + t]
}

/// A match among the bytes held is a match in the input.
proof fn lemma_match_in_input(
    items: Seq<u8>,
    input: Seq<u8>,
    f: int,
    a: int,
    b: int,
    c: int,
    m: MoveBack,
    settings: LzssSettings,
)
    requires
        items == input.subrange(f, f + items.len()),
        0 <= f,
        f + items.len() <= input.len(),
        0 <= a <= b <= c <= items.len(),
        b - a <= settings.spec_window_size(),
        is_match(items, a, b, c, m),
        settings.max_uncoded < m.size <= settings.spec_max_encoded(),
    ensures
        valid_ref(input, f + b, m, settings),
{
    assert forall|t: int| 0 <= t < m.size implies input[f + b - m.moveback + t] == #[trigger] input[f + b + t] by {
        assert(items[b - m.moveback + t] == items[b + t]);
    }
}

/// The match that `backend` finds with the cursor `offset` bytes on.
#[verifier::rlimit(100)]
fn match_at(
    dict: &SlidingDict,
    settings: &LzssSettings,
    backend: LzssBackend,
    offset: usize,
    Ghost(input): Ghost<Seq<u8>>,
) -> (r: Option<MoveBack>)
    requires
        dict.wf(input, *settings),
        offset < dict.spec_remaining(),
    ensures
        r matches Some(m) ==> offset + m.size <= dict.held_ahead() && (m.size > settings.max_uncoded
            ==> valid_ref(input, dict.cur() + offset, m, *settings)),
        r == finder_at(backend, input, dict.cur(), offset as int, *settings),
{
    proof {
        dict.lemma_items(input, *settings);
    }
    let buf = dict.slice();
    let (w_start, w_end, offset_end) = dict.offset_csr(offset, Ghost(input), Ghost(*settings));
    let r = find_match(backend, buf, w_start, w_end, offset_end, settings);
    proof {
        if let Some(m) = r {
            if m.size > settings.max_uncoded {
                lemma_match_in_input(buf@, input, dict.front(), w_start as int, w_end as int, offset_end as int, m, *settings);
            }
        }
        if backend == LzssBackend::Brute {
            lemma_brute_shift(buf@, input, dict.front(), w_start as int, w_end as int, offset_end as int, *settings);
        } else {
            lemma_kmp_result_shift(buf@, input, dict.front(), w_start as int, w_end as int, offset_end as int,
                settings.spec_max_encoded(), backend == LzssBackend::KmpAhead);
        }
    }
    r
}

/// The match that the search of `backend` finds `s` bytes past cursor `c`.
pub open spec fn finder_at(backend: LzssBackend, input: Seq<u8>, c: int, s: int, settings: LzssSettings) -> Option<MoveBack> {
    find_result(
        backend,
        input,
        win_start(c, s, settings),
        c + s,
        ahead_end(input.len() as int, c, s, settings),
        settings,
    )
}

/// The Knuth-Morris-Pratt search does not depend on where the bytes are held.
proof fn lemma_kmp_run_shift(
    items: Seq<u8>,
    input: Seq<u8>,
    f: int,
    a: int,
    b: int,
    e: int,
    max: nat,
    check_rl: bool,
    t: Seq<usize>,
    target: int,
    pat: int,
    best: Option<MoveBack>,
)
    requires
        0 <= f,
        f + items.len() <= input.len(),
        items == input.subrange(f, f + items.len()),
        0 <= a <= b <= e <= items.len(),
    ensures
        kmp_run(items, a, b, e, max, check_rl, t, target, pat, best) == kmp_run(
            input,
            f + a,
            f + b,
            f + e,
            max,
            check_rl,
            t,
            target,
            pat,
            best,
        ),
    decreases (b - a) + (e - b) - target, pat,
{
    let ws = b - a;
    let ps = e - b;
    if 0 <= pat < ps && target < ws && pat <= target && pat <= max && 0 <= target {
        let st = target - pat;
        lemma_lcp_shift(items, input, f, a + st, b, (e - b) as nat);
        assert(capped_len(items, a + st, b, e, max) == capped_len(input, f + a + st, f + b, f + e, max));
        let ms = capped_len(items, a + st, b, e, max) as int;
        let best2 = match best {
            Some(bb) => {
                if bb.size > ms {
                    best
                } else {
                    Some(MoveBack { size: ms as usize, moveback: (ws - st) as usize })
                }
            },
            None => Some(MoveBack { size: ms as usize, moveback: (ws - st) as usize }),
        };
        let lps_idx = if ms > 0 {
            ms - 1
        } else {
            0
        };
        if check_rl {
            let nt = target + last_zero(t.subrange(0, lps_idx)) + 1;
            if target < nt <= ws + ps {
                lemma_kmp_run_shift(items, input, f, a, b, e, max, check_rl, t, nt, 0, best2);
            }
        } else {
            let adv = if pat == 0 {
                if ms > 1 {
                    ms
                } else {
                    1
                }
            } else {
                ms - pat
            };
            let next = if lps_idx < t.len() {
                t[lps_idx] as int
            } else {
                0
            };
            let nt = target + adv;
            if target <= nt <= ws + ps && (target < nt || (0 <= next < pat)) {
                lemma_kmp_run_shift(items, input, f, a, b, e, max, check_rl, t, nt, next, best2);
            }
        }
    }
}

proof fn lemma_kmp_result_shift(items: Seq<u8>, input: Seq<u8>, f: int, a: int, b: int, e: int, max: nat, check_rl: bool)
    requires
        0 <= f,
        f + items.len() <= input.len(),
        items == input.subrange(f, f + items.len()),
        0 <= a <= b <= e <= items.len(),
    ensures
        kmp_result(items, a, b, e, max, check_rl) == kmp_result(input, f + a, f + b, f + e, max, check_rl),
{
    assert(items.subrange(b, e) =~= input.subrange(f + b, f + e));
    lemma_kmp_run_shift(items, input, f, a, b, e, max, check_rl, lps_table(items.subrange(b, e)), 0, 0, None);
}

/// Equal leading bytes do not depend on where the bytes are held.
proof fn lemma_lcp_shift(items: Seq<u8>, input: Seq<u8>, f: int, i: int, j: int, n: nat)
    requires
        0 <= f,
        f + items.len() <= input.len(),
        items == input.subrange(f, f + items.len()),
        0 <= i,
        0 <= j,
        i + n <= items.len(),
        j + n <= items.len(),
    ensures
        lcp(items, i, j, n) == lcp(input, f + i, f + j, n),
    decreases n,
{
    if n > 0 {
        assert(items[i] == input[f + i]);
        assert(items[j] == input[f + j]);
        lemma_lcp_shift(items, input, f, i + 1, j + 1, (n - 1) as nat);
    }
}

/// Among starts `a..r` some match is longer than `mu`, so a longest one
/// exists, and a last among the longest.
#[verifier::rlimit(100)]
proof fn lemma_best_start(buf: Seq<u8>, a: int, r: int, split: int, e: int, cap: nat, mu: nat)
    requires
        a < r,
        exists|w: int| a <= w < r && capped_len(buf, w, split, e, cap) > mu,
    ensures
        exists|at: int|
            a <= at < r && capped_len(buf, at, split, e, cap) > mu && forall|i: int|
                a <= i < r ==> #[trigger] capped_len(buf, i, split, e, cap) <= capped_len(
                    buf,
                    at,
                    split,
                    e,
                    cap,
                ) && (capped_len(buf, i, split, e, cap) == capped_len(buf, at, split, e, cap) ==> i
                    <= at),
    decreases r - a,
{
    let w = choose|w: int| a <= w < r && capped_len(buf, w, split, e, cap) > mu;
    let last = r - 1;
    if forall|i: int| a <= i < r ==> #[trigger] capped_len(buf, i, split, e, cap) <= capped_len(buf, last, split, e, cap) {
        assert(capped_len(buf, w, split, e, cap) <= capped_len(buf, last, split, e, cap));
        assert(a <= last < r && capped_len(buf, last, split, e, cap) > mu && forall|i: int|
            a <= i < r ==> #[trigger] capped_len(buf, i, split, e, cap) <= capped_len(buf, last, split, e, cap)
                && (capped_len(buf, i, split, e, cap) == capped_len(buf, last, split, e, cap) ==> i <= last));
    } else {
        let i0 = choose|i: int| a <= i < r && !(#[trigger] capped_len(buf, i, split, e, cap) <= capped_len(buf, last, split, e, cap));
        assert(i0 < last);
        if w == last {
            assert(capped_len(buf, i0, split, e, cap) > mu);
        }
        let w2 = if w == last { i0 } else { w };
        assert(a <= w2 < last && capped_len(buf, w2, split, e, cap) > mu);
        lemma_best_start(buf, a, last, split, e, cap, mu);
        let at = choose|at: int|
            a <= at < last && capped_len(buf, at, split, e, cap) > mu && forall|i: int|
                a <= i < last ==> #[trigger] capped_len(buf, i, split, e, cap) <= capped_len(buf, at, split, e, cap)
                    && (capped_len(buf, i, split, e, cap) == capped_len(buf, at, split, e, cap) ==> i <= at);
        assert(capped_len(buf, i0, split, e, cap) <= capped_len(buf, at, split, e, cap));
        assert(a <= at < r && capped_len(buf, at, split, e, cap) > mu && forall|i: int|
            a <= i < r ==> #[trigger] capped_len(buf, i, split, e, cap) <= capped_len(buf, at, split, e, cap)
                && (capped_len(buf, i, split, e, cap) == capped_len(buf, at, split, e, cap) ==> i <= at));
    }
}

/// The brute-force result does not depend on where the bytes are held.
#[verifier::rlimit(100)]
proof fn lemma_brute_shift(items: Seq<u8>, input: Seq<u8>, f: int, a: int, b: int, e: int, settings: LzssSettings)
    requires
        0 <= f,
        f + items.len() <= input.len(),
        items == input.subrange(f, f + items.len()),
        0 <= a <= b <= e <= items.len(),
    ensures
        brute_result(items, a, b, e, settings) == brute_result(input, f + a, f + b, f + e, settings),
{
    reveal(brute_result);
    let cap = settings.spec_max_encoded();
    assert forall|i: int| a <= i < b implies #[trigger] capped_len(items, i, b, e, cap) == capped_len(
        input,
        f + i,
        f + b,
        f + e,
        cap,
    ) by {
        lemma_lcp_shift(items, input, f, i, b, (e - b) as nat);
    }
    let none1 = forall|i: int| a <= i < b ==> #[trigger] capped_len(items, i, b, e, cap) <= settings.max_uncoded;
    let none2 = forall|i: int|
        f + a <= i < f + b ==> #[trigger] capped_len(input, i, f + b, f + e, cap) <= settings.max_uncoded;
    if none1 {
        assert forall|i: int| f + a <= i < f + b implies #[trigger] capped_len(input, i, f + b, f + e, cap)
            <= settings.max_uncoded by {
            assert(capped_len(items, i - f, b, e, cap) == capped_len(input, f + (i - f), f + b, f + e, cap));
        }
    } else {
        let w = choose|w: int| a <= w < b && !(#[trigger] capped_len(items, w, b, e, cap) <= settings.max_uncoded);
        assert(capped_len(input, f + w, f + b, f + e, cap) > settings.max_uncoded);
        lemma_best_start(items, a, b, b, e, cap, settings.max_uncoded as nat);
        let at0 = choose|at: int|
            a <= at < b && capped_len(items, at, b, e, cap) > settings.max_uncoded && forall|i: int|
                a <= i < b ==> #[trigger] capped_len(items, i, b, e, cap) <= capped_len(items, at, b, e, cap)
                    && (capped_len(items, i, b, e, cap) == capped_len(items, at, b, e, cap) ==> i <= at);
        assert(is_best(items, a, b, e, settings, at0));
        let at1 = choose|at: int| #[trigger] is_best(items, a, b, e, settings, at);
        assert(is_best(items, a, b, e, settings, at1));
        assert(is_best(input, f + a, f + b, f + e, settings, at1 + f)) by {
            assert forall|i: int| f + a <= i < f + b implies #[trigger] capped_len(input, i, f + b, f + e, cap)
                <= capped_len(input, at1 + f, f + b, f + e, cap) && (capped_len(input, i, f + b, f + e, cap)
                == capped_len(input, at1 + f, f + b, f + e, cap) ==> i <= at1 + f) by {
                assert(capped_len(items, i - f, b, e, cap) == capped_len(input, f + (i - f), f + b, f + e, cap));
                assert(capped_len(items, at1, b, e, cap) == capped_len(input, f + at1, f + b, f + e, cap));
            }
        }
        let at2 = choose|at: int| #[trigger] is_best(input, f + a, f + b, f + e, settings, at);
        lemma_best_unique(input, f + a, f + b, f + e, settings, at1 + f, at2);
        assert(!none2);
    }
}

/// What the search around the cursor found: a match after some literals,
/// or nothing.
#[derive(Debug, Clone, Copy, PartialEq, Eq, Structural)]
pub enum LookAhead {
    /// The number of literals to write first, then the match.
    Match(usize, MoveBack),
    Uncoded,
}

/// The search from skip `s` on, with `best` the longest match kept so far
/// and `found` what would be returned: each skip's match is kept while it
/// is longer than `max_uncoded` and than the one before.
pub open spec fn nearby_chain(
    input: Seq<u8>,
    c: int,
    settings: LzssSettings,
    s: int,
    limit: int,
    best: nat,
    found: LookAhead,
    backend: LzssBackend,
) -> LookAhead
    decreases limit - s,
{
    if s < 0 || s >= limit {
        found
    } else {
        match finder_at(backend, input, c, s, settings) {
            Some(m) => {
                if m.size > settings.max_uncoded && m.size > best {
                    nearby_chain(input, c, settings, s + 1, limit, m.size as nat, LookAhead::Match(s as usize, m), backend)
                } else {
                    found
                }
            },
            None => found,
        }
    }
}

/// What the brute-force search around cursor `c` finds.
#[verifier::opaque]
pub open spec fn nearby(input: Seq<u8>, c: int, settings: LzssSettings, backend: LzssBackend) -> LookAhead {
    nearby_chain(
        input,
        c,
        settings,
        0,
        min_int(remaining_at(input.len() as int, c, settings), MAX_AHEAD_CHECK as int),
        0,
        LookAhead::Uncoded, backend,
)
}

/// Searches at the cursor and up to nine bytes on, keeping a match while
/// each one found is longer than `max_uncoded` and than the one before;
/// the first that is not ends the search.
#[verifier::rlimit(100)]
pub fn look_for_nearby_best_match(
    dict: &SlidingDict,
    settings: &LzssSettings,
    backend: LzssBackend,
    Ghost(input): Ghost<Seq<u8>>,
) -> (r: LookAhead)
    requires
        dict.wf(input, *settings),
        dict.spec_remaining() > 0,
    ensures
        r matches LookAhead::Match(s, m) ==> {
            &&& s < dict.spec_remaining()
            &&& s < MAX_AHEAD_CHECK
            &&& s + m.size <= dict.held_ahead()
            &&& valid_ref(input, dict.cur() + s, m, *settings)
        },
        r == nearby(input, dict.cur(), *settings, backend),
{
    reveal(nearby);
    proof {
        dict.lemma_items(input, *settings);
    }
    let remaining = dict.remaining(Ghost(input), Ghost(*settings));
    let limit = if remaining < MAX_AHEAD_CHECK { remaining } else { MAX_AHEAD_CHECK };
    let mut best: usize = 0;
    let mut found = LookAhead::Uncoded;
    let mut offset: usize = 0;
    let mut stop = false;
    while offset < limit && !stop
        invariant
            dict.wf(input, *settings),
            limit <= dict.spec_remaining(),
            limit <= MAX_AHEAD_CHECK,
            offset <= limit,
            found matches LookAhead::Match(s, m) ==> {
                &&& s < offset
                &&& s + m.size <= dict.held_ahead()
                &&& valid_ref(input, dict.cur() + s, m, *settings)
            },
            limit == min_int(remaining_at(input.len() as int, dict.cur(), *settings), MAX_AHEAD_CHECK as int),
            offset == 0 ==> found == LookAhead::Uncoded && best == 0,
            stop ==> nearby(input, dict.cur(), *settings, backend) == found,
            !stop ==> nearby(input, dict.cur(), *settings, backend) == nearby_chain(
                input,
                dict.cur(),
                *settings,
                offset as int,
                limit as int,
                best as nat,
                found, backend,
),
        decreases limit - offset + if stop {
            0int
        } else {
            1int
        },
    {
        match match_at(dict, settings, backend, offset, Ghost(input)) {
            Some(m) => {
                if m.size > settings.max_uncoded && m.size > best {
                    best = m.size;
                    found = LookAhead::Match(offset, m);
                    offset = offset + 1;
                } else {
                    stop = true;
                }
            },
            None => {
                stop = true;
            },
        }
    }
    found
}

/// One token of the LZSS pass.
#[derive(Debug, Clone, Copy, PartialEq, Eq, Structural)]
pub enum LzssByte {
    /// Length and offset.
    Encoded(usize, usize),
    /// Length and the offset split in samples.
    EncTwoSample(usize, TwoSample),
    Uncoded(u8),
}

impl LzssByte {
    pub open spec fn spec_size(self) -> nat {
        match self {
            LzssByte::Encoded(size, _) => size as nat,
            LzssByte::EncTwoSample(size, _) => size as nat,
            LzssByte::Uncoded(..) => 1,
        }
    }

    /// The number of input bytes this token stands for.
    pub fn size(&self) -> (r: usize)
        ensures
            r == self.spec_size(),
    {
        match self {
            LzssByte::Encoded(size, _) => *size,
            LzssByte::EncTwoSample(size, _) => *size,
            LzssByte::Uncoded(..) => 1,
        }
    }
}

/// The output after one more token.
pub open spec fn apply_token(o: Seq<u8>, t: LzssByte) -> Seq<u8> {
    match t {
        LzssByte::Uncoded(b) => o.push(b),
        LzssByte::Encoded(l, off) => copy_back(o, off as nat, l as nat),
        LzssByte::EncTwoSample(l, ts) => copy_back(o, ts.spec_offset() as nat, l as nat),
    }
}

/// The bytes that a token stream stands for, copying one byte at a time.
pub open spec fn expand(toks: Seq<LzssByte>) -> Seq<u8>
    decreases toks.len(),
{
    if toks.len() == 0 {
        Seq::empty()
    } else {
        apply_token(expand(toks.drop_last()), toks.last())
    }
}

/// The offset a token copies from; 0 for a literal.
pub open spec fn token_offset(t: LzssByte) -> int {
    match t {
        LzssByte::Uncoded(_) => 0,
        LzssByte::Encoded(_, off) => off as int,
        LzssByte::EncTwoSample(_, ts) => ts.spec_offset(),
    }
}

/// Every back-reference copies only from bytes that the tokens before it
/// produced.
pub open spec fn refs_ok(toks: Seq<LzssByte>) -> bool {
    forall|i: int|
        0 <= i < toks.len() ==> token_offset(#[trigger] toks[i]) <= expand(toks.subrange(0, i)).len()
}

/// Appending a token keeps earlier tokens' references in range.
pub proof fn lemma_refs_push(toks: Seq<LzssByte>, t: LzssByte)
    requires
        refs_ok(toks),
        token_offset(t) <= expand(toks).len(),
    ensures
        refs_ok(toks.push(t)),
{
    let n = toks.push(t);
    assert forall|i: int| 0 <= i < n.len() implies token_offset(#[trigger] n[i]) <= expand(n.subrange(0, i)).len() by {
        if i < toks.len() {
            assert(n.subrange(0, i) =~= toks.subrange(0, i));
            assert(n[i] == toks[i]);
        } else {
            assert(n.subrange(0, i) =~= toks);
        }
    }
}

/// A token that the settings and the method allow: lengths above
/// `max_uncoded` and within the maximum, offsets from 1 to the window size,
/// samples as the two-sample method splits them.
pub open spec fn token_ok(t: LzssByte, settings: LzssSettings, method: VpkMethod) -> bool {
    match t {
        LzssByte::Uncoded(_) => true,
        LzssByte::Encoded(l, o) => {
            &&& method == VpkMethod::OneSample
            &&& settings.max_uncoded < l <= settings.spec_max_encoded()
            &&& 1 <= o <= settings.spec_window_size()
        },
        LzssByte::EncTwoSample(l, ts) => {
            &&& method == VpkMethod::TwoSample
            &&& settings.max_uncoded < l <= settings.spec_max_encoded()
            &&& 1 <= ts.spec_offset() <= settings.spec_window_size()
            &&& ts == two_sample_of(ts.spec_offset() as nat)
        },
    }
}

/// Whether `x` is `w` bits wide, as a count.
pub open spec fn hit(x: usize, w: nat) -> nat {
    if bit_width(x as nat) == w {
        1
    } else {
        0
    }
}

/// How many of a token's offset values are `w` bits wide.
pub open spec fn offset_hits(t: LzssByte, w: nat) -> nat {
    match t {
        LzssByte::Uncoded(_) => 0,
        LzssByte::Encoded(_, o) => hit(o, w),
        LzssByte::EncTwoSample(_, TwoSample::One(q)) => hit(q, w),
        LzssByte::EncTwoSample(_, TwoSample::Two { first, second }) => hit(first, w) + hit(second, w),
    }
}

/// How many of a token's length values are `w` bits wide.
pub open spec fn length_hits(t: LzssByte, w: nat) -> nat {
    match t {
        LzssByte::Uncoded(_) => 0,
        LzssByte::Encoded(l, _) => hit(l, w),
        LzssByte::EncTwoSample(l, _) => hit(l, w),
    }
}

/// How many offset values (`offsets`) or length values of a stream are `w` bits wide.
pub open spec fn count_widths(toks: Seq<LzssByte>, w: nat, offsets: bool) -> nat
    decreases toks.len(),
{
    if toks.len() == 0 {
        0
    } else {
        count_widths(toks.drop_last(), w, offsets) + if offsets {
            offset_hits(toks.last(), w)
        } else {
            length_hits(toks.last(), w)
        }
    }
}

pub proof fn lemma_count_bound(toks: Seq<LzssByte>, w: nat, offsets: bool)
    ensures
        count_widths(toks, w, offsets) <= 2 * toks.len(),
    decreases toks.len(),
{
    if toks.len() > 0 {
        lemma_count_bound(toks.drop_last(), w, offsets);
    }
}

/// The token stream of the LZSS pass with the bit-width histograms of its
/// offset values and its length values (index: width, 0 to 32). The widths
/// are few and dense, and indexing by width visits them in ascending order,
/// so the trees built from the histograms do not depend on a hash map's
/// iteration order.
#[derive(Debug)]
pub struct LzssPass {
    pub buf: Vec<LzssByte>,
    pub decompressed_size: Option<u32>,
    pub size_bitfreq: Vec<u64>,
    pub moveback_bitfreq: Vec<u64>,
}

/// The number of entries of a histogram: widths 0 to 32.
pub const HIST_LEN: usize = 33;

impl LzssPass {
    /// The histograms count exactly the widths of the stream's values.
    pub open spec fn wf(&self) -> bool {
        &&& self.size_bitfreq@.len() == HIST_LEN
        &&& self.moveback_bitfreq@.len() == HIST_LEN
        &&& forall|w: int|
            0 <= w < HIST_LEN ==> #[trigger] self.size_bitfreq@[w] == count_widths(
                self.buf@,
                w as nat,
                false,
            )
        &&& forall|w: int|
            0 <= w < HIST_LEN ==> #[trigger] self.moveback_bitfreq@[w] == count_widths(
                self.buf@,
                w as nat,
                true,
            )
    }

    pub fn new() -> (r: Self)
        ensures
            r.wf(),
            r.buf@.len() == 0,
            r.decompressed_size is None,
    {
        let mut size_bitfreq: Vec<u64> = Vec::new();
        let mut moveback_bitfreq: Vec<u64> = Vec::new();
        let mut i: usize = 0;
        while i < HIST_LEN
            invariant
                i <= HIST_LEN,
                size_bitfreq@.len() == i,
                moveback_bitfreq@.len() == i,
                forall|k: int| 0 <= k < i ==> size_bitfreq@[k] == 0 && moveback_bitfreq@[k] == 0,
            decreases HIST_LEN - i,
        {
            size_bitfreq.push(0);
            moveback_bitfreq.push(0);
            i = i + 1;
        }
        LzssPass { buf: Vec::new(), decompressed_size: None, size_bitfreq, moveback_bitfreq }
    }

    pub fn add_uncoded(&mut self, byte: u8)
        requires
            old(self).wf(),
        ensures
            final(self).wf(),
            final(self).buf@ == old(self).buf@.push(LzssByte::Uncoded(byte)),
            final(self).decompressed_size == old(self).decompressed_size,
    {
        self.buf.push(LzssByte::Uncoded(byte));
        assert(self.buf@.drop_last() =~= old(self).buf@);
    }

    fn bump(hist: &mut Vec<u64>, x: usize, Ghost(bound): Ghost<nat>)
        requires
            old(hist)@.len() == HIST_LEN,
            x < 0x1_0000_0000,
            forall|w: int| 0 <= w < HIST_LEN ==> old(hist)@[w] + 1 <= bound,
            bound < 0x1_0000_0000_0000_0000,
        ensures
            final(hist)@.len() == HIST_LEN,
            forall|w: int|
                0 <= w < HIST_LEN ==> #[trigger] final(hist)@[w] == old(hist)@[w] + hit(x, w as nat),
    {
        let b = count_needed_bits(x) as usize;
        proof {
            vstd::arithmetic::power2::lemma2_to64();
            lemma_bit_width_le(x as nat, 32);
        }
        let v = hist[b];
        hist.set(b, v + 1);
    }

    /// Appends a token and counts the widths of its values.
    pub fn add(&mut self, byte: LzssByte)
        requires
            old(self).wf(),
            old(self).buf@.len() < 0x1_0000_0000,
            values_fit(byte),
        ensures
            final(self).wf(),
            final(self).buf@ == old(self).buf@.push(byte),
            final(self).decompressed_size == old(self).decompressed_size,
    {
        let ghost toks = old(self).buf@;
        let ghost bound: nat = 2 * toks.len() + 2;
        proof {
            assert forall|w: int| 0 <= w < HIST_LEN implies self.size_bitfreq@[w] + 1 <= bound && self.moveback_bitfreq@[w] + 2 <= bound by {
                lemma_count_bound(toks, w as nat, false);
                lemma_count_bound(toks, w as nat, true);
            }
        }
        match byte {
            LzssByte::Encoded(size, offset) => {
                Self::bump(&mut self.size_bitfreq, size, Ghost(bound));
                Self::bump(&mut self.moveback_bitfreq, offset, Ghost(bound));
            },
            LzssByte::EncTwoSample(size, offset) => {
                Self::bump(&mut self.size_bitfreq, size, Ghost(bound));
                match offset {
                    TwoSample::One(o) => {
                        Self::bump(&mut self.moveback_bitfreq, o, Ghost(bound));
                    },
                    TwoSample::Two { first, second } => {
                        Self::bump(&mut self.moveback_bitfreq, first, Ghost(bound));
                        Self::bump(&mut self.moveback_bitfreq, second, Ghost(bound));
                    },
                }
            },
            LzssByte::Uncoded(..) => {},
        }
        self.buf.push(byte);
        assert(self.buf@.drop_last() =~= toks);
    }
}

/// Every value of a token is below `2^32`.
pub open spec fn values_fit(t: LzssByte) -> bool {
    match t {
        LzssByte::Uncoded(_) => true,
        LzssByte::Encoded(l, o) => l < 0x1_0000_0000 && o < 0x1_0000_0000,
        LzssByte::EncTwoSample(l, TwoSample::One(q)) => l < 0x1_0000_0000 && q < 0x1_0000_0000,
        LzssByte::EncTwoSample(l, TwoSample::Two { first, second }) => l < 0x1_0000_0000 && first
            < 0x1_0000_0000 && second < 0x1_0000_0000,
    }
}

/// Every token is one that the settings and the method allow.
pub open spec fn tokens_ok(toks: Seq<LzssByte>, settings: LzssSettings, method: VpkMethod) -> bool {
    forall|i: int| 0 <= i < toks.len() ==> token_ok(#[trigger] toks[i], settings, method)
}

/// Offsets and lengths allowed by valid settings are below `2^32`.
pub proof fn lemma_settings_bounds(settings: LzssSettings)
    requires
        settings.wf(),
    ensures
        settings.spec_window_size() < 0x1_0000_0000,
        1 <= settings.spec_max_encoded() < 0x1_0000_0000,
{
    vstd::arithmetic::power2::lemma2_to64();
    if settings.offset_bits < 32 {
        vstd::arithmetic::power2::lemma_pow2_strictly_increases(settings.offset_bits as nat, 32);
    }
    if settings.length_bits < 32 {
        vstd::arithmetic::power2::lemma_pow2_strictly_increases(settings.length_bits as nat, 32);
    }
    if settings.length_bits > 1 {
        vstd::arithmetic::power2::lemma_pow2_strictly_increases(1, settings.length_bits as nat);
    }
    vstd::arithmetic::power2::lemma_pow2_pos(settings.offset_bits as nat);
}

/// Copying `l` bytes from `off` back reproduces the input when the input
/// repeats itself there.
pub proof fn lemma_copy_back_repeats(input: Seq<u8>, c: int, off: int, l: nat)
    requires
        1 <= off <= c,
        c + l <= input.len(),
        forall|t: int| 0 <= t < l ==> input[c - off + t] == #[trigger] input[c + t],
    ensures
        copy_back(input.subrange(0, c), off as nat, l) == input.subrange(0, c + l),
    decreases l,
{
    if l > 0 {
        lemma_copy_back_repeats(input, c, off, (l - 1) as nat);
        let o = input.subrange(0, c + l - 1);
        assert(input[c - off + (l - 1)] == input[c + (l - 1)]);
        assert(o.push(o[o.len() - off]) =~= input.subrange(0, c + l));
    }
}

/// Writes `skipped`, the input from `at` on, as literals.
#[verifier::rlimit(100)]
fn add_literals(
    skipped: &[u8],
    output: &mut LzssPass,
    Ghost(input): Ghost<Seq<u8>>,
    Ghost(at): Ghost<int>,
    Ghost(settings): Ghost<LzssSettings>,
    Ghost(method): Ghost<VpkMethod>,
)
    requires
        0 <= at,
        at + skipped@.len() <= input.len(),
        old(output).wf(),
        expand(old(output).buf@) == input.subrange(0, at),
        tokens_ok(old(output).buf@, settings, method),
        refs_ok(old(output).buf@),
        skipped@ == input.subrange(at, at + skipped@.len()),
    ensures
        final(output).wf(),
        final(output).decompressed_size == old(output).decompressed_size,
        final(output).buf@ == old(output).buf@ + literals(skipped@),
        expand(final(output).buf@) == input.subrange(0, at + skipped@.len()),
        tokens_ok(final(output).buf@, settings, method),
        refs_ok(final(output).buf@),
{
    let mut k: usize = 0;
    while k < skipped.len()
        invariant
            output.wf(),
            output.decompressed_size == old(output).decompressed_size,
            k <= skipped@.len(),
            output.buf@ == old(output).buf@ + literals(skipped@.subrange(0, k as int)),
            expand(output.buf@) == input.subrange(0, at + k),
            tokens_ok(output.buf@, settings, method),
            refs_ok(output.buf@),
            skipped@ == input.subrange(at, at + skipped@.len()),
            at + skipped@.len() <= input.len(),
            0 <= at,
        decreases skipped@.len() - k,
    {
        assert(skipped@[k as int] == input[at + k]);
        add_literal(output, skipped[k], Ghost(input), Ghost(at + k), Ghost(settings), Ghost(method));
        proof {
            assert(output.buf@ =~= old(output).buf@ + literals(skipped@.subrange(0, k + 1)));
        }
        k = k + 1;
    }
    assert(skipped@.subrange(0, skipped@.len() as int) =~= skipped@);
}

/// Writes `skipped` as literals, then the match, and returns how many input
/// bytes they stand for.
#[verifier::rlimit(100)]
fn add_match(
    mat: MoveBack,
    skipped: &[u8],
    method: VpkMethod,
    output: &mut LzssPass,
    Ghost(input): Ghost<Seq<u8>>,
    Ghost(at): Ghost<int>,
    Ghost(settings): Ghost<LzssSettings>,
) -> (r: usize)
    requires
        0 <= at,
        at + skipped@.len() <= input.len() <= u32::MAX,
        old(output).wf(),
        settings.wf(),
        old(output).buf@.len() + skipped@.len() + 1 < 0x1_0000_0000,
        expand(old(output).buf@) == input.subrange(0, at),
        tokens_ok(old(output).buf@, settings, method),
        refs_ok(old(output).buf@),
        skipped@ == input.subrange(at, at + skipped@.len()),
        valid_ref(input, at + skipped@.len(), mat, settings),
    ensures
        final(output).wf(),
        final(output).decompressed_size == old(output).decompressed_size,
        final(output).buf@ == old(output).buf@ + literals(skipped@) + seq![ref_token(mat, method)],
        expand(final(output).buf@) == input.subrange(0, at + r),
        tokens_ok(final(output).buf@, settings, method),
        refs_ok(final(output).buf@),
        r == mat.size + skipped@.len(),
{
    proof {
        lemma_settings_bounds(settings);
    }
    let total_bytes = mat.size + skipped.len();
    add_literals(skipped, output, Ghost(input), Ghost(at), Ghost(settings), Ghost(method));
    let encoded = match method {
        VpkMethod::OneSample => LzssByte::Encoded(mat.size, mat.moveback),
        VpkMethod::TwoSample => LzssByte::EncTwoSample(mat.size, TwoSample::from_offset(mat.moveback)),
    };
    proof {
        crate::encode::lemma_two_sample_round_trip(mat.moveback as nat);
    }
    let ghost before = output.buf@;
    proof {
        lemma_refs_push(before, encoded);
    }
    output.add(encoded);
    proof {
        let c = at + skipped@.len();
        lemma_copy_back_repeats(input, c, mat.moveback as int, mat.size as nat);
        assert(output.buf@.drop_last() == before);
        assert forall|i: int| 0 <= i < output.buf@.len() implies token_ok(#[trigger] output.buf@[i], settings, method) by {
            if i < before.len() {
                assert(output.buf@[i] == before[i]);
            }
        }
    }
    total_bytes
}

/// The tokens that the brute-force pass writes from cursor `c` on: at each
/// cursor, the literals and the match that the search around it finds, or
/// one literal.
#[verifier::opaque]
pub open spec fn lzss_from(input: Seq<u8>, c: int, settings: LzssSettings, method: VpkMethod, backend: LzssBackend) -> Seq<LzssByte>
    decreases input.len() - c,
{
    if c < 0 || c >= input.len() {
        Seq::empty()
    } else {
        match nearby(input, c, settings, backend) {
            LookAhead::Match(s, m) => {
                let next = c + s + m.size;
                if c < next <= input.len() {
                    literals(input.subrange(c, c + s)) + seq![ref_token(m, method)] + lzss_from(
                        input,
                        next,
                        settings,
                        method, backend,
)
                } else {
                    Seq::empty()
                }
            },
            LookAhead::Uncoded => seq![LzssByte::Uncoded(input[c])] + lzss_from(
                input,
                c + 1,
                settings,
                method, backend,
),
        }
    }
}

/// One step of `lzss_from`.
proof fn lemma_lzss_step(input: Seq<u8>, c: int, settings: LzssSettings, method: VpkMethod, backend: LzssBackend)
    requires
        0 <= c < input.len(),
    ensures
        lzss_from(input, c, settings, method, backend) == match nearby(input, c, settings, backend) {
            LookAhead::Match(s, m) => {
                let next = c + s + m.size;
                if c < next <= input.len() {
                    literals(input.subrange(c, c + s)) + seq![ref_token(m, method)] + lzss_from(
                        input,
                        next,
                        settings,
                        method, backend,
)
                } else {
                    Seq::empty()
                }
            },
            LookAhead::Uncoded => seq![LzssByte::Uncoded(input[c])] + lzss_from(
                input,
                c + 1,
                settings,
                method, backend,
),
        },
{
    reveal_with_fuel(lzss_from, 1);
}

/// `lzss_from` at the end of the input writes nothing.
proof fn lemma_lzss_end(input: Seq<u8>, c: int, settings: LzssSettings, method: VpkMethod, backend: LzssBackend)
    requires
        c >= input.len(),
    ensures
        lzss_from(input, c, settings, method, backend) == Seq::<LzssByte>::empty(),
{
    reveal_with_fuel(lzss_from, 1);
}

/// Literal tokens for some bytes.
pub open spec fn literals(s: Seq<u8>) -> Seq<LzssByte> {
    s.map_values(|b: u8| LzssByte::Uncoded(b))
}

/// The back-reference token that the method writes for a match.
pub open spec fn ref_token(m: MoveBack, method: VpkMethod) -> LzssByte {
    match method {
        VpkMethod::OneSample => LzssByte::Encoded(m.size, m.moveback),
        VpkMethod::TwoSample => LzssByte::EncTwoSample(m.size, two_sample_of(m.moveback as nat)),
    }
}

/// Appends the literal at input position `at`.
#[verifier::rlimit(100)]
fn add_literal(output: &mut LzssPass, b: u8, Ghost(input): Ghost<Seq<u8>>, Ghost(at): Ghost<int>, Ghost(settings): Ghost<LzssSettings>, Ghost(method): Ghost<VpkMethod>)
    requires
        0 <= at < input.len(),
        input[at] == b,
        old(output).wf(),
        expand(old(output).buf@) == input.subrange(0, at),
        tokens_ok(old(output).buf@, settings, method),
        refs_ok(old(output).buf@),
    ensures
        final(output).wf(),
        final(output).decompressed_size == old(output).decompressed_size,
        final(output).buf@ == old(output).buf@.push(LzssByte::Uncoded(b)),
        expand(final(output).buf@) == input.subrange(0, at + 1),
        tokens_ok(final(output).buf@, settings, method),
        refs_ok(final(output).buf@),
{
    let ghost before = output.buf@;
    proof {
        lemma_refs_push(before, LzssByte::Uncoded(b));
    }
    output.add_uncoded(b);
    proof {
        assert(output.buf@.drop_last() == before);
        assert(input.subrange(0, at + 1) =~= input.subrange(0, at).push(input[at]));
        assert forall|i: int| 0 <= i < output.buf@.len() implies token_ok(#[trigger] output.buf@[i], settings, method) by {
            if i < before.len() {
                assert(output.buf@[i] == before[i]);
            }
        }
    }
}

/// Writes the tokens for the cursor: the literals and the match that the
/// search finds, or one literal; returns how many input bytes they cover.
#[verifier::rlimit(100)]
fn encode_at(
    dict: &SlidingDict,
    compressed: &mut LzssPass,
    input: &[u8],
    settings: LzssSettings,
    method: VpkMethod,
    backend: LzssBackend,
) -> (r: usize)
    requires
        settings.wf(),
        input@.len() <= u32::MAX,
        dict.wf(input@, settings),
        dict.spec_remaining() > 0,
        old(compressed).wf(),
        old(compressed).buf@.len() <= dict.cur(),
        expand(old(compressed).buf@) == input@.subrange(0, dict.cur()),
        tokens_ok(old(compressed).buf@, settings, method),
        refs_ok(old(compressed).buf@),
    ensures
        1 <= r <= dict.held_ahead(),
        dict.cur() + r <= input@.len(),
        final(compressed).wf(),
        final(compressed).decompressed_size == old(compressed).decompressed_size,
        final(compressed).buf@.len() <= dict.cur() + r,
        expand(final(compressed).buf@) == input@.subrange(0, dict.cur() + r),
        tokens_ok(final(compressed).buf@, settings, method),
        refs_ok(final(compressed).buf@),
        lzss_from(input@, dict.cur(), settings, method, backend)
            == final(compressed).buf@.subrange(old(compressed).buf@.len() as int, final(compressed).buf@.len() as int)
            + lzss_from(input@, dict.cur() + r, settings, method, backend),
        final(compressed).buf@.len() >= old(compressed).buf@.len(),
        final(compressed).buf@.subrange(0, old(compressed).buf@.len() as int) == old(compressed).buf@,
{
    proof {
        dict.lemma_items(input@, settings);
    }
    let ghost b0 = compressed.buf@;
    let found = look_for_nearby_best_match(dict, &settings, backend, Ghost(input@));
    proof {
        lemma_lzss_step(input@, dict.cur(), settings, method, backend);
    }
    match found {
        LookAhead::Match(skipped, m) => {
            encode_match(dict, compressed, input, settings, method, skipped, m)
        },
        LookAhead::Uncoded => encode_literal(dict, compressed, input, settings, method),
    }
}

/// Writes the byte at the cursor as a literal.
#[verifier::rlimit(100)]
fn encode_literal(
    dict: &SlidingDict,
    compressed: &mut LzssPass,
    input: &[u8],
    settings: LzssSettings,
    method: VpkMethod,
) -> (r: usize)
    requires
        dict.wf(input@, settings),
        dict.spec_remaining() > 0,
        old(compressed).wf(),
        expand(old(compressed).buf@) == input@.subrange(0, dict.cur()),
        tokens_ok(old(compressed).buf@, settings, method),
        refs_ok(old(compressed).buf@),
    ensures
        r == 1,
        final(compressed).wf(),
        final(compressed).decompressed_size == old(compressed).decompressed_size,
        final(compressed).buf@.len() == old(compressed).buf@.len() + 1,
        final(compressed).buf@.subrange(0, old(compressed).buf@.len() as int) == old(compressed).buf@,
        final(compressed).buf@.subrange(old(compressed).buf@.len() as int, final(compressed).buf@.len() as int)
            == seq![LzssByte::Uncoded(input@[dict.cur()])],
        expand(final(compressed).buf@) == input@.subrange(0, dict.cur() + 1),
        tokens_ok(final(compressed).buf@, settings, method),
        refs_ok(final(compressed).buf@),
{
    proof {
        dict.lemma_items(input@, settings);
    }
    let ghost b0 = compressed.buf@;
    let b = dict.next_uncoded_byte(Ghost(input@), Ghost(settings));
    add_literal(compressed, b, Ghost(input@), Ghost(dict.cur()), Ghost(settings), Ghost(method));
    proof {
        assert(compressed.buf@.subrange(b0.len() as int, compressed.buf@.len() as int) =~= seq![LzssByte::Uncoded(b)]);
        assert(compressed.buf@.subrange(0, b0.len() as int) =~= b0);
    }
    1
}

/// Writes the `skipped` literals at the cursor and then the match `m`.
#[verifier::rlimit(100)]
fn encode_match(
    dict: &SlidingDict,
    compressed: &mut LzssPass,
    input: &[u8],
    settings: LzssSettings,
    method: VpkMethod,
    skipped: usize,
    m: MoveBack,
) -> (r: usize)
    requires
        settings.wf(),
        input@.len() <= u32::MAX,
        dict.wf(input@, settings),
        old(compressed).wf(),
        old(compressed).buf@.len() <= dict.cur(),
        expand(old(compressed).buf@) == input@.subrange(0, dict.cur()),
        tokens_ok(old(compressed).buf@, settings, method),
        refs_ok(old(compressed).buf@),
        skipped < MAX_AHEAD_CHECK,
        skipped + m.size <= dict.held_ahead(),
        valid_ref(input@, dict.cur() + skipped, m, settings),
    ensures
        r == skipped + m.size,
        final(compressed).wf(),
        final(compressed).decompressed_size == old(compressed).decompressed_size,
        final(compressed).buf@.len() >= old(compressed).buf@.len(),
        final(compressed).buf@.subrange(0, old(compressed).buf@.len() as int) == old(compressed).buf@,
        final(compressed).buf@.subrange(old(compressed).buf@.len() as int, final(compressed).buf@.len() as int)
            == literals(input@.subrange(dict.cur(), dict.cur() + skipped)) + seq![ref_token(m, method)],
        final(compressed).buf@.len() <= dict.cur() + r,
        expand(final(compressed).buf@) == input@.subrange(0, dict.cur() + r),
        tokens_ok(final(compressed).buf@, settings, method),
        refs_ok(final(compressed).buf@),
{
    proof {
        dict.lemma_items(input@, settings);
    }
    let ghost b0 = compressed.buf@;
    let buf = dict.slice();
    let c = dict.cursor();
    let skipped_bytes = slice_subrange(buf, c, c + skipped);
    assert(skipped_bytes@ =~= input@.subrange(dict.cur(), dict.cur() + skipped));
    let n = add_match(m, skipped_bytes, method, compressed, Ghost(input@), Ghost(dict.cur()), Ghost(settings));
    proof {
        assert(compressed.buf@.subrange(b0.len() as int, compressed.buf@.len() as int) =~= literals(skipped_bytes@) + seq![ref_token(m, method)]);
        assert(compressed.buf@.subrange(0, b0.len() as int) =~= b0);
    }
    n
}

/// When `all` is `b0` then `y`, `buf` extends `b0`, and `y` is what `buf`
/// added then `z`, then `all` is `buf` then `z`.
proof fn lemma_prefix_step(b0: Seq<LzssByte>, buf: Seq<LzssByte>, all: Seq<LzssByte>, y: Seq<LzssByte>, z: Seq<LzssByte>)
    requires
        buf.len() >= b0.len(),
        buf.subrange(0, b0.len() as int) == b0,
        all == b0 + y,
        y == buf.subrange(b0.len() as int, buf.len() as int) + z,
    ensures
        all == buf + z,
{
    let mid = buf.subrange(b0.len() as int, buf.len() as int);
    assert(buf =~= b0 + mid);
    assert(b0 + (mid + z) =~= buf + z);
}

/// Runs the LZSS pass over the whole input: tokens that expand back to it,
/// and the histograms of their widths. Fails when the input is longer than
/// `u32::MAX` bytes.
#[verifier::rlimit(100)]
pub fn compress_rdr(input: &[u8], settings: LzssSettings, method: VpkMethod, backend: LzssBackend) -> (r:
    Result<LzssPass, VpkError>)
    requires
        settings.wf(),
    ensures
        input@.len() > u32::MAX ==> r == Err::<LzssPass, VpkError>(VpkError::InputTooBig),
        input@.len() <= u32::MAX ==> (r matches Ok(p) && {
            &&& p.wf()
            &&& p.decompressed_size == Some(input@.len() as u32)
            &&& expand(p.buf@) == input@
            &&& tokens_ok(p.buf@, settings, method)
            &&& refs_ok(p.buf@)
        }),
        (r matches Ok(p) ==> p.buf@ == lzss_from(input@, 0, settings, method, backend)),
{
    if input.len() > 0xFFFF_FFFF {
        return Err(VpkError::InputTooBig);
    }
    let mut dict = SlidingDict::new(input, &settings);
    let mut compressed = LzssPass::new();
    proof {
        assert(input@.subrange(0, 0) =~= Seq::<u8>::empty());
        assert(Seq::<LzssByte>::empty() + lzss_from(input@, 0, settings, method, backend) =~= lzss_from(input@, 0, settings, method, backend));
    }
    while dict.remaining(Ghost(input@), Ghost(settings)) > 0
        invariant
            settings.wf(),
            input@.len() <= u32::MAX,
            dict.wf(input@, settings),
            compressed.wf(),
            compressed.decompressed_size is None,
            compressed.buf@.len() <= dict.cur(),
            expand(compressed.buf@) == input@.subrange(0, dict.cur()),
            tokens_ok(compressed.buf@, settings, method),
            refs_ok(compressed.buf@),
            lzss_from(input@, 0, settings, method, backend) == compressed.buf@ + lzss_from(
                input@,
                dict.cur(),
                settings,
                method, backend,
),
        decreases input@.len() - dict.cur(),
    {
        proof {
            dict.lemma_items(input@, settings);
        }
        let ghost b0 = compressed.buf@;
        let ghost c0 = dict.cur();
        let bytes_matched = encode_at(&dict, &mut compressed, input, settings, method, backend);
        proof {
            if true {
                lemma_prefix_step(
                    b0,
                    compressed.buf@,
                    lzss_from(input@, 0, settings, method, backend),
                    lzss_from(input@, c0, settings, method, backend),
                    lzss_from(input@, c0 + bytes_matched, settings, method, backend),
                );
            }
        }
        dict.advance_by(bytes_matched, input, Ghost(settings));
    }
    proof {
        assert(input@.subrange(0, input@.len() as int) =~= input@);
        assert(compressed.buf@ + Seq::<LzssByte>::empty() =~= compressed.buf@);
        lemma_lzss_end(input@, dict.cur(), settings, method, backend);
    }
    compressed.decompressed_size = Some(input.len() as u32);
    Ok(compressed)
}

/// A stream counts each width at least as often as one of its tokens does.
pub proof fn lemma_count_includes(toks: Seq<LzssByte>, i: int, w: nat, offsets: bool)
    requires
        0 <= i < toks.len(),
    ensures
        count_widths(toks, w, offsets) >= if offsets {
            offset_hits(toks[i], w)
        } else {
            length_hits(toks[i], w)
        },
    decreases toks.len(),
{
    if i < toks.len() - 1 {
        lemma_count_includes(toks.drop_last(), i, w, offsets);
        assert(toks.drop_last()[i] == toks[i]);
    }
}

/// Every back-reference of a pass has a length at most `length_bits` wide
/// and an offset at most `offset_bits` wide, and the widths of the values
/// it writes occur in the histograms.
#[verifier::rlimit(100)]
pub proof fn lemma_back_ref_widths(pass: LzssPass, settings: LzssSettings, method: VpkMethod, i: int)
    requires
        settings.wf(),
        pass.wf(),
        tokens_ok(pass.buf@, settings, method),
        0 <= i < pass.buf@.len(),
    ensures
        match pass.buf@[i] {
            LzssByte::Uncoded(_) => true,
            LzssByte::Encoded(l, o) => {
                &&& bit_width(l as nat) <= settings.length_bits
                &&& bit_width(o as nat) <= settings.offset_bits
                &&& pass.size_bitfreq@[bit_width(l as nat) as int] >= 1
                &&& pass.moveback_bitfreq@[bit_width(o as nat) as int] >= 1
            },
            LzssByte::EncTwoSample(l, ts) => {
                &&& bit_width(l as nat) <= settings.length_bits
                &&& bit_width(ts.spec_offset() as nat) <= settings.offset_bits
                &&& pass.size_bitfreq@[bit_width(l as nat) as int] >= 1
                &&& match ts {
                    TwoSample::One(q) => pass.moveback_bitfreq@[bit_width(q as nat) as int] >= 1,
                    TwoSample::Two { first, second } => {
                        &&& pass.moveback_bitfreq@[bit_width(first as nat) as int] >= 1
                        &&& pass.moveback_bitfreq@[bit_width(second as nat) as int] >= 1
                    },
                }
            },
        },
{
    let t = pass.buf@[i];
    assert(token_ok(t, settings, method));
    lemma_settings_bounds(settings);
    vstd::arithmetic::power2::lemma2_to64();
    match t {
        LzssByte::Uncoded(_) => {},
        LzssByte::Encoded(l, o) => {
            lemma_bit_width_le(l as nat, settings.length_bits as nat);
            lemma_bit_width_le(o as nat, settings.offset_bits as nat);
            lemma_count_includes(pass.buf@, i, bit_width(l as nat), false);
            lemma_count_includes(pass.buf@, i, bit_width(o as nat), true);
        },
        LzssByte::EncTwoSample(l, ts) => {
            lemma_bit_width_le(l as nat, settings.length_bits as nat);
            lemma_bit_width_le(ts.spec_offset() as nat, settings.offset_bits as nat);
            lemma_count_includes(pass.buf@, i, bit_width(l as nat), false);
            match ts {
                TwoSample::One(q) => {
                    lemma_bit_width_le(q as nat, 32);
                    lemma_count_includes(pass.buf@, i, bit_width(q as nat), true);
                },
                TwoSample::Two { first, second } => {
                    lemma_bit_width_le(first as nat, 32);
                    lemma_bit_width_le(second as nat, 32);
                    lemma_count_includes(pass.buf@, i, bit_width(first as nat), true);
                    lemma_count_includes(pass.buf@, i, bit_width(second as nat), true);
                },
            }
        },
    }
}

/// A pass of literals only has empty histograms.
pub proof fn lemma_literal_pass_empty(pass: LzssPass)
    requires
        pass.wf(),
        forall|i: int| 0 <= i < pass.buf@.len() ==> (#[trigger] pass.buf@[i]) is Uncoded,
    ensures
        forall|w: int| 0 <= w < HIST_LEN ==> #[trigger] pass.size_bitfreq@[w] == 0,
        forall|w: int| 0 <= w < HIST_LEN ==> #[trigger] pass.moveback_bitfreq@[w] == 0,
{
    assert forall|w: int| 0 <= w < HIST_LEN implies #[trigger] pass.size_bitfreq@[w] == 0 by {
        lemma_literal_counts(pass.buf@, w as nat, false);
    }
    assert forall|w: int| 0 <= w < HIST_LEN implies #[trigger] pass.moveback_bitfreq@[w] == 0 by {
        lemma_literal_counts(pass.buf@, w as nat, true);
    }
}

proof fn lemma_literal_counts(toks: Seq<LzssByte>, w: nat, offsets: bool)
    requires
        forall|i: int| 0 <= i < toks.len() ==> (#[trigger] toks[i]) is Uncoded,
    ensures
        count_widths(toks, w, offsets) == 0,
    decreases toks.len(),
{
    if toks.len() > 0 {
        let init = toks.drop_last();
        assert forall|i: int| 0 <= i < init.len() implies (#[trigger] init[i]) is Uncoded by {
            assert(init[i] == toks[i]);
        }
        lemma_literal_counts(init, w, offsets);
        assert(toks[toks.len() - 1] is Uncoded);
    }
}

/// A histogram with an empty entry below `n` has fewer than `n` widths.
proof fn lemma_nonzero_below(h: Seq<u64>, n: int, i: int)
    requires
        0 <= i < n <= h.len(),
        h[i] == 0,
    ensures
        crate::encode::huffman::nonzero_count(h, n) <= n - 1,
    decreases n,
{
    lemma_nonzero_le(h, n - 1);
    if i < n - 1 {
        lemma_nonzero_below(h, n - 1, i);
    }
}

proof fn lemma_nonzero_le(h: Seq<u64>, n: int)
    ensures
        crate::encode::huffman::nonzero_count(h, n) <= if n < 0 {
            0
        } else {
            n
        },
    decreases n,
{
    if n > 0 {
        lemma_nonzero_le(h, n - 1);
    }
}

/// No token of an allowed stream has an offset value 32 bits wide when
/// offsets have at most 31 bits, nor a length 0 bits wide.
proof fn lemma_no_wide_values(toks: Seq<LzssByte>, settings: LzssSettings, method: VpkMethod)
    requires
        settings.wf(),
        settings.offset_bits <= 31,
        tokens_ok(toks, settings, method),
    ensures
        count_widths(toks, 32, true) == 0,
        count_widths(toks, 0, false) == 0,
    decreases toks.len(),
{
    if toks.len() > 0 {
        let init = toks.drop_last();
        assert forall|i: int| 0 <= i < init.len() implies token_ok(#[trigger] init[i], settings, method) by {
            assert(init[i] == toks[i]);
        }
        lemma_no_wide_values(init, settings, method);
        let t = toks.last();
        assert(token_ok(toks[toks.len() - 1], settings, method));
        vstd::arithmetic::power2::lemma2_to64();
        if settings.offset_bits < 31 {
            vstd::arithmetic::power2::lemma_pow2_strictly_increases(settings.offset_bits as nat, 31);
        }
        lemma_settings_bounds(settings);
        match t {
            LzssByte::Uncoded(_) => {},
            LzssByte::Encoded(l, o) => {
                lemma_bit_width_le(o as nat, 31);
            },
            LzssByte::EncTwoSample(l, ts) => {
                match ts {
                    TwoSample::One(q) => {
                        lemma_bit_width_le(q as nat, 31);
                    },
                    TwoSample::Two { first, second } => {
                        lemma_bit_width_le(first as nat, 31);
                        lemma_bit_width_le(second as nat, 31);
                    },
                }
            },
        }
    }
}

/// With offsets of at most 31 bits, each histogram of a pass has at most 32
/// widths that occur.
pub proof fn lemma_hist_widths(pass: LzssPass, settings: LzssSettings, method: VpkMethod)
    requires
        settings.wf(),
        settings.offset_bits <= 31,
        pass.wf(),
        tokens_ok(pass.buf@, settings, method),
    ensures
        crate::encode::huffman::nonzero_count(pass.moveback_bitfreq@, HIST_LEN as int) <= 32,
        crate::encode::huffman::nonzero_count(pass.size_bitfreq@, HIST_LEN as int) <= 32,
{
    lemma_no_wide_values(pass.buf@, settings, method);
    lemma_nonzero_below(pass.moveback_bitfreq@, HIST_LEN as int, 32);
    lemma_nonzero_below(pass.size_bitfreq@, HIST_LEN as int, 0);
}

} // verus!

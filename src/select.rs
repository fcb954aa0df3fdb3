//! Choosing the byte offsets that tell a set of keys apart.
use crate::bits::{bit_len, roughly_log_2};
use vstd::prelude::*;
use vstd::utf8::encode_utf8;

verus! {

/// How deep into a key the selector looks for discriminating offsets.
pub const MAX_KEY_SEARCH_LEN: usize = 32;

/// The bytes of a key.
pub open spec fn key_bytes(s: String) -> Seq<u8> {
    encode_utf8(s@)
}

/// The keys of a list of entries, as bytes.
pub open spec fn keys_of<T>(kv: Seq<(String, T)>) -> Seq<Seq<u8>> {
    Seq::new(kv.len(), |i: int| key_bytes(kv[i].0))
}

/// Byte `p` of a stored key. Past its end a key reads as `(p - len) mod 256`,
/// so that a key and its extensions differ somewhere past the shorter one's end.
pub open spec fn key_byte(k: Seq<u8>, p: int) -> u8 {
    if 0 <= p < k.len() {
        k[p]
    } else {
        ((p - k.len()) % 256) as u8
    }
}

/// `a` and `b` read the same at every offset of `ps`.
pub open spec fn agree_on(a: Seq<u8>, b: Seq<u8>, ps: Seq<usize>) -> bool {
    forall|t: int| 0 <= t < ps.len() ==> key_byte(a, ps[t] as int) == key_byte(b, ps[t] as int)
}

/// The offsets `ps` tell every pair of keys apart.
pub open spec fn distinguishes(keys: Seq<Seq<u8>>, ps: Seq<usize>) -> bool {
    forall|i: int, j: int|
        0 <= i < keys.len() && 0 <= j < keys.len() && i != j ==> !agree_on(
            keys[i],
            keys[j],
            ps,
        )
}

/// Among the first `n` keys, how many other than key `i` read like key `i` at `ps`.
pub open spec fn count_others(keys: Seq<Seq<u8>>, i: int, ps: Seq<usize>, n: int) -> nat
    decreases n,
{
    if n <= 0 {
        0
    } else {
        count_others(keys, i, ps, n - 1) + if n - 1 != i && agree_on(keys[n - 1], keys[i], ps) {
            1nat
        } else {
            0nat
        }
    }
}

/// What the first `n` keys still cost once `ps` is scanned: each key adds the
/// bit length of the number of other keys that it cannot be told apart from.
pub open spec fn score_sum(keys: Seq<Seq<u8>>, ps: Seq<usize>, n: int) -> nat
    decreases n,
{
    if n <= 0 {
        0
    } else {
        score_sum(keys, ps, n - 1) + bit_len(count_others(keys, n - 1, ps, keys.len() as int))
    }
}

/// The score of adding offset `c` to `chosen`; an offset already chosen scores
/// the largest value a score can hold, so that it is never picked again.
pub open spec fn candidate_score(keys: Seq<Seq<u8>>, chosen: Seq<usize>, c: usize) -> int {
    if chosen.contains(c) {
        u128::MAX as int
    } else {
        score_sum(keys, chosen.push(c), keys.len() as int) as int
    }
}

/// Index of the first smallest value among `s[0..n]`.
pub open spec fn first_min(s: Seq<int>, n: int) -> int
    decreases n,
{
    if n <= 1 {
        0
    } else {
        let b = first_min(s, n - 1);
        if s[n - 1] < s[b] {
            n - 1
        } else {
            b
        }
    }
}

/// The scores of every candidate offset below `max_len`.
pub open spec fn scores(keys: Seq<Seq<u8>>, chosen: Seq<usize>, max_len: nat) -> Seq<int> {
    Seq::new(max_len, |c: int| candidate_score(keys, chosen, c as usize))
}

/// The greedy selection: at most `rounds` times, append the best-scoring
/// candidate below `max_len`; succeed as soon as the appended one scores zero.
pub open spec fn greedy(keys: Seq<Seq<u8>>, max_len: nat, chosen: Seq<usize>, rounds: nat) -> Option<
    Seq<usize>,
>
    decreases rounds,
{
    if rounds == 0 || max_len == 0 {
        None
    } else {
        let sc = scores(keys, chosen, max_len);
        let b = first_min(sc, max_len as int);
        let next = chosen.push(b as usize);
        if sc[b] == 0 {
            Some(next)
        } else {
            greedy(keys, max_len, next, (rounds - 1) as nat)
        }
    }
}

/// Length of the longest key, capped at the search depth.
pub open spec fn search_len(keys: Seq<Seq<u8>>, n: int) -> nat
    decreases n,
{
    if n <= 0 {
        0
    } else {
        let m = search_len(keys, n - 1);
        let l = if keys[n - 1].len() < MAX_KEY_SEARCH_LEN {
            keys[n - 1].len()
        } else {
            MAX_KEY_SEARCH_LEN as nat
        };
        if l > m {
            l
        } else {
            m
        }
    }
}

/// The first smallest value lies within `s[0..n]`.
pub proof fn lemma_first_min_in_range(s: Seq<int>, n: int)
    requires
        1 <= n,
    ensures
        0 <= first_min(s, n) < n,
    decreases n,
{
    if n > 1 {
        lemma_first_min_in_range(s, n - 1);
    }
}

/// Where the first `m` keys add nothing to the count of key `i`, none of them
/// other than key `i` reads like it.
proof fn lemma_count_zero(keys: Seq<Seq<u8>>, i: int, ps: Seq<usize>, m: int)
    requires
        count_others(keys, i, ps, m) == 0,
    ensures
        forall|j: int| 0 <= j < m && j != i ==> !agree_on(keys[j], keys[i], ps),
    decreases m,
{
    if m > 0 {
        lemma_count_zero(keys, i, ps, m - 1);
    }
}

/// Where the first `n` keys score zero, each of them reads unlike every other key.
proof fn lemma_score_zero(keys: Seq<Seq<u8>>, ps: Seq<usize>, n: int)
    requires
        score_sum(keys, ps, n) == 0,
        n <= keys.len(),
    ensures
        forall|i: int, j: int|
            0 <= i < n && 0 <= j < keys.len() && j != i ==> !agree_on(keys[j], keys[i], ps),
    decreases n,
{
    if n > 0 {
        lemma_score_zero(keys, ps, n - 1);
        let c = count_others(keys, n - 1, ps, keys.len() as int);
        assert(c == 0) by {
            if c > 0 {
                assert(bit_len(c) == 1 + bit_len(c / 2));
            }
        }
        lemma_count_zero(keys, n - 1, ps, keys.len() as int);
    }
}

/// A list of offsets that scores zero tells all keys apart.
pub proof fn lemma_zero_score_distinguishes(keys: Seq<Seq<u8>>, ps: Seq<usize>)
    requires
        score_sum(keys, ps, keys.len() as int) == 0,
    ensures
        distinguishes(keys, ps),
{
    lemma_score_zero(keys, ps, keys.len() as int);
    assert forall|i: int, j: int|
        0 <= i < keys.len() && 0 <= j < keys.len() && i != j implies !agree_on(
        keys[i],
        keys[j],
        ps,
    ) by {
        assert(!agree_on(keys[i], keys[j], ps));
    }
}

/// What the greedy selection returns tells all keys apart, keeps the offsets
/// chosen before it, adds at least one and at most `rounds`, and stays below `max_len`.
pub proof fn lemma_greedy_sound(
    keys: Seq<Seq<u8>>,
    max_len: nat,
    chosen: Seq<usize>,
    rounds: nat,
)
    requires
        greedy(keys, max_len, chosen, rounds) is Some,
        forall|t: int| 0 <= t < chosen.len() ==> chosen[t] < max_len,
    ensures
        ({
            let ps = greedy(keys, max_len, chosen, rounds)->0;
            &&& distinguishes(keys, ps)
            &&& chosen.len() < ps.len() <= chosen.len() + rounds
            &&& forall|t: int| 0 <= t < ps.len() ==> ps[t] < max_len
        }),
    decreases rounds,
{
    let sc = scores(keys, chosen, max_len);
    let b = first_min(sc, max_len as int);
    lemma_first_min_in_range(sc, max_len as int);
    let next = chosen.push(b as usize);
    assert forall|t: int| 0 <= t < next.len() implies next[t] < max_len by {
        if t < chosen.len() {
            assert(next[t] == chosen[t]);
        }
    }
    if sc[b] == 0 {
        assert(candidate_score(keys, chosen, b as usize) == 0);
        lemma_zero_score_distinguishes(keys, next);
    } else {
        lemma_greedy_sound(keys, max_len, next, (rounds - 1) as nat);
    }
}

/// Length of the longest key, capped at the search depth.
pub fn search_len_exec<T>(kv: &Vec<(String, T)>) -> (r: usize)
    ensures
        r == search_len(keys_of(kv@), kv@.len() as int),
        r <= MAX_KEY_SEARCH_LEN,
{
    let ghost keys = keys_of(kv@);
    let mut m: usize = 0;
    let mut j: usize = 0;
    while j < kv.len()
        invariant
            j <= kv@.len(),
            keys == keys_of(kv@),
            m == search_len(keys, j as int),
            m <= MAX_KEY_SEARCH_LEN,
        decreases kv@.len() - j,
    {
        let k = bytes_at(kv, j);
        let l = if k.len() < MAX_KEY_SEARCH_LEN {
            k.len()
        } else {
            MAX_KEY_SEARCH_LEN
        };
        if l > m {
            m = l;
        }
        j = j + 1;
    }
    m
}

/// The bytes of the key of entry `j`.
pub(crate) fn bytes_at<'a, T>(kv: &'a Vec<(String, T)>, j: usize) -> (b: &'a [u8])
    requires
        j < kv@.len(),
    ensures
        b@ == key_bytes(kv@[j as int].0),
{
    kv[j].0.as_str().as_bytes()
}

/// Byte `p` of key `k`, padded past its end.
pub fn key_byte_at(k: &[u8], p: usize) -> (b: u8)
    ensures
        b == key_byte(k@, p as int),
{
    if p < k.len() {
        k[p]
    } else {
        ((p - k.len()) % 256) as u8
    }
}

/// Whether `a` and `b` read the same at every offset of `ps`.
pub fn agree_at(a: &[u8], b: &[u8], ps: &Vec<usize>) -> (r: bool)
    ensures
        r == agree_on(a@, b@, ps@),
{
    let mut t: usize = 0;
    let mut same = true;
    while t < ps.len()
        invariant
            t <= ps@.len(),
            same == (forall|u: int|
                0 <= u < t ==> key_byte(a@, ps@[u] as int) == key_byte(b@, ps@[u] as int)),
        decreases ps@.len() - t,
    {
        let p = ps[t];
        same = same && key_byte_at(a, p) == key_byte_at(b, p);
        t = t + 1;
    }
    same
}

/// How many keys other than key `i` read like key `i` at `ps`.
fn count_others_exec<T>(kv: &Vec<(String, T)>, i: usize, ps: &Vec<usize>) -> (r: usize)
    requires
        i < kv@.len(),
    ensures
        r == count_others(keys_of(kv@), i as int, ps@, kv@.len() as int),
        r <= kv@.len(),
{
    let ghost keys = keys_of(kv@);
    let k = bytes_at(kv, i);
    let mut n: usize = 0;
    let mut j: usize = 0;
    while j < kv.len()
        invariant
            j <= kv@.len(),
            k@ == keys[i as int],
            keys == keys_of(kv@),
            n == count_others(keys, i as int, ps@, j as int),
            n <= j,
        decreases kv@.len() - j,
    {
        let other = bytes_at(kv, j);
        if j != i && agree_at(other, k, ps) {
            n = n + 1;
        }
        j = j + 1;
    }
    n
}

/// The score of scanning `ps`, summed over all keys.
fn score_exec<T>(kv: &Vec<(String, T)>, ps: &Vec<usize>) -> (r: u128)
    ensures
        r == score_sum(keys_of(kv@), ps@, kv@.len() as int),
        r <= 64 * kv@.len(),
{
    let ghost keys = keys_of(kv@);
    let mut acc: u128 = 0;
    let mut i: usize = 0;
    while i < kv.len()
        invariant
            i <= kv@.len(),
            keys == keys_of(kv@),
            acc == score_sum(keys, ps@, i as int),
            acc <= 64 * i,
        decreases kv@.len() - i,
    {
        let others = count_others_exec(kv, i, ps);
        let cost = roughly_log_2(others);
        acc = acc + cost as u128;
        i = i + 1;
    }
    acc
}

/// Whether `c` occurs in `ps`.
fn contains_pos(ps: &Vec<usize>, c: usize) -> (r: bool)
    ensures
        r == ps@.contains(c),
{
    let mut t: usize = 0;
    while t < ps.len()
        invariant
            t <= ps@.len(),
            forall|u: int| 0 <= u < t ==> ps@[u] != c,
        decreases ps@.len() - t,
    {
        if ps[t] == c {
            return true;
        }
        t = t + 1;
    }
    false
}

/// Index of the first smallest score.
fn first_min_exec(s: &Vec<u128>) -> (r: usize)
    requires
        s@.len() >= 1,
    ensures
        r as int == first_min(s@.map_values(|x: u128| x as int), s@.len() as int),
        r < s@.len(),
{
    let ghost si = s@.map_values(|x: u128| x as int);
    let mut best: usize = 0;
    let mut c: usize = 1;
    while c < s.len()
        invariant
            1 <= c <= s@.len(),
            si == s@.map_values(|x: u128| x as int),
            best < c,
            best as int == first_min(si, c as int),
        decreases s@.len() - c,
    {
        if s[c] < s[best] {
            best = c;
        }
        c = c + 1;
    }
    best
}

/// Scores every candidate offset below `max_len` against the offsets chosen so far.
fn score_candidates<T>(kv: &Vec<(String, T)>, chosen: &mut Vec<usize>, max_len: usize) -> (r: Vec<
    u128,
>)
    ensures
        final(chosen)@ == old(chosen)@,
        r@.map_values(|x: u128| x as int) == scores(keys_of(kv@), old(chosen)@, max_len as nat),
{
    let ghost keys = keys_of(kv@);
    let ghost before = chosen@;
    let mut sc: Vec<u128> = Vec::new();
    let mut c: usize = 0;
    while c < max_len
        invariant
            c <= max_len,
            chosen@ == before,
            keys == keys_of(kv@),
            sc@.len() == c,
            forall|u: int|
                0 <= u < c ==> sc@[u] as int == candidate_score(keys, before, u as usize),
        decreases max_len - c,
    {
        if contains_pos(chosen, c) {
            sc.push(u128::MAX);
        } else {
            chosen.push(c);
            let s = score_exec(kv, chosen);
            chosen.pop();
            sc.push(s);
        }
        c = c + 1;
    }
    assert(sc@.map_values(|x: u128| x as int) =~= scores(keys, before, max_len as nat));
    sc
}

/// Greedily picks the offsets that a lookup scans: at most `rounds` of them,
/// each below `max_len`. `None` when the keys are still not all told apart.
pub fn select_positions<T>(kv: &Vec<(String, T)>, max_len: usize, rounds: usize) -> (r: Option<
    Vec<usize>,
>)
    ensures
        match r {
            Some(ps) => greedy(keys_of(kv@), max_len as nat, Seq::empty(), rounds as nat) == Some(
                ps@,
            ),
            None => greedy(keys_of(kv@), max_len as nat, Seq::empty(), rounds as nat) is None,
        },
{
    let ghost keys = keys_of(kv@);
    if max_len == 0 {
        return None;
    }
    let mut chosen: Vec<usize> = Vec::new();
    let mut round: usize = 0;
    while round < rounds
        invariant
            max_len > 0,
            round <= rounds,
            keys == keys_of(kv@),
            greedy(keys, max_len as nat, chosen@, (rounds - round) as nat) == greedy(
                keys,
                max_len as nat,
                Seq::empty(),
                rounds as nat,
            ),
        decreases rounds - round,
    {
        let ghost before = chosen@;
        let sc = score_candidates(kv, &mut chosen, max_len);
        let ghost sci = scores(keys, before, max_len as nat);
        assert(sc@.len() == sci.len());
        let best = first_min_exec(&sc);
        let done = sc[best] == 0;
        proof {
            assert(sc@.map_values(|x: u128| x as int)[best as int] == sc@[best as int] as int);
            assert(sci[best as int] == sc@[best as int] as int);
        }
        chosen.push(best);
        if done {
            return Some(chosen);
        }
        round = round + 1;
    }
    None
}

} // verus!

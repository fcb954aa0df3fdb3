//! The map: its layout, how it is built from a list of entries, and lookup.
use crate::select::{
    agree_on, bytes_at, distinguishes, greedy, key_byte, key_byte_at, key_bytes, keys_of,
    lemma_greedy_sound, search_len, search_len_exec, select_positions, MAX_KEY_SEARCH_LEN,
};
use vstd::arithmetic::div_mod::{lemma_fundamental_div_mod, lemma_hoist_over_denominator};
use vstd::prelude::*;
use vstd::std_specs::iter::IteratorSpec;
use vstd::utf8::encode_utf8;

verus! {

/// Why a list of entries could not be turned into a map.
#[derive(Debug, Clone, Copy, PartialEq, Eq, Structural)]
pub enum BuildError {
    /// No entries were given.
    EmptyInput,
    /// More entries than `MAX_LANES * LANE_SIZE` were given.
    CapacityExceeded,
    /// No list of offsets within the search depth and the scan budget tells all keys apart.
    Unsolvable,
}

impl BuildError {
    /// A sentence describing the error.
    pub fn message(&self) -> (r: &'static str)
        ensures
            *self == BuildError::EmptyInput ==> r@ == "Empty map not supported"@,
            *self == BuildError::CapacityExceeded ==> r@
                == "Too many keys to perform even a single scan"@,
            *self == BuildError::Unsolvable ==> r@
                == "Unable to 'solve' with a sufficiently small number of scans"@,
    {
        match self {
            BuildError::EmptyInput => "Empty map not supported",
            BuildError::CapacityExceeded => "Too many keys to perform even a single scan",
            BuildError::Unsolvable => "Unable to 'solve' with a sufficiently small number of scans",
        }
    }
}

/// Byte `p` of a query as a lookup reads it. Past its end, and wherever it holds
/// a zero byte, the query reads as `(p - len) mod 256`: a zero byte is taken to
/// mean that the query has ended.
pub open spec fn query_byte(q: Seq<u8>, p: int) -> u8 {
    if 0 <= p < q.len() && q[p] != 0 {
        q[p]
    } else {
        ((p - q.len()) % 256) as u8
    }
}

/// `s` holds no zero byte.
pub open spec fn no_zero_byte(s: Seq<u8>) -> bool {
    forall|i: int| 0 <= i < s.len() ==> s[i] != 0
}

/// Number of groups of `w` slots needed for `n` entries.
pub open spec fn group_count(n: int, w: int) -> int {
    (n + w - 1) / w
}

/// The groups cover all `n` entries, and each of them starts at an entry.
pub proof fn lemma_groups(n: int, w: int)
    requires
        1 <= w,
        0 <= n,
    ensures
        n <= group_count(n, w) * w < n + w,
        forall|g: int| 0 <= g < group_count(n, w) ==> #[trigger] (g * w) < n,
{
    let x = n + w - 1;
    lemma_fundamental_div_mod(x, w);
    let q = x / w;
    assert(q * w == w * q) by (nonlinear_arith);
    assert forall|g: int| 0 <= g < group_count(n, w) implies #[trigger] (g * w) < n by {
        assert(g * w < n) by (nonlinear_arith)
            requires
                g < q,
                q * w <= n + w - 1,
                w >= 1,
        ;
    }
}

/// Byte `p` of a query, as a lookup reads it.
pub fn query_byte_at(q: &[u8], p: usize) -> (b: u8)
    ensures
        b == query_byte(q@, p as int),
{
    let c: u8 = if p < q.len() {
        q[p]
    } else {
        0
    };
    if c != 0 {
        c
    } else if p >= q.len() {
        ((p - q.len()) % 256) as u8
    } else {
        let back: usize = (q.len() - p) % 256;
        proof {
            let d = q@.len() - p;
            assert(((p - q@.len()) % 256) == (256 - d % 256) % 256) by (nonlinear_arith)
                requires
                    d > 0,
                    d == q@.len() - p,
            ;
        }
        ((256 - back) % 256) as u8
    }
}

/// How many of the `w` slots of group `g` hold one of `n` entries.
pub open spec fn slot_count(n: int, w: int, g: int) -> int {
    if n - g * w < w {
        n - g * w
    } else {
        w
    }
}

/// The byte that the plane of group `g` and offset `ps[t]` holds in slot `s`:
/// that offset's byte of the entry in the slot, or zero for an empty slot.
pub open spec fn layout_byte<T>(kv: Seq<(String, T)>, ps: Seq<usize>, w: int, g: int, t: int, s: int) -> u8 {
    let e = g * w + s;
    if e < kv.len() {
        key_byte(key_bytes(kv[e].0), ps[t] as int)
    } else {
        0
    }
}

/// One plane: offset `p` of the `cnt` entries from `start` on, then zeros up to `w` slots.
fn build_plane<T>(kv: &Vec<(String, T)>, p: usize, start: usize, cnt: usize, w: usize) -> (r: Vec<u8>)
    requires
        start + cnt <= kv@.len(),
        cnt <= w,
    ensures
        r@.len() == w,
        forall|s: int|
            0 <= s < w ==> r@[s] == if s < cnt {
                key_byte(key_bytes(kv@[start + s].0), p as int)
            } else {
                0
            },
{
    let len = kv.len();
    let mut v: Vec<u8> = Vec::new();
    let mut s: usize = 0;
    while s < w
        invariant
            start + cnt <= len,
            len == kv@.len(),
            cnt <= w,
            s <= w,
            v@.len() == s,
            forall|u: int|
                0 <= u < s ==> v@[u] == if u < cnt {
                    key_byte(key_bytes(kv@[start + u].0), p as int)
                } else {
                    0
                },
        decreases w - s,
    {
        if s < cnt {
            v.push(key_byte_at(bytes_at(kv, start + s), p));
        } else {
            v.push(0);
        }
        s = s + 1;
    }
    v
}

/// The planes of one group, one for each offset of `ps` in order.
fn build_group<T>(kv: &Vec<(String, T)>, ps: &Vec<usize>, start: usize, cnt: usize, w: usize) -> (r: Vec<Vec<u8>>)
    requires
        start + cnt <= kv@.len(),
        cnt <= w,
    ensures
        r@.len() == ps@.len(),
        forall|t: int| 0 <= t < ps@.len() ==> (#[trigger] r@[t])@.len() == w,
        forall|t: int, s: int|
            0 <= t < ps@.len() && 0 <= s < w ==> (#[trigger] r@[t]@[s]) == if s < cnt {
                key_byte(key_bytes(kv@[start + s].0), ps@[t] as int)
            } else {
                0
            },
{
    let mut planes: Vec<Vec<u8>> = Vec::new();
    let mut t: usize = 0;
    while t < ps.len()
        invariant
            start + cnt <= kv@.len(),
            cnt <= w,
            t <= ps@.len(),
            planes@.len() == t,
            forall|u: int| 0 <= u < t ==> (#[trigger] planes@[u])@.len() == w,
            forall|u: int, s: int|
                0 <= u < t && 0 <= s < w ==> (#[trigger] planes@[u]@[s]) == if s < cnt {
                    key_byte(key_bytes(kv@[start + s].0), ps@[u] as int)
                } else {
                    0
                },
        decreases ps@.len() - t,
    {
        let plane = build_plane(kv, ps[t], start, cnt, w);
        planes.push(plane);
        t = t + 1;
    }
    planes
}

/// The planes of every group, and how many slots of each group hold an entry.
fn build_layout<T>(kv: &Vec<(String, T)>, ps: &Vec<usize>, w: usize, groups: usize) -> (r: (
    Vec<Vec<Vec<u8>>>,
    Vec<usize>,
))
    requires
        1 <= w,
        groups == group_count(kv@.len() as int, w as int),
    ensures
        r.1@.len() == groups,
        forall|k: int| 0 <= k < groups ==> r.1@[k] as int == slot_count(kv@.len() as int, w as int, k),
        r.0@.len() == groups,
        forall|k: int| 0 <= k < groups ==> (#[trigger] r.0@[k])@.len() == ps@.len(),
        forall|k: int, t: int|
            0 <= k < groups && 0 <= t < ps@.len() ==> (#[trigger] r.0@[k]@[t])@.len() == w,
        forall|k: int, t: int, s: int|
            0 <= k < groups && 0 <= t < ps@.len() && 0 <= s < w ==> (#[trigger] r.0@[k]@[t]@[s])
                == layout_byte(kv@, ps@, w as int, k, t, s),
{
    let len = kv.len();
    let ghost n = len as int;
    proof {
        lemma_groups(n, w as int);
    }
    let mut indexes: Vec<Vec<Vec<u8>>> = Vec::new();
    let mut n_valid: Vec<usize> = Vec::new();
    let mut g: usize = 0;
    while g < groups
        invariant
            1 <= w,
            n == len,
            n == kv@.len(),
            groups == group_count(n, w as int),
            forall|h: int| 0 <= h < group_count(n, w as int) ==> #[trigger] (h * w) < n,
            g <= groups,
            n_valid@.len() == g,
            forall|k: int| 0 <= k < g ==> n_valid@[k] as int == slot_count(n, w as int, k),
            indexes@.len() == g,
            forall|k: int| 0 <= k < g ==> (#[trigger] indexes@[k])@.len() == ps@.len(),
            forall|k: int, t: int|
                0 <= k < g && 0 <= t < ps@.len() ==> (#[trigger] indexes@[k]@[t])@.len() == w,
            forall|k: int, t: int, s: int|
                0 <= k < g && 0 <= t < ps@.len() && 0 <= s < w ==> (#[trigger] indexes@[k]@[t]@[s])
                    == layout_byte(kv@, ps@, w as int, k, t, s),
        decreases groups - g,
    {
        assert((g as int) * (w as int) < n);
        let start = g * w;
        let rest = len - start;
        let cnt = if rest < w {
            rest
        } else {
            w
        };
        let planes = build_group(kv, ps, start, cnt, w);
        proof {
            assert forall|t: int, s: int|
                0 <= t < ps@.len() && 0 <= s < w implies (#[trigger] planes@[t]@[s])
                    == layout_byte(kv@, ps@, w as int, g as int, t, s) by {
                assert((start + s < n) == (s < cnt));
            }
        }
        indexes.push(planes);
        n_valid.push(cnt);
        proof {
            assert forall|k: int, t: int, s: int|
                0 <= k <= g && 0 <= t < ps@.len() && 0 <= s < w implies (#[trigger] indexes@[k]@[t]@[s])
                    == layout_byte(kv@, ps@, w as int, k, t, s) by {
                if k == g {
                    assert(indexes@[k] == planes);
                }
            }
        }
        g = g + 1;
    }
    (indexes, n_valid)
}

/// An immutable map from a small set of string keys to values.
///
/// Construction picks an ordered list of byte offsets at which every pair of
/// keys differs, within the first `MAX_KEY_SEARCH_LEN` bytes. The entries are
/// laid out in groups of `LANE_SIZE` slots; for each group and each offset the
/// map stores one plane: the byte of every slot's key at that offset. At most
/// `MAX_LANES` planes are stored, which bounds both the number of entries and
/// the number of offsets.
#[derive(Debug)]
pub struct SimdPerfectScanMap<T, const MAX_LANES: usize, const LANE_SIZE: usize> {
    key_vals: Vec<(String, T)>,
    n_lanes_of_entities: usize,
    n_chars: usize,
    char_positions: Vec<usize>,
    indexes: Vec<Vec<Vec<u8>>>,
    n_valid: Vec<usize>,
}

impl<T, const MAX_LANES: usize, const LANE_SIZE: usize> SimdPerfectScanMap<
    T,
    MAX_LANES,
    LANE_SIZE,
> {
    /// The entries, in the order they were given.
    pub closed spec fn entries(self) -> Seq<(String, T)> {
        self.key_vals@
    }

    /// The offsets that a lookup scans, in scan order.
    pub closed spec fn positions(self) -> Seq<usize> {
        self.char_positions@
    }

    /// The key of entry `i`, as characters.
    pub open spec fn key(self, i: int) -> Seq<char> {
        self.entries()[i].0@
    }

    /// The value of entry `i`.
    pub open spec fn value(self, i: int) -> T {
        self.entries()[i].1
    }

    /// Entry `i` reads like query `q` at every scanned offset.
    pub open spec fn scan_hits(self, q: Seq<u8>, i: int) -> bool {
        forall|t: int|
            0 <= t < self.positions().len() ==> key_byte(
                key_bytes(self.entries()[i].0),
                self.positions()[t] as int,
            ) == query_byte(q, self.positions()[t] as int)
    }

    /// Entry `i` is what a lookup of `q` finds: the scan selects it and its key is `q`.
    pub open spec fn finds(self, q: Seq<char>, i: int) -> bool {
        &&& 0 <= i < self.entries().len()
        &&& self.key(i) == q
        &&& self.scan_hits(encode_utf8(q), i)
    }

    /// What a lookup of `q` returns.
    pub open spec fn spec_get(self, q: Seq<char>) -> Option<T> {
        if exists|i: int| self.finds(q, i) {
            Some(self.value(choose|i: int| self.finds(q, i)))
        } else {
            None
        }
    }

    /// The byte that plane `(g, t)` holds in slot `s`.
    pub closed spec fn plane_byte(self, g: int, t: int, s: int) -> u8 {
        layout_byte(self.key_vals@, self.char_positions@, LANE_SIZE as int, g, t, s)
    }

    /// The layout agrees with the entries and the offsets tell all keys apart.
    pub closed spec fn wf(self) -> bool {
        let n = self.key_vals@.len() as int;
        let w = LANE_SIZE as int;
        let g = self.n_lanes_of_entities as int;
        let c = self.n_chars as int;
        &&& 1 <= w
        &&& 1 <= n <= MAX_LANES * w
        &&& g == group_count(n, w)
        &&& c == self.char_positions@.len()
        &&& 1 <= c
        &&& g * c <= MAX_LANES
        &&& forall|t: int| 0 <= t < c ==> self.char_positions@[t] < MAX_KEY_SEARCH_LEN
        &&& distinguishes(keys_of(self.key_vals@), self.char_positions@)
        &&& self.n_valid@.len() == g
        &&& forall|k: int| 0 <= k < g ==> self.n_valid@[k] as int == slot_count(n, w, k)
        &&& self.indexes@.len() == g
        &&& forall|k: int| 0 <= k < g ==> (#[trigger] self.indexes@[k])@.len() == c
        &&& forall|k: int, t: int|
            0 <= k < g && 0 <= t < c ==> (#[trigger] self.indexes@[k]@[t])@.len() == w
        &&& forall|k: int, t: int, s: int|
            0 <= k < g && 0 <= t < c && 0 <= s < w ==> (#[trigger] self.indexes@[k]@[t]@[s])
                == self.plane_byte(k, t, s)
    }

    /// What building from `kv` yields: the offsets that the map scans, or why it fails.
    pub open spec fn build_outcome(kv: Seq<(String, T)>) -> Result<Seq<usize>, BuildError> {
        let n = kv.len() as int;
        let keys = keys_of(kv);
        if n == 0 {
            Err(BuildError::EmptyInput)
        } else if n > MAX_LANES * LANE_SIZE {
            Err(BuildError::CapacityExceeded)
        } else {
            let rounds = MAX_LANES as int / group_count(n, LANE_SIZE as int);
            match greedy(keys, search_len(keys, n), Seq::empty(), rounds as nat) {
                Some(ps) => Ok(ps),
                None => Err(BuildError::Unsolvable),
            }
        }
    }

    /// Builds the map from `key_vals`, keeping their order.
    ///
    /// Fails with `EmptyInput` on no entries, with `CapacityExceeded` on more
    /// than `MAX_LANES * LANE_SIZE`, and with `Unsolvable` where the greedy
    /// selection finds no offsets that tell all keys apart within the first
    /// `MAX_KEY_SEARCH_LEN` bytes, with at most `MAX_LANES` planes in all. On
    /// failure the entries are handed back as they came.
    pub fn try_from(key_vals: Vec<(String, T)>) -> (r: Result<Self, (BuildError, Vec<(String, T)>)>)
        ensures
            match r {
                Ok(m) => {
                    &&& m.wf()
                    &&& m.entries() == key_vals@
                    &&& Self::build_outcome(key_vals@) == Ok::<Seq<usize>, BuildError>(m.positions())
                },
                Err((e, back)) => {
                    &&& back@ == key_vals@
                    &&& Self::build_outcome(key_vals@) == Err::<Seq<usize>, BuildError>(e)
                },
            },
            key_vals@.len() == 0 ==> (r matches Err((e, _)) && e == BuildError::EmptyInput),
            key_vals@.len() > MAX_LANES * LANE_SIZE ==> (r matches Err((e, _)) && e
                == BuildError::CapacityExceeded),
            r is Ok <==> Self::build_outcome(key_vals@) is Ok,
    {
        let n = key_vals.len();
        if n == 0 {
            return Err((BuildError::EmptyInput, key_vals));
        }
        if LANE_SIZE == 0 {
            return Err((BuildError::CapacityExceeded, key_vals));
        }
        let groups = (n - 1) / LANE_SIZE + 1;
        proof {
            lemma_hoist_over_denominator(n - 1, 1, LANE_SIZE as nat);
            assert(groups == group_count(n as int, LANE_SIZE as int));
            lemma_groups(n as int, LANE_SIZE as int);
        }
        if groups > MAX_LANES {
            proof {
                assert(n > MAX_LANES * LANE_SIZE) by (nonlinear_arith)
                    requires
                        groups > MAX_LANES,
                        groups * LANE_SIZE < n + LANE_SIZE,
                ;
            }
            return Err((BuildError::CapacityExceeded, key_vals));
        }
        proof {
            assert(n <= MAX_LANES * LANE_SIZE) by (nonlinear_arith)
                requires
                    groups <= MAX_LANES,
                    n <= groups * LANE_SIZE,
            ;
        }
        let ghost keys = keys_of(key_vals@);
        let max_len = search_len_exec(&key_vals);
        let rounds = MAX_LANES / groups;
        let positions = match select_positions(&key_vals, max_len, rounds) {
            Some(ps) => ps,
            None => {
                return Err((BuildError::Unsolvable, key_vals));
            },
        };
        proof {
            lemma_greedy_sound(keys, max_len as nat, Seq::empty(), rounds as nat);
            lemma_fundamental_div_mod(MAX_LANES as int, groups as int);
            assert(groups * positions@.len() <= MAX_LANES) by (nonlinear_arith)
                requires
                    positions@.len() <= rounds,
                    rounds == MAX_LANES as int / groups as int,
                    MAX_LANES as int == groups * (MAX_LANES as int / groups as int) + MAX_LANES as int % groups as int,
                    MAX_LANES as int % groups as int >= 0,
                    groups >= 1,
            ;
        }
        let n_chars = positions.len();
        let (indexes, n_valid) = build_layout(&key_vals, &positions, LANE_SIZE, groups);
        let m = SimdPerfectScanMap::<T, MAX_LANES, LANE_SIZE> {
            key_vals,
            n_lanes_of_entities: groups,
            n_chars,
            char_positions: positions,
            indexes,
            n_valid,
        };
        assert(m.wf());
        Ok(m)
    }

    /// Two entries that the scan of one query both selects are the same entry.
    proof fn lemma_scan_selects_one(self, q: Seq<u8>, i: int, j: int)
        requires
            self.wf(),
            0 <= i < self.entries().len(),
            0 <= j < self.entries().len(),
            self.scan_hits(q, i),
            self.scan_hits(q, j),
        ensures
            i == j,
    {
        let keys = keys_of(self.key_vals@);
        let ps = self.char_positions@;
        if i != j {
            assert forall|t: int| 0 <= t < ps.len() implies key_byte(keys[i], ps[t] as int)
                == key_byte(keys[j], ps[t] as int) by {
                assert(keys[i] == key_bytes(self.key_vals@[i].0));
                assert(keys[j] == key_bytes(self.key_vals@[j].0));
                assert(key_byte(key_bytes(self.entries()[i].0), self.positions()[t] as int)
                    == query_byte(q, self.positions()[t] as int));
                assert(key_byte(key_bytes(self.entries()[j].0), self.positions()[t] as int)
                    == query_byte(q, self.positions()[t] as int));
            }
            assert(agree_on(keys[i], keys[j], ps));
        }
    }

    /// Whether slot `s` of group `g` holds an entry that reads like `q` at
    /// every scanned offset.
    fn slot_hits(&self, q: &[u8], g: usize, s: usize) -> (r: bool)
        requires
            self.wf(),
            g < self.n_lanes_of_entities,
            s < LANE_SIZE,
        ensures
            r == (g * LANE_SIZE + s < self.entries().len() && self.scan_hits(q@, g * LANE_SIZE + s)),
    {
        let ghost e = g * LANE_SIZE + s;
        let mut hit = s < self.n_valid[g];
        proof {
            let nv = self.n_valid@[g as int] as int;
            let n = self.key_vals@.len() as int;
            assert(nv == slot_count(n, LANE_SIZE as int, g as int));
            assert(hit == (e < n)) by (nonlinear_arith)
                requires
                    hit == (s < nv),
                    nv == if n - g * LANE_SIZE < LANE_SIZE {
                        n - g * LANE_SIZE
                    } else {
                        LANE_SIZE as int
                    },
                    e == g * LANE_SIZE + s,
                    s < LANE_SIZE,
            ;
        }
        let planes = &self.indexes[g];
        let mut t: usize = 0;
        while t < self.n_chars
            invariant
                self.wf(),
                g < self.n_lanes_of_entities,
                s < LANE_SIZE,
                planes == self.indexes@[g as int],
                t <= self.n_chars,
                e == g * LANE_SIZE + s,
                hit == (e < self.key_vals@.len() && forall|u: int|
                    0 <= u < t ==> key_byte(
                        key_bytes(self.key_vals@[e].0),
                        self.char_positions@[u] as int,
                    ) == query_byte(q@, self.char_positions@[u] as int)),
            decreases self.n_chars - t,
        {
            let b = query_byte_at(q, self.char_positions[t]);
            let stored = planes[t][s];
            proof {
                assert(stored == self.plane_byte(g as int, t as int, s as int));
            }
            hit = hit && stored == b;
            t = t + 1;
        }
        assert(self.positions() == self.char_positions@);
        assert(self.entries() == self.key_vals@);
        hit
    }

    /// The value of the entry whose key is `query`.
    ///
    /// Every group is scanned, every slot at every offset, whatever the query:
    /// the slots of a group are compared one by one where a vector unit would
    /// compare them at once, and no allocation is made. The one entry that
    /// survives the scan is then compared with the query in full.
    pub fn get(&self, query: &String) -> (r: Option<&T>)
        requires
            self.wf(),
        ensures
            match r {
                Some(v) => self.spec_get(query@) == Some(*v),
                None => self.spec_get(query@) is None,
            },
            no_zero_byte(encode_utf8(query@)) ==> (r is Some <==> exists|i: int|
                0 <= i < self.entries().len() && self.key(i) == query@),
    {
        let q = query.as_str().as_bytes();
        let ghost qb = encode_utf8(query@);
        assert(q@ == qb);
        let len = self.key_vals.len();
        let ghost n = len as int;
        proof {
            lemma_groups(n, LANE_SIZE as int);
        }
        let mut candidate: Option<usize> = None;
        let mut g: usize = 0;
        while g < self.n_lanes_of_entities
            invariant
                self.wf(),
                q@ == qb,
                n == self.key_vals@.len(),
                n == len,
                g <= self.n_lanes_of_entities,
                forall|h: int| 0 <= h < group_count(n, LANE_SIZE as int) ==> #[trigger] (h * LANE_SIZE) < n,
                match candidate {
                    Some(k) => k < n && self.scan_hits(qb, k as int),
                    None => forall|k: int|
                        0 <= k < g * LANE_SIZE && k < n ==> !self.scan_hits(qb, k),
                },
            decreases self.n_lanes_of_entities - g,
        {
            assert(self.n_lanes_of_entities as int == group_count(n, LANE_SIZE as int));
            assert((g as int) * (LANE_SIZE as int) < n);
            let start = g * LANE_SIZE;
            assert(start as int == (g as int) * (LANE_SIZE as int));
            let mut s: usize = 0;
            while s < LANE_SIZE
                invariant
                    self.wf(),
                    q@ == qb,
                    g < self.n_lanes_of_entities,
                    start as int == (g as int) * (LANE_SIZE as int),
                    n == self.key_vals@.len(),
                    n == len,
                    s <= LANE_SIZE,
                    match candidate {
                        Some(k) => k < self.key_vals@.len() && self.scan_hits(qb, k as int),
                        None => forall|k: int|
                            0 <= k < start + s && k < self.key_vals@.len() ==> !self.scan_hits(
                                qb,
                                k,
                            ),
                    },
                decreases LANE_SIZE - s,
            {
                if self.slot_hits(q, g, s) {
                    assert(start + s < n);
                    candidate = Some(start + s);
                }
                s = s + 1;
            }
            assert((g + 1) * LANE_SIZE == g * LANE_SIZE + LANE_SIZE) by (nonlinear_arith);
            g = g + 1;
        }
        proof {
            if no_zero_byte(qb) && exists|i: int|
                0 <= i < self.entries().len() && self.key(i) == query@ {
                let i = choose|i: int| 0 <= i < self.entries().len() && self.key(i) == query@;
                self.lemma_round_trip(i);
            }
        }
        match candidate {
            Some(k) => {
                if self.key_vals[k].0 == *query {
                    proof {
                        assert(self.finds(query@, k as int));
                        let c = choose|i: int| self.finds(query@, i);
                        self.lemma_scan_selects_one(qb, k as int, c);
                    }
                    Some(&self.key_vals[k].1)
                } else {
                    proof {
                        if exists|i: int| self.finds(query@, i) {
                            let c = choose|i: int| self.finds(query@, i);
                            self.lemma_scan_selects_one(qb, k as int, c);
                        }
                    }
                    None
                }
            },
            None => None,
        }
    }

    /// Every stored key whose bytes hold no zero byte is found by a lookup,
    /// and the lookup returns the value it was stored with.
    pub proof fn lemma_round_trip(self, i: int)
        requires
            self.wf(),
            0 <= i < self.entries().len(),
            no_zero_byte(key_bytes(self.entries()[i].0)),
        ensures
            self.spec_get(self.key(i)) == Some(self.value(i)),
    {
        let q = self.key(i);
        let kb = key_bytes(self.entries()[i].0);
        assert(encode_utf8(q) == kb);
        assert forall|t: int| 0 <= t < self.positions().len() implies key_byte(
            kb,
            self.positions()[t] as int,
        ) == query_byte(kb, self.positions()[t] as int) by {}
        assert(self.finds(q, i));
        let c = choose|j: int| self.finds(q, j);
        self.lemma_scan_selects_one(kb, i, c);
    }

    /// A lookup of a string that is no stored key finds nothing: neither a
    /// prefix nor an extension of a key, nor a string that reads like a key
    /// at every scanned offset.
    pub proof fn lemma_absent_key(self, q: Seq<char>)
        requires
            forall|i: int| 0 <= i < self.entries().len() ==> self.key(i) != q,
        ensures
            self.spec_get(q) is None,
    {
    }

    /// Two lookups of one query on one map return the same: what a lookup
    /// returns is a function of the map and the query alone.
    pub proof fn lemma_lookup_repeatable(self, q: Seq<char>, r1: Option<T>, r2: Option<T>)
        requires
            r1 == self.spec_get(q),
            r2 == self.spec_get(q),
        ensures
            r1 == r2,
    {
    }

    /// The entries of a map built from `kv` are exactly `kv`, in order, and no
    /// key occurs twice among them.
    pub proof fn lemma_entries_complete(self, kv: Seq<(String, T)>)
        requires
            self.wf(),
            self.entries() == kv,
        ensures
            self.entries().len() == kv.len(),
            forall|i: int| 0 <= i < kv.len() ==> self.entries()[i] == kv[i],
            forall|i: int, j: int|
                0 <= i < kv.len() && 0 <= j < kv.len() && i != j ==> self.key(i) != self.key(j),
    {
        let keys = keys_of(self.key_vals@);
        assert forall|i: int, j: int|
            0 <= i < kv.len() && 0 <= j < kv.len() && i != j implies self.key(i) != self.key(j) by {
            assert(!agree_on(keys[i], keys[j], self.char_positions@));
            assert(keys[i] == encode_utf8(self.key(i)));
            assert(keys[j] == encode_utf8(self.key(j)));
        }
    }

    /// The entries, in the order they were given.
    pub fn iter(&self) -> (r: std::slice::Iter<'_, (String, T)>)
        ensures
            r.remaining() == self.entries().as_ref(),
    {
        self.key_vals.iter()
    }

    /// The number of entries.
    pub fn len(&self) -> (r: usize)
        ensures
            r == self.entries().len(),
    {
        self.key_vals.len()
    }
}

} // verus!

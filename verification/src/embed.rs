//! Embedding a compiled script into a copy of the interpreter's binary, and
//! finding it again. The binary carries a pseudo-random marker pattern; the
//! script is appended after a second copy of that pattern.

use vstd::prelude::*;

verus! {

// ---------------------------------------------------------------------------
// The marker pattern

/// One step of the linear congruential generator (multiplier 1664525,
/// increment 1013904223, modulo 2^64).
pub open spec fn lcg(seed: u64) -> u64 {
    ((1664525 * seed + 1013904223) % 0x1_0000_0000_0000_0000) as u64
}

/// `k` steps of the generator from `seed`.
pub open spec fn lcg_iter(seed: u64, k: nat) -> u64
    decreases k,
{
    if k == 0 { seed } else { lcg(lcg_iter(seed, (k - 1) as nat)) }
}

/// Byte `i` (from the least significant) of `x`.
pub open spec fn le_byte(x: u64, i: int) -> u8 {
    ((x >> ((8 * i) as u64)) & 0xff) as u8
}

/// The `n` pseudo-random bytes made from `seed`: each state of the generator
/// gives its eight bytes, least significant first.
pub open spec fn random_bytes(seed: u64, n: nat) -> Seq<u8> {
    Seq::new(n, |i: int| le_byte(lcg_iter(seed, (i / 8 + 1) as nat), i % 8))
}

/// FNV-1a hash of `s`, folded from its start.
pub open spec fn fnv1a(s: Seq<u8>) -> u64
    decreases s.len(),
{
    if s.len() == 0 {
        0xcbf29ce484222325
    } else {
        ((((fnv1a(s.drop_last()) ^ (s.last() as u64)) as nat) * 0x100000001b3) % 0x1_0000_0000_0000_0000) as u64
    }
}

/// One step of the generator.
pub fn simple_compile_time_lcg(seed: u64) -> (r: u64)
    ensures
        r == lcg(seed),
{
    let a: u64 = 1664525;
    let c: u64 = 1013904223;
    let m = a.wrapping_mul(seed);
    let r = m.wrapping_add(c);
    assert(r == lcg(seed)) by (nonlinear_arith)
        requires
            m == ((a as nat * seed as nat) % 0x1_0000_0000_0000_0000) as u64,
            r == (if m + c > u64::MAX { (m + c - 0x1_0000_0000_0000_0000) as u64 } else { (m + c) as u64 }),
            a == 1664525,
            c == 1013904223,
    ;
    r
}

/// FNV-1a hash of some bytes (the seed of the marker pattern is the hash of
/// the source file's path).
pub fn str_fnv1a_hash(s: &[u8]) -> (h: u64)
    ensures
        h == fnv1a(s@),
{
    let mut hash: u64 = 0xcbf29ce484222325;
    let prime: u64 = 0x100000001b3;
    let mut i: usize = 0;
    while i < s.len()
        invariant
            i <= s@.len(),
            prime == 0x100000001b3,
            hash == fnv1a(s@.subrange(0, i as int)),
        decreases s@.len() - i,
    {
        proof {
            assert(s@.subrange(0, i + 1).drop_last() =~= s@.subrange(0, i as int));
        }
        hash = hash ^ (s[i] as u64);
        hash = hash.wrapping_mul(prime);
        i = i + 1;
    }
    assert(s@.subrange(0, s@.len() as int) =~= s@);
    hash
}

/// `n` pseudo-random bytes made from `seed`.
pub fn compile_time_random_bytes(n: usize, seed: u64) -> (bytes: Vec<u8>)
    ensures
        bytes@ == random_bytes(seed, n as nat),
{
    let mut bytes: Vec<u8> = Vec::new();
    let mut state = seed;
    let mut i: usize = 0;
    while i < n
        invariant
            i <= n,
            bytes@.len() == i,
            state == lcg_iter(seed, ((i + 7) / 8) as nat),
            forall|j: int| 0 <= j < i ==> #[trigger] bytes@[j] == le_byte(lcg_iter(seed, (j / 8 + 1) as nat), j % 8),
        decreases n - i,
    {
        if i % 8 == 0 {
            state = simple_compile_time_lcg(state);
        }
        let byte_idx = i % 8;
        let b = ((state >> ((8 * byte_idx) as u64)) & 0xff) as u8;
        proof {
            assert((i + 7) / 8 == (if i % 8 == 0 { (i / 8) as int } else { i / 8 + 1 }));
            assert(((i + 1 + 7) / 8) as nat == (i / 8 + 1) as nat);
        }
        bytes.push(b);
        i = i + 1;
    }
    assert(bytes@ =~= random_bytes(seed, n as nat));
    bytes
}

/// The marker the interpreter carries: the pattern and a flag, zero until the
/// binary holds an embedded script.
pub struct Marker {
    pub magic_pattern: Vec<u8>,
    pub is_embedded: u8,
}

/// A marker whose pattern is the 512 pseudo-random bytes made from `seed`.
pub fn new_marker(seed: u64) -> (m: Marker)
    ensures
        m.magic_pattern@ == random_bytes(seed, 512),
        m.is_embedded == 0,
{
    Marker { magic_pattern: compile_time_random_bytes(512, seed), is_embedded: 0 }
}

// ---------------------------------------------------------------------------
// Searching for the pattern

/// `n` stands at position `i` of `h`.
pub open spec fn matches_at(h: Seq<u8>, n: Seq<u8>, i: int) -> bool {
    &&& 0 <= i
    &&& i + n.len() <= h.len()
    &&& h.subrange(i, i + n.len()) == n
}

/// The first position of `n` in `h` from `i` on.
pub open spec fn search_from(h: Seq<u8>, n: Seq<u8>, i: int) -> Option<int>
    decreases h.len() - i,
{
    if i < 0 || i >= h.len() || i + n.len() > h.len() {
        None
    } else if matches_at(h, n, i) {
        Some(i)
    } else {
        search_from(h, n, i + 1)
    }
}

/// The first position of `n` in `h`.
pub open spec fn first_match(h: Seq<u8>, n: Seq<u8>) -> Option<int> {
    search_from(h, n, 0)
}

/// The first match is a match with none before it; no first match means no match.
pub proof fn lemma_search_from(h: Seq<u8>, n: Seq<u8>, i: int)
    requires
        0 <= i,
        n.len() > 0,
    ensures
        search_from(h, n, i) matches Some(p) ==> i <= p && matches_at(h, n, p)
            && forall|j: int| i <= j < p ==> !matches_at(h, n, j),
        search_from(h, n, i) is None ==> forall|j: int| i <= j ==> !matches_at(h, n, j),
    decreases h.len() - i,
{
    if i < h.len() && i + n.len() <= h.len() && !matches_at(h, n, i) {
        lemma_search_from(h, n, i + 1);
    }
}

/// A match with none before it is the first match.
pub proof fn lemma_first_match_is(h: Seq<u8>, n: Seq<u8>, p: int)
    requires
        n.len() > 0,
        matches_at(h, n, p),
        forall|j: int| 0 <= j < p ==> !matches_at(h, n, j),
    ensures
        first_match(h, n) == Some(p),
{
    lemma_search_from(h, n, 0);
    match first_match(h, n) {
        Some(q) => {
            if q < p {
                assert(!matches_at(h, n, q));
            } else if q > p {
                assert(!matches_at(h, n, p));
            }
        },
        None => {
            assert(!matches_at(h, n, p));
        },
    }
}

/// Whether `needle` stands at position `i` of `haystack`.
fn matches_here(haystack: &Vec<u8>, needle: &[u8; 512], i: usize) -> (r: bool)
    requires
        i + 512 <= haystack@.len(),
    ensures
        r == matches_at(haystack@, needle@, i as int),
{
    let n = haystack.len();
    let mut j: usize = 0;
    while j < 512
        invariant
            j <= 512,
            n == haystack@.len(),
            i + 512 <= haystack@.len(),
            needle@.len() == 512,
            forall|k: int| 0 <= k < j ==> haystack@[i + k] == needle@[k],
        decreases 512 - j,
    {
        if haystack[i + j] != needle[j] {
            assert(haystack@.subrange(i as int, i + 512)[j as int] != needle@[j as int]);
            return false;
        }
        j = j + 1;
    }
    assert(haystack@.subrange(i as int, i + 512) =~= needle@);
    true
}

/// The first position of `needle` in `haystack`.
pub fn find_position(haystack: &Vec<u8>, needle: &[u8; 512]) -> (r: Option<usize>)
    ensures
        r matches Some(p) ==> first_match(haystack@, needle@) == Some(p as int),
        r is None ==> first_match(haystack@, needle@) is None,
{
    proof {
        assert(needle@.len() == 512);
    }
    if haystack.len() < 512 {
        assert(first_match(haystack@, needle@) is None);
        return None;
    }
    let last = haystack.len() - 512;
    let mut i: usize = 0;
    while i <= last
        invariant
            last + 512 == haystack@.len(),
            haystack@.len() <= usize::MAX,
            needle@.len() == 512,
            i <= last + 1,
            search_from(haystack@, needle@, i as int) == first_match(haystack@, needle@),
        decreases last + 1 - i,
    {
        if matches_here(haystack, needle, i) {
            return Some(i);
        }
        i = i + 1;
    }
    None
}

// ---------------------------------------------------------------------------
// Embedding and finding a script

/// The binary `exe` with its flag byte (just after the first pattern) set,
/// followed by the pattern and the compiled script; `None` when `exe` holds no
/// pattern.
pub open spec fn spec_embed(exe: Seq<u8>, pattern: Seq<u8>, compiled: Seq<u8>) -> Option<Seq<u8>> {
    match first_match(exe, pattern) {
        None => None,
        Some(p) => Some(exe.update(p + pattern.len(), 1) + pattern + compiled),
    }
}

/// What follows the first copy of the pattern found after the first one.
pub open spec fn spec_extract(exe: Seq<u8>, pattern: Seq<u8>) -> Option<Seq<u8>> {
    match first_match(exe, pattern) {
        None => None,
        Some(p) => {
            let rest = exe.skip(p + pattern.len());
            match first_match(rest, pattern) {
                None => None,
                Some(q) => Some(rest.skip(q + pattern.len())),
            }
        },
    }
}

/// Embeds `compiled` into the binary `exe_contents` marked with `pattern`.
pub fn embed_script(exe_contents: Vec<u8>, pattern: &[u8; 512], compiled: Vec<u8>) -> (r: Option<Vec<u8>>)
    requires
        first_match(exe_contents@, pattern@) matches Some(p) ==> p + 512 < exe_contents@.len(),
    ensures
        r matches Some(v) ==> spec_embed(exe_contents@, pattern@, compiled@) == Some(v@),
        r is None ==> spec_embed(exe_contents@, pattern@, compiled@) is None,
{
    let mut exe_contents = exe_contents;
    let mut compiled = compiled;
    proof {
        assert(pattern@.len() == 512);
    }
    let n = exe_contents.len();
    match find_position(&exe_contents, pattern) {
        None => None,
        Some(pos) => {
            exe_contents.set(pos + 512, 1);
            let ghost flagged = exe_contents@;
            let mut i: usize = 0;
            while i < 512
                invariant
                    i <= 512,
                    pattern@.len() == 512,
                    exe_contents@ == flagged + pattern@.subrange(0, i as int),
                decreases 512 - i,
            {
                exe_contents.push(pattern[i]);
                proof {
                    assert(flagged + pattern@.subrange(0, i + 1) =~= (flagged + pattern@.subrange(0, i as int)).push(pattern@[i as int]));
                }
                i = i + 1;
            }
            assert(pattern@.subrange(0, 512) =~= pattern@);
            exe_contents.append(&mut compiled);
            Some(exe_contents)
        },
    }
}

/// Finds the compiled script embedded in the binary `exe_contents`.
pub fn embedded_script(exe_contents: &Vec<u8>, pattern: &[u8; 512]) -> (r: Option<Vec<u8>>)
    ensures
        r matches Some(v) ==> spec_extract(exe_contents@, pattern@) == Some(v@),
        r is None ==> spec_extract(exe_contents@, pattern@) is None,
{
    proof {
        assert(pattern@.len() == 512);
    }
    let n = exe_contents.len();
    match find_position(exe_contents, pattern) {
        None => None,
        Some(first) => {
            proof {
                lemma_search_from(exe_contents@, pattern@, 0);
            }
            let remaining = slice_to_vec(&exe_contents.as_slice()[first + 512..exe_contents.len()]);
            assert(remaining@ =~= exe_contents@.skip(first + 512));
            match find_position(&remaining, pattern) {
                None => None,
                Some(pos) => {
                    proof {
                        lemma_search_from(remaining@, pattern@, 0);
                    }
                    let script = slice_to_vec(&remaining.as_slice()[pos + 512..remaining.len()]);
                    assert(script@ =~= remaining@.skip(pos + 512));
                    Some(script)
                },
            }
        },
    }
}

/// A vector holding the bytes of a slice.
fn slice_to_vec(s: &[u8]) -> (v: Vec<u8>)
    ensures
        v@ == s@,
{
    let mut v: Vec<u8> = Vec::new();
    let mut i: usize = 0;
    while i < s.len()
        invariant
            i <= s@.len(),
            v@ == s@.subrange(0, i as int),
        decreases s@.len() - i,
    {
        v.push(s[i]);
        proof {
            assert(s@.subrange(0, i + 1) =~= s@.subrange(0, i as int).push(s@[i as int]));
        }
        i = i + 1;
    }
    assert(s@.subrange(0, s@.len() as int) =~= s@);
    v
}

/// Embedding then extracting gives the script back, provided that the pattern
/// does not start anywhere between the flag byte and the end of the given
/// binary in the embedded result (which would happen, for example, in a binary
/// that already holds an embedded script).
pub proof fn lemma_extract_embedded(exe: Seq<u8>, pattern: Seq<u8>, compiled: Seq<u8>)
    requires
        pattern.len() == 512,
        first_match(exe, pattern) matches Some(p) && p + 512 < exe.len(),
        spec_embed(exe, pattern, compiled) matches Some(out)
            && forall|j: int| first_match(exe, pattern)->0 + 512 <= j < exe.len() ==> !matches_at(out, pattern, j),
    ensures
        spec_extract(spec_embed(exe, pattern, compiled)->0, pattern) == Some(compiled),
{
    let p = first_match(exe, pattern)->0;
    let out = spec_embed(exe, pattern, compiled)->0;
    lemma_search_from(exe, pattern, 0);
    assert(out.subrange(p, p + 512) =~= exe.subrange(p, p + 512));
    assert forall|j: int| 0 <= j < p implies !matches_at(out, pattern, j) by {
        assert(!matches_at(exe, pattern, j));
        assert(out.subrange(j, j + 512) =~= exe.subrange(j, j + 512));
    }
    lemma_first_match_is(out, pattern, p);
    let rest = out.skip(p + 512);
    let q = exe.len() - p - 512;
    assert(rest.subrange(q, q + 512) =~= pattern);
    assert forall|j: int| 0 <= j < q implies !matches_at(rest, pattern, j) by {
        assert(!matches_at(out, pattern, p + 512 + j));
        if matches_at(rest, pattern, j) {
            assert(out.subrange(p + 512 + j, p + 512 + j + 512) =~= rest.subrange(j, j + 512));
        }
    }
    lemma_first_match_is(rest, pattern, q);
    assert(rest.skip(q + 512) =~= compiled);
}

} // verus!

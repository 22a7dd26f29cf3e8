//! Operations of the language's `strings` module on text: splitting at a
//! separator, the first byte of a text, the text of one byte, and the lower
//! and upper case of a text.

use vstd::prelude::*;
use vstd::utf8::encode_utf8;
use crate::lexer::push_char;

verus! {

/// `sep` occurs in `s` at position `i`.
pub open spec fn occurs_at(s: Seq<char>, sep: Seq<char>, i: int) -> bool {
    0 <= i && i + sep.len() <= s.len() && s.subrange(i, i + sep.len()) == sep
}

/// The pieces of `s` from `start` on, cut at the occurrences of the
/// non-empty `sep` looked for from `i` on: the leftmost first, each search
/// going on after the occurrence found.
pub open spec fn split_from(s: Seq<char>, sep: Seq<char>, start: int, i: int) -> Seq<Seq<char>>
    decreases s.len() - i,
{
    if sep.len() == 0 || i < 0 || i + sep.len() > s.len() {
        seq![s.subrange(start, s.len() as int)]
    } else if occurs_at(s, sep, i) {
        seq![s.subrange(start, i)] + split_from(s, sep, i + sep.len(), i + sep.len())
    } else {
        split_from(s, sep, start, i + 1)
    }
}

/// The pieces of `s` separated by `sep`. An empty separator separates every
/// character, and the start and the end of the text.
pub open spec fn split_spec(s: Seq<char>, sep: Seq<char>) -> Seq<Seq<char>> {
    if sep.len() == 0 {
        seq![Seq::<char>::empty()] + Seq::new(s.len(), |k: int| seq![s[k]]) + seq![Seq::<char>::empty()]
    } else {
        split_from(s, sep, 0, 0)
    }
}

/// The pieces `ps` joined, with `sep` between each two of them.
pub open spec fn join(ps: Seq<Seq<char>>, sep: Seq<char>) -> Seq<char>
    decreases ps.len(),
{
    if ps.len() == 0 {
        Seq::empty()
    } else if ps.len() == 1 {
        ps[0]
    } else {
        ps[0] + sep + join(ps.drop_first(), sep)
    }
}

/// Joining two non-empty lists of pieces one after the other puts `sep`
/// between the two joins.
proof fn lemma_join_concat(a: Seq<Seq<char>>, b: Seq<Seq<char>>, sep: Seq<char>)
    requires
        a.len() > 0,
        b.len() > 0,
    ensures
        join(a + b, sep) == join(a, sep) + sep + join(b, sep),
    decreases a.len(),
{
    if a.len() == 1 {
        assert((a + b).drop_first() =~= b);
    } else {
        assert((a + b).drop_first() =~= a.drop_first() + b);
        lemma_join_concat(a.drop_first(), b, sep);
        assert(join(a + b, sep) =~= join(a, sep) + sep + join(b, sep));
    }
}

/// The pieces cut from `start` on, joined with the separator, give the text
/// from `start` on; there is always at least one piece.
proof fn lemma_split_from_join(s: Seq<char>, sep: Seq<char>, start: int, i: int)
    requires
        sep.len() > 0,
        0 <= start <= i <= s.len(),
    ensures
        split_from(s, sep, start, i).len() > 0,
        join(split_from(s, sep, start, i), sep) == s.subrange(start, s.len() as int),
    decreases s.len() - i,
{
    if i + sep.len() > s.len() {
    } else if occurs_at(s, sep, i) {
        let next = i + sep.len();
        lemma_split_from_join(s, sep, next, next);
        let rest = split_from(s, sep, next, next);
        lemma_join_concat(seq![s.subrange(start, i)], rest, sep);
        assert(s.subrange(start, s.len() as int) =~= s.subrange(start, i) + sep + s.subrange(next, s.len() as int));
    } else {
        lemma_split_from_join(s, sep, start, i + 1);
    }
}

/// One piece for each character of `s`, between two empty pieces, joined
/// with nothing between them, give `s`.
proof fn lemma_join_characters(s: Seq<char>)
    ensures
        join(
            seq![Seq::<char>::empty()] + Seq::new(s.len(), |k: int| seq![s[k]]) + seq![Seq::<char>::empty()],
            Seq::empty(),
        ) == s,
    decreases s.len(),
{
    let e = Seq::<char>::empty();
    let pieces = seq![e] + Seq::new(s.len(), |k: int| seq![s[k]]) + seq![e];
    if s.len() == 0 {
        assert(pieces =~= seq![e, e]);
        assert(pieces.drop_first() =~= seq![e]);
        assert(join(pieces.drop_first(), e) == e);
        assert(join(pieces, e) =~= s);
    } else {
        let t = s.drop_last();
        lemma_join_characters(t);
        let a = seq![e] + Seq::new(t.len(), |k: int| seq![t[k]]);
        let b = seq![seq![s.last()], e];
        assert(pieces =~= a + b);
        lemma_join_concat(a, b, e);
        assert(a + seq![e] =~= seq![e] + Seq::new(t.len(), |k: int| seq![t[k]]) + seq![e]);
        lemma_join_concat(a, seq![e], e);
        assert(join(seq![e], e) == e);
        assert(b.drop_first() =~= seq![e]);
        assert(join(b, e) =~= seq![s.last()]);
        assert(join(a, e) =~= t);
        assert(join(pieces, e) =~= s);
    }
}

/// The pieces `split` cuts, joined with the separator, give the text back.
pub proof fn lemma_split_join(s: Seq<char>, sep: Seq<char>)
    ensures
        join(split_spec(s, sep), sep) == s,
{
    if sep.len() == 0 {
        lemma_join_characters(s);
    } else {
        lemma_split_from_join(s, sep, 0, 0);
        assert(s.subrange(0, s.len() as int) =~= s);
    }
}

/// The texts of some strings.
pub open spec fn texts(v: Seq<String>) -> Seq<Seq<char>> {
    v.map_values(|p: String| p@)
}

/// The characters of `s`, in order.
fn chars_of(s: &str) -> (r: Vec<char>)
    ensures
        r@ == s@,
{
    let mut r: Vec<char> = Vec::new();
    for c in it: s.chars()
        invariant
            r@ == it.seq().subrange(0, it.index() as int),
    {
        r.push(c);
    }
    r
}

/// The text of the characters `cs[from..to]`.
fn text_between(cs: &Vec<char>, from: usize, to: usize) -> (r: String)
    requires
        from <= to <= cs@.len(),
    ensures
        r@ == cs@.subrange(from as int, to as int),
{
    let mut r = String::new();
    let mut k = from;
    while k < to
        invariant
            from <= k <= to <= cs@.len(),
            r@ == cs@.subrange(from as int, k as int),
        decreases to - k,
    {
        push_char(&mut r, cs[k]);
        assert(cs@.subrange(from as int, k + 1) =~= cs@.subrange(from as int, k as int).push(cs@[k as int]));
        k = k + 1;
    }
    r
}

/// Whether `sep` occurs in `cs` at `i`.
fn matches_at(cs: &Vec<char>, sep: &Vec<char>, i: usize) -> (r: bool)
    requires
        i + sep@.len() <= cs@.len(),
    ensures
        r == occurs_at(cs@, sep@, i as int),
{
    let n = cs.len();
    let mut j: usize = 0;
    while j < sep.len()
        invariant
            n == cs@.len(),
            j <= sep@.len(),
            i + sep@.len() <= cs@.len(),
            forall|k: int| 0 <= k < j ==> cs@[i + k] == sep@[k],
        decreases sep@.len() - j,
    {
        if cs[i + j] != sep[j] {
            assert(cs@.subrange(i as int, i + sep@.len())[j as int] != sep@[j as int]);
            return false;
        }
        j = j + 1;
    }
    assert(cs@.subrange(i as int, i + sep@.len()) =~= sep@);
    true
}

/// Splits `s` at each occurrence of `sep`, as `str::split` does with a text
/// pattern: the pieces between the occurrences, found from the left without
/// overlapping, the first and the last included even when empty. An empty
/// separator separates every character, and the start and the end of the
/// text.
pub fn split(s: &str, sep: &str) -> (r: Vec<String>)
    ensures
        texts(r@) == split_spec(s@, sep@),
{
    let cs = chars_of(s);
    let sc = chars_of(sep);
    let mut pieces: Vec<String> = Vec::new();
    if sc.len() == 0 {
        pieces.push(String::new());
        let mut k: usize = 0;
        while k < cs.len()
            invariant
                k <= cs@.len(),
                texts(pieces@) == seq![Seq::<char>::empty()] + Seq::new(k as nat, |m: int| seq![cs@[m]]),
            decreases cs@.len() - k,
        {
            let piece = text_between(&cs, k, k + 1);
            assert(piece@ =~= seq![cs@[k as int]]);
            let ghost before = texts(pieces@);
            pieces.push(piece);
            assert(texts(pieces@) =~= before.push(piece@));
            assert(texts(pieces@) =~= seq![Seq::<char>::empty()] + Seq::new((k + 1) as nat, |m: int| seq![cs@[m]]));
            k = k + 1;
        }
        pieces.push(String::new());
        assert(texts(pieces@) =~= split_spec(s@, sep@));
        return pieces;
    }
    let mut start: usize = 0;
    let mut i: usize = 0;
    while i <= cs.len() && sc.len() <= cs.len() - i
        invariant
            sc@.len() > 0,
            start <= i <= cs@.len(),
            texts(pieces@) + split_from(cs@, sc@, start as int, i as int) == split_from(cs@, sc@, 0, 0),
        decreases cs@.len() - i,
    {
        if matches_at(&cs, &sc, i) {
            let ghost old_start = start as int;
            let ghost old_i = i as int;
            let piece = text_between(&cs, start, i);
            let ghost before = texts(pieces@);
            pieces.push(piece);
            assert(texts(pieces@) =~= before.push(piece@));
            i = i + sc.len();
            start = i;
            let ghost rest = split_from(cs@, sc@, start as int, i as int);
            assert(split_from(cs@, sc@, old_start, old_i) == seq![piece@] + rest);
            assert(before.push(piece@) + rest =~= before + (seq![piece@] + rest));
        } else {
            i = i + 1;
        }
    }
    let piece = text_between(&cs, start, cs.len());
    let ghost before = texts(pieces@);
    pieces.push(piece);
    assert(texts(pieces@) =~= before.push(piece@));
    assert(texts(pieces@) =~= before + split_from(cs@, sc@, start as int, i as int));
    pieces
}

/// The first byte of the UTF-8 encoding of `s`, which is not empty.
pub fn ord(s: &str) -> (b: u8)
    requires
        s@.len() > 0,
    ensures
        b == encode_utf8(s@)[0],
{
    let bytes = s.as_bytes();
    assert(encode_utf8(s@).len() > 0);
    bytes[0]
}

/// The text of the single byte `b`: its character when `b` is ASCII, else
/// the replacement character U+FFFD, as the lossy reading of the one-byte
/// sequence gives.
pub fn chr(b: u8) -> (r: String)
    ensures
        r@ == if b < 128 { seq![b as char] } else { seq!['\u{FFFD}'] },
{
    let mut r = String::new();
    if b < 128 {
        push_char(&mut r, b as char);
    } else {
        push_char(&mut r, '\u{FFFD}');
    }
    r
}

/// What `str::to_lowercase` of std gives for the text `s`.
pub uninterp spec fn lowercase_of(s: Seq<char>) -> Seq<char>;

/// What `str::to_uppercase` of std gives for the text `s`.
pub uninterp spec fn uppercase_of(s: Seq<char>) -> Seq<char>;

/// `str::to_lowercase` of std: the lowercase equivalent of `s` (by the
/// Unicode lowercase mapping, the same for the same text). Only that the
/// result is a function of `s` is claimed; the mapping itself is left unsaid.
#[verifier::external_body]
fn std_to_lowercase(s: &str) -> (r: String)
    ensures
        r@ == lowercase_of(s@),
{
    s.to_lowercase()
}

/// `str::to_uppercase` of std: the uppercase equivalent of `s` (by the
/// Unicode uppercase mapping, the same for the same text). Only that the
/// result is a function of `s` is claimed; the mapping itself is left unsaid.
#[verifier::external_body]
fn std_to_uppercase(s: &str) -> (r: String)
    ensures
        r@ == uppercase_of(s@),
{
    s.to_uppercase()
}

/// The text `s` in lower case.
pub fn to_lower(s: &str) -> (r: String)
    ensures
        r@ == lowercase_of(s@),
{
    std_to_lowercase(s)
}

/// The text `s` in upper case.
pub fn to_upper(s: &str) -> (r: String)
    ensures
        r@ == uppercase_of(s@),
{
    std_to_uppercase(s)
}

} // verus!

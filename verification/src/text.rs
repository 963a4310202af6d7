//! Character-level helpers on strings.
use vstd::prelude::*;
use vstd::utf8::*;

verus! {

/// Appends one character to a string with `String::push`. The contract
/// claims what std documents: the characters afterwards are the old ones
/// followed by `c`.
#[verifier::external_body]
pub(crate) fn string_push(s: &mut String, c: char)
    ensures
        final(s)@ == old(s)@.push(c),
{
    s.push(c);
}

/// Removes the last character of a string, if any, with `String::pop`. The
/// contract claims what std documents: an empty string stays empty and gives
/// `None`; otherwise the last character is returned and taken off.
#[verifier::external_body]
pub(crate) fn string_pop(s: &mut String) -> (r: Option<char>)
    ensures
        old(s)@.len() == 0 ==> r is None && final(s)@ == old(s)@,
        old(s)@.len() > 0 ==> r == Some(old(s)@.last()) && final(s)@ == old(s)@.drop_last(),
{
    s.pop()
}

/// The characters of `s`, in order.
pub fn to_chars(s: &str) -> (r: Vec<char>)
    ensures
        r@ == s@,
{
    let mut r: Vec<char> = Vec::new();
    for c in it: s.chars()
        invariant
            r@ == it.seq().take(it.index() as int),
            it.seq() == s@,
    {
        r.push(c);
    }
    r
}

/// A string holding the characters `v[lo..hi]`.
pub fn from_chars_range(v: &Vec<char>, lo: usize, hi: usize) -> (r: String)
    requires
        lo <= hi <= v.len(),
    ensures
        r@ == v@.subrange(lo as int, hi as int),
{
    let mut r = String::new();
    let mut i = lo;
    while i < hi
        invariant
            lo <= i <= hi <= v.len(),
            r@ == v@.subrange(lo as int, i as int),
        decreases hi - i,
    {
        string_push(&mut r, v[i]);
        i += 1;
    }
    r
}


/// A character of the Unicode property `White_Space`, which is what
/// `char::is_whitespace` and `str::trim` go by.
pub open spec fn is_white_space(c: char) -> bool {
    ('\u{9}' <= c <= '\u{d}') || c == ' ' || c == '\u{85}' || c == '\u{a0}' || c == '\u{1680}'
        || ('\u{2000}' <= c <= '\u{200a}') || c == '\u{2028}' || c == '\u{2029}' || c
        == '\u{202f}' || c == '\u{205f}' || c == '\u{3000}'
}

/// What is stripped from the ends of a text.
pub enum Strip {
    /// Unicode white space.
    WhiteSpace,
    /// One given character.
    Char(char),
}

/// The characters that `k` strips.
pub open spec fn strips(k: Strip, c: char) -> bool {
    match k {
        Strip::WhiteSpace => is_white_space(c),
        Strip::Char(x) => c == x,
    }
}

/// `s` without the characters that `k` strips at its start.
pub open spec fn strip_start(s: Seq<char>, k: Strip) -> Seq<char>
    decreases s.len(),
{
    if s.len() > 0 && strips(k, s[0]) {
        strip_start(s.drop_first(), k)
    } else {
        s
    }
}

/// `s` without the characters that `k` strips at its end.
pub open spec fn strip_end(s: Seq<char>, k: Strip) -> Seq<char>
    decreases s.len(),
{
    if s.len() > 0 && strips(k, s.last()) {
        strip_end(s.drop_last(), k)
    } else {
        s
    }
}

/// `s` without the characters that `k` strips at either end, as `str::trim`
/// and `str::trim_matches` give it.
pub open spec fn strip_both(s: Seq<char>, k: Strip) -> Seq<char> {
    strip_end(strip_start(s, k), k)
}

/// Whether `k` strips `c`.
fn strips_exec(k: &Strip, c: char) -> (r: bool)
    ensures
        r == strips(*k, c),
{
    match k {
        Strip::WhiteSpace => ('\u{9}' <= c && c <= '\u{d}') || c == ' ' || c == '\u{85}' || c
            == '\u{a0}' || c == '\u{1680}' || ('\u{2000}' <= c && c <= '\u{200a}') || c
            == '\u{2028}' || c == '\u{2029}' || c == '\u{202f}' || c == '\u{205f}' || c
            == '\u{3000}',
        Strip::Char(x) => c == *x,
    }
}

/// `s` with the characters that `k` strips removed from both ends.
pub fn strip_str(s: &str, k: Strip) -> (r: String)
    ensures
        r@ == strip_both(s@, k),
{
    let v = to_chars(s);
    let len = v.len();
    let mut lo: usize = 0;
    assert(v@.subrange(0, len as int) =~= v@);
    while lo < len && strips_exec(&k, v[lo])
        invariant
            lo <= len == v@.len(),
            strip_start(v@, k) == strip_start(v@.subrange(lo as int, len as int), k),
        decreases len - lo,
    {
        assert(v@.subrange(lo as int, len as int).drop_first() =~= v@.subrange(
            lo + 1,
            len as int,
        ));
        lo += 1;
    }
    assert(strip_start(v@, k) == v@.subrange(lo as int, len as int));
    let mut hi: usize = len;
    while hi > lo && strips_exec(&k, v[hi - 1])
        invariant
            lo <= hi <= len == v@.len(),
            strip_end(v@.subrange(lo as int, len as int), k) == strip_end(
                v@.subrange(lo as int, hi as int),
                k,
            ),
        decreases hi - lo,
    {
        assert(v@.subrange(lo as int, hi as int).drop_last() =~= v@.subrange(
            lo as int,
            hi - 1,
        ));
        hi -= 1;
    }
    from_chars_range(&v, lo, hi)
}

/// `s` without any occurrence of `c`.
pub open spec fn remove_char(s: Seq<char>, c: char) -> Seq<char>
    decreases s.len(),
{
    if s.len() == 0 {
        s
    } else if s.last() == c {
        remove_char(s.drop_last(), c)
    } else {
        remove_char(s.drop_last(), c).push(s.last())
    }
}

/// `s` with every `c` taken out (`str::replace(c, "")`).
pub fn remove_char_str(s: &str, c: char) -> (r: String)
    ensures
        r@ == remove_char(s@, c),
{
    let v = to_chars(s);
    let mut r = String::new();
    let mut i: usize = 0;
    while i < v.len()
        invariant
            i <= v@.len(),
            v@ == s@,
            r@ == remove_char(v@.take(i as int), c),
        decreases v@.len() - i,
    {
        assert(v@.take(i + 1).drop_last() =~= v@.take(i as int));
        if v[i] != c {
            string_push(&mut r, v[i]);
        }
        i += 1;
    }
    assert(v@.take(i as int) =~= v@);
    r
}


/// In UTF-8, the position right after an ASCII byte starts a character or
/// ends the text.
pub proof fn lemma_boundary_after_ascii(b: Seq<u8>, i: int)
    requires
        valid_utf8(b),
        0 <= i < b.len(),
        b[i] < 0x80u8,
    ensures
        is_char_boundary(b, i + 1),
    decreases b.len(),
{
    let l = length_of_first_scalar(b);
    let p = pop_first_scalar(b);
    if i == 0 {
        assert(l == 1);
        assert(is_char_boundary(p, 0));
    } else {
        is_char_boundary_iff_not_is_continuation_byte(b, i);
        assert(i >= l);
        assert(p[i - l] == b[i]);
        lemma_boundary_after_ascii(p, i - l);
    }
}

/// A boundary of a text is a boundary of each prefix that reaches it.
pub proof fn lemma_boundary_in_prefix(b: Seq<u8>, j: int, i: int)
    requires
        valid_utf8(b),
        0 <= i <= j <= b.len(),
        is_char_boundary(b, j),
        is_char_boundary(b, i),
    ensures
        valid_utf8(b.subrange(0, j)),
        is_char_boundary(b.subrange(0, j), i),
{
    valid_utf8_split(b, j);
    let p = b.subrange(0, j);
    if i == j {
        is_char_boundary_start_end_of_seq(p);
    } else if i > 0 {
        is_char_boundary_iff_not_is_continuation_byte(b, i);
        is_char_boundary_iff_not_is_continuation_byte(p, i);
    }
}

/// The characters encoded by the bytes `lo..hi` of `s` (`&s[lo..hi]`).
pub fn byte_substr(s: &str, lo: usize, hi: usize) -> (r: String)
    requires
        lo <= hi <= encode_utf8(s@).len(),
        is_char_boundary(encode_utf8(s@), lo as int),
        is_char_boundary(encode_utf8(s@), hi as int),
    ensures
        r@ == decode_utf8(encode_utf8(s@).subrange(lo as int, hi as int)),
{
    let ghost b = encode_utf8(s@);
    proof {
        encode_utf8_valid_utf8(s@);
        lemma_boundary_in_prefix(b, hi as int, lo as int);
    }
    let (left, _) = s.split_at(hi);
    let (_, mid) = left.split_at(lo);
    proof {
        assert(encode_utf8(mid@) =~= b.subrange(lo as int, hi as int));
        encode_utf8_decode_utf8(mid@);
    }
    mid.to_owned()
}


/// `s` cut at every `sep` (as `str::split` cuts it; there is always at least
/// one part).
pub open spec fn split_char(s: Seq<char>, sep: char) -> Seq<Seq<char>>
    decreases s.len(),
{
    if s.len() == 0 {
        seq![seq![]]
    } else {
        let prev = split_char(s.drop_last(), sep);
        if s.last() == sep {
            prev.push(seq![])
        } else {
            prev.update(prev.len() - 1, prev.last().push(s.last()))
        }
    }
}

/// There is always a part to extend.
pub proof fn lemma_split_char_nonempty(s: Seq<char>, sep: char)
    ensures
        split_char(s, sep).len() >= 1,
    decreases s.len(),
{
    if s.len() > 0 {
        lemma_split_char_nonempty(s.drop_last(), sep);
    }
}

/// The views of a list of character vectors.
pub open spec fn char_vecs_view(v: Seq<Vec<char>>) -> Seq<Seq<char>> {
    v.map_values(|x: Vec<char>| x@)
}

/// The characters `v[lo..hi]`.
pub fn chars_range(v: &Vec<char>, lo: usize, hi: usize) -> (r: Vec<char>)
    requires
        lo <= hi <= v@.len(),
    ensures
        r@ == v@.subrange(lo as int, hi as int),
{
    let mut r: Vec<char> = Vec::new();
    let mut i = lo;
    while i < hi
        invariant
            lo <= i <= hi <= v@.len(),
            r@ == v@.subrange(lo as int, i as int),
        decreases hi - i,
    {
        r.push(v[i]);
        i += 1;
        assert(r@ =~= v@.subrange(lo as int, i as int));
    }
    r
}

/// `v` cut at every `sep`.
pub fn split_chars(v: &Vec<char>, sep: char) -> (r: Vec<Vec<char>>)
    ensures
        char_vecs_view(r@) == split_char(v@, sep),
{
    let len = v.len();
    let mut out: Vec<Vec<char>> = Vec::new();
    let mut start: usize = 0;
    let mut i: usize = 0;
    assert(v@.take(0) =~= Seq::<char>::empty());
    assert(v@.subrange(0, 0) =~= Seq::<char>::empty());
    assert(char_vecs_view(out@) =~= Seq::<Seq<char>>::empty());
    while i < len
        invariant
            len == v@.len(),
            start <= i <= len,
            split_char(v@.take(i as int), sep) == char_vecs_view(out@).push(
                v@.subrange(start as int, i as int),
            ),
        decreases len - i,
    {
        assert(v@.take(i + 1).drop_last() =~= v@.take(i as int));
        let ghost before = char_vecs_view(out@);
        if v[i] == sep {
            out.push(chars_range(v, start, i));
            assert(char_vecs_view(out@) =~= before.push(v@.subrange(start as int, i as int)));
            assert(v@.subrange(i + 1, i + 1) =~= Seq::<char>::empty());
            start = i + 1;
        } else {
            proof {
                lemma_split_char_nonempty(v@.take(i as int), sep);
                assert(v@.subrange(start as int, i as int).push(v@[i as int]) =~= v@.subrange(
                    start as int,
                    i + 1,
                ));
                assert(before.push(v@.subrange(start as int, i as int)).update(
                    before.len() as int,
                    v@.subrange(start as int, i + 1),
                ) =~= before.push(v@.subrange(start as int, i + 1)));
            }
        }
        i += 1;
    }
    let ghost before = char_vecs_view(out@);
    out.push(chars_range(v, start, len));
    assert(char_vecs_view(out@) =~= before.push(v@.subrange(start as int, len as int)));
    assert(v@.take(len as int) =~= v@);
    out
}

} // verus!

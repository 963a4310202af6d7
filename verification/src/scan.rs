//! Which files count as media: extension lists and the filter over a
//! directory listing.
use vstd::prelude::*;
use crate::path::{extension, extension_spec};
use crate::text::{
    from_chars_range, is_white_space, string_push, strip_both, strip_end, strip_start, strip_str,
    strips, to_chars, Strip,
};

verus! {

/// The extensions used when none are given.
pub const DEFAULT_EXTS: &'static str = "jpg,jpeg,png,heic,mp4,mov,m4v,avi";

/// `s` cut at every `,` (as `str::split(',')` cuts it; there is always at
/// least one part).
pub open spec fn split_commas(s: Seq<char>) -> Seq<Seq<char>>
    decreases s.len(),
{
    if s.len() == 0 {
        seq![seq![]]
    } else {
        let prev = split_commas(s.drop_last());
        if s.last() == ',' {
            prev.push(seq![])
        } else {
            prev.update(prev.len() - 1, prev.last().push(s.last()))
        }
    }
}

/// `c` in ASCII lower case (`char::to_ascii_lowercase`).
pub open spec fn ascii_lower_char(c: char) -> char {
    if 'A' <= c <= 'Z' {
        ((c as u32 + 32) as u8) as char
    } else {
        c
    }
}

/// `s` in ASCII lower case (`str::to_ascii_lowercase`).
pub open spec fn ascii_lower(s: Seq<char>) -> Seq<char> {
    s.map_values(|c: char| ascii_lower_char(c))
}

/// An extension as it is compared: without surrounding white space, in
/// ASCII lower case.
pub open spec fn normalize_ext(s: Seq<char>) -> Seq<char> {
    ascii_lower(strip_both(s, Strip::WhiteSpace))
}

/// `e` is one of the extensions listed, comma-separated, in `exts`.
pub open spec fn ext_listed(exts: Seq<char>, e: Seq<char>) -> bool {
    e.len() > 0 && exists|i: int|
        0 <= i < split_commas(exts).len() && #[trigger] normalize_ext(split_commas(exts)[i]) == e
}

/// The texts of `v` are all different.
pub open spec fn distinct_texts(v: Seq<String>) -> bool {
    forall|i: int, j: int| 0 <= i < j < v.len() ==> (#[trigger] v[i])@ != (#[trigger] v[j])@
}

/// `v` holds the text `e`.
pub open spec fn holds_text(v: Seq<String>, e: Seq<char>) -> bool {
    exists|i: int| 0 <= i < v.len() && (#[trigger] v[i])@ == e
}

/// There is always a part to extend.
proof fn lemma_split_nonempty(s: Seq<char>)
    ensures
        split_commas(s).len() >= 1,
    decreases s.len(),
{
    if s.len() > 0 {
        lemma_split_nonempty(s.drop_last());
    }
}

/// `s` in ASCII lower case.
pub fn to_ascii_lower(s: &str) -> (r: String)
    ensures
        r@ == ascii_lower(s@),
{
    let v = to_chars(s);
    let mut r = String::new();
    let mut i: usize = 0;
    while i < v.len()
        invariant
            i <= v@.len(),
            v@ == s@,
            r@ == ascii_lower(v@.take(i as int)),
        decreases v@.len() - i,
    {
        let c = v[i];
        let l = if 'A' <= c && c <= 'Z' {
            ((c as u32 + 32) as u8) as char
        } else {
            c
        };
        string_push(&mut r, l);
        i += 1;
        assert(r@ =~= ascii_lower(v@.take(i as int)));
    }
    assert(v@.take(i as int) =~= v@);
    r
}

/// Whether `v` holds the text of `e`.
pub fn contains_text(v: &Vec<String>, e: &String) -> (r: bool)
    ensures
        r == holds_text(v@, e@),
{
    let mut i: usize = 0;
    while i < v.len()
        invariant
            i <= v@.len(),
            forall|j: int| 0 <= j < i ==> (#[trigger] v@[j])@ != e@,
        decreases v@.len() - i,
    {
        if v[i] == *e {
            return true;
        }
        i += 1;
    }
    false
}

/// The set of extensions listed, comma-separated, in `exts`: each entry
/// without surrounding white space and in ASCII lower case, empty entries
/// left out, each extension once.
pub fn parse_exts(exts: &str) -> (r: Vec<String>)
    ensures
        distinct_texts(r@),
        forall|i: int| 0 <= i < r@.len() ==> ext_listed(exts@, (#[trigger] r@[i])@),
        forall|e: Seq<char>| ext_listed(exts@, e) ==> holds_text(r@, e),
{
    let v = to_chars(exts);
    let len = v.len();
    let mut out: Vec<String> = Vec::new();
    let mut start: usize = 0;
    let mut i: usize = 0;
    let ghost mut parts: Seq<Seq<char>> = seq![];
    assert(v@.take(0) =~= Seq::<char>::empty());
    loop
        invariant_except_break
            start <= i <= len,
            split_commas(v@.take(i as int)) == parts.push(v@.subrange(start as int, i as int)),
        invariant
            v@ == exts@,
            len == v@.len(),
            distinct_texts(out@),
            forall|k: int| 0 <= k < out@.len() ==> (#[trigger] out@[k])@.len() > 0 && exists|j: int|
                0 <= j < parts.len() && #[trigger] normalize_ext(parts[j]) == out@[k]@,
            forall|j: int|
                0 <= j < parts.len() && normalize_ext(parts[j]).len() > 0 ==> holds_text(
                    out@,
                    #[trigger] normalize_ext(parts[j]),
                ),
        ensures
            split_commas(exts@) == parts,
        decreases len - i + 1,
    {
        if i == len || v[i] == ',' {
            let seg = from_chars_range(&v, start, i);
            let trimmed = strip_str(seg.as_str(), Strip::WhiteSpace);
            let norm = to_ascii_lower(trimmed.as_str());
            let ghost old_parts = parts;
            let ghost old_out = out@;
            proof {
                parts = parts.push(v@.subrange(start as int, i as int));
            }
            assert(normalize_ext(parts[parts.len() - 1]) == norm@);
            if norm.unicode_len() > 0 && !contains_text(&out, &norm) {
                out.push(norm);
                assert forall|k: int| 0 <= k < out@.len() implies (#[trigger] out@[k])@.len() > 0
                    && exists|j: int|
                    0 <= j < parts.len() && #[trigger] normalize_ext(parts[j]) == out@[k]@ by {
                    if k < out@.len() - 1 {
                        let j = choose|j: int|
                            0 <= j < old_parts.len() && #[trigger] normalize_ext(old_parts[j])
                                == out@[k]@;
                        assert(parts[j] == old_parts[j]);
                    } else {
                        assert(normalize_ext(parts[parts.len() - 1]) == out@[k]@);
                    }
                }
            } else {
                assert forall|k: int| 0 <= k < out@.len() implies (#[trigger] out@[k])@.len() > 0
                    && exists|j: int|
                    0 <= j < parts.len() && #[trigger] normalize_ext(parts[j]) == out@[k]@ by {
                    let j = choose|j: int|
                        0 <= j < old_parts.len() && #[trigger] normalize_ext(old_parts[j])
                            == out@[k]@;
                    assert(parts[j] == old_parts[j]);
                }
            }
            assert forall|j: int|
                0 <= j < parts.len() && normalize_ext(parts[j]).len() > 0 implies holds_text(
                out@,
                #[trigger] normalize_ext(parts[j]),
            ) by {
                if j < parts.len() - 1 {
                    assert(parts[j] == old_parts[j]);
                    assert(holds_text(old_out, normalize_ext(old_parts[j])));
                    let k = choose|k: int|
                        0 <= k < old_out.len() && (#[trigger] old_out[k])@ == normalize_ext(
                            old_parts[j],
                        );
                    assert(out@[k] == old_out[k]);
                } else {
                    if !holds_text(out@, norm@) {
                        assert(out@[out@.len() - 1]@ == norm@);
                    }
                }
            }
            if i == len {
                proof {
                    assert(v@.take(i as int) =~= v@);
                }
                break;
            }
            proof {
                assert(v@.take(i + 1).drop_last() =~= v@.take(i as int));
                assert(v@.subrange(i + 1, i + 1) =~= Seq::<char>::empty());
            }
            start = i + 1;
            i = i + 1;
        } else {
            proof {
                assert(v@.take(i + 1).drop_last() =~= v@.take(i as int));
                lemma_split_nonempty(v@.take(i as int));
                assert(v@.subrange(start as int, i as int).push(v@[i as int]) =~= v@.subrange(
                    start as int,
                    i + 1,
                ));
                assert(parts.push(v@.subrange(start as int, i as int)).update(
                    parts.len() as int,
                    v@.subrange(start as int, i + 1),
                ) =~= parts.push(v@.subrange(start as int, i + 1)));
            }
            i = i + 1;
        }
    }
    out
}


/// One entry found while walking a directory.
#[derive(Debug, Clone)]
pub struct ScanEntry {
    pub path: String,
    /// The entry is a directory (following links).
    pub is_dir: bool,
}

/// A walked entry counts as media: it is not a directory and its extension,
/// in ASCII lower case, is one of `allowed`.
pub open spec fn is_media_spec(path: Seq<char>, is_dir: bool, allowed: Seq<String>) -> bool {
    !is_dir && match extension_spec(path) {
        Some(e) => holds_text(allowed, ascii_lower(e)),
        None => false,
    }
}

/// The paths of the entries that count as media, in the order walked.
pub open spec fn media_paths(entries: Seq<ScanEntry>, allowed: Seq<String>) -> Seq<Seq<char>>
    decreases entries.len(),
{
    if entries.len() == 0 {
        seq![]
    } else {
        let prev = media_paths(entries.drop_last(), allowed);
        let e = entries.last();
        if is_media_spec(e.path@, e.is_dir, allowed) {
            prev.push(e.path@)
        } else {
            prev
        }
    }
}

/// Whether a walked entry counts as media.
pub fn is_media_file(path: &str, is_dir: bool, allowed: &Vec<String>) -> (r: bool)
    ensures
        r == is_media_spec(path@, is_dir, allowed@),
{
    if is_dir {
        return false;
    }
    match extension(path) {
        Some(e) => {
            let lower = to_ascii_lower(e.as_str());
            contains_text(allowed, &lower)
        },
        None => false,
    }
}

/// The media files among the walked entries, in the order walked.
pub fn select_media_files(entries: &Vec<ScanEntry>, allowed: &Vec<String>) -> (r: Vec<String>)
    ensures
        r@.map_values(|p: String| p@) == media_paths(entries@, allowed@),
{
    let mut out: Vec<String> = Vec::new();
    let mut i: usize = 0;
    while i < entries.len()
        invariant
            i <= entries@.len(),
            out@.map_values(|p: String| p@) == media_paths(entries@.take(i as int), allowed@),
        decreases entries@.len() - i,
    {
        assert(entries@.take(i + 1).drop_last() =~= entries@.take(i as int));
        let e = &entries[i];
        if is_media_file(e.path.as_str(), e.is_dir, allowed) {
            let ghost before = out@;
            out.push(e.path.clone());
            assert(out@.map_values(|p: String| p@) =~= before.map_values(|p: String| p@).push(
                e.path@,
            ));
        }
        i += 1;
    }
    assert(entries@.take(i as int) =~= entries@);
    out
}


/// The texts `r` joined with `,` between them.
pub open spec fn join_commas(r: Seq<Seq<char>>) -> Seq<char>
    decreases r.len(),
{
    if r.len() == 0 {
        seq![]
    } else if r.len() == 1 {
        r[0]
    } else {
        join_commas(r.drop_last()) + seq![','] + r.last()
    }
}

/// `s` holds no `,`.
pub open spec fn no_comma(s: Seq<char>) -> bool {
    forall|j: int| 0 <= j < s.len() ==> s[j] != ','
}

/// The parts of a cut never hold a `,`.
proof fn lemma_split_parts_no_comma(s: Seq<char>)
    ensures
        forall|i: int| 0 <= i < split_commas(s).len() ==> no_comma(#[trigger] split_commas(s)[i]),
    decreases s.len(),
{
    lemma_split_nonempty(s);
    if s.len() > 0 {
        lemma_split_parts_no_comma(s.drop_last());
        lemma_split_nonempty(s.drop_last());
        let prev = split_commas(s.drop_last());
        assert forall|i: int| 0 <= i < split_commas(s).len() implies no_comma(
            #[trigger] split_commas(s)[i],
        ) by {
            if i < prev.len() {
                assert(no_comma(prev[i]));
            }
            if s.last() != ',' && i == prev.len() - 1 {
                assert(no_comma(prev[i]));
                assert(split_commas(s)[i] == prev[i].push(s.last()));
            }
        }
    }
}

/// Text without commas added at the end extends the last part.
proof fn lemma_split_append(x: Seq<char>, t: Seq<char>)
    requires
        no_comma(t),
    ensures
        split_commas(x + t) == split_commas(x).update(
            split_commas(x).len() - 1,
            split_commas(x).last() + t,
        ),
    decreases t.len(),
{
    lemma_split_nonempty(x);
    if t.len() == 0 {
        assert(x + t =~= x);
        assert(split_commas(x).last() + t =~= split_commas(x).last());
        assert(split_commas(x).update(split_commas(x).len() - 1, split_commas(x).last())
            =~= split_commas(x));
    } else {
        let t0 = t.drop_last();
        lemma_split_append(x, t0);
        assert((x + t).drop_last() =~= x + t0);
        assert((x + t).last() == t.last());
        let a = split_commas(x);
        let prev = a.update(a.len() - 1, a.last() + t0);
        assert(prev.len() == a.len());
        assert(prev.last() == a.last() + t0);
        assert(t.last() != ',');
        assert((a.last() + t0).push(t.last()) =~= a.last() + t);
        assert(prev.update(a.len() - 1, (a.last() + t0).push(t.last())) =~= a.update(
            a.len() - 1,
            a.last() + t,
        ));
    }
}

/// Cutting texts without commas joined by commas gives them back.
proof fn lemma_split_join(r: Seq<Seq<char>>)
    requires
        r.len() >= 1,
        forall|i: int| 0 <= i < r.len() ==> no_comma(#[trigger] r[i]),
    ensures
        split_commas(join_commas(r)) == r,
    decreases r.len(),
{
    if r.len() == 1 {
        lemma_split_append(seq![], r[0]);
        assert(Seq::<char>::empty() + r[0] =~= r[0]);
        assert(Seq::<char>::empty() + r[0] =~= join_commas(r));
        assert(seq![Seq::<char>::empty()].update(0, Seq::<char>::empty() + r[0]) =~= r);
    } else {
        let rest = r.drop_last();
        assert forall|i: int| 0 <= i < rest.len() implies no_comma(#[trigger] rest[i]) by {
            assert(rest[i] == r[i]);
        }
        lemma_split_join(rest);
        let x = join_commas(rest) + seq![','];
        assert(x.drop_last() =~= join_commas(rest));
        assert(split_commas(x) == rest.push(seq![]));
        assert(no_comma(r.last()));
        lemma_split_append(x, r.last());
        assert(x + r.last() =~= join_commas(r));
        assert(rest.push(seq![]).update(rest.len() as int, Seq::<char>::empty() + r.last()) =~= r);
    }
}

/// Lower case keeps white space and everything else apart.
proof fn lemma_lower_white_space(c: char)
    ensures
        is_white_space(ascii_lower_char(c)) == is_white_space(c),
        ascii_lower_char(ascii_lower_char(c)) == ascii_lower_char(c),
        ascii_lower_char(c) == ',' <==> c == ',',
{
    if 'A' <= c <= 'Z' {
        let v = c as u32;
        assert(65 <= v <= 90);
        assert(ascii_lower_char(c) as u32 == v + 32);
    }
}

/// Stripping the start leaves a final part of the text, which starts with a
/// character that is not stripped.
proof fn lemma_strip_start(s: Seq<char>, k: Strip)
    ensures
        strip_start(s, k).len() <= s.len(),
        strip_start(s, k) == s.subrange(s.len() - strip_start(s, k).len(), s.len() as int),
        strip_start(s, k).len() > 0 ==> !strips(k, strip_start(s, k)[0]),
    decreases s.len(),
{
    if s.len() > 0 && strips(k, s[0]) {
        lemma_strip_start(s.drop_first(), k);
        let r = strip_start(s.drop_first(), k);
        assert(s.drop_first().subrange(s.len() - 1 - r.len(), s.len() - 1) =~= s.subrange(
            s.len() - r.len(),
            s.len() as int,
        ));
    } else {
        assert(s.subrange(0, s.len() as int) =~= s);
    }
}

/// Stripping the end leaves a first part of the text, which ends with a
/// character that is not stripped.
proof fn lemma_strip_end(s: Seq<char>, k: Strip)
    ensures
        strip_end(s, k).len() <= s.len(),
        strip_end(s, k) == s.take(strip_end(s, k).len() as int),
        strip_end(s, k).len() > 0 ==> !strips(k, strip_end(s, k).last()),
    decreases s.len(),
{
    if s.len() > 0 && strips(k, s.last()) {
        lemma_strip_end(s.drop_last(), k);
        let r = strip_end(s.drop_last(), k);
        assert(s.drop_last().take(r.len() as int) =~= s.take(r.len() as int));
    } else {
        assert(s.take(s.len() as int) =~= s);
    }
}

/// A listed extension holds no comma and reads as itself.
proof fn lemma_listed_is_normal(exts: Seq<char>, e: Seq<char>)
    requires
        ext_listed(exts, e),
    ensures
        no_comma(e),
        normalize_ext(e) == e,
        e.len() > 0,
{
    let parts = split_commas(exts);
    let i = choose|i: int| 0 <= i < parts.len() && #[trigger] normalize_ext(parts[i]) == e;
    lemma_split_parts_no_comma(exts);
    let p = parts[i];
    assert(no_comma(p));
    let a = strip_start(p, Strip::WhiteSpace);
    let u = strip_end(a, Strip::WhiteSpace);
    lemma_strip_start(p, Strip::WhiteSpace);
    lemma_strip_end(a, Strip::WhiteSpace);
    assert(e == ascii_lower(u));
    assert forall|j: int| 0 <= j < e.len() implies e[j] != ',' by {
        assert(u[j] == a[j]);
        assert(a[j] == p[p.len() - a.len() + j]);
        lemma_lower_white_space(u[j]);
    }
    assert(u.len() == e.len());
    assert(u[0] == a[0]);
    lemma_lower_white_space(u[0]);
    lemma_lower_white_space(u.last());
    assert(e[0] == ascii_lower_char(u[0]));
    assert(e.last() == ascii_lower_char(u.last()));
    assert(!is_white_space(e[0]));
    assert(!is_white_space(e.last()));
    assert(strip_start(e, Strip::WhiteSpace) == e);
    assert(strip_end(e, Strip::WhiteSpace) == e);
    assert forall|j: int| 0 <= j < e.len() implies ascii_lower(e)[j] == e[j] by {
        lemma_lower_white_space(u[j]);
    }
    assert(ascii_lower(e) =~= e);
}

/// Parsing again the extensions that a parse gave, joined by commas, lists
/// the same extensions: the extension list is a fixed point of parsing.
pub proof fn law_reparse_exts(exts: Seq<char>, r: Seq<Seq<char>>)
    requires
        forall|i: int| 0 <= i < r.len() ==> ext_listed(exts, #[trigger] r[i]),
        forall|e: Seq<char>| ext_listed(exts, e) ==> r.contains(e),
    ensures
        forall|e: Seq<char>| ext_listed(join_commas(r), e) <==> ext_listed(exts, e),
{
    assert forall|i: int| 0 <= i < r.len() implies no_comma(#[trigger] r[i]) && normalize_ext(r[i])
        == r[i] && r[i].len() > 0 by {
        lemma_listed_is_normal(exts, r[i]);
    }
    if r.len() == 0 {
        assert(split_commas(join_commas(r)) =~= seq![Seq::<char>::empty()]);
        assert forall|e: Seq<char>| !ext_listed(join_commas(r), e) && !ext_listed(exts, e) by {
            if ext_listed(exts, e) {
                assert(r.contains(e));
            }
            if ext_listed(join_commas(r), e) {
                let i = choose|i: int|
                    0 <= i < split_commas(join_commas(r)).len() && #[trigger] normalize_ext(
                        split_commas(join_commas(r))[i],
                    ) == e;
                assert(strip_start(Seq::<char>::empty(), Strip::WhiteSpace) =~= Seq::<char>::empty());
                assert(ascii_lower(Seq::<char>::empty()) =~= Seq::<char>::empty());
            }
        }
    } else {
        lemma_split_join(r);
        assert forall|e: Seq<char>| ext_listed(join_commas(r), e) <==> ext_listed(exts, e) by {
            if ext_listed(join_commas(r), e) {
                let i = choose|i: int| 0 <= i < r.len() && #[trigger] normalize_ext(r[i]) == e;
                assert(normalize_ext(r[i]) == r[i]);
            }
            if ext_listed(exts, e) {
                assert(r.contains(e));
                let i = choose|i: int| 0 <= i < r.len() && r[i] == e;
                assert(normalize_ext(split_commas(join_commas(r))[i]) == e);
            }
        }
    }
}

/// ASCII lower case lowers every capital `A` to `Z` to the letter 32 code
/// points after it and leaves every other character as it is, so no
/// capital is left.
pub proof fn law_ascii_lower(s: Seq<char>)
    ensures
        ascii_lower(s).len() == s.len(),
        forall|i: int|
            0 <= i < s.len() && 'A' <= s[i] <= 'Z' ==> #[trigger] ascii_lower(s)[i] as u32 == s[i]
                as u32 + 32,
        forall|i: int|
            0 <= i < s.len() && !('A' <= s[i] <= 'Z') ==> #[trigger] ascii_lower(s)[i] == s[i],
        forall|i: int| 0 <= i < s.len() ==> !('A' <= #[trigger] ascii_lower(s)[i] <= 'Z'),
{
    assert forall|i: int| 0 <= i < s.len() && 'A' <= s[i] <= 'Z' implies #[trigger] ascii_lower(
        s,
    )[i] as u32 == s[i] as u32 + 32 && !('A' <= ascii_lower(s)[i] <= 'Z') by {
        let v = s[i] as u32;
        assert(65 <= v <= 90);
        assert(ascii_lower_char(s[i]) as u32 == v + 32);
    }
}

} // verus!

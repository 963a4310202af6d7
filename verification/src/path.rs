//! Paths, handled as `/`-separated text.
use vstd::prelude::*;
use crate::text::{char_vecs_view, from_chars_range, split_char, split_chars, to_chars};

verus! {

/// `base` joined with `rel`: `rel` itself where it starts at the root,
/// otherwise `rel` appended to `base` with one `/` between them unless `base`
/// is empty or already ends with `/`.
pub open spec fn join_spec(base: Seq<char>, rel: Seq<char>) -> Seq<char> {
    if rel.len() > 0 && rel[0] == '/' {
        rel
    } else if base.len() > 0 && base.last() != '/' {
        base + seq!['/'] + rel
    } else {
        base + rel
    }
}

/// Joins `rel` onto `base`.
pub fn join_path(base: &str, rel: &str) -> (r: String)
    ensures
        r@ == join_spec(base@, rel@),
{
    let mut r = String::new();
    let rl = rel.unicode_len();
    if rl > 0 && rel.get_char(0) == '/' {
        r.append(rel);
        return r;
    }
    let bl = base.unicode_len();
    r.append(base);
    if bl > 0 && base.get_char(bl - 1) != '/' {
        r.append("/");
        proof { reveal_strlit("/"); }
    }
    r.append(rel);
    r
}


/// Where the last `/`-separated segment of `p` starts.
pub open spec fn segment_start(p: Seq<char>) -> int
    decreases p.len(),
{
    if p.len() == 0 {
        0
    } else if p.last() == '/' {
        p.len() as int
    } else {
        segment_start(p.drop_last())
    }
}

/// The last segment starts within `p`, before its end when `p` does not end
/// with `/`.
pub proof fn lemma_segment_start_bounds(p: Seq<char>)
    ensures
        0 <= segment_start(p) <= p.len(),
        p.len() > 0 && p.last() != '/' ==> segment_start(p) < p.len(),
    decreases p.len(),
{
    if p.len() > 0 && p.last() != '/' {
        lemma_segment_start_bounds(p.drop_last());
    }
}

/// The final component of `p`, as `Path::file_name` gives it: trailing `/`
/// and `.` components are passed over, and a final `..` has no name.
pub open spec fn file_name_spec(p: Seq<char>) -> Option<Seq<char>>
    decreases p.len(),
{
    if p.len() == 0 {
        None
    } else if p.last() == '/' {
        file_name_spec(p.drop_last())
    } else {
        let k = segment_start(p);
        proof {
            lemma_segment_start_bounds(p);
        }
        let seg = p.subrange(k, p.len() as int);
        if seg == seq!['.'] {
            file_name_spec(p.take(k))
        } else if seg == seq!['.', '.'] {
            None
        } else {
            Some(seg)
        }
    }
}

/// Where the last `.` of `name` stands, if it holds one.
pub open spec fn last_dot(name: Seq<char>) -> Option<int>
    decreases name.len(),
{
    if name.len() == 0 {
        None
    } else if name.last() == '.' {
        Some(name.len() - 1)
    } else {
        last_dot(name.drop_last())
    }
}

/// The stem of a file name: the part before its last `.`, unless that `.`
/// is its first character or it has none, in which case the whole name.
pub open spec fn name_stem(name: Seq<char>) -> Seq<char> {
    match last_dot(name) {
        Some(i) if i > 0 => name.take(i),
        _ => name,
    }
}

/// The extension of a file name: the part after its last `.`, unless that
/// `.` is its first character or it has none.
pub open spec fn name_extension(name: Seq<char>) -> Option<Seq<char>> {
    match last_dot(name) {
        Some(i) if i > 0 => Some(name.subrange(i + 1, name.len() as int)),
        _ => None,
    }
}

/// `Path::file_stem`.
pub open spec fn file_stem_spec(p: Seq<char>) -> Option<Seq<char>> {
    match file_name_spec(p) {
        Some(n) => Some(name_stem(n)),
        None => None,
    }
}

/// `Path::extension`.
pub open spec fn extension_spec(p: Seq<char>) -> Option<Seq<char>> {
    match file_name_spec(p) {
        Some(n) => name_extension(n),
        None => None,
    }
}

/// `n` holds no `/`.
pub open spec fn no_slash(n: Seq<char>) -> bool {
    forall|k: int| 0 <= k < n.len() ==> n[k] != '/'
}

/// `n` holds no `.`.
pub open spec fn no_dot(n: Seq<char>) -> bool {
    forall|k: int| 0 <= k < n.len() ==> n[k] != '.'
}

/// A name without `/` after a folder (or nothing) is the last segment.
proof fn lemma_segment_start_name(pre: Seq<char>, n: Seq<char>)
    requires
        no_slash(n),
        pre.len() == 0 || pre.last() == '/',
    ensures
        segment_start(pre + n) == pre.len(),
    decreases n.len(),
{
    if n.len() == 0 {
        assert(pre + n =~= pre);
    } else {
        assert((pre + n).drop_last() =~= pre + n.drop_last());
        assert((pre + n).last() == n.last());
        lemma_segment_start_name(pre, n.drop_last());
    }
}

/// The file name of a path that ends in a name is that name.
proof fn lemma_file_name_of_name(pre: Seq<char>, n: Seq<char>)
    requires
        n.len() > 0,
        no_slash(n),
        n != seq!['.'],
        n != seq!['.', '.'],
        pre.len() == 0 || pre.last() == '/',
    ensures
        file_name_spec(pre + n) == Some(n),
{
    let p = pre + n;
    lemma_segment_start_name(pre, n);
    assert(p.last() == n.last());
    assert(p.subrange(pre.len() as int, p.len() as int) =~= n);
}

/// The file name of `folder/name` is the name, whatever the folder: the
/// final component of a path, once `/` separates it from the rest.
pub proof fn law_file_name_is_last_component(d: Seq<char>, n: Seq<char>)
    requires
        n.len() > 0,
        no_slash(n),
        n != seq!['.'],
        n != seq!['.', '.'],
    ensures
        file_name_spec(d + seq!['/'] + n) == Some(n),
        file_name_spec(n) == Some(n),
{
    lemma_file_name_of_name(d + seq!['/'], n);
    lemma_file_name_of_name(seq![], n);
    assert(Seq::<char>::empty() + n =~= n);
}

/// Where the last `.` of a name stands: it is a `.`, and none follows it;
/// there is none when the name holds none.
proof fn lemma_last_dot(name: Seq<char>)
    ensures
        last_dot(name) matches Some(i) ==> 0 <= i < name.len() && name[i] == '.' && no_dot(
            name.subrange(i + 1, name.len() as int),
        ),
        last_dot(name) is None ==> no_dot(name),
    decreases name.len(),
{
    if name.len() > 0 && name.last() != '.' {
        lemma_last_dot(name.drop_last());
        if let Some(i) = last_dot(name) {
            let a = name.drop_last().subrange(i + 1, name.len() - 1);
            let b = name.subrange(i + 1, name.len() as int);
            assert forall|k: int| 0 <= k < b.len() implies b[k] != '.' by {
                if k < a.len() {
                    assert(b[k] == a[k]);
                }
            }
        } else {
            assert forall|k: int| 0 <= k < name.len() implies name[k] != '.' by {
                if k < name.len() - 1 {
                    assert(name[k] == name.drop_last()[k]);
                }
            }
        }
    }
}

/// A name's stem, a `.` and its extension give back the name, and the
/// extension holds no `.` (the stem ends at the last `.`); a name without
/// extension is its own stem.
pub proof fn law_stem_and_extension(name: Seq<char>)
    ensures
        name_extension(name) matches Some(e) ==> name_stem(name) + seq!['.'] + e == name && no_dot(
            e,
        ),
        name_extension(name) is None ==> name_stem(name) == name,
{
    lemma_last_dot(name);
    if let Some(i) = last_dot(name) {
        if i > 0 {
            assert(name.take(i) + seq!['.'] + name.subrange(i + 1, name.len() as int) =~= name);
        }
    }
}

/// The last `.` of `s.e`, where `e` holds none, is the one before `e`.
pub proof fn lemma_last_dot_before(s: Seq<char>, e: Seq<char>)
    requires
        no_dot(e),
    ensures
        last_dot(s + seq!['.'] + e) == Some(s.len() as int),
    decreases e.len(),
{
    let t = s + seq!['.'] + e;
    if e.len() == 0 {
        assert(t.last() == '.');
    } else {
        assert(t.drop_last() =~= s + seq!['.'] + e.drop_last());
        assert(t.last() == e.last());
        lemma_last_dot_before(s, e.drop_last());
    }
}

/// A name without `.` has no last `.`.
pub proof fn lemma_last_dot_none(s: Seq<char>)
    requires
        no_dot(s),
    ensures
        last_dot(s) is None,
    decreases s.len(),
{
    if s.len() > 0 {
        lemma_last_dot_none(s.drop_last());
    }
}

/// Where the last segment of `v[0..end]` starts.
fn segment_start_exec(v: &Vec<char>, end: usize) -> (k: usize)
    requires
        end <= v@.len(),
    ensures
        k == segment_start(v@.take(end as int)),
        k <= end,
        forall|j: int| k <= j < end ==> v@[j] != '/',
{
    let mut k = end;
    while k > 0 && v[k - 1] != '/'
        invariant
            k <= end <= v@.len(),
            segment_start(v@.take(end as int)) == segment_start(v@.take(k as int)),
            forall|j: int| k <= j < end ==> v@[j] != '/',
        decreases k,
    {
        assert(v@.take(k as int).drop_last() =~= v@.take(k - 1));
        k -= 1;
    }
    k
}

/// The final component of `p` (`Path::file_name`).
pub fn file_name(p: &str) -> (r: Option<String>)
    ensures
        r matches Some(n) ==> file_name_spec(p@) == Some(n@),
        r is None ==> file_name_spec(p@) is None,
{
    let v = to_chars(p);
    let mut end = v.len();
    assert(v@.take(end as int) =~= v@);
    loop
        invariant
            end <= v@.len(),
            v@ == p@,
            file_name_spec(p@) == file_name_spec(v@.take(end as int)),
        decreases end,
    {
        if end == 0 {
            return None;
        }
        if v[end - 1] == '/' {
            assert(v@.take(end as int).drop_last() =~= v@.take(end - 1));
            end -= 1;
        } else {
            let k = segment_start_exec(&v, end);
            let ghost t = v@.take(end as int);
            assert(t.subrange(k as int, end as int) =~= v@.subrange(k as int, end as int));
            if end - k == 1 && v[k] == '.' {
                assert(v@.subrange(k as int, end as int) =~= seq!['.']);
                assert(t.take(k as int) =~= v@.take(k as int));
                end = k;
            } else if end - k == 2 && v[k] == '.' && v[k + 1] == '.' {
                assert(v@.subrange(k as int, end as int) =~= seq!['.', '.']);
                return None;
            } else {
                assert(v@.subrange(k as int, end as int) != seq!['.']) by {
                    if end - k == 1 {
                        assert(v@.subrange(k as int, end as int)[0] == v@[k as int]);
                    }
                }
                assert(v@.subrange(k as int, end as int) != seq!['.', '.']) by {
                    if end - k == 2 {
                        assert(v@.subrange(k as int, end as int)[0] == v@[k as int]);
                        assert(v@.subrange(k as int, end as int)[1] == v@[k + 1]);
                    }
                }
                return Some(from_chars_range(&v, k, end));
            }
        }
    }
}

/// Where the last `.` of `v` stands.
fn last_dot_exec(v: &Vec<char>) -> (r: Option<usize>)
    ensures
        r matches Some(i) ==> last_dot(v@) == Some(i as int) && i < v@.len(),
        r is None ==> last_dot(v@) is None,
{
    let mut k = v.len();
    assert(v@.take(k as int) =~= v@);
    while k > 0 && v[k - 1] != '.'
        invariant
            k <= v@.len(),
            last_dot(v@) == last_dot(v@.take(k as int)),
        decreases k,
    {
        assert(v@.take(k as int).drop_last() =~= v@.take(k - 1));
        k -= 1;
    }
    if k == 0 {
        None
    } else {
        Some(k - 1)
    }
}

/// The stem of the final component of `p` (`Path::file_stem`).
pub fn file_stem(p: &str) -> (r: Option<String>)
    ensures
        r matches Some(n) ==> file_stem_spec(p@) == Some(n@),
        r is None ==> file_stem_spec(p@) is None,
{
    match file_name(p) {
        None => None,
        Some(name) => {
            let v = to_chars(name.as_str());
            match last_dot_exec(&v) {
                Some(i) => {
                    if i > 0 {
                        Some(from_chars_range(&v, 0, i))
                    } else {
                        Some(name)
                    }
                },
                None => Some(name),
            }
        },
    }
}

/// The extension of the final component of `p` (`Path::extension`).
pub fn extension(p: &str) -> (r: Option<String>)
    ensures
        r matches Some(n) ==> extension_spec(p@) == Some(n@),
        r is None ==> extension_spec(p@) is None,
{
    match file_name(p) {
        None => None,
        Some(name) => {
            let v = to_chars(name.as_str());
            match last_dot_exec(&v) {
                Some(i) => {
                    let n = v.len();
                    if i > 0 {
                        Some(from_chars_range(&v, i + 1, n))
                    } else {
                        None
                    }
                },
                None => None,
            }
        },
    }
}


/// A component of a path, as `Path::components` yields it (without the
/// prefixes that exist only on Windows).
#[derive(Debug, Clone)]
pub enum Comp {
    /// The root `/`.
    Root,
    /// A leading `.`.
    Cur,
    /// `..`.
    Parent,
    /// A name.
    Normal(Vec<char>),
}

/// The value of a [`Comp`].
pub enum CompView {
    Root,
    Cur,
    Parent,
    Normal(Seq<char>),
}

impl View for Comp {
    type V = CompView;

    open spec fn view(&self) -> CompView {
        match self {
            Comp::Root => CompView::Root,
            Comp::Cur => CompView::Cur,
            Comp::Parent => CompView::Parent,
            Comp::Normal(s) => CompView::Normal(s@),
        }
    }
}

/// The components of the `/`-separated parts `segs`, after the first
/// component: empty parts and `.` are passed over, `..` is the parent, any
/// other part a name.
pub open spec fn segment_comps(segs: Seq<Seq<char>>) -> Seq<CompView>
    decreases segs.len(),
{
    if segs.len() == 0 {
        seq![]
    } else {
        let prev = segment_comps(segs.drop_last());
        let s = segs.last();
        if s.len() == 0 || s == seq!['.'] {
            prev
        } else if s == seq!['.', '.'] {
            prev.push(CompView::Parent)
        } else {
            prev.push(CompView::Normal(s))
        }
    }
}

/// The components of `p`: the root when it starts with `/`, or `.` when its
/// first part is `.`, then the components of its parts.
pub open spec fn components_spec(p: Seq<char>) -> Seq<CompView> {
    let segs = split_char(p, '/');
    let first = if p.len() > 0 && p[0] == '/' {
        seq![CompView::Root]
    } else if segs[0] == seq!['.'] {
        seq![CompView::Cur]
    } else {
        seq![]
    };
    first + segment_comps(segs)
}

/// Whether `v` is the text `.`, `..` or neither (0, 1 or 2).
fn dots(v: &Vec<char>) -> (r: u8)
    ensures
        r == 1 <==> v@ == seq!['.'],
        r == 2 <==> v@ == seq!['.', '.'],
        r <= 2,
{
    if v.len() == 1 && v[0] == '.' {
        assert(v@ =~= seq!['.']);
        1
    } else if v.len() == 2 && v[0] == '.' && v[1] == '.' {
        assert(v@ =~= seq!['.', '.']);
        2
    } else {
        assert(v@ != seq!['.']) by {
            if v@.len() == 1 {
                assert(seq!['.'][0] == '.');
            }
        }
        assert(v@ != seq!['.', '.']) by {
            if v@.len() == 2 {
                assert(seq!['.', '.'][0] == '.');
                assert(seq!['.', '.'][1] == '.');
            }
        }
        0
    }
}

/// The components of `p` (`Path::components`).
pub fn path_components(p: &str) -> (r: Vec<Comp>)
    ensures
        r@.map_values(|c: Comp| c@) == components_spec(p@),
{
    let v = to_chars(p);
    let segs = split_chars(&v, '/');
    let ghost sv = char_vecs_view(segs@);
    proof {
        crate::text::lemma_split_char_nonempty(v@, '/');
    }
    let mut out: Vec<Comp> = Vec::new();
    if v.len() > 0 && v[0] == '/' {
        out.push(Comp::Root);
    } else {
        assert(sv[0] == segs@[0]@);
        if dots(&segs[0]) == 1 {
            out.push(Comp::Cur);
        }
    }
    let ghost first = out@.map_values(|c: Comp| c@);
    assert(first =~= (if p@.len() > 0 && p@[0] == '/' {
        seq![CompView::Root]
    } else if sv[0] == seq!['.'] {
        seq![CompView::Cur]
    } else {
        seq![]
    }));
    let mut i: usize = 0;
    while i < segs.len()
        invariant
            i <= segs@.len(),
            sv == char_vecs_view(segs@),
            out@.map_values(|c: Comp| c@) == first + segment_comps(sv.take(i as int)),
        decreases segs@.len() - i,
    {
        assert(sv.take(i + 1).drop_last() =~= sv.take(i as int));
        assert(sv.take(i + 1).last() == segs@[i as int]@);
        let ghost before = out@.map_values(|c: Comp| c@);
        let s = &segs[i];
        let d = dots(s);
        if s.len() == 0 || d == 1 {
        } else if d == 2 {
            out.push(Comp::Parent);
            assert(out@.map_values(|c: Comp| c@) =~= before.push(CompView::Parent));
        } else {
            out.push(Comp::Normal(chars_copy(s)));
            assert(out@.map_values(|c: Comp| c@) =~= before.push(CompView::Normal(s@)));
        }
        i += 1;
    }
    assert(sv.take(i as int) =~= sv);
    out
}

/// A copy of a list of characters.
fn chars_copy(v: &Vec<char>) -> (r: Vec<char>)
    ensures
        r@ == v@,
{
    crate::text::chars_range(v, 0, v.len())
}

} // verus!

//! The order of paths: component by component, each component by its
//! characters, as `Path`'s `Ord` compares them.
use vstd::prelude::*;
use crate::path::{components_spec, no_slash, path_components, segment_comps, Comp, CompView};
use crate::text::{lemma_split_char_nonempty, split_char};

verus! {

/// `a` comes before `b` in the lexicographic order built on `lt`: at the
/// first place where they differ `a` holds the smaller element, or `a` is a
/// proper prefix of `b`.
pub open spec fn lex_lt<T>(a: Seq<T>, b: Seq<T>, lt: spec_fn(T, T) -> bool) -> bool
    decreases a.len(),
{
    if a.len() == 0 {
        b.len() > 0
    } else if b.len() == 0 {
        false
    } else if a[0] != b[0] {
        lt(a[0], b[0])
    } else {
        lex_lt(a.drop_first(), b.drop_first(), lt)
    }
}

/// `lt` is a strict order: irreflexive and transitive.
pub open spec fn strict_order<T>(lt: spec_fn(T, T) -> bool) -> bool {
    &&& forall|x: T| !#[trigger] lt(x, x)
    &&& forall|x: T, y: T, z: T| #[trigger] lt(x, y) && #[trigger] lt(y, z) ==> lt(x, z)
}

/// The lexicographic order on a strict order is irreflexive.
pub proof fn lemma_lex_irreflexive<T>(a: Seq<T>, lt: spec_fn(T, T) -> bool)
    requires
        strict_order(lt),
    ensures
        !lex_lt(a, a, lt),
    decreases a.len(),
{
    if a.len() > 0 {
        lemma_lex_irreflexive(a.drop_first(), lt);
    }
}

/// The lexicographic order on a strict order is transitive.
pub proof fn lemma_lex_transitive<T>(a: Seq<T>, b: Seq<T>, c: Seq<T>, lt: spec_fn(T, T) -> bool)
    requires
        strict_order(lt),
        lex_lt(a, b, lt),
        lex_lt(b, c, lt),
    ensures
        lex_lt(a, c, lt),
    decreases a.len(),
{
    if a.len() > 0 {
        if a[0] == b[0] && b[0] == c[0] {
            lemma_lex_transitive(a.drop_first(), b.drop_first(), c.drop_first(), lt);
        } else if a[0] == b[0] {
            assert(lt(b[0], c[0]));
        } else if b[0] == c[0] {
            assert(lt(a[0], b[0]));
        } else {
            assert(lt(a[0], b[0]) && lt(b[0], c[0]));
            assert(lt(a[0], c[0]));
        }
    }
}

/// Characters in code point order (which is the order of their UTF-8 bytes).
pub open spec fn char_lt() -> spec_fn(char, char) -> bool {
    |x: char, y: char| x < y
}

/// Texts in lexicographic order of their characters.
pub open spec fn text_lt(a: Seq<char>, b: Seq<char>) -> bool {
    lex_lt(a, b, char_lt())
}

/// The place of a kind of component in the order: the root first, then
/// `.`, then `..`, then names.
pub open spec fn comp_rank(c: CompView) -> int {
    match c {
        CompView::Root => 0,
        CompView::Cur => 1,
        CompView::Parent => 2,
        CompView::Normal(_) => 3,
    }
}

/// One component before another.
pub open spec fn comp_lt(x: CompView, y: CompView) -> bool {
    comp_rank(x) < comp_rank(y) || match (x, y) {
        (CompView::Normal(s), CompView::Normal(t)) => text_lt(s, t),
        _ => false,
    }
}

/// [`comp_lt`] as a function value.
pub open spec fn comp_lt_fn() -> spec_fn(CompView, CompView) -> bool {
    |x: CompView, y: CompView| comp_lt(x, y)
}

/// Path `p` comes before path `q`.
pub open spec fn path_lt(p: Seq<char>, q: Seq<char>) -> bool {
    lex_lt(components_spec(p), components_spec(q), comp_lt_fn())
}

/// The order on characters is strict.
proof fn lemma_char_order()
    ensures
        strict_order(char_lt()),
{
}

/// The order on components is strict.
proof fn lemma_comp_order()
    ensures
        strict_order(comp_lt_fn()),
{
    lemma_char_order();
    assert forall|x: CompView| !#[trigger] comp_lt_fn()(x, x) by {
        if let CompView::Normal(s) = x {
            lemma_lex_irreflexive(s, char_lt());
        }
    }
    assert forall|x: CompView, y: CompView, z: CompView|
        #[trigger] comp_lt_fn()(x, y) && #[trigger] comp_lt_fn()(y, z) implies comp_lt_fn()(
        x,
        z,
    ) by {
        if let (CompView::Normal(s), CompView::Normal(t), CompView::Normal(u)) = (x, y, z) {
            if text_lt(s, t) && text_lt(t, u) {
                lemma_lex_transitive(s, t, u, char_lt());
            }
        }
    }
}

/// The order on paths is irreflexive and transitive.
pub proof fn lemma_path_order(p: Seq<char>, q: Seq<char>, r: Seq<char>)
    ensures
        !path_lt(p, p),
        path_lt(p, q) && path_lt(q, r) ==> path_lt(p, r),
{
    lemma_comp_order();
    lemma_lex_irreflexive(components_spec(p), comp_lt_fn());
    if path_lt(p, q) && path_lt(q, r) {
        lemma_lex_transitive(
            components_spec(p),
            components_spec(q),
            components_spec(r),
            comp_lt_fn(),
        );
    }
}

/// Texts are ordered character by character, whatever their lengths: `a`
/// comes before `b` exactly when `a` is a proper prefix of `b`, or at the
/// first place where they differ `a` holds the smaller character.
pub proof fn law_text_order(a: Seq<char>, b: Seq<char>)
    ensures
        text_lt(a, b) <==> (a.len() < b.len() && a == b.take(a.len() as int)) || exists|i: int|
            0 <= i < a.len() && i < b.len() && a.take(i) == b.take(i) && a[i] < b[i],
    decreases a.len(),
{
    if a.len() == 0 {
        assert(a =~= b.take(0));
    } else if b.len() == 0 {
    } else if a[0] != b[0] {
        assert(text_lt(a, b) == char_lt()(a[0], b[0]));
        assert(char_lt()(a[0], b[0]) == (a[0] < b[0]));
        if a.len() < b.len() && a == b.take(a.len() as int) {
            assert(a[0] == b.take(a.len() as int)[0]);
        }
        if exists|i: int|
            0 <= i < a.len() && i < b.len() && a.take(i) == b.take(i) && a[i] < b[i] {
            let i = choose|i: int|
                0 <= i < a.len() && i < b.len() && a.take(i) == b.take(i) && a[i] < b[i];
            if i > 0 {
                assert(a.take(i)[0] == b.take(i)[0]);
            }
        }
        if a[0] < b[0] {
            assert(a.take(0) =~= b.take(0));
        }
    } else {
        let a1 = a.drop_first();
        let b1 = b.drop_first();
        law_text_order(a1, b1);
        if a.len() < b.len() && a == b.take(a.len() as int) {
            assert(a1 =~= b1.take(a1.len() as int));
        }
        if a1.len() < b1.len() && a1 == b1.take(a1.len() as int) {
            assert forall|k: int| 0 <= k < a.len() implies a[k] == b.take(a.len() as int)[k] by {
                if k > 0 {
                    assert(a[k] == a1[k - 1]);
                    assert(a1[k - 1] == b1.take(a1.len() as int)[k - 1]);
                }
            }
            assert(a =~= b.take(a.len() as int));
        }
        if exists|i: int|
            0 <= i < a.len() && i < b.len() && a.take(i) == b.take(i) && a[i] < b[i] {
            let i = choose|i: int|
                0 <= i < a.len() && i < b.len() && a.take(i) == b.take(i) && a[i] < b[i];
            assert(i > 0);
            assert(a1.take(i - 1) =~= a.take(i).drop_first());
            assert(b1.take(i - 1) =~= b.take(i).drop_first());
            assert(a1[i - 1] == a[i] && b1[i - 1] == b[i]);
        }
        if exists|i: int|
            0 <= i < a1.len() && i < b1.len() && a1.take(i) == b1.take(i) && a1[i] < b1[i] {
            let i = choose|i: int|
                0 <= i < a1.len() && i < b1.len() && a1.take(i) == b1.take(i) && a1[i] < b1[i];
            assert(a.take(i + 1) =~= seq![a[0]] + a1.take(i));
            assert(b.take(i + 1) =~= seq![b[0]] + b1.take(i));
            assert(a[i + 1] == a1[i] && b[i + 1] == b1[i]);
        }
    }
}

/// A name without `/` after `d/` extends the last part of the cut of `d/`.
proof fn lemma_split_slash_name(d: Seq<char>, x: Seq<char>)
    requires
        no_slash(x),
    ensures
        split_char(d + seq!['/'] + x, '/') == split_char(d, '/').push(x),
    decreases x.len(),
{
    let p = d + seq!['/'];
    if x.len() == 0 {
        assert(p + x =~= p);
        assert(p.drop_last() =~= d);
        assert(p.last() == '/');
        assert(x =~= Seq::<char>::empty());
    } else {
        lemma_split_slash_name(d, x.drop_last());
        assert((p + x).drop_last() =~= p + x.drop_last());
        assert((p + x).last() == x.last());
        assert(x.last() != '/');
        let a = split_char(d, '/');
        let prev = a.push(x.drop_last());
        assert(prev.len() - 1 == a.len());
        assert(prev.last() == x.drop_last());
        assert(x.drop_last().push(x.last()) =~= x);
        assert(prev.update(a.len() as int, x) =~= a.push(x));
    }
}

/// The components of `d/x`, for a name `x`, are those of `d/` and then `x`.
proof fn lemma_components_slash_name(d: Seq<char>, x: Seq<char>)
    requires
        x.len() > 0,
        no_slash(x),
        x != seq!['.'],
        x != seq!['.', '.'],
    ensures
        components_spec(d + seq!['/'] + x) == components_spec(d + seq!['/'] + seq!['x']).drop_last()
            .push(CompView::Normal(x)),
{
    let segs = split_char(d, '/');
    lemma_split_char_nonempty(d, '/');
    lemma_split_slash_name(d, x);
    let one = seq!['x'];
    assert(no_slash(one));
    lemma_split_slash_name(d, one);
    let p = d + seq!['/'] + x;
    let q = d + seq!['/'] + one;
    assert(p.len() > 0 && q.len() > 0);
    assert(p[0] == q[0]) by {
        if d.len() > 0 {
            assert(p[0] == d[0] && q[0] == d[0]);
        }
    }
    assert(segs.push(x)[0] == segs.push(one)[0]);
    assert(segs.push(x).drop_last() =~= segs);
    assert(segs.push(one).drop_last() =~= segs);
    assert(one != seq!['.']) by {
        assert(one[0] == 'x');
    }
    assert(one != seq!['.', '.']);
    let first = if p[0] == '/' {
        seq![CompView::Root]
    } else if segs.push(x)[0] == seq!['.'] {
        seq![CompView::Cur]
    } else {
        seq![]
    };
    assert(components_spec(p) == first + segment_comps(segs).push(CompView::Normal(x)));
    assert(components_spec(q) == first + segment_comps(segs).push(CompView::Normal(one)));
    assert((first + segment_comps(segs).push(CompView::Normal(one))).drop_last() =~= first
        + segment_comps(segs));
    assert(first + segment_comps(segs).push(CompView::Normal(x)) =~= (first + segment_comps(
        segs,
    )).push(CompView::Normal(x)));
}

/// Two lists that share a first part are ordered by their last elements.
proof fn lemma_lex_common_prefix<T>(c: Seq<T>, x: T, y: T, lt: spec_fn(T, T) -> bool)
    requires
        strict_order(lt),
    ensures
        lex_lt(c.push(x), c.push(y), lt) == lt(x, y),
    decreases c.len(),
{
    if c.len() == 0 {
        assert(c.push(x) =~= seq![x]);
        assert(c.push(y) =~= seq![y]);
        assert(seq![x].drop_first() =~= Seq::<T>::empty());
        assert(seq![y].drop_first() =~= Seq::<T>::empty());
        assert(!lex_lt(Seq::<T>::empty(), Seq::<T>::empty(), lt));
        if x == y {
            assert(!lt(x, x));
            assert(lex_lt(seq![x], seq![y], lt) == lex_lt(
                seq![x].drop_first(),
                seq![y].drop_first(),
                lt,
            ));
        } else {
            assert(lex_lt(seq![x], seq![y], lt) == lt(x, y));
        }
    } else {
        assert(c.push(x)[0] == c[0] && c.push(y)[0] == c[0]);
        assert(c.push(x).len() > 0 && c.push(y).len() > 0);
        assert(lex_lt(c.push(x), c.push(y), lt) == lex_lt(
            c.push(x).drop_first(),
            c.push(y).drop_first(),
            lt,
        ));
        assert(c.push(x).drop_first() =~= c.drop_first().push(x));
        assert(c.push(y).drop_first() =~= c.drop_first().push(y));
        lemma_lex_common_prefix(c.drop_first(), x, y, lt);
    }
}

/// Files in one folder are ordered by their names alone, character by
/// character (see [`law_text_order`]): `d/x` comes before `d/y` exactly when
/// the name `x` comes before the name `y`.
pub proof fn law_same_folder_order(d: Seq<char>, x: Seq<char>, y: Seq<char>)
    requires
        x.len() > 0,
        y.len() > 0,
        no_slash(x),
        no_slash(y),
        x != seq!['.'],
        x != seq!['.', '.'],
        y != seq!['.'],
        y != seq!['.', '.'],
    ensures
        path_lt(d + seq!['/'] + x, d + seq!['/'] + y) == text_lt(x, y),
{
    lemma_components_slash_name(d, x);
    lemma_components_slash_name(d, y);
    lemma_comp_order();
    let c = components_spec(d + seq!['/'] + seq!['x']).drop_last();
    lemma_lex_common_prefix(c, CompView::Normal(x), CompView::Normal(y), comp_lt_fn());
}

/// Whether text `a` comes before text `b`.
fn text_less(a: &Vec<char>, b: &Vec<char>) -> (r: bool)
    ensures
        r == text_lt(a@, b@),
{
    let mut i: usize = 0;
    assert(a@.skip(0) =~= a@);
    assert(b@.skip(0) =~= b@);
    while i < a.len() && i < b.len() && a[i] == b[i]
        invariant
            i <= a@.len(),
            i <= b@.len(),
            text_lt(a@, b@) == text_lt(a@.skip(i as int), b@.skip(i as int)),
        decreases a@.len() - i,
    {
        assert(a@.skip(i as int).drop_first() =~= a@.skip(i + 1));
        assert(b@.skip(i as int).drop_first() =~= b@.skip(i + 1));
        i += 1;
    }
    if i == a.len() {
        i < b.len()
    } else if i == b.len() {
        false
    } else {
        assert(a@.skip(i as int)[0] == a@[i as int]);
        assert(b@.skip(i as int)[0] == b@[i as int]);
        a[i] < b[i]
    }
}

/// Whether component `x` comes before component `y`.
fn comp_less(x: &Comp, y: &Comp) -> (r: bool)
    ensures
        r == comp_lt(x@, y@),
{
    match (x, y) {
        (Comp::Normal(s), Comp::Normal(t)) => text_less(s, t),
        _ => comp_rank_exec(x) < comp_rank_exec(y),
    }
}

/// The place of a kind of component in the order.
fn comp_rank_exec(x: &Comp) -> (r: u8)
    ensures
        r as int == comp_rank(x@),
{
    match x {
        Comp::Root => 0,
        Comp::Cur => 1,
        Comp::Parent => 2,
        Comp::Normal(_) => 3,
    }
}

/// Whether the component list `a` comes before `b`.
fn comps_less(a: &Vec<Comp>, b: &Vec<Comp>) -> (r: bool)
    ensures
        r == lex_lt(
            a@.map_values(|c: Comp| c@),
            b@.map_values(|c: Comp| c@),
            comp_lt_fn(),
        ),
{
    let ghost av = a@.map_values(|c: Comp| c@);
    let ghost bv = b@.map_values(|c: Comp| c@);
    let mut i: usize = 0;
    assert(av.skip(0) =~= av);
    assert(bv.skip(0) =~= bv);
    loop
        invariant
            i <= a@.len(),
            i <= b@.len(),
            av == a@.map_values(|c: Comp| c@),
            bv == b@.map_values(|c: Comp| c@),
            lex_lt(av, bv, comp_lt_fn()) == lex_lt(av.skip(i as int), bv.skip(i as int), comp_lt_fn()),
        decreases a@.len() - i,
    {
        if i == a.len() {
            return i < b.len();
        }
        if i == b.len() {
            return false;
        }
        assert(av.skip(i as int)[0] == a@[i as int]@);
        assert(bv.skip(i as int)[0] == b@[i as int]@);
        if comp_less(&a[i], &b[i]) {
            proof {
                lemma_comp_order();
                assert(comp_lt_fn()(av.skip(i as int)[0], bv.skip(i as int)[0]));
                assert(av.skip(i as int)[0] != bv.skip(i as int)[0]);
            }
            return true;
        }
        if comp_less(&b[i], &a[i]) {
            proof {
                lemma_comp_order();
                assert(comp_lt_fn()(bv.skip(i as int)[0], av.skip(i as int)[0]));
                assert(av.skip(i as int)[0] != bv.skip(i as int)[0]);
            }
            return false;
        }
        proof {
            lemma_comp_total(a@[i as int]@, b@[i as int]@);
        }
        assert(av.skip(i as int).drop_first() =~= av.skip(i + 1));
        assert(bv.skip(i as int).drop_first() =~= bv.skip(i + 1));
        i += 1;
    }
}

/// Two components neither of which comes before the other are the same.
proof fn lemma_comp_total(x: CompView, y: CompView)
    requires
        !comp_lt(x, y),
        !comp_lt(y, x),
    ensures
        x == y,
{
    if let (CompView::Normal(s), CompView::Normal(t)) = (x, y) {
        lemma_text_total(s, t);
    }
}

/// Two texts neither of which comes before the other are the same.
proof fn lemma_text_total(a: Seq<char>, b: Seq<char>)
    requires
        !text_lt(a, b),
        !text_lt(b, a),
    ensures
        a == b,
    decreases a.len(),
{
    if a.len() > 0 && b.len() > 0 && a[0] == b[0] {
        lemma_text_total(a.drop_first(), b.drop_first());
        assert(a =~= seq![a[0]] + a.drop_first());
        assert(b =~= seq![b[0]] + b.drop_first());
    } else if a.len() == 0 && b.len() == 0 {
        assert(a =~= b);
    }
}

/// Whether path `p` comes before path `q`.
pub fn path_less(p: &str, q: &str) -> (r: bool)
    ensures
        r == path_lt(p@, q@),
{
    let a = path_components(p);
    let b = path_components(q);
    comps_less(&a, &b)
}

} // verus!

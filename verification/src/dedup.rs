//! Duplicate detection: content hashes, grouping paths by hash, and which
//! files a deletion removes.
use vstd::prelude::*;
use vstd::multiset::Multiset;
use sha2::Digest;
use crate::order::{lemma_path_order, path_less, path_lt};
use crate::scan::{contains_text, distinct_texts, holds_text};
use crate::text::string_push;

verus! {

broadcast use vstd::multiset::group_multiset_axioms, vstd::seq_lib::group_to_multiset_ensures;

/// The SHA-256 digest of `data`.
pub uninterp spec fn sha256_spec(data: Seq<u8>) -> Seq<u8>;

/// Computes the SHA-256 digest of `data` with `sha2::Sha256::digest`. The
/// contract names the result and states its length, 32 bytes, which is the
/// output size of `Sha256`; the digest itself is not stated.
#[verifier::external_body]
fn sha256_digest(data: &[u8]) -> (d: Vec<u8>)
    ensures
        d@ == sha256_spec(data@),
        d@.len() == 32,
{
    sha2::Sha256::digest(data).to_vec()
}

/// The lower-case hexadecimal digit for `n`, a number below sixteen.
pub open spec fn hex_digit(n: nat) -> char {
    if n < 10 {
        ((n + 48) as u8) as char
    } else {
        ((n + 87) as u8) as char
    }
}

/// The bytes `b` in lower-case hexadecimal, two digits per byte (as
/// `format!("{:x}", digest)` writes a digest).
pub open spec fn hex_lower(b: Seq<u8>) -> Seq<char>
    decreases b.len(),
{
    if b.len() == 0 {
        seq![]
    } else {
        hex_lower(b.drop_last()) + seq![
            hex_digit((b.last() / 16) as nat),
            hex_digit((b.last() % 16) as nat),
        ]
    }
}

/// The hexadecimal digit for `n`.
fn hex_digit_exec(n: u8) -> (c: char)
    requires
        n < 16,
    ensures
        c == hex_digit(n as nat),
{
    if n < 10 {
        (n + 48) as char
    } else {
        (n + 87) as char
    }
}

/// The bytes `d` in lower-case hexadecimal, two digits per byte.
pub fn hex_digest(d: &[u8]) -> (r: String)
    ensures
        r@ == hex_lower(d@),
{
    let mut r = String::new();
    let mut i: usize = 0;
    while i < d.len()
        invariant
            i <= d@.len(),
            r@ == hex_lower(d@.take(i as int)),
        decreases d@.len() - i,
    {
        let b = d[i];
        string_push(&mut r, hex_digit_exec(b / 16));
        string_push(&mut r, hex_digit_exec(b % 16));
        assert(d@.take(i + 1).drop_last() =~= d@.take(i as int));
        i += 1;
    }
    assert(d@.take(i as int) =~= d@);
    r
}

/// SHA-256 hex digest of a file's contents, given those contents.
pub fn content_hash(data: &[u8]) -> (r: String)
    ensures
        r@ == hex_lower(sha256_spec(data@)),
{
    let d = sha256_digest(data);
    hex_digest(d.as_slice())
}

/// A path with the content hash of its file.
#[derive(Debug, Clone)]
pub struct HashedPath {
    pub path: String,
    pub hash: String,
}

/// The paths, in input order, whose hash is `h`; a path listed again is
/// the same file and counts once.
pub open spec fn paths_with(entries: Seq<HashedPath>, h: Seq<char>) -> Seq<Seq<char>>
    decreases entries.len(),
{
    if entries.len() == 0 {
        seq![]
    } else {
        let prev = paths_with(entries.drop_last(), h);
        if entries.last().hash@ == h && !prev.contains(entries.last().path@) {
            prev.push(entries.last().path@)
        } else {
            prev
        }
    }
}

/// The texts of a list of strings.
pub open spec fn texts(v: Seq<String>) -> Seq<Seq<char>> {
    v.map_values(|s: String| s@)
}

/// The texts of a list of lists of strings.
pub open spec fn text_groups(v: Seq<Vec<String>>) -> Seq<Seq<Seq<char>>> {
    v.map_values(|g: Vec<String>| texts(g@))
}

/// No path comes before an earlier one.
pub open spec fn sorted_paths(s: Seq<Seq<char>>) -> bool {
    forall|i: int, j: int| 0 <= i < j < s.len() ==> !path_lt(#[trigger] s[j], #[trigger] s[i])
}

/// Where `x` goes among the sorted paths `s`: before the first path that it
/// comes before, after all the others.
pub open spec fn insert_at(s: Seq<Seq<char>>, x: Seq<char>) -> int
    decreases s.len(),
{
    if s.len() == 0 {
        0
    } else if path_lt(x, s[0]) {
        0
    } else {
        1 + insert_at(s.drop_first(), x)
    }
}

/// The paths `s` sorted by path order, as a stable sort gives them: paths
/// that come in neither order (such as `d/a` and `d//a`) keep the order
/// they have in `s`.
pub open spec fn stable_sort(s: Seq<Seq<char>>) -> Seq<Seq<char>>
    decreases s.len(),
{
    if s.len() == 0 {
        seq![]
    } else {
        let r = stable_sort(s.drop_last());
        r.insert(insert_at(r, s.last()), s.last())
    }
}

/// `groups` are the duplicate groups of `entries`, group `i` holding the
/// paths with hash `hs[i]`: each hash shared by two or more paths has
/// exactly one group, which holds exactly its paths, in input order and
/// then stably sorted; the groups come in the order of the first path (in
/// input order) of each.
pub open spec fn grouped_by(
    entries: Seq<HashedPath>,
    groups: Seq<Seq<Seq<char>>>,
    hs: Seq<Seq<char>>,
) -> bool {
    &&& hs.len() == groups.len()
    &&& forall|i: int, j: int| 0 <= i < j < hs.len() ==> #[trigger] hs[i] != #[trigger] hs[j]
    &&& forall|h: Seq<char>|
        #![trigger paths_with(entries, h)]
        hs.contains(h) <==> paths_with(entries, h).len() >= 2
    &&& forall|i: int|
        0 <= i < groups.len() ==> (#[trigger] groups[i]).to_multiset() == paths_with(
            entries,
            hs[i],
        ).to_multiset()
    &&& forall|i: int| 0 <= i < groups.len() ==> sorted_paths(#[trigger] groups[i])
    &&& forall|i: int|
        0 <= i < groups.len() ==> #[trigger] groups[i] == stable_sort(paths_with(entries, hs[i]))
    &&& forall|i: int, j: int|
        0 <= i < j < hs.len() ==> !path_lt(
            paths_with(entries, #[trigger] hs[j])[0],
            paths_with(entries, #[trigger] hs[i])[0],
        )
}

/// Inserting an element into a sequence adds it to its multiset.
proof fn lemma_insert_multiset<A>(s: Seq<A>, p: int, a: A)
    requires
        0 <= p <= s.len(),
    ensures
        s.insert(p, a).to_multiset() == s.to_multiset().insert(a),
{
    let t = s.insert(p, a);
    s.insert_ensures(p, a);
    assert(t.remove(p) =~= s);
    assert(t.contains(a)) by {
        assert(t[p] == a);
    }
    assert(t.to_multiset() =~= s.to_multiset().insert(a));
}

/// The texts after inserting a string.
proof fn lemma_texts_insert(v: Seq<String>, p: int, x: String)
    requires
        0 <= p <= v.len(),
    ensures
        texts(v.insert(p, x)) == texts(v).insert(p, x@),
{
    v.insert_ensures(p, x);
    texts(v).insert_ensures(p, x@);
    assert(texts(v.insert(p, x)) =~= texts(v).insert(p, x@));
}

/// Where `x` goes among the sorted texts `out`: after every text that it
/// does not come before.
fn insert_position(out: &Vec<String>, x: &String) -> (p: usize)
    ensures
        p <= out@.len(),
        forall|i: int| 0 <= i < p ==> !path_lt(x@, (#[trigger] out@[i])@),
        p < out@.len() ==> path_lt(x@, out@[p as int]@),
{
    let mut p: usize = 0;
    while p < out.len() && !path_less(x.as_str(), out[p].as_str())
        invariant
            p <= out@.len(),
            forall|i: int| 0 <= i < p ==> !path_lt(x@, (#[trigger] out@[i])@),
        decreases out@.len() - p,
    {
        p += 1;
    }
    p
}

/// The place before the first path that `x` comes before is where
/// [`insert_at`] puts it.
proof fn lemma_insert_at(s: Seq<Seq<char>>, x: Seq<char>, p: int)
    requires
        0 <= p <= s.len(),
        forall|i: int| 0 <= i < p ==> !path_lt(x, #[trigger] s[i]),
        p < s.len() ==> path_lt(x, s[p]),
    ensures
        insert_at(s, x) == p,
    decreases p,
{
    if p > 0 {
        assert(!path_lt(x, s[0]));
        let t = s.drop_first();
        assert forall|i: int| 0 <= i < p - 1 implies !path_lt(x, #[trigger] t[i]) by {
            assert(t[i] == s[i + 1]);
        }
        if p < s.len() {
            assert(t[p - 1] == s[p]);
        }
        lemma_insert_at(t, x, p - 1);
    }
}

/// The paths of `v`, sorted; the same paths as many times each, paths that
/// come in neither order keeping their order in `v`.
pub fn sort_paths(v: &Vec<String>) -> (r: Vec<String>)
    ensures
        texts(r@).to_multiset() == texts(v@).to_multiset(),
        sorted_paths(texts(r@)),
        texts(r@) == stable_sort(texts(v@)),
{
    let mut out: Vec<String> = Vec::new();
    let mut i: usize = 0;
    assert(texts(v@).take(0) =~= Seq::<Seq<char>>::empty());
    while i < v.len()
        invariant
            i <= v@.len(),
            texts(out@).to_multiset() == texts(v@).take(i as int).to_multiset(),
            sorted_paths(texts(out@)),
            texts(out@) == stable_sort(texts(v@).take(i as int)),
        decreases v@.len() - i,
    {
        let x = v[i].clone();
        let p = insert_position(&out, &x);
        let ghost before = out@;
        out.insert(p, x);
        proof {
            lemma_texts_insert(before, p as int, x);
            lemma_insert_at(texts(before), x@, p as int);
            let pre = texts(v@).take(i + 1);
            assert(pre.drop_last() =~= texts(v@).take(i as int));
            assert(pre.last() == x@);
            lemma_insert_multiset(texts(before), p as int, x@);
            assert(texts(v@).take(i + 1) =~= texts(v@).take(i as int).push(v@[i as int]@));
            let t = texts(out@);
            texts(before).insert_ensures(p as int, x@);
            assert forall|a: int, b: int| 0 <= a < b < t.len() implies !path_lt(
                #[trigger] t[b],
                #[trigger] t[a],
            ) by {
                if b < p {
                    assert(t[a] == texts(before)[a] && t[b] == texts(before)[b]);
                } else if b == p {
                    assert(t[a] == before[a]@);
                } else if a == p {
                    assert(t[b] == texts(before)[b - 1]);
                    if p < b - 1 {
                        assert(!path_lt(texts(before)[b - 1], texts(before)[p as int]));
                    }
                    if path_lt(t[b], t[a]) {
                        lemma_path_order(t[b], x@, before[p as int]@);
                        if p < b - 1 {
                            assert(path_lt(t[b], before[p as int]@));
                        } else {
                            lemma_path_order(t[b], t[b], t[b]);
                        }
                    }
                } else if a < p {
                    assert(t[a] == texts(before)[a] && t[b] == texts(before)[b - 1]);
                } else {
                    assert(t[a] == texts(before)[a - 1] && t[b] == texts(before)[b - 1]);
                }
            }
        }
        i += 1;
    }
    assert(texts(v@).take(i as int) =~= texts(v@));
    out
}


/// Where `e` stands in `v`, if it does.
fn index_of_text(v: &Vec<String>, e: &String) -> (r: Option<usize>)
    ensures
        r matches Some(k) ==> k < v@.len() && v@[k as int]@ == e@,
        r is None ==> !holds_text(v@, e@),
{
    let mut i: usize = 0;
    while i < v.len()
        invariant
            i <= v@.len(),
            forall|j: int| 0 <= j < i ==> (#[trigger] v@[j])@ != e@,
        decreases v@.len() - i,
    {
        if v[i] == *e {
            return Some(i);
        }
        i += 1;
    }
    None
}

/// The paths with a hash, one entry more.
proof fn lemma_paths_with_step(entries: Seq<HashedPath>, i: int, h: Seq<char>)
    requires
        0 <= i < entries.len(),
    ensures
        paths_with(entries.take(i + 1), h) == if entries[i].hash@ == h && !paths_with(
            entries.take(i),
            h,
        ).contains(entries[i].path@) {
            paths_with(entries.take(i), h).push(entries[i].path@)
        } else {
            paths_with(entries.take(i), h)
        },
{
    assert(entries.take(i + 1).drop_last() =~= entries.take(i));
}

/// Group a list of paths by content hash (each path given with the hash of
/// its file). Returns only groups with more than one file (the actual
/// duplicates), each sorted, the groups in the order of their first path.
pub fn find_duplicates(entries: &Vec<HashedPath>) -> (r: Vec<Vec<String>>)
    ensures
        exists|hs: Seq<Seq<char>>| grouped_by(entries@, text_groups(r@), hs),
{
    let ghost es = entries@;
    // Collect the paths of each hash, hashes in order of first appearance.
    let mut hashes: Vec<String> = Vec::new();
    let mut buckets: Vec<Vec<String>> = Vec::new();
    let mut i: usize = 0;
    assert(es.take(0) =~= Seq::<HashedPath>::empty());
    while i < entries.len()
        invariant
            es == entries@,
            i <= es.len(),
            hashes@.len() == buckets@.len(),
            distinct_texts(hashes@),
            forall|b: int|
                0 <= b < buckets@.len() ==> texts((#[trigger] buckets@[b])@) == paths_with(
                    es.take(i as int),
                    hashes@[b]@,
                ),
            forall|h: Seq<char>|
                #![trigger paths_with(es.take(i as int), h)]
                paths_with(es.take(i as int), h).len() > 0 ==> holds_text(hashes@, h),
        decreases es.len() - i,
    {
        let e = &entries[i];
        let ghost old_buckets = buckets@;
        let ghost old_hashes = hashes@;
        proof {
            assert forall|h: Seq<char>| true implies #[trigger] paths_with(es.take(i + 1), h)
                == if es[i as int].hash@ == h && !paths_with(es.take(i as int), h).contains(
                es[i as int].path@,
            ) {
                paths_with(es.take(i as int), h).push(es[i as int].path@)
            } else {
                paths_with(es.take(i as int), h)
            } by {
                lemma_paths_with_step(es, i as int, h);
            }
        }
        match index_of_text(&hashes, &e.hash) {
            Some(b) => {
                let listed = contains_text(&buckets[b], &e.path);
                proof {
                    let pw = paths_with(es.take(i as int), hashes@[b as int]@);
                    assert(texts(buckets@[b as int]@) == pw);
                    if listed {
                        let k = choose|k: int|
                            0 <= k < buckets@[b as int]@.len() && (#[trigger] buckets@[b as int]@[k])@
                                == e.path@;
                        assert(pw[k] == e.path@);
                    } else if pw.contains(e.path@) {
                        let k = choose|k: int| 0 <= k < pw.len() && pw[k] == e.path@;
                        assert(buckets@[b as int]@[k]@ == pw[k]);
                    }
                    assert(listed == pw.contains(e.path@));
                }
                if !listed {
                    buckets[b].push(e.path.clone());
                    assert forall|c: int| 0 <= c < buckets@.len() implies texts(
                        (#[trigger] buckets@[c])@,
                    ) == paths_with(es.take(i + 1), hashes@[c]@) by {
                        if c == b {
                            assert(texts(buckets@[c]@) =~= texts(old_buckets[c]@).push(e.path@));
                        } else {
                            assert(hashes@[c]@ != hashes@[b as int]@);
                        }
                    }
                    assert forall|h: Seq<char>|
                        #![trigger paths_with(es.take(i + 1), h)]
                        paths_with(es.take(i + 1), h).len() > 0 implies holds_text(hashes@, h) by {
                        if es[i as int].hash@ == h {
                            assert(hashes@[b as int]@ == h);
                        }
                    }
                } else {
                    assert forall|c: int| 0 <= c < buckets@.len() implies texts(
                        (#[trigger] buckets@[c])@,
                    ) == paths_with(es.take(i + 1), hashes@[c]@) by {
                        if c != b {
                            assert(hashes@[c]@ != hashes@[b as int]@);
                        }
                    }
                    assert forall|h: Seq<char>|
                        #![trigger paths_with(es.take(i + 1), h)]
                        paths_with(es.take(i + 1), h).len() > 0 implies holds_text(hashes@, h) by {
                        if es[i as int].hash@ == h {
                            assert(hashes@[b as int]@ == h);
                        }
                    }
                }
            },
            None => {
                hashes.push(e.hash.clone());
                let mut nb: Vec<String> = Vec::new();
                nb.push(e.path.clone());
                buckets.push(nb);
                assert forall|c: int| 0 <= c < buckets@.len() implies texts(
                    (#[trigger] buckets@[c])@,
                ) == paths_with(es.take(i + 1), hashes@[c]@) by {
                    if c == buckets@.len() - 1 {
                        assert(paths_with(es.take(i as int), e.hash@).len() == 0);
                        assert(texts(buckets@[c]@) =~= seq![e.path@]);
                        assert(paths_with(es.take(i + 1), hashes@[c]@) =~= seq![e.path@]);
                    } else {
                        assert(buckets@[c] == old_buckets[c]);
                        assert(hashes@[c] == old_hashes[c]);
                        assert(old_hashes[c]@ != e.hash@);
                    }
                }
                assert forall|h: Seq<char>|
                    #![trigger paths_with(es.take(i + 1), h)]
                    paths_with(es.take(i + 1), h).len() > 0 implies holds_text(hashes@, h) by {
                    if es[i as int].hash@ == h {
                        assert(hashes@[hashes@.len() - 1]@ == h);
                    } else {
                        let k = choose|k: int|
                            0 <= k < old_hashes.len() && (#[trigger] old_hashes[k])@ == h;
                        assert(hashes@[k] == old_hashes[k]);
                    }
                }
                assert(distinct_texts(hashes@)) by {
                    assert forall|a: int, c: int|
                        0 <= a < c < hashes@.len() implies (#[trigger] hashes@[a])@
                        != (#[trigger] hashes@[c])@ by {
                        if c == hashes@.len() - 1 {
                            assert(hashes@[a] == old_hashes[a]);
                        } else {
                            assert(hashes@[a] == old_hashes[a] && hashes@[c] == old_hashes[c]);
                        }
                    }
                }
            },
        }
        i += 1;
    }
    assert(es.take(i as int) =~= es);
    // Keep the hashes with two or more paths, in the order of their first path.
    let mut keys: Vec<String> = Vec::new();
    let mut hs: Vec<String> = Vec::new();
    let mut groups: Vec<Vec<String>> = Vec::new();
    let mut b: usize = 0;
    let ghost mut origin: Seq<int> = seq![];
    while b < buckets.len()
        invariant
            es == entries@,
            hashes@.len() == buckets@.len(),
            b <= buckets@.len(),
            distinct_texts(hashes@),
            forall|c: int|
                0 <= c < buckets@.len() ==> texts((#[trigger] buckets@[c])@) == paths_with(
                    es,
                    hashes@[c]@,
                ),
            forall|h: Seq<char>|
                #![trigger paths_with(es, h)]
                paths_with(es, h).len() > 0 ==> holds_text(hashes@, h),
            keys@.len() == hs@.len(),
            groups@.len() == hs@.len(),
            distinct_texts(hs@),
            origin.len() == hs@.len(),
            forall|k: int|
                0 <= k < hs@.len() ==> 0 <= #[trigger] origin[k] < b && hs@[k]@
                    == hashes@[origin[k]]@ && buckets@[origin[k]]@.len() >= 2,
            forall|c: int|
                0 <= c < b && (#[trigger] buckets@[c])@.len() >= 2 ==> holds_text(
                    hs@,
                    hashes@[c]@,
                ),
            forall|k: int|
                0 <= k < hs@.len() ==> (#[trigger] keys@[k])@ == paths_with(es, hs@[k]@)[0],
            sorted_paths(texts(keys@)),
            forall|k: int|
                0 <= k < hs@.len() ==> texts((#[trigger] groups@[k])@).to_multiset()
                    == paths_with(es, hs@[k]@).to_multiset() && sorted_paths(texts(groups@[k]@))
                    && texts(groups@[k]@) == stable_sort(paths_with(es, hs@[k]@)),
        decreases buckets@.len() - b,
    {
        if buckets[b].len() > 1 {
            let key = buckets[b][0].clone();
            let sorted = sort_paths(&buckets[b]);
            let p = insert_position(&keys, &key);
            let ghost old_keys = keys@;
            let ghost old_hs = hs@;
            let ghost old_groups = groups@;
            assert(!holds_text(old_hs, hashes@[b as int]@)) by {
                if holds_text(old_hs, hashes@[b as int]@) {
                    let k = choose|k: int|
                        0 <= k < old_hs.len() && (#[trigger] old_hs[k])@ == hashes@[b as int]@;
                    let c = origin[k];
                    assert(hashes@[c]@ == hashes@[b as int]@);
                }
            }
            assert(texts(buckets@[b as int]@)[0] == key@);
            keys.insert(p, key);
            hs.insert(p, hashes[b].clone());
            groups.insert(p, sorted);
            proof {
                let old_origin = origin;
                origin = origin.insert(p as int, b as int);
                old_origin.insert_ensures(p as int, b as int);
                old_keys.insert_ensures(p as int, key);
                old_hs.insert_ensures(p as int, hashes@[b as int]);
                old_groups.insert_ensures(p as int, sorted);
                lemma_texts_insert(old_keys, p as int, key);
                texts(old_keys).insert_ensures(p as int, key@);
                assert forall|k: int|
                    0 <= k < hs@.len() implies 0 <= #[trigger] origin[k] < b + 1 && hs@[k]@
                    == hashes@[origin[k]]@ && buckets@[origin[k]]@.len() >= 2 by {
                    if k < p {
                        assert(hs@[k] == old_hs[k] && origin[k] == old_origin[k]);
                    } else if k == p {
                        assert(hs@[k]@ == hashes@[b as int]@);
                    } else {
                        assert(hs@[k] == old_hs[k - 1] && origin[k] == old_origin[k - 1]);
                    }
                }
                assert forall|c: int|
                    0 <= c < b + 1 && (#[trigger] buckets@[c])@.len() >= 2 implies holds_text(
                    hs@,
                    hashes@[c]@,
                ) by {
                    if c == b {
                        assert(hs@[p as int]@ == hashes@[c]@);
                    } else {
                        let k = choose|k: int|
                            0 <= k < old_hs.len() && (#[trigger] old_hs[k])@ == hashes@[c]@;
                        if k < p {
                            assert(hs@[k] == old_hs[k]);
                        } else {
                            assert(hs@[k + 1] == old_hs[k]);
                        }
                    }
                }
                assert(distinct_texts(hs@)) by {
                    assert forall|a: int, c: int|
                        0 <= a < c < hs@.len() implies (#[trigger] hs@[a])@ != (#[trigger] hs@[c])@ by {
                        if a == p {
                            if c > p {
                                assert(hs@[c] == old_hs[c - 1]);
                            }
                        } else if c == p {
                            assert(hs@[a] == old_hs[a]);
                        } else {
                            let a2 = if a < p { a } else { a - 1 };
                            let c2 = if c < p { c } else { c - 1 };
                            assert(hs@[a] == old_hs[a2] && hs@[c] == old_hs[c2]);
                        }
                    }
                }
                assert forall|k: int| 0 <= k < hs@.len() implies (#[trigger] keys@[k])@
                    == paths_with(es, hs@[k]@)[0] by {
                    if k < p {
                        assert(keys@[k] == old_keys[k] && hs@[k] == old_hs[k]);
                    } else if k > p {
                        assert(keys@[k] == old_keys[k - 1] && hs@[k] == old_hs[k - 1]);
                    }
                }
                assert forall|k: int|
                    0 <= k < hs@.len() implies texts((#[trigger] groups@[k])@).to_multiset()
                    == paths_with(es, hs@[k]@).to_multiset() && sorted_paths(
                    texts(groups@[k]@),
                ) && texts(groups@[k]@) == stable_sort(paths_with(es, hs@[k]@)) by {
                    if k < p {
                        assert(groups@[k] == old_groups[k] && hs@[k] == old_hs[k]);
                    } else if k > p {
                        assert(groups@[k] == old_groups[k - 1] && hs@[k] == old_hs[k - 1]);
                    }
                }
                let t = texts(keys@);
                let ot = texts(old_keys);
                assert forall|a: int, c: int| 0 <= a < c < t.len() implies !path_lt(
                    #[trigger] t[c],
                    #[trigger] t[a],
                ) by {
                    if c < p {
                        assert(t[a] == ot[a] && t[c] == ot[c]);
                    } else if c == p {
                        assert(t[a] == old_keys[a]@);
                    } else if a == p {
                        assert(t[c] == ot[c - 1]);
                        if path_lt(t[c], t[a]) {
                            lemma_path_order(t[c], key@, old_keys[p as int]@);
                            if p < c - 1 {
                                assert(!path_lt(ot[c - 1], ot[p as int]));
                            } else {
                                lemma_path_order(t[c], t[c], t[c]);
                            }
                        }
                    } else if a < p {
                        assert(t[a] == ot[a] && t[c] == ot[c - 1]);
                    } else {
                        assert(t[a] == ot[a - 1] && t[c] == ot[c - 1]);
                    }
                }
            }
        }
        b += 1;
    }
    proof {
        let hv = texts(hs@);
        let gv = text_groups(groups@);
        assert forall|h: Seq<char>|
            #![trigger paths_with(es, h)]
            hv.contains(h) <==> paths_with(es, h).len() >= 2 by {
            if hv.contains(h) {
                let k = choose|k: int| 0 <= k < hv.len() && hv[k] == h;
                assert(hs@[k]@ == h);
                let c = origin[k];
                assert(texts(buckets@[c]@).len() == buckets@[c]@.len());
            }
            if paths_with(es, h).len() >= 2 {
                let c = choose|c: int| 0 <= c < hashes@.len() && (#[trigger] hashes@[c])@ == h;
                assert(texts(buckets@[c]@).len() == buckets@[c]@.len());
                let k = choose|k: int| 0 <= k < hs@.len() && (#[trigger] hs@[k])@ == h;
                assert(hv[k] == h);
            }
        }
        assert(hv.len() == gv.len());
        assert forall|a: int, c: int| 0 <= a < c < hv.len() implies #[trigger] hv[a]
            != #[trigger] hv[c] by {
            assert(hv[a] == hs@[a]@ && hv[c] == hs@[c]@);
        }
        assert forall|k: int| 0 <= k < gv.len() implies (#[trigger] gv[k]).to_multiset()
            == paths_with(es, hv[k]).to_multiset() by {
            assert(gv[k] == texts(groups@[k]@));
            assert(hv[k] == hs@[k]@);
        }
        assert forall|k: int| 0 <= k < gv.len() implies sorted_paths(#[trigger] gv[k]) by {
            assert(gv[k] == texts(groups@[k]@));
        }
        assert forall|k: int| 0 <= k < gv.len() implies #[trigger] gv[k] == stable_sort(
            paths_with(es, hv[k]),
        ) by {
            assert(gv[k] == texts(groups@[k]@));
            assert(hv[k] == hs@[k]@);
        }
        assert forall|a: int, c: int| 0 <= a < c < hv.len() implies !path_lt(
            paths_with(es, #[trigger] hv[c])[0],
            paths_with(es, #[trigger] hv[a])[0],
        ) by {
            assert(hv[a] == hs@[a]@ && hv[c] == hs@[c]@);
            assert(texts(keys@)[a] == keys@[a]@ && texts(keys@)[c] == keys@[c]@);
        }
        assert(grouped_by(es, gv, hv));
    }
    groups
}


/// The paths a deletion removes: in each group, every path but the first.
pub open spec fn deletion_targets_spec(groups: Seq<Seq<Seq<char>>>) -> Seq<Seq<char>>
    decreases groups.len(),
{
    if groups.len() == 0 {
        seq![]
    } else {
        let g = groups.last();
        deletion_targets_spec(groups.drop_last()) + if g.len() > 0 {
            g.subrange(1, g.len() as int)
        } else {
            seq![]
        }
    }
}

/// Within each duplicate group keep the first path (sorted) and list the
/// rest, in order, as the files to delete.
pub fn deletion_targets(groups: &Vec<Vec<String>>) -> (r: Vec<String>)
    ensures
        texts(r@) == deletion_targets_spec(text_groups(groups@)),
{
    let ghost gv = text_groups(groups@);
    let mut out: Vec<String> = Vec::new();
    let mut g: usize = 0;
    assert(gv.take(0) =~= Seq::<Seq<Seq<char>>>::empty());
    while g < groups.len()
        invariant
            g <= groups@.len(),
            gv == text_groups(groups@),
            texts(out@) == deletion_targets_spec(gv.take(g as int)),
        decreases groups@.len() - g,
    {
        let group = &groups[g];
        let ghost start = texts(out@);
        if group.len() > 0 {
            let mut i: usize = 1;
            assert(start + texts(group@).subrange(1, 1) =~= start);
            while i < group.len()
                invariant
                    1 <= i <= group@.len(),
                    texts(out@) == start + texts(group@).subrange(1, i as int),
                decreases group@.len() - i,
            {
                let x = group[i].clone();
                assert(x@ == texts(group@)[i as int]);
                let ghost before = texts(out@);
                out.push(x);
                assert(texts(out@) =~= before.push(x@));
                i += 1;
                assert(texts(out@) =~= start + texts(group@).subrange(1, i as int));
            }
        }
        assert(gv.take(g + 1).drop_last() =~= gv.take(g as int));
        assert(gv[g as int] == texts(group@));
        proof {
            if group@.len() > 0 {
                assert(texts(out@) =~= start + texts(group@).subrange(1, group@.len() as int));
            } else {
                assert(texts(out@) =~= start + Seq::<Seq<char>>::empty());
            }
        }
        g += 1;
    }
    assert(gv.take(g as int) =~= gv);
    out
}

/// A path listed more than once counts once among the paths of a hash.
proof fn lemma_paths_with_distinct(entries: Seq<HashedPath>, h: Seq<char>)
    ensures
        paths_with(entries, h).no_duplicates(),
    decreases entries.len(),
{
    if entries.len() > 0 {
        lemma_paths_with_distinct(entries.drop_last(), h);
        let prev = paths_with(entries.drop_last(), h);
        let p = entries.last().path@;
        if entries.last().hash@ == h && !prev.contains(p) {
            assert forall|a: int, b: int|
                0 <= a < b < prev.push(p).len() implies prev.push(p)[a] != prev.push(p)[b] by {
                if b == prev.len() {
                    assert(prev.push(p)[a] == prev[a]);
                }
            }
        }
    }
}

/// Every duplicate group holds two or more different paths, and each of its
/// paths is a path given with the group's hash: the groups hold actual
/// duplicates, and a path listed twice is not a duplicate of itself.
pub proof fn law_groups_hold_duplicates(
    entries: Seq<HashedPath>,
    groups: Seq<Seq<Seq<char>>>,
    hs: Seq<Seq<char>>,
    i: int,
    j: int,
)
    requires
        grouped_by(entries, groups, hs),
        0 <= i < groups.len(),
        0 <= j < groups[i].len(),
    ensures
        groups[i].len() >= 2,
        groups[i].no_duplicates(),
        paths_with(entries, hs[i]).contains(groups[i][j]),
{
    assert(hs.contains(hs[i]));
    assert(paths_with(entries, hs[i]).len() >= 2);
    assert(groups[i].to_multiset().len() == paths_with(entries, hs[i]).to_multiset().len());
    assert(groups[i].contains(groups[i][j]));
    assert(groups[i].to_multiset().count(groups[i][j]) > 0);
    let pw = paths_with(entries, hs[i]);
    lemma_paths_with_distinct(entries, hs[i]);
    pw.lemma_multiset_has_no_duplicates();
    groups[i].lemma_multiset_has_no_duplicates_conv();
}

/// The path kept in each group, its first, comes no later in path order
/// than any other path of the group.
pub proof fn law_kept_path_comes_first(
    entries: Seq<HashedPath>,
    groups: Seq<Seq<Seq<char>>>,
    hs: Seq<Seq<char>>,
    i: int,
    j: int,
)
    requires
        grouped_by(entries, groups, hs),
        0 <= i < groups.len(),
        0 < j < groups[i].len(),
    ensures
        !path_lt(groups[i][j], groups[i][0]),
{
    assert(sorted_paths(groups[i]));
}

/// A deletion removes, from each group, all paths but the one kept.
pub proof fn law_deletion_spares_one_per_group(groups: Seq<Seq<Seq<char>>>)
    requires
        forall|k: int| 0 <= k < groups.len() ==> (#[trigger] groups[k]).len() >= 1,
    ensures
        deletion_targets_spec(groups).len() + groups.len() == total_paths(groups),
    decreases groups.len(),
{
    if groups.len() > 0 {
        law_deletion_spares_one_per_group(groups.drop_last());
    }
}

/// The number of paths in all groups.
pub open spec fn total_paths(groups: Seq<Seq<Seq<char>>>) -> int
    decreases groups.len(),
{
    if groups.len() == 0 {
        0
    } else {
        total_paths(groups.drop_last()) + groups.last().len()
    }
}

} // verus!

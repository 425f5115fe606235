//! Path resolver: paths are `/`-separated strings, compared and rewritten
//! component by component. Backslashes are normalized to forward slashes so
//! playlists written on either separator convention read back the same way.
use vstd::prelude::*;
use crate::text::{split_spec, split_char, views_of, to_chars, from_chars};

verus! {

/// Path separators normalized: every backslash becomes a forward slash.
pub open spec fn norm_spec(s: Seq<char>) -> Seq<char> {
    s.map_values(|c: char| if c == '\\' { '/' } else { c })
}

pub fn normalize_seps(v: &Vec<char>) -> (r: Vec<char>)
    ensures
        r@ == norm_spec(v@),
{
    let mut r: Vec<char> = Vec::new();
    let mut i: usize = 0;
    while i < v.len()
        invariant
            i <= v.len(),
            r@ == norm_spec(v@.take(i as int)),
        decreases v.len() - i,
    {
        let c = v[i];
        if c == '\\' {
            r.push('/');
        } else {
            r.push(c);
        }
        proof {
            assert(norm_spec(v@.take(i + 1)) =~= norm_spec(v@.take(i as int)).push(
                if v@[i as int] == '\\' {
                    '/'
                } else {
                    v@[i as int]
                },
            ));
        }
        i = i + 1;
    }
    proof {
        assert(v@.take(v@.len() as int) =~= v@);
    }
    r
}

/// An absolute path: one that begins at the root.
pub open spec fn is_abs_spec(s: Seq<char>) -> bool {
    s.len() > 0 && s[0] == '/'
}

/// The marker component standing for the root of an absolute path.
pub open spec fn root_marker() -> Seq<char> {
    seq!['/']
}

/// A piece of a split path that counts as a component: non-empty and not
/// the no-op `.` segment.
pub open spec fn seg_kept(p: Seq<char>) -> bool {
    p.len() > 0 && !(p.len() == 1 && p[0] == '.')
}

/// The pieces of a split path that count as components.
pub open spec fn keep_rec(ps: Seq<Seq<char>>) -> Seq<Seq<char>>
    decreases ps.len(),
{
    if ps.len() == 0 {
        Seq::empty()
    } else if seg_kept(ps[0]) {
        seq![ps[0]] + keep_rec(ps.drop_first())
    } else {
        keep_rec(ps.drop_first())
    }
}

pub open spec fn kept_segs(s: Seq<char>) -> Seq<Seq<char>> {
    keep_rec(split_spec(s, '/'))
}

/// The components of a path: a root marker if it is absolute, then its
/// non-empty, non-`.` segments in order.
pub open spec fn components_spec(s: Seq<char>) -> Seq<Seq<char>> {
    if is_abs_spec(s) {
        seq![root_marker()] + kept_segs(s)
    } else {
        kept_segs(s)
    }
}

pub fn components(v: &Vec<char>) -> (r: Vec<Vec<char>>)
    ensures
        views_of(r@) == components_spec(v@),
{
    let segs = split_char(v, '/');
    let mut r: Vec<Vec<char>> = Vec::new();
    if v.len() > 0 && v[0] == '/' {
        let mut root: Vec<char> = Vec::new();
        root.push('/');
        proof {
            assert(root@ =~= root_marker());
        }
        r.push(root);
    }
    let ghost full = views_of(segs@);
    proof {
        assert(full.skip(0) =~= full);
        if is_abs_spec(v@) {
            assert(views_of(r@) =~= seq![root_marker()]);
            assert(components_spec(v@) =~= views_of(r@) + keep_rec(full));
        } else {
            assert(views_of(r@) =~= Seq::<Seq<char>>::empty());
            assert(components_spec(v@) =~= views_of(r@) + keep_rec(full));
        }
    }
    let mut i: usize = 0;
    while i < segs.len()
        invariant
            i <= segs@.len(),
            full == views_of(segs@),
            components_spec(v@) == views_of(r@) + keep_rec(full.skip(i as int)),
        decreases segs.len() - i,
    {
        let seg = &segs[i];
        proof {
            assert(full.skip(i as int)[0] == seg@);
            assert(full.skip(i as int).drop_first() =~= full.skip(i + 1));
        }
        if seg.len() > 0 && !(seg.len() == 1 && seg[0] == '.') {
            let ghost oldr = r@;
            r.push(seg.clone());
            proof {
                assert(views_of(r@) =~= views_of(oldr).push(seg@));
                assert(views_of(oldr).push(seg@) + keep_rec(full.skip(i + 1)) =~= views_of(oldr) + (
                seq![seg@] + keep_rec(full.skip(i + 1))));
            }
        }
        i = i + 1;
    }
    proof {
        assert(keep_rec(full.skip(segs@.len() as int)) =~= Seq::<Seq<char>>::empty());
        assert(views_of(r@) + Seq::<Seq<char>>::empty() =~= views_of(r@));
    }
    r
}

/// Joining a raw playlist reference onto a directory: an absolute
/// reference stands alone, anything else goes under the directory.
pub open spec fn join_spec(dir: Seq<char>, raw: Seq<char>) -> Seq<char> {
    if is_abs_spec(raw) {
        raw
    } else if dir.len() == 0 {
        raw
    } else if dir.last() == '/' {
        dir + raw
    } else {
        dir + seq!['/'] + raw
    }
}

pub fn join_path(dir: &Vec<char>, raw: &Vec<char>) -> (r: Vec<char>)
    ensures
        r@ == join_spec(dir@, raw@),
{
    if raw.len() > 0 && raw[0] == '/' {
        return raw.clone();
    }
    if dir.len() == 0 {
        return raw.clone();
    }
    let mut r = dir.clone();
    if dir[dir.len() - 1] != '/' {
        r.push('/');
    }
    let mut i: usize = 0;
    let ghost base = r@;
    while i < raw.len()
        invariant
            i <= raw.len(),
            r@ == base + raw@.take(i as int),
        decreases raw.len() - i,
    {
        r.push(raw[i]);
        proof {
            assert(base + raw@.take(i + 1) =~= (base + raw@.take(i as int)).push(raw@[i as int]));
        }
        i = i + 1;
    }
    proof {
        assert(base + raw@.take(raw@.len() as int) =~= base + raw@);
        if dir@.last() == '/' {
            assert(r@ =~= join_spec(dir@, raw@));
        } else {
            assert(r@ =~= join_spec(dir@, raw@));
        }
    }
    r
}

/// How many leading components two paths share.
pub open spec fn common_len_spec(f: Seq<Seq<char>>, t: Seq<Seq<char>>) -> int
    decreases f.len(),
{
    if f.len() > 0 && t.len() > 0 && f[0] == t[0] {
        1 + common_len_spec(f.drop_first(), t.drop_first())
    } else {
        0
    }
}

pub proof fn lemma_common_len(f: Seq<Seq<char>>, t: Seq<Seq<char>>)
    ensures
        0 <= common_len_spec(f, t) <= f.len(),
        common_len_spec(f, t) <= t.len(),
        forall|i: int| 0 <= i < common_len_spec(f, t) ==> f[i] == t[i],
        common_len_spec(f, t) < f.len() && common_len_spec(f, t) < t.len() ==> f[common_len_spec(
            f,
            t,
        )] != t[common_len_spec(f, t)],
    decreases f.len(),
{
    if f.len() > 0 && t.len() > 0 && f[0] == t[0] {
        lemma_common_len(f.drop_first(), t.drop_first());
        let c = common_len_spec(f, t);
        assert(forall|i: int|
            1 <= i < c ==> f[i] == f.drop_first()[i - 1] && t[i] == t.drop_first()[i - 1]);
        if c < f.len() && c < t.len() {
            assert(f[c] == f.drop_first()[c - 1] && t[c] == t.drop_first()[c - 1]);
        }
    }
}

/// A pairwise-equal prefix of maximal length is the common length.
pub proof fn lemma_common_len_unique(f: Seq<Seq<char>>, t: Seq<Seq<char>>, c: int)
    requires
        0 <= c <= f.len(),
        c <= t.len(),
        forall|i: int| 0 <= i < c ==> f[i] == t[i],
        c == f.len() || c == t.len() || f[c] != t[c],
    ensures
        common_len_spec(f, t) == c,
    decreases c,
{
    if c == 0 {
        if f.len() > 0 && t.len() > 0 && f[0] == t[0] {
            assert(false);
        }
    } else {
        assert(f[0] == t[0]);
        let f1 = f.drop_first();
        let t1 = t.drop_first();
        assert(forall|i: int| 0 <= i < c - 1 ==> f1[i] == f[i + 1] && t1[i] == t[i + 1]);
        if c - 1 < f1.len() && c - 1 < t1.len() {
            assert(f1[c - 1] == f[c] && t1[c - 1] == t[c]);
        }
        lemma_common_len_unique(f1, t1, c - 1);
    }
}

/// `n` repetitions of the `..` parent component.
pub open spec fn dots(n: int) -> Seq<Seq<char>> {
    Seq::new(n as nat, |i: int| seq!['.', '.'])
}

/// Components interleaved with `/` separators, no root.
pub open spec fn join_slash(segs: Seq<Seq<char>>) -> Seq<char>
    decreases segs.len(),
{
    if segs.len() == 0 {
        Seq::empty()
    } else if segs.len() == 1 {
        segs[0]
    } else {
        segs[0] + seq!['/'] + join_slash(segs.drop_first())
    }
}

pub proof fn lemma_join_slash_push(segs: Seq<Seq<char>>, x: Seq<char>)
    ensures
        join_slash(segs.push(x)) == if segs.len() == 0 {
            x
        } else {
            join_slash(segs) + seq!['/'] + x
        },
    decreases segs.len(),
{
    let p = segs.push(x);
    if segs.len() == 0 {
        assert(p[0] == x);
    } else {
        assert(p[0] == segs[0]);
        assert(p.drop_first() =~= segs.drop_first().push(x));
        lemma_join_slash_push(segs.drop_first(), x);
        if segs.len() == 1 {
            assert(join_slash(p) =~= segs[0] + seq!['/'] + x);
        } else {
            assert(segs[0] + seq!['/'] + (join_slash(segs.drop_first()) + seq!['/'] + x) =~= (
            segs[0] + seq!['/'] + join_slash(segs.drop_first())) + seq!['/'] + x);
        }
    }
}

/// The textual path standing for a component sequence: a leading root
/// marker becomes a leading slash.
pub open spec fn path_of(cs: Seq<Seq<char>>) -> Seq<char> {
    if cs.len() > 0 && cs[0] == root_marker() {
        seq!['/'] + join_slash(cs.drop_first())
    } else {
        join_slash(cs)
    }
}

/// Join components into a textual path, root marker included.
pub fn path_from_components(cs: &Vec<Vec<char>>, start: usize) -> (r: Vec<char>)
    requires
        start <= cs@.len(),
    ensures
        r@ == path_of(views_of(cs@).skip(start as int)),
{
    let ghost rem = views_of(cs@).skip(start as int);
    let mut r: Vec<char> = Vec::new();
    let mut i: usize = start;
    let mut rooted: bool = false;
    if start < cs.len() && cs[start].len() == 1 && cs[start][0] == '/' {
        proof {
            assert(rem[0] =~= root_marker());
        }
        r.push('/');
        rooted = true;
        i = i + 1;
    }
    proof {
        if rem.len() > 0 && rem[0] == root_marker() {
            assert(rooted);
        }
        assert(views_of(cs@).skip(i as int).take(0) =~= Seq::<Seq<char>>::empty());
    }
    let ghost tail = views_of(cs@).skip(i as int);
    let ghost head = r@;
    let start2 = i;
    let mut first: bool = true;
    while i < cs.len()
        invariant
            start2 <= i <= cs@.len(),
            tail == views_of(cs@).skip(start2 as int),
            first == (i == start2),
            r@ == head + join_slash(tail.take(i - start2)),
        decreases cs.len() - i,
    {
        if !first {
            r.push('/');
        }
        crate::text::append_chars(&mut r, &cs[i]);
        proof {
            let k = i - start2;
            assert(tail.take(k + 1) =~= tail.take(k).push(tail[k]));
            lemma_join_slash_push(tail.take(k), tail[k]);
            assert(tail[k] == views_of(cs@)[i as int]);
            if first {
                assert(head + join_slash(tail.take(k)) =~= head);
                assert(head + (join_slash(tail.take(k + 1))) =~= r@);
            } else {
                assert(head + join_slash(tail.take(k + 1)) =~= (head + join_slash(tail.take(k)))
                    + seq!['/'] + tail[k]);
            }
        }
        first = false;
        i = i + 1;
    }
    proof {
        assert(tail.take(cs@.len() - start2) =~= tail);
        if rooted {
            assert(rem[0] == root_marker());
            assert(tail =~= rem.drop_first());
            assert(r@ =~= path_of(rem));
        } else {
            assert(tail =~= rem);
            if rem.len() > 0 && rem[0] == root_marker() {
                assert(false);
            }
            assert(r@ =~= path_of(rem));
        }
    }
    r
}

/// The relative path from `from` to `to`: up one `..` for every component
/// of `from` past the common prefix, then the rest of `to`.
pub open spec fn rel_path_spec(from: Seq<char>, to: Seq<char>) -> Seq<char> {
    let f = components_spec(from);
    let t = components_spec(to);
    let c = common_len_spec(f, t);
    if c == 0 && is_abs_spec(to) {
        path_of(t)
    } else {
        path_of(dots(f.len() - c) + t.skip(c))
    }
}

/// The path from `from_dir` to `to_file`, one `..` per component of
/// `from_dir` below their deepest shared directory.
pub fn compute_relative_path(from_dir: &str, to_file: &str) -> (r: String)
    ensures
        r@ == rel_path_spec(from_dir@, to_file@),
{
    let fv = to_chars(from_dir);
    let tv = to_chars(to_file);
    let f = components(&fv);
    let t = components(&tv);
    let mut c: usize = 0;
    proof {
        lemma_common_len(views_of(f@), views_of(t@));
    }
    while c < f.len() && c < t.len() && crate::text::chars_eq(&f[c], &t[c])
        invariant
            c <= f@.len(),
            c <= t@.len(),
            forall|i: int| 0 <= i < c ==> views_of(f@)[i] == views_of(t@)[i],
        decreases f@.len() - c,
    {
        c = c + 1;
    }
    proof {
        lemma_common_len_unique(views_of(f@), views_of(t@), c as int);
    }
    if c == 0 && tv.len() > 0 && tv[0] == '/' {
        let out = path_from_components(&t, 0);
        proof {
            assert(views_of(t@).skip(0) =~= views_of(t@));
        }
        return from_chars(&out);
    }
    let mut segs: Vec<Vec<char>> = Vec::new();
    let mut k: usize = c;
    while k < f.len()
        invariant
            c <= k <= f@.len(),
            views_of(segs@) == dots(k - c),
        decreases f@.len() - k,
    {
        let mut dd: Vec<char> = Vec::new();
        dd.push('.');
        dd.push('.');
        proof {
            assert(dd@ =~= seq!['.', '.']);
        }
        let ghost oldsegs = segs@;
        segs.push(dd);
        proof {
            assert forall|i: int| 0 <= i < views_of(segs@).len() implies views_of(segs@)[i]
                == dots(k + 1 - c)[i] by {
                if i < k - c {
                    assert(segs@[i] == oldsegs[i]);
                    assert(views_of(oldsegs)[i] == dots(k - c)[i]);
                } else {
                    assert(segs@[i] == dd);
                }
            }
            assert(views_of(segs@) =~= dots(k + 1 - c));
        }
        k = k + 1;
    }
    let mut k2: usize = c;
    while k2 < t.len()
        invariant
            c <= k2 <= t@.len(),
            views_of(segs@) == dots(f@.len() - c) + views_of(t@).subrange(c as int, k2 as int),
        decreases t@.len() - k2,
    {
        let ghost oldsegs = segs@;
        segs.push(t[k2].clone());
        proof {
            assert(views_of(segs@) =~= views_of(oldsegs).push(views_of(t@)[k2 as int]));
            assert(views_of(oldsegs).push(views_of(t@)[k2 as int]) =~= dots(f@.len() - c)
                + views_of(t@).subrange(c as int, k2 + 1));
        }
        k2 = k2 + 1;
    }
    proof {
        assert(views_of(t@).subrange(c as int, t@.len() as int) =~= views_of(t@).skip(c as int));
        assert(dots(f@.len() - c) + views_of(t@).skip(c as int) =~= views_of(segs@));
    }
    let joined = path_from_components(&segs, 0);
    proof {
        assert(views_of(segs@).skip(0) =~= views_of(segs@));
    }
    from_chars(&joined)
}

/// Normalization leaves a backslash-free sequence alone.
pub proof fn lemma_norm_id(s: Seq<char>)
    requires
        forall|k: int| 0 <= k < s.len() ==> s[k] != '\\',
    ensures
        norm_spec(s) == s,
{
    assert(norm_spec(s) =~= s);
}

/// Component filtering distributes over concatenation.
proof fn lemma_keep_distributes(p1: Seq<Seq<char>>, p2: Seq<Seq<char>>)
    ensures
        keep_rec(p1 + p2) == keep_rec(p1) + keep_rec(p2),
    decreases p1.len(),
{
    if p1.len() == 0 {
        assert(p1 + p2 =~= p2);
        assert(keep_rec(p1) + keep_rec(p2) =~= keep_rec(p2));
    } else {
        assert((p1 + p2)[0] == p1[0]);
        assert((p1 + p2).drop_first() =~= p1.drop_first() + p2);
        lemma_keep_distributes(p1.drop_first(), p2);
        if seg_kept(p1[0]) {
            assert(seq![p1[0]] + (keep_rec(p1.drop_first()) + keep_rec(p2)) =~= (seq![p1[0]]
                + keep_rec(p1.drop_first())) + keep_rec(p2));
        }
    }
}

/// Every piece that filtering keeps counts as a component.
proof fn lemma_keep_kept(ps: Seq<Seq<char>>)
    ensures
        forall|i: int| 0 <= i < keep_rec(ps).len() ==> seg_kept(#[trigger] keep_rec(ps)[i]),
    decreases ps.len(),
{
    if ps.len() > 0 {
        lemma_keep_kept(ps.drop_first());
        let k = keep_rec(ps);
        let rest = keep_rec(ps.drop_first());
        assert forall|i: int| 0 <= i < k.len() implies seg_kept(#[trigger] k[i]) by {
            if seg_kept(ps[0]) {
                if i > 0 {
                    assert(k[i] == rest[i - 1]);
                }
            } else {
                assert(k[i] == rest[i]);
            }
        }
    }
}

/// Filtering keeps no character the pieces avoid.
proof fn lemma_keep_avoid(ps: Seq<Seq<char>>, c: char)
    requires
        forall|i: int, j: int| 0 <= i < ps.len() && 0 <= j < ps[i].len() ==> ps[i][j] != c,
    ensures
        forall|i: int, j: int|
            0 <= i < keep_rec(ps).len() && 0 <= j < keep_rec(ps)[i].len() ==> keep_rec(
                ps,
            )[i][j] != c,
    decreases ps.len(),
{
    if ps.len() > 0 {
        let t = ps.drop_first();
        assert(forall|i: int, j: int|
            0 <= i < t.len() && 0 <= j < t[i].len() ==> t[i][j] == ps[i + 1][j]);
        lemma_keep_avoid(t, c);
        let k = keep_rec(ps);
        let rest = keep_rec(t);
        assert forall|i: int, j: int|
            0 <= i < k.len() && 0 <= j < k[i].len() implies k[i][j] != c by {
            if seg_kept(ps[0]) {
                if i > 0 {
                    assert(k[i] == rest[i - 1]);
                }
            } else {
                assert(k[i] == rest[i]);
            }
        }
    }
}

/// The kept segments of a path are components: non-trivial and `/`-free.
pub proof fn lemma_kept_segs_shape(s: Seq<char>)
    ensures
        forall|i: int| 0 <= i < kept_segs(s).len() ==> seg_kept(#[trigger] kept_segs(s)[i]),
        forall|i: int, j: int|
            0 <= i < kept_segs(s).len() && 0 <= j < kept_segs(s)[i].len() ==> kept_segs(
                s,
            )[i][j] != '/',
{
    crate::text::lemma_split_avoid(s, '/', Seq::empty(), '/');
    lemma_keep_kept(split_spec(s, '/'));
    lemma_keep_avoid(split_spec(s, '/'), '/');
}

/// The kept segments avoid any character the path avoids.
pub proof fn lemma_kept_segs_avoid(s: Seq<char>, c: char)
    requires
        forall|k: int| 0 <= k < s.len() ==> s[k] != c,
    ensures
        forall|i: int, j: int|
            0 <= i < kept_segs(s).len() && 0 <= j < kept_segs(s)[i].len() ==> kept_segs(
                s,
            )[i][j] != c,
{
    crate::text::lemma_split_avoid(s, '/', Seq::empty(), c);
    lemma_keep_avoid(split_spec(s, '/'), c);
}

/// A joined component list avoids any character its components avoid,
/// other than the separator.
proof fn lemma_join_slash_avoid(segs: Seq<Seq<char>>, c: char)
    requires
        c != '/',
        forall|i: int, j: int| 0 <= i < segs.len() && 0 <= j < segs[i].len() ==> segs[i][j] != c,
    ensures
        forall|k: int| 0 <= k < join_slash(segs).len() ==> join_slash(segs)[k] != c,
    decreases segs.len(),
{
    if segs.len() <= 1 {
    } else {
        let t = segs.drop_first();
        assert(forall|i: int, j: int|
            0 <= i < t.len() && 0 <= j < t[i].len() ==> t[i][j] == segs[i + 1][j]);
        lemma_join_slash_avoid(t, c);
        let w = join_slash(segs);
        assert forall|k: int| 0 <= k < w.len() implies w[k] != c by {
            if k < segs[0].len() {
                assert(w[k] == segs[0][k]);
            } else if k == segs[0].len() {
                assert(w[k] == '/');
            } else {
                assert(w[k] == join_slash(t)[k - segs[0].len() - 1]);
            }
        }
    }
}

/// A joined component list starts with its first component's first
/// character.
proof fn lemma_join_slash_first(segs: Seq<Seq<char>>)
    requires
        segs.len() > 0,
        segs[0].len() > 0,
    ensures
        join_slash(segs).len() > 0,
        join_slash(segs)[0] == segs[0][0],
{
    if segs.len() > 1 {
        assert(join_slash(segs)[0] == segs[0][0]);
    }
}

/// Splitting a joined component list recovers the components.
pub proof fn lemma_kept_join_slash(segs: Seq<Seq<char>>)
    requires
        forall|i: int| 0 <= i < segs.len() ==> seg_kept(#[trigger] segs[i]),
        forall|i: int, j: int| 0 <= i < segs.len() && 0 <= j < segs[i].len() ==> segs[i][j] != '/',
    ensures
        kept_segs(join_slash(segs)) == segs,
    decreases segs.len(),
{
    if segs.len() == 0 {
        let e = Seq::<char>::empty();
        assert(split_spec(e, '/') == seq![e]);
        let ps = seq![e];
        assert(!seg_kept(ps[0]));
        let ee = ps.drop_first();
        assert(ee.len() == 0);
        assert(keep_rec(ee) == Seq::<Seq<char>>::empty());
        assert(keep_rec(ps) == keep_rec(ee));
        assert(kept_segs(e) =~= segs);
    } else if segs.len() == 1 {
        crate::text::lemma_split_single(segs[0], '/', Seq::empty());
        assert(Seq::<char>::empty() + segs[0] =~= segs[0]);
        let ps = seq![segs[0]];
        assert(seg_kept(ps[0]));
        let ee = ps.drop_first();
        assert(ee.len() == 0);
        assert(keep_rec(ee) == Seq::<Seq<char>>::empty());
        assert(keep_rec(ps) == seq![ps[0]] + keep_rec(ee));
        assert(seq![ps[0]] + keep_rec(ee) =~= segs);
        assert(kept_segs(join_slash(segs)) =~= segs);
    } else {
        let t = segs.drop_first();
        assert(forall|i: int| 0 <= i < t.len() ==> t[i] == segs[i + 1]);
        assert(forall|i: int, j: int|
            0 <= i < t.len() && 0 <= j < t[i].len() ==> t[i][j] == segs[i + 1][j]);
        crate::text::lemma_split_concat(segs[0], join_slash(t), '/', Seq::empty());
        crate::text::lemma_split_single(segs[0], '/', Seq::empty());
        assert(Seq::<char>::empty() + segs[0] =~= segs[0]);
        lemma_keep_distributes(seq![segs[0]], split_spec(join_slash(t), '/'));
        assert(keep_rec(seq![segs[0]]) =~= seq![segs[0]]) by {
            let ps = seq![segs[0]];
            assert(seg_kept(ps[0]));
            let ee = ps.drop_first();
            assert(ee.len() == 0);
            assert(keep_rec(ee) == Seq::<Seq<char>>::empty());
            assert(keep_rec(ps) == seq![ps[0]] + keep_rec(ee));
        }
        lemma_kept_join_slash(t);
        assert(kept_segs(join_slash(segs)) =~= seq![segs[0]] + t);
        assert(seq![segs[0]] + t =~= segs);
    }
}

/// Components of a join whose right side is relative: the directory's
/// components, then the reference's kept segments.
pub proof fn lemma_components_join(dir: Seq<char>, rel: Seq<char>)
    requires
        is_abs_spec(dir),
        !is_abs_spec(rel),
    ensures
        components_spec(join_spec(dir, rel)) == components_spec(dir) + kept_segs(rel),
{
    let j = join_spec(dir, rel);
    if dir.last() == '/' {
        let dir0 = dir.drop_last();
        assert(j == dir + rel);
        assert(j =~= dir0 + seq!['/'] + rel);
        crate::text::lemma_split_concat(dir0, rel, '/', Seq::empty());
        lemma_keep_distributes(split_spec(dir0, '/'), split_spec(rel, '/'));
        assert(dir =~= dir0 + seq!['/'] + Seq::<char>::empty());
        crate::text::lemma_split_concat(dir0, Seq::<char>::empty(), '/', Seq::empty());
        assert(split_spec(Seq::<char>::empty(), '/') =~= seq![Seq::<char>::empty()]);
        lemma_keep_distributes(split_spec(dir0, '/'), seq![Seq::<char>::empty()]);
        assert(keep_rec(seq![Seq::<char>::empty()]) =~= Seq::<Seq<char>>::empty()) by {
            let ps = seq![Seq::<char>::empty()];
            assert(!seg_kept(ps[0]));
            let ee = ps.drop_first();
            assert(ee.len() == 0);
            assert(keep_rec(ee) == Seq::<Seq<char>>::empty());
            assert(keep_rec(ps) == keep_rec(ee));
        }
        assert(kept_segs(dir) =~= keep_rec(split_spec(dir0, '/')));
        assert(j[0] == dir[0]) by {
            if dir.len() == 1 {
            } else {
                assert(j[0] == dir0[0]);
            }
        }
        assert(is_abs_spec(j));
        assert(components_spec(j) =~= (seq![root_marker()] + kept_segs(dir)) + kept_segs(rel));
    } else {
        assert(j == dir + seq!['/'] + rel);
        crate::text::lemma_split_concat(dir, rel, '/', Seq::empty());
        lemma_keep_distributes(split_spec(dir, '/'), split_spec(rel, '/'));
        assert(j[0] == dir[0]);
        assert(is_abs_spec(j));
        assert(components_spec(j) =~= (seq![root_marker()] + kept_segs(dir)) + kept_segs(rel));
    }
}

/// Walking a component list: a `..` steps out of the directory built so
/// far, anything else steps into it. This is what canonicalizing the
/// joined path does to its components on disk.
pub open spec fn resolve_dots_rec(segs: Seq<Seq<char>>, stack: Seq<Seq<char>>) -> Seq<Seq<char>>
    decreases segs.len(),
{
    if segs.len() == 0 {
        stack
    } else if segs[0] == seq!['.', '.'] {
        resolve_dots_rec(
            segs.drop_first(),
            if stack.len() > 0 {
                stack.drop_last()
            } else {
                stack
            },
        )
    } else {
        resolve_dots_rec(segs.drop_first(), stack.push(segs[0]))
    }
}

pub open spec fn resolve_dots_spec(segs: Seq<Seq<char>>) -> Seq<Seq<char>> {
    resolve_dots_rec(segs, Seq::empty())
}

/// A `..`-free prefix is pushed wholesale.
proof fn lemma_resolve_prefix(p: Seq<Seq<char>>, rest: Seq<Seq<char>>, stack: Seq<Seq<char>>)
    requires
        forall|i: int| 0 <= i < p.len() ==> p[i] != seq!['.', '.'],
    ensures
        resolve_dots_rec(p + rest, stack) == resolve_dots_rec(rest, stack + p),
    decreases p.len(),
{
    if p.len() == 0 {
        assert(p + rest =~= rest);
        assert(stack + p =~= stack);
    } else {
        assert((p + rest)[0] == p[0]);
        assert((p + rest).drop_first() =~= p.drop_first() + rest);
        lemma_resolve_prefix(p.drop_first(), rest, stack.push(p[0]));
        assert(stack.push(p[0]) + p.drop_first() =~= stack + p);
    }
}

/// Each leading `..` pops one component off the stack.
proof fn lemma_resolve_pops(ups: int, rest: Seq<Seq<char>>, stack: Seq<Seq<char>>)
    requires
        0 <= ups <= stack.len(),
    ensures
        resolve_dots_rec(dots(ups) + rest, stack) == resolve_dots_rec(
            rest,
            stack.take(stack.len() - ups),
        ),
    decreases ups,
{
    if ups == 0 {
        assert(dots(0) + rest =~= rest);
        assert(stack.take(stack.len() as int) =~= stack);
    } else {
        let d = dots(ups) + rest;
        assert(d[0] == seq!['.', '.']);
        assert(d.drop_first() =~= dots(ups - 1) + rest);
        lemma_resolve_pops(ups - 1, rest, stack.drop_last());
        assert(stack.drop_last().take(stack.len() - ups) =~= stack.take(stack.len() - ups));
    }
}

/// Path resolution round-trip: write a path relative to the playlist
/// directory, join it back onto that directory, and the original
/// absolute path's components come back once the `..` steps are walked —
/// which is what canonicalization does on disk. Holds for clean absolute
/// paths: `/`-separated, without `..` components.
pub proof fn lemma_relative_roundtrip(dir: Seq<char>, abs: Seq<char>)
    requires
        is_abs_spec(dir),
        is_abs_spec(abs),
        forall|k: int| 0 <= k < dir.len() ==> dir[k] != '\\',
        forall|k: int| 0 <= k < abs.len() ==> abs[k] != '\\',
        forall|i: int|
            0 <= i < components_spec(dir).len() ==> #[trigger] components_spec(dir)[i] != seq![
                '.',
                '.',
            ],
        forall|i: int|
            0 <= i < components_spec(abs).len() ==> #[trigger] components_spec(abs)[i] != seq![
                '.',
                '.',
            ],
    ensures
        resolve_dots_spec(
            components_spec(join_spec(dir, norm_spec(rel_path_spec(dir, abs)))),
        ) == components_spec(abs),
{
    let f = components_spec(dir);
    let t = components_spec(abs);
    let c = common_len_spec(f, t);
    lemma_common_len(f, t);
    assert(f[0] == root_marker());
    assert(t[0] == root_marker());
    assert(c >= 1) by {
        if c == 0 {
            assert(f[0] != t[0]);
        }
    }
    let ups = f.len() - c;
    let rem = dots(ups) + t.skip(c);
    lemma_kept_segs_shape(dir);
    lemma_kept_segs_shape(abs);
    lemma_kept_segs_avoid(dir, '\\');
    lemma_kept_segs_avoid(abs, '\\');
    // every element of `rem` is a kept, slash-free, backslash-free segment
    assert forall|i: int| 0 <= i < rem.len() implies seg_kept(#[trigger] rem[i]) && (forall|j: int|
        0 <= j < rem[i].len() ==> rem[i][j] != '/' && rem[i][j] != '\\') by {
        if i < ups {
            assert(rem[i] == seq!['.', '.']);
        } else {
            assert(rem[i] == t[c + (i - ups)]);
            assert(t[c + (i - ups)] == kept_segs(abs)[c + (i - ups) - 1]);
        }
    }
    // the relative path is the plain join of `rem`
    let rel = rel_path_spec(dir, abs);
    assert(rel == path_of(rem));
    assert(rel == join_slash(rem)) by {
        if rem.len() > 0 && rem[0] == root_marker() {
            assert(rem[0][0] != '/');
            assert(root_marker()[0] == '/');
            assert(false);
        }
    }
    // it has no backslash and is not absolute
    lemma_join_slash_avoid(rem, '\\');
    lemma_norm_id(rel);
    assert(!is_abs_spec(rel)) by {
        if rel.len() > 0 {
            assert(rem.len() > 0);
            assert(rem[0].len() > 0);
            lemma_join_slash_first(rem);
            assert(rel[0] == rem[0][0]);
        }
    }
    // joining it back gives the directory's components then `rem`
    lemma_components_join(dir, rel);
    lemma_kept_join_slash(rem);
    let joined = components_spec(join_spec(dir, rel));
    assert(joined == f + rem);
    assert(f + rem =~= (f + dots(ups)) + t.skip(c));
    assert(f + dots(ups) =~= f + dots(ups) + Seq::<Seq<char>>::empty());
    // walk the components: push `f`, pop `ups`, push the tail of `t`
    lemma_resolve_prefix(f, dots(ups) + t.skip(c), Seq::empty());
    assert(f + (dots(ups) + t.skip(c)) =~= joined);
    assert(Seq::<Seq<char>>::empty() + f =~= f);
    lemma_resolve_pops(ups, t.skip(c), f);
    assert(f.take(c) =~= t.take(c));
    assert forall|i: int| 0 <= i < t.skip(c).len() implies #[trigger] t.skip(c)[i] != seq![
        '.',
        '.',
    ] by {
        assert(t.skip(c)[i] == t[c + i]);
    }
    lemma_resolve_prefix(t.skip(c), Seq::<Seq<char>>::empty(), t.take(c));
    assert(t.skip(c) + Seq::<Seq<char>>::empty() =~= t.skip(c));
    assert(resolve_dots_rec(Seq::<Seq<char>>::empty(), t.take(c) + t.skip(c)) == t.take(c)
        + t.skip(c));
    assert(t.take(c) + t.skip(c) =~= t);
}

/// The rest of `abs` below `root`, when `root`'s components lead `abs`'s.
pub open spec fn strip_prefix_spec(root: Seq<char>, abs: Seq<char>) -> Option<Seq<char>> {
    let rc = components_spec(root);
    let ac = components_spec(abs);
    if rc.len() <= ac.len() && ac.take(rc.len() as int) == rc {
        Some(path_of(ac.skip(rc.len() as int)))
    } else {
        None
    }
}

pub fn strip_prefix(root: &Vec<char>, abs: &Vec<char>) -> (r: Option<Vec<char>>)
    ensures
        match r {
            Some(s) => strip_prefix_spec(root@, abs@) == Some(s@),
            None => strip_prefix_spec(root@, abs@) is None,
        },
{
    let rc = components(root);
    let ac = components(abs);
    if rc.len() > ac.len() {
        proof {
            assert(strip_prefix_spec(root@, abs@) is None);
        }
        return None;
    }
    let mut i: usize = 0;
    while i < rc.len()
        invariant
            i <= rc@.len(),
            rc@.len() <= ac@.len(),
            views_of(rc@) == components_spec(root@),
            views_of(ac@) == components_spec(abs@),
            forall|j: int| 0 <= j < i ==> views_of(ac@)[j] == views_of(rc@)[j],
        decreases rc.len() - i,
    {
        if !crate::text::chars_eq(&ac[i], &rc[i]) {
            proof {
                assert(views_of(ac@).take(rc@.len() as int)[i as int] != views_of(rc@)[i as int]);
            }
            return None;
        }
        i = i + 1;
    }
    proof {
        assert(views_of(ac@).take(rc@.len() as int) =~= views_of(rc@));
    }
    let out = path_from_components(&ac, rc.len());
    Some(out)
}

/// The directory holding a path: its components with the last one taken
/// off; nothing for the root or an empty path.
pub open spec fn parent_spec(s: Seq<char>) -> Option<Seq<char>> {
    let cs = components_spec(s);
    if cs.len() == 0 {
        None
    } else if cs.last() == root_marker() {
        None
    } else {
        Some(path_of(cs.take(cs.len() - 1)))
    }
}

pub fn parent_dir(path: &str) -> (r: Option<String>)
    ensures
        match r {
            Some(s) => parent_spec(path@) == Some(s@),
            None => parent_spec(path@) is None,
        },
{
    let pv = to_chars(path);
    let cs = components(&pv);
    if cs.len() == 0 {
        return None;
    }
    let last = &cs[cs.len() - 1];
    proof {
        assert(views_of(cs@).last() == last@);
    }
    if last.len() == 1 && last[0] == '/' {
        proof {
            assert(last@ =~= root_marker());
        }
        return None;
    }
    proof {
        assert(last@ != root_marker()) by {
            if last@ == root_marker() {
                assert(last@.len() == 1 && last@[0] == '/');
            }
        }
    }
    let mut pre: Vec<Vec<char>> = Vec::new();
    let n = cs.len() - 1;
    let mut i: usize = 0;
    proof {
        assert(views_of(pre@) =~= views_of(cs@).take(0));
    }
    while i < n
        invariant
            i <= n,
            n == cs@.len() - 1,
            views_of(pre@) == views_of(cs@).take(i as int),
        decreases n - i,
    {
        let ghost oldpre = pre@;
        pre.push(cs[i].clone());
        proof {
            assert(views_of(pre@) =~= views_of(oldpre).push(views_of(cs@)[i as int]));
            assert(views_of(oldpre).push(views_of(cs@)[i as int]) =~= views_of(cs@).take(i + 1));
        }
        i = i + 1;
    }
    let out = path_from_components(&pre, 0);
    proof {
        assert(views_of(pre@).skip(0) =~= views_of(cs@).take(n as int));
    }
    Some(from_chars(&out))
}

/// The position of the last occurrence of `c` in `s`, if any.
pub open spec fn rfind_spec(s: Seq<char>, c: char) -> Option<int>
    decreases s.len(),
{
    if s.len() == 0 {
        None
    } else if s.last() == c {
        Some(s.len() - 1)
    } else {
        rfind_spec(s.drop_last(), c)
    }
}

pub proof fn lemma_rfind_spec(s: Seq<char>, c: char)
    ensures
        match rfind_spec(s, c) {
            Some(i) => 0 <= i < s.len() && s[i] == c && (forall|j: int|
                i < j < s.len() ==> s[j] != c),
            None => forall|j: int| 0 <= j < s.len() ==> s[j] != c,
        },
    decreases s.len(),
{
    if s.len() > 0 && s.last() != c {
        let t = s.drop_last();
        lemma_rfind_spec(t, c);
        assert(forall|j: int| 0 <= j < s.len() - 1 ==> s[j] == t[j]);
    }
}

pub fn rfind_char(v: &Vec<char>, c: char) -> (r: Option<usize>)
    ensures
        match r {
            Some(i) => rfind_spec(v@, c) == Some(i as int),
            None => rfind_spec(v@, c) is None,
        },
{
    let mut i: usize = v.len();
    proof {
        assert(v@.take(v@.len() as int) =~= v@);
    }
    while i > 0
        invariant
            i <= v@.len(),
            rfind_spec(v@, c) == rfind_spec(v@.take(i as int), c),
        decreases i,
    {
        i = i - 1;
        proof {
            assert(v@.take(i + 1).last() == v@[i as int]);
            assert(v@.take(i + 1).drop_last() =~= v@.take(i as int));
        }
        if v[i] == c {
            proof {
                assert(v@.take(i + 1) =~= v@.take(v@.len() as int).take(i + 1));
            }
            return Some(i);
        }
    }
    proof {
        assert(v@.take(0) =~= Seq::<char>::empty());
    }
    None
}

/// The final component of a path, when it names a file or directory.
pub open spec fn file_name_spec(s: Seq<char>) -> Option<Seq<char>> {
    let cs = components_spec(s);
    if cs.len() == 0 {
        None
    } else if cs.last() == root_marker() || cs.last() == seq!['.', '.'] {
        None
    } else {
        Some(cs.last())
    }
}

/// The file name without its extension: what precedes the last `.`,
/// unless that dot starts the name.
pub open spec fn file_stem_spec(s: Seq<char>) -> Option<Seq<char>> {
    match file_name_spec(s) {
        Some(name) => match rfind_spec(name, '.') {
            Some(i) => if i > 0 {
                Some(name.take(i))
            } else {
                Some(name)
            },
            None => Some(name),
        },
        None => None,
    }
}

/// The extension: what follows the last `.` of the file name, unless that
/// dot starts the name.
pub open spec fn extension_spec(s: Seq<char>) -> Option<Seq<char>> {
    match file_name_spec(s) {
        Some(name) => match rfind_spec(name, '.') {
            Some(i) => if i > 0 {
                Some(name.skip(i + 1))
            } else {
                None
            },
            None => None,
        },
        None => None,
    }
}

fn file_name(v: &Vec<char>) -> (r: Option<Vec<char>>)
    ensures
        match r {
            Some(s) => file_name_spec(v@) == Some(s@),
            None => file_name_spec(v@) is None,
        },
{
    let cs = components(v);
    if cs.len() == 0 {
        return None;
    }
    let last = &cs[cs.len() - 1];
    proof {
        assert(views_of(cs@).last() == last@);
    }
    if last.len() == 1 && last[0] == '/' {
        proof {
            assert(last@ =~= root_marker());
        }
        return None;
    }
    if last.len() == 2 && last[0] == '.' && last[1] == '.' {
        proof {
            assert(last@ =~= seq!['.', '.']);
        }
        return None;
    }
    proof {
        assert(last@ != root_marker() && last@ != seq!['.', '.']) by {
            if last@ == root_marker() {
                assert(last@.len() == 1 && last@[0] == '/');
            }
            if last@ == seq!['.', '.'] {
                assert(last@.len() == 2 && last@[0] == '.' && last@[1] == '.');
            }
        }
    }
    Some(last.clone())
}

pub fn file_stem(v: &Vec<char>) -> (r: Option<Vec<char>>)
    ensures
        match r {
            Some(s) => file_stem_spec(v@) == Some(s@),
            None => file_stem_spec(v@) is None,
        },
{
    let name = match file_name(v) {
        Some(n) => n,
        None => {
            return None;
        },
    };
    match rfind_char(&name, '.') {
        Some(i) if i > 0 => {
            proof {
                lemma_rfind_spec(name@, '.');
            }
            let mut out: Vec<char> = Vec::new();
            let mut j: usize = 0;
            while j < i
                invariant
                    j <= i,
                    i < name@.len(),
                    out@ == name@.take(j as int),
                decreases i - j,
            {
                out.push(name[j]);
                proof {
                    assert(name@.take(j + 1) =~= name@.take(j as int).push(name@[j as int]));
                }
                j = j + 1;
            }
            Some(out)
        },
        _ => Some(name),
    }
}

pub fn path_extension(v: &Vec<char>) -> (r: Option<Vec<char>>)
    ensures
        match r {
            Some(s) => extension_spec(v@) == Some(s@),
            None => extension_spec(v@) is None,
        },
{
    let name = match file_name(v) {
        Some(n) => n,
        None => {
            return None;
        },
    };
    match rfind_char(&name, '.') {
        Some(i) if i > 0 => {
            let nl = name.len();
            proof {
                lemma_rfind_spec(name@, '.');
                assert(i < nl);
                assert(name@.subrange(i + 1, i + 1) =~= Seq::<char>::empty());
            }
            let mut out: Vec<char> = Vec::new();
            let mut j: usize = i + 1;
            while j < name.len()
                invariant
                    i + 1 <= j <= name@.len(),
                    out@ == name@.subrange(i + 1, j as int),
                decreases name.len() - j,
            {
                out.push(name[j]);
                proof {
                    assert(name@.subrange(i + 1, j + 1) =~= name@.subrange(i + 1, j as int).push(
                        name@[j as int],
                    ));
                }
                j = j + 1;
            }
            proof {
                assert(name@.subrange(i + 1, name@.len() as int) =~= name@.skip(i + 1));
            }
            Some(out)
        },
        _ => None,
    }
}

} // verus!

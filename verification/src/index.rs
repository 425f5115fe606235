//! Playlist directory index: which of the scanned files count as
//! playlists, and the sorted, deduplicated listing built from them.
use vstd::prelude::*;
use crate::csv::str_views;
use crate::paths::{extension_spec, path_extension};
use crate::text::{chars_ieq_lit, seq_ieq, string_eq_lit, to_chars};

verus! {

/// The path carries one of the wanted extensions, ASCII-case-insensitively.
pub open spec fn ext_matches(path: Seq<char>, exts: Seq<Seq<char>>) -> bool {
    match extension_spec(path) {
        Some(e) => exists|i: int| 0 <= i < exts.len() && seq_ieq(e, exts[i]),
        None => false,
    }
}

/// The scanned entries that carry one of the wanted extensions, in order.
pub open spec fn filter_exts(entries: Seq<Seq<char>>, exts: Seq<Seq<char>>) -> Seq<Seq<char>>
    decreases entries.len(),
{
    if entries.len() == 0 {
        Seq::empty()
    } else {
        (if ext_matches(entries[0], exts) {
            seq![entries[0]]
        } else {
            Seq::empty()
        }) + filter_exts(entries.drop_first(), exts)
    }
}

/// Keep the scanned files whose extension matches one of `extensions`,
/// appending them to `results`.
pub fn scan_dir_for_playlists(
    entries: &Vec<String>,
    extensions: &Vec<String>,
    results: &mut Vec<String>,
)
    ensures
        str_views(final(results)@) == str_views(old(results)@) + filter_exts(
            str_views(entries@),
            str_views(extensions@),
        ),
{
    let ghost evs = str_views(entries@);
    let ghost xvs = str_views(extensions@);
    let ghost base = str_views(results@);
    let mut i: usize = 0;
    proof {
        assert(evs.skip(0) =~= evs);
        assert(base + filter_exts(evs, xvs) =~= base + filter_exts(evs.skip(0), xvs));
    }
    while i < entries.len()
        invariant
            i <= entries@.len(),
            evs == str_views(entries@),
            xvs == str_views(extensions@),
            base + filter_exts(evs, xvs) == str_views(results@) + filter_exts(
                evs.skip(i as int),
                xvs,
            ),
        decreases entries.len() - i,
    {
        proof {
            assert(evs.skip(i as int)[0] == evs[i as int]);
            assert(evs.skip(i as int).drop_first() =~= evs.skip(i + 1));
        }
        let pv = to_chars(entries[i].as_str());
        let mut matched: bool = false;
        match path_extension(&pv) {
            Some(e) => {
                let mut j: usize = 0;
                while j < extensions.len()
                    invariant
                        j <= extensions@.len(),
                        xvs == str_views(extensions@),
                        extension_spec(evs[i as int]) == Some(e@),
                        matched ==> ext_matches(evs[i as int], xvs),
                        !matched ==> forall|k: int| 0 <= k < j ==> !seq_ieq(e@, xvs[k]),
                    decreases extensions.len() - j,
                {
                    if !matched && chars_ieq_lit(&e, extensions[j].as_str()) {
                        matched = true;
                        proof {
                            assert(seq_ieq(e@, xvs[j as int]));
                        }
                    }
                    j = j + 1;
                }
                proof {
                    if !matched {
                        assert(!ext_matches(evs[i as int], xvs));
                    }
                }
            },
            None => {
                proof {
                    assert(!ext_matches(evs[i as int], xvs));
                }
            },
        }
        if matched {
            let ghost oldres = str_views(results@);
            results.push(entries[i].clone());
            proof {
                assert(str_views(results@) =~= oldres.push(evs[i as int]));
                assert(oldres.push(evs[i as int]) + filter_exts(evs.skip(i + 1), xvs) =~= oldres + (
                seq![evs[i as int]] + filter_exts(evs.skip(i + 1), xvs)));
            }
        } else {
            proof {
                assert(Seq::<Seq<char>>::empty() + filter_exts(evs.skip(i + 1), xvs) =~= filter_exts(
                    evs.skip(i + 1),
                    xvs,
                ));
            }
        }
        i = i + 1;
    }
    proof {
        assert(filter_exts(evs.skip(evs.len() as int), xvs) =~= Seq::<Seq<char>>::empty());
        assert(str_views(results@) + Seq::<Seq<char>>::empty() =~= str_views(results@));
    }
}

/// Lexicographic order on character sequences, by code point; the order
/// `str`'s own comparison gives, since UTF-8 preserves code-point order.
pub open spec fn lex_le(a: Seq<char>, b: Seq<char>) -> bool
    decreases a.len(),
{
    if a.len() == 0 {
        true
    } else if b.len() == 0 {
        false
    } else if (a[0] as u32) < (b[0] as u32) {
        true
    } else if (a[0] as u32) > (b[0] as u32) {
        false
    } else {
        lex_le(a.drop_first(), b.drop_first())
    }
}

pub open spec fn lex_lt(a: Seq<char>, b: Seq<char>) -> bool {
    lex_le(a, b) && a != b
}

/// Characters with equal code points are equal.
proof fn lemma_char_inj(x: char, y: char)
    requires
        x as u32 == y as u32,
    ensures
        x == y,
{
    vstd::utf8::char_u32_cast(x, x as u32);
    vstd::utf8::char_u32_cast(y, y as u32);
}

pub proof fn lemma_lex_total(a: Seq<char>, b: Seq<char>)
    ensures
        lex_le(a, b) || lex_le(b, a),
    decreases a.len(),
{
    if a.len() > 0 && b.len() > 0 && (a[0] as u32) == (b[0] as u32) {
        lemma_lex_total(a.drop_first(), b.drop_first());
    }
}

pub proof fn lemma_lex_antisym(a: Seq<char>, b: Seq<char>)
    requires
        lex_le(a, b),
        lex_le(b, a),
    ensures
        a == b,
    decreases a.len(),
{
    if a.len() == 0 {
        assert(b.len() == 0);
        assert(a =~= b);
    } else {
        assert(b.len() > 0);
        lemma_char_inj(a[0], b[0]);
        lemma_lex_antisym(a.drop_first(), b.drop_first());
        assert(forall|i: int| 1 <= i < a.len() ==> a[i] == a.drop_first()[i - 1]);
        assert(forall|i: int| 1 <= i < b.len() ==> b[i] == b.drop_first()[i - 1]);
        assert(a =~= b);
    }
}

pub proof fn lemma_lex_trans(a: Seq<char>, b: Seq<char>, c: Seq<char>)
    requires
        lex_le(a, b),
        lex_le(b, c),
    ensures
        lex_le(a, c),
    decreases a.len(),
{
    if a.len() > 0 && b.len() > 0 && c.len() > 0 && (a[0] as u32) == (b[0] as u32) && (b[0] as u32)
        == (c[0] as u32) {
        lemma_lex_trans(a.drop_first(), b.drop_first(), c.drop_first());
    }
}

/// Compare two strings in lexicographic order.
pub fn str_le(a: &str, b: &str) -> (r: bool)
    ensures
        r == lex_le(a@, b@),
{
    let an = a.unicode_len();
    let bn = b.unicode_len();
    let mut i: usize = 0;
    proof {
        assert(a@.skip(0) =~= a@);
        assert(b@.skip(0) =~= b@);
    }
    while i < an && i < bn
        invariant
            i <= an,
            i <= bn,
            an == a@.len(),
            bn == b@.len(),
            lex_le(a@, b@) == lex_le(a@.skip(i as int), b@.skip(i as int)),
        decreases an - i,
    {
        let ca = a.get_char(i);
        let cb = b.get_char(i);
        proof {
            assert(a@.skip(i as int)[0] == a@[i as int]);
            assert(b@.skip(i as int)[0] == b@[i as int]);
            assert(a@.skip(i as int).drop_first() =~= a@.skip(i + 1));
            assert(b@.skip(i as int).drop_first() =~= b@.skip(i + 1));
        }
        if (ca as u32) < (cb as u32) {
            return true;
        }
        if (ca as u32) > (cb as u32) {
            return false;
        }
        i = i + 1;
    }
    proof {
        if i >= an {
            assert(a@.skip(i as int).len() == 0);
        } else {
            assert(b@.skip(i as int).len() == 0);
            assert(a@.skip(i as int).len() > 0);
        }
    }
    an <= bn
}

/// Weakly sorted: every earlier element at or below every later one.
pub open spec fn sorted_le(s: Seq<Seq<char>>) -> bool {
    forall|i: int, j: int| 0 <= i < j < s.len() ==> lex_le(s[i], s[j])
}

/// Strictly sorted: sorted with no element repeated.
pub open spec fn sorted_strict(s: Seq<Seq<char>>) -> bool {
    forall|i: int, j: int| 0 <= i < j < s.len() ==> lex_lt(s[i], s[j])
}

/// Inserting into a sequence adds exactly one membership.
proof fn lemma_insert_contains(s: Seq<Seq<char>>, p: int, x: Seq<char>)
    requires
        0 <= p <= s.len(),
    ensures
        forall|y: Seq<char>|
            #[trigger] s.insert(p, x).contains(y) <==> (s.contains(y) || y == x),
{
    s.insert_ensures(p, x);
    let t = s.insert(p, x);
    assert forall|y: Seq<char>| #[trigger] t.contains(y) implies (s.contains(y) || y == x) by {
        let k = choose|k: int| 0 <= k < t.len() && t[k] == y;
        if k < p {
            assert(s[k] == y);
        } else if k == p {
        } else {
            assert(t[(k - 1) + 1] == s[k - 1]);
            assert(s[k - 1] == y);
        }
    }
    assert forall|y: Seq<char>| (s.contains(y) || y == x) implies #[trigger] t.contains(y) by {
        if y == x {
            assert(t[p] == y);
        } else {
            let k = choose|k: int| 0 <= k < s.len() && s[k] == y;
            if k < p {
                assert(t[k] == y);
            } else {
                assert(t[k + 1] == y);
            }
        }
    }
}

/// The views of a string sequence after an insert.
proof fn lemma_str_views_insert(s: Seq<String>, p: int, x: String)
    requires
        0 <= p <= s.len(),
    ensures
        str_views(s.insert(p, x)) == str_views(s).insert(p, x@),
{
    s.insert_ensures(p, x);
    str_views(s).insert_ensures(p, x@);
    assert forall|k: int| 0 <= k < s.len() + 1 implies str_views(s.insert(p, x))[k] == str_views(
        s,
    ).insert(p, x@)[k] by {
        if k < p {
        } else if k == p {
        } else {
            assert(s.insert(p, x)[(k - 1) + 1] == s[k - 1]);
            assert(str_views(s).insert(p, x@)[(k - 1) + 1] == str_views(s)[k - 1]);
        }
    }
    assert(str_views(s.insert(p, x)) =~= str_views(s).insert(p, x@));
}

/// Sort the strings, keeping exactly the members that came in.
fn sort_strings(input: &Vec<String>) -> (r: Vec<String>)
    ensures
        sorted_le(str_views(r@)),
        forall|y: Seq<char>|
            #[trigger] str_views(r@).contains(y) <==> str_views(input@).contains(y),
{
    let mut out: Vec<String> = Vec::new();
    let mut i: usize = 0;
    proof {
        assert(str_views(out@) =~= Seq::<Seq<char>>::empty());
        assert(str_views(input@).take(0) =~= Seq::<Seq<char>>::empty());
    }
    while i < input.len()
        invariant
            i <= input@.len(),
            sorted_le(str_views(out@)),
            forall|y: Seq<char>|
                #[trigger] str_views(out@).contains(y) <==> str_views(input@).take(
                    i as int,
                ).contains(y),
        decreases input.len() - i,
    {
        let s = input[i].clone();
        let ghost sv = s@;
        proof {
            assert(sv == str_views(input@)[i as int]);
        }
        // find the first position whose element is above `s`
        let mut p: usize = 0;
        while p < out.len() && str_le(out[p].as_str(), s.as_str())
            invariant
                p <= out@.len(),
                forall|k: int| 0 <= k < p ==> lex_le(str_views(out@)[k], sv),
            decreases out.len() - p,
        {
            p = p + 1;
        }
        let ghost oldout = out@;
        out.insert(p, s);
        proof {
            assert(out@ == oldout.insert(p as int, input@[i as int]));
            lemma_str_views_insert(oldout, p as int, input@[i as int]);
            lemma_insert_contains(str_views(oldout), p as int, sv);
            let newv = str_views(out@);
            str_views(oldout).insert_ensures(p as int, sv);
            // sortedness of the new sequence
            assert forall|m: int, n: int| 0 <= m < n < newv.len() implies lex_le(
                newv[m],
                newv[n],
            ) by {
                let ov = str_views(oldout);
                if m == p {
                    let nn = n - 1;
                    assert(newv[n] == ov[nn]);
                    assert(!lex_le(ov[p as int], sv));
                    lemma_lex_total(ov[p as int], sv);
                    if nn > p {
                        lemma_lex_trans(sv, ov[p as int], ov[nn]);
                    }
                } else if n == p {
                    assert(newv[m] == ov[m]);
                    assert(lex_le(ov[m], sv));
                } else {
                    let mm = if m < p {
                        m
                    } else {
                        m - 1
                    };
                    let nn = if n < p {
                        n
                    } else {
                        n - 1
                    };
                    assert(newv[m] == ov[mm] && newv[n] == ov[nn]);
                    if mm == nn {
                        lemma_lex_total(ov[mm], ov[mm]);
                    } else {
                        assert(lex_le(ov[mm], ov[nn]));
                    }
                }
            }
            // membership of the prefix
            assert(str_views(input@).take(i + 1) =~= str_views(input@).take(i as int).push(sv));
            assert forall|y: Seq<char>| #[trigger] str_views(out@).contains(y) <==> str_views(
                input@,
            ).take(i + 1).contains(y) by {
                let pre = str_views(input@).take(i as int);
                let pre1 = str_views(input@).take(i + 1);
                if str_views(out@).contains(y) {
                    if y == sv {
                        assert(pre1[i as int] == sv);
                        assert(pre1.contains(y));
                    } else {
                        assert(pre.contains(y));
                        let k = choose|k: int| 0 <= k < pre.len() && pre[k] == y;
                        assert(pre1[k] == y);
                        assert(pre1.contains(y));
                    }
                }
                if pre1.contains(y) {
                    let k = choose|k: int| 0 <= k < pre1.len() && pre1[k] == y;
                    if k == i {
                        assert(y == sv);
                    } else {
                        assert(pre[k] == y);
                        assert(pre.contains(y));
                    }
                }
            }
        }
        i = i + 1;
    }
    proof {
        assert(str_views(input@).take(input@.len() as int) =~= str_views(input@));
    }
    out
}

/// Drop repeated neighbours of a sorted sequence: strictly sorted, same
/// members.
fn dedup_sorted(v: &Vec<String>) -> (r: Vec<String>)
    requires
        sorted_le(str_views(v@)),
    ensures
        sorted_strict(str_views(r@)),
        forall|y: Seq<char>| #[trigger] str_views(r@).contains(y) <==> str_views(v@).contains(y),
{
    let mut out: Vec<String> = Vec::new();
    let mut i: usize = 0;
    proof {
        assert(str_views(out@) =~= Seq::<Seq<char>>::empty());
        assert(str_views(v@).take(0) =~= Seq::<Seq<char>>::empty());
    }
    while i < v.len()
        invariant
            i <= v@.len(),
            sorted_le(str_views(v@)),
            sorted_strict(str_views(out@)),
            i == 0 ==> out@.len() == 0,
            i > 0 ==> out@.len() > 0 && str_views(out@).last() == str_views(v@)[i - 1],
            forall|y: Seq<char>|
                #[trigger] str_views(out@).contains(y) <==> str_views(v@).take(
                    i as int,
                ).contains(y),
        decreases v.len() - i,
    {
        let ghost vv = str_views(v@);
        let ghost sv = vv[i as int];
        let mut push_it: bool = true;
        if i > 0 {
            if string_eq_lit(out[out.len() - 1].as_str(), v[i].as_str()) {
                push_it = false;
            }
        }
        let ghost oldout = out@;
        if push_it {
            out.push(v[i].clone());
            proof {
                let ov = str_views(oldout);
                let newv = str_views(out@);
                assert(newv =~= ov.push(sv));
                if i > 0 {
                    assert(ov.last() == oldout.last()@);
                    assert(ov.last() != sv);
                }
                // strictly sorted: the new last is strictly above all others
                assert forall|m: int, n: int| 0 <= m < n < newv.len() implies lex_lt(
                    newv[m],
                    newv[n],
                ) by {
                    if n < newv.len() - 1 {
                        assert(lex_lt(ov[m], ov[n]));
                    } else {
                        assert(newv[n] == sv);
                        assert(ov.contains(ov[m]));
                        assert(vv.take(i as int).contains(ov[m]));
                        let k = choose|k: int|
                            0 <= k < i && vv.take(i as int)[k] == ov[m];
                        assert(vv[k] == ov[m]);
                        assert(lex_le(vv[k], sv));
                        if ov[m] == sv {
                            // then the last of `ov` equals `sv` too: contradiction
                            if i > 0 {
                                assert(lex_le(vv[i - 1], sv));
                                if m < ov.len() - 1 {
                                    assert(lex_lt(ov[m], ov[ov.len() - 1]));
                                    assert(ov[ov.len() - 1] == vv[i - 1]);
                                    lemma_lex_total(sv, vv[i - 1]);
                                    lemma_lex_antisym(vv[i - 1], sv);
                                    assert(false);
                                } else {
                                    assert(ov[ov.len() - 1] == vv[i - 1]);
                                    assert(false);
                                }
                            } else {
                                assert(false);
                            }
                        }
                    }
                }
                // membership
                assert(vv.take(i + 1) =~= vv.take(i as int).push(sv));
                let ghost pre = vv.take(i as int);
                let ghost pre1 = vv.take(i + 1);
                assert forall|y: Seq<char>| #[trigger] newv.contains(y) <==> pre1.contains(y) by {
                    if newv.contains(y) {
                        let k = choose|k: int| 0 <= k < newv.len() && newv[k] == y;
                        if k < ov.len() {
                            assert(ov.contains(y));
                            let k2 = choose|k2: int| 0 <= k2 < pre.len() && pre[k2] == y;
                            assert(pre1[k2] == y);
                        } else {
                            assert(pre1[i as int] == sv);
                        }
                        assert(pre1.contains(y));
                    }
                    if pre1.contains(y) {
                        let k = choose|k: int| 0 <= k < pre1.len() && pre1[k] == y;
                        if k == i {
                            assert(newv[newv.len() - 1] == y);
                        } else {
                            assert(pre[k] == y);
                            assert(pre.contains(y));
                            assert(ov.contains(y));
                            let k2 = choose|k2: int| 0 <= k2 < ov.len() && ov[k2] == y;
                            assert(newv[k2] == y);
                        }
                    }
                }
            }
        } else {
            proof {
                let ov = str_views(oldout);
                assert(ov.last() == sv);
                let pre = vv.take(i as int);
                let pre1 = vv.take(i + 1);
                assert(pre1 =~= pre.push(sv));
                assert forall|y: Seq<char>| #[trigger] ov.contains(y) <==> pre1.contains(y) by {
                    if ov.contains(y) {
                        assert(pre.contains(y));
                        let k = choose|k: int| 0 <= k < pre.len() && pre[k] == y;
                        assert(pre1[k] == y);
                        assert(pre1.contains(y));
                    }
                    if pre1.contains(y) {
                        let k = choose|k: int| 0 <= k < pre1.len() && pre1[k] == y;
                        if k == i {
                            assert(ov[ov.len() - 1] == y);
                        } else {
                            assert(pre[k] == y);
                            assert(pre.contains(y));
                        }
                    }
                }
            }
        }
        i = i + 1;
    }
    proof {
        assert(str_views(v@).take(v@.len() as int) =~= str_views(v@));
    }
    out
}

/// The files both scans offer before sorting: M3U-family files under the
/// music root, and under the playlist directory all four formats when a
/// dedicated directory was given, TXT and CSV otherwise.
pub open spec fn candidate_paths(
    root_entries: Seq<Seq<char>>,
    playlist_entries: Seq<Seq<char>>,
    has_playlist_dir: bool,
) -> Seq<Seq<char>> {
    filter_exts(root_entries, seq!["m3u8"@, "m3u"@]) + filter_exts(
        playlist_entries,
        if has_playlist_dir {
            seq!["m3u8"@, "m3u"@, "txt"@, "csv"@]
        } else {
            seq!["txt"@, "csv"@]
        },
    )
}

/// The playlist index: of the files scanned under the music root keep the
/// M3U family; of those scanned under the playlist directory keep all
/// four formats when the directory was explicitly given, else TXT and
/// CSV; sort the survivors and drop duplicates.
pub fn list_playlists(
    root_entries: &Vec<String>,
    playlist_entries: &Vec<String>,
    has_playlist_dir: bool,
) -> (r: Vec<String>)
    ensures
        sorted_strict(str_views(r@)),
        forall|y: Seq<char>|
            #[trigger] str_views(r@).contains(y) <==> candidate_paths(
                str_views(root_entries@),
                str_views(playlist_entries@),
                has_playlist_dir,
            ).contains(y),
{
    let mut results: Vec<String> = Vec::new();
    let mut m3u_exts: Vec<String> = Vec::new();
    m3u_exts.push(String::from_str("m3u8"));
    m3u_exts.push(String::from_str("m3u"));
    proof {
        assert(str_views(m3u_exts@) =~= seq!["m3u8"@, "m3u"@]);
        assert(str_views(results@) =~= Seq::<Seq<char>>::empty());
    }
    scan_dir_for_playlists(root_entries, &m3u_exts, &mut results);
    let mut pd_exts: Vec<String> = Vec::new();
    if has_playlist_dir {
        pd_exts.push(String::from_str("m3u8"));
        pd_exts.push(String::from_str("m3u"));
        pd_exts.push(String::from_str("txt"));
        pd_exts.push(String::from_str("csv"));
        proof {
            assert(str_views(pd_exts@) =~= seq!["m3u8"@, "m3u"@, "txt"@, "csv"@]);
        }
    } else {
        pd_exts.push(String::from_str("txt"));
        pd_exts.push(String::from_str("csv"));
        proof {
            assert(str_views(pd_exts@) =~= seq!["txt"@, "csv"@]);
        }
    }
    scan_dir_for_playlists(playlist_entries, &pd_exts, &mut results);
    proof {
        assert(Seq::<Seq<char>>::empty() + filter_exts(
            str_views(root_entries@),
            seq!["m3u8"@, "m3u"@],
        ) =~= filter_exts(str_views(root_entries@), seq!["m3u8"@, "m3u"@]));
    }
    let sorted = sort_strings(&results);
    dedup_sorted(&sorted)
}

/// A path survives the extension filter exactly when the scan offered it
/// and its extension matches.
pub proof fn lemma_filter_exts_membership(entries: Seq<Seq<char>>, exts: Seq<Seq<char>>)
    ensures
        forall|y: Seq<char>|
            #[trigger] filter_exts(entries, exts).contains(y) <==> (entries.contains(y)
                && ext_matches(y, exts)),
    decreases entries.len(),
{
    if entries.len() == 0 {
        assert forall|y: Seq<char>|
            #[trigger] filter_exts(entries, exts).contains(y) <==> (entries.contains(y)
                && ext_matches(y, exts)) by {
            if filter_exts(entries, exts).contains(y) {
                assert(false);
            }
            if entries.contains(y) {
                assert(false);
            }
        }
    } else {
        let t = entries.drop_first();
        lemma_filter_exts_membership(t, exts);
        let f = filter_exts(entries, exts);
        let ft = filter_exts(t, exts);
        assert forall|y: Seq<char>|
            #[trigger] f.contains(y) <==> (entries.contains(y) && ext_matches(y, exts)) by {
            if f.contains(y) {
                let k = choose|k: int| 0 <= k < f.len() && f[k] == y;
                if ext_matches(entries[0], exts) && k == 0 {
                    assert(y == entries[0]);
                    assert(entries.contains(y));
                } else {
                    let off = if ext_matches(entries[0], exts) {
                        1int
                    } else {
                        0int
                    };
                    assert(f[k] == ft[k - off]);
                    assert(ft.contains(y));
                    let k2 = choose|k2: int| 0 <= k2 < t.len() && t[k2] == y;
                    assert(entries[k2 + 1] == y);
                    assert(entries.contains(y));
                }
            }
            if entries.contains(y) && ext_matches(y, exts) {
                let k = choose|k: int| 0 <= k < entries.len() && entries[k] == y;
                if k == 0 {
                    assert(f[0] == y);
                } else {
                    assert(t[k - 1] == y);
                    assert(t.contains(y));
                    assert(ft.contains(y));
                    let k2 = choose|k2: int| 0 <= k2 < ft.len() && ft[k2] == y;
                    if ext_matches(entries[0], exts) {
                        assert(f[k2 + 1] == y);
                    } else {
                        assert(f[k2] == y);
                    }
                }
                assert(f.contains(y));
            }
        }
    }
}

/// The candidate set is a function of which files the scans offered, not
/// of the order they came in.
pub proof fn lemma_candidates_membership(
    ra: Seq<Seq<char>>,
    pa: Seq<Seq<char>>,
    rb: Seq<Seq<char>>,
    pb: Seq<Seq<char>>,
    has_playlist_dir: bool,
)
    requires
        forall|y: Seq<char>| #[trigger] ra.contains(y) <==> rb.contains(y),
        forall|y: Seq<char>| #[trigger] pa.contains(y) <==> pb.contains(y),
    ensures
        forall|y: Seq<char>|
            #[trigger] candidate_paths(ra, pa, has_playlist_dir).contains(y) <==> candidate_paths(
                rb,
                pb,
                has_playlist_dir,
            ).contains(y),
{
    let m3u = seq!["m3u8"@, "m3u"@];
    let pd_exts = if has_playlist_dir {
        seq!["m3u8"@, "m3u"@, "txt"@, "csv"@]
    } else {
        seq!["txt"@, "csv"@]
    };
    lemma_filter_exts_membership(ra, m3u);
    lemma_filter_exts_membership(rb, m3u);
    lemma_filter_exts_membership(pa, pd_exts);
    lemma_filter_exts_membership(pb, pd_exts);
    let ca = candidate_paths(ra, pa, has_playlist_dir);
    let cb = candidate_paths(rb, pb, has_playlist_dir);
    assert forall|y: Seq<char>| #[trigger] ca.contains(y) <==> cb.contains(y) by {
        let fa1 = filter_exts(ra, m3u);
        let fa2 = filter_exts(pa, pd_exts);
        let fb1 = filter_exts(rb, m3u);
        let fb2 = filter_exts(pb, pd_exts);
        assert(ca.contains(y) <==> (fa1.contains(y) || fa2.contains(y))) by {
            if ca.contains(y) {
                let k = choose|k: int| 0 <= k < ca.len() && ca[k] == y;
                if k < fa1.len() {
                    assert(fa1[k] == y);
                } else {
                    assert(fa2[k - fa1.len()] == y);
                }
            }
            if fa1.contains(y) {
                let k = choose|k: int| 0 <= k < fa1.len() && fa1[k] == y;
                assert(ca[k] == y);
            }
            if fa2.contains(y) {
                let k = choose|k: int| 0 <= k < fa2.len() && fa2[k] == y;
                assert(ca[k + fa1.len()] == y);
            }
        }
        assert(cb.contains(y) <==> (fb1.contains(y) || fb2.contains(y))) by {
            if cb.contains(y) {
                let k = choose|k: int| 0 <= k < cb.len() && cb[k] == y;
                if k < fb1.len() {
                    assert(fb1[k] == y);
                } else {
                    assert(fb2[k - fb1.len()] == y);
                }
            }
            if fb1.contains(y) {
                let k = choose|k: int| 0 <= k < fb1.len() && fb1[k] == y;
                assert(cb[k] == y);
            }
            if fb2.contains(y) {
                let k = choose|k: int| 0 <= k < fb2.len() && fb2[k] == y;
                assert(cb[k + fb1.len()] == y);
            }
        }
    }
}

/// The playlist index is idempotent: two listings taken over an unchanged
/// filesystem — the two scans offering the same files, in whatever order —
/// are identical. `r1` and `r2` are any two values meeting the listing's
/// contract for scans with equal membership.
pub proof fn lemma_list_playlists_idempotent(
    ra: Seq<Seq<char>>,
    pa: Seq<Seq<char>>,
    rb: Seq<Seq<char>>,
    pb: Seq<Seq<char>>,
    has_playlist_dir: bool,
    r1: Seq<Seq<char>>,
    r2: Seq<Seq<char>>,
)
    requires
        sorted_strict(r1),
        sorted_strict(r2),
        forall|y: Seq<char>|
            #[trigger] r1.contains(y) <==> candidate_paths(ra, pa, has_playlist_dir).contains(y),
        forall|y: Seq<char>|
            #[trigger] r2.contains(y) <==> candidate_paths(rb, pb, has_playlist_dir).contains(y),
        forall|y: Seq<char>| #[trigger] ra.contains(y) <==> rb.contains(y),
        forall|y: Seq<char>| #[trigger] pa.contains(y) <==> pb.contains(y),
    ensures
        r1 == r2,
{
    lemma_candidates_membership(ra, pa, rb, pb, has_playlist_dir);
    assert forall|y: Seq<char>| #[trigger] r1.contains(y) <==> r2.contains(y) by {
        assert(r1.contains(y) <==> candidate_paths(ra, pa, has_playlist_dir).contains(y));
        assert(candidate_paths(ra, pa, has_playlist_dir).contains(y) <==> candidate_paths(
            rb,
            pb,
            has_playlist_dir,
        ).contains(y));
    }
    lemma_sorted_listing_unique(r1, r2);
}

/// Two listings that are both strictly sorted and hold the same paths are
/// the same sequence: listing the same filesystem state twice gives
/// identical results, whatever order the scans handed the files over in.
pub proof fn lemma_sorted_listing_unique(a: Seq<Seq<char>>, b: Seq<Seq<char>>)
    requires
        sorted_strict(a),
        sorted_strict(b),
        forall|y: Seq<char>| #[trigger] a.contains(y) <==> b.contains(y),
    ensures
        a == b,
    decreases a.len(),
{
    if a.len() == 0 {
        if b.len() > 0 {
            assert(b.contains(b[0]));
            assert(a.contains(b[0]));
            assert(false);
        }
        assert(a =~= b);
    } else {
        assert(a.contains(a[0]));
        assert(b.contains(a[0]));
        assert(b.contains(b[0]));
        assert(a.contains(b[0]));
        let ka = choose|k: int| 0 <= k < a.len() && a[k] == b[0];
        let kb = choose|k: int| 0 <= k < b.len() && b[k] == a[0];
        // the heads are equal: each is at or below the other
        if ka > 0 {
            assert(lex_lt(a[0], a[ka]));
        }
        if kb > 0 {
            assert(lex_lt(b[0], b[kb]));
        }
        lemma_lex_total(a[0], b[0]);
        if a[0] != b[0] {
            if ka > 0 && kb > 0 {
                lemma_lex_trans(a[0], b[0], a[0]);
                lemma_lex_antisym(a[0], b[0]);
            } else if ka == 0 {
                assert(a[0] == b[0]);
            } else {
                assert(b[0] == a[0]);
            }
            assert(false);
        }
        let at = a.drop_first();
        let bt = b.drop_first();
        assert(forall|m: int, n: int|
            0 <= m < n < at.len() ==> at[m] == a[m + 1] && at[n] == a[n + 1]);
        assert(forall|m: int, n: int|
            0 <= m < n < bt.len() ==> bt[m] == b[m + 1] && bt[n] == b[n + 1]);
        assert forall|y: Seq<char>| #[trigger] at.contains(y) <==> bt.contains(y) by {
            if at.contains(y) {
                let k = choose|k: int| 0 <= k < at.len() && at[k] == y;
                assert(a[k + 1] == y);
                assert(lex_lt(a[0], y));
                assert(a.contains(y));
                assert(b.contains(y));
                let k2 = choose|k2: int| 0 <= k2 < b.len() && b[k2] == y;
                if k2 == 0 {
                    assert(y == b[0]);
                    assert(false);
                }
                assert(bt[k2 - 1] == y);
            }
            if bt.contains(y) {
                let k = choose|k: int| 0 <= k < bt.len() && bt[k] == y;
                assert(b[k + 1] == y);
                assert(lex_lt(b[0], y));
                assert(b.contains(y));
                assert(a.contains(y));
                let k2 = choose|k2: int| 0 <= k2 < a.len() && a[k2] == y;
                if k2 == 0 {
                    assert(y == a[0]);
                    assert(false);
                }
                assert(at[k2 - 1] == y);
            }
        }
        lemma_sorted_listing_unique(at, bt);
        assert(forall|i: int| 1 <= i < a.len() ==> a[i] == at[i - 1]);
        assert(forall|i: int| 1 <= i < b.len() ==> b[i] == bt[i - 1]);
        assert(a =~= b);
    }
}

} // verus!

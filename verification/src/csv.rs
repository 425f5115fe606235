//! CSV field quoting and splitting, RFC-4180 style: a field containing a
//! comma, quote or newline is wrapped in double quotes, with embedded
//! quotes doubled; splitting undoes exactly that.
use vstd::prelude::*;
use crate::text::{from_chars, to_chars};

verus! {

/// A field that must be quoted when written: it holds a comma, a double
/// quote or a newline.
pub open spec fn needs_quoting(s: Seq<char>) -> bool {
    exists|i: int| 0 <= i < s.len() && (s[i] == ',' || s[i] == '"' || s[i] == '\n')
}

/// Every double quote doubled.
pub open spec fn double_quotes(s: Seq<char>) -> Seq<char>
    decreases s.len(),
{
    if s.len() == 0 {
        Seq::empty()
    } else if s[0] == '"' {
        seq!['"', '"'] + double_quotes(s.drop_first())
    } else {
        seq![s[0]] + double_quotes(s.drop_first())
    }
}

pub proof fn lemma_double_quotes_push(s: Seq<char>, c: char)
    ensures
        double_quotes(s.push(c)) == double_quotes(s) + (if c == '"' {
            seq!['"', '"']
        } else {
            seq![c]
        }),
    decreases s.len(),
{
    let p = s.push(c);
    let tail = if c == '"' {
        seq!['"', '"']
    } else {
        seq![c]
    };
    if s.len() == 0 {
        assert(p[0] == c);
        let e = p.drop_first();
        assert(e =~= Seq::<char>::empty());
        assert(double_quotes(e) == Seq::<char>::empty());
        assert(double_quotes(p) == tail + double_quotes(e));
        assert(tail + double_quotes(e) =~= double_quotes(s) + tail);
    } else {
        assert(p[0] == s[0]);
        assert(p.drop_first() =~= s.drop_first().push(c));
        lemma_double_quotes_push(s.drop_first(), c);
        if s[0] == '"' {
            assert(seq!['"', '"'] + (double_quotes(s.drop_first()) + tail) =~= (seq!['"', '"']
                + double_quotes(s.drop_first())) + tail);
        } else {
            assert(seq![s[0]] + (double_quotes(s.drop_first()) + tail) =~= (seq![s[0]]
                + double_quotes(s.drop_first())) + tail);
        }
    }
}

/// How one field is written into a CSV row.
pub open spec fn csv_escape_spec(s: Seq<char>) -> Seq<char> {
    if needs_quoting(s) {
        seq!['"'] + double_quotes(s) + seq!['"']
    } else {
        s
    }
}

/// Escape one CSV field: quoted, with quotes doubled, exactly when it
/// holds a comma, quote or newline.
pub fn csv_escape(s: &str) -> (r: String)
    ensures
        r@ == csv_escape_spec(s@),
{
    let v = to_chars(s);
    let mut special: bool = false;
    let mut i: usize = 0;
    while i < v.len()
        invariant
            i <= v@.len(),
            v@ == s@,
            special == exists|j: int|
                0 <= j < i && (v@[j] == ',' || v@[j] == '"' || v@[j] == '\n'),
        decreases v.len() - i,
    {
        let c = v[i];
        if c == ',' || c == '"' || c == '\n' {
            special = true;
        }
        i = i + 1;
    }
    if !special {
        let r = String::from_str(s);
        return r;
    }
    let mut out: Vec<char> = Vec::new();
    out.push('"');
    let ghost head = seq!['"'];
    proof {
        assert(out@ =~= head + double_quotes(v@.take(0)));
    }
    let mut k: usize = 0;
    while k < v.len()
        invariant
            k <= v@.len(),
            v@ == s@,
            out@ == head + double_quotes(v@.take(k as int)),
        decreases v.len() - k,
    {
        let c = v[k];
        out.push(c);
        if c == '"' {
            out.push('"');
        }
        proof {
            assert(v@.take(k + 1) =~= v@.take(k as int).push(v@[k as int]));
            lemma_double_quotes_push(v@.take(k as int), v@[k as int]);
            if c == '"' {
                assert(out@ =~= head + double_quotes(v@.take(k + 1)));
            } else {
                assert(out@ =~= head + double_quotes(v@.take(k + 1)));
            }
        }
        k = k + 1;
    }
    out.push('"');
    proof {
        assert(v@.take(v@.len() as int) =~= v@);
        assert(out@ =~= seq!['"'] + double_quotes(s@) + seq!['"']);
    }
    from_chars(&out)
}

/// The CSV field splitter's step-by-step meaning: `in_q` says whether we
/// are inside a quoted stretch, `cur` is the field built so far.
pub open spec fn csv_split_rec(s: Seq<char>, in_q: bool, cur: Seq<char>) -> Seq<Seq<char>>
    decreases s.len(),
{
    if s.len() == 0 {
        seq![cur]
    } else {
        let c = s[0];
        if c == '"' {
            if in_q {
                if s.len() > 1 && s[1] == '"' {
                    csv_split_rec(s.skip(2), true, cur.push('"'))
                } else {
                    csv_split_rec(s.drop_first(), false, cur)
                }
            } else {
                csv_split_rec(s.drop_first(), true, cur)
            }
        } else if c == ',' && !in_q {
            seq![cur] + csv_split_rec(s.drop_first(), false, Seq::empty())
        } else {
            csv_split_rec(s.drop_first(), in_q, cur.push(c))
        }
    }
}

/// The fields of one CSV row: split on commas outside quotes, quotes
/// removed, doubled quotes read back as one.
pub open spec fn csv_split_spec(s: Seq<char>) -> Seq<Seq<char>> {
    csv_split_rec(s, false, Seq::empty())
}

/// The views of a sequence of strings.
pub open spec fn str_views(s: Seq<String>) -> Seq<Seq<char>> {
    s.map_values(|x: String| x@)
}

/// Split one CSV row into its fields.
pub fn csv_split(line: &str) -> (r: Vec<String>)
    ensures
        str_views(r@) == csv_split_spec(line@),
{
    let v = to_chars(line);
    let mut fields: Vec<String> = Vec::new();
    let mut cur: Vec<char> = Vec::new();
    let mut in_q: bool = false;
    let mut i: usize = 0;
    proof {
        assert(v@.skip(0) =~= v@);
        assert(str_views(fields@) =~= Seq::<Seq<char>>::empty());
    }
    while i < v.len()
        invariant
            i <= v@.len(),
            v@ == line@,
            csv_split_spec(line@) == str_views(fields@) + csv_split_rec(
                v@.skip(i as int),
                in_q,
                cur@,
            ),
        decreases v.len() - i,
    {
        let c = v[i];
        proof {
            assert(v@.skip(i as int)[0] == v@[i as int]);
            assert(v@.skip(i as int).drop_first() =~= v@.skip(i + 1));
        }
        if c == '"' {
            if in_q {
                if i + 1 < v.len() && v[i + 1] == '"' {
                    proof {
                        assert(v@.skip(i as int)[1] == v@[i + 1]);
                        assert(v@.skip(i as int).skip(2) =~= v@.skip(i + 2));
                    }
                    cur.push('"');
                    i = i + 2;
                } else {
                    proof {
                        if v@.skip(i as int).len() > 1 {
                            assert(v@.skip(i as int)[1] == v@[i + 1]);
                        }
                    }
                    in_q = false;
                    i = i + 1;
                }
            } else {
                in_q = true;
                i = i + 1;
            }
        } else if c == ',' && !in_q {
            let done = from_chars(&cur);
            let ghost oldfields = fields@;
            fields.push(done);
            cur = Vec::new();
            proof {
                assert(str_views(fields@) =~= str_views(oldfields).push(done@));
                assert(str_views(oldfields).push(done@) + csv_split_rec(
                    v@.skip(i + 1),
                    false,
                    Seq::empty(),
                ) =~= str_views(oldfields) + (seq![done@] + csv_split_rec(
                    v@.skip(i + 1),
                    false,
                    Seq::empty(),
                )));
            }
            i = i + 1;
        } else {
            cur.push(c);
            i = i + 1;
        }
    }
    proof {
        assert(v@.skip(v@.len() as int).len() == 0);
    }
    let done = from_chars(&cur);
    let ghost oldfields = fields@;
    fields.push(done);
    proof {
        assert(str_views(fields@) =~= str_views(oldfields).push(done@));
        assert(str_views(oldfields).push(done@) =~= str_views(oldfields) + seq![done@]);
    }
    fields
}

/// A separator-free, quote-free run lands in one field.
proof fn lemma_split_plain(s: Seq<char>, cur: Seq<char>)
    requires
        forall|i: int| 0 <= i < s.len() ==> s[i] != ',' && s[i] != '"',
    ensures
        csv_split_rec(s, false, cur) == seq![cur + s],
    decreases s.len(),
{
    if s.len() == 0 {
        assert(cur + s =~= cur);
    } else {
        lemma_split_plain(s.drop_first(), cur.push(s[0]));
        assert(cur.push(s[0]) + s.drop_first() =~= cur + s);
    }
}

/// Inside quotes, a doubled-quote rendering followed by the closing quote
/// reads back as the original field.
proof fn lemma_split_quoted(s: Seq<char>, cur: Seq<char>)
    ensures
        csv_split_rec(double_quotes(s) + seq!['"'], true, cur) == seq![cur + s],
    decreases s.len(),
{
    let w = double_quotes(s) + seq!['"'];
    if s.len() == 0 {
        assert(w =~= seq!['"']);
        assert(w[0] == '"' && w.len() == 1);
        assert(csv_split_rec(w, true, cur) == csv_split_rec(w.drop_first(), false, cur));
        assert(w.drop_first().len() == 0);
        assert(cur + s =~= cur);
    } else if s[0] == '"' {
        assert(w =~= seq!['"', '"'] + (double_quotes(s.drop_first()) + seq!['"']));
        assert(w[0] == '"' && w.len() > 1 && w[1] == '"');
        assert(w.skip(2) =~= double_quotes(s.drop_first()) + seq!['"']);
        lemma_split_quoted(s.drop_first(), cur.push('"'));
        assert(cur.push('"') + s.drop_first() =~= cur + s);
    } else {
        assert(w =~= seq![s[0]] + (double_quotes(s.drop_first()) + seq!['"']));
        assert(w[0] == s[0]);
        assert(w.drop_first() =~= double_quotes(s.drop_first()) + seq!['"']);
        lemma_split_quoted(s.drop_first(), cur.push(s[0]));
        assert(cur.push(s[0]) + s.drop_first() =~= cur + s);
    }
}

/// Escaping then splitting is the identity: any field, however many
/// commas, quotes or newlines it holds, comes back as the row's single
/// field.
pub proof fn lemma_csv_escape_roundtrip(s: Seq<char>)
    ensures
        csv_split_spec(csv_escape_spec(s)) == seq![s],
{
    if needs_quoting(s) {
        let w = seq!['"'] + double_quotes(s) + seq!['"'];
        assert(w[0] == '"');
        assert(w.drop_first() =~= double_quotes(s) + seq!['"']);
        lemma_split_quoted(s, Seq::empty());
        assert(Seq::<char>::empty() + s =~= s);
    } else {
        lemma_split_plain(s, Seq::empty());
        assert(Seq::<char>::empty() + s =~= s);
    }
}

} // verus!

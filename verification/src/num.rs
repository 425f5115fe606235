//! Decimal reading and writing of track durations.
use vstd::prelude::*;

verus! {

pub open spec fn is_digit(c: char) -> bool {
    '0' <= c && c <= '9'
}

pub open spec fn digit_val(c: char) -> int {
    c as u32 - '0' as u32
}

pub open spec fn all_digits(s: Seq<char>) -> bool {
    forall|i: int| 0 <= i < s.len() ==> is_digit(s[i])
}

/// The value of a non-empty run of decimal digits.
pub open spec fn digits_val(s: Seq<char>) -> int
    decreases s.len(),
{
    if s.len() == 0 {
        0
    } else {
        digits_val(s.drop_last()) * 10 + digit_val(s.last())
    }
}

pub proof fn lemma_digits_val_nonneg(s: Seq<char>)
    requires
        all_digits(s),
    ensures
        digits_val(s) >= 0,
    decreases s.len(),
{
    if s.len() > 0 {
        assert(all_digits(s.drop_last()));
        lemma_digits_val_nonneg(s.drop_last());
    }
}

/// What `str::parse::<i64>` accepts: an optional sign followed by one or
/// more digits, valued within the `i64` range.
pub open spec fn parse_i64_spec(s: Seq<char>) -> Option<int> {
    let neg = s.len() > 0 && s[0] == '-';
    let ds = if s.len() > 0 && (s[0] == '-' || s[0] == '+') {
        s.drop_first()
    } else {
        s
    };
    if ds.len() == 0 || !all_digits(ds) {
        None
    } else {
        let v = if neg {
            -digits_val(ds)
        } else {
            digits_val(ds)
        };
        if i64::MIN <= v <= i64::MAX {
            Some(v)
        } else {
            None
        }
    }
}

/// Read a decimal integer, as `str::parse::<i64>` would.
pub fn parse_i64(v: &Vec<char>) -> (r: Option<i64>)
    ensures
        match r {
            Some(x) => parse_i64_spec(v@) == Some(x as int),
            None => parse_i64_spec(v@) is None,
        },
{
    let mut idx: usize = 0;
    let mut neg: bool = false;
    if v.len() > 0 && (v[0] == '-' || v[0] == '+') {
        neg = v[0] == '-';
        idx = 1;
    }
    if idx >= v.len() {
        return None;
    }
    let limit: u64 = if neg {
        9223372036854775808u64
    } else {
        9223372036854775807u64
    };
    let ghost ds = v@.skip(idx as int);
    let mut mag: u64 = 0;
    let mut over: bool = false;
    let mut i: usize = idx;
    proof {
        assert(ds.take(0) =~= Seq::<char>::empty());
        if idx == 1 {
            assert(ds =~= v@.drop_first());
        } else {
            assert(ds =~= v@);
        }
    }
    while i < v.len()
        invariant
            idx <= i <= v@.len(),
            ds == v@.skip(idx as int),
            all_digits(ds.take(i - idx)),
            !over ==> mag == digits_val(ds.take(i - idx)) && mag <= limit,
            over ==> digits_val(ds.take(i - idx)) > limit,
        decreases v.len() - i,
    {
        let c = v[i];
        proof {
            assert(ds[i - idx] == v@[i as int]);
        }
        if !('0' <= c && c <= '9') {
            proof {
                assert(!is_digit(ds[i - idx]));
            }
            return None;
        }
        let d: u64 = (c as u32 - 48) as u64;
        let ghost p = ds.take(i - idx);
        proof {
            assert(ds.take(i + 1 - idx).drop_last() =~= p);
            assert(ds.take(i + 1 - idx).last() == c);
            assert(digits_val(ds.take(i + 1 - idx)) == digits_val(p) * 10 + d);
            lemma_digits_val_nonneg(p);
        }
        if !over {
            if mag > (limit - d) / 10 {
                over = true;
                proof {
                    let q = (limit - d) / 10;
                    assert(limit - d == 10 * q + (limit - d) % 10);
                    assert(10 * mag + d > limit);
                }
            } else {
                proof {
                    let q = (limit - d) / 10;
                    assert(limit - d == 10 * q + (limit - d) % 10);
                    assert(10 * mag + d <= limit);
                }
                mag = mag * 10 + d;
            }
        } else {
            proof {
                assert(digits_val(p) * 10 >= digits_val(p));
            }
        }
        i = i + 1;
    }
    proof {
        assert(ds.take(v@.len() - idx) =~= ds);
    }
    if over {
        return None;
    }
    if neg {
        if mag <= 9223372036854775807u64 {
            Some(-(mag as i64))
        } else {
            Some(i64::MIN)
        }
    } else {
        Some(mag as i64)
    }
}

pub open spec fn digit_char(d: int) -> char {
    if d == 0 {
        '0'
    } else if d == 1 {
        '1'
    } else if d == 2 {
        '2'
    } else if d == 3 {
        '3'
    } else if d == 4 {
        '4'
    } else if d == 5 {
        '5'
    } else if d == 6 {
        '6'
    } else if d == 7 {
        '7'
    } else if d == 8 {
        '8'
    } else {
        '9'
    }
}

fn digit_of(d: u64) -> (c: char)
    requires
        d < 10,
    ensures
        c == digit_char(d as int),
{
    if d == 0 {
        '0'
    } else if d == 1 {
        '1'
    } else if d == 2 {
        '2'
    } else if d == 3 {
        '3'
    } else if d == 4 {
        '4'
    } else if d == 5 {
        '5'
    } else if d == 6 {
        '6'
    } else if d == 7 {
        '7'
    } else if d == 8 {
        '8'
    } else {
        '9'
    }
}

/// The decimal digits of a non-negative number, most significant first.
pub open spec fn dec_digits(n: int) -> Seq<char>
    decreases n,
{
    if n < 10 {
        seq![digit_char(n)]
    } else {
        dec_digits(n / 10).push(digit_char(n % 10))
    }
}

/// Rendered digits are digits.
pub proof fn lemma_dec_digits_chars(n: int)
    ensures
        forall|k: int| 0 <= k < dec_digits(n).len() ==> is_digit(#[trigger] dec_digits(n)[k]),
    decreases n,
{
    if n < 10 {
        assert(is_digit(digit_char(n)));
    } else {
        lemma_dec_digits_chars(n / 10);
        let d = dec_digits(n);
        assert forall|k: int| 0 <= k < d.len() implies is_digit(#[trigger] d[k]) by {
            if k < d.len() - 1 {
                assert(d[k] == dec_digits(n / 10)[k]);
            } else {
                assert(d[k] == digit_char(n % 10));
            }
        }
    }
}

/// A rendered integer is a minus sign and digits: in particular it holds
/// no newline and does not begin a comment.
pub proof fn lemma_i64_str_chars(n: int)
    ensures
        forall|k: int|
            0 <= k < i64_str(n).len() ==> (#[trigger] i64_str(n)[k] == '-' || is_digit(
                i64_str(n)[k],
            )),
{
    if n < 0 {
        lemma_dec_digits_chars(-n);
        let s = i64_str(n);
        assert forall|k: int| 0 <= k < s.len() implies (#[trigger] s[k] == '-' || is_digit(
            s[k],
        )) by {
            if k > 0 {
                assert(s[k] == dec_digits(-n)[k - 1]);
            }
        }
    } else {
        lemma_dec_digits_chars(n);
    }
}

/// The decimal rendering of `n`, as `i64`'s `Display` writes it.
pub open spec fn i64_str(n: int) -> Seq<char> {
    if n < 0 {
        seq!['-'] + dec_digits(-n)
    } else {
        dec_digits(n)
    }
}

/// Write a decimal integer, as `format!("{}", n)` would.
pub fn i64_to_chars(n: i64) -> (r: Vec<char>)
    ensures
        r@ == i64_str(n as int),
{
    let mag0: u64 = if n < 0 {
        ((-(n + 1)) as u64) + 1
    } else {
        n as u64
    };
    let mut digs: Vec<char> = Vec::new();
    let mut mag: u64 = mag0;
    let mut fin: bool = false;
    proof {
        assert(dec_digits(mag0 as int) =~= dec_digits(mag0 as int)
            + Seq::<char>::empty().reverse());
    }
    while !fin
        invariant
            !fin ==> dec_digits(mag0 as int) == dec_digits(mag as int) + digs@.reverse(),
            fin ==> dec_digits(mag0 as int) == digs@.reverse(),
        decreases mag + 1, !fin as int,
    {
        let d = mag % 10;
        let next = mag / 10;
        let c = digit_of(d);
        let ghost olddigs = digs@;
        digs.push(c);
        proof {
            assert(digs@.reverse() =~= seq![c] + olddigs.reverse());
            if mag >= 10 {
                assert(dec_digits(mag as int) == dec_digits(next as int).push(c));
                assert(dec_digits(next as int) + digs@.reverse() =~= (dec_digits(next as int).push(
                    c,
                )) + olddigs.reverse());
            } else {
                assert(dec_digits(mag as int) =~= seq![c]);
                assert(digs@.reverse() =~= dec_digits(mag as int) + olddigs.reverse());
            }
        }
        mag = next;
        if mag == 0 {
            fin = true;
        }
    }
    let mut r: Vec<char> = Vec::new();
    if n < 0 {
        r.push('-');
    }
    let ghost head = r@;
    let mut j: usize = digs.len();
    while j > 0
        invariant
            j <= digs@.len(),
            r@ == head + digs@.reverse().take(digs@.len() - j),
        decreases j,
    {
        j = j - 1;
        r.push(digs[j]);
        proof {
            assert(digs@.reverse()[digs@.len() - j - 1] == digs@[j as int]);
            assert(digs@.reverse().take(digs@.len() - j) =~= digs@.reverse().take(
                digs@.len() - j - 1,
            ).push(digs@[j as int]));
        }
    }
    proof {
        assert(digs@.reverse().take(digs@.len() as int) =~= digs@.reverse());
        if n < 0 {
            assert(mag0 == -(n as int));
            assert(r@ =~= seq!['-'] + digs@.reverse());
        } else {
            assert(r@ =~= digs@.reverse());
        }
    }
    r
}

} // verus!

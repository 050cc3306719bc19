//! Character and string helpers shared by the parser and the store:
//! ASCII lower-casing, trimming, splitting on a separator, and suffix tests.

use vstd::prelude::*;

verus! {

/// Lower-cases one character, ASCII-wise: `'A'..='Z'` move to `'a'..='z'`,
/// every other character stays.
pub open spec fn lower_char(c: char) -> char {
    if 'A' <= c && c <= 'Z' {
        (((c as u8) + 32) as char)
    } else {
        c
    }
}

/// Lower-cases a character sequence, ASCII-wise.
pub open spec fn lower_seq(s: Seq<char>) -> Seq<char> {
    s.map(|_i: int, c: char| lower_char(c))
}

fn lower_char_exec(c: char) -> (r: char)
    ensures
        r == lower_char(c),
{
    if 'A' <= c && c <= 'Z' {
        ((c as u8) + 32) as char
    } else {
        c
    }
}

/// Relies on `String::push`: appends one character at the end.
#[verifier::external_body]
pub(crate) fn push_char(s: &mut String, c: char)
    ensures
        final(s)@ == old(s)@.push(c),
{
    s.push(c);
}

/// Lower-casing is idempotent.
pub proof fn lemma_lower_seq_idempotent(s: Seq<char>)
    ensures
        lower_seq(lower_seq(s)) == lower_seq(s),
{
    assert forall|i: int| 0 <= i < s.len() implies lower_seq(lower_seq(s))[i] == lower_seq(s)[i] by {
        assert(lower_seq(s)[i] == lower_char(s[i]));
        assert(lower_char(lower_char(s[i])) == lower_char(s[i]));
    }
    assert(lower_seq(lower_seq(s)) =~= lower_seq(s));
}

/// A whitespace character, as trimming understands it.
pub open spec fn is_ws(c: char) -> bool {
    c == ' ' || c == '\t' || c == '\n' || c == '\r'
}

/// The sequence with its leading whitespace removed.
pub open spec fn trimmed_left(s: Seq<char>) -> Seq<char>
    decreases s.len(),
{
    if s.len() > 0 && is_ws(s[0]) {
        trimmed_left(s.drop_first())
    } else {
        s
    }
}

/// The sequence with its trailing whitespace removed.
pub open spec fn trimmed_right(s: Seq<char>) -> Seq<char>
    decreases s.len(),
{
    if s.len() > 0 && is_ws(s.last()) {
        trimmed_right(s.drop_last())
    } else {
        s
    }
}

/// The sequence with leading and trailing whitespace removed.
pub open spec fn trimmed(s: Seq<char>) -> Seq<char> {
    trimmed_right(trimmed_left(s))
}

/// The parts of `s` between occurrences of the separator, in order.
/// An empty sequence has one empty part; a separator at either edge
/// or two adjacent separators yield empty parts.
pub open spec fn split_parts(s: Seq<char>, sep: char) -> Seq<Seq<char>>
    decreases s.len(),
{
    if s.len() == 0 {
        seq![Seq::<char>::empty()]
    } else if s[0] == sep {
        seq![Seq::<char>::empty()] + split_parts(s.drop_first(), sep)
    } else {
        let rest = split_parts(s.drop_first(), sep);
        seq![seq![s[0]] + rest[0]] + rest.drop_first()
    }
}

/// Splitting yields at least one part.
pub proof fn lemma_split_parts_len(s: Seq<char>, sep: char)
    ensures
        split_parts(s, sep).len() >= 1,
    decreases s.len(),
{
    if s.len() > 0 && s[0] != sep {
        lemma_split_parts_len(s.drop_first(), sep);
    }
}

/// How one more character extends a split: a separator opens a new empty
/// part, any other character extends the last part.
pub proof fn lemma_split_parts_push(s: Seq<char>, sep: char, c: char)
    ensures
        c == sep ==> split_parts(s.push(c), sep) == split_parts(s, sep).push(
            Seq::<char>::empty(),
        ),
        c != sep ==> split_parts(s.push(c), sep) == split_parts(s, sep).update(
            split_parts(s, sep).len() - 1,
            split_parts(s, sep).last().push(c),
        ),
    decreases s.len(),
{
    lemma_split_parts_len(s, sep);
    if s.len() == 0 {
        let e = Seq::<char>::empty();
        assert(s =~= e);
        assert(split_parts(e, sep) == seq![e]);
        assert(s.push(c).drop_first() =~= e);
        assert(s.push(c)[0] == c);
        if c == sep {
            assert(split_parts(s.push(c), sep) == seq![e] + split_parts(e, sep));
            assert(seq![e] + seq![e] =~= seq![e].push(e));
        } else {
            assert(split_parts(s.push(c), sep) == seq![seq![c] + seq![e][0]] + seq![e].drop_first());
            assert(seq![c] + e =~= e.push(c));
            assert(seq![seq![c] + e] + seq![e].drop_first() =~= seq![e].update(0, e.push(c)));
        }
    } else {
        let t = s.drop_first();
        assert(s.push(c).drop_first() =~= t.push(c));
        lemma_split_parts_push(t, sep, c);
        lemma_split_parts_len(t, sep);
        let rest = split_parts(t, sep);
        let restc = split_parts(t.push(c), sep);
        if c == sep {
            if s[0] == sep {
                assert(split_parts(s.push(c), sep) =~= split_parts(s, sep).push(
                    Seq::<char>::empty(),
                ));
            } else {
                assert(restc[0] == rest[0]);
                assert(restc.drop_first() =~= rest.drop_first().push(Seq::<char>::empty()));
                assert(split_parts(s.push(c), sep) =~= split_parts(s, sep).push(
                    Seq::<char>::empty(),
                ));
            }
        } else {
            let parts = split_parts(s, sep);
            if s[0] == sep {
                assert(split_parts(s.push(c), sep) =~= parts.update(
                    parts.len() - 1,
                    parts.last().push(c),
                ));
            } else {
                if rest.len() == 1 {
                    assert(restc[0] == rest[0].push(c));
                    assert(restc.drop_first() =~= rest.drop_first());
                    assert(split_parts(s.push(c), sep) =~= parts.update(
                        parts.len() - 1,
                        parts.last().push(c),
                    ));
                } else {
                    assert(restc[0] == rest[0]);
                    assert(restc.drop_first() =~= rest.drop_first().update(
                        rest.drop_first().len() - 1,
                        rest.drop_first().last().push(c),
                    ));
                    assert(split_parts(s.push(c), sep) =~= parts.update(
                        parts.len() - 1,
                        parts.last().push(c),
                    ));
                }
            }
        }
    }
}

/// Splits a string on a separator character.
pub fn split(s: &str, sep: char) -> (parts: Vec<String>)
    ensures
        parts@.len() == split_parts(s@, sep).len(),
        forall|i: int| 0 <= i < parts@.len() ==> parts@[i]@ == split_parts(s@, sep)[i],
{
    let n = s.unicode_len();
    let mut parts: Vec<String> = Vec::new();
    let mut cur = String::new();
    let mut i: usize = 0;
    proof {
        assert(s@.take(0) =~= Seq::<char>::empty());
    }
    while i < n
        invariant
            i <= n,
            n == s@.len(),
            parts@.len() + 1 == split_parts(s@.take(i as int), sep).len(),
            forall|j: int|
                0 <= j < parts@.len() ==> parts@[j]@ == split_parts(s@.take(i as int), sep)[j],
            cur@ == split_parts(s@.take(i as int), sep).last(),
        decreases n - i,
    {
        let c = s.get_char(i);
        proof {
            assert(s@.take(i + 1) =~= s@.take(i as int).push(s@[i as int]));
            lemma_split_parts_push(s@.take(i as int), sep, s@[i as int]);
            lemma_split_parts_len(s@.take(i as int), sep);
        }
        if c == sep {
            parts.push(cur);
            cur = String::new();
        } else {
            push_char(&mut cur, c);
        }
        i = i + 1;
    }
    proof {
        assert(s@.take(n as int) =~= s@);
    }
    parts.push(cur);
    parts
}

/// Trims leading and trailing whitespace.
pub fn trim(s: &str) -> (r: String)
    ensures
        r@ == trimmed(s@),
{
    let n = s.unicode_len();
    let mut i: usize = 0;
    proof {
        assert(s@.skip(0) =~= s@);
    }
    loop
        invariant_except_break
            i <= n,
            n == s@.len(),
            trimmed_left(s@.skip(i as int)) == trimmed_left(s@),
        ensures
            i <= n,
            n == s@.len(),
            trimmed_left(s@) == s@.skip(i as int),
        decreases n - i,
    {
        if i == n {
            proof {
                assert(s@.skip(i as int) =~= Seq::<char>::empty());
            }
            break;
        }
        let c = s.get_char(i);
        if !is_ws_exec(c) {
            break;
        }
        proof {
            assert(s@.skip(i as int).drop_first() =~= s@.skip(i + 1));
        }
        i = i + 1;
    }
    let mut j: usize = n;
    proof {
        assert(s@.skip(i as int) =~= s@.subrange(i as int, n as int));
    }
    loop
        invariant_except_break
            i <= j <= n,
            n == s@.len(),
            trimmed_right(s@.subrange(i as int, j as int)) == trimmed_right(
                s@.subrange(i as int, n as int),
            ),
        ensures
            i <= j <= n,
            n == s@.len(),
            trimmed_right(s@.subrange(i as int, n as int)) == s@.subrange(i as int, j as int),
        decreases j,
    {
        if j == i {
            break;
        }
        let c = s.get_char(j - 1);
        if !is_ws_exec(c) {
            break;
        }
        proof {
            assert(s@.subrange(i as int, j as int).drop_last() =~= s@.subrange(i as int, j - 1));
        }
        j = j - 1;
    }
    let part = s.substring_char(i, j);
    let r = String::from_str(part);
    proof {
        assert(s@.skip(i as int) =~= s@.subrange(i as int, n as int));
        assert(trimmed(s@) == trimmed_right(s@.subrange(i as int, n as int)));
    }
    r
}

fn is_ws_exec(c: char) -> (r: bool)
    ensures
        r == is_ws(c),
{
    c == ' ' || c == '\t' || c == '\n' || c == '\r'
}

/// Whether `t` is a suffix of `s`.
pub open spec fn has_suffix(s: Seq<char>, t: Seq<char>) -> bool {
    t.len() <= s.len() && s.skip(s.len() - t.len()) == t
}

/// Whether the string `s` ends with the string `t`.
pub fn ends_with(s: &str, t: &str) -> (r: bool)
    ensures
        r == has_suffix(s@, t@),
{
    let n = s.unicode_len();
    let m = t.unicode_len();
    if m > n {
        return false;
    }
    let off = n - m;
    let mut k: usize = 0;
    while k < m
        invariant
            k <= m,
            m <= n,
            off == n - m,
            n == s@.len(),
            m == t@.len(),
            forall|j: int| 0 <= j < k ==> s@[off + j] == t@[j],
        decreases m - k,
    {
        if s.get_char(off + k) != t.get_char(k) {
            assert(s@.skip(off as int)[k as int] != t@[k as int]);
            return false;
        }
        k = k + 1;
    }
    proof {
        assert(s@.skip(off as int) =~= t@);
    }
    true
}

/// Whether two strings hold the same characters.
pub fn str_eq(s: &str, t: &str) -> (r: bool)
    ensures
        r == (s@ == t@),
{
    let n = s.unicode_len();
    let m = t.unicode_len();
    if m != n {
        return false;
    }
    let mut k: usize = 0;
    while k < n
        invariant
            k <= n,
            n == s@.len(),
            n == t@.len(),
            forall|j: int| 0 <= j < k ==> s@[j] == t@[j],
        decreases n - k,
    {
        if s.get_char(k) != t.get_char(k) {
            return false;
        }
        k = k + 1;
    }
    proof {
        assert(s@ =~= t@);
    }
    true
}

/// Lower-cases a string, ASCII-wise.
pub fn lower(s: &str) -> (r: String)
    ensures
        r@ == lower_seq(s@),
{
    let n = s.unicode_len();
    let mut r = String::new();
    let mut i: usize = 0;
    while i < n
        invariant
            i <= n,
            n == s@.len(),
            r@ == lower_seq(s@.take(i as int)),
        decreases n - i,
    {
        let c = s.get_char(i);
        push_char(&mut r, lower_char_exec(c));
        proof {
            assert(lower_seq(s@.take(i + 1)) =~= lower_seq(s@.take(i as int)).push(
                lower_char(s@[i as int]),
            ));
        }
        i = i + 1;
    }
    proof {
        assert(s@.take(n as int) =~= s@);
    }
    r
}

} // verus!

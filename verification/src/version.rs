//! The version model: a version is a sequence of numeric components read
//! from a dotted decimal string ("5.0.14"), ordered lexicographically with
//! a proper prefix ordering before its extensions ("5.0" < "5.0.14" < "5.1").

use crate::text::{split, split_parts};
use vstd::prelude::*;

verus! {

/// True of `'0'` through `'9'`.
pub open spec fn is_digit(c: char) -> bool {
    '0' <= c && c <= '9'
}

/// Numeric value of one digit character.
pub open spec fn digit_value(c: char) -> nat {
    ((c as u32) - ('0' as u32)) as nat
}

/// Value of a string of decimal digits, most significant first.
pub open spec fn decimal_value(s: Seq<char>) -> nat
    decreases s.len(),
{
    if s.len() == 0 {
        0
    } else {
        decimal_value(s.drop_last()) * 10 + digit_value(s.last())
    }
}

/// A well-formed numeric component: at least one digit, value within `u64`.
pub open spec fn chunk_ok(s: Seq<char>) -> bool {
    &&& s.len() > 0
    &&& (forall|i: int| 0 <= i < s.len() ==> is_digit(s[i]))
    &&& decimal_value(s) <= u64::MAX
}

/// A well-formed version string: numeric components separated by `'.'`.
pub open spec fn version_text_ok(s: Seq<char>) -> bool {
    forall|i: int|
        0 <= i < split_parts(s, '.').len() ==> chunk_ok(#[trigger] split_parts(s, '.')[i])
}

/// The components a well-formed version string denotes.
pub open spec fn version_chunks(s: Seq<char>) -> Seq<u64> {
    split_parts(s, '.').map(|_i: int, p: Seq<char>| decimal_value(p) as u64)
}

/// Strict lexicographic order on component sequences; a proper prefix
/// comes before its extensions.
pub open spec fn ver_lt(a: Seq<u64>, b: Seq<u64>) -> bool
    decreases a.len(),
{
    if b.len() == 0 {
        false
    } else if a.len() == 0 {
        true
    } else if a[0] < b[0] {
        true
    } else if a[0] > b[0] {
        false
    } else {
        ver_lt(a.drop_first(), b.drop_first())
    }
}

/// Non-strict counterpart of [`ver_lt`].
pub open spec fn ver_le(a: Seq<u64>, b: Seq<u64>) -> bool {
    ver_lt(a, b) || a == b
}

/// The order is total: two sequences compare one way, the other, or are equal.
pub proof fn lemma_ver_lt_total(a: Seq<u64>, b: Seq<u64>)
    ensures
        ver_lt(a, b) || ver_lt(b, a) || a == b,
    decreases a.len(),
{
    if a.len() == 0 && b.len() == 0 {
        assert(a =~= b);
    } else if a.len() > 0 && b.len() > 0 && a[0] == b[0] {
        lemma_ver_lt_total(a.drop_first(), b.drop_first());
        if !ver_lt(a, b) && !ver_lt(b, a) {
            assert(a.drop_first() == b.drop_first());
            assert(a.len() == b.len());
            assert forall|i: int| 0 <= i < a.len() implies a[i] == b[i] by {
                if i > 0 {
                    assert(a[i] == a.drop_first()[i - 1]);
                    assert(b[i] == b.drop_first()[i - 1]);
                }
            }
            assert(a =~= b);
        }
    }
}

/// The order is asymmetric.
pub proof fn lemma_ver_lt_asym(a: Seq<u64>, b: Seq<u64>)
    ensures
        !(ver_lt(a, b) && ver_lt(b, a)),
    decreases a.len(),
{
    if a.len() > 0 && b.len() > 0 && a[0] == b[0] {
        lemma_ver_lt_asym(a.drop_first(), b.drop_first());
    }
}

/// The order is transitive.
pub proof fn lemma_ver_lt_trans(a: Seq<u64>, b: Seq<u64>, c: Seq<u64>)
    ensures
        ver_lt(a, b) && ver_lt(b, c) ==> ver_lt(a, c),
    decreases a.len(),
{
    if a.len() > 0 && b.len() > 0 && c.len() > 0 {
        lemma_ver_lt_trans(a.drop_first(), b.drop_first(), c.drop_first());
    }
}

/// The non-strict order is antisymmetric.
pub proof fn lemma_ver_le_antisym(a: Seq<u64>, b: Seq<u64>)
    ensures
        ver_le(a, b) && ver_le(b, a) ==> a == b,
{
    lemma_ver_lt_asym(a, b);
}

/// Transitivity for the non-strict order against the strict one.
pub proof fn lemma_ver_le_lt_trans(a: Seq<u64>, b: Seq<u64>, c: Seq<u64>)
    ensures
        ver_le(a, b) && ver_lt(b, c) ==> ver_lt(a, c),
        ver_lt(a, b) && ver_le(b, c) ==> ver_lt(a, c),
        ver_le(a, b) && ver_le(b, c) ==> ver_le(a, c),
{
    lemma_ver_lt_trans(a, b, c);
}

/// Character of one decimal digit.
pub open spec fn digit_char(d: nat) -> char {
    (((d + ('0' as u32)) as u8) as char)
}

/// Decimal rendering of a number, most significant digit first.
pub open spec fn decimal_text(n: nat) -> Seq<char>
    decreases n,
{
    if n < 10 {
        seq![digit_char(n)]
    } else {
        decimal_text(n / 10).push(digit_char(n % 10))
    }
}

/// Rendering of a component sequence: decimal components joined by `'.'`.
pub open spec fn version_text(chunks: Seq<u64>) -> Seq<char>
    decreases chunks.len(),
{
    if chunks.len() == 0 {
        Seq::<char>::empty()
    } else if chunks.len() == 1 {
        decimal_text(chunks[0] as nat)
    } else {
        version_text(chunks.drop_last()) + seq!['.'] + decimal_text(chunks.last() as nat)
    }
}

/// A version: what the resolver orders and the range model bounds.
#[derive(Debug, PartialEq, Eq)]
pub struct Version {
    chunks: Vec<u64>,
}

impl View for Version {
    type V = Seq<u64>;

    closed spec fn view(&self) -> Seq<u64> {
        self.chunks@
    }
}

impl Clone for Version {
    fn clone(&self) -> (r: Self)
        ensures
            r@ == self@,
    {
        let mut chunks: Vec<u64> = Vec::new();
        let mut i: usize = 0;
        while i < self.chunks.len()
            invariant
                i <= self.chunks.len(),
                chunks@ == self.chunks@.take(i as int),
            decreases self.chunks.len() - i,
        {
            chunks.push(self.chunks[i]);
            proof {
                assert(self.chunks@.take(i + 1) =~= self.chunks@.take(i as int).push(
                    self.chunks@[i as int],
                ));
            }
            i = i + 1;
        }
        proof {
            assert(self.chunks@.take(self.chunks@.len() as int) =~= self.chunks@);
        }
        Version { chunks }
    }
}

fn parse_chunk(p: &str) -> (r: Option<u64>)
    ensures
        chunk_ok(p@) ==> (r matches Some(v) && v == decimal_value(p@)),
        !chunk_ok(p@) ==> r is None,
{
    let n = p.unicode_len();
    if n == 0 {
        return None;
    }
    let mut acc: u64 = 0;
    let mut k: usize = 0;
    proof {
        assert(p@.take(0) =~= Seq::<char>::empty());
    }
    while k < n
        invariant
            k <= n,
            n == p@.len(),
            acc == decimal_value(p@.take(k as int)),
            forall|j: int| 0 <= j < k ==> is_digit(p@[j]),
        decreases n - k,
    {
        let c = p.get_char(k);
        if !('0' <= c && c <= '9') {
            assert(!is_digit(p@[k as int]));
            return None;
        }
        let d = ((c as u32) - 48) as u64;
        proof {
            assert(p@.take(k + 1).drop_last() =~= p@.take(k as int));
            assert(p@.take(k + 1).last() == p@[k as int]);
        }
        let shifted = match acc.checked_mul(10) {
            Some(s) => s,
            None => {
                proof {
                    lemma_decimal_prefix_le(p@, k + 1);
                }
                return None;
            },
        };
        acc = match shifted.checked_add(d) {
            Some(s) => s,
            None => {
                proof {
                    lemma_decimal_prefix_le(p@, k + 1);
                }
                return None;
            },
        };
        k = k + 1;
    }
    proof {
        assert(p@.take(n as int) =~= p@);
    }
    Some(acc)
}

/// The decimal value of a digit-string prefix never exceeds the whole.
proof fn lemma_decimal_prefix_le(s: Seq<char>, k: int)
    requires
        0 <= k <= s.len(),
    ensures
        decimal_value(s.take(k)) <= decimal_value(s),
    decreases s.len() - k,
{
    if k < s.len() {
        lemma_decimal_prefix_le(s, k + 1);
        assert(s.take(k + 1).drop_last() =~= s.take(k));
        assert(decimal_value(s.take(k + 1)) == decimal_value(s.take(k)) * 10 + digit_value(
            s.take(k + 1).last(),
        ));
    } else {
        assert(s.take(k) =~= s);
    }
}

fn render_u64(n: u64) -> (r: String)
    ensures
        r@ == decimal_text(n as nat),
    decreases n,
{
    if n < 10 {
        let mut r = String::new();
        push_digit(&mut r, n);
        proof {
            assert(Seq::<char>::empty().push(digit_char(n as nat)) =~= seq![
                digit_char(n as nat),
            ]);
        }
        r
    } else {
        let mut r = render_u64(n / 10);
        push_digit(&mut r, n % 10);
        r
    }
}

fn push_digit(s: &mut String, d: u64)
    requires
        d < 10,
    ensures
        final(s)@ == old(s)@.push(digit_char(d as nat)),
{
    let c = ((d as u8) + 48) as char;
    proof {
        assert(c == digit_char(d as nat));
    }
    crate::text::push_char(s, c);
}

impl Version {
    /// Reads a version from a dotted decimal string; rejects anything else.
    pub fn parse(s: &str) -> (r: Option<Version>)
        ensures
            version_text_ok(s@) ==> (r matches Some(v) && v@ == version_chunks(s@)),
            !version_text_ok(s@) ==> r is None,
    {
        let parts = split(s, '.');
        let ghost sp = split_parts(s@, '.');
        let mut chunks: Vec<u64> = Vec::new();
        let mut i: usize = 0;
        while i < parts.len()
            invariant
                sp == split_parts(s@, '.'),
                i <= parts@.len(),
                parts@.len() == sp.len(),
                forall|j: int| 0 <= j < sp.len() ==> parts@[j]@ == sp[j],
                forall|j: int| 0 <= j < i ==> chunk_ok(#[trigger] sp[j]),
                chunks@ == sp.take(i as int).map(|_k: int, p: Seq<char>| decimal_value(p) as u64),
            decreases parts@.len() - i,
        {
            match parse_chunk(parts[i].as_str()) {
                Some(v) => {
                    chunks.push(v);
                    proof {
                        assert(sp.take(i + 1).map(
                            |_k: int, p: Seq<char>| decimal_value(p) as u64,
                        ) =~= sp.take(i as int).map(
                            |_k: int, p: Seq<char>| decimal_value(p) as u64,
                        ).push(decimal_value(sp[i as int]) as u64));
                    }
                },
                None => {
                    proof {
                        assert(parts@[i as int]@ == sp[i as int]);
                        assert(!chunk_ok(split_parts(s@, '.')[i as int]));
                    }
                    return None;
                },
            }
            i = i + 1;
        }
        proof {
            assert(sp.take(sp.len() as int) =~= sp);
            assert(chunks@ =~= version_chunks(s@));
        }
        Some(Version { chunks })
    }

    /// Strict order test.
    pub fn lt(&self, other: &Version) -> (r: bool)
        ensures
            r == ver_lt(self@, other@),
    {
        proof {
            assert(self@.skip(0) =~= self@);
            assert(other@.skip(0) =~= other@);
        }
        cmp_from(&self.chunks, &other.chunks, 0) == 2u8
    }

    /// Non-strict order test.
    pub fn le(&self, other: &Version) -> (r: bool)
        ensures
            r == ver_le(self@, other@),
    {
        proof {
            assert(self@.skip(0) =~= self@);
            assert(other@.skip(0) =~= other@);
            lemma_ver_lt_total(self@, other@);
        }
        cmp_from(&self.chunks, &other.chunks, 0) != 1u8
    }

    /// Renders the version back as a dotted decimal string.
    pub fn to_text(&self) -> (r: String)
        ensures
            r@ == version_text(self@),
    {
        if self.chunks.len() == 0 {
            return String::new();
        }
        let mut r = render_u64(self.chunks[0]);
        let mut i: usize = 1;
        proof {
            assert(self@.take(1).len() == 1);
            assert(self@.take(1)[0] == self@[0]);
        }
        while i < self.chunks.len()
            invariant
                1 <= i <= self@.len(),
                r@ == version_text(self@.take(i as int)),
            decreases self@.len() - i,
        {
            crate::text::push_char(&mut r, '.');
            let piece = render_u64(self.chunks[i]);
            r.append(piece.as_str());
            proof {
                assert(self@.take(i + 1).drop_last() =~= self@.take(i as int));
                assert(self@.take(i + 1).last() == self@[i as int]);
                assert(r@ =~= version_text(self@.take(i + 1)));
            }
            i = i + 1;
        }
        proof {
            assert(self@.take(self@.len() as int) =~= self@);
        }
        r
    }
}

/// Three-way comparison of the suffixes from `i` on:
/// 2 for less, 0 for equal, 1 for greater.
fn cmp_from(a: &Vec<u64>, b: &Vec<u64>, i: usize) -> (r: u8)
    requires
        i <= a.len(),
        i <= b.len(),
    ensures
        (r == 2) == ver_lt(a@.skip(i as int), b@.skip(i as int)),
        (r == 0) == (a@.skip(i as int) == b@.skip(i as int)),
        (r == 1) == ver_lt(b@.skip(i as int), a@.skip(i as int)),
    decreases a.len() - i,
{
    let ghost sa = a@.skip(i as int);
    let ghost sb = b@.skip(i as int);
    if i == a.len() {
        if i == b.len() {
            proof {
                assert(sa =~= sb);
            }
            0
        } else {
            proof {
                assert(sa.len() == 0 && sb.len() > 0);
                assert(sa != sb);
            }
            2
        }
    } else if i == b.len() {
        proof {
            assert(sb.len() == 0 && sa.len() > 0);
            assert(sa != sb);
        }
        1
    } else if a[i] < b[i] {
        proof {
            assert(sa[0] == a@[i as int] && sb[0] == b@[i as int]);
            assert(sa[0] != sb[0]);
        }
        2
    } else if a[i] > b[i] {
        proof {
            assert(sa[0] == a@[i as int] && sb[0] == b@[i as int]);
            assert(sa[0] != sb[0]);
        }
        1
    } else {
        let r = cmp_from(a, b, i + 1);
        proof {
            assert(sa.drop_first() =~= a@.skip(i + 1));
            assert(sb.drop_first() =~= b@.skip(i + 1));
            assert(sa[0] == a@[i as int] && sb[0] == b@[i as int]);
            if a@.skip(i + 1) == b@.skip(i + 1) {
                assert forall|j: int| 0 <= j < sa.len() implies sa[j] == sb[j] by {
                    if j > 0 {
                        assert(sa[j] == sa.drop_first()[j - 1]);
                        assert(sb[j] == sb.drop_first()[j - 1]);
                    }
                }
                assert(sa =~= sb);
            }
            if sa == sb {
                assert(sa.drop_first() == sb.drop_first());
            }
        }
        r
    }
}

} // verus!

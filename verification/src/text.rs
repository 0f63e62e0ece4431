//! Text primitives: the lexicographic order on strings, the leading token of a
//! field, trimming, and joining.

use vstd::prelude::*;
use vstd::std_specs::iter::IteratorSpec;

verus! {

/// `c` comes strictly before `d` by code point.
pub open spec fn char_lt(c: char, d: char) -> bool {
    (c as u32) < (d as u32)
}

/// Two different characters are ordered one way or the other.
pub proof fn lemma_char_lt_connected(c: char, d: char)
    ensures
        c != d ==> char_lt(c, d) || char_lt(d, c),
{
}

/// `a` and `b` agree on their first `i` characters, and at position `i`
/// either `a` ends or `a` holds the smaller character.
pub open spec fn le_witness(a: Seq<char>, b: Seq<char>, i: int) -> bool {
    &&& 0 <= i <= a.len()
    &&& i <= b.len()
    &&& forall|k: int| 0 <= k < i ==> a[k] == b[k]
    &&& (i == a.len() || (i < b.len() && char_lt(a[i], b[i])))
}

/// Lexicographic order by code point: `a` is a prefix of `b`, or `a` holds
/// the smaller character at the first position where the two differ.
pub open spec fn lex_le(a: Seq<char>, b: Seq<char>) -> bool {
    exists|i: int| le_witness(a, b, i)
}

/// The first position at or after `from` where `a` and `b` stop agreeing.
pub open spec fn first_difference(a: Seq<char>, b: Seq<char>, from: int) -> int
    decreases a.len() - from,
{
    if 0 <= from < a.len() && from < b.len() && a[from] == b[from] {
        first_difference(a, b, from + 1)
    } else {
        from
    }
}

proof fn lemma_first_difference(a: Seq<char>, b: Seq<char>, from: int)
    requires
        0 <= from <= a.len(),
        from <= b.len(),
        forall|k: int| 0 <= k < from ==> a[k] == b[k],
    ensures
        from <= first_difference(a, b, from) <= a.len(),
        first_difference(a, b, from) <= b.len(),
        forall|k: int| 0 <= k < first_difference(a, b, from) ==> a[k] == b[k],
        first_difference(a, b, from) == a.len() || first_difference(a, b, from) == b.len()
            || a[first_difference(a, b, from)] != b[first_difference(a, b, from)],
    decreases a.len() - from,
{
    if from < a.len() && from < b.len() && a[from] == b[from] {
        lemma_first_difference(a, b, from + 1);
    }
}

/// Every string precedes itself.
pub proof fn lemma_lex_le_reflexive(a: Seq<char>)
    ensures
        lex_le(a, a),
{
    assert(le_witness(a, a, a.len() as int));
}

/// Two strings that precede each other are the same string.
pub proof fn lemma_lex_le_antisymmetric(a: Seq<char>, b: Seq<char>)
    requires
        lex_le(a, b),
        lex_le(b, a),
    ensures
        a == b,
{
    let i = choose|i: int| le_witness(a, b, i);
    let j = choose|j: int| le_witness(b, a, j);
    if i < j {
        assert(b[i] == a[i]);
    } else if j < i {
        assert(a[j] == b[j]);
    }
    assert(a =~= b);
}

/// The order is transitive.
pub proof fn lemma_lex_le_transitive(a: Seq<char>, b: Seq<char>, c: Seq<char>)
    requires
        lex_le(a, b),
        lex_le(b, c),
    ensures
        lex_le(a, c),
{
    let i = choose|i: int| le_witness(a, b, i);
    let j = choose|j: int| le_witness(b, c, j);
    if i <= j {
        assert(le_witness(a, c, i));
    } else {
        assert(le_witness(a, c, j));
    }
}

/// Any two strings are comparable.
pub proof fn lemma_lex_le_connected(a: Seq<char>, b: Seq<char>)
    ensures
        lex_le(a, b) || lex_le(b, a),
{
    lemma_first_difference(a, b, 0);
    let i = first_difference(a, b, 0);
    if i == a.len() {
        assert(le_witness(a, b, i));
    } else if i == b.len() {
        assert(le_witness(b, a, i));
    } else if char_lt(a[i], b[i]) {
        assert(le_witness(a, b, i));
    } else {
        lemma_char_lt_connected(a[i], b[i]);
        assert(le_witness(b, a, i));
    }
}

/// Whether `a` precedes or equals `b` in lexicographic order.
pub fn str_le(a: &str, b: &str) -> (r: bool)
    ensures
        r == lex_le(a@, b@),
{
    let mut ia = a.chars();
    let mut ib = b.chars();
    let ghost mut i: int = 0;
    loop
        invariant
            0 <= i <= a@.len(),
            i <= b@.len(),
            ia.remaining() == a@.skip(i),
            ib.remaining() == b@.skip(i),
            forall|k: int| 0 <= k < i ==> a@[k] == b@[k],
        decreases a@.len() - i,
    {
        match ia.next() {
            None => {
                assert(le_witness(a@, b@, i));
                return true;
            },
            Some(c) => {
                assert(c == a@[i]);
                match ib.next() {
                    None => {
                        assert forall|j: int| !le_witness(a@, b@, j) by {
                            if j < i && le_witness(a@, b@, j) {
                                assert(a@[j] == b@[j]);
                            }
                        }
                        return false;
                    },
                    Some(d) => {
                        assert(d == b@[i]);
                        if c != d {
                            let r = (c as u32) < (d as u32);
                            proof {
                                if r {
                                    assert(le_witness(a@, b@, i));
                                } else {
                                    assert forall|j: int| !le_witness(a@, b@, j) by {
                                        if j < i && le_witness(a@, b@, j) {
                                            assert(a@[j] == b@[j]);
                                        }
                                    }
                                }
                            }
                            return r;
                        }
                    },
                }
            },
        }
        proof {
            i = i + 1;
        }
    }
}

/// Whether `a` and `b` hold the same characters.
pub fn str_eq(a: &str, b: &str) -> (r: bool)
    ensures
        r == (a@ == b@),
{
    let mut ia = a.chars();
    let mut ib = b.chars();
    let ghost mut i: int = 0;
    loop
        invariant
            0 <= i <= a@.len(),
            i <= b@.len(),
            ia.remaining() == a@.skip(i),
            ib.remaining() == b@.skip(i),
            forall|k: int| 0 <= k < i ==> a@[k] == b@[k],
        decreases a@.len() - i,
    {
        match ia.next() {
            None => {
                let end = ib.next();
                proof {
                    if end is None {
                        assert(a@ =~= b@);
                    }
                }
                return end.is_none();
            },
            Some(c) => {
                assert(c == a@[i]);
                match ib.next() {
                    None => {
                        return false;
                    },
                    Some(d) => {
                        assert(d == b@[i]);
                        if c != d {
                            return false;
                        }
                    },
                }
            },
        }
        proof {
            i = i + 1;
        }
    }
}

/// The text `a` followed by `b`.
pub fn append_str(a: &str, b: &str) -> (r: String)
    ensures
        r@ == a@ + b@,
{
    let mut r = String::from_str(a);
    r.append(b);
    r
}

/// The position of the first space of `s` at or after `from`, or the length
/// of `s` if there is none.
pub open spec fn first_space(s: Seq<char>, from: int) -> int
    decreases s.len() - from,
{
    if 0 <= from < s.len() && s[from] != ' ' {
        first_space(s, from + 1)
    } else {
        from
    }
}

/// The leading token of a field: its text up to the first space.
pub open spec fn leading_token_of(s: Seq<char>) -> Seq<char> {
    s.subrange(0, first_space(s, 0))
}

/// The first space from `from` lies within `s`, and no space comes before it.
pub proof fn lemma_first_space(s: Seq<char>, from: int)
    requires
        0 <= from <= s.len(),
    ensures
        from <= first_space(s, from) <= s.len(),
        forall|k: int| from <= k < first_space(s, from) ==> s[k] != ' ',
        first_space(s, from) < s.len() ==> s[first_space(s, from)] == ' ',
    decreases s.len() - from,
{
    if from < s.len() && s[from] != ' ' {
        lemma_first_space(s, from + 1);
    }
}

/// The leading token of `field`: its text up to the first space, the whole
/// field if it holds no space.
pub fn leading_token(field: &str) -> (token: &str)
    ensures
        token@ == leading_token_of(field@),
{
    let len = field.unicode_len();
    let mut it = field.chars();
    let mut n: usize = 0;
    loop
        invariant_except_break
            it.remaining() == field@.skip(n as int),
            first_space(field@, n as int) == first_space(field@, 0),
        invariant
            0 <= n <= len,
            len == field@.len(),
        ensures
            first_space(field@, 0) == n,
        decreases len - n,
    {
        match it.next() {
            None => {
                break ;
            },
            Some(c) => {
                assert(c == field@[n as int]);
                if c == ' ' {
                    break ;
                }
            },
        }
        n = n + 1;
    }
    field.substring_char(0, n)
}

/// `c` is white space.
pub open spec fn is_space(c: char) -> bool {
    let u = c as u32;
    ||| 0x09 <= u <= 0x0D
    ||| u == 0x20
    ||| u == 0x85
    ||| u == 0xA0
    ||| u == 0x1680
    ||| 0x2000 <= u <= 0x200A
    ||| u == 0x2028
    ||| u == 0x2029
    ||| u == 0x202F
    ||| u == 0x205F
    ||| u == 0x3000
}

/// The position of the first character of `s` at or after `from` that is
/// not white space, or the length of `s` if there is none.
pub open spec fn content_start(s: Seq<char>, from: int) -> int
    decreases s.len() - from,
{
    if 0 <= from < s.len() && is_space(s[from]) {
        content_start(s, from + 1)
    } else {
        from
    }
}

/// The position after the last character of `s` before `to` that is not
/// white space, or 0 if there is none.
pub open spec fn content_end(s: Seq<char>, to: int) -> int
    decreases to,
{
    if 0 < to <= s.len() && is_space(s[to - 1]) {
        content_end(s, to - 1)
    } else {
        to
    }
}

/// `s` without the white space at its start and at its end.
pub open spec fn trimmed(s: Seq<char>) -> Seq<char> {
    let start = content_start(s, 0);
    let end = content_end(s, s.len() as int);
    if start < end {
        s.subrange(start, end)
    } else {
        Seq::empty()
    }
}

proof fn lemma_content_start(s: Seq<char>, from: int, start: int)
    requires
        0 <= from <= start <= s.len(),
        forall|k: int| from <= k < start ==> is_space(s[k]),
        start == s.len() || !is_space(s[start]),
    ensures
        content_start(s, from) == start,
    decreases start - from,
{
    if from < start {
        lemma_content_start(s, from + 1, start);
    }
}

proof fn lemma_content_end(s: Seq<char>, end: int, to: int)
    requires
        0 <= end <= to <= s.len(),
        forall|k: int| end <= k < to ==> is_space(s[k]),
        end == 0 || !is_space(s[end - 1]),
    ensures
        content_end(s, to) == end,
    decreases to - end,
{
    if end < to {
        lemma_content_end(s, end, to - 1);
    }
}

/// Whether `c` is white space.
pub fn char_is_space(c: char) -> (r: bool)
    ensures
        r == is_space(c),
{
    let u = c as u32;
    (0x09 <= u && u <= 0x0D) || u == 0x20 || u == 0x85 || u == 0xA0 || u == 0x1680 || (0x2000 <= u
        && u <= 0x200A) || u == 0x2028 || u == 0x2029 || u == 0x202F || u == 0x205F || u == 0x3000
}

/// `s` without the white space at its start and at its end.
pub fn trim(s: &str) -> (r: &str)
    ensures
        r@ == trimmed(s@),
{
    let len = s.unicode_len();
    let mut it = s.chars();
    let mut i: usize = 0;
    let mut found = false;
    let mut start: usize = 0;
    let mut end: usize = 0;
    loop
        invariant_except_break
            it.remaining() == s@.skip(i as int),
        invariant
            0 <= i <= len,
            len == s@.len(),
            !found ==> start == 0 && end == 0 && forall|k: int| 0 <= k < i ==> is_space(s@[k]),
            found ==> start < end <= i && !is_space(s@[start as int]) && !is_space(s@[end - 1])
                && (forall|k: int| 0 <= k < start ==> is_space(s@[k])) && (forall|k: int|
                end <= k < i ==> is_space(s@[k])),
        ensures
            i == len,
        decreases len - i,
    {
        match it.next() {
            None => {
                break ;
            },
            Some(c) => {
                assert(c == s@[i as int]);
                if !char_is_space(c) {
                    if !found {
                        found = true;
                        start = i;
                    }
                    end = i + 1;
                }
            },
        }
        i = i + 1;
    }
    proof {
        if found {
            lemma_content_start(s@, 0, start as int);
            lemma_content_end(s@, end as int, len as int);
        } else {
            lemma_content_end(s@, 0, len as int);
            assert(content_start(s@, 0) >= 0) by {
                lemma_content_start(s@, 0, len as int);
            }
            assert(s@.subrange(0, 0) =~= Seq::<char>::empty());
        }
    }
    s.substring_char(start, end)
}

/// The parts of `parts` in order, with `sep` between neighbours.
pub open spec fn joined(parts: Seq<Seq<char>>, sep: Seq<char>) -> Seq<char>
    decreases parts.len(),
{
    if parts.len() == 0 {
        Seq::empty()
    } else {
        let front = parts.drop_last();
        if front.len() == 0 {
            parts.last()
        } else {
            joined(front, sep) + sep + parts.last()
        }
    }
}

/// Joins `parts` with `sep` between neighbours.
pub fn join(parts: &Vec<String>, sep: &str) -> (r: String)
    ensures
        r@ == joined(parts.deep_view(), sep@),
{
    let mut r = String::new();
    let mut i: usize = 0;
    while i < parts.len()
        invariant
            i <= parts@.len(),
            r@ == joined(parts.deep_view().subrange(0, i as int), sep@),
        decreases parts@.len() - i,
    {
        proof {
            let upto = parts.deep_view().subrange(0, i + 1);
            assert(upto.drop_last() =~= parts.deep_view().subrange(0, i as int));
            assert(upto.last() == parts@[i as int]@);
        }
        if i > 0 {
            r.append(sep);
        }
        r.append(parts[i].as_str());
        i = i + 1;
    }
    assert(parts.deep_view().subrange(0, i as int) =~= parts.deep_view());
    r
}

/// A copy of `v`.
pub fn clone_strings(v: &Vec<String>) -> (r: Vec<String>)
    ensures
        r@ == v@,
        r.deep_view() == v.deep_view(),
{
    let mut r: Vec<String> = Vec::new();
    let mut i: usize = 0;
    while i < v.len()
        invariant
            i <= v@.len(),
            r@ == v@.subrange(0, i as int),
        decreases v@.len() - i,
    {
        r.push(v[i].clone());
        assert(r@ =~= v@.subrange(0, i + 1));
        i = i + 1;
    }
    assert(r@ =~= v@);
    assert(r.deep_view() =~= v.deep_view());
    r
}

} // verus!

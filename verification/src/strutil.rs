//! Small verified helpers over strings and character sequences: lexicographic
//! order, decimal formatting and parsing, and searches used by the parsers.
use vstd::prelude::*;
use vstd::string::*;

verus! {

/// True when `c` is one of the ten ASCII digits.
pub open spec fn is_digit_char(c: char) -> bool {
    '0' <= c && c <= '9'
}

/// Numeric value of an ASCII digit.
pub open spec fn digit_val(c: char) -> int {
    c as int - '0' as int
}

/// The digit character for `d` (0 through 9).
pub open spec fn digit_char(d: int) -> char {
    if d == 0 {
        '0'
    } else if d == 1 {
        '1'
    } else if d == 2 {
        '2'
    } else if d == 3 {
        '3'
    } else if d == 4 {
        '4'
    } else if d == 5 {
        '5'
    } else if d == 6 {
        '6'
    } else if d == 7 {
        '7'
    } else if d == 8 {
        '8'
    } else {
        '9'
    }
}

/// Every character of `s` is an ASCII digit.
pub open spec fn all_digits(s: Seq<char>) -> bool {
    forall|i: int| 0 <= i < s.len() ==> is_digit_char(s[i])
}

/// Value of a digit string read in base ten, most significant digit first.
pub open spec fn dec_value(s: Seq<char>) -> int
    decreases s.len(),
{
    if s.len() == 0 {
        0
    } else {
        dec_value(s.drop_last()) * 10 + digit_val(s.last())
    }
}

/// Canonical base-ten representation of `n`, without leading zeros.
pub open spec fn dec_repr(n: nat) -> Seq<char>
    decreases n,
{
    if n < 10 {
        seq![digit_char(n as int)]
    } else {
        dec_repr(n / 10) + seq![digit_char((n % 10) as int)]
    }
}

/// Strict lexicographic order on character sequences.
pub open spec fn lex_lt(a: Seq<char>, b: Seq<char>) -> bool
    decreases a.len(),
{
    if b.len() == 0 {
        false
    } else if a.len() == 0 {
        true
    } else if a[0] != b[0] {
        (a[0] as int) < (b[0] as int)
    } else {
        lex_lt(a.skip(1), b.skip(1))
    }
}

/// An ASCII whitespace character: space, tab, line feed, vertical tab, form
/// feed or carriage return.
pub open spec fn is_whitespace_char(c: char) -> bool {
    c == ' ' || c == '\t' || c == '\n' || c == '\r' || c == '\u{b}' || c == '\u{c}'
}

/// Whether `s` holds any whitespace character.
pub fn str_contains_whitespace(s: &str) -> (r: bool)
    ensures
        r == exists|i: int| 0 <= i < s@.len() && is_whitespace_char(#[trigger] s@[i]),
{
    let len = s.unicode_len();
    let mut i: usize = 0;
    while i < len
        invariant
            i <= len,
            len == s@.len(),
            forall|j: int| 0 <= j < i ==> !is_whitespace_char(#[trigger] s@[j]),
        decreases len - i,
    {
        let c = s.get_char(i);
        if c == ' ' || c == '\t' || c == '\n' || c == '\r' || c == '\u{b}' || c == '\u{c}' {
            return true;
        }
        i = i + 1;
    }
    false
}

/// `needle` occurs in `hay`.
pub open spec fn contains_char(hay: Seq<char>, needle: char) -> bool {
    exists|i: int| 0 <= i < hay.len() && hay[i] == needle
}

/// `sub` occurs in `hay` starting at position `at`.
pub open spec fn occurs_at(hay: Seq<char>, sub: Seq<char>, at: int) -> bool {
    &&& 0 <= at
    &&& at + sub.len() <= hay.len()
    &&& hay.subrange(at, at + sub.len()) == sub
}

/// `sub` occurs somewhere in `hay`.
pub open spec fn is_substring(hay: Seq<char>, sub: Seq<char>) -> bool {
    exists|at: int| occurs_at(hay, sub, at)
}

/// Position of the first occurrence of `c` in `s`, if any.
pub open spec fn find_sep(s: Seq<char>, c: char) -> Option<int>
    decreases s.len(),
{
    if s.len() == 0 {
        None
    } else if s[0] == c {
        Some(0int)
    } else {
        match find_sep(s.skip(1), c) {
            None => None,
            Some(i) => Some(i + 1),
        }
    }
}

/// `find_sep` returns the least position holding `c`, and `None` exactly when
/// `c` does not occur.
pub proof fn lemma_find_sep(s: Seq<char>, c: char)
    ensures
        find_sep(s, c) is None <==> !contains_char(s, c),
        find_sep(s, c) matches Some(i) ==> 0 <= i < s.len() && s[i] == c && (forall|j: int|
            0 <= j < i ==> s[j] != c),
    decreases s.len(),
{
    if s.len() > 0 && s[0] != c {
        lemma_find_sep(s.skip(1), c);
        assert(forall|j: int| 1 <= j < s.len() ==> s[j] == s.skip(1)[j - 1]);
        if find_sep(s, c) is None {
            assert(!contains_char(s, c)) by {
                assert(forall|j: int| 0 < j < s.len() ==> s[j] == s.skip(1)[j - 1]);
            }
        }
    }
}

/// The pieces of `s` between occurrences of the separator `sep`, in order.
/// A string without the separator is a single piece; each separator ends a
/// piece, so the result always holds at least one piece.
pub open spec fn spec_split(s: Seq<char>, sep: char) -> Seq<Seq<char>>
    decreases s.len(),
    via spec_split_decreases
{
    match find_sep(s, sep) {
        None => seq![s],
        Some(i) => seq![s.take(i)] + spec_split(s.skip(i + 1), sep),
    }
}

#[via_fn]
proof fn spec_split_decreases(s: Seq<char>, sep: char) {
    lemma_find_sep(s, sep);
}

/// Position of the first occurrence of `c`, if any.
pub fn find_char(s: &str, c: char) -> (r: Option<usize>)
    ensures
        r matches Some(i) ==> find_sep(s@, c) == Some(i as int),
        r is None ==> find_sep(s@, c) is None,
{
    let len = s.unicode_len();
    let mut i: usize = 0;
    proof {
        lemma_find_sep(s@, c);
    }
    while i < len
        invariant
            i <= len,
            len == s@.len(),
            forall|j: int| 0 <= j < i ==> s@[j] != c,
            find_sep(s@, c) is None <==> !contains_char(s@, c),
            find_sep(s@, c) matches Some(k) ==> 0 <= k < s@.len() && s@[k] == c && (forall|j: int|
                0 <= j < k ==> s@[j] != c),
        decreases len - i,
    {
        if s.get_char(i) == c {
            proof {
                if find_sep(s@, c) is None {
                    assert(contains_char(s@, c));
                    assert(false);
                }
                let k = find_sep(s@, c)->0;
                if k < i {
                    assert(s@[k] != c);
                }
                if k > i {
                    assert(s@[i as int] != c);
                }
            }
            return Some(i);
        }
        i = i + 1;
    }
    proof {
        if find_sep(s@, c) is Some {
            let k = find_sep(s@, c)->0;
            assert(s@[k] != c);
        }
    }
    None
}

/// Split `s` at every occurrence of `sep`; mirrors `spec_split`.
pub fn split_str(s: &str, sep: char) -> (r: Vec<String>)
    ensures
        r.deep_view() == spec_split(s@, sep),
        r.len() >= 1,
    decreases s@.len(),
{
    let len = s.unicode_len();
    match find_char(s, sep) {
        None => {
            let mut out: Vec<String> = Vec::new();
            out.push(String::from_str(s));
            proof {
                assert(out.deep_view() =~= spec_split(s@, sep));
            }
            out
        },
        Some(i) => {
            proof {
                lemma_find_sep(s@, sep);
            }
            let piece = s.substring_char(0, i);
            let rest = s.substring_char(i + 1, len);
            let mut out = split_str(rest, sep);
            out.insert(0, String::from_str(piece));
            proof {
                assert(piece@ =~= s@.take(i as int));
                assert(out.deep_view() =~= spec_split(s@, sep));
            }
            out
        },
    }
}

/// The one-character string for an ASCII digit.
pub fn digit_to_str(d: u64) -> (r: &'static str)
    requires
        d < 10,
    ensures
        r@ =~= seq![digit_char(d as int)],
{
    proof {
        reveal_strlit("0");
        reveal_strlit("1");
        reveal_strlit("2");
        reveal_strlit("3");
        reveal_strlit("4");
        reveal_strlit("5");
        reveal_strlit("6");
        reveal_strlit("7");
        reveal_strlit("8");
        reveal_strlit("9");
    }
    match d {
        0 => "0",
        1 => "1",
        2 => "2",
        3 => "3",
        4 => "4",
        5 => "5",
        6 => "6",
        7 => "7",
        8 => "8",
        _ => "9",
    }
}

/// Base-ten rendering of an unsigned number.
pub fn u64_to_string(n: u64) -> (r: String)
    ensures
        r@ == dec_repr(n as nat),
    decreases n,
{
    if n < 10 {
        String::from_str(digit_to_str(n))
    } else {
        let high = u64_to_string(n / 10);
        high.concat(digit_to_str(n % 10))
    }
}

/// Base-ten rendering of a signed number, with a leading minus sign when negative.
pub fn i64_to_string(n: i64) -> (r: String)
    ensures
        n >= 0 ==> r@ == dec_repr(n as nat),
        n < 0 ==> r@ == seq!['-'] + dec_repr((-(n as int)) as nat),
{
    if n >= 0 {
        u64_to_string(n as u64)
    } else {
        // `-(n + 1)` avoids overflow at the minimum value.
        let mag: u64 = (-(n + 1)) as u64;
        let digits = u64_to_string(mag + 1);
        proof {
            reveal_strlit("-");
        }
        let mut out = String::from_str("-");
        out.append(digits.as_str());
        out
    }
}

/// All characters of `s` are ASCII digits.
pub fn check_all_digits(s: &str) -> (r: bool)
    ensures
        r == all_digits(s@),
{
    let len = s.unicode_len();
    let mut i: usize = 0;
    while i < len
        invariant
            i <= len,
            len == s@.len(),
            forall|j: int| 0 <= j < i ==> is_digit_char(s@[j]),
        decreases len - i,
    {
        let c = s.get_char(i);
        if c < '0' || c > '9' {
            return false;
        }
        i = i + 1;
    }
    true
}

/// Parse a nonempty digit string into a `u32`; `None` when a character is not
/// a digit or the value does not fit.
pub fn parse_u32_digits(s: &str) -> (r: Option<u32>)
    ensures
        r is Some <==> s@.len() > 0 && all_digits(s@) && dec_value(s@) <= u32::MAX,
        r is Some ==> r->0 == dec_value(s@),
{
    let len = s.unicode_len();
    if len == 0 {
        return None;
    }
    if !check_all_digits(s) {
        return None;
    }
    let mut i: usize = 0;
    let mut acc: u32 = 0;
    while i < len
        invariant
            i <= len,
            len == s@.len(),
            s@.len() > 0,
            all_digits(s@),
            acc == dec_value(s@.subrange(0, i as int)),
            dec_value(s@.subrange(0, i as int)) <= u32::MAX,
        decreases len - i,
    {
        let c = s.get_char(i);
        let d: u32 = (c as u32) - ('0' as u32);
        let shifted = match acc.checked_mul(10) {
            Some(v) => v,
            None => {
                proof {
                    lemma_dec_value_grows(s@, i as int);
                }
                return None;
            },
        };
        let next = match shifted.checked_add(d) {
            Some(v) => v,
            None => {
                proof {
                    lemma_dec_value_grows(s@, i as int);
                }
                return None;
            },
        };
        proof {
            assert(s@.subrange(0, i + 1 as int).drop_last() =~= s@.subrange(0, i as int));
            assert(s@.subrange(0, i + 1 as int).last() == s@[i as int]);
        }
        acc = next;
        i = i + 1;
    }
    proof {
        assert(s@.subrange(0, len as int) =~= s@);
    }
    Some(acc)
}

/// When a prefix of a digit string already exceeds the value bound, the whole
/// string does too.
proof fn lemma_dec_value_grows(s: Seq<char>, i: int)
    requires
        0 <= i < s.len(),
        all_digits(s),
        dec_value(s.subrange(0, i)) * 10 + digit_val(s[i]) > u32::MAX,
    ensures
        dec_value(s) > u32::MAX,
    decreases s.len() - i,
{
    assert(s.subrange(0, i + 1).drop_last() =~= s.subrange(0, i));
    assert(s.subrange(0, i + 1).last() == s[i]);
    if i + 1 == s.len() {
        assert(s.subrange(0, i + 1) =~= s);
    } else {
        lemma_dec_value_monotone(s, i + 1);
    }
}

/// Appending digits never decreases the value of a digit string.
proof fn lemma_dec_value_monotone(s: Seq<char>, i: int)
    requires
        0 <= i <= s.len(),
        all_digits(s),
    ensures
        dec_value(s) >= dec_value(s.subrange(0, i)),
        dec_value(s.subrange(0, i)) >= 0,
    decreases s.len() - i,
{
    lemma_dec_value_nonneg(s.subrange(0, i));
    if i == s.len() {
        assert(s.subrange(0, i) =~= s);
    } else {
        assert(s.subrange(0, i + 1).drop_last() =~= s.subrange(0, i));
        assert(s.subrange(0, i + 1).last() == s[i]);
        lemma_dec_value_monotone(s, i + 1);
    }
}

/// The value of a digit string is never negative.
proof fn lemma_dec_value_nonneg(s: Seq<char>)
    requires
        all_digits(s),
    ensures
        dec_value(s) >= 0,
    decreases s.len(),
{
    if s.len() > 0 {
        assert(all_digits(s.drop_last())) by {
            assert(forall|j: int| 0 <= j < s.len() - 1 ==> s.drop_last()[j] == s[j]);
        }
        lemma_dec_value_nonneg(s.drop_last());
    }
}

/// Character-by-character equality of two string slices.
pub fn str_eq(a: &str, b: &str) -> (r: bool)
    ensures
        r == (a@ == b@),
{
    let alen = a.unicode_len();
    let blen = b.unicode_len();
    if alen != blen {
        return false;
    }
    let mut i: usize = 0;
    while i < alen
        invariant
            i <= alen,
            alen == a@.len(),
            alen == b@.len(),
            forall|j: int| 0 <= j < i ==> a@[j] == b@[j],
        decreases alen - i,
    {
        if a.get_char(i) != b.get_char(i) {
            return false;
        }
        i = i + 1;
    }
    proof {
        assert(a@ =~= b@);
    }
    true
}

/// Strict lexicographic comparison of two string slices.
pub fn str_lex_lt(a: &str, b: &str) -> (r: bool)
    ensures
        r == lex_lt(a@, b@),
{
    let alen = a.unicode_len();
    let blen = b.unicode_len();
    let mut i: usize = 0;
    proof {
        assert(a@.skip(0) =~= a@);
        assert(b@.skip(0) =~= b@);
    }
    loop
        invariant
            i <= alen,
            i <= blen,
            alen == a@.len(),
            blen == b@.len(),
            forall|j: int| 0 <= j < i ==> a@[j] == b@[j],
            lex_lt(a@, b@) == lex_lt(a@.skip(i as int), b@.skip(i as int)),
        decreases alen - i,
    {
        proof {
            lemma_lex_skip(a@, b@, i as int);
        }
        if i >= blen {
            return false;
        }
        if i >= alen {
            return true;
        }
        let ca = a.get_char(i);
        let cb = b.get_char(i);
        if ca != cb {
            return ca < cb;
        }
        i = i + 1;
        proof {
            lemma_lex_skip_step(a@, b@, i as int - 1);
        }
    }
}

/// Unfolds one step of `lex_lt` on the suffixes starting at `i`.
proof fn lemma_lex_skip(a: Seq<char>, b: Seq<char>, i: int)
    requires
        0 <= i <= a.len(),
        0 <= i <= b.len(),
    ensures
        b.len() == i ==> !lex_lt(a.skip(i), b.skip(i)),
        b.len() > i && a.len() == i ==> lex_lt(a.skip(i), b.skip(i)),
        b.len() > i && a.len() > i && a[i] != b[i] ==> lex_lt(a.skip(i), b.skip(i)) == ((a[i] as int)
            < (b[i] as int)),
{
    if b.len() > i && a.len() > i {
        assert(a.skip(i)[0] == a[i]);
        assert(b.skip(i)[0] == b[i]);
    }
}

/// Skipping one more position preserves `lex_lt` when the heads agree.
proof fn lemma_lex_skip_step(a: Seq<char>, b: Seq<char>, i: int)
    requires
        0 <= i < a.len(),
        0 <= i < b.len(),
        a[i] == b[i],
    ensures
        lex_lt(a.skip(i), b.skip(i)) == lex_lt(a.skip(i + 1), b.skip(i + 1)),
{
    assert(a.skip(i)[0] == a[i]);
    assert(b.skip(i)[0] == b[i]);
    assert(a.skip(i).skip(1) =~= a.skip(i + 1));
    assert(b.skip(i).skip(1) =~= b.skip(i + 1));
}

/// Whether `needle` occurs in `hay`.
pub fn str_contains_char(hay: &str, needle: char) -> (r: bool)
    ensures
        r == contains_char(hay@, needle),
{
    let len = hay.unicode_len();
    let mut i: usize = 0;
    while i < len
        invariant
            i <= len,
            len == hay@.len(),
            forall|j: int| 0 <= j < i ==> hay@[j] != needle,
        decreases len - i,
    {
        if hay.get_char(i) == needle {
            return true;
        }
        i = i + 1;
    }
    false
}

/// Whether `sub` occurs in `hay` starting at `at`.
pub fn str_occurs_at(hay: &str, sub: &str, at: usize) -> (r: bool)
    requires
        at + sub@.len() <= hay@.len(),
    ensures
        r == occurs_at(hay@, sub@, at as int),
{
    let haylen = hay.unicode_len();
    let sublen = sub.unicode_len();
    let mut i: usize = 0;
    while i < sublen
        invariant
            i <= sublen,
            sublen == sub@.len(),
            haylen == hay@.len(),
            at + sublen <= haylen,
            forall|j: int| 0 <= j < i ==> hay@[at + j] == sub@[j],
        decreases sublen - i,
    {
        if hay.get_char(at + i) != sub.get_char(i) {
            assert(hay@.subrange(at as int, at + sub@.len()) != sub@) by {
                assert(hay@.subrange(at as int, at + sub@.len())[i as int] == hay@[at + i]);
            }
            return false;
        }
        i = i + 1;
    }
    proof {
        assert(hay@.subrange(at as int, at + sub@.len()) =~= sub@);
    }
    true
}

/// Whether `sub` occurs anywhere in `hay`.
pub fn str_contains(hay: &str, sub: &str) -> (r: bool)
    ensures
        r == is_substring(hay@, sub@),
{
    let haylen = hay.unicode_len();
    let sublen = sub.unicode_len();
    if sublen > haylen {
        return false;
    }
    if sublen == 0 {
        proof {
            assert(hay@.subrange(0, 0) =~= sub@);
            assert(occurs_at(hay@, sub@, 0));
        }
        return true;
    }
    let mut at: usize = 0;
    while at <= haylen - sublen
        invariant
            haylen == hay@.len(),
            sublen == sub@.len(),
            0 < sublen <= haylen,
            at <= haylen - sublen + 1,
            forall|k: int| 0 <= k < at ==> !occurs_at(hay@, sub@, k),
        decreases haylen + 1 - sublen - at,
    {
        if str_occurs_at(hay, sub, at) {
            return true;
        }
        at = at + 1;
    }
    false
}

/// Whether `s` starts with `prefix`.
pub fn str_starts_with(s: &str, prefix: &str) -> (r: bool)
    ensures
        r == (s@.len() >= prefix@.len() && s@.subrange(0, prefix@.len() as int) == prefix@),
{
    let slen = s.unicode_len();
    let plen = prefix.unicode_len();
    if plen > slen {
        return false;
    }
    str_occurs_at(s, prefix, 0)
}

/// Distinct sequences are ordered one way or the other.
pub proof fn lemma_lex_total(a: Seq<char>, b: Seq<char>)
    ensures
        a == b || lex_lt(a, b) || lex_lt(b, a),
    decreases a.len(),
{
    if a.len() > 0 && b.len() > 0 && a[0] == b[0] {
        lemma_lex_total(a.skip(1), b.skip(1));
        if a.skip(1) == b.skip(1) {
            assert(a.skip(1).len() == a.len() - 1);
            assert(b.skip(1).len() == b.len() - 1);
            assert(a.len() == b.len());
            assert forall|i: int| 0 <= i < a.len() implies a[i] == b[i] by {
                if i >= 1 {
                    assert(a[i] == a.skip(1)[i - 1]);
                    assert(b[i] == b.skip(1)[i - 1]);
                }
            }
            assert(a =~= b);
        }
    }
}

/// Lexicographic order is transitive.
pub proof fn lemma_lex_trans(a: Seq<char>, b: Seq<char>, c: Seq<char>)
    requires
        lex_lt(a, b),
        lex_lt(b, c),
    ensures
        lex_lt(a, c),
    decreases a.len() + b.len() + c.len(),
{
    if b.len() > 0 && c.len() > 0 && a.len() > 0 {
        if a[0] == b[0] && b[0] == c[0] {
            lemma_lex_trans(a.skip(1), b.skip(1), c.skip(1));
        }
    }
}

/// Order is irreflexive and asymmetric.
pub proof fn lemma_lex_asymmetric(a: Seq<char>, b: Seq<char>)
    requires
        lex_lt(a, b),
    ensures
        !lex_lt(b, a),
        a != b,
    decreases a.len(),
{
    if a.len() > 0 && b.len() > 0 && a[0] == b[0] {
        lemma_lex_asymmetric(a.skip(1), b.skip(1));
        if a == b {
            assert(a.skip(1) =~= b.skip(1));
        }
    } else if a == b {
        assert(a.len() == b.len());
    }
}

/// The pieces joined with commas between them.
pub open spec fn join_commas(parts: Seq<Seq<char>>) -> Seq<char>
    decreases parts.len(),
{
    if parts.len() == 0 {
        Seq::empty()
    } else if parts.len() == 1 {
        parts[0]
    } else {
        parts[0] + seq![','] + join_commas(parts.skip(1))
    }
}

/// Join pieces with commas; mirrors `join_commas`.
pub fn join_commas_exec(parts: &Vec<String>, from: usize) -> (r: String)
    requires
        from <= parts@.len(),
    ensures
        r@ == join_commas(parts.deep_view().skip(from as int)),
    decreases parts@.len() - from,
{
    proof {
        reveal_strlit(",");
    }
    if from >= parts.len() {
        proof {
            assert(parts.deep_view().skip(from as int) =~= Seq::<Seq<char>>::empty());
        }
        String::new()
    } else if from == parts.len() - 1 {
        proof {
            assert(parts.deep_view().skip(from as int).len() == 1);
            assert(parts.deep_view().skip(from as int)[0] == parts.deep_view()[from as int]);
        }
        parts[from].clone()
    } else {
        let rest = join_commas_exec(parts, from + 1);
        let mut out = parts[from].clone();
        out.append(",");
        out.append(rest.as_str());
        proof {
            let tailseq = parts.deep_view().skip(from as int);
            assert(tailseq.len() >= 2);
            assert(tailseq[0] == parts.deep_view()[from as int]);
            assert(tailseq.skip(1) =~= parts.deep_view().skip(from + 1));
            assert(out@ =~= tailseq[0] + seq![','] + join_commas(tailseq.skip(1)));
        }
        out
    }
}

/// Position of the last slash, if any.
pub open spec fn find_last_slash(s: Seq<char>) -> Option<int>
    decreases s.len(),
{
    if s.len() == 0 {
        None
    } else if s.last() == '/' {
        Some(s.len() - 1)
    } else {
        find_last_slash(s.drop_last())
    }
}

/// Find the last slash; mirrors `find_last_slash`.
pub fn find_last_slash_exec(s: &str) -> (r: Option<usize>)
    ensures
        match r {
            Some(i) => find_last_slash(s@) == Some(i as int) && i < s@.len(),
            None => find_last_slash(s@) is None,
        },
{
    let len = s.unicode_len();
    let mut i: usize = len;
    proof {
        assert(s@.take(len as int) =~= s@);
    }
    while i > 0
        invariant
            i <= len,
            len == s@.len(),
            find_last_slash(s@) == find_last_slash(s@.take(i as int)),
        decreases i,
    {
        proof {
            assert(s@.take(i as int).last() == s@[i - 1]);
            assert(s@.take(i as int).drop_last() =~= s@.take(i - 1));
        }
        if s.get_char(i - 1) == '/' {
            return Some(i - 1);
        }
        i = i - 1;
    }
    proof {
        assert(s@.take(0).len() == 0);
    }
    None
}

} // verus!

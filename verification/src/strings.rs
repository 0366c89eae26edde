//! String primitives shared by the tree, the resolver and the completion
//! engine: character-level equality, ordering, splitting, trimming and the
//! few outside calls (case folding, whitespace classification) the rest of
//! the crate relies on.
use vstd::prelude::*;
use vstd::string::StrSliceExecFns;
use vstd::string::StringExecFns;

verus! {

/// The case folding performed by `str::to_lowercase`, named abstractly: the
/// result is a pure function of the characters of the input.
pub uninterp spec fn lower_of(s: Seq<char>) -> Seq<char>;

/// Whether `char::is_whitespace` holds of the character, named abstractly:
/// a pure function of the character.
pub uninterp spec fn is_ws_char(c: char) -> bool;

/// `n` is a case-folded string: the image of some string under the fold.
pub open spec fn is_folded(n: Seq<char>) -> bool {
    exists|s: Seq<char>| n == lower_of(s)
}

/// Relies on `str::to_lowercase`: the returned string is the Unicode
/// lowercase form of the input, a function of the input characters alone.
#[verifier::external_body]
pub fn to_lowercase(s: &str) -> (r: String)
    ensures
        r@ == lower_of(s@),
{
    s.to_lowercase()
}

/// Relies on `char::is_whitespace`: whether the character has the Unicode
/// whitespace property, a function of the character alone.
#[verifier::external_body]
pub fn char_is_whitespace(c: char) -> (r: bool)
    ensures
        r == is_ws_char(c),
{
    c.is_whitespace()
}

/// Relies on `String`'s `FromIterator<char>`: collecting characters yields
/// the string of exactly those characters in order.
#[verifier::external_body]
pub fn chars_to_string(v: &Vec<char>) -> (s: String)
    ensures
        s@ == v@,
{
    v.iter().collect()
}

/// The characters of a string slice, in order.
pub fn str_chars(s: &str) -> (v: Vec<char>)
    ensures
        v@ == s@,
{
    let n = s.unicode_len();
    let mut v: Vec<char> = Vec::new();
    let mut i: usize = 0;
    while i < n
        invariant
            i <= n,
            n == s@.len(),
            v@ == s@.take(i as int),
        decreases n - i,
    {
        v.push(s.get_char(i));
        assert(v@ =~= s@.take(i + 1));
        i = i + 1;
    }
    assert(v@ =~= s@);
    v
}

/// Strict lexicographic order on character sequences, by code point.
pub open spec fn lex_lt(a: Seq<char>, b: Seq<char>) -> bool
    decreases a.len(),
{
    if b.len() == 0 {
        false
    } else if a.len() == 0 {
        true
    } else if a[0] != b[0] {
        (a[0] as u32) < (b[0] as u32)
    } else {
        lex_lt(a.drop_first(), b.drop_first())
    }
}

/// Sequences that agree on their first element and on the rest are equal.
proof fn lemma_cons_eq(a: Seq<char>, b: Seq<char>)
    requires
        a.len() != 0,
        b.len() != 0,
        a[0] == b[0],
        a.drop_first() == b.drop_first(),
    ensures
        a == b,
{
    assert(a.drop_first().len() == a.len() - 1);
    assert(b.drop_first().len() == b.len() - 1);
    assert(a.len() == b.len());
    assert forall|k: int| 0 <= k < a.len() implies a[k] == b[k] by {
        if k >= 1 {
            assert(a[k] == a.drop_first()[k - 1]);
            assert(b[k] == b.drop_first()[k - 1]);
        }
    }
    assert(a =~= b);
}

/// Exactly one of `lex_lt(a, b)`, `a == b`, `lex_lt(b, a)` holds.
pub proof fn lemma_lex_trichotomy(a: Seq<char>, b: Seq<char>)
    ensures
        lex_lt(a, b) || lex_lt(b, a) || a == b,
        lex_lt(a, b) ==> !lex_lt(b, a) && a != b,
        lex_lt(b, a) ==> !lex_lt(a, b) && a != b,
    decreases a.len(),
{
    if a.len() != 0 && b.len() != 0 && a[0] == b[0] {
        lemma_lex_trichotomy(a.drop_first(), b.drop_first());
        if a.drop_first() == b.drop_first() {
            lemma_cons_eq(a, b);
        }
        if a == b {
            assert(a.drop_first() == b.drop_first());
        }
    } else if a.len() != 0 && b.len() != 0 {
        vstd::utf8::char_u32_cast(a[0], a[0] as u32);
        vstd::utf8::char_u32_cast(b[0], b[0] as u32);
    } else if a.len() == 0 && b.len() == 0 {
        assert(a =~= b);
    }
}

/// The lexicographic order is transitive.
pub proof fn lemma_lex_transitive(a: Seq<char>, b: Seq<char>, c: Seq<char>)
    requires
        lex_lt(a, b),
        lex_lt(b, c),
    ensures
        lex_lt(a, c),
    decreases a.len(),
{
    if a.len() != 0 && b.len() != 0 && c.len() != 0 && a[0] == b[0] && b[0] == c[0] {
        lemma_lex_transitive(a.drop_first(), b.drop_first(), c.drop_first());
    }
}

/// Three-way comparison of two string slices in the order of `lex_lt`:
/// negative for less, zero for equal, positive for greater.
pub fn str_cmp(a: &str, b: &str) -> (r: i8)
    ensures
        r == -1 ==> lex_lt(a@, b@),
        r == 0 ==> a@ == b@,
        r == 1 ==> lex_lt(b@, a@),
        r == -1 || r == 0 || r == 1,
{
    let na = a.unicode_len();
    let nb = b.unicode_len();
    let mut i: usize = 0;
    proof {
        assert(a@.skip(0) =~= a@);
        assert(b@.skip(0) =~= b@);
    }
    loop
        invariant
            i <= na,
            i <= nb,
            na == a@.len(),
            nb == b@.len(),
            lex_lt(a@, b@) == lex_lt(a@.skip(i as int), b@.skip(i as int)),
            lex_lt(b@, a@) == lex_lt(b@.skip(i as int), a@.skip(i as int)),
            (a@ == b@) == (a@.skip(i as int) == b@.skip(i as int)),
        decreases na - i,
    {
        if i >= na || i >= nb {
            proof {
                if na == nb {
                    assert(a@.skip(i as int) =~= b@.skip(i as int));
                }
            }
            if na == nb {
                return 0;
            } else if na < nb {
                assert(a@.skip(i as int).len() == 0 && b@.skip(i as int).len() > 0);
                return -1;
            } else {
                assert(b@.skip(i as int).len() == 0 && a@.skip(i as int).len() > 0);
                return 1;
            }
        }
        let ca = a.get_char(i);
        let cb = b.get_char(i);
        if (ca as u32) < (cb as u32) {
            assert(a@.skip(i as int)[0] == ca && b@.skip(i as int)[0] == cb);
            return -1;
        } else if (ca as u32) > (cb as u32) {
            assert(a@.skip(i as int)[0] == ca && b@.skip(i as int)[0] == cb);
            return 1;
        }
        proof {
            vstd::utf8::char_u32_cast(ca, ca as u32);
            vstd::utf8::char_u32_cast(cb, cb as u32);
            assert(ca == cb);
            let sa = a@.skip(i as int);
            let sb = b@.skip(i as int);
            assert(sa[0] == ca && sb[0] == cb);
            assert(sa.drop_first() =~= a@.skip(i + 1));
            assert(sb.drop_first() =~= b@.skip(i + 1));
            if sa == sb {
                assert(a@.skip(i + 1) == b@.skip(i + 1));
            }
            if a@.skip(i + 1) == b@.skip(i + 1) {
                lemma_cons_eq(sa, sb);
            }
        }
        i = i + 1;
    }
}

/// `p` is a prefix of `s`.
pub open spec fn is_prefix(p: Seq<char>, s: Seq<char>) -> bool {
    p.len() <= s.len() && s.take(p.len() as int) == p
}

/// Whether the characters of `p` begin the characters of `s`.
pub fn str_starts_with(s: &str, p: &str) -> (r: bool)
    ensures
        r == is_prefix(p@, s@),
{
    let np = p.unicode_len();
    let ns = s.unicode_len();
    if np > ns {
        return false;
    }
    let mut i: usize = 0;
    while i < np
        invariant
            i <= np,
            np <= ns,
            np == p@.len(),
            ns == s@.len(),
            forall|j: int| 0 <= j < i ==> s@[j] == p@[j],
        decreases np - i,
    {
        if s.get_char(i) != p.get_char(i) {
            assert(s@.take(np as int)[i as int] != p@[i as int]);
            return false;
        }
        i = i + 1;
    }
    assert(s@.take(np as int) =~= p@);
    true
}

/// The characters of `s` with every carriage return and line feed removed.
pub open spec fn strip_crlf(s: Seq<char>) -> Seq<char>
    decreases s.len(),
{
    if s.len() == 0 {
        Seq::empty()
    } else if s[0] == '\n' || s[0] == '\r' {
        strip_crlf(s.drop_first())
    } else {
        seq![s[0]] + strip_crlf(s.drop_first())
    }
}

/// `s` without its leading whitespace.
pub open spec fn trim_front(s: Seq<char>) -> Seq<char>
    decreases s.len(),
{
    if s.len() > 0 && is_ws_char(s[0]) {
        trim_front(s.drop_first())
    } else {
        s
    }
}

/// `s` without its trailing whitespace.
pub open spec fn trim_back(s: Seq<char>) -> Seq<char>
    decreases s.len(),
{
    if s.len() > 0 && is_ws_char(s.last()) {
        trim_back(s.drop_last())
    } else {
        s
    }
}

/// `s` without leading or trailing whitespace.
pub open spec fn trim_of(s: Seq<char>) -> Seq<char> {
    trim_back(trim_front(s))
}

/// The fields of `s` delimited by `sep`: always one more field than there
/// are separators, so the empty sequence has the single empty field.
pub open spec fn split_at_char(s: Seq<char>, sep: char) -> Seq<Seq<char>>
    decreases s.len(),
{
    if s.len() == 0 {
        seq![Seq::<char>::empty()]
    } else if s[0] == sep {
        seq![Seq::<char>::empty()] + split_at_char(s.drop_first(), sep)
    } else {
        prepend_first(seq![s[0]], split_at_char(s.drop_first(), sep))
    }
}

/// The sequence of fields `ss` with `p` prepended to its first field.
pub open spec fn prepend_first(p: Seq<char>, ss: Seq<Seq<char>>) -> Seq<Seq<char>> {
    seq![p + ss[0]] + ss.drop_first()
}

/// Splitting yields at least one field.
pub proof fn lemma_split_at_char_len(s: Seq<char>, sep: char)
    ensures
        split_at_char(s, sep).len() >= 1,
    decreases s.len(),
{
    if s.len() > 0 {
        lemma_split_at_char_len(s.drop_first(), sep);
    }
}

/// The words of an input line: carriage returns and line feeds removed,
/// the remainder trimmed of whitespace, and the result split on single
/// spaces.
pub open spec fn words_of(line: Seq<char>) -> Seq<Seq<char>> {
    split_at_char(trim_of(strip_crlf(line)), ' ')
}

/// The characters of `v` with every carriage return and line feed removed.
pub fn remove_crlf(v: &Vec<char>) -> (r: Vec<char>)
    ensures
        r@ == strip_crlf(v@),
{
    let n = v.len();
    let mut r: Vec<char> = Vec::new();
    let mut i: usize = 0;
    proof {
        assert(v@.skip(0) =~= v@);
    }
    while i < n
        invariant
            i <= n,
            n == v@.len(),
            strip_crlf(v@) == r@ + strip_crlf(v@.skip(i as int)),
        decreases n - i,
    {
        let c = v[i];
        proof {
            let s = v@.skip(i as int);
            assert(s[0] == v@[i as int]);
            assert(s.drop_first() =~= v@.skip(i + 1));
        }
        if c != '\n' && c != '\r' {
            r.push(c);
            proof {
                let s = v@.skip(i as int);
                assert(r@ + strip_crlf(v@.skip(i + 1)) =~= (r@.drop_last() + (seq![s[0]]
                    + strip_crlf(s.drop_first()))));
            }
        }
        i = i + 1;
    }
    proof {
        assert(v@.skip(n as int).len() == 0);
        assert(r@ + strip_crlf(v@.skip(n as int)) =~= r@);
    }
    r
}

/// The characters of `v` without leading or trailing whitespace.
pub fn trim_chars(v: &Vec<char>) -> (r: Vec<char>)
    ensures
        r@ == trim_of(v@),
{
    let n = v.len();
    let mut lo: usize = 0;
    proof {
        assert(v@.skip(0) =~= v@);
    }
    while lo < n && char_is_whitespace(v[lo])
        invariant
            lo <= n,
            n == v@.len(),
            trim_front(v@) == trim_front(v@.skip(lo as int)),
        decreases n - lo,
    {
        proof {
            let s = v@.skip(lo as int);
            assert(s[0] == v@[lo as int]);
            assert(s.drop_first() =~= v@.skip(lo + 1));
        }
        lo = lo + 1;
    }
    proof {
        let s = v@.skip(lo as int);
        if lo < n {
            assert(s[0] == v@[lo as int]);
            assert(!is_ws_char(s[0]));
        }
        assert(trim_front(v@) == s);
    }
    let mut hi: usize = n;
    proof {
        assert(v@.subrange(lo as int, hi as int) =~= v@.skip(lo as int));
    }
    while hi > lo && char_is_whitespace(v[hi - 1])
        invariant
            lo <= hi <= n,
            n == v@.len(),
            trim_front(v@) == v@.skip(lo as int),
            trim_back(v@.skip(lo as int)) == trim_back(v@.subrange(lo as int, hi as int)),
        decreases hi,
    {
        proof {
            let s = v@.subrange(lo as int, hi as int);
            assert(s.last() == v@[hi - 1]);
            assert(s.drop_last() =~= v@.subrange(lo as int, hi - 1));
        }
        hi = hi - 1;
    }
    proof {
        let s = v@.subrange(lo as int, hi as int);
        if hi > lo {
            assert(s.last() == v@[hi - 1]);
            assert(!is_ws_char(s.last()));
        }
        assert(trim_back(v@.skip(lo as int)) == s);
    }
    let mut r: Vec<char> = Vec::new();
    let mut i: usize = lo;
    while i < hi
        invariant
            lo <= i <= hi <= n,
            n == v@.len(),
            r@ == v@.subrange(lo as int, i as int),
        decreases hi - i,
    {
        r.push(v[i]);
        assert(r@ =~= v@.subrange(lo as int, i + 1));
        i = i + 1;
    }
    r
}

/// The fields of `v` delimited by `sep`.
pub fn split_chars(v: &Vec<char>, sep: char) -> (r: Vec<Vec<char>>)
    ensures
        r@.map_values(|w: Vec<char>| w@) == split_at_char(v@, sep),
{
    let n = v.len();
    let mut done: Vec<Vec<char>> = Vec::new();
    let mut cur: Vec<char> = Vec::new();
    let mut i: usize = 0;
    proof {
        assert(v@.skip(0) =~= v@);
        lemma_split_at_char_len(v@, sep);
        let ss = split_at_char(v@, sep);
        assert(prepend_first(Seq::empty(), ss) =~~= ss);
        assert(done@.map_values(|w: Vec<char>| w@) =~= Seq::<Seq<char>>::empty());
    }
    while i < n
        invariant
            i <= n,
            n == v@.len(),
            split_at_char(v@, sep) == done@.map_values(|w: Vec<char>| w@) + prepend_first(
                cur@,
                split_at_char(v@.skip(i as int), sep),
            ),
        decreases n - i,
    {
        let c = v[i];
        proof {
            let s = v@.skip(i as int);
            assert(s[0] == v@[i as int]);
            assert(s.drop_first() =~= v@.skip(i + 1));
            lemma_split_at_char_len(v@.skip(i + 1), sep);
        }
        if c == sep {
            let ghost old_done = done@;
            let ghost old_cur = cur@;
            done.push(cur);
            cur = Vec::new();
            proof {
                let rest = split_at_char(v@.skip(i + 1), sep);
                assert(split_at_char(v@.skip(i as int), sep) == seq![Seq::<char>::empty()]
                    + rest);
                assert(prepend_first(old_cur, seq![Seq::<char>::empty()] + rest) =~~= (seq![
                    old_cur,
                ] + rest));
                assert(done@.map_values(|w: Vec<char>| w@) =~= old_done.map_values(
                    |w: Vec<char>| w@,
                ) + seq![old_cur]);
                assert(prepend_first(Seq::empty(), rest) =~~= rest);
                assert(old_done.map_values(|w: Vec<char>| w@) + (seq![old_cur] + rest)
                    =~~= done@.map_values(|w: Vec<char>| w@) + rest);
            }
        } else {
            let ghost old_cur = cur@;
            cur.push(c);
            proof {
                let rest = split_at_char(v@.skip(i + 1), sep);
                assert(split_at_char(v@.skip(i as int), sep) == prepend_first(
                    seq![c],
                    rest,
                ));
                assert(prepend_first(old_cur, prepend_first(seq![c], rest)) =~~= prepend_first(
                    old_cur + seq![c],
                    rest,
                ));
                assert(cur@ =~= old_cur + seq![c]);
            }
        }
        i = i + 1;
    }
    proof {
        assert(v@.skip(n as int).len() == 0);
        assert(split_at_char(v@.skip(n as int), sep) == seq![Seq::<char>::empty()]);
        assert(prepend_first(cur@, seq![Seq::<char>::empty()]) =~~= seq![cur@]);
    }
    let ghost old_done = done@;
    done.push(cur);
    proof {
        assert(done@.map_values(|w: Vec<char>| w@) =~= old_done.map_values(|w: Vec<char>| w@)
            + seq![cur@]);
    }
    done
}

/// The words of an input line, as owned strings.
pub fn tokenize(line: &str) -> (words: Vec<String>)
    ensures
        words@.map_values(|w: String| w@) == words_of(line@),
{
    let cs = str_chars(line);
    let cs = remove_crlf(&cs);
    let cs = trim_chars(&cs);
    let parts = split_chars(&cs, ' ');
    let mut words: Vec<String> = Vec::new();
    let mut i: usize = 0;
    let n = parts.len();
    while i < n
        invariant
            i <= n,
            n == parts@.len(),
            words@.map_values(|w: String| w@) == parts@.take(i as int).map_values(
                |w: Vec<char>| w@,
            ),
        decreases n - i,
    {
        let ghost old_words = words@;
        words.push(chars_to_string(&parts[i]));
        proof {
            assert(words@.map_values(|w: String| w@) =~= old_words.map_values(|w: String| w@)
                + seq![parts@[i as int]@]);
            assert(parts@.take(i + 1).map_values(|w: Vec<char>| w@) =~= parts@.take(
                i as int,
            ).map_values(|w: Vec<char>| w@) + seq![parts@[i as int]@]);
        }
        i = i + 1;
    }
    proof {
        assert(parts@.take(n as int) =~= parts@);
    }
    words
}

/// Append the characters of `src` to `dst`.
pub fn push_chars(dst: &mut Vec<char>, src: &Vec<char>)
    ensures
        final(dst)@ == old(dst)@ + src@,
{
    let n = src.len();
    let mut i: usize = 0;
    proof {
        assert(dst@ =~= old(dst)@ + src@.take(0));
    }
    while i < n
        invariant
            i <= n,
            n == src@.len(),
            dst@ == old(dst)@ + src@.take(i as int),
        decreases n - i,
    {
        dst.push(src[i]);
        assert(dst@ =~= old(dst)@ + src@.take(i + 1));
        i = i + 1;
    }
    assert(old(dst)@ + src@.take(n as int) =~= old(dst)@ + src@);
}

/// Character-for-character equality of two string slices.
pub fn str_eq(a: &str, b: &str) -> (r: bool)
    ensures
        r == (a@ == b@),
{
    let na = a.unicode_len();
    let nb = b.unicode_len();
    if na != nb {
        return false;
    }
    let mut i: usize = 0;
    while i < na
        invariant
            i <= na,
            na == a@.len(),
            na == b@.len(),
            forall|j: int| 0 <= j < i ==> a@[j] == b@[j],
        decreases na - i,
    {
        if a.get_char(i) != b.get_char(i) {
            return false;
        }
        i = i + 1;
    }
    assert(a@ =~= b@);
    true
}

} // verus!

//! Character classes and the string operations the parsers are built on.

use vstd::prelude::*;

verus! {

/// Whether `c` is white space: one of the characters with the Unicode
/// property `White_Space`.
pub open spec fn whitespace(c: char) -> bool {
    ||| '\u{9}' <= c <= '\u{d}'
    ||| c == ' '
    ||| c == '\u{85}'
    ||| c == '\u{a0}'
    ||| c == '\u{1680}'
    ||| '\u{2000}' <= c <= '\u{200a}'
    ||| c == '\u{2028}'
    ||| c == '\u{2029}'
    ||| c == '\u{202f}'
    ||| c == '\u{205f}'
    ||| c == '\u{3000}'
}

/// Whether `c` is one of the 128 characters of ASCII.
pub open spec fn ascii(c: char) -> bool {
    c <= '\u{7f}'
}

/// Whether a character beyond ASCII is a Unicode letter or number.
pub uninterp spec fn unicode_alphanumeric(c: char) -> bool;

/// Whether `c` is a letter or a number: in ASCII the letters `a` to `z`
/// and `A` to `Z` and the digits, beyond ASCII what Unicode counts as
/// such.
pub open spec fn alphanumeric(c: char) -> bool {
    if ascii(c) {
        'a' <= c <= 'z' || 'A' <= c <= 'Z' || '0' <= c <= '9'
    } else {
        unicode_alphanumeric(c)
    }
}

/// The lower-case form of a character of ASCII.
pub open spec fn ascii_lower(c: char) -> char {
    if 'A' <= c <= 'Z' {
        ((c as u8) + 32) as char
    } else {
        c
    }
}

/// Whether `s` holds characters of ASCII only.
pub open spec fn all_ascii(s: Seq<char>) -> bool {
    forall|i: int| 0 <= i < s.len() ==> ascii(#[trigger] s[i])
}

/// The Unicode lower-case form of a string that holds a character beyond
/// ASCII.
pub uninterp spec fn unicode_lowercase(s: Seq<char>) -> Seq<char>;

/// The lower-case form of a string: in a string of ASCII every capital
/// letter gives way to its small letter; any other string has its Unicode
/// lower-case form.
pub open spec fn lowercase(s: Seq<char>) -> Seq<char> {
    if all_ascii(s) {
        Seq::new(s.len(), |i: int| ascii_lower(s[i]))
    } else {
        unicode_lowercase(s)
    }
}

/// `char::is_whitespace` of std: whether the character has the Unicode
/// property `White_Space`, which is the set that [`whitespace`] lists.
pub assume_specification[ char::is_whitespace ](c: char) -> (b: bool)
    ensures
        b == whitespace(c),
;

/// `char::is_alphanumeric` of std. Of a character of ASCII it says whether
/// it is a letter or a digit. Beyond ASCII its answer depends on the
/// character alone and is given the name [`unicode_alphanumeric`];
/// nothing more is claimed of it.
pub assume_specification[ char::is_alphanumeric ](c: char) -> (b: bool)
    ensures
        ascii(c) ==> b == ('a' <= c <= 'z' || 'A' <= c <= 'Z' || '0' <= c <= '9'),
        !ascii(c) ==> b == unicode_alphanumeric(c),
;

/// `str::to_lowercase` of std. In a string of ASCII it puts the small
/// letter for every capital letter and keeps the rest. The lower-case form
/// of any other string depends on its characters alone and is given the
/// name [`unicode_lowercase`]; nothing more is claimed of it.
pub assume_specification[ str::to_lowercase ](s: &str) -> (r: String)
    ensures
        all_ascii(s@) ==> r@ == Seq::new(s@.len(), |i: int| ascii_lower(s@[i])),
        !all_ascii(s@) ==> r@ == unicode_lowercase(s@),
;

/// `String::push` of std: the character is appended at the end and the
/// rest of the string is kept.
pub assume_specification[ String::push ](s: &mut String, ch: char)
    ensures
        final(s)@ == old(s)@.push(ch),
;

/// The characters of `s`, in order.
pub fn chars_of(s: &str) -> (v: Vec<char>)
    ensures
        v@ == s@,
{
    let mut v: Vec<char> = Vec::new();
    for c in it: s.chars()
        invariant
            v@ == it.seq().take(it.index() as int),
    {
        v.push(c);
    }
    v
}

/// The string made of `v[from..to]`.
pub fn string_of_range(v: &Vec<char>, from: usize, to: usize) -> (s: String)
    requires
        from <= to <= v.len(),
    ensures
        s@ == v@.subrange(from as int, to as int),
{
    let mut s = String::new();
    let mut i: usize = from;
    while i < to
        invariant
            from <= i <= to <= v.len(),
            s@ == v@.subrange(from as int, i as int),
        decreases to - i,
    {
        s.push(v[i]);
        i += 1;
    }
    s
}

/// The string made of the characters of `v`.
pub fn string_of(v: &Vec<char>) -> (s: String)
    ensures
        s@ == v@,
{
    let s = string_of_range(v, 0, v.len());
    s
}

/// Whether `s` reads exactly as the literal `lit`.
pub fn is_literal(s: &String, lit: &str) -> (b: bool)
    ensures
        b == (s@ == lit@),
{
    let t = lit.to_string();
    *s == t
}

/// The lower-case form of `s`.
pub fn lower(s: &String) -> (r: String)
    ensures
        r@ == lowercase(s@),
{
    s.as_str().to_lowercase()
}

/// A string is blank when it holds nothing but white space.
pub open spec fn blank(s: Seq<char>) -> bool {
    forall|i: int| 0 <= i < s.len() ==> whitespace(#[trigger] s[i])
}

/// Whether `v` holds nothing but white space.
pub fn is_blank(v: &Vec<char>) -> (b: bool)
    ensures
        b == blank(v@),
{
    let mut i: usize = 0;
    while i < v.len()
        invariant
            i <= v.len(),
            forall|j: int| 0 <= j < i ==> whitespace(#[trigger] v@[j]),
        decreases v.len() - i,
    {
        if !v[i].is_whitespace() {
            return false;
        }
        i += 1;
    }
    true
}

/// The state of a scan that splits on white space: the words that are
/// complete, and the word that is being read.
pub struct SplitState {
    pub done: Seq<Seq<char>>,
    pub current: Seq<char>,
}

/// The words that are complete once the word being read is closed.
pub open spec fn close_word(st: SplitState) -> Seq<Seq<char>> {
    if st.current.len() > 0 {
        st.done.push(st.current)
    } else {
        st.done
    }
}

/// The scan of `s` from left to right: white space closes the word being
/// read, any other character extends it.
pub open spec fn split_scan(s: Seq<char>) -> SplitState
    decreases s.len(),
{
    if s.len() == 0 {
        SplitState { done: Seq::empty(), current: Seq::empty() }
    } else {
        let st = split_scan(s.drop_last());
        if whitespace(s.last()) {
            SplitState { done: close_word(st), current: Seq::empty() }
        } else {
            SplitState { done: st.done, current: st.current.push(s.last()) }
        }
    }
}

/// The maximal runs of characters of `s` that hold no white space, in
/// order.
pub open spec fn words(s: Seq<char>) -> Seq<Seq<char>> {
    close_word(split_scan(s))
}

/// Splits `v` on white space.
pub fn split_whitespace(v: &Vec<char>) -> (out: Vec<String>)
    ensures
        out.deep_view() == words(v@),
{
    let mut out: Vec<String> = Vec::new();
    let mut current = String::new();
    let mut pending: bool = false;
    let mut i: usize = 0;
    while i < v.len()
        invariant
            i <= v.len(),
            out.deep_view() == split_scan(v@.take(i as int)).done,
            current@ == split_scan(v@.take(i as int)).current,
            pending == (current@.len() > 0),
        decreases v.len() - i,
    {
        let c = v[i];
        proof {
            assert(v@.take(i + 1).drop_last() == v@.take(i as int));
        }
        if c.is_whitespace() {
            if pending {
                out.push(current);
                current = String::new();
                pending = false;
            }
        } else {
            current.push(c);
            pending = true;
        }
        i += 1;
    }
    assert(v@.take(v@.len() as int) == v@);
    if pending {
        out.push(current);
    }
    out
}

/// The place of the first `c` in `s`, or `s.len()` where there is none.
pub open spec fn first_index(s: Seq<char>, c: char) -> int
    decreases s.len(),
{
    if s.len() == 0 || s[0] == c {
        0
    } else {
        1 + first_index(s.drop_first(), c)
    }
}

/// `first_index` is the one place before which no `c` stands and at which
/// `c` stands or the string ends.
pub proof fn lemma_first_index(s: Seq<char>, c: char, n: int)
    requires
        0 <= n <= s.len(),
        forall|i: int| 0 <= i < n ==> s[i] != c,
        n == s.len() || s[n] == c,
    ensures
        first_index(s, c) == n,
    decreases s.len(),
{
    if s.len() > 0 && s[0] != c {
        let t = s.drop_first();
        lemma_first_index(t, c, n - 1);
    }
}

/// The place of the first `c` in `v`, or `v.len()` where there is none.
pub fn find_char(v: &Vec<char>, c: char) -> (n: usize)
    ensures
        n == first_index(v@, c),
        n <= v.len(),
{
    let mut i: usize = 0;
    while i < v.len() && v[i] != c
        invariant
            i <= v.len(),
            forall|j: int| 0 <= j < i ==> v@[j] != c,
        decreases v.len() - i,
    {
        i += 1;
    }
    proof {
        lemma_first_index(v@, c, i as int);
    }
    i
}

/// Whether `c` is one of the two quotation marks.
pub open spec fn quote(c: char) -> bool {
    c == '\'' || c == '"'
}

/// `s` without the quotation marks it starts with.
pub open spec fn strip_front(s: Seq<char>) -> Seq<char>
    decreases s.len(),
{
    if s.len() > 0 && quote(s[0]) {
        strip_front(s.drop_first())
    } else {
        s
    }
}

/// `s` without the quotation marks it ends with.
pub open spec fn strip_back(s: Seq<char>) -> Seq<char>
    decreases s.len(),
{
    if s.len() > 0 && quote(s.last()) {
        strip_back(s.drop_last())
    } else {
        s
    }
}

/// `s` without the quotation marks at either end.
pub open spec fn strip_quotes(s: Seq<char>) -> Seq<char> {
    strip_back(strip_front(s))
}

/// The bounds of `v` without the quotation marks at either end.
pub fn quotes_stripped(v: &Vec<char>) -> (r: (usize, usize))
    ensures
        r.0 <= r.1 <= v.len(),
        v@.subrange(r.0 as int, r.1 as int) == strip_quotes(v@),
{
    let mut a: usize = 0;
    let mut b: usize = v.len();
    assert(v@.subrange(0, v@.len() as int) == v@);
    while a < b && (v[a] == '\'' || v[a] == '"')
        invariant
            a <= b == v.len(),
            strip_front(v@) == strip_front(v@.subrange(a as int, b as int)),
        decreases b - a,
    {
        assert(v@.subrange(a as int, b as int).drop_first() == v@.subrange(a + 1, b as int));
        a += 1;
    }
    while a < b && (v[b - 1] == '\'' || v[b - 1] == '"')
        invariant
            a <= b <= v.len(),
            strip_quotes(v@) == strip_back(v@.subrange(a as int, b as int)),
        decreases b - a,
    {
        assert(v@.subrange(a as int, b as int).drop_last() == v@.subrange(a as int, b - 1));
        b -= 1;
    }
    (a, b)
}

} // verus!

//! Addresses of pages, the request that is sent for one, and the reading
//! of the answer.

use vstd::prelude::*;
use vstd::string::StringExecFns;
use crate::text::{
    blank, chars_of, find_char, first_index, is_blank, is_literal, lowercase, lower, string_of_range,
};

verus! {

/// The address of a page.
#[derive(Debug)]
pub struct Url {
    pub scheme: String,
    pub host: String,
    pub path: String,
}

/// The mathematical content of a [`Url`].
pub struct UrlView {
    pub scheme: Seq<char>,
    pub host: Seq<char>,
    pub path: Seq<char>,
}

impl View for Url {
    type V = UrlView;

    open spec fn view(&self) -> UrlView {
        UrlView { scheme: self.scheme@, host: self.host@, path: self.path@ }
    }
}

impl Clone for Url {
    fn clone(&self) -> (r: Self)
        ensures
            r@ == self@,
    {
        Url { scheme: self.scheme.clone(), host: self.host.clone(), path: self.path.clone() }
    }
}

/// Whether `://` stands at `i` in `s`.
pub open spec fn separator_at(s: Seq<char>, i: int) -> bool {
    0 <= i && i + 3 <= s.len() && s[i] == ':' && s[i + 1] == '/' && s[i + 2] == '/'
}

/// The place of the first `://` in `s` at or after `i`, or `s.len()` where
/// there is none.
pub open spec fn separator_from(s: Seq<char>, i: int) -> int
    decreases s.len() - i,
{
    if i < 0 || i + 3 > s.len() {
        s.len() as int
    } else if separator_at(s, i) {
        i
    } else {
        separator_from(s, i + 1)
    }
}

/// What an address is read as.
pub open spec fn url_of(s: Seq<char>) -> Result<UrlView, Seq<char>> {
    let sep = separator_from(s, 0);
    let scheme = s.take(sep);
    let rest = s.skip(sep + 3);
    let slash = first_index(rest, '/');
    if sep >= s.len() {
        Err("URL missing :// separator"@)
    } else if scheme != "http"@ {
        Err("Unsupported URL scheme: "@ + scheme)
    } else {
        Ok(
            UrlView {
                scheme,
                host: rest.take(slash),
                path: if slash < rest.len() {
                    rest.skip(slash)
                } else {
                    seq!['/']
                },
            },
        )
    }
}

/// The first `://` lies inside the text.
pub proof fn lemma_separator(s: Seq<char>, i: int)
    requires
        0 <= i <= s.len(),
    ensures
        i <= separator_from(s, i) <= s.len(),
        separator_from(s, i) < s.len() ==> separator_at(s, separator_from(s, i)),
    decreases s.len() - i,
{
    if i + 3 <= s.len() && !separator_at(s, i) {
        lemma_separator(s, i + 1);
    }
}

fn find_separator(v: &Vec<char>) -> (r: usize)
    ensures
        r == separator_from(v@, 0),
        r <= v.len(),
        r < v.len() ==> r + 3 <= v.len(),
{
    let mut i: usize = 0;
    proof {
        lemma_separator(v@, 0);
    }
    while i < v.len() && v.len() - i >= 3
        invariant
            i <= v.len(),
            separator_from(v@, 0) == separator_from(v@, i as int),
        decreases v.len() - i,
    {
        if v[i] == ':' && v[i + 1] == '/' && v[i + 2] == '/' {
            return i;
        }
        i += 1;
    }
    v.len()
}

impl Url {
    /// Reads an address: the scheme, which must be `http`, then `://`, the
    /// host and the path. An address without a path has the path `/`.
    pub fn new(url: &str) -> (r: Result<Url, String>)
        ensures
            match r {
                Ok(u) => url_of(url@) == Ok::<UrlView, Seq<char>>(u@),
                Err(e) => url_of(url@) == Err::<UrlView, Seq<char>>(e@),
            },
    {
        let chars = chars_of(url);
        let sep = find_separator(&chars);
        if sep >= chars.len() {
            return Err("URL missing :// separator".to_string());
        }
        let scheme = string_of_range(&chars, 0, sep);
        if !is_literal(&scheme, "http") {
            let message = "Unsupported URL scheme: ".to_string().concat(scheme.as_str());
            return Err(message);
        }
        let mut rest: Vec<char> = Vec::new();
        let mut i: usize = sep + 3;
        while i < chars.len()
            invariant
                sep + 3 <= i <= chars.len(),
                rest@ == chars@.subrange(sep + 3, i as int),
            decreases chars.len() - i,
        {
            rest.push(chars[i]);
            i += 1;
        }
        let slash = find_char(&rest, '/');
        let host = string_of_range(&rest, 0, slash);
        let path = if slash < rest.len() {
            string_of_range(&rest, slash, rest.len())
        } else {
            let mut p = String::new();
            p.push('/');
            p
        };
        Ok(Url { scheme, host, path })
    }

    /// The request for the page, as it is sent to the host.
    pub fn request_text(&self) -> (r: String)
        ensures
            r@ == "GET "@ + self.path@ + " HTTP/1.0\r\nHost: "@ + self.host@ + "\r\n\r\n"@,
    {
        "GET ".to_string().concat(self.path.as_str()).concat(" HTTP/1.0\r\nHost: ").concat(
            self.host.as_str(),
        ).concat("\r\n\r\n")
    }

    /// The host and the port to connect to.
    pub fn address(&self) -> (r: String)
        ensures
            r@ == self.host@ + ":80"@,
    {
        self.host.clone().concat(":80")
    }
}

/// The place behind the line that starts at `i`: behind the next line
/// feed, or the end of the text.
pub open spec fn line_end(s: Seq<char>, i: int) -> int
    decreases s.len() - i,
{
    if i < 0 || i >= s.len() {
        s.len() as int
    } else if s[i] == '\n' {
        i + 1
    } else {
        line_end(s, i + 1)
    }
}

/// The number of times that `c` stands in `s`.
pub open spec fn count(s: Seq<char>, c: char) -> nat
    decreases s.len(),
{
    if s.len() == 0 {
        0
    } else {
        count(s.drop_last(), c) + if s.last() == c {
            1nat
        } else {
            0nat
        }
    }
}

/// Whether the header line `line` says that the body is encoded: its name,
/// which is what stands before the first `:`, is `transfer-encoding` or
/// `content-encoding` once lower-cased.
pub open spec fn encoding_header(line: Seq<char>) -> bool {
    let colon = first_index(line, ':');
    colon < line.len() && (lowercase(line.take(colon)) == "transfer-encoding"@ || lowercase(
        line.take(colon),
    ) == "content-encoding"@)
}

/// Reading the header lines from `i` on; `encoded` says whether a line
/// before said that the body is encoded. The headers end with a blank
/// line or with the text. The body is what follows.
pub open spec fn body_after_headers(s: Seq<char>, i: int, encoded: bool) -> Result<
    Seq<char>,
    Seq<char>,
>
    decreases s.len() - i,
    via body_after_headers_decreases
{
    let e = line_end(s, i);
    let line = s.subrange(i, e);
    if i < 0 || i > s.len() {
        Err(Seq::empty())
    } else if blank(line) {
        if encoded {
            Err("Unsupported transfer or content encoding"@)
        } else {
            Ok(s.skip(e))
        }
    } else {
        body_after_headers(s, e, encoded || encoding_header(line))
    }
}

#[via_fn]
proof fn body_after_headers_decreases(s: Seq<char>, i: int, encoded: bool) {
    if 0 <= i <= s.len() {
        lemma_line_end(s, i);
    }
}

/// A line ends inside the text, and behind its start unless the text
/// ends there.
pub proof fn lemma_line_end(s: Seq<char>, i: int)
    requires
        0 <= i <= s.len(),
    ensures
        i <= line_end(s, i) <= s.len(),
        i < s.len() ==> i < line_end(s, i),
    decreases s.len() - i,
{
    if i < s.len() && s[i] != '\n' {
        lemma_line_end(s, i + 1);
    }
}

/// What the answer of a host is read as: the body, or why it cannot be
/// used. The first line is the status line, which has two spaces at
/// least.
pub open spec fn response_body(s: Seq<char>) -> Result<Seq<char>, Seq<char>> {
    let e = line_end(s, 0);
    if count(s.take(e), ' ') < 2 {
        Err("Malformed HTTP response"@)
    } else {
        body_after_headers(s, e, false)
    }
}

fn find_line_end(v: &Vec<char>, from: usize) -> (r: usize)
    requires
        from <= v.len(),
    ensures
        r == line_end(v@, from as int),
        from <= r <= v.len(),
        from < v.len() ==> from < r,
{
    let mut i: usize = from;
    proof {
        lemma_line_end(v@, from as int);
    }
    while i < v.len()
        invariant
            from <= i <= v.len(),
            line_end(v@, from as int) == line_end(v@, i as int),
        decreases v.len() - i,
    {
        if v[i] == '\n' {
            return i + 1;
        }
        i += 1;
    }
    v.len()
}

fn copy_range(v: &Vec<char>, from: usize, to: usize) -> (r: Vec<char>)
    requires
        from <= to <= v.len(),
    ensures
        r@ == v@.subrange(from as int, to as int),
{
    let mut r: Vec<char> = Vec::new();
    let mut i: usize = from;
    while i < to
        invariant
            from <= i <= to <= v.len(),
            r@ == v@.subrange(from as int, i as int),
        decreases to - i,
    {
        r.push(v[i]);
        i += 1;
    }
    r
}

fn is_encoding_header(line: &Vec<char>) -> (b: bool)
    ensures
        b == encoding_header(line@),
{
    let colon = find_char(line, ':');
    if colon < line.len() {
        let name = string_of_range(line, 0, colon);
        let key = lower(&name);
        is_literal(&key, "transfer-encoding") || is_literal(&key, "content-encoding")
    } else {
        false
    }
}

/// Reads the answer of a host, see [`response_body`].
pub fn read_response(raw: &str) -> (r: Result<String, String>)
    ensures
        match r {
            Ok(body) => response_body(raw@) == Ok::<Seq<char>, Seq<char>>(body@),
            Err(e) => response_body(raw@) == Err::<Seq<char>, Seq<char>>(e@),
        },
{
    let chars = chars_of(raw);
    let first = find_line_end(&chars, 0);
    let mut spaces: usize = 0;
    let mut k: usize = 0;
    let ghost status = chars@.take(first as int);
    while k < first
        invariant
            k <= first <= chars.len(),
            status == chars@.take(first as int),
            spaces == count(status.take(k as int), ' '),
            spaces <= k,
        decreases first - k,
    {
        proof {
            assert(status.take(k + 1).drop_last() == status.take(k as int));
        }
        if chars[k] == ' ' {
            spaces += 1;
        }
        k += 1;
    }
    assert(status.take(first as int) == status);
    if spaces < 2 {
        return Err("Malformed HTTP response".to_string());
    }
    let mut i: usize = first;
    let mut encoded = false;
    loop
        invariant
            i <= chars.len(),
            chars@ == raw@,
            body_after_headers(chars@, i as int, encoded) == response_body(raw@),
        decreases chars.len() - i,
    {
        let e = find_line_end(&chars, i);
        let line = copy_range(&chars, i, e);
        if is_blank(&line) {
            if encoded {
                return Err("Unsupported transfer or content encoding".to_string());
            }
            return Ok(string_of_range(&chars, e, chars.len()));
        }
        if is_encoding_header(&line) {
            encoded = true;
        }
        i = e;
    }
}

/// The place of the last `/` in `s`, or -1 where there is none.
pub open spec fn last_slash(s: Seq<char>) -> int
    decreases s.len(),
{
    if s.len() == 0 {
        -1
    } else if s.last() == '/' {
        s.len() - 1
    } else {
        last_slash(s.drop_last())
    }
}

/// The path `dir` without its last `/` and what follows it; `dir` itself
/// where it has no `/`.
pub open spec fn parent_dir(dir: Seq<char>) -> Seq<char> {
    if last_slash(dir) >= 0 {
        dir.take(last_slash(dir))
    } else {
        dir
    }
}

/// Whether `./` stands at the start of `s`.
pub open spec fn starts_here(s: Seq<char>) -> bool {
    s.len() >= 2 && s[0] == '.' && s[1] == '/'
}

/// Whether `../` stands at the start of `s`.
pub open spec fn starts_above(s: Seq<char>) -> bool {
    s.len() >= 3 && s[0] == '.' && s[1] == '.' && s[2] == '/'
}

/// The path that `reference` names, seen from the directory `dir`: each
/// `../` at its start goes one directory up, each `./` stays, and the rest
/// follows the directory.
pub open spec fn relative_path(dir: Seq<char>, reference: Seq<char>) -> Seq<char>
    decreases reference.len(),
{
    if starts_above(reference) {
        relative_path(parent_dir(dir), reference.skip(3))
    } else if starts_here(reference) {
        relative_path(dir, reference.skip(2))
    } else {
        dir.push('/') + reference
    }
}

/// The address that `reference` names on a page at `base`. A reference
/// with `://` is an address by itself. One that starts with `//` takes the
/// scheme of the page, one that starts with `/` its scheme and host, and
/// any other is a path seen from the directory of the page.
pub open spec fn resolved(base: UrlView, reference: Seq<char>) -> Result<UrlView, Seq<char>> {
    if separator_from(reference, 0) < reference.len() {
        url_of(reference)
    } else if reference.len() >= 2 && reference[0] == '/' && reference[1] == '/' {
        url_of(base.scheme.push(':') + reference)
    } else if reference.len() >= 1 && reference[0] == '/' {
        Ok(UrlView { scheme: base.scheme, host: base.host, path: reference })
    } else {
        Ok(
            UrlView {
                scheme: base.scheme,
                host: base.host,
                path: relative_path(parent_dir(base.path), reference),
            },
        )
    }
}

fn to_parent(dir: &mut Vec<char>)
    ensures
        final(dir)@ == parent_dir(old(dir)@),
{
    let mut j: usize = dir.len();
    assert(dir@.take(j as int) == dir@);
    while j > 0 && dir[j - 1] != '/'
        invariant
            j <= dir.len(),
            dir@ == old(dir)@,
            last_slash(dir@) == last_slash(dir@.take(j as int)),
        decreases j,
    {
        assert(dir@.take(j as int).drop_last() == dir@.take(j - 1));
        j -= 1;
    }
    if j > 0 {
        dir.truncate(j - 1);
    }
}

impl Url {
    /// The address that `reference`, found on this page, names, see
    /// [`resolved`].
    pub fn resolve(&self, reference: &str) -> (r: Result<Url, String>)
        ensures
            match r {
                Ok(u) => resolved(self@, reference@) == Ok::<UrlView, Seq<char>>(u@),
                Err(e) => resolved(self@, reference@) == Err::<UrlView, Seq<char>>(e@),
            },
    {
        let chars = chars_of(reference);
        let n = chars.len();
        if find_separator(&chars) < n {
            return Url::new(reference);
        }
        if n >= 2 && chars[0] == '/' && chars[1] == '/' {
            let mut full = self.scheme.clone();
            full.push(':');
            let full = full.concat(reference);
            return Url::new(full.as_str());
        }
        if n >= 1 && chars[0] == '/' {
            return Ok(
                Url {
                    scheme: self.scheme.clone(),
                    host: self.host.clone(),
                    path: reference.to_string(),
                },
            );
        }
        let mut dir = chars_of(self.path.as_str());
        to_parent(&mut dir);
        let ghost start = dir@;
        let mut i: usize = 0;
        assert(chars@.skip(0) == chars@);
        loop
            invariant
                i <= n == chars.len(),
                relative_path(dir@, chars@.skip(i as int)) == relative_path(start, chars@),
            ensures
                i <= n == chars.len(),
                relative_path(start, chars@) == dir@.push('/') + chars@.skip(i as int),
            decreases n - i,
        {
            let ghost rest = chars@.skip(i as int);
            if n - i >= 3 && chars[i] == '.' && chars[i + 1] == '.' && chars[i + 2] == '/' {
                assert(rest.skip(3) == chars@.skip(i + 3));
                to_parent(&mut dir);
                i += 3;
            } else if n - i >= 2 && chars[i] == '.' && chars[i + 1] == '/' {
                assert(rest.skip(2) == chars@.skip(i + 2));
                i += 2;
            } else {
                assert(!starts_above(rest));
                break ;
            }
        }
        dir.push('/');
        let mut k: usize = i;
        let ghost head = dir@;
        while k < n
            invariant
                i <= k <= n == chars.len(),
                dir@ == head + chars@.subrange(i as int, k as int),
            decreases n - k,
        {
            dir.push(chars[k]);
            k += 1;
        }
        Ok(
            Url {
                scheme: self.scheme.clone(),
                host: self.host.clone(),
                path: crate::text::string_of(&dir),
            },
        )
    }
}

} // verus!

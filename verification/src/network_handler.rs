//! Reading the method, path and body out of a raw HTTP request.

use vstd::prelude::*;
use vstd::utf8::{decode_utf8, valid_utf8};

verus! {

/// HTTP request methods; anything not listed reads as `UNKNOWN`.
#[allow(non_camel_case_types, clippy::upper_case_acronyms)]
#[derive(Debug, Clone, Copy, PartialEq, Eq, Structural)]
pub enum Method {
    GET,
    POST,
    PUT,
    DELETE,
    PATCH,
    UNKNOWN,
}

/// The method a request-line token names.
pub open spec fn spec_method_of(token: Seq<char>) -> Method {
    if token == seq!['G', 'E', 'T'] {
        Method::GET
    } else if token == seq!['P', 'O', 'S', 'T'] {
        Method::POST
    } else if token == seq!['P', 'U', 'T'] {
        Method::PUT
    } else if token == seq!['D', 'E', 'L', 'E', 'T', 'E'] {
        Method::DELETE
    } else if token == seq!['P', 'A', 'T', 'C', 'H'] {
        Method::PATCH
    } else {
        Method::UNKNOWN
    }
}

/// A parsed request: its method, its path and its body.
#[derive(Debug, Clone)]
pub struct Request {
    pub method: Method,
    pub path: String,
    pub body: String,
}

/// Characters with the Unicode `White_Space` property.
pub open spec fn spec_is_whitespace(c: char) -> bool {
    let u = c as u32;
    ||| 0x09 <= u <= 0x0D
    ||| u == 0x20
    ||| u == 0x85
    ||| u == 0xA0
    ||| u == 0x1680
    ||| 0x2000 <= u <= 0x200A
    ||| u == 0x2028
    ||| u == 0x2029
    ||| u == 0x202F
    ||| u == 0x205F
    ||| u == 0x3000
}

/// True when `pat` occurs in `s` at position `i`.
pub open spec fn occurs_at(s: Seq<char>, pat: Seq<char>, i: int) -> bool {
    0 <= i && i + pat.len() <= s.len() && s.subrange(i, i + pat.len()) == pat
}

/// The first position at or after `i` where `pat` occurs in `s`.
pub open spec fn find_from(s: Seq<char>, pat: Seq<char>, i: int) -> Option<int>
    decreases s.len() + 1 - i,
{
    if i < 0 || i + pat.len() > s.len() {
        None
    } else if occurs_at(s, pat, i) {
        Option::Some(i)
    } else {
        find_from(s, pat, i + 1)
    }
}

/// The separator between a request's head and its body.
pub open spec fn head_separator() -> Seq<char> {
    seq!['\r', '\n', '\r', '\n']
}

/// The request's head: everything before the first blank line.
pub open spec fn spec_head(text: Seq<char>) -> Seq<char> {
    match find_from(text, head_separator(), 0) {
        Option::Some(m) => text.take(m),
        None => text,
    }
}

/// The request's body: the text between the first blank line and the next
/// one (or the end), empty when there is no blank line.
pub open spec fn spec_body(text: Seq<char>) -> Seq<char> {
    match find_from(text, head_separator(), 0) {
        None => seq![],
        Option::Some(m) => match find_from(text, head_separator(), m + 4) {
            Option::Some(n) => text.subrange(m + 4, n),
            None => text.subrange(m + 4, text.len() as int),
        },
    }
}

/// The first line of `s`: everything before the first line feed.
pub open spec fn spec_first_line(s: Seq<char>) -> Seq<char> {
    match find_from(s, seq!['\n'], 0) {
        Option::Some(n) => s.take(n),
        None => s,
    }
}

/// The position of the first non-whitespace character at or after `i`.
pub open spec fn skip_whitespace(s: Seq<char>, i: int) -> int
    decreases s.len() - i,
{
    if 0 <= i < s.len() && spec_is_whitespace(s[i]) {
        skip_whitespace(s, i + 1)
    } else {
        i
    }
}

/// The position of the first whitespace character at or after `i`.
pub open spec fn skip_word(s: Seq<char>, i: int) -> int
    decreases s.len() - i,
{
    if 0 <= i < s.len() && !spec_is_whitespace(s[i]) {
        skip_word(s, i + 1)
    } else {
        i
    }
}

/// Start of the first whitespace-separated word of a line.
pub open spec fn first_word_start(line: Seq<char>) -> int {
    skip_whitespace(line, 0)
}

/// End of the first whitespace-separated word of a line.
pub open spec fn first_word_end(line: Seq<char>) -> int {
    skip_word(line, first_word_start(line))
}

/// Start of the second whitespace-separated word of a line.
pub open spec fn second_word_start(line: Seq<char>) -> int {
    skip_whitespace(line, first_word_end(line))
}

/// End of the second whitespace-separated word of a line.
pub open spec fn second_word_end(line: Seq<char>) -> int {
    skip_word(line, second_word_start(line))
}

/// The request line of a request text: the first line of its head.
pub open spec fn request_line(text: Seq<char>) -> Seq<char> {
    spec_first_line(spec_head(text))
}

/// True when the request line holds at least two words (method and path).
pub open spec fn has_method_and_path(text: Seq<char>) -> bool {
    let line = request_line(text);
    second_word_start(line) < line.len()
}

/// The method, path and body of a request given as text, or `None` when
/// its request line holds fewer than two words.
pub open spec fn spec_parse_text(text: Seq<char>) -> Option<(Method, Seq<char>, Seq<char>)> {
    let line = request_line(text);
    if has_method_and_path(text) {
        Option::Some(
            (
                spec_method_of(line.subrange(first_word_start(line), first_word_end(line))),
                line.subrange(second_word_start(line), second_word_end(line)),
                spec_body(text),
            ),
        )
    } else {
        None
    }
}

/// The method, path and body of a request given as bytes, or `None` when the
/// bytes are not UTF-8 or the request line holds fewer than two words.
pub open spec fn spec_parse(data: Seq<u8>) -> Option<(Method, Seq<char>, Seq<char>)> {
    if valid_utf8(data) {
        spec_parse_text(decode_utf8(data))
    } else {
        None
    }
}

/// `find_from` finds the first occurrence at or after `i`, and `None`
/// means there is none.
proof fn lemma_find_from(s: Seq<char>, pat: Seq<char>, i: int)
    requires
        0 <= i,
    ensures
        find_from(s, pat, i) matches Option::Some(m) ==> i <= m && occurs_at(s, pat, m) && forall|j: int|
            i <= j < m ==> !#[trigger] occurs_at(s, pat, j),
        find_from(s, pat, i) is None ==> forall|j: int| i <= j ==> !#[trigger] occurs_at(s, pat, j),
    decreases s.len() + 1 - i,
{
    if i + pat.len() > s.len() {
    } else if occurs_at(s, pat, i) {
    } else {
        lemma_find_from(s, pat, i + 1);
        assert forall|j: int| i <= j && j < i + 1 implies !#[trigger] occurs_at(s, pat, j) by {
            assert(j == i);
        }
    }
}

/// What a parsed request's body is, in terms of the request text: empty
/// when the text holds no blank line (`"\r\n\r\n"`); otherwise the text
/// right after the first blank line, up to the next blank line or the end,
/// holding no blank line itself. So the body never overlaps the head.
pub proof fn lemma_body_between_blank_lines(data: Seq<u8>)
    ensures
        spec_parse(data) matches Option::Some((m, p, b)) ==> {
            let text = decode_utf8(data);
            let sep = head_separator();
            &&& (forall|i: int| !#[trigger] occurs_at(text, sep, i)) ==> b == Seq::<char>::empty()
            &&& (exists|i: int| #[trigger] occurs_at(text, sep, i)) ==> exists|i: int|
                {
                    &&& #[trigger] occurs_at(text, sep, i)
                    &&& forall|j: int| 0 <= j < i ==> !#[trigger] occurs_at(text, sep, j)
                    &&& i + 4 + b.len() <= text.len()
                    &&& text.subrange(i + 4, i + 4 + b.len()) == b
                    &&& (i + 4 + b.len() == text.len() || occurs_at(text, sep, i + 4 + b.len()))
                    &&& forall|j: int| i + 4 <= j < i + 4 + b.len() ==> !#[trigger] occurs_at(text, sep, j)
                }
        },
{
    if let Option::Some((m, p, b)) = spec_parse(data) {
        let text = decode_utf8(data);
        let sep = head_separator();
        lemma_find_from(text, sep, 0);
        match find_from(text, sep, 0) {
            None => {},
            Option::Some(k) => {
                lemma_find_from(text, sep, k + 4);
                assert(occurs_at(text, sep, k));
            },
        }
    }
}

/// Calls `std::str::from_utf8`: `Some` exactly for valid UTF-8, holding the
/// decoded characters.
#[verifier::external_body]
fn str_from_utf8(data: &[u8]) -> (r: Option<&str>)
    ensures
        r is Some <==> valid_utf8(data@),
        r matches Option::Some(s) ==> s@ == decode_utf8(data@),
{
    std::str::from_utf8(data).ok()
}

/// Calls `String`'s `FromIterator<&char>` on `chars[from..to]`: the string
/// made of those characters.
#[verifier::external_body]
fn string_from_chars(chars: &Vec<char>, from: usize, to: usize) -> (r: String)
    requires
        from <= to <= chars.len(),
    ensures
        r@ == chars@.subrange(from as int, to as int),
{
    chars[from..to].iter().collect()
}

/// The characters of `s`, in order.
pub(crate) fn chars_of(s: &str) -> (r: Vec<char>)
    ensures
        r@ == s@,
{
    let mut out: Vec<char> = Vec::new();
    for c in it: s.chars()
        invariant
            out@ == it.seq().take(it.index()),
    {
        out.push(c);
    }
    out
}


/// Whether `c` has the Unicode `White_Space` property.
pub fn is_whitespace(c: char) -> (r: bool)
    ensures
        r == spec_is_whitespace(c),
{
    let u = c as u32;
    (0x09 <= u && u <= 0x0D) || u == 0x20 || u == 0x85 || u == 0xA0 || u == 0x1680 || (0x2000 <= u
        && u <= 0x200A) || u == 0x2028 || u == 0x2029 || u == 0x202F || u == 0x205F || u == 0x3000
}

/// Whether `pat` occurs in `s` at position `i`.
fn occurs_at_exec(s: &Vec<char>, pat: &Vec<char>, i: usize) -> (r: bool)
    requires
        i + pat.len() <= s.len(),
    ensures
        r == occurs_at(s@, pat@, i as int),
{
    let mut k: usize = 0;
    while k < pat.len()
        invariant
            k <= pat.len(),
            i + pat.len() <= s.len(),
            forall|j: int| 0 <= j < k ==> s@[i + j] == pat@[j],
        decreases pat.len() - k,
    {
        if s[i + k] != pat[k] {
            assert(s@.subrange(i as int, i + pat.len())[k as int] != pat@[k as int]);
            return false;
        }
        k = k + 1;
    }
    assert(s@.subrange(i as int, i + pat.len()) =~= pat@);
    true
}

/// The first position at or after `start` where `pat` occurs in `s.take(end)`.
fn find_within(s: &Vec<char>, pat: &Vec<char>, start: usize, end: usize) -> (r: Option<usize>)
    requires
        end <= s.len(),
    ensures
        r matches Option::Some(i) ==> find_from(s@.take(end as int), pat@, start as int)
            == Option::Some(i as int),
        r is None ==> find_from(s@.take(end as int), pat@, start as int) is None,
        r matches Option::Some(i) ==> start <= i && i + pat.len() <= end,
{
    let ghost t = s@.take(end as int);
    if pat.len() > end {
        return None;
    }
    if pat.len() == 0 {
        if start <= end {
            assert(t.subrange(start as int, start as int) =~= pat@);
            return Some(start);
        }
        return None;
    }
    let mut i: usize = start;
    while i <= end - pat.len()
        invariant
            0 < pat.len() <= end <= s.len(),
            t == s@.take(end as int),
            start <= i,
            find_from(t, pat@, start as int) == find_from(t, pat@, i as int),
        decreases end - i,
    {
        let found = occurs_at_exec(s, pat, i);
        assert(t.subrange(i as int, i + pat.len()) =~= s@.subrange(i as int, i + pat.len()));
        if found {
            return Some(i);
        }
        i = i + 1;
    }
    None
}

/// `skip_whitespace` over `s.take(end)`, computed.
fn skip_whitespace_exec(s: &Vec<char>, start: usize, end: usize) -> (r: usize)
    requires
        start <= end <= s.len(),
    ensures
        r as int == skip_whitespace(s@.take(end as int), start as int),
        start <= r <= end,
{
    let ghost t = s@.take(end as int);
    let mut i = start;
    while i < end && is_whitespace(s[i])
        invariant
            start <= i <= end <= s.len(),
            t == s@.take(end as int),
            skip_whitespace(t, start as int) == skip_whitespace(t, i as int),
        decreases end - i,
    {
        i = i + 1;
    }
    i
}

/// `skip_word` over `s.take(end)`, computed.
fn skip_word_exec(s: &Vec<char>, start: usize, end: usize) -> (r: usize)
    requires
        start <= end <= s.len(),
    ensures
        r as int == skip_word(s@.take(end as int), start as int),
        start <= r <= end,
{
    let ghost t = s@.take(end as int);
    let mut i = start;
    while i < end && !is_whitespace(s[i])
        invariant
            start <= i <= end <= s.len(),
            t == s@.take(end as int),
            skip_word(t, start as int) == skip_word(t, i as int),
        decreases end - i,
    {
        i = i + 1;
    }
    i
}

/// Whether `s[from..to]` spells out `word`.
fn spells(s: &Vec<char>, from: usize, to: usize, word: &Vec<char>) -> (r: bool)
    requires
        from <= to <= s.len(),
    ensures
        r == (s@.subrange(from as int, to as int) == word@),
{
    if to - from != word.len() {
        return false;
    }
    let r = occurs_at_exec(s, word, from);
    r
}

/// The method that `s[from..to]` names.
fn method_of(s: &Vec<char>, from: usize, to: usize) -> (r: Method)
    requires
        from <= to <= s.len(),
    ensures
        r == spec_method_of(s@.subrange(from as int, to as int)),
{
    if spells(s, from, to, &vec!['G', 'E', 'T']) {
        Method::GET
    } else if spells(s, from, to, &vec!['P', 'O', 'S', 'T']) {
        Method::POST
    } else if spells(s, from, to, &vec!['P', 'U', 'T']) {
        Method::PUT
    } else if spells(s, from, to, &vec!['D', 'E', 'L', 'E', 'T', 'E']) {
        Method::DELETE
    } else if spells(s, from, to, &vec!['P', 'A', 'T', 'C', 'H']) {
        Method::PATCH
    } else {
        Method::UNKNOWN
    }
}

impl std::str::FromStr for Method {
    type Err = ();

    /// The method `s` names; never fails, as unknown names read as `UNKNOWN`.
    fn from_str(s: &str) -> (r: Result<Method, ()>)
        ensures
            r == Ok::<Method, ()>(spec_method_of(s@)),
    {
        let chars = chars_of(s);
        proof {
            assert(chars@.subrange(0, chars@.len() as int) =~= chars@);
        }
        Ok(method_of(&chars, 0, chars.len()))
    }
}

impl Request {
    /// Reads the method, path and body out of a raw request. `None` when the
    /// bytes are not UTF-8 or the request line holds fewer than two words.
    pub fn parse(data: &[u8]) -> (r: Option<Request>)
        ensures
            match spec_parse(data@) {
                None => r is None,
                Option::Some((m, p, b)) => r matches Option::Some(req) && req.method == m
                    && req.path@ == p && req.body@ == b,
            },
    {
        let text_str = match str_from_utf8(data) {
            Option::Some(t) => t,
            None => return None,
        };
        let text = chars_of(text_str);
        let ghost tx = text@;
        proof {
            assert(tx.take(tx.len() as int) =~= tx);
        }
        let sep = vec!['\r', '\n', '\r', '\n'];
        assert(sep@ =~= head_separator());
        let first = find_within(&text, &sep, 0, text.len());
        let head_end = match first {
            Option::Some(m) => m,
            None => text.len(),
        };
        let (body_start, body_end) = match first {
            None => (0, 0),
            Option::Some(m) => match find_within(&text, &sep, m + 4, text.len()) {
                Option::Some(n) => (m + 4, n),
                None => (m + 4, text.len()),
            },
        };
        let newline = vec!['\n'];
        let line_end = match find_within(&text, &newline, 0, head_end) {
            Option::Some(n) => n,
            None => head_end,
        };
        let ghost head = spec_head(tx);
        let ghost line = spec_first_line(head);
        proof {
            assert(head =~= tx.take(head_end as int));
            assert(newline@ =~= seq!['\n']);
            assert(line =~= tx.take(line_end as int));
        }
        let a = skip_whitespace_exec(&text, 0, line_end);
        let b = skip_word_exec(&text, a, line_end);
        let c = skip_whitespace_exec(&text, b, line_end);
        if c >= line_end {
            return None;
        }
        let d = skip_word_exec(&text, c, line_end);
        let method = method_of(&text, a, b);
        proof {
            assert(line.subrange(a as int, b as int) =~= tx.subrange(a as int, b as int));
            assert(line.subrange(c as int, d as int) =~= tx.subrange(c as int, d as int));
        }
        let path = string_from_chars(&text, c, d);
        let body = string_from_chars(&text, body_start, body_end);
        proof {
            if first is None {
                assert(tx.subrange(0, 0) =~= Seq::<char>::empty());
            }
        }
        Some(Request { method, path, body })
    }
}

} // verus!

//! Reading a project's name, version and description out of its build
//! manifest text: the first line whose trimmed form starts with the
//! field's key, with the value taken after the equals sign and stripped
//! of whitespace and quotes.

use vstd::prelude::*;
use crate::chartext::chars_of;
use crate::stamp::chars_to_string;

verus! {

/// Horizontal whitespace, as line trimming removes it.
pub open spec fn is_ws(c: char) -> bool {
    c == ' ' || c == '\t' || c == '\r'
}

/// The first position at or after `pos` holding `c`, or the length.
pub open spec fn find_from(s: Seq<char>, c: char, pos: int) -> int
    decreases s.len() - pos,
{
    if pos < 0 {
        0
    } else if pos >= s.len() {
        s.len() as int
    } else if s[pos] == c {
        pos
    } else {
        find_from(s, c, pos + 1)
    }
}

pub proof fn lemma_find_from_range(s: Seq<char>, c: char, pos: int)
    requires
        0 <= pos <= s.len(),
    ensures
        pos <= find_from(s, c, pos) <= s.len(),
    decreases s.len() - pos,
{
    if pos < s.len() && s[pos] != c {
        lemma_find_from_range(s, c, pos + 1);
    }
}

fn find_from_exec(s: &[char], c: char, pos: usize) -> (r: usize)
    requires
        pos <= s@.len(),
    ensures
        r == find_from(s@, c, pos as int),
        pos <= r <= s@.len(),
{
    let n = s.len();
    let mut j: usize = pos;
    while j < n && s[j] != c
        invariant
            n == s@.len(),
            pos <= j <= n,
            find_from(s@, c, pos as int) == find_from(s@, c, j as int),
        decreases n - j,
    {
        j = j + 1;
    }
    proof {
        lemma_find_from_range(s@, c, j as int);
    }
    j
}

/// The first position at or after `pos` holding something other than
/// whitespace, or the length.
pub open spec fn skip_ws(s: Seq<char>, pos: int) -> int
    decreases s.len() - pos,
{
    if pos < 0 {
        0
    } else if pos >= s.len() {
        s.len() as int
    } else if is_ws(s[pos]) {
        skip_ws(s, pos + 1)
    } else {
        pos
    }
}

pub proof fn lemma_skip_ws_range(s: Seq<char>, pos: int)
    requires
        0 <= pos <= s.len(),
    ensures
        pos <= skip_ws(s, pos) <= s.len(),
    decreases s.len() - pos,
{
    if pos < s.len() && is_ws(s[pos]) {
        lemma_skip_ws_range(s, pos + 1);
    }
}

/// The position before which everything from `end` back is whitespace.
pub open spec fn rskip_ws(s: Seq<char>, end: int) -> int
    decreases end,
{
    if end <= 0 {
        0
    } else if end > s.len() {
        s.len() as int
    } else if is_ws(s[end - 1]) {
        rskip_ws(s, end - 1)
    } else {
        end
    }
}

/// A sequence with surrounding whitespace removed.
pub open spec fn trim_spec(s: Seq<char>) -> Seq<char> {
    let a = skip_ws(s, 0);
    let b = rskip_ws(s, s.len() as int);
    if a >= b {
        Seq::empty()
    } else {
        s.subrange(a, b)
    }
}

/// A sequence with surrounding double quotes removed, however many.
pub open spec fn skip_q(s: Seq<char>, pos: int) -> int
    decreases s.len() - pos,
{
    if pos < 0 {
        0
    } else if pos >= s.len() {
        s.len() as int
    } else if s[pos] == '"' {
        skip_q(s, pos + 1)
    } else {
        pos
    }
}

pub open spec fn rskip_q(s: Seq<char>, end: int) -> int
    decreases end,
{
    if end <= 0 {
        0
    } else if end > s.len() {
        s.len() as int
    } else if s[end - 1] == '"' {
        rskip_q(s, end - 1)
    } else {
        end
    }
}

pub open spec fn trim_quotes_spec(s: Seq<char>) -> Seq<char> {
    let a = skip_q(s, 0);
    let b = rskip_q(s, s.len() as int);
    if a >= b {
        Seq::empty()
    } else {
        s.subrange(a, b)
    }
}

/// `p` is a prefix of `s`.
pub open spec fn starts_with_spec(s: Seq<char>, p: Seq<char>) -> bool {
    p.len() <= s.len() && s.take(p.len() as int) == p
}

/// The field value carried by one line: the text after the first equals
/// sign, trimmed of whitespace and quotes; nothing when the line has no
/// equals sign.
pub open spec fn line_value(line: Seq<char>) -> Option<Seq<char>> {
    let eq = find_from(line, '=', 0);
    if eq >= line.len() {
        Option::None
    } else {
        Option::Some(trim_quotes_spec(trim_spec(line.subrange(eq + 1, line.len() as int))))
    }
}

/// Scan the text line by line from `pos`: the first line whose trimmed
/// form starts with the key prefix and carries an equals sign yields its
/// value.
pub open spec fn field_from(content: Seq<char>, prefix: Seq<char>, pos: int) -> Option<Seq<char>>
    decreases content.len() - pos,
{
    if pos < 0 || pos >= content.len() {
        Option::None
    } else {
        let nl0 = find_from(content, '\n', pos);
        let nl = if nl0 < pos {
            pos
        } else if nl0 > content.len() {
            content.len() as int
        } else {
            nl0
        };
        let line = content.subrange(pos, nl);
        if starts_with_spec(trim_spec(line), prefix) && line_value(line) is Some {
            line_value(line)
        } else if nl >= content.len() {
            Option::None
        } else {
            field_from(content, prefix, nl + 1)
        }
    }
}

/// The value of a `key = value` field in build-manifest text.
pub open spec fn cargo_field_spec(content: Seq<char>, prefix: Seq<char>) -> Option<Seq<char>> {
    field_from(content, prefix, 0)
}

fn starts_with_exec(s: &[char], p: &[char]) -> (r: bool)
    ensures
        r == starts_with_spec(s@, p@),
{
    let m = p.len();
    if m > s.len() {
        return false;
    }
    let head = vstd::slice::slice_subrange(s, 0, m);
    let r = crate::chartext::chars_eq(head, p);
    proof {
        assert(head@ == s@.take(m as int));
    }
    r
}

fn skip_ws_exec(s: &[char], pos: usize) -> (r: usize)
    requires
        pos <= s@.len(),
    ensures
        r == skip_ws(s@, pos as int),
        pos <= r <= s@.len(),
{
    let n = s.len();
    let mut j: usize = pos;
    while j < n && (s[j] == ' ' || s[j] == '\t' || s[j] == '\r')
        invariant
            n == s@.len(),
            pos <= j <= n,
            skip_ws(s@, pos as int) == skip_ws(s@, j as int),
        decreases n - j,
    {
        j = j + 1;
    }
    proof {
        lemma_skip_ws_range(s@, j as int);
    }
    j
}

fn rskip_ws_exec(s: &[char], end: usize) -> (r: usize)
    requires
        end <= s@.len(),
    ensures
        r == rskip_ws(s@, end as int),
        r <= end,
{
    let mut j: usize = end;
    while j > 0 && (s[j - 1] == ' ' || s[j - 1] == '\t' || s[j - 1] == '\r')
        invariant
            end <= s@.len(),
            0 <= j <= end,
            rskip_ws(s@, end as int) == rskip_ws(s@, j as int),
        decreases j,
    {
        j = j - 1;
    }
    j
}

fn trim_exec(s: &[char]) -> (r: Vec<char>)
    ensures
        r@ == trim_spec(s@),
{
    let a = skip_ws_exec(s, 0);
    let b = rskip_ws_exec(s, s.len());
    if a >= b {
        let v: Vec<char> = Vec::new();
        assert(v@ =~= trim_spec(s@));
        v
    } else {
        let seg = vstd::slice::slice_subrange(s, a, b);
        vstd::slice::slice_to_vec(seg)
    }
}

fn skip_q_exec(s: &[char], pos: usize) -> (r: usize)
    requires
        pos <= s@.len(),
    ensures
        r == skip_q(s@, pos as int),
        pos <= r <= s@.len(),
{
    let n = s.len();
    let mut j: usize = pos;
    while j < n && s[j] == '"'
        invariant
            n == s@.len(),
            pos <= j <= n,
            skip_q(s@, pos as int) == skip_q(s@, j as int),
        decreases n - j,
    {
        j = j + 1;
    }
    j
}

fn rskip_q_exec(s: &[char], end: usize) -> (r: usize)
    requires
        end <= s@.len(),
    ensures
        r == rskip_q(s@, end as int),
        r <= end,
{
    let mut j: usize = end;
    while j > 0 && s[j - 1] == '"'
        invariant
            end <= s@.len(),
            0 <= j <= end,
            rskip_q(s@, end as int) == rskip_q(s@, j as int),
        decreases j,
    {
        j = j - 1;
    }
    j
}

fn trim_quotes_exec(s: &[char]) -> (r: Vec<char>)
    ensures
        r@ == trim_quotes_spec(s@),
{
    let a = skip_q_exec(s, 0);
    let b = rskip_q_exec(s, s.len());
    if a >= b {
        let v: Vec<char> = Vec::new();
        assert(v@ =~= trim_quotes_spec(s@));
        v
    } else {
        let seg = vstd::slice::slice_subrange(s, a, b);
        vstd::slice::slice_to_vec(seg)
    }
}

/// Read a `key = value` field out of build-manifest text: the first line
/// whose trimmed form starts with the given prefix yields the text after
/// its equals sign, trimmed of whitespace and quotes.
pub fn cargo_field(content: &str, prefix: &str) -> (r: Option<String>)
    ensures
        match r {
            Option::Some(v) => cargo_field_spec(content@, prefix@) == Option::Some(v@),
            Option::None => cargo_field_spec(content@, prefix@) is None,
        },
{
    let cs = chars_of(content);
    let ps = chars_of(prefix);
    let n = cs.len();
    let mut pos: usize = 0;
    while pos < n
        invariant
            n == cs@.len(),
            cs@ == content@,
            ps@ == prefix@,
            0 <= pos <= n,
            cargo_field_spec(content@, prefix@) == field_from(content@, prefix@, pos as int),
        decreases n - pos,
    {
        let nl = find_from_exec(cs.as_slice(), '\n', pos);
        let line = vstd::slice::slice_subrange(cs.as_slice(), pos, nl);
        assert(line@ == content@.subrange(pos as int, nl as int));
        let trimmed = trim_exec(line);
        let eq = find_from_exec(line, '=', 0);
        if starts_with_exec(trimmed.as_slice(), ps.as_slice()) && eq < line.len() {
            let tail = vstd::slice::slice_subrange(line, eq + 1, line.len());
            let v1 = trim_exec(tail);
            let v2 = trim_quotes_exec(v1.as_slice());
            let out = chars_to_string(&v2);
            proof {
                assert(line_value(line@) == Option::Some(v2@));
            }
            return Option::Some(out);
        }
        assert(!(starts_with_spec(trim_spec(line@), prefix@) && line_value(line@) is Some));
        if nl >= n {
            return Option::None;
        }
        pos = nl + 1;
    }
    Option::None
}

/// The project's name, from its build-manifest text.
pub fn get_project_name(cargo_content: &str) -> (r: Option<String>)
    ensures
        match r {
            Option::Some(v) => cargo_field_spec(cargo_content@, "name ="@) == Option::Some(v@),
            Option::None => cargo_field_spec(cargo_content@, "name ="@) is None,
        },
{
    cargo_field(cargo_content, "name =")
}

/// The project's version, from its build-manifest text.
pub fn get_project_version(cargo_content: &str) -> (r: Option<String>)
    ensures
        match r {
            Option::Some(v) => cargo_field_spec(cargo_content@, "version ="@) == Option::Some(v@),
            Option::None => cargo_field_spec(cargo_content@, "version ="@) is None,
        },
{
    cargo_field(cargo_content, "version =")
}

/// The project's description, from its build-manifest text.
pub fn get_project_description(cargo_content: &str) -> (r: Option<String>)
    ensures
        match r {
            Option::Some(v) => cargo_field_spec(cargo_content@, "description ="@) == Option::Some(
                v@,
            ),
            Option::None => cargo_field_spec(cargo_content@, "description ="@) is None,
        },
{
    cargo_field(cargo_content, "description =")
}

} // verus!

//! How numbers, characters, strings and path steps are written in a report.
use vstd::prelude::*;
use vstd::string::*;
use crate::order::PathStep;

verus! {

/// The digit for `d` (below 16), in lower case.
pub open spec fn digit_char(d: nat) -> char {
    if d == 0 { '0' }
    else if d == 1 { '1' }
    else if d == 2 { '2' }
    else if d == 3 { '3' }
    else if d == 4 { '4' }
    else if d == 5 { '5' }
    else if d == 6 { '6' }
    else if d == 7 { '7' }
    else if d == 8 { '8' }
    else if d == 9 { '9' }
    else if d == 10 { 'a' }
    else if d == 11 { 'b' }
    else if d == 12 { 'c' }
    else if d == 13 { 'd' }
    else if d == 14 { 'e' }
    else { 'f' }
}

/// `n` in decimal, without leading zeros.
pub open spec fn decimal(n: nat) -> Seq<char>
    decreases n,
{
    if n < 10 {
        seq![digit_char(n)]
    } else {
        decimal(n / 10).push(digit_char(n % 10))
    }
}

/// `n` in decimal, with a minus sign when it is negative.
pub open spec fn signed_decimal(n: int) -> Seq<char> {
    if n < 0 {
        seq!['-'] + decimal((-n) as nat)
    } else {
        decimal(n as nat)
    }
}

/// `n` in lower-case hexadecimal, without leading zeros.
pub open spec fn hexadecimal(n: nat) -> Seq<char>
    decreases n,
{
    if n < 16 {
        seq![digit_char(n)]
    } else {
        hexadecimal(n / 16).push(digit_char(n % 16))
    }
}

/// The escape of one character: `\t`, `\r`, `\n`, a backslash before a
/// quote or a backslash, printable ASCII as it is, and `\u{..}` with the
/// code point in hexadecimal for everything else.
pub open spec fn escaped_char(c: char) -> Seq<char> {
    if c == '\t' {
        seq!['\\', 't']
    } else if c == '\r' {
        seq!['\\', 'r']
    } else if c == '\n' {
        seq!['\\', 'n']
    } else if c == '\'' || c == '"' || c == '\\' {
        seq!['\\', c]
    } else if 0x20 <= (c as int) <= 0x7e {
        seq![c]
    } else {
        seq!['\\', 'u', '{'] + hexadecimal(c as nat) + seq!['}']
    }
}

/// Each character of `s` escaped as [escaped_char] says.
pub open spec fn escaped_str(s: Seq<char>) -> Seq<char>
    decreases s.len(),
{
    if s.len() == 0 {
        seq![]
    } else {
        escaped_char(s[0]) + escaped_str(s.drop_first())
    }
}

/// Relies on the `Display` of `u128` (through `ToString::to_string`): the
/// number in decimal, without leading zeros.
#[verifier::external_body]
pub(crate) fn unsigned_text(n: u128) -> (r: String)
    ensures
        r@ == decimal(n as nat),
{
    n.to_string()
}

/// Relies on the `Display` of `i128` (through `ToString::to_string`): the
/// number in decimal, with a leading `-` when it is negative.
#[verifier::external_body]
pub(crate) fn signed_text(n: i128) -> (r: String)
    ensures
        r@ == signed_decimal(n as int),
{
    n.to_string()
}

/// Relies on `char::escape_default`, whose rules [escaped_char] states.
#[verifier::external_body]
pub(crate) fn escape_char(c: char) -> (r: String)
    ensures
        r@ == escaped_char(c),
{
    c.escape_default().to_string()
}

/// Relies on `str::escape_default`: each character escaped with
/// `char::escape_default`.
#[verifier::external_body]
pub(crate) fn escape_str(s: &str) -> (r: String)
    ensures
        r@ == escaped_str(s@),
{
    s.escape_default().to_string()
}

/// A character that a field name may hold and still be written bare.
pub open spec fn is_bare_char(c: char) -> bool {
    ('a' as int <= c as int <= 'z' as int) || ('A' as int <= c as int <= 'Z' as int) || ('0' as int
        <= c as int <= '9' as int) || c == '_'
}

/// A non-empty name of ASCII letters, digits and underscores.
pub open spec fn is_bare_name(s: Seq<char>) -> bool {
    s.len() > 0 && forall|i: int| 0 <= i < s.len() ==> is_bare_char(#[trigger] s[i])
}

/// `s` with a backslash before each double quote.
pub open spec fn quote_escaped(s: Seq<char>) -> Seq<char>
    decreases s.len(),
{
    if s.len() == 0 {
        seq![]
    } else if s.last() == '"' {
        quote_escaped(s.drop_last()) + seq!['\\', '"']
    } else {
        quote_escaped(s.drop_last()).push(s.last())
    }
}

/// A field name as a path writes it: bare, or else in double quotes.
pub open spec fn name_text(s: Seq<char>) -> Seq<char> {
    if is_bare_name(s) {
        s
    } else {
        seq!['"'] + quote_escaped(s) + seq!['"']
    }
}

/// Whether `name` can be written without quotes.
pub fn is_bare(name: &str) -> (r: bool)
    ensures
        r == is_bare_name(name@),
{
    let n: usize = name.unicode_len();
    if n == 0 {
        return false;
    }
    let mut i: usize = 0;
    while i < n
        invariant
            n == name@.len(),
            i <= n,
            forall|j: int| 0 <= j < i ==> is_bare_char(#[trigger] name@[j]),
        decreases n - i,
    {
        let c = name.get_char(i);
        let bare = ('a' <= c && c <= 'z') || ('A' <= c && c <= 'Z') || ('0' <= c && c <= '9')
            || c == '_';
        if !bare {
            return false;
        }
        i = i + 1;
    }
    true
}

/// Appends `name` to `out` as a path writes it.
pub fn push_name(out: &mut String, name: &str)
    ensures
        final(out)@ == old(out)@ + name_text(name@),
{
    if is_bare(name) {
        out.append(name);
        return;
    }
    proof {
        reveal_strlit("\"");
        reveal_strlit("\\\"");
    }
    let ghost start = out@;
    out.append("\"");
    let n: usize = name.unicode_len();
    let mut i: usize = 0;
    while i < n
        invariant
            n == name@.len(),
            i <= n,
            out@ == start + seq!['"'] + quote_escaped(name@.subrange(0, i as int)),
        decreases n - i,
    {
        let c = name.get_char(i);
        proof {
            reveal_strlit("\\\"");
        }
        let ghost prefix = name@.subrange(0, i + 1);
        assert(prefix.drop_last() =~= name@.subrange(0, i as int));
        assert(prefix.last() == c);
        if c == '"' {
            out.append("\\\"");
            assert(quote_escaped(prefix) == quote_escaped(prefix.drop_last()) + seq!['\\', '"']);
        } else {
            let piece = name.substring_char(i, i + 1);
            assert(piece@ =~= seq![c]);
            out.append(piece);
            assert(quote_escaped(prefix) == quote_escaped(prefix.drop_last()).push(c));
            assert(quote_escaped(prefix.drop_last()).push(c) =~= quote_escaped(prefix.drop_last())
                + seq![c]);
        }
        assert(out@ =~= start + seq!['"'] + quote_escaped(prefix));
        i = i + 1;
    }
    assert(name@.subrange(0, n as int) =~= name@);
    out.append("\"");
}

/// One step of a path: a field name or a list index.
#[derive(Debug)]
pub enum PathElement {
    Name(String),
    Index(usize),
}

impl PathElement {
    pub open spec fn step(&self) -> PathStep {
        match self {
            PathElement::Name(s) => PathStep::Field(s@),
            PathElement::Index(i) => PathStep::Item(*i as nat),
        }
    }
}

/// The steps of a list of path elements.
pub open spec fn steps_of(path: Seq<PathElement>) -> Seq<PathStep> {
    path.map_values(|e: PathElement| e.step())
}

/// A step by itself: a field name as [name_text] writes it, an index as
/// `[index]`.
pub open spec fn element_text(s: PathStep) -> Seq<char> {
    match s {
        PathStep::Field(n) => name_text(n),
        PathStep::Item(i) => seq!['['] + decimal(i) + seq![']'],
    }
}

/// The text of one step of a path: `.name` for a field; `[index]` for an
/// item, after a `.` when the item is the first step.
pub open spec fn step_text(s: PathStep, first: bool) -> Seq<char> {
    match s {
        PathStep::Field(n) => seq!['.'] + element_text(s),
        PathStep::Item(i) => (if first { seq!['.'] } else { seq![] }) + element_text(s),
    }
}

/// The steps of a path written one after the other.
pub open spec fn steps_text(p: Seq<PathStep>) -> Seq<char>
    decreases p.len(),
{
    if p.len() == 0 {
        seq![]
    } else {
        steps_text(p.drop_last()) + step_text(p.last(), p.len() == 1)
    }
}

/// A path as a report writes it: `.` for the root, its steps otherwise.
pub open spec fn path_text(p: Seq<PathStep>) -> Seq<char> {
    if p.len() == 0 {
        seq!['.']
    } else {
        steps_text(p)
    }
}

/// Appends one path element as [element_text] writes it.
pub fn fmt_path_element(element: &PathElement, out: &mut String)
    ensures
        final(out)@ == old(out)@ + element_text(element.step()),
{
    match element {
        PathElement::Name(name) => push_name(out, name.as_str()),
        PathElement::Index(index) => {
            proof {
                reveal_strlit("[");
                reveal_strlit("]");
            }
            out.append("[");
            out.append(unsigned_text(*index as u128).as_str());
            out.append("]");
            assert(out@ =~= old(out)@ + element_text(element.step()));
        },
    }
}

/// Appends one step of a path: [step_text] of `element`, which is the first
/// step if `first` holds.
pub fn fmt_step(element: &PathElement, first: bool, out: &mut String)
    ensures
        final(out)@ == old(out)@ + step_text(element.step(), first),
{
    proof {
        reveal_strlit(".");
    }
    let ghost start = out@;
    match element {
        PathElement::Name(_) => out.append("."),
        PathElement::Index(_) => {
            if first {
                out.append(".");
            }
        },
    }
    fmt_path_element(element, out);
    assert(out@ =~= start + step_text(element.step(), first));
}

/// Appends a whole path as [path_text] writes it.
pub fn fmt_path(path: &[PathElement], out: &mut String)
    ensures
        final(out)@ == old(out)@ + path_text(steps_of(path@)),
{
    proof {
        reveal_strlit(".");
    }
    let n: usize = path.len();
    if n == 0 {
        out.append(".");
        return;
    }
    let ghost start = out@;
    let mut i: usize = 0;
    while i < n
        invariant
            n == path@.len(),
            i <= n,
            out@ == start + steps_text(steps_of(path@.subrange(0, i as int))),
        decreases n - i,
    {
        fmt_step(&path[i], i == 0, out);
        proof {
            let part = steps_of(path@.subrange(0, i + 1));
            assert(part.drop_last() =~= steps_of(path@.subrange(0, i as int)));
            assert(part.last() == path@[i as int].step());
        }
        i = i + 1;
    }
    assert(path@.subrange(0, n as int) =~= path@);
}

/// One line of a report: the path, `: `, and the error.
pub open spec fn line_text(l: (Seq<char>, Seq<char>)) -> Seq<char> {
    l.0 + seq![':', ' '] + l.1
}

/// The lines of a report joined by newlines, with none before the first or
/// after the last.
pub open spec fn report_text(ls: Seq<(Seq<char>, Seq<char>)>) -> Seq<char>
    decreases ls.len(),
{
    if ls.len() == 0 {
        seq![]
    } else if ls.len() == 1 {
        line_text(ls[0])
    } else {
        report_text(ls.drop_last()) + seq!['\n'] + line_text(ls.last())
    }
}

/// The pairs of strings as pairs of their characters.
pub open spec fn pair_views(v: Seq<(String, String)>) -> Seq<(Seq<char>, Seq<char>)> {
    v.map_values(|l: (String, String)| (l.0@, l.1@))
}

/// Joins the lines `path: error` with newlines.
pub fn join_report(lines: &Vec<(String, String)>) -> (r: String)
    ensures
        r@ == report_text(pair_views(lines@)),
{
    let mut out = String::new();
    let n: usize = lines.len();
    let mut j: usize = 0;
    while j < n
        invariant
            n == lines@.len(),
            j <= n,
            out@ == report_text(pair_views(lines@.subrange(0, j as int))),
        decreases n - j,
    {
        proof {
            reveal_strlit("\n");
            reveal_strlit(": ");
        }
        let ghost part = lines@.subrange(0, j + 1);
        assert(pair_views(part).drop_last() =~= pair_views(lines@.subrange(0, j as int)));
        if j > 0 {
            out.append("\n");
        }
        out.append(lines[j].0.as_str());
        out.append(": ");
        out.append(lines[j].1.as_str());
        proof {
            let pv = pair_views(part);
            assert(pv.last() == (lines@[j as int].0@, lines@[j as int].1@));
            if j == 0 {
                assert(out@ =~= line_text(pv[0]));
            } else {
                assert(out@ =~= report_text(pv.drop_last()) + seq!['\n'] + line_text(pv.last()));
            }
        }
        j = j + 1;
    }
    assert(lines@.subrange(0, n as int) =~= lines@);
    out
}

} // verus!

//! Names and values of configuration files: how they are written, read and understood.
use crate::ascii::{alphabetic, alphanumeric, eq_ignore_case, is_alphabetic, is_alphanumeric, is_whitespace, lowered, whitespace};
use crate::bytes::{begins, contains_byte, find_byte, from, lemma_pos_of, lit, pos_of, push_all, starts_with, to_vec};
use crate::git::config::parse::{header_at, lemma_section_name_end, quoted, section_char, spaces_end, value_from, EventView, SectionHeader, SectionHeaderView};
use crate::git::error::GitError;
use crate::git::number::{signed_number, to_signed};
use crate::path::{join, joined};
use vstd::prelude::*;

verus! {

/// `c` can stand in the name of a key.
pub open spec fn name_char(c: u8) -> bool {
    alphanumeric(c) || c == '-' as u8
}

/// Every byte of `s` can stand in the name of a key.
pub open spec fn name_chars(s: Seq<u8>) -> bool {
    forall|i: int| 0 <= i < s.len() ==> name_char(#[trigger] s[i])
}

/// `s` is a name.
pub open spec fn valid_name(s: Seq<u8>) -> bool {
    s.len() > 0 && name_chars(s)
}

/// `s` is the name of a key.
pub open spec fn valid_value_name(s: Seq<u8>) -> bool {
    valid_name(s) && alphabetic(s[0])
}

/// `s` can be the name of a subsection.
pub open spec fn valid_subsection(s: Seq<u8>) -> bool {
    !s.contains('\n' as u8) && !s.contains(0)
}

fn all_name_chars(s: &[u8]) -> (r: bool)
    ensures
        r == name_chars(s@),
{
    let mut i: usize = 0;
    while i < s.len()
        invariant
            i <= s@.len(),
            forall|j: int| 0 <= j < i ==> name_char(#[trigger] s@[j]),
        decreases s@.len() - i,
    {
        if !(is_alphanumeric(s[i]) || s[i] == '-' as u8) {
            return false;
        }
        i += 1;
    }
    true
}

/// Whether `n` is a name.
pub fn is_valid_name(n: &[u8]) -> (r: bool)
    ensures
        r == valid_name(n@),
{
    n.len() != 0 && all_name_chars(n)
}

/// Whether `n` is the name of a key.
pub fn is_valid_value_name(n: &[u8]) -> (r: bool)
    ensures
        r == valid_value_name(n@),
{
    is_valid_name(n) && is_alphabetic(n[0])
}

/// Whether `name` can be the name of a subsection.
pub fn is_valid_subsection(name: &[u8]) -> (r: bool)
    ensures
        r == valid_subsection(name@),
{
    !contains_byte(name, '\n' as u8) && !contains_byte(name, 0)
}

/// `s` with a backslash before each backslash and each quotation mark.
pub open spec fn escaped_subsection(s: Seq<u8>) -> Seq<u8>
    decreases s.len(),
{
    if s.len() == 0 {
        seq![]
    } else {
        let rest = escaped_subsection(from(s, 1));
        if s[0] == '\\' as u8 || s[0] == '"' as u8 {
            seq!['\\' as u8, s[0]] + rest
        } else {
            seq![s[0]] + rest
        }
    }
}

/// `name` with a backslash before each backslash and each quotation mark.
pub fn escape_subsection(name: &[u8]) -> (r: Vec<u8>)
    ensures
        r@ == escaped_subsection(name@),
{
    let mut buf: Vec<u8> = Vec::new();
    let mut i: usize = 0;
    assert(from(name@, 0) =~= name@);
    assert(seq![] + escaped_subsection(name@) =~= escaped_subsection(name@));
    while i < name.len()
        invariant
            i <= name@.len(),
            escaped_subsection(name@) == buf@ + escaped_subsection(from(name@, i as int)),
        decreases name@.len() - i,
    {
        let ghost before = buf@;
        let ghost rest = escaped_subsection(from(name@, i + 1));
        assert(from(from(name@, i as int), 1) =~= from(name@, i + 1));
        let b: u8 = name[i];
        if b == '\\' as u8 || b == '"' as u8 {
            buf.push('\\' as u8);
            buf.push(b);
            assert(before + (seq!['\\' as u8, b] + rest) =~= buf@ + rest);
        } else {
            buf.push(b);
            assert(before + (seq![b] + rest) =~= buf@ + rest);
        }
        i += 1;
    }
    assert(buf@ + escaped_subsection(from(name@, i as int)) =~= buf@);
    buf
}

/// Reading an escaped subsection up to its closing mark gives the subsection back, unless it
/// holds a line end.
proof fn lemma_escaped_read_back(sub: Seq<u8>, d: Seq<u8>, i: int)
    requires
        0 <= i,
        !sub.contains('\n' as u8),
        i + escaped_subsection(sub).len() < d.len(),
        d.subrange(i, i + escaped_subsection(sub).len()) == escaped_subsection(sub),
        d[i + escaped_subsection(sub).len()] == '"' as u8,
    ensures
        quoted(d, i) == Some((sub, i + escaped_subsection(sub).len())),
    decreases sub.len(),
{
    let e = escaped_subsection(sub);
    if sub.len() == 0 {
        assert(sub =~= seq![]);
    } else {
        let tail = from(sub, 1);
        let rest = escaped_subsection(tail);
        assert(sub.contains(sub[0]));
        assert forall|b: u8| tail.contains(b) implies sub.contains(b) by {
            let k = choose|k: int| 0 <= k < tail.len() && tail[k] == b;
            assert(sub[k + 1] == b);
        }
        let n: int = if sub[0] == '\\' as u8 || sub[0] == '"' as u8 {
            2
        } else {
            1
        };
        assert(e.len() == n + rest.len());
        assert forall|j: int| 0 <= j < e.len() implies d[i + j] == e[j] by {
            assert(d.subrange(i, i + e.len())[j] == d[i + j]);
        }
        assert(d.subrange(i + n, i + n + rest.len()) =~= rest) by {
            assert forall|j: int| 0 <= j < rest.len() implies d.subrange(i + n, i + n + rest.len())[j]
                == rest[j] by {
                assert(e[n + j] == rest[j]);
            }
        }
        lemma_escaped_read_back(tail, d, i + n);
        assert(d[i] == e[0]);
        if n == 2 {
            assert(d[i + 1] == e[1]);
        }
        assert(seq![sub[0]] + tail =~= sub);
    }
}

/// The text of the header of a section.
pub open spec fn header_text(h: SectionHeaderView) -> Seq<u8> {
    seq!['[' as u8] + h.name + (match (h.separator, h.subsection_name) {
        (Some(sep), Some(sub)) => if sep == seq!['.' as u8] {
            sep + sub
        } else {
            sep + seq!['"' as u8] + escaped_subsection(sub) + seq!['"' as u8]
        },
        _ => seq![],
    }) + seq![']' as u8]
}

impl SectionHeader {
    /// The header of a section with the given name and subsection.
    pub fn new(name: Vec<u8>, subsection: Option<Vec<u8>>) -> (r: Result<SectionHeader, GitError>)
        ensures
            r is Ok <==> name_chars(name@) && (subsection matches Some(s) ==> valid_subsection(s@)),
            r matches Ok(h) ==> h@.name == name@ && h@.subsection_name
                == crate::git::config::parse::opt_view(subsection) && h@.separator == (
            match subsection {
                None => None,
                Some(_) => Some(seq![' ' as u8]),
            }),
            r matches Err(e) ==> e is Gen,
    {
        if !all_name_chars(name.as_slice()) {
            return Err(GitError::Gen);
        }
        match subsection {
            None => Ok(SectionHeader { name, separator: None, subsection_name: None }),
            Some(sub) => {
                if !is_valid_subsection(sub.as_slice()) {
                    return Err(GitError::Gen);
                }
                let mut sep: Vec<u8> = Vec::new();
                sep.push(' ' as u8);
                assert(sep@ =~= seq![' ' as u8]);
                Ok(SectionHeader { name, separator: Some(sep), subsection_name: Some(sub) })
            },
        }
    }

    /// The text of the header.
    pub fn to_bstring(&self) -> (r: Vec<u8>)
        ensures
            r@ == header_text(self@),
    {
        let mut out: Vec<u8> = Vec::new();
        out.push('[' as u8);
        assert(out@ =~= seq!['[' as u8]);
        push_all(&mut out, self.name.as_slice());
        let ghost head = out@;
        if let Some(sep) = &self.separator {
            if let Some(sub) = &self.subsection_name {
                push_all(&mut out, sep.as_slice());
                if sep.len() == 1 && sep[0] == '.' as u8 {
                    assert(sep@ =~= seq!['.' as u8]);
                    push_all(&mut out, sub.as_slice());
                    assert(out@ =~= head + (sep@ + sub@));
                } else {
                    assert(sep@ != seq!['.' as u8]) by {
                        if sep@ == seq!['.' as u8] {
                            assert(sep@[0] == '.' as u8);
                        }
                    }
                    out.push('"' as u8);
                    let escaped = escape_subsection(sub.as_slice());
                    push_all(&mut out, escaped.as_slice());
                    out.push('"' as u8);
                    assert(out@ =~= head + (sep@ + seq!['"' as u8] + escaped_subsection(sub@)
                        + seq!['"' as u8]));
                }
            }
        }
        let ghost body = out@;
        assert(head + seq![] =~= head);
        out.push(']' as u8);
        assert(out@ =~= body + seq![']' as u8]);
        out
    }
}

/// Reading the header of a section that was made from a name and a subsection gives it back.
pub proof fn law_header_read_back(h: SectionHeaderView, rest: Seq<u8>)
    requires
        name_chars(h.name),
        match h.subsection_name {
            None => h.separator is None && h.name.len() > 0,
            Some(sub) => h.separator == Some(seq![' ' as u8]) && valid_subsection(sub),
        },
    ensures
        header_at(header_text(h) + rest, 0) == Some((h, header_text(h).len() as int)),
{
    let t = header_text(h);
    let d = t + rest;
    let e = 1 + h.name.len() as int;
    assert(d[0] == '[' as u8);
    assert forall|j: int| 1 <= j < e implies section_char(d[j]) && d[j] != '.' as u8 by {
        assert(d[j] == h.name[j - 1]);
        assert(name_char(h.name[j - 1]));
    }
    assert(d.subrange(1, e) =~= h.name);
    match h.subsection_name {
        None => {
            assert(t =~= seq!['[' as u8] + h.name + seq![']' as u8]);
            assert(d[e] == ']' as u8);
            lemma_section_name_end(d, 1, e);
            assert forall|j: int| 0 <= j < h.name.len() implies h.name[j] != '.' as u8 by {
                assert(name_char(h.name[j]));
            }
            crate::bytes::lemma_pos_of_is(h.name, '.' as u8, 0, h.name.len() as int);
        },
        Some(sub) => {
            let sep = seq![' ' as u8];
            let esc = escaped_subsection(sub);
            assert(sep[0] != '.' as u8);
            assert(sep != seq!['.' as u8]) by {
                if sep == seq!['.' as u8] {
                    assert(sep[0] == seq!['.' as u8][0]);
                }
            }
            assert(t =~= seq!['[' as u8] + h.name + (sep + seq!['"' as u8] + esc + seq!['"' as u8])
                + seq![']' as u8]);
            assert(d[e] == ' ' as u8);
            lemma_section_name_end(d, 1, e);
            assert(d[e + 1] == '"' as u8);
            assert(spaces_end(d, e + 1) == e + 1);
            assert(spaces_end(d, e) == e + 1);
            let q = e + 2;
            assert(d.subrange(q, q + esc.len()) =~= esc);
            assert(d[q + esc.len()] == '"' as u8);
            assert(d[q + esc.len() + 1] == ']' as u8);
            lemma_escaped_read_back(sub, d, q);
            assert(d.subrange(e, e + 1) =~= sep);
        },
    }
}

/// A value needs quotation marks to be read as it is.
pub open spec fn needs_quotes(v: Seq<u8>) -> bool {
    ||| v.len() > 0 && (whitespace(v[0]) || whitespace(v.last()))
    ||| v.contains(';' as u8)
    ||| v.contains('#' as u8)
}

/// What stands for `b` in a value.
pub open spec fn escaped_byte(b: u8) -> Seq<u8> {
    if b == '\n' as u8 {
        seq!['\\' as u8, 'n' as u8]
    } else if b == '\t' as u8 {
        seq!['\\' as u8, 't' as u8]
    } else if b == '"' as u8 || b == '\\' as u8 {
        seq!['\\' as u8, b]
    } else {
        seq![b]
    }
}

/// What stands for `v` in a value.
pub open spec fn escaped_bytes(v: Seq<u8>) -> Seq<u8>
    decreases v.len(),
{
    if v.len() == 0 {
        seq![]
    } else {
        escaped_bytes(v.drop_last()) + escaped_byte(v.last())
    }
}

/// `v` as it is written in a configuration file.
pub open spec fn escaped_value(v: Seq<u8>) -> Seq<u8> {
    if needs_quotes(v) {
        seq!['"' as u8] + escaped_bytes(v) + seq!['"' as u8]
    } else {
        escaped_bytes(v)
    }
}

/// `value` as it is written in a configuration file.
pub fn escape_value(value: &[u8]) -> (r: Vec<u8>)
    ensures
        r@ == escaped_value(value@),
{
    let quote = (value.len() > 0 && (is_whitespace(value[0]) || is_whitespace(
        value[value.len() - 1],
    ))) || contains_byte(value, ';' as u8) || contains_byte(value, '#' as u8);
    let mut buf: Vec<u8> = Vec::new();
    if quote {
        buf.push('"' as u8);
    }
    let ghost head = buf@;
    assert(quote ==> head =~= seq!['"' as u8]);
    assert(!quote ==> head =~= seq![]);
    let mut i: usize = 0;
    assert(value@.take(0) =~= seq![]);
    assert(head + seq![] =~= head);
    while i < value.len()
        invariant
            i <= value@.len(),
            buf@ == head + escaped_bytes(value@.take(i as int)),
        decreases value@.len() - i,
    {
        let ghost before = buf@;
        let b: u8 = value[i];
        assert(value@.take(i + 1).drop_last() =~= value@.take(i as int));
        if b == '\n' as u8 {
            buf.push('\\' as u8);
            buf.push('n' as u8);
        } else if b == '\t' as u8 {
            buf.push('\\' as u8);
            buf.push('t' as u8);
        } else if b == '"' as u8 || b == '\\' as u8 {
            buf.push('\\' as u8);
            buf.push(b);
        } else {
            buf.push(b);
        }
        assert(buf@ =~= before + escaped_byte(b));
        assert(buf@ =~= head + escaped_bytes(value@.take(i + 1)));
        i += 1;
    }
    assert(value@.take(i as int) =~= value@);
    if quote {
        let ghost before = buf@;
        buf.push('"' as u8);
        assert(buf@ =~= before + seq!['"' as u8]);
    } else {
        assert(buf@ =~= escaped_bytes(value@));
    }
    buf
}

/// `s` without the quotation marks around it, as often as there are any.
pub open spec fn without_quotes(s: Seq<u8>) -> Seq<u8>
    decreases s.len(),
{
    if s.len() == 2 && s[0] == '"' as u8 && s[1] == '"' as u8 {
        seq![]
    } else if s.len() >= 3 && s[0] == '"' as u8 && s.last() == '"' as u8 && s[s.len() - 2]
        != '\\' as u8 {
        without_quotes(s.subrange(1, s.len() - 1))
    } else {
        s
    }
}

/// `out` followed by what the bytes of `s` from `i` on stand for.
pub open spec fn unescaped_from(s: Seq<u8>, i: int, out: Seq<u8>) -> Seq<u8>
    decreases s.len() - i,
{
    if i >= s.len() {
        out
    } else if s[i] == '\\' as u8 {
        if i + 1 >= s.len() {
            out
        } else if s[i + 1] == 'n' as u8 {
            unescaped_from(s, i + 2, out.push('\n' as u8))
        } else if s[i + 1] == 't' as u8 {
            unescaped_from(s, i + 2, out.push('\t' as u8))
        } else if s[i + 1] == 'b' as u8 {
            unescaped_from(
                s,
                i + 2,
                if out.len() > 0 {
                    out.drop_last()
                } else {
                    out
                },
            )
        } else {
            unescaped_from(s, i + 2, out.push(s[i + 1]))
        }
    } else if s[i] == '"' as u8 {
        unescaped_from(s, i + 1, out)
    } else {
        unescaped_from(s, i + 1, out.push(s[i]))
    }
}

/// The value that `s` writes.
pub open spec fn normalized(s: Seq<u8>) -> Seq<u8> {
    unescaped_from(without_quotes(s), 0, seq![])
}

/// The value that `input` writes: quotation marks are dropped, and a backslash changes the
/// byte after it.
pub fn normalize(input: &[u8]) -> (r: Vec<u8>)
    ensures
        r@ == normalized(input@),
{
    let mut s: &[u8] = input;
    loop
        invariant_except_break
            without_quotes(s@) == without_quotes(input@),
        ensures
            s@ == without_quotes(input@),
        decreases s@.len(),
    {
        if s.len() == 2 && s[0] == '"' as u8 && s[1] == '"' as u8 {
            s = &s[0..0];
            assert(s@ =~= seq![]);
            break;
        }
        if s.len() >= 3 && s[0] == '"' as u8 && s[s.len() - 1] == '"' as u8 && s[s.len() - 2]
            != '\\' as u8 {
            s = &s[1..s.len() - 1];
        } else {
            break;
        }
    }
    let mut out: Vec<u8> = Vec::new();
    let mut i: usize = 0;
    assert(out@ =~= seq![]);
    while i < s.len()
        invariant
            s@ == without_quotes(input@),
            i <= s@.len(),
            unescaped_from(s@, i as int, out@) == normalized(input@),
        decreases s@.len() - i,
    {
        if s[i] == '\\' as u8 {
            if s.len() - i < 2 {
                return out;
            }
            let c: u8 = s[i + 1];
            if c == 'n' as u8 {
                out.push('\n' as u8);
            } else if c == 't' as u8 {
                out.push('\t' as u8);
            } else if c == 'b' as u8 {
                let ghost before = out@;
                let dropped = out.pop();
                assert(before.len() > 0 ==> out@ =~= before.drop_last());
            } else {
                out.push(c);
            }
            i += 2;
        } else if s[i] == '"' as u8 {
            i += 1;
        } else {
            out.push(s[i]);
            i += 1;
        }
    }
    out
}

/// What follows after an escaped byte is unescaped on.
proof fn lemma_unescape_step(s: Seq<u8>, i: int, b: u8, out: Seq<u8>)
    requires
        0 <= i,
        i + escaped_byte(b).len() <= s.len(),
        s.subrange(i, i + escaped_byte(b).len()) == escaped_byte(b),
    ensures
        unescaped_from(s, i, out) == unescaped_from(s, i + escaped_byte(b).len(), out.push(b)),
{
    let e = escaped_byte(b);
    assert(s[i] == s.subrange(i, i + e.len())[0]);
    if e.len() == 2 {
        assert(s[i + 1] == s.subrange(i, i + e.len())[1]);
    }
}

proof fn lemma_unescape(s: Seq<u8>, i: int, v: Seq<u8>, k: int)
    requires
        0 <= i,
        0 <= k <= v.len(),
        i + escaped_bytes(v).len() <= s.len(),
        s.subrange(i, i + escaped_bytes(v).len()) == escaped_bytes(v),
    ensures
        escaped_bytes(v.take(k)).len() <= escaped_bytes(v).len(),
        unescaped_from(s, i, seq![]) == unescaped_from(
            s,
            i + escaped_bytes(v.take(k)).len(),
            v.take(k),
        ),
    decreases k,
{
    lemma_escaped_prefix(v, k);
    if k == 0 {
        assert(v.take(0) =~= seq![]);
    } else {
        lemma_unescape(s, i, v, k - 1);
        let a = escaped_bytes(v.take(k - 1));
        let b = escaped_byte(v[k - 1]);
        assert(v.take(k).drop_last() =~= v.take(k - 1));
        assert(escaped_bytes(v.take(k)) == a + b);
        let e = escaped_bytes(v);
        assert(s.subrange(i + a.len(), i + a.len() + b.len()) =~= b) by {
            assert forall|j: int| 0 <= j < b.len() implies s.subrange(
                i + a.len(),
                i + a.len() + b.len(),
            )[j] == b[j] by {
                assert(e.take(a.len() + b.len() as int)[a.len() + j] == (a + b)[a.len() + j]);
                assert(s.subrange(i, i + e.len())[a.len() + j] == e[a.len() + j]);
            }
        }
        lemma_unescape_step(s, i + a.len(), v[k - 1], v.take(k - 1));
        assert(v.take(k - 1).push(v[k - 1]) =~= v.take(k));
    }
}

/// What stands for the first bytes of `v` begins what stands for `v`.
proof fn lemma_escaped_prefix(v: Seq<u8>, k: int)
    requires
        0 <= k <= v.len(),
    ensures
        escaped_bytes(v.take(k)).len() <= escaped_bytes(v).len(),
        escaped_bytes(v).take(escaped_bytes(v.take(k)).len() as int) == escaped_bytes(v.take(k)),
    decreases v.len(),
{
    if k == v.len() {
        assert(v.take(k) =~= v);
        assert(escaped_bytes(v).take(escaped_bytes(v).len() as int) =~= escaped_bytes(v));
    } else {
        lemma_escaped_prefix(v.drop_last(), k);
        assert(v.drop_last().take(k) =~= v.take(k));
        let n = escaped_bytes(v.take(k)).len() as int;
        assert(escaped_bytes(v).take(n) =~= escaped_bytes(v.drop_last()).take(n));
    }
}

/// What stands for a value begins with no quotation mark, and every quotation mark in it has
/// a backslash before it.
proof fn lemma_escaped_quotes(v: Seq<u8>)
    ensures
        escaped_bytes(v).len() > 0 ==> escaped_bytes(v)[0] != '"' as u8,
        v.len() > 0 ==> escaped_bytes(v).len() > 0,
    decreases v.len(),
{
    if v.len() > 0 {
        lemma_escaped_quotes(v.drop_last());
        let a = escaped_bytes(v.drop_last());
        let b = escaped_byte(v.last());
        if a.len() > 0 {
            assert((a + b)[0] == a[0]);
        } else {
            assert((a + b)[0] == b[0]);
        }
    }
}

/// Writing a value and reading it gives the value back.
pub proof fn law_value_read_back(v: Seq<u8>)
    ensures
        normalized(escaped_value(v)) == v,
{
    let e = escaped_bytes(v);
    let t = escaped_value(v);
    lemma_escaped_quotes(v);
    assert(v.take(v.len() as int) =~= v);
    if needs_quotes(v) {
        assert(t[0] == '"' as u8);
        assert(t.last() == '"' as u8);
        if v.len() == 0 {
            assert(false);
        }
        assert(e.len() > 0);
        assert(t[1] == e[0]);
        assert(t.subrange(1, t.len() - 1) =~= e);
        if t[t.len() - 2] != '\\' as u8 {
            assert(without_quotes(e) == e);
            assert(without_quotes(t) == e);
            assert(e.subrange(0, e.len() as int) =~= e);
            lemma_unescape(e, 0, v, v.len() as int);
        } else {
            assert(without_quotes(t) == t);
            assert(t.subrange(1, 1 + e.len() as int) =~= e);
            assert(unescaped_from(t, 0, seq![]) == unescaped_from(t, 1, seq![]));
            lemma_unescape(t, 1, v, v.len() as int);
            assert(unescaped_from(t, 1 + e.len() as int, v) == unescaped_from(t, 2 + e.len() as int, v));
        }
    } else {
        assert(without_quotes(e) == e);
        assert(e.subrange(0, e.len() as int) =~= e);
        lemma_unescape(e, 0, v, v.len() as int);
    }
}

proof fn lemma_scan_step(d: Seq<u8>, i: int, b: u8, start: int, in_quotes: bool)
    requires
        0 <= i,
        i + escaped_byte(b).len() <= d.len(),
        d.subrange(i, i + escaped_byte(b).len()) == escaped_byte(b),
        !in_quotes ==> b != ';' as u8 && b != '#' as u8,
    ensures
        value_from(d, i, start, in_quotes, false) == value_from(
            d,
            i + escaped_byte(b).len(),
            start,
            in_quotes,
            false,
        ),
{
    let e = escaped_byte(b);
    assert(d[i] == d.subrange(i, i + e.len())[0]);
    if e.len() == 2 {
        assert(d[i + 1] == d.subrange(i, i + e.len())[1]);
    }
}

proof fn lemma_scan(d: Seq<u8>, i: int, v: Seq<u8>, k: int, start: int, in_quotes: bool)
    requires
        0 <= i,
        0 <= k <= v.len(),
        i + escaped_bytes(v).len() <= d.len(),
        d.subrange(i, i + escaped_bytes(v).len()) == escaped_bytes(v),
        !in_quotes ==> !v.contains(';' as u8) && !v.contains('#' as u8),
    ensures
        escaped_bytes(v.take(k)).len() <= escaped_bytes(v).len(),
        value_from(d, i, start, in_quotes, false) == value_from(
            d,
            i + escaped_bytes(v.take(k)).len(),
            start,
            in_quotes,
            false,
        ),
    decreases k,
{
    lemma_escaped_prefix(v, k);
    if k == 0 {
        assert(v.take(0) =~= seq![]);
    } else {
        lemma_scan(d, i, v, k - 1, start, in_quotes);
        let a = escaped_bytes(v.take(k - 1));
        let b = escaped_byte(v[k - 1]);
        assert(v.take(k).drop_last() =~= v.take(k - 1));
        assert(escaped_bytes(v.take(k)) == a + b);
        let e = escaped_bytes(v);
        assert(d.subrange(i + a.len(), i + a.len() + b.len()) =~= b) by {
            assert forall|j: int| 0 <= j < b.len() implies d.subrange(
                i + a.len(),
                i + a.len() + b.len(),
            )[j] == b[j] by {
                assert(e.take(a.len() + b.len() as int)[a.len() + j] == (a + b)[a.len() + j]);
                assert(d.subrange(i, i + e.len())[a.len() + j] == e[a.len() + j]);
            }
        }
        assert(v.contains(v[k - 1]));
        lemma_scan_step(d, i + a.len(), v[k - 1], start, in_quotes);
    }
}

/// A value that was written before a line end is read as one event that holds what was
/// written.
pub proof fn law_written_value_is_one_event(v: Seq<u8>, rest: Seq<u8>)
    ensures
        value_from(escaped_value(v) + seq!['\n' as u8] + rest, 0, 0, false, false) == Some(
            (seq![EventView::Value(escaped_value(v))], escaped_value(v).len() as int),
        ),
{
    let e = escaped_bytes(v);
    let t = escaped_value(v);
    let d = t + seq!['\n' as u8] + rest;
    lemma_escaped_quotes(v);
    assert(v.take(v.len() as int) =~= v);
    assert(d.subrange(0, t.len() as int) =~= t);
    assert(d[t.len() as int] == '\n' as u8);
    if needs_quotes(v) {
        assert(d[0] == '"' as u8);
        assert(d.subrange(1, 1 + e.len() as int) =~= e);
        lemma_scan(d, 1, v, v.len() as int, 0, true);
        assert(d[1 + e.len() as int] == '"' as u8);
        assert(value_from(d, 0, 0, false, false) == value_from(d, 1, 0, true, false));
        assert(value_from(d, 1 + e.len() as int, 0, true, false) == value_from(
            d,
            t.len() as int,
            0,
            false,
            false,
        ));
        assert(!whitespace(d[t.len() - 1]));
    } else {
        assert(d.subrange(0, e.len() as int) =~= e);
        lemma_scan(d, 0, v, v.len() as int, 0, false);
        if v.len() > 0 {
            let b = escaped_byte(v.last());
            let a = escaped_bytes(v.drop_last());
            assert(e == a + b);
            assert(d[t.len() - 1] == b.last());
            assert(!whitespace(v.last()));
            assert(!whitespace(b.last()));
        }
    }
}

/// `v` means yes.
pub open spec fn means_true(v: Seq<u8>) -> bool {
    lowered(v) == lowered(lit("yes")) || lowered(v) == lowered(lit("on")) || lowered(v) == lowered(
        lit("true"),
    )
}

/// `v` means no.
pub open spec fn means_false(v: Seq<u8>) -> bool {
    lowered(v) == lowered(lit("no")) || lowered(v) == lowered(lit("off")) || lowered(v) == lowered(
        lit("false"),
    ) || v.len() == 0
}

/// The truth that `v` writes: a word, or a number that is not zero.
pub open spec fn boolean_value(v: Seq<u8>) -> Option<bool> {
    if means_true(v) {
        Some(true)
    } else if means_false(v) {
        Some(false)
    } else {
        match signed_number(v, 10, i64::MIN as int, i64::MAX as int) {
            Some(n) => Some(n != 0),
            None => None,
        }
    }
}

fn parse_true(value: &[u8]) -> (r: bool)
    ensures
        r == means_true(value@),
{
    eq_ignore_case(value, "yes".as_bytes()) || eq_ignore_case(value, "on".as_bytes())
        || eq_ignore_case(value, "true".as_bytes())
}

fn parse_false(value: &[u8]) -> (r: bool)
    ensures
        r == means_false(value@),
{
    eq_ignore_case(value, "no".as_bytes()) || eq_ignore_case(value, "off".as_bytes())
        || eq_ignore_case(value, "false".as_bytes()) || value.len() == 0
}

/// A truth value of a configuration file.
#[derive(Clone, Copy, Debug, PartialEq, Eq, Structural)]
pub struct Boolean(pub bool);

impl Boolean {
    /// The truth that `value` writes.
    pub fn try_from_bytes(value: &[u8]) -> (r: Result<Boolean, GitError>)
        ensures
            r is Ok <==> boolean_value(value@) is Some,
            r matches Ok(b) ==> boolean_value(value@) == Some(b.0),
            r matches Err(e) ==> e is Gen,
    {
        if parse_true(value) {
            Ok(Boolean(true))
        } else if parse_false(value) {
            Ok(Boolean(false))
        } else {
            match to_signed::<i64>(value) {
                Ok(n) => Ok(Boolean(n != 0)),
                Err(e) => Err(e),
            }
        }
    }
}

/// A key: the name of a section, that of a subsection, and that of a value.
#[derive(Debug)]
pub struct KeyRef<'a> {
    pub section_name: &'a [u8],
    pub subsection_name: Option<&'a [u8]>,
    pub value_name: &'a [u8],
}

pub struct KeyView {
    pub section_name: Seq<u8>,
    pub subsection_name: Option<Seq<u8>>,
    pub value_name: Seq<u8>,
}

impl<'a> View for KeyRef<'a> {
    type V = KeyView;

    open spec fn view(&self) -> KeyView {
        KeyView {
            section_name: self.section_name@,
            subsection_name: match self.subsection_name {
                None => None,
                Some(s) => Some(s@),
            },
            value_name: self.value_name@,
        }
    }
}

/// The last position of `b` in `s`, or -1.
pub open spec fn last_pos(s: Seq<u8>, b: u8) -> int
    decreases s.len(),
{
    if s.len() == 0 {
        -1
    } else if s.last() == b {
        s.len() - 1
    } else {
        last_pos(s.drop_last(), b)
    }
}

/// The key that `s` writes: what is before the first dot, what is after the last dot, and
/// what is between them where these are not the same. `None` where there is no dot, or a name
/// is no text.
pub open spec fn key_of(s: Seq<u8>) -> Option<KeyView> {
    let dot = pos_of(s, '.' as u8, 0);
    if dot >= s.len() {
        None
    } else {
        let rest = from(s, dot + 1);
        let last = last_pos(rest, '.' as u8);
        let key = KeyView {
            section_name: s.subrange(0, dot),
            subsection_name: if last >= 0 {
                Some(rest.subrange(0, last))
            } else {
                None
            },
            value_name: from(rest, last + 1),
        };
        if vstd::utf8::valid_utf8(key.section_name) && vstd::utf8::valid_utf8(key.value_name) {
            Some(key)
        } else {
            None
        }
    }
}

/// Calls `std::str::from_utf8`: whether `s` is valid UTF-8.
#[verifier::external_body]
pub(crate) fn is_utf8(s: &[u8]) -> (r: bool)
    ensures
        r == vstd::utf8::valid_utf8(s@),
{
    std::str::from_utf8(s).is_ok()
}

/// The last position of `b` in `s`.
pub fn rfind_byte(s: &[u8], b: u8) -> (r: Option<usize>)
    ensures
        r is None <==> last_pos(s@, b) < 0,
        r matches Some(p) ==> p == last_pos(s@, b) && p < s@.len(),
        -1 <= last_pos(s@, b) < s@.len(),
{
    let mut i: usize = s.len();
    assert(s@.take(i as int) =~= s@);
    while i > 0
        invariant
            i <= s@.len(),
            last_pos(s@, b) == last_pos(s@.take(i as int), b),
        decreases i,
    {
        assert(s@.take(i as int).drop_last() =~= s@.take(i - 1));
        if s[i - 1] == b {
            return Some(i - 1);
        }
        i -= 1;
    }
    assert(s@.take(0) =~= seq![]);
    None
}

impl<'a> KeyRef<'a> {
    /// The key that `input` writes.
    pub fn hx_parse_unvalidated(input: &'a [u8]) -> (r: Option<KeyRef<'a>>)
        ensures
            r is None <==> key_of(input@) is None,
            r matches Some(k) ==> key_of(input@) == Some(k@),
    {
        proof {
            lemma_pos_of(input@, '.' as u8, 0);
        }
        let len: usize = input.len();
        let dot: usize = match find_byte(input, '.' as u8) {
            Some(p) => p,
            None => {
                return None;
            },
        };
        let section_name: &[u8] = &input[0..dot];
        let rest: &[u8] = &input[dot + 1..len];
        let (subsection_name, value_name): (Option<&[u8]>, &[u8]) = match rfind_byte(
            rest,
            '.' as u8,
        ) {
            Some(p) => (Some(&rest[0..p]), &rest[p + 1..rest.len()]),
            None => (None, rest),
        };
        assert(from(rest@, 0) =~= rest@);
        if !is_utf8(section_name) || !is_utf8(value_name) {
            return None;
        }
        Some(KeyRef { section_name, subsection_name, value_name })
    }
}

/// A path that a configuration file holds.
#[derive(Debug)]
pub struct ConfigPath {
    pub value: Vec<u8>,
    pub is_optional: bool,
}

/// What is known when a path is completed: where git is installed, and the user's home.
#[derive(Clone, Copy, Debug)]
pub struct InterpolationContext<'a> {
    pub git_install_dir: Option<&'a [u8]>,
    pub home_dir: Option<&'a [u8]>,
    /// The homes of other users can be found out.
    pub finds_home_for_user: bool,
}

/// A completed path, or what is still needed to complete it.
#[derive(Debug)]
pub enum Interpolation {
    Path(Vec<u8>),
    /// The path `rest` in the home of the user `name`.
    InHomeOf { name: Vec<u8>, rest: Vec<u8> },
}

pub enum InterpolationView {
    Path(Seq<u8>),
    InHomeOf { name: Seq<u8>, rest: Seq<u8> },
}

impl View for Interpolation {
    type V = InterpolationView;

    open spec fn view(&self) -> InterpolationView {
        match self {
            Interpolation::Path(p) => InterpolationView::Path(p@),
            Interpolation::InHomeOf { name, rest } => InterpolationView::InHomeOf {
                name: name@,
                rest: rest@,
            },
        }
    }
}

/// The bytes of an optional slice.
pub open spec fn opt_slice(v: Option<&[u8]>) -> Option<Seq<u8>> {
    match v {
        None => None,
        Some(s) => Some(s@),
    }
}

/// The completed path that `p` stands for: `%(prefix)/` is where git is installed, `~/` the
/// home of the user, and `~name/` that of the user `name`.
pub open spec fn interpolated(
    p: Seq<u8>,
    install: Option<Seq<u8>>,
    home: Option<Seq<u8>>,
    finds: bool,
) -> Option<InterpolationView> {
    if p.len() == 0 {
        None
    } else if begins(p, lit("%(prefix)/")) {
        match install {
            None => None,
            Some(d) => Some(
                InterpolationView::Path(joined(d, from(p, lit("%(prefix)/").len() as int))),
            ),
        }
    } else if begins(p, lit("~/")) {
        match home {
            None => None,
            Some(d) => Some(InterpolationView::Path(joined(d, from(p, lit("~/").len() as int)))),
        }
    } else if p[0] == '~' as u8 && p.contains('/' as u8) {
        let slash = pos_of(p, '/' as u8, 1);
        let name = p.subrange(1, slash);
        if finds && vstd::utf8::valid_utf8(name) {
            Some(InterpolationView::InHomeOf { name, rest: from(p, slash + 1) })
        } else {
            None
        }
    } else {
        Some(InterpolationView::Path(p))
    }
}

impl ConfigPath {
    /// The path that `value` writes: one that begins with `:(optional)` may be missing.
    pub fn from_bytes(value: Vec<u8>) -> (r: ConfigPath)
        ensures
            r.is_optional == begins(value@, lit(":(optional)")),
            r.value@ == (if begins(value@, lit(":(optional)")) {
                from(value@, lit(":(optional)").len() as int)
            } else {
                value@
            }),
    {
        let prefix: &[u8] = ":(optional)".as_bytes();
        if starts_with(value.as_slice(), prefix) {
            let bytes: &[u8] = value.as_slice();
            ConfigPath { value: to_vec(&bytes[prefix.len()..bytes.len()]), is_optional: true }
        } else {
            ConfigPath { value, is_optional: false }
        }
    }

    /// The completed path.
    pub fn hx_interpolate(&self, context: InterpolationContext<'_>) -> (r: Result<
        Interpolation,
        GitError,
    >)
        ensures
            r matches Ok(i) ==> interpolated(
                self.value@,
                opt_slice(context.git_install_dir),
                opt_slice(context.home_dir),
                context.finds_home_for_user,
            ) == Some(i@),
            r matches Err(e) ==> e is Gen && interpolated(
                self.value@,
                opt_slice(context.git_install_dir),
                opt_slice(context.home_dir),
                context.finds_home_for_user,
            ) is None,
    {
        let p: &[u8] = self.value.as_slice();
        if p.len() == 0 {
            return Err(GitError::Gen);
        }
        let prefix: &[u8] = "%(prefix)/".as_bytes();
        let user_home: &[u8] = "~/".as_bytes();
        if starts_with(p, prefix) {
            match context.git_install_dir {
                Some(dir) => Ok(Interpolation::Path(join(dir, &p[prefix.len()..p.len()]))),
                None => Err(GitError::Gen),
            }
        } else if starts_with(p, user_home) {
            match context.home_dir {
                Some(dir) => Ok(Interpolation::Path(join(dir, &p[user_home.len()..p.len()]))),
                None => Err(GitError::Gen),
            }
        } else if p[0] == '~' as u8 && contains_byte(p, '/' as u8) {
            if !context.finds_home_for_user {
                return Err(GitError::Gen);
            }
            let mut slash: usize = 1;
            while slash < p.len() && p[slash] != '/' as u8
                invariant
                    1 <= slash <= p@.len(),
                    pos_of(p@, '/' as u8, 1) == pos_of(p@, '/' as u8, slash as int),
                decreases p@.len() - slash,
            {
                slash += 1;
            }
            proof {
                lemma_pos_of(p@, '/' as u8, 1);
                let k = choose|k: int| 0 <= k < p@.len() && p@[k] == '/' as u8;
                assert(k >= 1);
            }
            let name: &[u8] = &p[1..slash];
            if !is_utf8(name) {
                return Err(GitError::Gen);
            }
            Ok(
                Interpolation::InHomeOf {
                    name: to_vec(name),
                    rest: to_vec(&p[slash + 1..p.len()]),
                },
            )
        } else {
            Ok(Interpolation::Path(to_vec(p)))
        }
    }
}

} // verus!

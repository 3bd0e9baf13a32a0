//! Character-level utilities: classification of tag-name characters,
//! conversion between `&str` and `Vec<char>`, and XML text escaping.

use vstd::prelude::*;
use vstd::string::*;

verus! {

/// Whether `char::is_alphanumeric` holds of a character. The Unicode
/// classification is not restated here; see `char_is_alphanumeric`.
pub uninterp spec fn is_alnum(c: char) -> bool;

/// Whether `char::is_whitespace` holds of a character. See `char_is_whitespace`.
pub uninterp spec fn is_space(c: char) -> bool;

/// Relies on char::is_alphanumeric: the result depends on the character
/// alone. ASCII letters and digits are alphanumeric; the listed ASCII
/// punctuation characters are not.
#[verifier::external_body]
pub fn char_is_alphanumeric(c: char) -> (r: bool)
    ensures
        r == is_alnum(c),
        ('a' as u32) <= (c as u32) <= ('z' as u32) ==> r,
        ('A' as u32) <= (c as u32) <= ('Z' as u32) ==> r,
        ('0' as u32) <= (c as u32) <= ('9' as u32) ==> r,
        c == '/' || c == '<' || c == '>' || c == '-' || c == '_' || c == '.' || c == ' ' ==> !r,
{
    c.is_alphanumeric()
}

/// Relies on char::is_whitespace: the result depends on the character alone.
/// Space, tab, line feed and carriage return are whitespace; `<` is not.
#[verifier::external_body]
pub fn char_is_whitespace(c: char) -> (r: bool)
    ensures
        r == is_space(c),
        c == ' ' || c == '\t' || c == '\n' || c == '\r' ==> r,
        c == '<' ==> !r,
{
    c.is_whitespace()
}

/// The characters of a string slice, in order.
pub fn str_chars(s: &str) -> (r: Vec<char>)
    ensures
        r@ == s@,
{
    let n: usize = s.unicode_len();
    let mut r: Vec<char> = Vec::new();
    let mut i: usize = 0;
    while i < n
        invariant
            i <= n,
            n == s@.len(),
            r@ == s@.take(i as int),
        decreases n - i,
    {
        let c = s.get_char(i);
        r.push(c);
        i = i + 1;
        proof {
            assert(r@ =~= s@.take(i as int));
        }
    }
    proof {
        assert(s@.take(n as int) =~= s@);
    }
    r
}

/// Relies on String's FromIterator over char: collecting yields exactly the
/// characters, in order.
#[verifier::external_body]
pub fn chars_to_string(v: &Vec<char>) -> (r: String)
    ensures
        r@ == v@,
{
    v.iter().collect()
}

/// Whether two character vectors hold the same characters.
pub fn chars_eq(a: &Vec<char>, b: &Vec<char>) -> (r: bool)
    ensures
        r == (a@ == b@),
{
    if a.len() != b.len() {
        proof {
            assert(a@ != b@);
        }
        return false;
    }
    let n = a.len();
    let mut i: usize = 0;
    while i < n
        invariant
            i <= n,
            n == a@.len() && n == b@.len(),
            forall|j: int| 0 <= j < i ==> a@[j] == b@[j],
        decreases n - i,
    {
        if a[i] != b[i] {
            return false;
        }
        i = i + 1;
    }
    proof {
        assert(a@ =~= b@);
    }
    true
}

/// How one character of text content is rendered: the five XML-special
/// characters become character references, every other character stands
/// as itself.
pub open spec fn escape_char(c: char) -> Seq<char> {
    if c == '&' {
        seq!['&', 'a', 'm', 'p', ';']
    } else if c == '<' {
        seq!['&', 'l', 't', ';']
    } else if c == '>' {
        seq!['&', 'g', 't', ';']
    } else if c == '"' {
        seq!['&', 'q', 'u', 'o', 't', ';']
    } else if c == '\'' {
        seq!['&', 'a', 'p', 'o', 's', ';']
    } else {
        seq![c]
    }
}

/// The escaped form of a whole text, character by character.
pub open spec fn escape_seq(s: Seq<char>) -> Seq<char>
    decreases s.len(),
{
    if s.len() == 0 {
        Seq::empty()
    } else {
        escape_char(s[0]) + escape_seq(s.drop_first())
    }
}

pub proof fn lemma_escape_push(s: Seq<char>, c: char)
    ensures
        escape_seq(s.push(c)) == escape_seq(s) + escape_char(c),
    decreases s.len(),
{
    if s.len() == 0 {
        assert(s.push(c).drop_first() =~= Seq::<char>::empty());
        assert(s.push(c)[0] == c);
        assert(escape_seq(s.push(c)) == escape_char(c) + escape_seq(Seq::<char>::empty()));
        assert(escape_seq(s.push(c)) =~= escape_seq(s) + escape_char(c));
    } else {
        assert(s.push(c).drop_first() =~= s.drop_first().push(c));
        lemma_escape_push(s.drop_first(), c);
        assert(escape_seq(s.push(c)) =~= escape_seq(s) + escape_char(c));
    }
}

/// Appends the escaped form of one character.
pub fn push_escaped(out: &mut Vec<char>, c: char)
    ensures
        final(out)@ == old(out)@ + escape_char(c),
{
    if c == '&' {
        out.push('&');
        out.push('a');
        out.push('m');
        out.push('p');
        out.push(';');
    } else if c == '<' {
        out.push('&');
        out.push('l');
        out.push('t');
        out.push(';');
    } else if c == '>' {
        out.push('&');
        out.push('g');
        out.push('t');
        out.push(';');
    } else if c == '"' {
        out.push('&');
        out.push('q');
        out.push('u');
        out.push('o');
        out.push('t');
        out.push(';');
    } else if c == '\'' {
        out.push('&');
        out.push('a');
        out.push('p');
        out.push('o');
        out.push('s');
        out.push(';');
    } else {
        out.push(c);
    }
    proof {
        assert(out@ =~= old(out)@ + escape_char(c));
    }
}

/// Appends the escaped form of a whole text.
pub fn push_escaped_all(out: &mut Vec<char>, s: &Vec<char>)
    ensures
        final(out)@ == old(out)@ + escape_seq(s@),
{
    let n = s.len();
    let mut i: usize = 0;
    while i < n
        invariant
            i <= n,
            n == s@.len(),
            out@ == old(out)@ + escape_seq(s@.take(i as int)),
        decreases n - i,
    {
        push_escaped(out, s[i]);
        i = i + 1;
        proof {
            assert(s@.take(i as int).drop_last() =~= s@.take(i as int - 1));
            assert(s@.take(i as int) =~= s@.take(i as int - 1).push(s@[i as int - 1]));
            lemma_escape_push(s@.take(i as int - 1), s@[i as int - 1]);
        }
    }
    proof {
        assert(s@.take(n as int) =~= s@);
    }
}

/// Replaces the five XML-special characters of `input` by character
/// references and leaves every other character as it stands.
pub fn escape_xml(input: &str) -> (r: String)
    ensures
        r@ == escape_seq(input@),
{
    let cs = str_chars(input);
    let mut out: Vec<char> = Vec::new();
    push_escaped_all(&mut out, &cs);
    chars_to_string(&out)
}

/// Two spaces of indentation for each nesting depth.
pub open spec fn indent_seq(d: int) -> Seq<char>
    decreases d,
{
    if d <= 0 {
        Seq::empty()
    } else {
        indent_seq(d - 1) + seq![' ', ' ']
    }
}

/// Appends `d` levels of two-space indentation.
pub fn push_indent(out: &mut Vec<char>, d: usize)
    ensures
        final(out)@ == old(out)@ + indent_seq(d as int),
{
    let mut i: usize = 0;
    while i < d
        invariant
            i <= d,
            out@ == old(out)@ + indent_seq(i as int),
        decreases d - i,
    {
        out.push(' ');
        out.push(' ');
        i = i + 1;
        proof {
            assert(out@ =~= old(out)@ + indent_seq(i as int));
        }
    }
}

/// Appends every character of `s`.
pub fn push_all(out: &mut Vec<char>, s: &Vec<char>)
    ensures
        final(out)@ == old(out)@ + s@,
{
    let n = s.len();
    let mut i: usize = 0;
    while i < n
        invariant
            i <= n,
            n == s@.len(),
            out@ == old(out)@ + s@.take(i as int),
        decreases n - i,
    {
        out.push(s[i]);
        i = i + 1;
        proof {
            assert(out@ =~= old(out)@ + s@.take(i as int));
        }
    }
    proof {
        assert(s@.take(n as int) =~= s@);
    }
}

/// Appends every character of the string slice `s`.
pub fn push_str_chars(out: &mut Vec<char>, s: &str)
    ensures
        final(out)@ == old(out)@ + s@,
{
    let cs = str_chars(s);
    push_all(out, &cs);
}

/// A copy of a vector of indices.
pub fn copy_usizes(v: &Vec<usize>) -> (r: Vec<usize>)
    ensures
        r@ == v@,
{
    let n = v.len();
    let mut r: Vec<usize> = Vec::new();
    let mut i: usize = 0;
    while i < n
        invariant
            i <= n,
            n == v@.len(),
            r@ == v@.take(i as int),
        decreases n - i,
    {
        r.push(v[i]);
        i = i + 1;
        proof {
            assert(r@ =~= v@.take(i as int));
        }
    }
    proof {
        assert(v@.take(n as int) =~= v@);
    }
    r
}

} // verus!

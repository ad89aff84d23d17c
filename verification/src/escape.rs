use vstd::prelude::*;

verus! {

/// Relies on `alloc::string::String::push`: appends exactly the given
/// character at the end of the string.
pub assume_specification[ String::push ](s: &mut String, c: char)
    ensures
        final(s)@ == old(s)@.push(c),
;

/// The expansion of one character under the output escape: a newline
/// becomes a single space, a NUL character is deleted outright, and every
/// other character stands unchanged.
pub open spec fn escape_char(c: char) -> Seq<char> {
    if c == '\u{0}' {
        Seq::empty()
    } else if c == '\n' {
        seq![' ']
    } else {
        seq![c]
    }
}

/// The expansion of one character under the query-literal escape:
/// backslash, double quote and single quote each gain a leading
/// backslash, and every other character stands unchanged.
pub open spec fn sparql_escape_char(c: char) -> Seq<char> {
    if c == '\\' {
        seq!['\\', '\\']
    } else if c == '"' {
        seq!['\\', '"']
    } else if c == '\'' {
        seq!['\\', '\'']
    } else {
        seq![c]
    }
}

/// The output escape over a whole character sequence.
pub open spec fn escape_chars(s: Seq<char>) -> Seq<char>
    decreases s.len(),
{
    if s.len() == 0 {
        Seq::empty()
    } else {
        escape_char(s[0]) + escape_chars(s.drop_first())
    }
}

/// The query-literal escape over a whole character sequence.
pub open spec fn sparql_escape_chars(s: Seq<char>) -> Seq<char>
    decreases s.len(),
{
    if s.len() == 0 {
        Seq::empty()
    } else {
        sparql_escape_char(s[0]) + sparql_escape_chars(s.drop_first())
    }
}

/// The output escape distributes over concatenation.
pub proof fn lemma_escape_chars_concat(a: Seq<char>, b: Seq<char>)
    ensures
        escape_chars(a + b) == escape_chars(a) + escape_chars(b),
    decreases a.len(),
{
    if a.len() == 0 {
        assert(a + b =~= b);
        assert(escape_chars(a) + escape_chars(b) =~= escape_chars(b));
    } else {
        assert((a + b)[0] == a[0]);
        assert((a + b).drop_first() =~= a.drop_first() + b);
        lemma_escape_chars_concat(a.drop_first(), b);
        assert(escape_char(a[0]) + (escape_chars(a.drop_first()) + escape_chars(b)) =~= (
        escape_char(a[0]) + escape_chars(a.drop_first())) + escape_chars(b));
    }
}

/// The query-literal escape distributes over concatenation.
pub proof fn lemma_sparql_escape_chars_concat(a: Seq<char>, b: Seq<char>)
    ensures
        sparql_escape_chars(a + b) == sparql_escape_chars(a) + sparql_escape_chars(b),
    decreases a.len(),
{
    if a.len() == 0 {
        assert(a + b =~= b);
        assert(sparql_escape_chars(a) + sparql_escape_chars(b) =~= sparql_escape_chars(b));
    } else {
        assert((a + b)[0] == a[0]);
        assert((a + b).drop_first() =~= a.drop_first() + b);
        lemma_sparql_escape_chars_concat(a.drop_first(), b);
        assert(sparql_escape_char(a[0]) + (sparql_escape_chars(a.drop_first())
            + sparql_escape_chars(b)) =~= (sparql_escape_char(a[0]) + sparql_escape_chars(
            a.drop_first(),
        )) + sparql_escape_chars(b));
    }
}

/// The output escape of a single character is that character's expansion.
proof fn lemma_escape_chars_one(c: char)
    ensures
        escape_chars(seq![c]) == escape_char(c),
{
    assert(seq![c].drop_first() =~= Seq::<char>::empty());
    assert(escape_chars(Seq::<char>::empty()) == Seq::<char>::empty());
    assert(escape_char(c) + Seq::<char>::empty() =~= escape_char(c));
}

/// The query-literal escape of a single character is its expansion.
proof fn lemma_sparql_escape_chars_one(c: char)
    ensures
        sparql_escape_chars(seq![c]) == sparql_escape_char(c),
{
    assert(seq![c].drop_first() =~= Seq::<char>::empty());
    assert(sparql_escape_chars(Seq::<char>::empty()) == Seq::<char>::empty());
    assert(sparql_escape_char(c) + Seq::<char>::empty() =~= sparql_escape_char(c));
}

/// After the output escape no NUL character and no newline is left.
pub proof fn lemma_escape_chars_clean(s: Seq<char>)
    ensures
        forall|i: int|
            0 <= i < escape_chars(s).len() ==> escape_chars(s)[i] != '\u{0}' && escape_chars(s)[i]
                != '\n',
    decreases s.len(),
{
    if s.len() == 0 {
    } else {
        let head = escape_char(s[0]);
        let tail = escape_chars(s.drop_first());
        lemma_escape_chars_clean(s.drop_first());
        assert forall|i: int|
            0 <= i < escape_chars(s).len() implies escape_chars(s)[i] != '\u{0}' && escape_chars(
            s,
        )[i] != '\n' by {
            if i < head.len() {
                assert((head + tail)[i] == head[i]);
            } else {
                assert((head + tail)[i] == tail[i - head.len()]);
            }
        }
    }
}

/// Escape free text for the launcher's record format: newlines are
/// replaced by a single space and NUL characters are deleted, so that the
/// result can stand verbatim inside a wire record.
pub fn escape_result(r: &str) -> (res: String)
    ensures
        res@ == escape_chars(r@),
{
    let n: usize = r.unicode_len();
    let mut out = String::new();
    for i in 0..n
        invariant
            n == r@.len(),
            out@ == escape_chars(r@.take(i as int)),
    {
        let c = r.get_char(i);
        proof {
            assert(r@.take(i + 1) =~= r@.take(i as int) + seq![r@[i as int]]);
            lemma_escape_chars_concat(r@.take(i as int), seq![r@[i as int]]);
            lemma_escape_chars_one(r@[i as int]);
        }
        if c == '\u{0}' {
        } else if c == '\n' {
            out.push(' ');
            assert(out@ =~= escape_chars(r@.take(i + 1)));
        } else {
            out.push(c);
            assert(out@ =~= escape_chars(r@.take(i + 1)));
        }
    }
    proof {
        assert(r@.take(n as int) =~= r@);
    }
    out
}

/// Escape a free-text query for inclusion in a query string literal:
/// backslash, double quote and single quote each get a leading backslash.
pub fn sparql_escape(s: &str) -> (res: String)
    ensures
        res@ == sparql_escape_chars(s@),
{
    let n: usize = s.unicode_len();
    let mut out = String::new();
    for i in 0..n
        invariant
            n == s@.len(),
            out@ == sparql_escape_chars(s@.take(i as int)),
    {
        let c = s.get_char(i);
        proof {
            assert(s@.take(i + 1) =~= s@.take(i as int) + seq![s@[i as int]]);
            lemma_sparql_escape_chars_concat(s@.take(i as int), seq![s@[i as int]]);
            lemma_sparql_escape_chars_one(s@[i as int]);
        }
        if c == '\\' {
            out.push('\\');
            out.push('\\');
            assert(out@ =~= sparql_escape_chars(s@.take(i + 1)));
        } else if c == '"' {
            out.push('\\');
            out.push('"');
            assert(out@ =~= sparql_escape_chars(s@.take(i + 1)));
        } else if c == '\'' {
            out.push('\\');
            out.push('\'');
            assert(out@ =~= sparql_escape_chars(s@.take(i + 1)));
        } else {
            out.push(c);
            assert(out@ =~= sparql_escape_chars(s@.take(i + 1)));
        }
    }
    proof {
        assert(s@.take(n as int) =~= s@);
    }
    out
}

} // verus!

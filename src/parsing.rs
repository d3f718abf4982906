use vstd::prelude::*;
use vstd::string::{StrSliceExecFns, StringExecFns};
use crate::terms::{AbstractFact, AbstractProgram, AbstractRule, AbstractTerm};

verus! {

broadcast use vstd::std_specs::vec::group_vec_axioms;

// ---------------------------------------------------------------------------
// The clause syntax, as text

pub open spec fn is_space(c: char) -> bool {
    c == ' ' || c == '\t' || c == '\n' || c == '\r'
}

pub open spec fn is_name_char(c: char) -> bool {
    ('a' as u32 <= c as u32 <= 'z' as u32) || ('A' as u32 <= c as u32 <= 'Z' as u32) || ('0' as u32 <= c as u32
        <= '9' as u32) || c == '_'
}

/// A variable's name starts with an upper-case letter or an underscore.
pub open spec fn starts_variable(c: char) -> bool {
    ('A' as u32 <= c as u32 <= 'Z' as u32) || c == '_'
}

pub open spec fn is_name(s: Seq<char>) -> bool {
    s.len() > 0 && forall|i: int| 0 <= i < s.len() ==> is_name_char(#[trigger] s[i])
}

/// The text with its white space left out.
pub open spec fn strip(s: Seq<char>) -> Seq<char>
    decreases s.len(),
{
    if s.len() == 0 {
        Seq::empty()
    } else if is_space(s.last()) {
        strip(s.drop_last())
    } else {
        strip(s.drop_last()).push(s.last())
    }
}

/// The parts separated by commas.
pub open spec fn join(parts: Seq<Seq<char>>) -> Seq<char>
    decreases parts.len(),
{
    if parts.len() == 0 {
        Seq::empty()
    } else if parts.len() == 1 {
        parts[0]
    } else {
        join(parts.drop_last()) + seq![','] + parts.last()
    }
}

/// A term written without white space: `name`, or `name(arg,...)`.
pub open spec fn term_text(t: AbstractTerm) -> Seq<char>
    decreases t, 1int,
{
    match t {
        AbstractTerm::Variable(name) => name@,
        AbstractTerm::Constant(name) => name@,
        AbstractTerm::Structure(name, args) => name@ + seq!['('] + join(argument_texts(t)) + seq![')'],
    }
}

/// The texts of a structure's arguments.
pub open spec fn argument_texts(t: AbstractTerm) -> Seq<Seq<char>>
    decreases t, 0int,
{
    match t {
        AbstractTerm::Structure(_, args) => Seq::new(
            args@.len(),
            |i: int| if 0 <= i < args@.len() { term_text(args@[i]) } else { Seq::empty() },
        ),
        _ => Seq::empty(),
    }
}

pub open spec fn texts_of(ts: Seq<AbstractTerm>) -> Seq<Seq<char>> {
    Seq::new(ts.len(), |i: int| term_text(ts[i]))
}

pub open spec fn terms_text(ts: Seq<AbstractTerm>) -> Seq<char> {
    join(texts_of(ts))
}

/// Names are well formed and tell variables from the rest; a structure has
/// at least one argument.
pub open spec fn well_named(t: AbstractTerm) -> bool
    decreases t,
{
    match t {
        AbstractTerm::Variable(name) => is_name(name@) && starts_variable(name@[0]),
        AbstractTerm::Constant(name) => is_name(name@) && !starts_variable(name@[0]),
        AbstractTerm::Structure(name, args) => is_name(name@) && !starts_variable(name@[0]) && args@.len() > 0
            && forall|i: int| 0 <= i < args@.len() ==> well_named(#[trigger] args@[i]),
    }
}

/// A clause written without white space: `term.` or `head:-goal,....`.
pub open spec fn program_text(p: AbstractProgram) -> Seq<char> {
    match p {
        AbstractProgram::Fact(f) => term_text(f.term) + seq!['.'],
        AbstractProgram::Rule(r) => term_text(r.head) + seq![':', '-'] + terms_text(r.goals@) + seq!['.'],
    }
}

pub open spec fn program_well_named(p: AbstractProgram) -> bool {
    match p {
        AbstractProgram::Fact(f) => well_named(f.term),
        AbstractProgram::Rule(r) => well_named(r.head) && r.goals@.len() > 0 && forall|i: int|
            0 <= i < r.goals@.len() ==> well_named(#[trigger] r.goals@[i]),
    }
}

/// Where a clause could not be read.
#[derive(Debug, Clone, Copy, PartialEq, Eq, Structural)]
pub enum ParseError {
    /// The character at this position does not fit the syntax.
    UnexpectedCharacter { position: usize },
    /// The text ends inside a clause.
    UnexpectedEnd,
}

// ---------------------------------------------------------------------------
// Lemmas on white space

pub proof fn lemma_strip_concat(a: Seq<char>, b: Seq<char>)
    ensures
        strip(a + b) == strip(a) + strip(b),
    decreases b.len(),
{
    if b.len() == 0 {
        assert(a + b =~= a);
        assert(strip(b) =~= Seq::<char>::empty());
        assert(strip(a) + strip(b) =~= strip(a));
    } else {
        assert((a + b).drop_last() =~= a + b.drop_last());
        lemma_strip_concat(a, b.drop_last());
        if is_space(b.last()) {
        } else {
            assert(strip(a + b) =~= strip(a) + strip(b));
        }
    }
}

pub proof fn lemma_strip_name(s: Seq<char>)
    requires
        forall|i: int| 0 <= i < s.len() ==> is_name_char(#[trigger] s[i]),
    ensures
        strip(s) == s,
    decreases s.len(),
{
    if s.len() > 0 {
        assert forall|i: int| 0 <= i < s.drop_last().len() implies is_name_char(#[trigger] s.drop_last()[i]) by {
            assert(s.drop_last()[i] == s[i]);
        }
        lemma_strip_name(s.drop_last());
        assert(is_name_char(s[s.len() - 1]));
        assert(s.drop_last().push(s.last()) =~= s);
    }
}

pub proof fn lemma_strip_spaces(s: Seq<char>)
    requires
        forall|i: int| 0 <= i < s.len() ==> is_space(#[trigger] s[i]),
    ensures
        strip(s) == Seq::<char>::empty(),
    decreases s.len(),
{
    if s.len() > 0 {
        assert forall|i: int| 0 <= i < s.drop_last().len() implies is_space(#[trigger] s.drop_last()[i]) by {
            assert(s.drop_last()[i] == s[i]);
        }
        lemma_strip_spaces(s.drop_last());
        assert(is_space(s[s.len() - 1]));
    }
}

pub proof fn lemma_strip_char(c: char)
    requires
        !is_space(c),
    ensures
        strip(seq![c]) == seq![c],
{
    let s = seq![c];
    assert(s.drop_last() =~= Seq::<char>::empty());
    assert(s.last() == c);
    assert(strip(s.drop_last()) == Seq::<char>::empty());
    assert(strip(s) == strip(s.drop_last()).push(c));
    assert(Seq::<char>::empty().push(c) =~= s);
}

/// `s[a..c]` split at `b`.
pub proof fn lemma_split(s: Seq<char>, a: int, b: int, c: int)
    requires
        0 <= a <= b <= c <= s.len(),
    ensures
        strip(s.subrange(a, c)) == strip(s.subrange(a, b)) + strip(s.subrange(b, c)),
{
    assert(s.subrange(a, c) =~= s.subrange(a, b) + s.subrange(b, c));
    lemma_strip_concat(s.subrange(a, b), s.subrange(b, c));
}

pub proof fn lemma_terms_text_push(ts: Seq<AbstractTerm>, t: AbstractTerm)
    ensures
        terms_text(ts.push(t)) == if ts.len() == 0 {
            term_text(t)
        } else {
            terms_text(ts) + seq![','] + term_text(t)
        },
{
    let parts = texts_of(ts.push(t));
    assert(parts.drop_last() =~= texts_of(ts));
    if ts.len() == 0 {
        assert(parts.len() == 1);
    }
}

// ---------------------------------------------------------------------------
// The parser

fn is_space_char(c: char) -> (r: bool)
    ensures
        r == is_space(c),
{
    c == ' ' || c == '\t' || c == '\n' || c == '\r'
}

fn is_name_character(c: char) -> (r: bool)
    ensures
        r == is_name_char(c),
{
    let u = c as u32;
    ('a' as u32 <= u && u <= 'z' as u32) || ('A' as u32 <= u && u <= 'Z' as u32) || ('0' as u32 <= u && u <= '9' as u32)
        || c == '_'
}

/// The first position at or after `pos` that is not white space.
fn skip_spaces(input: &str, len: usize, pos: usize) -> (r: usize)
    requires
        len == input@.len(),
        pos <= len,
    ensures
        pos <= r <= len,
        strip(input@.subrange(pos as int, r as int)) == Seq::<char>::empty(),
        r < len ==> !is_space(input@[r as int]),
{
    let mut p = pos;
    while p < len && is_space_char(input.get_char(p))
        invariant
            len == input@.len(),
            pos <= p <= len,
            forall|i: int| pos <= i < p ==> is_space(#[trigger] input@[i]),
        decreases len - p,
    {
        p += 1;
    }
    proof {
        let sub = input@.subrange(pos as int, p as int);
        assert forall|i: int| 0 <= i < sub.len() implies is_space(#[trigger] sub[i]) by {
            assert(sub[i] == input@[pos + i]);
        }
        lemma_strip_spaces(sub);
    }
    p
}

/// The end of the name that starts at `pos`.
fn name_end(input: &str, len: usize, pos: usize) -> (r: usize)
    requires
        len == input@.len(),
        pos <= len,
    ensures
        pos <= r <= len,
        forall|i: int| pos <= i < r ==> is_name_char(#[trigger] input@[i]),
        r < len ==> !is_name_char(input@[r as int]),
{
    let mut p = pos;
    while p < len && is_name_character(input.get_char(p))
        invariant
            len == input@.len(),
            pos <= p <= len,
            forall|i: int| pos <= i < p ==> is_name_char(#[trigger] input@[i]),
        decreases len - p,
    {
        p += 1;
    }
    p
}

/// Reads one term starting at `pos` (after optional white space).
fn parse_term(input: &str, len: usize, pos: usize) -> (r: Result<(AbstractTerm, usize), ParseError>)
    requires
        len == input@.len(),
        pos <= len,
    ensures
        r matches Ok((t, end)) ==> pos < end <= len && strip(input@.subrange(pos as int, end as int)) == term_text(t)
            && well_named(t),
    decreases len - pos, 1int,
{
    let p = skip_spaces(input, len, pos);
    if p >= len {
        return Err(ParseError::UnexpectedEnd);
    }
    let e = name_end(input, len, p);
    if e == p {
        return Err(ParseError::UnexpectedCharacter { position: p });
    }
    let name = String::from_str(input.substring_char(p, e));
    let ghost name_text = input@.subrange(p as int, e as int);
    proof {
        assert forall|i: int| 0 <= i < name_text.len() implies is_name_char(#[trigger] name_text[i]) by {
            assert(name_text[i] == input@[p + i]);
        }
        lemma_strip_name(name_text);
        lemma_split(input@, pos as int, p as int, e as int);
        assert(name@ == name_text);
        assert(name@[0] == input@[p as int]);
    }
    let q = skip_spaces(input, len, e);
    let first = input.get_char(p);
    let variable_name = first == '_' || ('A' as u32 <= first as u32 && first as u32 <= 'Z' as u32);
    if q < len && input.get_char(q) == '(' {
        if variable_name {
            return Err(ParseError::UnexpectedCharacter { position: q });
        }
        let (args, end) = match parse_terms(input, len, q + 1, ')') {
            Ok(x) => x,
            Err(err) => return Err(err),
        };
        proof {
            lemma_split(input@, pos as int, e as int, q as int);
            lemma_split(input@, pos as int, q as int, q + 1);
            lemma_split(input@, pos as int, q + 1, end as int);
            assert(input@.subrange(q as int, q + 1) =~= seq!['(']);
            lemma_strip_char('(');
        }
        let t = AbstractTerm::Structure(name, args);
        proof {
            assert(argument_texts(t) =~= texts_of(args@));
            assert(term_text(t) == name@ + seq!['('] + terms_text(args@) + seq![')']);
            assert(strip(input@.subrange(pos as int, end as int)) =~= term_text(t));
        }
        Ok((t, end))
    } else {
        let t = if variable_name {
            AbstractTerm::Variable(name)
        } else {
            AbstractTerm::Constant(name)
        };
        Ok((t, e))
    }
}

/// Reads `term, term, ..., term` followed by `close`, starting at `pos`.
fn parse_terms(input: &str, len: usize, pos: usize, close: char) -> (r: Result<(Vec<AbstractTerm>, usize), ParseError>)
    requires
        len == input@.len(),
        pos <= len,
        !is_space(close),
        close != ',',
    ensures
        r matches Ok((ts, end)) ==> pos < end <= len && ts@.len() > 0 && strip(input@.subrange(pos as int, end as int))
            == terms_text(ts@) + seq![close] && forall|i: int| 0 <= i < ts@.len() ==> well_named(#[trigger] ts@[i]),
    decreases len - pos, 2int,
{
    let mut terms: Vec<AbstractTerm> = Vec::new();
    let mut cur = pos;
    let mut done = false;
    proof {
        assert(input@.subrange(pos as int, pos as int) =~= Seq::<char>::empty());
    }
    while !done
        invariant
            len == input@.len(),
            pos <= cur <= len,
            !is_space(close),
            close != ',',
            forall|i: int| 0 <= i < terms@.len() ==> well_named(#[trigger] terms@[i]),
            !done ==> (terms@.len() == 0 && cur == pos) || (terms@.len() > 0 && cur > pos && strip(
                input@.subrange(pos as int, cur as int),
            ) == terms_text(terms@) + seq![',']),
            done ==> terms@.len() > 0 && cur > pos && strip(input@.subrange(pos as int, cur as int)) == terms_text(terms@)
                + seq![close],
        decreases len - cur + (if done { 0int } else { 1int }),
    {
        let (t, after) = match parse_term(input, len, cur) {
            Ok(x) => x,
            Err(err) => return Err(err),
        };
        let ghost before = terms@;
        terms.push(t);
        let s = skip_spaces(input, len, after);
        if s >= len {
            return Err(ParseError::UnexpectedEnd);
        }
        let c = input.get_char(s);
        if c != ',' && c != close {
            return Err(ParseError::UnexpectedCharacter { position: s });
        }
        proof {
            lemma_terms_text_push(before, t);
            lemma_split(input@, pos as int, cur as int, after as int);
            lemma_split(input@, pos as int, after as int, s as int);
            lemma_split(input@, pos as int, s as int, s + 1);
            assert(input@.subrange(s as int, s + 1) =~= seq![c]);
            lemma_strip_char(c);
            if before.len() == 0 {
                assert(input@.subrange(pos as int, cur as int) =~= Seq::<char>::empty());
                assert(strip(input@.subrange(pos as int, s + 1)) =~= terms_text(terms@) + seq![c]);
            } else {
                assert(strip(input@.subrange(pos as int, s + 1)) =~= terms_text(terms@) + seq![c]);
            }
        }
        cur = s + 1;
        if c == close {
            done = true;
        }
    }
    Ok((terms, cur))
}

/// Reads one clause: `term.` (a fact, or a query) or `head :- goal, ... .`
/// White space may stand between the parts.
pub fn parse(input: &str) -> (r: Result<AbstractProgram, ParseError>)
    ensures
        r matches Ok(p) ==> strip(input@) == program_text(p) && program_well_named(p),
{
    let len = input.unicode_len();
    let (head, p) = match parse_term(input, len, 0) {
        Ok(x) => x,
        Err(err) => return Err(err),
    };
    let s = skip_spaces(input, len, p);
    if s >= len {
        return Err(ParseError::UnexpectedEnd);
    }
    let c = input.get_char(s);
    proof {
        lemma_split(input@, 0, p as int, s as int);
    }
    if c == '.' {
        let t = skip_spaces(input, len, s + 1);
        if t != len {
            return Err(ParseError::UnexpectedCharacter { position: t });
        }
        proof {
            lemma_split(input@, 0, s as int, s + 1);
            lemma_split(input@, 0, s + 1, len as int);
            assert(input@.subrange(s as int, s + 1) =~= seq!['.']);
            lemma_strip_char('.');
            assert(input@.subrange(0, len as int) =~= input@);
        }
        Ok(AbstractProgram::Fact(AbstractFact { term: head }))
    } else if c == ':' {
        if s + 1 >= len || input.get_char(s + 1) != '-' {
            return Err(ParseError::UnexpectedCharacter { position: s });
        }
        let (goals, end) = match parse_terms(input, len, s + 2, '.') {
            Ok(x) => x,
            Err(err) => return Err(err),
        };
        let t = skip_spaces(input, len, end);
        if t != len {
            return Err(ParseError::UnexpectedCharacter { position: t });
        }
        proof {
            lemma_split(input@, 0, s as int, s + 2);
            lemma_split(input@, 0, s + 2, end as int);
            lemma_split(input@, 0, end as int, len as int);
            assert(input@.subrange(s as int, s + 2) =~= seq![':'] + seq!['-']);
            lemma_strip_concat(seq![':'], seq!['-']);
            lemma_strip_char(':');
            lemma_strip_char('-');
            assert(input@.subrange(0, len as int) =~= input@);
            assert(strip(input@) =~= term_text(head) + seq![':', '-'] + terms_text(goals@) + seq!['.']);
        }
        Ok(AbstractProgram::Rule(AbstractRule { head, goals }))
    } else {
        Err(ParseError::UnexpectedCharacter { position: s })
    }
}

} // verus!

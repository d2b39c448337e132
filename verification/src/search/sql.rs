//! Pieces of SQL text: names of fields and literals.

use vstd::prelude::*;
use vstd::string::*;

use crate::text;

verus! {

/// The characters that a name may start with.
pub open spec fn starts_name(c: char) -> bool {
    c == '_' || 'a' <= c <= 'z' || 'A' <= c <= 'Z'
}

/// The name of a field: letters, digits and underscores, and no digit first.
pub open spec fn is_field_name(field: Seq<char>) -> bool {
    &&& field.len() > 0
    &&& starts_name(field[0])
    &&& forall|i: int|
        0 <= i < field.len() ==> starts_name(#[trigger] field[i]) || text::is_digit(field[i])
}

fn can_start(c: char) -> (r: bool)
    ensures
        r == starts_name(c),
{
    c == '_' || ('a' <= c && c <= 'z') || ('A' <= c && c <= 'Z')
}

/// Whether a text is the name of a field.
pub fn valid_field(field: &str) -> (r: bool)
    ensures
        r == is_field_name(field@),
{
    let chars: Vec<char> = text::to_chars(field);
    if chars.len() == 0 || !can_start(chars[0]) {
        return false;
    }
    let mut i: usize = 0;
    while i < chars.len()
        invariant
            i <= chars.len(),
            chars@ == field@,
            forall|k: int|
                0 <= k < i ==> starts_name(#[trigger] field@[k]) || text::is_digit(field@[k]),
        decreases chars.len() - i,
    {
        let c: char = chars[i];
        if !can_start(c) && !('0' <= c && c <= '9') {
            assert(!(starts_name(field@[i as int]) || text::is_digit(field@[i as int])));
            return false;
        }
        i = i + 1;
    }
    true
}

/// A text in quotes, with each quote in it doubled.
pub open spec fn quoted(s: Seq<char>) -> Seq<char> {
    "'"@ + text::replaced_char(s, '\'', "''"@) + "'"@
}

/// Quotes a text as an SQL literal.
pub fn sql_string(s: &str) -> (r: String)
    ensures
        r@ == quoted(s@),
{
    let body: String = text::replace_char(s, '\'', "''");
    let mut lit: String = "'".to_owned();
    lit.append(body.as_str());
    lit.append("'");
    lit
}

/// The text of a literal behind its opening quote, and what follows the
/// literal: two quotes stand for one, a single one ends the literal.
pub open spec fn literal_in(t: Seq<char>) -> Option<(Seq<char>, Seq<char>)>
    decreases t.len(),
{
    if t.len() == 0 {
        None
    } else if t[0] == '\'' {
        if t.len() > 1 && t[1] == '\'' {
            match literal_in(t.skip(2)) {
                Some((a, b)) => Some((seq!['\''] + a, b)),
                None => None,
            }
        } else {
            Some((Seq::empty(), t.skip(1)))
        }
    } else {
        match literal_in(t.skip(1)) {
            Some((a, b)) => Some((seq![t[0]] + a, b)),
            None => None,
        }
    }
}

proof fn lemma_replaced_front(s: Seq<char>, c: char, with: Seq<char>)
    requires
        s.len() > 0,
    ensures
        text::replaced_char(s, c, with) == (if s[0] == c {
            with
        } else {
            seq![s[0]]
        }) + text::replaced_char(s.skip(1), c, with),
    decreases s.len(),
{
    let first = if s[0] == c {
        with
    } else {
        seq![s[0]]
    };
    if s.len() == 1 {
        assert(s.drop_last() =~= Seq::<char>::empty());
        assert(s.skip(1) =~= Seq::<char>::empty());
        assert(Seq::<char>::empty() + first =~= first + Seq::<char>::empty());
    } else {
        let front = s.drop_last();
        lemma_replaced_front(front, c, with);
        assert(front.skip(1) =~= s.skip(1).drop_last());
        let last = if s.last() == c {
            with
        } else {
            seq![s.last()]
        };
        let mid = text::replaced_char(front.skip(1), c, with);
        assert(s.skip(1).last() == s.last());
        assert((first + mid) + last =~= first + (mid + last));
    }
}

/// A quoted text is one literal that stands for the text, whatever quotes are
/// in it and whatever follows it, unless a quote follows directly.
pub proof fn law_quoted_text_is_one_literal(s: Seq<char>, rest: Seq<char>)
    requires
        rest.len() == 0 || rest[0] != '\'',
    ensures
        (quoted(s) + rest)[0] == '\'',
        literal_in((quoted(s) + rest).skip(1)) == Some((s, rest)),
{
    reveal_strlit("'");
    reveal_strlit("''");
    let body = text::replaced_char(s, '\'', "''"@);
    assert("'"@ =~= seq!['\'']);
    assert((quoted(s) + rest).skip(1) =~= body + seq!['\''] + rest);
    lemma_literal(s, rest);
}

proof fn lemma_literal(s: Seq<char>, rest: Seq<char>)
    requires
        rest.len() == 0 || rest[0] != '\'',
    ensures
        literal_in(text::replaced_char(s, '\'', "''"@) + seq!['\''] + rest) == Some((s, rest)),
    decreases s.len(),
{
    reveal_strlit("''");
    assert("''"@ =~= seq!['\'', '\'']);
    let body = text::replaced_char(s, '\'', "''"@);
    let t = body + seq!['\''] + rest;
    if s.len() == 0 {
        assert(t =~= seq!['\''] + rest);
        assert(t.skip(1) =~= rest);
        assert(s =~= Seq::<char>::empty());
    } else {
        lemma_replaced_front(s, '\'', "''"@);
        lemma_literal(s.skip(1), rest);
        let inner = text::replaced_char(s.skip(1), '\'', "''"@) + seq!['\''] + rest;
        if s[0] == '\'' {
            assert(t =~= seq!['\'', '\''] + inner);
            assert(t.skip(2) =~= inner);
            assert(seq!['\''] + s.skip(1) =~= s);
        } else {
            assert(t =~= seq![s[0]] + inner);
            assert(t.skip(1) =~= inner);
            assert(seq![s[0]] + s.skip(1) =~= s);
        }
    }
}

} // verus!

//! What conditions in SQL mean.
//!
//! A condition is a text. Words and parentheses count outside of quotes only; `OR` binds
//! less than `AND`, and `AND` less than `NOT` and parentheses. What is left compares a
//! field with literals. [`is_met`] reads a text in this way, and the laws say that the
//! text of a filter is met by the rows that the filter asks for.

use vstd::prelude::*;
use vstd::string::*;

use crate::search::aggs::{both_sql, filters, range_sql, term_condition};
use crate::search::qdrant::{
    all_or_error, all_quoted, any_of, bound_sql, condition_sql, field_parts, field_sql,
    filter_sql, ids_sql, list_sql, literal_of, literals_of, match_part, match_sql, negated,
    results_of, selection_sql,
};
use crate::search::qdrant_types::{
    id_texts, Condition, ConditionList, FieldCondition, Filter, JsonView,
    MatchCondition, PointId,
};
use crate::search::sql;
use crate::text;

verus! {

// ---------------------------------------------------------------------------
// Reading a condition
// ---------------------------------------------------------------------------

/// A value in a condition. A number is held by its text.
pub ghost enum SqlValue {
    Null,
    Bool(bool),
    Number(Seq<char>),
    Text(Seq<char>),
}

/// How a field is compared with a value.
pub ghost enum Comparison {
    Equal,
    Greater,
    AtLeast,
    Less,
    AtMost,
}

/// A row, by which comparisons of its fields hold.
pub type Row = spec_fn(Seq<char>, Comparison, SqlValue) -> bool;

/// Whether a text ends within quotes.
pub open spec fn in_quotes(t: Seq<char>) -> bool
    decreases t.len(),
{
    if t.len() == 0 {
        false
    } else if t.last() == '\'' {
        !in_quotes(t.drop_last())
    } else {
        in_quotes(t.drop_last())
    }
}

/// How many parentheses are open at the end of a text.
pub open spec fn depth(t: Seq<char>) -> int
    decreases t.len(),
{
    if t.len() == 0 {
        0
    } else {
        depth(t.drop_last()) + if in_quotes(t.drop_last()) {
            0int
        } else if t.last() == '(' {
            1
        } else if t.last() == ')' {
            -1
        } else {
            0
        }
    }
}

/// A word stands in a text, outside of quotes and parentheses.
pub open spec fn stands_at(t: Seq<char>, word: Seq<char>, i: int) -> bool {
    &&& 0 <= i
    &&& i + word.len() <= t.len()
    &&& depth(t.take(i)) == 0
    &&& !in_quotes(t.take(i))
    &&& t.subrange(i, i + word.len()) == word
}

/// The last place where a word stands in a text.
pub open spec fn is_last_place(t: Seq<char>, word: Seq<char>, i: int) -> bool {
    &&& stands_at(t, word, i)
    &&& forall|j: int| i < j ==> !stands_at(t, word, j)
}

/// A word stands somewhere in a text.
pub open spec fn has_word(t: Seq<char>, word: Seq<char>) -> bool {
    exists|i: int| is_last_place(t, word, i)
}

/// The last place where a word stands in a text that has it.
pub open spec fn last_place(t: Seq<char>, word: Seq<char>) -> int {
    choose|i: int| is_last_place(t, word, i)
}

/// The value of a literal.
pub open spec fn literal_value(t: Seq<char>) -> SqlValue {
    if t == "NULL"@ {
        SqlValue::Null
    } else if t == "true"@ {
        SqlValue::Bool(true)
    } else if t == "false"@ {
        SqlValue::Bool(false)
    } else if t.len() > 0 && t[0] == '\'' {
        match sql::literal_in(t.skip(1)) {
            Some((s, rest)) => SqlValue::Text(s),
            None => SqlValue::Null,
        }
    } else {
        SqlValue::Number(t)
    }
}

/// A field has one of the values in a list with commas.
#[verifier::opaque]
pub open spec fn is_listed(key: Seq<char>, list: Seq<char>, row: Row) -> bool
    decreases list.len(),
{
    if list.len() == 0 {
        false
    } else if has_word(list, ", "@) && 0 <= last_place(list, ", "@) < list.len() {
        let i = last_place(list, ", "@);
        is_listed(key, list.take(i), row) || row(
            key,
            Comparison::Equal,
            literal_value(list.skip(i + 2)),
        )
    } else {
        row(key, Comparison::Equal, literal_value(list))
    }
}

/// The place of the first space in a text, or its end.
pub open spec fn first_space(t: Seq<char>) -> int
    decreases t.len(),
{
    if t.len() == 0 || t[0] == ' ' {
        0
    } else {
        1 + first_space(t.skip(1))
    }
}

/// A single comparison is met.
pub open spec fn comparison_met(t: Seq<char>, row: Row) -> bool {
    let key = t.take(first_space(t));
    let rest = t.skip(first_space(t));
    if t == "true"@ {
        true
    } else if " = "@.is_prefix_of(rest) {
        row(key, Comparison::Equal, literal_value(rest.skip(3)))
    } else if " > "@.is_prefix_of(rest) {
        row(key, Comparison::Greater, literal_value(rest.skip(3)))
    } else if " < "@.is_prefix_of(rest) {
        row(key, Comparison::Less, literal_value(rest.skip(3)))
    } else if " >= "@.is_prefix_of(rest) {
        row(key, Comparison::AtLeast, literal_value(rest.skip(4)))
    } else if " <= "@.is_prefix_of(rest) {
        row(key, Comparison::AtMost, literal_value(rest.skip(4)))
    } else if " IN ("@.is_prefix_of(rest) && rest.len() >= 6 && rest.last() == ')' {
        is_listed(key, rest.subrange(5, rest.len() - 1), row)
    } else {
        false
    }
}

/// A row meets a condition.
#[verifier::opaque]
pub open spec fn is_met(t: Seq<char>, row: Row) -> bool
    decreases t.len(),
{
    if has_word(t, " OR "@) && 0 <= last_place(t, " OR "@) && last_place(t, " OR "@) + 4 <= t.len() {
        let i = last_place(t, " OR "@);
        is_met(t.take(i), row) || is_met(t.skip(i + 4), row)
    } else if has_word(t, " AND "@) && 0 <= last_place(t, " AND "@) && last_place(t, " AND "@) + 5
        <= t.len() {
        let i = last_place(t, " AND "@);
        is_met(t.take(i), row) && is_met(t.skip(i + 5), row)
    } else if "NOT ("@.is_prefix_of(t) && t.len() >= 6 && t.last() == ')' {
        !is_met(t.subrange(5, t.len() - 1), row)
    } else if t.len() >= 2 && t[0] == '(' && t.last() == ')' {
        is_met(t.subrange(1, t.len() - 1), row)
    } else {
        comparison_met(t, row)
    }
}

// ---------------------------------------------------------------------------
// Texts side by side
// ---------------------------------------------------------------------------

proof fn lemma_words()
    ensures
        " AND "@ == seq![' ', 'A', 'N', 'D', ' '],
        " OR "@ == seq![' ', 'O', 'R', ' '],
        "NOT ("@ == seq!['N', 'O', 'T', ' ', '('],
        "("@ == seq!['('],
        ")"@ == seq![')'],
        ", "@ == seq![',', ' '],
        "true"@ == seq!['t', 'r', 'u', 'e'],
        "false"@ == seq!['f', 'a', 'l', 's', 'e'],
        "NULL"@ == seq!['N', 'U', 'L', 'L'],
        " = "@ == seq![' ', '=', ' '],
        " > "@ == seq![' ', '>', ' '],
        " < "@ == seq![' ', '<', ' '],
        " >= "@ == seq![' ', '>', '=', ' '],
        " <= "@ == seq![' ', '<', '=', ' '],
        " IN ("@ == seq![' ', 'I', 'N', ' ', '('],
        "'"@ == seq!['\''],
        "''"@ == seq!['\'', '\''],
        "AND"@ == seq!['A', 'N', 'D'],
        "OR"@ == seq!['O', 'R'],
        "_id"@ == seq!['_', 'i', 'd'],
{
    reveal_strlit(" AND ");
    reveal_strlit(" OR ");
    reveal_strlit("NOT (");
    reveal_strlit("(");
    reveal_strlit(")");
    reveal_strlit(", ");
    reveal_strlit("true");
    reveal_strlit("false");
    reveal_strlit("NULL");
    reveal_strlit(" = ");
    reveal_strlit(" > ");
    reveal_strlit(" < ");
    reveal_strlit(" >= ");
    reveal_strlit(" <= ");
    reveal_strlit(" IN (");
    reveal_strlit("'");
    reveal_strlit("''");
    reveal_strlit("AND");
    reveal_strlit("OR");
    reveal_strlit("_id");
    assert(" AND "@ =~= seq![' ', 'A', 'N', 'D', ' ']);
    assert(" OR "@ =~= seq![' ', 'O', 'R', ' ']);
    assert("NOT ("@ =~= seq!['N', 'O', 'T', ' ', '(']);
    assert("("@ =~= seq!['(']);
    assert(")"@ =~= seq![')']);
    assert(", "@ =~= seq![',', ' ']);
    assert("true"@ =~= seq!['t', 'r', 'u', 'e']);
    assert("false"@ =~= seq!['f', 'a', 'l', 's', 'e']);
    assert("NULL"@ =~= seq!['N', 'U', 'L', 'L']);
    assert(" = "@ =~= seq![' ', '=', ' ']);
    assert(" > "@ =~= seq![' ', '>', ' ']);
    assert(" < "@ =~= seq![' ', '<', ' ']);
    assert(" >= "@ =~= seq![' ', '>', '=', ' ']);
    assert(" <= "@ =~= seq![' ', '<', '=', ' ']);
    assert(" IN ("@ =~= seq![' ', 'I', 'N', ' ', '(']);
    assert("'"@ =~= seq!['\'']);
    assert("''"@ =~= seq!['\'', '\'']);
    assert("AND"@ =~= seq!['A', 'N', 'D']);
    assert("OR"@ =~= seq!['O', 'R']);
    assert("_id"@ =~= seq!['_', 'i', 'd']);
}

/// Behind a text that ends outside of quotes, another one is read as on its own.
proof fn lemma_behind(a: Seq<char>, b: Seq<char>)
    requires
        !in_quotes(a),
    ensures
        in_quotes(a + b) == in_quotes(b),
        depth(a + b) == depth(a) + depth(b),
    decreases b.len(),
{
    if b.len() == 0 {
        assert(a + b =~= a);
    } else {
        lemma_behind(a, b.drop_last());
        assert((a + b).drop_last() =~= a + b.drop_last());
        assert((a + b).last() == b.last());
    }
}

/// The start of a text that begins with another one.
proof fn lemma_start_behind(a: Seq<char>, b: Seq<char>, i: int)
    requires
        !in_quotes(a),
        a.len() <= i <= a.len() + b.len(),
    ensures
        in_quotes((a + b).take(i)) == in_quotes(b.take(i - a.len())),
        depth((a + b).take(i)) == depth(a) + depth(b.take(i - a.len())),
{
    assert((a + b).take(i) =~= a + b.take(i - a.len()));
    lemma_behind(a, b.take(i - a.len()));
}

/// A text closes what it opens.
pub open spec fn is_balanced(t: Seq<char>) -> bool {
    &&& !in_quotes(t)
    &&& depth(t) == 0
    &&& forall|i: int| 0 <= i <= t.len() ==> depth(#[trigger] t.take(i)) >= 0
}

proof fn lemma_balanced_both(a: Seq<char>, b: Seq<char>)
    requires
        is_balanced(a),
        is_balanced(b),
    ensures
        is_balanced(a + b),
{
    lemma_behind(a, b);
    assert forall|i: int| 0 <= i <= (a + b).len() implies depth(#[trigger] (a + b).take(i))
        >= 0 by {
        if i < a.len() {
            assert((a + b).take(i) =~= a.take(i));
        } else {
            lemma_start_behind(a, b, i);
        }
    }
}

/// A text without quotes and parentheses.
pub open spec fn is_bare_text(t: Seq<char>) -> bool {
    forall|i: int| 0 <= i < t.len() ==> #[trigger] t[i] != '\'' && t[i] != '(' && t[i] != ')'
}

proof fn lemma_bare_text(t: Seq<char>)
    requires
        is_bare_text(t),
    ensures
        is_balanced(t),
        forall|i: int|
            0 <= i <= t.len() ==> depth(#[trigger] t.take(i)) == 0 && !in_quotes(t.take(i)),
    decreases t.len(),
{
    if t.len() > 0 {
        let front = t.drop_last();
        assert(forall|i: int| 0 <= i < front.len() ==> #[trigger] front[i] == t[i]);
        lemma_bare_text(front);
        assert(front.take(front.len() as int) =~= front);
        assert(t[t.len() - 1] == t.last());
        assert forall|i: int| 0 <= i <= t.len() implies depth(#[trigger] t.take(i)) == 0
            && !in_quotes(t.take(i)) by {
            if i < t.len() {
                assert(t.take(i) =~= front.take(i));
            } else {
                assert(t.take(i) =~= t);
            }
        }
    } else {
        assert forall|i: int| 0 <= i <= t.len() implies depth(#[trigger] t.take(i)) == 0
            && !in_quotes(t.take(i)) by {
            assert(t.take(i) =~= t);
        }
    }
}

/// A text with a space on either side.
pub open spec fn padded(t: Seq<char>) -> Seq<char> {
    seq![' '] + t + seq![' ']
}

/// The two words that join conditions.
pub open spec fn is_joint(word: Seq<char>) -> bool {
    word == " AND "@ || word == " OR "@
}

/// Conditions joined by `AND`: a text that closes what it opens, in which `OR` does not
/// stand, and `AND` only between two conditions.
#[verifier::opaque]
pub open spec fn is_conjunction(t: Seq<char>) -> bool {
    &&& is_balanced(t)
    &&& forall|i: int| !stands_at(padded(t), " OR "@, i)
    &&& forall|i: int|
        #[trigger] stands_at(padded(t), " AND "@, i) ==> 1 <= i <= t.len() - 4 && !stands_at(
            padded(t),
            " AND "@,
            i + 4,
        )
}

/// A joint is a word with a space on either side.
proof fn lemma_joint(word: Seq<char>)
    requires
        is_joint(word),
    ensures
        word.len() == if word == " AND "@ {
            5nat
        } else {
            4
        },
        word[0] == ' ',
        word.last() == ' ',
        forall|k: int| 0 < k < word.len() - 1 ==> #[trigger] word[k] != ' ',
        word[1] == if word == " AND "@ {
            'A'
        } else {
            'O'
        },
        is_bare_text(word),
        " AND "@ != " OR "@,
{
    lemma_words();
}

/// Where a joint stands in two texts with a joint between them: in the first, between
/// them, or in the second.
proof fn lemma_places(a: Seq<char>, joint: Seq<char>, b: Seq<char>, word: Seq<char>, i: int)
    requires
        is_balanced(a),
        is_joint(joint),
        is_joint(word),
        stands_at(padded(a + joint + b), word, i),
    ensures
        stands_at(padded(a), word, i) || i == a.len() + 1 && word == joint || stands_at(
            padded(b),
            word,
            i - (a.len() + joint.len()),
        ),
{
    let t = padded(a + joint + b);
    let n = a.len() as int + 1;
    if i + word.len() <= n + 1 {
        lemma_place_in_front(a, joint, b, word, i);
    } else if i >= n + joint.len() - 1 {
        lemma_place_behind(a, joint, b, word, i);
    } else {
        lemma_place_between(a, joint, b, word, i);
    }
}

proof fn lemma_place_in_front(
    a: Seq<char>,
    joint: Seq<char>,
    b: Seq<char>,
    word: Seq<char>,
    i: int,
)
    requires
        is_joint(joint),
        stands_at(padded(a + joint + b), word, i),
        i + word.len() <= a.len() + 2,
    ensures
        stands_at(padded(a), word, i),
{
    lemma_joint(joint);
    let t = padded(a + joint + b);
    assert(joint[0] == ' ');
    assert(padded(a) =~= t.take(a.len() as int + 2));
    assert(t.take(i) =~= padded(a).take(i));
    assert(padded(a).subrange(i, i + word.len()) =~= t.subrange(i, i + word.len()));
}

proof fn lemma_place_behind(
    a: Seq<char>,
    joint: Seq<char>,
    b: Seq<char>,
    word: Seq<char>,
    i: int,
)
    requires
        is_balanced(a),
        is_joint(joint),
        stands_at(padded(a + joint + b), word, i),
        i >= a.len() + joint.len(),
    ensures
        stands_at(padded(b), word, i - (a.len() + joint.len())),
{
    lemma_joint(joint);
    let t = padded(a + joint + b);
    let space = seq![' '];
    let most = joint.drop_last();
    let front = space + a + most;
    assert(is_bare_text(space));
    assert(is_bare_text(most));
    lemma_bare_text(space);
    lemma_bare_text(most);
    lemma_balanced_both(space, a);
    lemma_balanced_both(space + a, most);
    assert(joint.last() == ' ');
    assert(t =~= front + padded(b));
    lemma_start_behind(front, padded(b), i);
    let k = i - front.len();
    assert(padded(b).subrange(k, k + word.len()) =~= t.subrange(i, i + word.len()));
}

proof fn lemma_place_between(
    a: Seq<char>,
    joint: Seq<char>,
    b: Seq<char>,
    word: Seq<char>,
    i: int,
)
    requires
        is_joint(joint),
        is_joint(word),
        stands_at(padded(a + joint + b), word, i),
        a.len() + 2 - word.len() < i < a.len() + joint.len(),
    ensures
        i == a.len() + 1,
        word == joint,
{
    lemma_joint(joint);
    let t = padded(a + joint + b);
    let n = a.len() as int + 1;
    lemma_joint(word);
    let part = t.subrange(i, i + word.len());
    assert(part == word);
    if i == n {
        assert(t[n + 1] == joint[1]);
        assert(part[1] == t[i + 1]);
    } else if i < n {
        assert(t[n] == joint[0]);
        assert(part[n - i] == t[n]);
        assert(word[n - i] != ' ');
    } else {
        assert(t[i] == joint[i - n]);
        assert(part[0] == t[i]);
        assert(joint[i - n] != ' ');
    }
}

/// What stands in a text stands in it with spaces around.
proof fn lemma_stands_padded(t: Seq<char>, word: Seq<char>, i: int)
    ensures
        stands_at(t, word, i) ==> stands_at(padded(t), word, i + 1),
        1 <= i && i + word.len() <= t.len() + 1 && stands_at(padded(t), word, i) ==> stands_at(
            t,
            word,
            i - 1,
        ),
{
    let space = seq![' '];
    lemma_bare_text(space);
    if stands_at(t, word, i) {
        lemma_start_behind(space, t, i + 1);
        assert(padded(t).take(i + 1) =~= (space + t).take(i + 1));
        assert(padded(t).subrange(i + 1, i + 1 + word.len()) =~= t.subrange(i, i + word.len()));
    }
    if 1 <= i && i + word.len() <= t.len() + 1 && stands_at(padded(t), word, i) {
        lemma_start_behind(space, t, i);
        assert(padded(t).take(i) =~= (space + t).take(i));
        assert(padded(t).subrange(i, i + word.len()) =~= t.subrange(i - 1, i - 1 + word.len()));
    }
}

/// The joint between two texts stands between them.
proof fn lemma_joint_stands(a: Seq<char>, joint: Seq<char>, b: Seq<char>)
    requires
        is_balanced(a),
    ensures
        stands_at(a + joint + b, joint, a.len() as int),
{
    let t = a + joint + b;
    assert(t.take(a.len() as int) =~= a);
    assert(t.subrange(a.len() as int, a.len() as int + joint.len()) =~= joint);
}

/// Two conjunctions with `AND` between them are one.
proof fn lemma_conjunction(a: Seq<char>, b: Seq<char>)
    requires
        is_conjunction(a),
        is_conjunction(b),
    ensures
        is_conjunction(a + " AND "@ + b),
{
    reveal(is_conjunction);
    let and = " AND "@;
    let t = a + and + b;
    lemma_joint(and);
    lemma_joint(" OR "@);
    lemma_bare_text(and);
    lemma_balanced_both(a, and);
    lemma_balanced_both(a + and, b);
    assert forall|i: int| !stands_at(padded(t), " OR "@, i) by {
        if stands_at(padded(t), " OR "@, i) {
            lemma_places(a, and, b, " OR "@, i);
        }
    }
    assert forall|i: int| #[trigger] stands_at(padded(t), and, i) implies 1 <= i <= t.len() - 4
        && !stands_at(padded(t), and, i + 4) by {
        lemma_places(a, and, b, and, i);
        if stands_at(padded(t), and, i + 4) {
            lemma_places(a, and, b, and, i + 4);
        }
    }
}

/// A conjunction is read at the last `AND` in it.
proof fn lemma_read_and(t: Seq<char>, i: int, row: Row)
    requires
        is_conjunction(t),
        is_last_place(t, " AND "@, i),
    ensures
        is_met(t, row) == (is_met(t.take(i), row) && is_met(t.skip(i + 5), row)),
{
    reveal(is_met);
    lemma_words();
    lemma_no_or(t);
    lemma_one_last_place(t, " AND "@, i);
}

/// The last `AND` of two conjunctions with `AND` between them is the last one of the
/// second, or that between them.
proof fn lemma_last_and(a: Seq<char>, b: Seq<char>, k: int)
    requires
        is_conjunction(a),
        is_conjunction(b),
        stands_at(a + " AND "@ + b, " AND "@, k),
    ensures
        k <= a.len() || stands_at(b, " AND "@, k - a.len() - 5),
{
    reveal(is_conjunction);
    lemma_words();
    let and = " AND "@;
    let t = a + and + b;
    lemma_stands_padded(t, and, k);
    lemma_places(a, and, b, and, k + 1);
    if k > a.len() {
        let in_b = k + 1 - (a.len() + 5);
        assert(stands_at(padded(b), and, in_b));
        lemma_stands_padded(b, and, in_b);
    }
}

/// A row meets two conjunctions with `AND` between them exactly where it meets both.
proof fn lemma_met_and(a: Seq<char>, b: Seq<char>, row: Row)
    requires
        is_conjunction(a),
        is_conjunction(b),
    ensures
        is_met(a + " AND "@ + b, row) == (is_met(a, row) && is_met(b, row)),
    decreases b.len(),
{
    let and = " AND "@;
    assert(and.len() == 5) by {
        lemma_words();
    }
    let t = a + and + b;
    lemma_conjunction(a, b);
    if has_word(b, and) {
        let j = last_place(b, and);
        assert(is_last_place(b, and, j));
        let b1 = b.take(j);
        let b2 = b.skip(j + 5);
        lemma_front_of_conjunction(b, j);
        lemma_met_and(a, b1, row);
        lemma_read_and(b, j, row);
        assert(b =~= b1 + and + b2);
        let at = a.len() as int + 5 + j;
        assert(t =~= (a + and + b1) + and + b2);
        lemma_conjunction(a, b1);
        lemma_conjunction_is_balanced(a + and + b1);
        lemma_joint_stands(a + and + b1, and, b2);
        assert forall|k: int| at < k implies !stands_at(t, and, k) by {
            if stands_at(t, and, k) {
                lemma_last_and(a, b, k);
            }
        }
        lemma_read_and(t, at, row);
        assert(t.take(at) =~= a + and + b1);
        assert(t.skip(at + 5) =~= b2);
    } else {
        lemma_conjunction_is_balanced(a);
        lemma_joint_stands(a, and, b);
        let at = a.len() as int;
        assert forall|k: int| at < k implies !stands_at(t, and, k) by {
            if stands_at(t, and, k) {
                lemma_last_and(a, b, k);
                lemma_has_word(b, and, k - a.len() - 5);
            }
        }
        lemma_read_and(t, at, row);
        assert(t.take(at) =~= a);
        assert(t.skip(at + 5) =~= b);
    }
}

proof fn lemma_conjunction_is_balanced(t: Seq<char>)
    requires
        is_conjunction(t),
    ensures
        is_balanced(t),
{
    reveal(is_conjunction);
}

/// In a conjunction `OR` does not stand.
proof fn lemma_no_or(t: Seq<char>)
    requires
        is_conjunction(t),
    ensures
        !has_word(t, " OR "@),
{
    reveal(is_conjunction);
    if has_word(t, " OR "@) {
        let i = last_place(t, " OR "@);
        lemma_stands_padded(t, " OR "@, i);
    }
}

/// A word that stands in a text has a last place.
proof fn lemma_has_word(t: Seq<char>, word: Seq<char>, i: int)
    requires
        stands_at(t, word, i),
    ensures
        has_word(t, word),
    decreases t.len() - i,
{
    if exists|j: int| i < j && stands_at(t, word, j) {
        let j = choose|j: int| i < j && stands_at(t, word, j);
        lemma_has_word(t, word, j);
    } else {
        assert(is_last_place(t, word, i));
    }
}

proof fn lemma_one_last_place(t: Seq<char>, word: Seq<char>, i: int)
    requires
        is_last_place(t, word, i),
    ensures
        has_word(t, word),
        last_place(t, word) == i,
{
    let j = last_place(t, word);
    assert(is_last_place(t, word, j));
}

/// What stands before an `AND` in a conjunction is one.
proof fn lemma_front_of_conjunction(b: Seq<char>, j: int)
    requires
        is_conjunction(b),
        stands_at(b, " AND "@, j),
    ensures
        is_conjunction(b.take(j)),
{
    reveal(is_conjunction);
    lemma_words();
    let and = " AND "@;
    let b1 = b.take(j);
    assert(b[j] == b.subrange(j, j + 5)[0]);
    assert(padded(b1) =~= padded(b).take(j + 2));
    assert forall|i: int| 0 <= i <= b1.len() implies depth(#[trigger] b1.take(i)) >= 0 by {
        assert(b1.take(i) =~= b.take(i));
    }
    assert forall|word: Seq<char>, i: int| stands_at(padded(b1), word, i) implies stands_at(
        padded(b),
        word,
        i,
    ) by {
        assert(padded(b1).take(i) =~= padded(b).take(i));
        assert(padded(b1).subrange(i, i + word.len()) =~= padded(b).subrange(i, i + word.len()));
    }
    lemma_stands_padded(b, and, j);
    assert forall|i: int| #[trigger] stands_at(padded(b1), and, i) implies 1 <= i <= b1.len() - 4
        && !stands_at(padded(b1), and, i + 4) by {
        assert(stands_at(padded(b), and, i));
        if i == b1.len() - 3 {
            assert(stands_at(padded(b), and, i + 4));
        }
        if stands_at(padded(b1), and, i + 4) {
            assert(stands_at(padded(b), and, i + 4));
        }
    }
    assert forall|i: int| !stands_at(padded(b1), " OR "@, i) by {
        if stands_at(padded(b1), " OR "@, i) {
            assert(stands_at(padded(b), " OR "@, i));
        }
    }
}

/// A row meets a text and a conjunction with `OR` between them exactly where it meets one
/// of them.
proof fn lemma_met_or(a: Seq<char>, b: Seq<char>, row: Row)
    requires
        is_balanced(a),
        is_conjunction(b),
    ensures
        is_met(a + " OR "@ + b, row) == (is_met(a, row) || is_met(b, row)),
        is_balanced(a + " OR "@ + b),
{
    reveal(is_met);
    reveal(is_conjunction);
    lemma_words();
    let or = " OR "@;
    let t = a + or + b;
    lemma_bare_text(or);
    lemma_balanced_both(a, or);
    lemma_balanced_both(a + or, b);
    lemma_joint_stands(a, or, b);
    let at = a.len() as int;
    assert forall|k: int| at < k implies !stands_at(t, or, k) by {
        if stands_at(t, or, k) {
            lemma_stands_padded(t, or, k);
            lemma_places(a, or, b, or, k + 1);
        }
    }
    assert(is_last_place(t, or, at));
    lemma_one_last_place(t, or, at);
    assert(t.take(at) =~= a);
    assert(t.skip(at + 4) =~= b);
}

// ---------------------------------------------------------------------------
// Conditions of one piece
// ---------------------------------------------------------------------------

/// Outside of quotes and parentheses, no space is followed by the start of a joint.
pub open spec fn is_quiet(t: Seq<char>) -> bool {
    forall|i: int|
        0 <= i < t.len() - 1 && #[trigger] t[i] == ' ' && depth(t.take(i)) == 0 && !in_quotes(
            t.take(i),
        ) ==> t[i + 1] != 'A' && t[i + 1] != 'O'
}

/// A text does not begin with a joint.
pub open spec fn begins_free(t: Seq<char>) -> bool {
    !stands_at(padded(t), " AND "@, 0) && !stands_at(padded(t), " OR "@, 0)
}

/// In a quiet text no joint stands.
proof fn lemma_quiet(t: Seq<char>)
    requires
        is_balanced(t),
        is_quiet(t),
        begins_free(t),
    ensures
        is_conjunction(t),
        !has_word(t, " AND "@),
        !has_word(t, " OR "@),
{
    reveal(is_conjunction);
    lemma_joint(" AND "@);
    lemma_joint(" OR "@);
    assert forall|word: Seq<char>, i: int| is_joint(word) implies !stands_at(
        padded(t),
        word,
        i,
    ) by {
        if stands_at(padded(t), word, i) {
            lemma_joint(word);
            let part = padded(t).subrange(i, i + word.len());
            assert(part[0] == padded(t)[i] && part[1] == padded(t)[i + 1]);
            assert(i > 0);
            let space = seq![' '];
            lemma_bare_text(space);
            lemma_start_behind(space, t, i);
            assert(padded(t).take(i) =~= (space + t).take(i));
            assert(padded(t)[i] == t[i - 1] && padded(t)[i + 1] == t[i]);
        }
    }
    assert(is_joint(" AND "@) && is_joint(" OR "@));
    if has_word(t, " AND "@) {
        lemma_stands_padded(t, " AND "@, last_place(t, " AND "@));
    }
    if has_word(t, " OR "@) {
        lemma_stands_padded(t, " OR "@, last_place(t, " OR "@));
    }
}

/// A text with another first letter than the joints begins free.
proof fn lemma_begins_free(t: Seq<char>)
    requires
        t.len() > 0,
        t[0] != 'A' && t[0] != 'O',
    ensures
        begins_free(t),
{
    lemma_joint(" AND "@);
    lemma_joint(" OR "@);
    assert(padded(t)[1] == t[0]);
    if stands_at(padded(t), " AND "@, 0) {
        assert(padded(t).subrange(0, 5)[1] == padded(t)[1]);
    }
    if stands_at(padded(t), " OR "@, 0) {
        assert(padded(t).subrange(0, 4)[1] == padded(t)[1]);
    }
}

/// What stands within parentheses: nothing of it stands outside of them.
proof fn lemma_within(front: Seq<char>, x: Seq<char>)
    requires
        is_bare_text(front),
        is_balanced(x),
    ensures
        is_balanced(front + seq!['('] + x + seq![')']),
        forall|i: int|
            front.len() < i <= front.len() + x.len() + 1 ==> depth(
                #[trigger] (front + seq!['('] + x + seq![')']).take(i),
            ) > 0,
{
    let open = front + seq!['('];
    let t = open + x + seq![')'];
    lemma_bare_text(front);
    assert(open.drop_last() =~= front);
    assert(front.take(front.len() as int) =~= front);
    assert(depth(open) == 1 && !in_quotes(open));
    lemma_behind(open, x);
    let most = open + x;
    assert(t.drop_last() =~= most);
    assert(depth(t) == 0 && !in_quotes(t));
    assert forall|i: int| front.len() < i <= front.len() + x.len() + 1 implies depth(
        #[trigger] t.take(i),
    ) > 0 by {
        lemma_start_behind(open, x, i);
        assert(t.take(i) =~= most.take(i));
    }
    assert forall|i: int| 0 <= i <= t.len() implies depth(#[trigger] t.take(i)) >= 0 by {
        if i <= front.len() {
            assert(t.take(i) =~= front.take(i));
        } else if i == t.len() {
            assert(t.take(i) =~= t);
        }
    }
}

/// A condition in parentheses.
proof fn lemma_enclosed(x: Seq<char>, row: Row)
    requires
        is_balanced(x),
    ensures
        is_conjunction("("@ + x + ")"@),
        is_met("("@ + x + ")"@, row) == is_met(x, row),
{
    reveal(is_met);
    lemma_words();
    let none = Seq::<char>::empty();
    let t = "("@ + x + ")"@;
    lemma_within(none, x);
    assert(none + seq!['('] + x + seq![')'] =~= t);
    assert(is_quiet(t)) by {
        assert forall|i: int|
            0 <= i < t.len() - 1 && #[trigger] t[i] == ' ' && depth(t.take(i)) == 0 && !in_quotes(
                t.take(i),
            ) implies t[i + 1] != 'A' && t[i + 1] != 'O' by {
            assert(depth(t.take(i)) > 0 || i == 0);
        }
    }
    lemma_begins_free(t);
    lemma_quiet(t);
    assert(!"NOT ("@.is_prefix_of(t)) by {
        if "NOT ("@.is_prefix_of(t) {
            assert("NOT ("@ =~= t.subrange(0, 5));
            assert(t[0] == "NOT ("@[0]);
        }
    }
    assert(t.subrange(1, t.len() - 1) =~= x);
}

/// A condition with `NOT` before it.
proof fn lemma_negated(x: Seq<char>, row: Row)
    requires
        is_balanced(x),
    ensures
        is_conjunction("NOT ("@ + x + ")"@),
        is_met("NOT ("@ + x + ")"@, row) == !is_met(x, row),
{
    reveal(is_met);
    lemma_words();
    let front = seq!['N', 'O', 'T', ' '];
    let t = "NOT ("@ + x + ")"@;
    lemma_within(front, x);
    assert(front + seq!['('] + x + seq![')'] =~= t);
    assert(is_quiet(t)) by {
        assert forall|i: int|
            0 <= i < t.len() - 1 && #[trigger] t[i] == ' ' && depth(t.take(i)) == 0 && !in_quotes(
                t.take(i),
            ) implies t[i + 1] != 'A' && t[i + 1] != 'O' by {
            assert(depth(t.take(i)) > 0 || i <= 4);
            assert(t[0] == 'N' && t[1] == 'O' && t[2] == 'T' && t[3] == ' ' && t[4] == '(');
        }
    }
    lemma_begins_free(t);
    lemma_quiet(t);
    assert("NOT ("@ =~= t.subrange(0, 5));
    assert(t.subrange(5, t.len() - 1) =~= x);
}

// ---------------------------------------------------------------------------
// Joined conditions
// ---------------------------------------------------------------------------

/// Every text is a conjunction.
pub open spec fn all_conjunctions(parts: Seq<Seq<char>>) -> bool {
    forall|i: int| 0 <= i < parts.len() ==> is_conjunction(#[trigger] parts[i])
}

/// A row meets every text.
pub open spec fn meets_all(parts: Seq<Seq<char>>, row: Row) -> bool {
    forall|i: int| 0 <= i < parts.len() ==> is_met(#[trigger] parts[i], row)
}

/// A row meets some text.
pub open spec fn meets_some(parts: Seq<Seq<char>>, row: Row) -> bool {
    exists|i: int| 0 <= i < parts.len() && is_met(#[trigger] parts[i], row)
}

proof fn lemma_joined_and(parts: Seq<Seq<char>>, row: Row)
    requires
        parts.len() > 0,
        all_conjunctions(parts),
    ensures
        is_conjunction(text::joined(parts, " AND "@)),
        is_met(text::joined(parts, " AND "@), row) == meets_all(parts, row),
    decreases parts.len(),
{
    if parts.len() == 1 {
        assert(is_conjunction(parts[0]));
    } else {
        let front = parts.drop_last();
        assert forall|i: int| 0 <= i < front.len() implies is_conjunction(#[trigger] front[i]) by {
            assert(front[i] == parts[i]);
        }
        assert(parts[parts.len() - 1] == parts.last());
        lemma_joined_and(front, row);
        let a = text::joined(front, " AND "@);
        lemma_conjunction(a, parts.last());
        lemma_met_and(a, parts.last(), row);
        if meets_all(parts, row) {
            assert forall|i: int| 0 <= i < front.len() implies is_met(#[trigger] front[i], row) by {
                assert(front[i] == parts[i]);
            }
        }
        if meets_all(front, row) && is_met(parts.last(), row) {
            assert forall|i: int| 0 <= i < parts.len() implies is_met(#[trigger] parts[i], row) by {
                if i < front.len() {
                    assert(front[i] == parts[i]);
                }
            }
        }
    }
}

proof fn lemma_joined_or(parts: Seq<Seq<char>>, row: Row)
    requires
        parts.len() > 0,
        all_conjunctions(parts),
    ensures
        is_balanced(text::joined(parts, " OR "@)),
        is_met(text::joined(parts, " OR "@), row) == meets_some(parts, row),
    decreases parts.len(),
{
    if parts.len() == 1 {
        assert(is_conjunction(parts[0]));
        lemma_conjunction_is_balanced(parts[0]);
    } else {
        let front = parts.drop_last();
        assert forall|i: int| 0 <= i < front.len() implies is_conjunction(#[trigger] front[i]) by {
            assert(front[i] == parts[i]);
        }
        assert(parts[parts.len() - 1] == parts.last());
        lemma_joined_or(front, row);
        let a = text::joined(front, " OR "@);
        lemma_met_or(a, parts.last(), row);
        if meets_some(front, row) {
            let i = choose|i: int| 0 <= i < front.len() && is_met(#[trigger] front[i], row);
            assert(parts[i] == front[i]);
        }
        if meets_some(parts, row) && !is_met(parts.last(), row) {
            let i = choose|i: int| 0 <= i < parts.len() && is_met(#[trigger] parts[i], row);
            assert(front[i] == parts[i]);
        }
    }
}

// ---------------------------------------------------------------------------
// Literals
// ---------------------------------------------------------------------------

/// The text of a number: digits, signs, a point and an exponent.
pub open spec fn is_number_text(n: Seq<char>) -> bool {
    &&& n.len() > 0
    &&& forall|i: int|
        0 <= i < n.len() ==> text::is_digit(#[trigger] n[i]) || n[i] == '+' || n[i] == '-' || n[i]
            == '.' || n[i] == 'e' || n[i] == 'E'
}

/// A text is one literal: outside of quotes there are neither spaces nor commas in it, and
/// it does not begin like a joint.
pub open spec fn is_one_literal(t: Seq<char>) -> bool {
    &&& t.len() > 0
    &&& is_balanced(t)
    &&& t[0] != 'A' && t[0] != 'O'
    &&& forall|i: int|
        0 <= i < t.len() && !in_quotes(#[trigger] t.take(i)) ==> t[i] != ' ' && t[i] != ','
}

proof fn lemma_open_literal(s: Seq<char>)
    ensures
        ({
            let u = "'"@ + text::replaced_char(s, '\'', "''"@);
            &&& in_quotes(u)
            &&& forall|i: int| 0 <= i <= u.len() ==> depth(#[trigger] u.take(i)) == 0
            &&& forall|i: int|
                0 <= i < u.len() && !in_quotes(#[trigger] u.take(i)) ==> u[i] == '\''
        }),
    decreases s.len(),
{
    lemma_words();
    let quote = seq!['\''];
    let u = "'"@ + text::replaced_char(s, '\'', "''"@);
    if s.len() == 0 {
        assert(u =~= quote);
        assert(u.drop_last() =~= Seq::<char>::empty());
        assert(depth(Seq::<char>::empty()) == 0 && !in_quotes(Seq::<char>::empty()));
        assert(u.take(0) =~= Seq::<char>::empty());
        assert(u.take(1) =~= u);
        assert(u.last() == '\'');
        assert(in_quotes(u));
        assert(depth(u) == 0);
        assert forall|i: int| 0 <= i <= u.len() implies depth(#[trigger] u.take(i)) == 0 by {
            assert(i == 0 || i == 1);
        }
    } else {
        let before = "'"@ + text::replaced_char(s.drop_last(), '\'', "''"@);
        let n = before.len() as int;
        lemma_open_literal(s.drop_last());
        assert(before.take(n) =~= before);
        let one = if s.last() == '\'' {
            before + quote
        } else {
            before + seq![s.last()]
        };
        assert(one.drop_last() =~= before);
        assert(one.last() == s.last());
        assert(depth(one) == 0);
        assert(in_quotes(one) == (s.last() != '\''));
        if s.last() == '\'' {
            assert(u =~= one + quote);
            assert(u.drop_last() =~= one);
            assert(u.last() == '\'');
        } else {
            assert(u =~= one);
        }
        assert(in_quotes(u));
        assert forall|i: int| 0 <= i <= u.len() implies depth(#[trigger] u.take(i)) == 0 by {
            if i <= n {
                assert(u.take(i) =~= before.take(i));
            } else if i == n + 1 {
                assert(u.take(i) =~= one);
            } else {
                assert(u.take(i) =~= u);
            }
        }
        assert forall|i: int| 0 <= i < u.len() && !in_quotes(#[trigger] u.take(i)) implies u[i]
            == '\'' by {
            if i < n {
                assert(u.take(i) =~= before.take(i));
                assert(u[i] == before[i]);
            } else if i == n {
                assert(u.take(i) =~= before);
            } else {
                assert(u.take(i) =~= one);
            }
        }
    }
}

proof fn lemma_quoted_is_literal(s: Seq<char>)
    ensures
        is_one_literal(sql::quoted(s)),
        literal_value(sql::quoted(s)) == SqlValue::Text(s),
{
    lemma_words();
    let u = "'"@ + text::replaced_char(s, '\'', "''"@);
    let t = sql::quoted(s);
    let n = u.len() as int;
    lemma_open_literal(s);
    assert(t =~= u + seq!['\'']);
    assert(t.drop_last() =~= u);
    assert(u.take(n) =~= u);
    assert forall|i: int| 0 <= i <= t.len() implies depth(#[trigger] t.take(i)) >= 0 by {
        if i <= n {
            assert(t.take(i) =~= u.take(i));
        } else {
            assert(t.take(i) =~= t);
        }
    }
    assert forall|i: int| 0 <= i < t.len() && !in_quotes(#[trigger] t.take(i)) implies t[i] != ' '
        && t[i] != ',' by {
        assert(t.take(i) =~= u.take(i));
        if i < n {
            assert(t[i] == u[i]);
        }
    }
    assert(t[0] == '\'');
    sql::law_quoted_text_is_one_literal(s, Seq::empty());
    assert(t + Seq::<char>::empty() =~= t);
    assert("NULL"@[0] == 'N' && "true"@[0] == 't' && "false"@[0] == 'f');
}

/// A text without spaces, commas, quotes and parentheses is one literal.
proof fn lemma_bare_literal(t: Seq<char>)
    requires
        t.len() > 0,
        is_bare_text(t),
        t[0] != 'A' && t[0] != 'O',
        forall|i: int| 0 <= i < t.len() ==> #[trigger] t[i] != ' ' && t[i] != ',',
    ensures
        is_one_literal(t),
{
    lemma_bare_text(t);
}

/// The value that a JSON value is compared as. Of a list or an object that is its text.
pub open spec fn value_of(v: JsonView) -> SqlValue {
    match v {
        JsonView::Null => SqlValue::Null,
        JsonView::Bool(b) => SqlValue::Bool(b),
        JsonView::Number(n) => SqlValue::Number(n),
        JsonView::Text(s) => SqlValue::Text(s),
        JsonView::Composite(s) => SqlValue::Text(s),
    }
}

/// A number is held by the text of one.
pub open spec fn is_sound_value(v: JsonView) -> bool {
    v matches JsonView::Number(n) ==> is_number_text(n)
}

/// The literal of a value stands for the value.
pub proof fn law_literals_stand_for_their_values(v: JsonView)
    requires
        is_sound_value(v),
    ensures
        is_one_literal(literal_of(v)),
        literal_value(literal_of(v)) == value_of(v),
{
    lemma_words();
    match v {
        JsonView::Text(s) => lemma_quoted_is_literal(s),
        JsonView::Composite(s) => lemma_quoted_is_literal(s),
        JsonView::Number(n) => {
            assert(text::is_digit(n[0]) || n[0] == '+' || n[0] == '-' || n[0] == '.' || n[0] == 'e'
                || n[0] == 'E');
            lemma_bare_literal(n);
        },
        JsonView::Null => lemma_bare_literal("NULL"@),
        JsonView::Bool(b) => {
            lemma_bare_literal("true"@);
            lemma_bare_literal("false"@);
        },
    }
}

proof fn lemma_number(n: Seq<char>)
    requires
        is_number_text(n),
    ensures
        is_one_literal(n),
        literal_value(n) == SqlValue::Number(n),
{
    law_literals_stand_for_their_values(JsonView::Number(n));
}

// ---------------------------------------------------------------------------
// Comparisons
// ---------------------------------------------------------------------------

/// The name of a field that is none of the words that join conditions.
pub open spec fn is_plain_key(key: Seq<char>) -> bool {
    sql::is_field_name(key) && key != "AND"@ && key != "OR"@
}

proof fn lemma_first_space(key: Seq<char>, rest: Seq<char>)
    requires
        forall|i: int| 0 <= i < key.len() ==> #[trigger] key[i] != ' ',
        rest.len() > 0,
        rest[0] == ' ',
    ensures
        first_space(key + rest) == key.len(),
    decreases key.len(),
{
    let t = key + rest;
    if key.len() == 0 {
        assert(t[0] == ' ');
    } else {
        assert(t[0] == key[0]);
        assert(t.skip(1) =~= key.skip(1) + rest);
        assert(forall|i: int| 0 <= i < key.len() - 1 ==> #[trigger] key.skip(1)[i] == key[i + 1]);
        lemma_first_space(key.skip(1), rest);
    }
}

/// A key before something that begins with a space does not begin like a joint, and it is
/// no negation.
proof fn lemma_key_begins(key: Seq<char>, rest: Seq<char>)
    requires
        is_plain_key(key),
        rest.len() > 1,
        rest[0] == ' ',
        rest[1] != '(',
    ensures
        begins_free(key + rest),
        !"NOT ("@.is_prefix_of(key + rest),
        (key + rest)[0] != '(',
        key + rest != "true"@,
        is_bare_text(key),
        forall|i: int| 0 <= i < key.len() ==> #[trigger] key[i] != ' ',
{
    lemma_words();
    let t = key + rest;
    let p = padded(t);
    let n = key.len() as int;
    assert(forall|i: int| 0 <= i < n ==> #[trigger] t[i] == key[i]);
    assert(t[n] == ' ' && t[n + 1] == rest[1]);
    assert(forall|i: int| 0 <= i < t.len() ==> p[i + 1] == #[trigger] t[i]);
    if stands_at(p, " AND "@, 0) {
        let w = p.subrange(0, 5);
        assert(w[1] == p[1] && w[2] == p[2] && w[3] == p[3] && w[4] == p[4]);
        assert(t[0] == 'A' && t[1] == 'N' && t[2] == 'D' && t[3] == ' ');
        assert(n == 3);
        assert(key =~= "AND"@);
    }
    if stands_at(p, " OR "@, 0) {
        let w = p.subrange(0, 4);
        assert(w[1] == p[1] && w[2] == p[2] && w[3] == p[3]);
        assert(t[0] == 'O' && t[1] == 'R' && t[2] == ' ');
        assert(n == 2);
        assert(key =~= "OR"@);
    }
    if "NOT ("@.is_prefix_of(t) {
        let w = t.subrange(0, 5);
        assert("NOT ("@ =~= w);
        assert(w[0] == t[0] && w[1] == t[1] && w[2] == t[2] && w[3] == t[3] && w[4] == t[4]);
        assert(t[3] == ' ' && t[4] == '(');
        assert(n == 3);
    }
    if t == "true"@ {
        assert("true"@[n] == ' ');
    }
}

/// A comparison by an operator that is a sign between spaces.
pub open spec fn is_operator(op: Seq<char>, c: Comparison) -> bool {
    match c {
        Comparison::Equal => op == " = "@,
        Comparison::Greater => op == " > "@,
        Comparison::AtLeast => op == " >= "@,
        Comparison::Less => op == " < "@,
        Comparison::AtMost => op == " <= "@,
    }
}

proof fn lemma_compared(
    key: Seq<char>,
    op: Seq<char>,
    c: Comparison,
    literal: Seq<char>,
    row: Row,
)
    requires
        is_plain_key(key),
        is_operator(op, c),
        is_one_literal(literal),
    ensures
        is_conjunction(key + op + literal),
        is_met(key + op + literal, row) == row(key, c, literal_value(literal)),
{
    let t = key + op + literal;
    let rest = op + literal;
    assert(t =~= key + rest);
    lemma_operator(op, c, literal);
    lemma_key_begins(key, rest);
    lemma_first_space(key, rest);
    assert(t.take(key.len() as int) =~= key);
    assert(t.skip(key.len() as int) =~= rest);
    lemma_compared_text(key, op, c, literal);
    lemma_quiet(t);
    reveal(is_met);
}

/// What begins with an operator is read by it.
proof fn lemma_operator(op: Seq<char>, c: Comparison, literal: Seq<char>)
    requires
        is_operator(op, c),
    ensures
        op.len() >= 3,
        op[0] == ' ',
        op[1] != '(' && op[1] != 'A' && op[1] != 'O',
        op.last() == ' ',
        forall|i: int| 0 < i < op.len() - 1 ==> #[trigger] op[i] != ' ',
        is_bare_text(op),
        ({
            let rest = op + literal;
            &&& rest.skip(op.len() as int) == literal
            &&& " = "@.is_prefix_of(rest) <==> c is Equal
            &&& " > "@.is_prefix_of(rest) <==> c is Greater
            &&& " < "@.is_prefix_of(rest) <==> c is Less
            &&& " >= "@.is_prefix_of(rest) <==> c is AtLeast
            &&& " <= "@.is_prefix_of(rest) <==> c is AtMost
            &&& op.len() == if c is AtLeast || c is AtMost {
                4nat
            } else {
                3
            }
        }),
{
    lemma_words();
    let rest = op + literal;
    assert(rest.skip(op.len() as int) =~= literal);
    assert(rest.subrange(0, op.len() as int) =~= op);
    let three = rest.subrange(0, 3);
    assert(three[0] == op[0] && three[1] == op[1] && three[2] == op[2]);
    if rest.len() >= 4 {
        let four = rest.subrange(0, 4);
        assert(four[0] == op[0] && four[1] == op[1] && four[2] == op[2]);
    }
}

proof fn lemma_compared_text(key: Seq<char>, op: Seq<char>, c: Comparison, literal: Seq<char>)
    requires
        is_bare_text(key),
        forall|i: int| 0 <= i < key.len() ==> #[trigger] key[i] != ' ',
        is_operator(op, c),
        is_one_literal(literal),
    ensures
        is_balanced(key + op + literal),
        is_quiet(key + op + literal),
{
    lemma_operator(op, c, literal);
    let front = key + op;
    let t = front + literal;
    let n = front.len() as int;
    assert(is_bare_text(front));
    lemma_bare_text(front);
    lemma_balanced_both(front, literal);
    assert forall|i: int|
        0 <= i < t.len() - 1 && #[trigger] t[i] == ' ' && depth(t.take(i)) == 0 && !in_quotes(
            t.take(i),
        ) implies t[i + 1] != 'A' && t[i + 1] != 'O' by {
        if i < key.len() {
            assert(t[i] == key[i]);
        } else if i < n {
            assert(t[i] == op[i - key.len()]);
            if i == key.len() {
                assert(t[i + 1] == op[1]);
            } else {
                assert(i == n - 1);
                assert(t[i + 1] == literal[0]);
            }
        } else {
            lemma_start_behind(front, literal, i);
            assert(t[i] == literal[i - n]);
        }
    }
}

// ---------------------------------------------------------------------------
// Lists
// ---------------------------------------------------------------------------

/// A field has one of the values of literals.
pub open spec fn has_value(key: Seq<char>, literals: Seq<Seq<char>>, row: Row) -> bool {
    exists|i: int|
        0 <= i < literals.len() && row(
            key,
            Comparison::Equal,
            literal_value(#[trigger] literals[i]),
        )
}

/// Every text is one literal.
pub open spec fn all_literals(literals: Seq<Seq<char>>) -> bool {
    forall|i: int| 0 <= i < literals.len() ==> is_one_literal(#[trigger] literals[i])
}

proof fn lemma_comma(a: Seq<char>, b: Seq<char>, k: int)
    requires
        is_balanced(a),
        is_one_literal(b),
        stands_at(a + ", "@ + b, ", "@, k),
    ensures
        k <= a.len(),
{
    lemma_words();
    let front = a + ", "@;
    let t = front + b;
    let part = t.subrange(k, k + 2);
    assert(part[0] == t[k] && part[0] == ',');
    if k == a.len() + 1 {
        assert(t[k] == ' ');
    } else if k > a.len() + 1 {
        assert(is_bare_text(", "@));
        lemma_bare_text(", "@);
        lemma_balanced_both(a, ", "@);
        lemma_start_behind(front, b, k);
        let i = k - front.len();
        assert(t[k] == b[i]);
        assert(!in_quotes(b.take(i)));
    }
}

/// A list is read at its last comma.
proof fn lemma_read_list(key: Seq<char>, a: Seq<char>, last: Seq<char>, row: Row)
    requires
        is_balanced(a),
        is_one_literal(last),
    ensures
        is_listed(key, a + ", "@ + last, row) == (is_listed(key, a, row) || row(
            key,
            Comparison::Equal,
            literal_value(last),
        )),
{
    assert(", "@.len() == 2) by {
        lemma_words();
    }
    let t = a + ", "@ + last;
    let at = a.len() as int;
    lemma_joint_stands(a, ", "@, last);
    assert forall|k: int| at < k implies !stands_at(t, ", "@, k) by {
        if stands_at(t, ", "@, k) {
            lemma_comma(a, last, k);
        }
    }
    lemma_one_last_place(t, ", "@, at);
    assert(t.take(at) =~= a);
    assert(t.skip(at + 2) =~= last);
    reveal(is_listed);
}

proof fn lemma_read_one(key: Seq<char>, t: Seq<char>, row: Row)
    requires
        is_one_literal(t),
    ensures
        is_listed(key, t, row) == row(key, Comparison::Equal, literal_value(t)),
{
    reveal(is_listed);
    if has_word(t, ", "@) {
        let i = last_place(t, ", "@);
        lemma_words();
        assert(t.subrange(i, i + 2)[0] == t[i]);
        assert(!in_quotes(t.take(i)));
    }
}

proof fn lemma_listed(key: Seq<char>, literals: Seq<Seq<char>>, row: Row)
    requires
        all_literals(literals),
    ensures
        is_balanced(text::joined(literals, ", "@)),
        is_listed(key, text::joined(literals, ", "@), row) == has_value(key, literals, row),
    decreases literals.len(),
{
    let t = text::joined(literals, ", "@);
    if literals.len() == 0 {
        reveal(is_listed);
        lemma_bare_text(t);
    } else if literals.len() == 1 {
        assert(is_one_literal(literals[0]));
        lemma_read_one(key, t, row);
        assert(has_value(key, literals, row) == row(
            key,
            Comparison::Equal,
            literal_value(literals[0]),
        ));
    } else {
        let front = literals.drop_last();
        let last = literals.last();
        assert forall|i: int| 0 <= i < front.len() implies is_one_literal(#[trigger] front[i]) by {
            assert(front[i] == literals[i]);
        }
        assert(literals[literals.len() - 1] == last);
        assert(is_one_literal(last));
        lemma_listed(key, front, row);
        let a = text::joined(front, ", "@);
        lemma_read_list(key, a, last, row);
        lemma_joined_balanced(a, last);
        if has_value(key, front, row) {
            let i = choose|i: int|
                0 <= i < front.len() && row(
                    key,
                    Comparison::Equal,
                    literal_value(#[trigger] front[i]),
                );
            assert(literals[i] == front[i]);
        }
        if has_value(key, literals, row) && !row(key, Comparison::Equal, literal_value(last)) {
            let i = choose|i: int|
                0 <= i < literals.len() && row(
                    key,
                    Comparison::Equal,
                    literal_value(#[trigger] literals[i]),
                );
            assert(front[i] == literals[i]);
        }
    }
}

proof fn lemma_joined_balanced(a: Seq<char>, last: Seq<char>)
    requires
        is_balanced(a),
        is_balanced(last),
    ensures
        is_balanced(a + ", "@ + last),
{
    assert(is_bare_text(", "@)) by {
        lemma_words();
    }
    lemma_bare_text(", "@);
    lemma_balanced_both(a, ", "@);
    lemma_balanced_both(a + ", "@, last);
}

proof fn lemma_one_of_text(key: Seq<char>, list: Seq<char>)
    requires
        is_bare_text(key),
        forall|i: int| 0 <= i < key.len() ==> #[trigger] key[i] != ' ',
        is_balanced(list),
    ensures
        is_balanced(key + " IN ("@ + list + ")"@),
        is_quiet(key + " IN ("@ + list + ")"@),
{
    assert(" IN ("@ == seq![' ', 'I', 'N', ' ', '('] && ")"@ == seq![')']) by {
        lemma_words();
    }
    let t = key + " IN ("@ + list + ")"@;
    let front = key + seq![' ', 'I', 'N', ' '];
    let n = key.len() as int;
    assert(is_bare_text(front));
    lemma_within(front, list);
    assert(front + seq!['('] + list + seq![')'] =~= t);
    assert(t[n] == ' ' && t[n + 1] == 'I' && t[n + 2] == 'N' && t[n + 3] == ' ' && t[n + 4] == '(');
    assert forall|i: int|
        0 <= i < t.len() - 1 && #[trigger] t[i] == ' ' && depth(t.take(i)) == 0 && !in_quotes(
            t.take(i),
        ) implies t[i + 1] != 'A' && t[i + 1] != 'O' by {
        if i < n {
            assert(t[i] == key[i]);
        } else if i > n + 4 {
            assert(depth(t.take(i)) > 0);
        }
    }
}

/// What begins with ` IN (` is read as a list.
proof fn lemma_in(list: Seq<char>)
    ensures
        ({
            let rest = " IN ("@ + list + ")"@;
            &&& rest.len() >= 6
            &&& rest[0] == ' ' && rest[1] == 'I' && rest.last() == ')'
            &&& !" = "@.is_prefix_of(rest)
            &&& !" > "@.is_prefix_of(rest)
            &&& !" < "@.is_prefix_of(rest)
            &&& !" >= "@.is_prefix_of(rest)
            &&& !" <= "@.is_prefix_of(rest)
            &&& " IN ("@.is_prefix_of(rest)
            &&& rest.subrange(5, rest.len() - 1) == list
        }),
{
    lemma_words();
    let rest = " IN ("@ + list + ")"@;
    assert(rest.subrange(0, 5) =~= " IN ("@);
    assert(rest.subrange(5, rest.len() - 1) =~= list);
    assert(rest.subrange(0, 3)[1] == rest[1]);
    assert(rest.subrange(0, 4)[1] == rest[1]);
}

proof fn lemma_one_of(key: Seq<char>, literals: Seq<Seq<char>>, row: Row)
    requires
        is_plain_key(key),
        all_literals(literals),
    ensures
        ({
            let t = key + " IN ("@ + text::joined(literals, ", "@) + ")"@;
            is_conjunction(t) && is_met(t, row) == has_value(key, literals, row)
        }),
{
    let list = text::joined(literals, ", "@);
    let t = key + " IN ("@ + list + ")"@;
    let rest = " IN ("@ + list + ")"@;
    assert(t =~= key + rest);
    lemma_listed(key, literals, row);
    lemma_in(list);
    lemma_key_begins(key, rest);
    lemma_first_space(key, rest);
    assert(t.take(key.len() as int) =~= key);
    assert(t.skip(key.len() as int) =~= rest);
    lemma_one_of_text(key, list);
    lemma_quiet(t);
    reveal(is_met);
}

// ---------------------------------------------------------------------------
// Filters
// ---------------------------------------------------------------------------

/// A row has one of the values that a field may have.
pub open spec fn meets_match(key: Seq<char>, m: MatchCondition, row: Row) -> bool {
    match m {
        MatchCondition::Value { value } => row(key, Comparison::Equal, value_of(value@)),
        MatchCondition::Any { any } => exists|i: int|
            0 <= i < any@.len() && row(key, Comparison::Equal, value_of((#[trigger] any@[i])@)),
        MatchCondition::Text { text } => row(key, Comparison::Equal, SqlValue::Text(text@)),
    }
}

/// A row lies within a bound, where there is one.
pub open spec fn meets_bound(
    key: Seq<char>,
    c: Comparison,
    bound: Option<String>,
    row: Row,
) -> bool {
    bound matches Some(n) ==> row(key, c, SqlValue::Number(n@))
}

/// A row meets a condition on a field: it has one of the values and lies within all
/// bounds.
pub open spec fn meets_field(fc: FieldCondition, row: Row) -> bool {
    let key = fc.key@;
    &&& fc.match_ matches Some(m) ==> meets_match(key, m, row)
    &&& fc.range matches Some(r) ==> {
        &&& meets_bound(key, Comparison::Greater, r.gt, row)
        &&& meets_bound(key, Comparison::AtLeast, r.gte, row)
        &&& meets_bound(key, Comparison::Less, r.lt, row)
        &&& meets_bound(key, Comparison::AtMost, r.lte, row)
    }
}

/// A row is one of the points with these identities.
pub open spec fn is_point(ids: Seq<PointId>, row: Row) -> bool {
    exists|i: int|
        0 <= i < ids.len() && row(
            "_id"@,
            Comparison::Equal,
            SqlValue::Text((#[trigger] ids[i]).spec_text()),
        )
}

/// A row meets a condition.
pub open spec fn meets_condition(c: Condition, row: Row) -> bool
    decreases c,
{
    match c {
        Condition::Field(fc) => meets_field(fc, row),
        Condition::HasId { has_id } => is_point(has_id@, row),
        Condition::Filter(f) => meets_filter(*f, row),
    }
}

/// A row meets every condition.
pub open spec fn meets_every(v: Seq<Condition>, row: Row) -> bool
    decreases v,
{
    forall|i: int| 0 <= i < v.len() ==> meets_condition(#[trigger] v[i], row)
}

/// A row meets at least one condition.
pub open spec fn meets_any(v: Seq<Condition>, row: Row) -> bool
    decreases v,
{
    exists|i: int| 0 <= i < v.len() && meets_condition(#[trigger] v[i], row)
}

/// A row meets every condition of a list.
pub open spec fn list_all_met(l: Option<ConditionList>, row: Row) -> bool
    decreases l,
{
    match l {
        None => true,
        Some(ConditionList::One(c)) => meets_condition(*c, row),
        Some(ConditionList::Many(v)) => meets_every(v@, row),
    }
}

/// A row meets at least one condition of a list.
pub open spec fn list_any_met(l: Option<ConditionList>, row: Row) -> bool
    decreases l,
{
    match l {
        None => false,
        Some(ConditionList::One(c)) => meets_condition(*c, row),
        Some(ConditionList::Many(v)) => meets_any(v@, row),
    }
}

/// A list has no conditions.
pub open spec fn lacks_conditions(l: Option<ConditionList>) -> bool {
    match l {
        None => true,
        Some(ConditionList::One(_)) => false,
        Some(ConditionList::Many(v)) => v@.len() == 0,
    }
}

/// A row meets a filter: every condition that must hold, at least one of those that
/// should where there are any, and none of those that must not.
pub open spec fn meets_filter(f: Filter, row: Row) -> bool
    decreases f,
{
    &&& list_all_met(f.must, row)
    &&& lacks_conditions(f.should) || list_any_met(f.should, row)
    &&& !list_any_met(f.must_not, row)
}

/// Numbers are held by the texts of numbers, and the field is not called like a word that
/// joins conditions.
pub open spec fn is_sound_field(fc: FieldCondition) -> bool {
    &&& fc.key@ != "AND"@ && fc.key@ != "OR"@
    &&& match fc.match_ {
        Some(MatchCondition::Value { value }) => is_sound_value(value@),
        Some(MatchCondition::Any { any }) => forall|i: int|
            0 <= i < any@.len() ==> is_sound_value((#[trigger] any@[i])@),
        _ => true,
    }
    &&& fc.range matches Some(r) ==> {
        &&& r.gt matches Some(n) ==> is_number_text(n@)
        &&& r.gte matches Some(n) ==> is_number_text(n@)
        &&& r.lt matches Some(n) ==> is_number_text(n@)
        &&& r.lte matches Some(n) ==> is_number_text(n@)
    }
}

/// Every condition on a field within a condition is sound.
pub open spec fn is_sound_condition(c: Condition) -> bool
    decreases c,
{
    match c {
        Condition::Field(fc) => is_sound_field(fc),
        Condition::HasId { has_id } => true,
        Condition::Filter(f) => is_sound_filter(*f),
    }
}

/// Every condition is sound.
pub open spec fn are_sound(v: Seq<Condition>) -> bool
    decreases v,
{
    forall|i: int| 0 <= i < v.len() ==> is_sound_condition(#[trigger] v[i])
}

/// Every condition of a list is sound.
pub open spec fn is_sound_list(l: Option<ConditionList>) -> bool
    decreases l,
{
    match l {
        None => true,
        Some(ConditionList::One(c)) => is_sound_condition(*c),
        Some(ConditionList::Many(v)) => are_sound(v@),
    }
}

/// Every condition on a field within a filter is sound.
pub open spec fn is_sound_filter(f: Filter) -> bool
    decreases f,
{
    is_sound_list(f.must) && is_sound_list(f.should) && is_sound_list(f.must_not)
}

proof fn lemma_match(key: Seq<char>, m: MatchCondition, row: Row)
    requires
        is_plain_key(key),
        match m {
            MatchCondition::Value { value } => is_sound_value(value@),
            MatchCondition::Any { any } => forall|i: int|
                0 <= i < any@.len() ==> is_sound_value((#[trigger] any@[i])@),
            _ => true,
        },
    ensures
        is_conjunction(match_sql(key, m)),
        is_met(match_sql(key, m), row) == meets_match(key, m, row),
{
    match m {
        MatchCondition::Value { value } => {
            law_literals_stand_for_their_values(value@);
            lemma_compared(key, " = "@, Comparison::Equal, literal_of(value@), row);
        },
        MatchCondition::Text { text } => {
            lemma_quoted_is_literal(text@);
            lemma_compared(key, " = "@, Comparison::Equal, sql::quoted(text@), row);
        },
        MatchCondition::Any { any } => {
            let literals = literals_of(any@);
            assert forall|i: int| 0 <= i < literals.len() implies is_one_literal(
                #[trigger] literals[i],
            ) && literal_value(literals[i]) == value_of(any@[i]@) by {
                law_literals_stand_for_their_values(any@[i]@);
            }
            lemma_one_of(key, literals, row);
            if has_value(key, literals, row) {
                let i = choose|i: int|
                    0 <= i < literals.len() && row(
                        key,
                        Comparison::Equal,
                        literal_value(#[trigger] literals[i]),
                    );
                assert(row(key, Comparison::Equal, value_of(any@[i]@)));
            }
            if meets_match(key, m, row) {
                let i = choose|i: int|
                    0 <= i < any@.len() && row(
                        key,
                        Comparison::Equal,
                        value_of((#[trigger] any@[i])@),
                    );
                assert(row(key, Comparison::Equal, literal_value(literals[i])));
            }
        },
    }
}

proof fn lemma_bound(
    key: Seq<char>,
    op: Seq<char>,
    c: Comparison,
    bound: Option<String>,
    row: Row,
)
    requires
        is_plain_key(key),
        is_operator(op, c),
        bound matches Some(n) ==> is_number_text(n@),
    ensures
        all_conjunctions(bound_sql(key, op, bound)),
        meets_all(bound_sql(key, op, bound), row) == meets_bound(key, c, bound, row),
{
    match bound {
        Some(n) => {
            lemma_number(n@);
            lemma_compared(key, op, c, n@, row);
            assert(bound_sql(key, op, bound)[0] == key + op + n@);
        },
        None => {},
    }
}

proof fn lemma_meets_both(a: Seq<Seq<char>>, b: Seq<Seq<char>>, row: Row)
    requires
        all_conjunctions(a),
        all_conjunctions(b),
    ensures
        all_conjunctions(a + b),
        meets_all(a + b, row) == (meets_all(a, row) && meets_all(b, row)),
{
    let all = a + b;
    assert forall|i: int| 0 <= i < all.len() implies is_conjunction(#[trigger] all[i]) by {
        if i < a.len() {
            assert(all[i] == a[i]);
        } else {
            assert(all[i] == b[i - a.len()]);
        }
    }
    if meets_all(all, row) {
        assert forall|i: int| 0 <= i < a.len() implies is_met(#[trigger] a[i], row) by {
            assert(all[i] == a[i]);
        }
        assert forall|i: int| 0 <= i < b.len() implies is_met(#[trigger] b[i], row) by {
            assert(all[a.len() + i] == b[i]);
        }
    }
    if meets_all(a, row) && meets_all(b, row) {
        assert forall|i: int| 0 <= i < all.len() implies is_met(#[trigger] all[i], row) by {
            if i < a.len() {
                assert(all[i] == a[i]);
            } else {
                assert(all[i] == b[i - a.len()]);
            }
        }
    }
}

/// A row meets the text of a condition on a field exactly where it has one of the values
/// and lies within all bounds.
pub proof fn law_field_conditions_mean_what_they_say(fc: FieldCondition, row: Row)
    requires
        is_sound_field(fc),
    ensures
        field_sql(fc) matches Ok(t) ==> is_conjunction(t) && is_met(t, row) == meets_field(fc, row),
{
    if let Ok(t) = field_sql(fc) {
        let key = fc.key@;
        let first = match_part(key, fc.match_);
        if let Some(m) = fc.match_ {
            lemma_match(key, m, row);
            assert(first[0] == match_sql(key, m));
        }
        assert(all_conjunctions(first));
        assert(meets_all(first, row) == (fc.match_ matches Some(m) ==> meets_match(key, m, row)));
        match fc.range {
            Some(r) => {
                lemma_bound(key, " > "@, Comparison::Greater, r.gt, row);
                lemma_bound(key, " >= "@, Comparison::AtLeast, r.gte, row);
                lemma_bound(key, " < "@, Comparison::Less, r.lt, row);
                lemma_bound(key, " <= "@, Comparison::AtMost, r.lte, row);
                let a = bound_sql(key, " > "@, r.gt);
                let b = bound_sql(key, " >= "@, r.gte);
                let c = bound_sql(key, " < "@, r.lt);
                let d = bound_sql(key, " <= "@, r.lte);
                lemma_meets_both(a, b, row);
                lemma_meets_both(a + b, c, row);
                lemma_meets_both(a + b + c, d, row);
                lemma_meets_both(first, a + b + c + d, row);
            },
            None => {
                assert(first + Seq::<Seq<char>>::empty() =~= first);
            },
        }
        lemma_joined_and(field_parts(fc), row);
    }
}

proof fn lemma_ids(ids: Seq<PointId>, row: Row)
    ensures
        is_conjunction(ids_sql(ids)),
        is_met(ids_sql(ids), row) == is_point(ids, row),
{
    let key = "_id"@;
    let literals = all_quoted(id_texts(ids));
    assert(is_plain_key(key)) by {
        lemma_words();
    }
    assert forall|i: int| 0 <= i < literals.len() implies is_one_literal(#[trigger] literals[i])
        && literal_value(literals[i]) == SqlValue::Text(ids[i].spec_text()) by {
        lemma_quoted_is_literal(ids[i].spec_text());
    }
    lemma_one_of(key, literals, row);
    assert(ids_sql(ids) =~= key + " IN ("@ + text::joined(literals, ", "@) + ")"@) by {
        reveal_strlit("_id IN (");
        lemma_words();
        assert("_id IN ("@ =~= "_id"@ + " IN ("@);
    }
    if has_value(key, literals, row) {
        let i = choose|i: int|
            0 <= i < literals.len() && row(
                key,
                Comparison::Equal,
                literal_value(#[trigger] literals[i]),
            );
        assert(row("_id"@, Comparison::Equal, SqlValue::Text(ids[i].spec_text())));
    }
    if is_point(ids, row) {
        let i = choose|i: int|
            0 <= i < ids.len() && row(
                "_id"@,
                Comparison::Equal,
                SqlValue::Text((#[trigger] ids[i]).spec_text()),
            );
        assert(row(key, Comparison::Equal, literal_value(literals[i])));
    }
}

proof fn lemma_true(row: Row)
    ensures
        is_conjunction("true"@),
        is_met("true"@, row),
{
    lemma_words();
    let t = "true"@;
    lemma_bare_text(t);
    lemma_begins_free(t);
    lemma_quiet(t);
    if "NOT ("@.is_prefix_of(t) {
        assert("NOT ("@ =~= t.subrange(0, 5));
    }
    reveal(is_met);
}

/// Where every result is a text, these are the texts.
proof fn lemma_all_ok(results: Seq<Result<Seq<char>, Seq<char>>>)
    ensures
        all_or_error(results) matches Ok(parts) ==> parts.len() == results.len() && forall|i: int|
            0 <= i < results.len() ==> #[trigger] results[i] == Ok::<Seq<char>, Seq<char>>(
                parts[i],
            ),
    decreases results.len(),
{
    if results.len() > 0 {
        lemma_all_ok(results.drop_last());
        if let Ok(parts) = all_or_error(results) {
            let front = results.drop_last();
            assert forall|i: int| 0 <= i < results.len() implies #[trigger] results[i] == Ok::<
                Seq<char>,
                Seq<char>,
            >(parts[i]) by {
                if i < front.len() {
                    assert(front[i] == results[i]);
                }
            }
        }
    }
}

proof fn lemma_condition(c: Condition, row: Row)
    requires
        is_sound_condition(c),
    ensures
        condition_sql(c) matches Ok(t) ==> is_conjunction(t) && is_met(t, row) == meets_condition(
            c,
            row,
        ),
    decreases c,
{
    match c {
        Condition::Field(fc) => {
            law_field_conditions_mean_what_they_say(fc, row);
        },
        Condition::HasId { has_id } => {
            lemma_ids(has_id@, row);
        },
        Condition::Filter(f) => {
            lemma_filter(*f, row);
            lemma_true(row);
        },
    }
}

proof fn lemma_list(l: Option<ConditionList>, row: Row)
    requires
        is_sound_list(l),
    ensures
        list_sql(l) matches Ok(parts) ==> {
            &&& all_conjunctions(parts)
            &&& meets_all(parts, row) == list_all_met(l, row)
            &&& meets_some(parts, row) == list_any_met(l, row)
            &&& parts.len() == 0 <==> lacks_conditions(l)
        },
    decreases l,
{
    match l {
        None => {},
        Some(ConditionList::One(c)) => {
            lemma_condition(*c, row);
            if let Ok(parts) = list_sql(l) {
                assert(parts.len() == 1);
                assert(condition_sql(*c) == Ok::<Seq<char>, Seq<char>>(parts[0]));
                if is_met(parts[0], row) {
                    assert(meets_some(parts, row));
                }
            }
        },
        Some(ConditionList::Many(v)) => {
            let results = results_of(v@);
            assert(results.len() == v@.len());
            assert(forall|i: int|
                0 <= i < v@.len() ==> #[trigger] results[i] == condition_sql(v@[i]));
            lemma_all_ok(results);
            if let Ok(parts) = list_sql(l) {
                assert(decreases_to!(l => v@));
                assert forall|i: int| 0 <= i < parts.len() implies is_conjunction(
                    #[trigger] parts[i],
                ) && is_met(parts[i], row) == meets_condition(v@[i], row) by {
                    assert(decreases_to!(v@ => v@[i]));
                    assert(is_sound_condition(v@[i]));
                    assert(results[i] == Ok::<Seq<char>, Seq<char>>(parts[i]));
                    lemma_condition(v@[i], row);
                }
                if meets_all(parts, row) {
                    assert forall|i: int| 0 <= i < v@.len() implies meets_condition(
                        #[trigger] v@[i],
                        row,
                    ) by {
                        assert(is_met(parts[i], row));
                    }
                }
                if meets_some(parts, row) {
                    let i = choose|i: int|
                        0 <= i < parts.len() && is_met(#[trigger] parts[i], row);
                    assert(meets_condition(v@[i], row));
                }
                if meets_any(v@, row) {
                    let i = choose|i: int|
                        0 <= i < v@.len() && meets_condition(#[trigger] v@[i], row);
                    assert(is_met(parts[i], row));
                }
                if meets_every(v@, row) {
                    assert forall|i: int| 0 <= i < parts.len() implies is_met(
                        #[trigger] parts[i],
                        row,
                    ) by {
                        assert(meets_condition(v@[i], row));
                    }
                }
            }
        },
    }
}

proof fn lemma_any_part(parts: Seq<Seq<char>>, row: Row)
    requires
        all_conjunctions(parts),
    ensures
        all_conjunctions(any_of(parts)),
        meets_all(any_of(parts), row) == (parts.len() == 0 || meets_some(parts, row)),
{
    if parts.len() > 0 {
        lemma_joined_or(parts, row);
        lemma_enclosed(text::joined(parts, " OR "@), row);
        assert(any_of(parts)[0] == "("@ + text::joined(parts, " OR "@) + ")"@);
    }
}

proof fn lemma_negated_parts(parts: Seq<Seq<char>>, row: Row)
    requires
        all_conjunctions(parts),
    ensures
        all_conjunctions(negated(parts)),
        meets_all(negated(parts), row) == !meets_some(parts, row),
{
    let not = negated(parts);
    assert forall|i: int| 0 <= i < not.len() implies is_conjunction(#[trigger] not[i]) && is_met(
        not[i],
        row,
    ) == !is_met(parts[i], row) by {
        assert(is_conjunction(parts[i]));
        lemma_conjunction_is_balanced(parts[i]);
        lemma_negated(parts[i], row);
        assert(not[i] == "NOT ("@ + parts[i] + ")"@);
    }
    if meets_some(parts, row) {
        let i = choose|i: int| 0 <= i < parts.len() && is_met(#[trigger] parts[i], row);
        assert(!is_met(not[i], row));
    }
    if !meets_some(parts, row) {
        assert forall|i: int| 0 <= i < not.len() implies is_met(#[trigger] not[i], row) by {
            assert(!is_met(parts[i], row));
        }
    }
}

proof fn lemma_filter(f: Filter, row: Row)
    requires
        is_sound_filter(f),
    ensures
        match filter_sql(f) {
            Ok(Some(t)) => is_conjunction(t) && is_met(t, row) == meets_filter(f, row),
            Ok(None) => meets_filter(f, row),
            Err(_) => true,
        },
    decreases f,
{
    lemma_list(f.must, row);
    lemma_list(f.should, row);
    lemma_list(f.must_not, row);
    match (list_sql(f.must), list_sql(f.should), list_sql(f.must_not)) {
        (Ok(m), Ok(s), Ok(n)) => {
            lemma_any_part(s, row);
            lemma_negated_parts(n, row);
            lemma_meets_both(m, any_of(s), row);
            lemma_meets_both(m + any_of(s), negated(n), row);
            let parts = m + any_of(s) + negated(n);
            if parts.len() > 0 {
                lemma_joined_and(parts, row);
            }
        },
        _ => {},
    }
}

/// A row meets the text of a filter exactly where it meets every condition that must hold,
/// at least one of those that should where there are any, and none of those that must not.
/// A filter without a text is met by every row.
pub proof fn law_filters_mean_what_they_say(f: Filter, row: Row)
    requires
        is_sound_filter(f),
    ensures
        filter_sql(f) matches Ok(Some(t)) ==> is_met(t, row) == meets_filter(f, row),
        filter_sql(f) matches Ok(None) ==> meets_filter(f, row),
{
    lemma_filter(f, row);
}

/// A change reaches the points that it names, and where it names none those that meet its
/// filter.
pub proof fn law_selections_mean_what_they_say(
    points: Option<Vec<PointId>>,
    filter: Option<Filter>,
    row: Row,
)
    requires
        filter matches Some(f) ==> is_sound_filter(f),
    ensures
        selection_sql(points, filter) matches Ok(Some(t)) ==> is_met(t, row) == match points {
            Some(ids) if ids@.len() > 0 => is_point(ids@, row),
            _ => filter matches Some(f) && meets_filter(f, row),
        },
        selection_sql(points, filter) matches Ok(None) ==> filter matches Some(f) && meets_filter(
            f,
            row,
        ),
{
    if let Some(ids) = points {
        lemma_ids(ids@, row);
    }
    if let Some(f) = filter {
        lemma_filter(f, row);
    }
}

// ---------------------------------------------------------------------------
// Buckets
// ---------------------------------------------------------------------------

/// A row is in a bucket of filtered rows exactly where it meets the filter, if there is one,
/// and the condition of the bucket.
pub proof fn law_buckets_lie_within_the_filter(filter: Option<Seq<char>>, bucket: Seq<char>, row: Row)
    requires
        is_balanced(bucket),
        filters(filter) ==> is_balanced(filter->0),
    ensures
        is_met(both_sql(filter, bucket), row) == (is_met(bucket, row) && (filters(filter) ==> is_met(
            filter->0,
            row,
        ))),
{
    if filters(filter) {
        let f = filter->0;
        lemma_enclosed(f, row);
        lemma_enclosed(bucket, row);
        let a = "("@ + f + ")"@;
        let b = "("@ + bucket + ")"@;
        lemma_met_and(a, b, row);
        assert(") AND ("@ =~= ")"@ + " AND "@ + "("@) by {
            reveal_strlit(") AND (");
            reveal_strlit(")");
            reveal_strlit(" AND ");
            reveal_strlit("(");
        }
        assert(both_sql(filter, bucket) =~= a + " AND "@ + b);
    }
}

/// A row is in the bucket of a range exactly where its field is not below the start of the
/// range, if that is given, and below its end, if that is given.
pub proof fn law_ranges_hold_their_start_and_not_their_end(
    field: Seq<char>,
    from: Option<Seq<char>>,
    to: Option<Seq<char>>,
    row: Row,
)
    requires
        is_plain_key(field),
        from matches Some(f) ==> is_number_text(f),
        to matches Some(t) ==> is_number_text(t),
    ensures
        is_balanced(range_sql(field, from, to)),
        is_met(range_sql(field, from, to), row) == {
            &&& from matches Some(f) ==> row(field, Comparison::AtLeast, SqlValue::Number(f))
            &&& to matches Some(t) ==> row(field, Comparison::Less, SqlValue::Number(t))
        },
{
    if let Some(f) = from {
        lemma_number(f);
        lemma_compared(field, " >= "@, Comparison::AtLeast, f, row);
    }
    if let Some(t) = to {
        lemma_number(t);
        lemma_compared(field, " < "@, Comparison::Less, t, row);
    }
    match (from, to) {
        (Some(f), Some(t)) => {
            let a = field + " >= "@ + f;
            let b = field + " < "@ + t;
            lemma_met_and(a, b, row);
            lemma_conjunction(a, b);
            assert(range_sql(field, from, to) =~= a + " AND "@ + b);
        },
        (None, None) => {
            lemma_true(row);
        },
        _ => {},
    }
    lemma_conjunction_is_balanced(range_sql(field, from, to));
}

/// A row is in the bucket of a value exactly where its field has that value.
pub proof fn law_terms_hold_their_value(field: Seq<char>, key: JsonView, row: Row)
    requires
        is_plain_key(field),
        is_sound_value(key),
    ensures
        is_balanced(term_condition(field, key)),
        is_met(term_condition(field, key), row) == row(field, Comparison::Equal, value_of(key)),
{
    law_literals_stand_for_their_values(key);
    lemma_compared(field, " = "@, Comparison::Equal, literal_of(key), row);
    lemma_conjunction_is_balanced(term_condition(field, key));
}

} // verus!

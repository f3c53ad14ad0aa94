//! How a query is written: the text of a query with white space between
//! its tokens, and the proof that the grammar reads back from such a text
//! the query that was written, clause by clause and in the order of the
//! text.

use crate::grammar::{
    column_list_at, comparison_of, expect_at, find_any, from_at, joins_at, name_stops,
    operand_at, operand_stops, parse_text, predicate_at, select_at, select_stops,
    skip_whitespace, starts_with, token, where_at, ColumnModel, Comparison, JoinModel,
    ParseError, QueryModel, Scalar, ValueModel, ValueTestModel,
};
use crate::text::{
    integer_text, is_digit, is_line_break, is_whitespace, lemma_decimal_digits,
    lemma_integer_text_literal, trim,
};
use vstd::prelude::*;

verus! {

/// A gap that ends a token: white space that starts with a space or a
/// line feed.
pub open spec fn is_gap(gap: Seq<char>) -> bool {
    &&& gap.len() > 0
    &&& (gap[0] == ' ' || gap[0] == '\n')
    &&& is_blank(gap)
}

/// White space, or nothing: what may stand where no token has to end.
pub open spec fn is_blank(blank: Seq<char>) -> bool {
    forall|i: int| 0 <= i < blank.len() ==> is_whitespace(#[trigger] blank[i])
}

/// Nothing, or a gap.
pub open spec fn is_optional_gap(gap: Seq<char>) -> bool {
    gap.len() == 0 || is_gap(gap)
}

/// The white space around a comma of the select list.
pub struct CommaLayout {
    pub before: Seq<char>,
    pub after: Seq<char>,
}

/// The white space around a keyword that follows a token.
pub struct KeywordLayout {
    pub before: Seq<char>,
    pub after: Seq<char>,
}

/// The white space around the comparator of a predicate.
pub struct PredicateLayout {
    pub before: Seq<char>,
    pub after: Seq<char>,
}

/// The white space of a join.
pub struct JoinLayout {
    pub join: KeywordLayout,
    pub on: KeywordLayout,
    pub predicate: PredicateLayout,
}

/// The white space of a filter.
pub struct FilterLayout {
    pub filter: KeywordLayout,
    pub predicate: PredicateLayout,
}

/// The white space of a query: what stands between its tokens, in front
/// of the first and behind the last.
pub struct Layout {
    pub lead: Seq<char>,
    pub select: Seq<char>,
    pub commas: Seq<CommaLayout>,
    pub from: KeywordLayout,
    pub joins: Seq<JoinLayout>,
    pub filter: FilterLayout,
    pub trail: Seq<char>,
}

/// Nothing or a gap before the comma, any white space behind it.
pub open spec fn is_comma_layout(l: CommaLayout) -> bool {
    is_optional_gap(l.before) && is_blank(l.after)
}

/// A gap before the keyword, any white space behind it.
pub open spec fn is_keyword_layout(l: KeywordLayout) -> bool {
    is_gap(l.before) && is_blank(l.after)
}

/// A gap on either side of the comparator.
pub open spec fn is_predicate_layout(l: PredicateLayout) -> bool {
    is_gap(l.before) && is_gap(l.after)
}

/// White space that keeps the tokens of a join apart.
pub open spec fn is_join_layout(l: JoinLayout) -> bool {
    is_keyword_layout(l.join) && is_keyword_layout(l.on) && is_predicate_layout(l.predicate)
}

/// White space that keeps the tokens of a filter apart.
pub open spec fn is_filter_layout(l: FilterLayout) -> bool {
    is_keyword_layout(l.filter) && is_predicate_layout(l.predicate)
}

/// White space that keeps the tokens of the query apart: a layout for
/// each comma and each join that the query has.
pub open spec fn is_layout(q: QueryModel, l: Layout) -> bool {
    &&& is_blank(l.lead)
    &&& is_blank(l.select)
    &&& l.commas.len() == q.select.len() - 1
    &&& forall|i: int| 0 <= i < l.commas.len() ==> is_comma_layout(#[trigger] l.commas[i])
    &&& is_keyword_layout(l.from)
    &&& l.joins.len() == q.joins.len()
    &&& forall|i: int| 0 <= i < l.joins.len() ==> is_join_layout(#[trigger] l.joins[i])
    &&& (q.where_clause is Some ==> is_filter_layout(l.filter))
    &&& is_optional_gap(l.trail)
}

/// A character that may stand in a name: no white space, no dot, no comma
/// and no quote.
pub open spec fn is_name_char(c: char) -> bool {
    !is_whitespace(c) && c != '.' && c != ',' && c != '\''
}

/// A name of a table or of a column: one or more name characters, the
/// first of them no digit.
pub open spec fn is_name(s: Seq<char>) -> bool {
    &&& s.len() > 0
    &&& !is_digit(s[0])
    &&& forall|i: int| 0 <= i < s.len() ==> is_name_char(#[trigger] s[i])
}

/// A column with a name for its table and for itself.
pub open spec fn is_valid_column(c: ColumnModel) -> bool {
    is_name(c.table_name) && is_name(c.column_name)
}

/// An operand that can be written: a column with names, an integer that
/// is not negative, a text without a quote.
pub open spec fn is_valid_operand(v: ValueModel) -> bool {
    match v {
        ValueModel::Column(c) => is_valid_column(c),
        ValueModel::Const(Scalar::Integer(n)) => n >= 0,
        ValueModel::Const(Scalar::Text(t)) => forall|i: int|
            0 <= i < t.len() ==> #[trigger] t[i] != '\'',
    }
}

/// A predicate whose operands can be written.
pub open spec fn is_valid_predicate(t: ValueTestModel) -> bool {
    is_valid_operand(t.left) && is_valid_operand(t.right)
}

/// A join that can be written.
pub open spec fn is_valid_join(j: JoinModel) -> bool {
    is_name(j.table_name) && is_valid_predicate(j.on)
}

/// A query that can be written: at least one selected column, and every
/// part of it one that can be written.
pub open spec fn is_valid_query(q: QueryModel) -> bool {
    &&& q.select.len() > 0
    &&& forall|i: int| 0 <= i < q.select.len() ==> is_valid_column(#[trigger] q.select[i])
    &&& is_name(q.from)
    &&& forall|i: int| 0 <= i < q.joins.len() ==> is_valid_join(#[trigger] q.joins[i])
    &&& (q.where_clause matches Some(t) ==> is_valid_predicate(t))
}

/// A comparison as it is written.
pub open spec fn comparison_text(c: Comparison) -> Seq<char> {
    match c {
        Comparison::Eq => "="@,
        Comparison::Gt => ">"@,
        Comparison::Lt => "<"@,
        Comparison::Le => "<="@,
        Comparison::Ge => ">="@,
        Comparison::Ne => "<>"@,
    }
}

/// A column as it is written: `table.column`.
pub open spec fn column_text(c: ColumnModel) -> Seq<char> {
    c.table_name + (seq!['.'] + c.column_name)
}

/// An operand as it is written: a column as `table.column`, an integer in
/// decimal, a text between quotes.
pub open spec fn operand_text(v: ValueModel) -> Seq<char> {
    match v {
        ValueModel::Column(c) => column_text(c),
        ValueModel::Const(Scalar::Integer(n)) => integer_text(n as int),
        ValueModel::Const(Scalar::Text(t)) => seq!['\''] + (t + seq!['\'']),
    }
}

/// A predicate as it is written: the operands with the comparison
/// between them, a gap on either side of it.
pub open spec fn predicate_text(t: ValueTestModel, l: PredicateLayout) -> Seq<char> {
    operand_text(t.left) + (l.before + (comparison_text(t.comparison) + (l.after + operand_text(
        t.right,
    ))))
}

/// A select list as it is written: the columns with a comma between them.
pub open spec fn select_list_text(columns: Seq<ColumnModel>, commas: Seq<CommaLayout>) -> Seq<char>
    decreases columns.len(),
{
    if columns.len() == 0 {
        Seq::empty()
    } else if columns.len() == 1 || commas.len() == 0 {
        column_text(columns[0])
    } else {
        column_text(columns[0]) + (commas[0].before + (seq![','] + (commas[0].after
            + select_list_text(columns.drop_first(), commas.drop_first()))))
    }
}

/// A join as it is written, with the gap in front of it.
pub open spec fn join_text(j: JoinModel, l: JoinLayout) -> Seq<char> {
    l.join.before + ("JOIN"@ + (l.join.after + (j.table_name + (l.on.before + ("ON"@ + (l.on.after
        + predicate_text(j.on, l.predicate)))))))
}

/// The joins as they are written, one after the other.
pub open spec fn joins_text(joins: Seq<JoinModel>, layouts: Seq<JoinLayout>) -> Seq<char>
    decreases joins.len(),
{
    if joins.len() == 0 || layouts.len() == 0 {
        Seq::empty()
    } else {
        join_text(joins[0], layouts[0]) + joins_text(joins.drop_first(), layouts.drop_first())
    }
}

/// A filter as it is written, with the gap in front of it; nothing where
/// the query has none.
pub open spec fn where_text(filter: Option<ValueTestModel>, l: FilterLayout) -> Seq<char> {
    match filter {
        None => Seq::empty(),
        Some(t) => l.filter.before + ("WHERE"@ + (l.filter.after + predicate_text(t, l.predicate))),
    }
}

/// What follows the table of a query as it is written: the joins, the
/// filter and the white space at the end.
pub open spec fn tail_text(
    joins: Seq<JoinModel>,
    layouts: Seq<JoinLayout>,
    filter: Option<ValueTestModel>,
    l: FilterLayout,
    trail: Seq<char>,
) -> Seq<char> {
    joins_text(joins, layouts) + (where_text(filter, l) + trail)
}

/// What follows the select list of a query as it is written.
pub open spec fn from_text(q: QueryModel, l: Layout) -> Seq<char> {
    l.from.before + ("FROM"@ + (l.from.after + (q.from + tail_text(
        q.joins,
        l.joins,
        q.where_clause,
        l.filter,
        l.trail,
    ))))
}

/// A query as it is written, with the white space that the layout gives:
/// `SELECT t.a, u.b FROM t JOIN u ON t.a = u.a WHERE t.a > 1`, or the same
/// on several lines.
pub open spec fn query_text(q: QueryModel, l: Layout) -> Seq<char> {
    l.lead + ("SELECT"@ + (l.select + (select_list_text(q.select, l.commas) + from_text(q, l))))
}

/// From `pos` on the source is the text `t`.
pub open spec fn rest_is(s: Seq<char>, pos: int, t: Seq<char>) -> bool {
    0 <= pos <= s.len() && s.skip(pos) == t
}

/// Where the source goes on with `a` and then `b`, it has `a` where it
/// stands and goes on with `b` behind it.
proof fn lemma_rest_split(s: Seq<char>, pos: int, a: Seq<char>, b: Seq<char>)
    requires
        rest_is(s, pos, a + b),
    ensures
        starts_with(s, pos, a),
        rest_is(s, pos + a.len(), b),
        forall|i: int| 0 <= i < a.len() ==> s[pos + i] == #[trigger] a[i],
        b.len() > 0 ==> pos + a.len() < s.len() && s[pos + a.len()] == b[0],
        b.len() == 0 ==> pos + a.len() == s.len(),
{
    assert(s.skip(pos).len() == a.len() + b.len());
    assert forall|i: int| 0 <= i < a.len() implies s[pos + i] == #[trigger] a[i] by {
        assert(s.skip(pos)[i] == (a + b)[i]);
    }
    assert(s.subrange(pos, pos + a.len()) =~= a);
    assert forall|i: int| 0 <= i < b.len() implies s[pos + a.len() + i] == #[trigger] b[i] by {
        assert(s.skip(pos)[a.len() + i] == (a + b)[a.len() + i]);
    }
    assert(s.skip(pos + a.len()) =~= b);
}

/// White space is skipped up to the first character that is none.
proof fn lemma_skip_run(s: Seq<char>, pos: int, end: int)
    requires
        0 <= pos <= end <= s.len(),
        forall|i: int| pos <= i < end ==> is_whitespace(#[trigger] s[i]),
        end < s.len() ==> !is_whitespace(s[end]),
    ensures
        skip_whitespace(s, pos) == end,
    decreases end - pos,
{
    if pos < end {
        assert(is_whitespace(s[pos]));
        lemma_skip_run(s, pos + 1, end);
    }
}

/// A token is scanned up to the first delimiter.
proof fn lemma_find_run(s: Seq<char>, pos: int, end: int, stops: Seq<char>)
    requires
        0 <= pos <= end <= s.len(),
        forall|i: int| pos <= i < end ==> !stops.contains(#[trigger] s[i]),
        end < s.len() ==> stops.contains(s[end]),
    ensures
        find_any(s, pos, stops) == end,
    decreases end - pos,
{
    if pos < end {
        assert(!stops.contains(s[pos]));
        lemma_find_run(s, pos + 1, end, stops);
    }
}

/// White space is skipped as a whole where something other than white
/// space follows it, or nothing.
proof fn lemma_skip_blank(s: Seq<char>, pos: int, blank: Seq<char>, rest: Seq<char>)
    requires
        is_blank(blank),
        rest_is(s, pos, blank + rest),
        rest.len() > 0 ==> !is_whitespace(rest[0]),
    ensures
        skip_whitespace(s, pos) == pos + blank.len(),
        rest_is(s, pos + blank.len(), rest),
        blank.len() > 0 ==> s[pos] == blank[0],
{
    lemma_rest_split(s, pos, blank, rest);
    assert forall|i: int| pos <= i < pos + blank.len() implies is_whitespace(#[trigger] s[i]) by {
        assert(s[pos + (i - pos)] == blank[i - pos]);
    }
    lemma_skip_run(s, pos, pos + blank.len());
    if blank.len() > 0 {
        assert(s[pos + 0] == blank[0]);
    }
}

/// Nothing is skipped in front of a character that is no white space.
proof fn lemma_skip_none(s: Seq<char>, pos: int, rest: Seq<char>)
    requires
        rest_is(s, pos, rest),
        rest.len() > 0 ==> !is_whitespace(rest[0]),
    ensures
        skip_whitespace(s, pos) == pos,
{
    if rest.len() > 0 {
        assert(s.skip(pos)[0] == rest[0]);
    }
}

/// A text without delimiters is scanned as a whole where a delimiter
/// follows it, or nothing.
proof fn lemma_find_token(s: Seq<char>, pos: int, t: Seq<char>, rest: Seq<char>, stops: Seq<char>)
    requires
        rest_is(s, pos, t + rest),
        forall|i: int| 0 <= i < t.len() ==> !stops.contains(#[trigger] t[i]),
        rest.len() > 0 ==> stops.contains(rest[0]),
    ensures
        find_any(s, pos, stops) == pos + t.len(),
        s.subrange(pos, pos + t.len()) == t,
        rest_is(s, pos + t.len(), rest),
{
    lemma_rest_split(s, pos, t, rest);
    assert forall|i: int| pos <= i < pos + t.len() implies !stops.contains(#[trigger] s[i]) by {
        assert(s[pos + (i - pos)] == t[i - pos]);
    }
    lemma_find_run(s, pos, pos + t.len(), stops);
}

/// A keyword that stands in the source is read.
proof fn lemma_keyword(s: Seq<char>, pos: int, keyword: Seq<char>, rest: Seq<char>)
    requires
        rest_is(s, pos, keyword + rest),
    ensures
        starts_with(s, pos, keyword),
        expect_at(s, pos, keyword) == Ok::<int, ParseError>(pos + keyword.len()),
        rest_is(s, pos + keyword.len(), rest),
{
    lemma_rest_split(s, pos, keyword, rest);
}

/// Trimming leaves a text that neither starts nor ends with a line break
/// as it is.
proof fn lemma_trim_same(t: Seq<char>)
    requires
        t.len() > 0 ==> !is_line_break(t[0]) && !is_line_break(t.last()),
    ensures
        trim(t) == t,
{
}

/// Trimming leaves a name as it is, and no delimiter stands in a name.
proof fn lemma_name(t: Seq<char>)
    requires
        is_name(t),
    ensures
        trim(t) == t,
        !is_whitespace(t[0]),
        t[0] != '\'',
        t[0] != ',',
        !is_digit(t[0]),
        forall|i: int| 0 <= i < t.len() ==> !name_stops().contains(#[trigger] t[i]),
        forall|i: int| 0 <= i < t.len() ==> !select_stops().contains(#[trigger] t[i]),
        forall|i: int| 0 <= i < t.len() ==> !operand_stops().contains(#[trigger] t[i]),
        forall|i: int| 0 <= i < t.len() ==> !seq!['.'].contains(#[trigger] t[i]),
{
    assert(is_name_char(t[0]));
    assert(is_name_char(t.last()));
    lemma_trim_same(t);
    assert forall|i: int| 0 <= i < t.len() implies !name_stops().contains(#[trigger] t[i]) by {
        assert(is_name_char(t[i]));
    }
    assert forall|i: int| 0 <= i < t.len() implies !select_stops().contains(#[trigger] t[i]) by {
        assert(is_name_char(t[i]));
    }
    assert forall|i: int| 0 <= i < t.len() implies !operand_stops().contains(#[trigger] t[i]) by {
        assert(is_name_char(t[i]));
    }
    assert forall|i: int| 0 <= i < t.len() implies !seq!['.'].contains(#[trigger] t[i]) by {
        assert(is_name_char(t[i]));
    }
}

/// The first character of a gap ends a name, a comparator and an operand.
proof fn lemma_gap_stops(gap: Seq<char>)
    requires
        is_gap(gap),
    ensures
        name_stops().contains(gap[0]),
        select_stops().contains(gap[0]),
        operand_stops().contains(gap[0]),
        is_whitespace(gap[0]),
{
    assert(name_stops()[0] == ' ' && name_stops()[1] == '\n');
    assert(select_stops()[1] == ' ' && select_stops()[2] == '\n');
    assert(operand_stops()[0] == ' ' && operand_stops()[1] == '\n');
}

/// A comparison is written as a token that denotes it, without white
/// space or delimiters.
proof fn lemma_comparison_text(c: Comparison)
    ensures
        comparison_of(comparison_text(c)) == Some(c),
        trim(comparison_text(c)) == comparison_text(c),
        comparison_text(c).len() > 0,
        !is_whitespace(comparison_text(c)[0]),
        forall|i: int|
            0 <= i < comparison_text(c).len() ==> !name_stops().contains(
                #[trigger] comparison_text(c)[i],
            ),
{
    reveal_strlit("=");
    reveal_strlit(">");
    reveal_strlit("<");
    reveal_strlit("<=");
    reveal_strlit(">=");
    reveal_strlit("<>");
    let t = comparison_text(c);
    assert(t.len() == 1 || t.len() == 2);
    assert forall|i: int| 0 <= i < t.len() implies (#[trigger] t[i] == '=' || t[i] == '<' || t[i]
        == '>') by {}
    assert(t[0] == '=' || t[0] == '<' || t[0] == '>');
    assert(t.last() == '=' || t.last() == '<' || t.last() == '>');
    lemma_trim_same(t);
    match c {
        Comparison::Eq => {},
        Comparison::Gt => {
            assert(">"@[0] != "="@[0]);
        },
        Comparison::Lt => {
            assert("<"@[0] != "="@[0]);
            assert("<"@[0] != ">"@[0]);
        },
        Comparison::Le => {
            assert("<="@.len() != "="@.len());
        },
        Comparison::Ge => {
            assert(">="@.len() != "="@.len());
            assert(">="@[0] != "<="@[0]);
        },
        Comparison::Ne => {
            assert("<>"@.len() != "="@.len());
            assert("<>"@[1] != "<="@[1]);
            assert("<>"@[0] != ">="@[0]);
        },
    }
}

/// An operand that is written is read back.
pub proof fn lemma_operand(s: Seq<char>, pos: int, v: ValueModel, rest: Seq<char>)
    requires
        is_valid_operand(v),
        rest_is(s, pos, operand_text(v) + rest),
        rest.len() > 0 ==> rest[0] == ' ' || rest[0] == '\n',
    ensures
        operand_at(s, pos) == Ok::<(ValueModel, int), ParseError>(
            (v, pos + operand_text(v).len()),
        ),
        rest_is(s, pos + operand_text(v).len(), rest),
        operand_text(v).len() > 0,
        !is_whitespace(operand_text(v)[0]),
{
    let text = operand_text(v);
    lemma_rest_split(s, pos, text, rest);
    assert(operand_stops()[0] == ' ' && operand_stops()[1] == '\n');
    match v {
        ValueModel::Column(c) => {
            let table = c.table_name;
            let column = c.column_name;
            lemma_name(table);
            lemma_name(column);
            assert(text[0] == table[0]);
            assert(s[pos + 0] == text[0]);
            lemma_skip_none(s, pos, text + rest);
            assert(text + rest =~= table + (seq!['.'] + (column + rest)));
            lemma_find_token(s, pos, table, seq!['.'] + (column + rest), seq!['.']);
            let dot = pos + table.len();
            lemma_rest_split(s, dot, seq!['.'], column + rest);
            lemma_find_token(s, dot + 1, column, rest, operand_stops());
            assert(text.len() == table.len() + 1 + column.len());
        },
        ValueModel::Const(Scalar::Integer(n)) => {
            lemma_decimal_digits(n as nat);
            lemma_integer_text_literal(n);
            assert(is_digit(text[0]));
            assert(s[pos + 0] == text[0]);
            lemma_skip_none(s, pos, text + rest);
            assert forall|i: int| 0 <= i < text.len() implies !operand_stops().contains(
                #[trigger] text[i],
            ) by {
                assert(is_digit(text[i]));
            }
            lemma_find_token(s, pos, text, rest, operand_stops());
            assert(is_digit(text.last()));
            lemma_trim_same(text);
        },
        ValueModel::Const(Scalar::Text(t)) => {
            assert(text[0] == '\'');
            assert(s[pos + 0] == text[0]);
            lemma_skip_none(s, pos, text + rest);
            assert(text + rest =~= seq!['\''] + (t + (seq!['\''] + rest)));
            lemma_rest_split(s, pos, seq!['\''], t + (seq!['\''] + rest));
            assert forall|i: int| 0 <= i < t.len() implies !seq!['\''].contains(#[trigger] t[i]) by {
                assert(t[i] != '\'');
            }
            assert((seq!['\''] + rest)[0] == '\'');
            assert(seq!['\''].contains((seq!['\''] + rest)[0])) by {
                assert(seq!['\''][0] == '\'');
            }
            lemma_find_token(s, pos + 1, t, seq!['\''] + rest, seq!['\'']);
            lemma_rest_split(s, pos + 1 + t.len(), seq!['\''], rest);
            assert(text.len() == t.len() + 2);
        },
    }
}

/// A predicate that is written is read back.
pub proof fn lemma_predicate(
    s: Seq<char>,
    pos: int,
    t: ValueTestModel,
    l: PredicateLayout,
    rest: Seq<char>,
)
    requires
        is_valid_predicate(t),
        is_predicate_layout(l),
        rest_is(s, pos, predicate_text(t, l) + rest),
        rest.len() > 0 ==> rest[0] == ' ' || rest[0] == '\n',
    ensures
        predicate_at(s, pos) == Ok::<(ValueTestModel, int), ParseError>(
            (t, pos + predicate_text(t, l).len()),
        ),
        rest_is(s, pos + predicate_text(t, l).len(), rest),
        predicate_text(t, l).len() > 0,
        !is_whitespace(predicate_text(t, l)[0]),
{
    let left = operand_text(t.left);
    let comparator = comparison_text(t.comparison);
    let right = operand_text(t.right);
    let after_left = l.before + (comparator + (l.after + (right + rest)));
    assert(predicate_text(t, l) + rest =~= left + after_left);
    lemma_gap_stops(l.before);
    lemma_gap_stops(l.after);
    assert(after_left[0] == l.before[0]);
    lemma_operand(s, pos, t.left, after_left);
    let at1 = pos + left.len();
    lemma_comparison_text(t.comparison);
    assert((comparator + (l.after + (right + rest)))[0] == comparator[0]);
    lemma_skip_blank(s, at1, l.before, comparator + (l.after + (right + rest)));
    let at2 = at1 + l.before.len();
    assert((l.after + (right + rest))[0] == l.after[0]);
    lemma_find_token(s, at2, comparator, l.after + (right + rest), name_stops());
    let at3 = at2 + comparator.len();
    lemma_rest_split(s, pos, left, after_left);
    lemma_operand_start(t.right);
    assert((right + rest)[0] == right[0]);
    lemma_skip_blank(s, at3, l.after, right + rest);
    let at4 = at3 + l.after.len();
    lemma_operand(s, at4, t.right, rest);
    assert(predicate_text(t, l).len() == left.len() + l.before.len() + comparator.len()
        + l.after.len() + right.len());
    assert(predicate_text(t, l)[0] == left[0]);
}

/// A select list that is written is read back, up to what follows the
/// white space behind it.
proof fn lemma_select_list(
    s: Seq<char>,
    pos: int,
    columns: Seq<ColumnModel>,
    commas: Seq<CommaLayout>,
    gap: Seq<char>,
    rest: Seq<char>,
)
    requires
        columns.len() > 0,
        forall|i: int| 0 <= i < columns.len() ==> is_valid_column(#[trigger] columns[i]),
        commas.len() == columns.len() - 1,
        forall|i: int| 0 <= i < commas.len() ==> is_comma_layout(#[trigger] commas[i]),
        is_gap(gap),
        rest_is(s, pos, select_list_text(columns, commas) + (gap + rest)),
        rest.len() > 0,
        !is_whitespace(rest[0]),
        rest[0] != ',',
    ensures
        column_list_at(s, pos) == Ok::<(Seq<ColumnModel>, int), ParseError>(
            (columns, pos + select_list_text(columns, commas).len() + gap.len()),
        ),
        rest_is(s, pos + select_list_text(columns, commas).len() + gap.len(), rest),
    decreases columns.len(),
{
    let first = columns[0];
    let table = first.table_name;
    let column = first.column_name;
    assert(is_valid_column(columns[0]));
    lemma_name(table);
    lemma_name(column);
    lemma_gap_stops(gap);
    assert(select_stops()[0] == ',');
    if columns.len() == 1 {
        let after = gap + rest;
        assert(select_list_text(columns, commas) + after =~= table + (seq!['.'] + (column
            + after)));
        lemma_find_token(s, pos, table, seq!['.'] + (column + after), seq!['.']);
        let dot = pos + table.len();
        lemma_rest_split(s, dot, seq!['.'], column + after);
        assert(after[0] == gap[0]);
        lemma_find_token(s, dot + 1, column, after, select_stops());
        let end = dot + 1 + column.len();
        lemma_skip_blank(s, end, gap, rest);
        assert(s[end + gap.len()] == rest[0]) by {
            assert(s.skip(end + gap.len())[0] == rest[0]);
        }
        assert(select_list_text(columns, commas).len() == table.len() + 1 + column.len());
        assert(seq![first] =~= columns);
    } else {
        let others = columns.drop_first();
        let more = commas.drop_first();
        let before = commas[0].before;
        let behind = commas[0].after;
        assert(is_comma_layout(commas[0]));
        let tail = select_list_text(others, more) + (gap + rest);
        let comma = seq![','] + (behind + tail);
        let after = before + comma;
        assert(select_list_text(columns, commas) + (gap + rest) =~= table + (seq!['.'] + (column
            + after)));
        lemma_find_token(s, pos, table, seq!['.'] + (column + after), seq!['.']);
        let dot = pos + table.len();
        lemma_rest_split(s, dot, seq!['.'], column + after);
        assert(comma[0] == ',');
        if before.len() > 0 {
            lemma_gap_stops(before);
            assert(after[0] == before[0]);
        } else {
            assert(after =~= comma);
        }
        lemma_find_token(s, dot + 1, column, after, select_stops());
        let end = dot + 1 + column.len();
        lemma_skip_blank(s, end, before, comma);
        let at = end + before.len();
        lemma_rest_split(s, at, seq![','], behind + tail);
        assert(s[at + 0] == seq![','][0]);
        assert forall|i: int| 0 <= i < others.len() implies is_valid_column(
            #[trigger] others[i],
        ) by {
            assert(others[i] == columns[i + 1]);
        }
        assert forall|i: int| 0 <= i < more.len() implies is_comma_layout(#[trigger] more[i]) by {
            assert(more[i] == commas[i + 1]);
        }
        assert(is_valid_column(others[0]));
        lemma_name(others[0].table_name);
        assert(select_list_text(others, more)[0] == others[0].table_name[0]);
        assert(tail[0] == select_list_text(others, more)[0]);
        lemma_skip_blank(s, at + 1, behind, tail);
        lemma_select_list(s, at + 1 + behind.len(), others, more, gap, rest);
        assert(select_list_text(columns, commas).len() == table.len() + 1 + column.len()
            + before.len() + 1 + behind.len() + select_list_text(others, more).len());
        assert(seq![first] + others =~= columns);
    }
}

/// A filter that is written, and the white space behind it, is read
/// back; no join is read in its place.
proof fn lemma_where(
    s: Seq<char>,
    pos: int,
    filter: Option<ValueTestModel>,
    l: FilterLayout,
    trail: Seq<char>,
)
    requires
        filter matches Some(t) ==> is_valid_predicate(t),
        filter is Some ==> is_filter_layout(l),
        is_optional_gap(trail),
        rest_is(s, pos, where_text(filter, l) + trail),
    ensures
        pos <= skip_whitespace(s, pos) <= s.len(),
        !starts_with(s, skip_whitespace(s, pos), "JOIN"@),
        where_at(s, skip_whitespace(s, pos)) matches Ok(w) && w.0 == filter && skip_whitespace(
            s,
            w.1,
        ) == s.len(),
{
    reveal_strlit("JOIN");
    reveal_strlit("WHERE");
    match filter {
        None => {
            assert(where_text(filter, l) + trail =~= trail + Seq::<char>::empty());
            lemma_skip_blank(s, pos, trail, Seq::empty());
            lemma_rest_split(s, pos, trail, Seq::empty());
            lemma_skip_none(s, s.len() as int, Seq::empty());
        },
        Some(t) => {
            let predicate = predicate_text(t, l.predicate);
            let behind = l.filter.after + (predicate + trail);
            let after = "WHERE"@ + behind;
            assert(where_text(filter, l) + trail =~= l.filter.before + after);
            assert(after[0] == 'W');
            lemma_skip_blank(s, pos, l.filter.before, after);
            let at0 = pos + l.filter.before.len();
            lemma_keyword(s, at0, "WHERE"@, behind);
            assert(!starts_with(s, at0, "JOIN"@)) by {
                if starts_with(s, at0, "JOIN"@) {
                    assert(s.subrange(at0, at0 + 4)[0] == 'J');
                    assert(s.subrange(at0, at0 + 5)[0] == 'W');
                }
            }
            lemma_skip_none(s, at0, after);
            lemma_operand_start(t.left);
            assert(predicate[0] == operand_text(t.left)[0]);
            assert((predicate + trail)[0] == predicate[0]);
            lemma_skip_blank(s, at0 + 5, l.filter.after, predicate + trail);
            if trail.len() > 0 {
                lemma_gap_stops(trail);
            }
            let start = at0 + 5 + l.filter.after.len();
            lemma_predicate(s, start, t, l.predicate, trail);
            assert(trail + Seq::<char>::empty() =~= trail);
            lemma_skip_blank(s, start + predicate.len(), trail, Seq::empty());
            lemma_rest_split(s, start + predicate.len(), trail, Seq::empty());
        },
    }
}

/// The parts of a join that is written are read back, one after the other.
proof fn lemma_join(s: Seq<char>, pos: int, j: JoinModel, l: JoinLayout, tail: Seq<char>)
    requires
        is_valid_join(j),
        is_join_layout(l),
        rest_is(s, pos, join_text(j, l) + tail),
        tail.len() > 0 ==> tail[0] == ' ' || tail[0] == '\n',
    ensures
        ({
            let at0 = skip_whitespace(s, pos);
            let at1 = skip_whitespace(s, at0 + "JOIN"@.len());
            let at2 = find_any(s, at1, name_stops());
            let at3 = pos + join_text(j, l).len() - predicate_text(j.on, l.predicate).len()
                - l.on.after.len();
            let at4 = pos + join_text(j, l).len();
            &&& starts_with(s, at0, "JOIN"@)
            &&& token(s, at1, at2) == j.table_name
            &&& expect_at(s, skip_whitespace(s, at2), "ON"@) == Ok::<int, ParseError>(at3)
            &&& predicate_at(s, skip_whitespace(s, at3)) == Ok::<
                (ValueTestModel, int),
                ParseError,
            >((j.on, at4))
            &&& rest_is(s, at4, tail)
            &&& pos < at4
        }),
{
    reveal_strlit("JOIN");
    reveal_strlit("ON");
    lemma_gap_stops(l.join.before);
    lemma_gap_stops(l.on.before);
    let on = predicate_text(j.on, l.predicate);
    let a5 = on + tail;
    let a4 = "ON"@ + (l.on.after + a5);
    let a3 = j.table_name + (l.on.before + a4);
    let a2 = "JOIN"@ + (l.join.after + a3);
    assert(join_text(j, l) + tail =~= l.join.before + a2);
    assert(a2[0] == 'J');
    lemma_skip_blank(s, pos, l.join.before, a2);
    let at0 = pos + l.join.before.len();
    lemma_keyword(s, at0, "JOIN"@, l.join.after + a3);
    lemma_name(j.table_name);
    assert(a3[0] == j.table_name[0]);
    lemma_skip_blank(s, at0 + 4, l.join.after, a3);
    let at1 = at0 + 4 + l.join.after.len();
    assert((l.on.before + a4)[0] == l.on.before[0]);
    lemma_find_token(s, at1, j.table_name, l.on.before + a4, name_stops());
    let at2 = at1 + j.table_name.len();
    assert(a4[0] == 'O');
    lemma_skip_blank(s, at2, l.on.before, a4);
    lemma_keyword(s, at2 + l.on.before.len(), "ON"@, l.on.after + a5);
    let at3 = at2 + l.on.before.len() + 2;
    lemma_operand_start(j.on.left);
    assert(on[0] == operand_text(j.on.left)[0]);
    assert(a5[0] == on[0]);
    lemma_skip_blank(s, at3, l.on.after, a5);
    lemma_predicate(s, at3 + l.on.after.len(), j.on, l.predicate, tail);
    assert(join_text(j, l).len() == l.join.before.len() + 4 + l.join.after.len()
        + j.table_name.len() + l.on.before.len() + 2 + l.on.after.len() + on.len());
}

/// The joins and the filter that are written are read back.
proof fn lemma_joins_where(
    s: Seq<char>,
    pos: int,
    joins: Seq<JoinModel>,
    layouts: Seq<JoinLayout>,
    filter: Option<ValueTestModel>,
    l: FilterLayout,
    trail: Seq<char>,
)
    requires
        forall|i: int| 0 <= i < joins.len() ==> is_valid_join(#[trigger] joins[i]),
        layouts.len() == joins.len(),
        forall|i: int| 0 <= i < layouts.len() ==> is_join_layout(#[trigger] layouts[i]),
        filter matches Some(t) ==> is_valid_predicate(t),
        filter is Some ==> is_filter_layout(l),
        is_optional_gap(trail),
        rest_is(s, pos, tail_text(joins, layouts, filter, l, trail)),
    ensures
        joins_at(s, pos) matches Ok(r) && r.0 == joins && 0 <= r.1 <= s.len() && (where_at(s, r.1)
            matches Ok(w) && w.0 == filter && skip_whitespace(s, w.1) == s.len()),
    decreases joins.len(),
{
    if joins.len() == 0 {
        assert(tail_text(joins, layouts, filter, l, trail) =~= where_text(filter, l) + trail);
        lemma_where(s, pos, filter, l, trail);
    } else {
        let j = joins[0];
        let others = joins.drop_first();
        let more = layouts.drop_first();
        assert(is_valid_join(joins[0]));
        assert(is_join_layout(layouts[0]));
        let tail = tail_text(others, more, filter, l, trail);
        assert(tail_text(joins, layouts, filter, l, trail) =~= join_text(j, layouts[0]) + tail);
        assert forall|i: int| 0 <= i < others.len() implies is_valid_join(#[trigger] others[i]) by {
            assert(others[i] == joins[i + 1]);
        }
        assert forall|i: int| 0 <= i < more.len() implies is_join_layout(#[trigger] more[i]) by {
            assert(more[i] == layouts[i + 1]);
        }
        lemma_tail_start(others, more, filter, l, trail);
        lemma_join(s, pos, j, layouts[0], tail);
        let at4 = pos + join_text(j, layouts[0]).len();
        lemma_joins_where(s, at4, others, more, filter, l, trail);
        assert(seq![j] + others =~= joins);
    }
}

/// An operand is written with something other than white space first.
proof fn lemma_operand_start(v: ValueModel)
    requires
        is_valid_operand(v),
    ensures
        operand_text(v).len() > 0,
        !is_whitespace(operand_text(v)[0]),
{
    match v {
        ValueModel::Column(c) => {
            lemma_name(c.table_name);
            assert(operand_text(v)[0] == c.table_name[0]);
        },
        ValueModel::Const(Scalar::Integer(n)) => {
            lemma_decimal_digits(n as nat);
            assert(is_digit(operand_text(v)[0]));
        },
        ValueModel::Const(Scalar::Text(t)) => {
            assert(operand_text(v)[0] == '\'');
        },
    }
}

/// What is written behind the table or behind a join starts with a space
/// or a line feed, or is nothing.
proof fn lemma_tail_start(
    joins: Seq<JoinModel>,
    layouts: Seq<JoinLayout>,
    filter: Option<ValueTestModel>,
    l: FilterLayout,
    trail: Seq<char>,
)
    requires
        layouts.len() == joins.len(),
        forall|i: int| 0 <= i < layouts.len() ==> is_join_layout(#[trigger] layouts[i]),
        filter is Some ==> is_filter_layout(l),
        is_optional_gap(trail),
    ensures
        ({
            let tail = tail_text(joins, layouts, filter, l, trail);
            tail.len() > 0 ==> tail[0] == ' ' || tail[0] == '\n'
        }),
{
    let tail = tail_text(joins, layouts, filter, l, trail);
    if joins.len() > 0 {
        assert(is_join_layout(layouts[0]));
        assert(join_text(joins[0], layouts[0])[0] == layouts[0].join.before[0]);
        assert(joins_text(joins, layouts)[0] == join_text(joins[0], layouts[0])[0]);
        assert(tail[0] == joins_text(joins, layouts)[0]);
    } else {
        assert(tail =~= where_text(filter, l) + trail);
        if filter is Some {
            assert(where_text(filter, l)[0] == l.filter.before[0]);
            assert(tail[0] == where_text(filter, l)[0]);
        } else {
            assert(tail =~= trail);
        }
    }
}

/// A SELECT clause that is written is read back, up to what follows the
/// gap behind it.
proof fn lemma_select(
    s: Seq<char>,
    pos: int,
    lead: Seq<char>,
    blank: Seq<char>,
    columns: Seq<ColumnModel>,
    commas: Seq<CommaLayout>,
    gap: Seq<char>,
    rest: Seq<char>,
)
    requires
        columns.len() > 0,
        forall|i: int| 0 <= i < columns.len() ==> is_valid_column(#[trigger] columns[i]),
        commas.len() == columns.len() - 1,
        forall|i: int| 0 <= i < commas.len() ==> is_comma_layout(#[trigger] commas[i]),
        is_blank(lead),
        is_blank(blank),
        is_gap(gap),
        rest_is(
            s,
            pos,
            lead + ("SELECT"@ + (blank + (select_list_text(columns, commas) + (gap + rest)))),
        ),
        rest.len() > 0,
        !is_whitespace(rest[0]),
        rest[0] != ',',
    ensures
        select_at(s, pos) matches Ok(r) && r.0 == columns && rest_is(s, r.1, rest),
{
    reveal_strlit("SELECT");
    let list = select_list_text(columns, commas);
    let a1 = list + (gap + rest);
    let a0 = "SELECT"@ + (blank + a1);
    assert(a0[0] == 'S');
    lemma_skip_blank(s, pos, lead, a0);
    let at0 = pos + lead.len();
    lemma_keyword(s, at0, "SELECT"@, blank + a1);
    assert(is_valid_column(columns[0]));
    lemma_name(columns[0].table_name);
    assert(list[0] == columns[0].table_name[0]);
    assert(a1[0] == list[0]);
    lemma_skip_blank(s, at0 + 6, blank, a1);
    lemma_select_list(s, at0 + 6 + blank.len(), columns, commas, gap, rest);
}

/// A FROM clause that is written is read back, up to what follows the
/// name of the table.
proof fn lemma_from(s: Seq<char>, pos: int, blank: Seq<char>, name: Seq<char>, tail: Seq<char>)
    requires
        is_blank(blank),
        is_name(name),
        rest_is(s, pos, "FROM"@ + (blank + (name + tail))),
        tail.len() > 0 ==> tail[0] == ' ' || tail[0] == '\n',
    ensures
        from_at(s, pos) matches Ok(r) && r.0 == name && rest_is(s, r.1, tail),
{
    reveal_strlit("FROM");
    let a3 = name + tail;
    let a2 = "FROM"@ + (blank + a3);
    assert(a2[0] == 'F');
    lemma_skip_none(s, pos, a2);
    lemma_keyword(s, pos, "FROM"@, blank + a3);
    lemma_name(name);
    assert(a3[0] == name[0]);
    lemma_skip_blank(s, pos + 4, blank, a3);
    if tail.len() > 0 {
        assert(name_stops()[0] == ' ' && name_stops()[1] == '\n');
    }
    lemma_find_token(s, pos + 4 + blank.len(), name, tail, name_stops());
}

/// A query that is written is read back: from the text of a valid query,
/// its tokens kept apart by white space, the grammar reads that query,
/// every clause of it and the clauses' parts in the order in which they
/// are written.
pub proof fn lemma_written_query_is_read(q: QueryModel, l: Layout)
    requires
        is_valid_query(q),
        is_layout(q, l),
    ensures
        parse_text(query_text(q, l)) == Ok::<QueryModel, ParseError>(q),
{
    let s = query_text(q, l);
    let tail = tail_text(q.joins, l.joins, q.where_clause, l.filter, l.trail);
    let a2 = "FROM"@ + (l.from.after + (q.from + tail));
    assert(s.skip(0) =~= s);
    assert(from_text(q, l) =~= l.from.before + a2);
    assert(a2[0] == 'F') by {
        reveal_strlit("FROM");
    }
    lemma_select(s, 0, l.lead, l.select, q.select, l.commas, l.from.before, a2);
    let at2 = select_at(s, 0)->Ok_0.1;
    lemma_tail_start(q.joins, l.joins, q.where_clause, l.filter, l.trail);
    lemma_from(s, at2, l.from.after, q.from, tail);
    let at4 = from_at(s, at2)->Ok_0.1;
    lemma_joins_where(s, at4, q.joins, l.joins, q.where_clause, l.filter, l.trail);
}

} // verus!

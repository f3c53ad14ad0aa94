//! The query language as functions on text: what each clause of a query
//! denotes, read from a position of the source, and where reading stops.
//!
//! ```text
//! Query      := SELECT SelectList FROM Table Join* Where?
//! SelectList := Column (',' Column)*
//! Column     := Ident '.' Ident
//! Join       := 'JOIN' Table 'ON' Predicate
//! Where      := 'WHERE' Predicate
//! Predicate  := Operand Comparator Operand
//! Operand    := Column | IntLiteral | StringLiteral
//! Comparator := '=' | '<>' | '<=' | '>=' | '<' | '>'
//! ```
//!
//! Keywords are case-sensitive. A token ends at a delimiter or at the end of
//! the source. The clauses stand in this order only, and nothing but white
//! space follows the last of them.

use crate::text::{integer_literal, is_digit, is_whitespace, trim};
use vstd::prelude::*;

verus! {

/// Why a text is not a query.
#[derive(Debug, Clone, Copy, PartialEq, Eq, Structural)]
pub enum ParseError {
    /// The source ended inside a keyword or a delimiter that had to follow.
    UnexpectedEnd,
    /// A character differs from the keyword or delimiter that had to follow,
    /// or stands behind the last clause: a clause out of its place, or
    /// anything else that is no white space.
    UnexpectedCharacter,
    /// The source ended before the delimiter that closes a name or a text
    /// literal.
    DelimiterNotFound,
    /// The token between two operands is none of the six comparators.
    InvalidComparison,
    /// A literal that starts with a digit is not a 64-bit signed integer.
    InvalidNumber,
}

/// A comparison operator.
#[derive(Debug, Clone, Copy, PartialEq, Eq, Structural)]
pub enum Comparison {
    Eq,
    Gt,
    Lt,
    Le,
    Ge,
    Ne,
}

/// A scalar constant: an integer or a text.
pub enum Scalar {
    Integer(i64),
    Text(Seq<char>),
}

/// A column of a table, by the names of both.
pub struct ColumnModel {
    pub table_name: Seq<char>,
    pub column_name: Seq<char>,
}

/// An operand of a predicate: a column to look up, or a constant.
pub enum ValueModel {
    Column(ColumnModel),
    Const(Scalar),
}

/// A predicate: two operands and the comparison between them.
pub struct ValueTestModel {
    pub left: ValueModel,
    pub comparison: Comparison,
    pub right: ValueModel,
}

/// A join: the table joined and the predicate that pairs its rows.
pub struct JoinModel {
    pub table_name: Seq<char>,
    pub on: ValueTestModel,
}

/// A query: its clauses in the order of the source.
pub struct QueryModel {
    pub select: Seq<ColumnModel>,
    pub from: Seq<char>,
    pub joins: Seq<JoinModel>,
    pub where_clause: Option<ValueTestModel>,
}

/// The delimiters that end a table name or a comparator.
pub open spec fn name_stops() -> Seq<char> {
    seq![' ', '\n']
}

/// The delimiters that end a column name in the select list.
pub open spec fn select_stops() -> Seq<char> {
    seq![',', ' ', '\n']
}

/// The delimiters that end an operand.
pub open spec fn operand_stops() -> Seq<char> {
    seq![' ', '\n', '\r']
}

/// The character at `pos`, if the source has one there.
pub open spec fn peek_at(s: Seq<char>, pos: int) -> Option<char> {
    if 0 <= pos < s.len() {
        Some(s[pos])
    } else {
        None
    }
}

/// The first position from `pos` on that holds no white space; the end of
/// the source if there is none.
pub open spec fn skip_whitespace(s: Seq<char>, pos: int) -> int
    decreases s.len() - pos,
{
    if 0 <= pos < s.len() && is_whitespace(s[pos]) {
        skip_whitespace(s, pos + 1)
    } else {
        pos
    }
}

/// The first position from `pos` on that holds one of `stops`; the end of
/// the source if there is none.
pub open spec fn find_any(s: Seq<char>, pos: int, stops: Seq<char>) -> int
    decreases s.len() - pos,
{
    if 0 <= pos < s.len() && !stops.contains(s[pos]) {
        find_any(s, pos + 1, stops)
    } else {
        pos
    }
}

/// `literal` stands in the source at `pos`.
pub open spec fn starts_with(s: Seq<char>, pos: int, literal: Seq<char>) -> bool {
    &&& 0 <= pos
    &&& pos + literal.len() <= s.len()
    &&& s.subrange(pos, pos + literal.len()) == literal
}

/// The source ends at or after `pos` as a proper prefix of `literal`.
pub open spec fn ends_within(s: Seq<char>, pos: int, literal: Seq<char>) -> bool {
    &&& 0 <= pos <= s.len()
    &&& s.len() - pos < literal.len()
    &&& s.subrange(pos, s.len() as int) == literal.take(s.len() - pos)
}

/// Reading `literal` at `pos`: the position behind it, or why it is not
/// there.
pub open spec fn expect_at(s: Seq<char>, pos: int, literal: Seq<char>) -> Result<int, ParseError> {
    if starts_with(s, pos, literal) {
        Ok(pos + literal.len())
    } else if ends_within(s, pos, literal) {
        Err(ParseError::UnexpectedEnd)
    } else {
        Err(ParseError::UnexpectedCharacter)
    }
}

/// The token in `s[from..to]`: that text without line breaks at its ends.
pub open spec fn token(s: Seq<char>, from: int, to: int) -> Seq<char> {
    trim(s.subrange(from, to))
}

/// The comparison that a token denotes.
pub open spec fn comparison_of(t: Seq<char>) -> Option<Comparison> {
    if t == "="@ {
        Some(Comparison::Eq)
    } else if t == ">"@ {
        Some(Comparison::Gt)
    } else if t == "<"@ {
        Some(Comparison::Lt)
    } else if t == "<="@ {
        Some(Comparison::Le)
    } else if t == ">="@ {
        Some(Comparison::Ge)
    } else if t == "<>"@ {
        Some(Comparison::Ne)
    } else {
        None
    }
}

/// Both scans end between where they start and the end of the source.
pub proof fn lemma_scan_bounds(s: Seq<char>, pos: int, stops: Seq<char>)
    requires
        0 <= pos <= s.len(),
    ensures
        pos <= skip_whitespace(s, pos) <= s.len(),
        pos <= find_any(s, pos, stops) <= s.len(),
    decreases s.len() - pos,
{
    if pos < s.len() {
        lemma_scan_bounds(s, pos + 1, stops);
    }
}

/// Where `skip_whitespace` ends: behind a run of white space, at a character
/// that is none or at the end.
pub proof fn lemma_skip_whitespace(s: Seq<char>, pos: int)
    requires
        0 <= pos <= s.len(),
    ensures
        forall|i: int| pos <= i < skip_whitespace(s, pos) ==> is_whitespace(#[trigger] s[i]),
        skip_whitespace(s, pos) < s.len() ==> !is_whitespace(s[skip_whitespace(s, pos)]),
    decreases s.len() - pos,
{
    if pos < s.len() && is_whitespace(s[pos]) {
        lemma_skip_whitespace(s, pos + 1);
    }
}

/// Where `find_any` ends: behind a run without delimiters, at a delimiter or
/// at the end.
pub proof fn lemma_find_any(s: Seq<char>, pos: int, stops: Seq<char>)
    requires
        0 <= pos <= s.len(),
    ensures
        forall|i: int| pos <= i < find_any(s, pos, stops) ==> !stops.contains(#[trigger] s[i]),
        find_any(s, pos, stops) < s.len() ==> stops.contains(s[find_any(s, pos, stops)]),
    decreases s.len() - pos,
{
    if pos < s.len() && !stops.contains(s[pos]) {
        lemma_find_any(s, pos + 1, stops);
    }
}

/// An operand read at `pos`, and where it ends. After white space, a quote
/// opens a text literal that runs to the next quote; a digit opens an integer
/// literal; anything else opens a column reference `table.column`.
pub open spec fn operand_at(s: Seq<char>, pos: int) -> Result<(ValueModel, int), ParseError> {
    let p = skip_whitespace(s, pos);
    if peek_at(s, p) == Some('\'') {
        let close = find_any(s, p + 1, seq!['\'']);
        if close < s.len() {
            Ok((ValueModel::Const(Scalar::Text(s.subrange(p + 1, close))), close + 1))
        } else {
            Err(ParseError::DelimiterNotFound)
        }
    } else if peek_at(s, p) is Some && is_digit(peek_at(s, p)->0) {
        let end = find_any(s, p, operand_stops());
        match integer_literal(token(s, p, end)) {
            Some(n) => Ok((ValueModel::Const(Scalar::Integer(n)), end)),
            None => Err(ParseError::InvalidNumber),
        }
    } else {
        let dot = find_any(s, p, seq!['.']);
        if dot < s.len() {
            let end = find_any(s, dot + 1, operand_stops());
            Ok(
                (
                    ValueModel::Column(
                        ColumnModel {
                            table_name: token(s, p, dot),
                            column_name: token(s, dot + 1, end),
                        },
                    ),
                    end,
                ),
            )
        } else {
            Err(ParseError::DelimiterNotFound)
        }
    }
}

/// An operand ends behind where it starts, within the source.
pub proof fn lemma_operand_bounds(s: Seq<char>, pos: int)
    requires
        0 <= pos <= s.len(),
    ensures
        operand_at(s, pos) matches Ok(r) ==> pos <= r.1 <= s.len(),
{
    let p = skip_whitespace(s, pos);
    lemma_scan_bounds(s, pos, seq![]);
    if p < s.len() {
        lemma_scan_bounds(s, p + 1, seq!['\'']);
        lemma_scan_bounds(s, p, operand_stops());
        lemma_scan_bounds(s, p, seq!['.']);
        let dot = find_any(s, p, seq!['.']);
        if dot < s.len() {
            lemma_scan_bounds(s, dot + 1, operand_stops());
        }
    } else {
        lemma_scan_bounds(s, p, seq!['.']);
    }
}

/// A predicate read at `pos`, and where it ends: an operand, a comparator
/// that ends at a space or a line feed, and an operand.
pub open spec fn predicate_at(s: Seq<char>, pos: int) -> Result<(ValueTestModel, int), ParseError> {
    match operand_at(s, pos) {
        Err(e) => Err(e),
        Ok((left, at1)) => {
            let at2 = skip_whitespace(s, at1);
            let at3 = find_any(s, at2, name_stops());
            match operand_at(s, skip_whitespace(s, at3)) {
                Err(e) => Err(e),
                Ok((right, at4)) => match comparison_of(token(s, at2, at3)) {
                    None => Err(ParseError::InvalidComparison),
                    Some(comparison) => Ok((ValueTestModel { left, comparison, right }, at4)),
                },
            }
        },
    }
}

/// A predicate ends behind where it starts, within the source.
pub proof fn lemma_predicate_bounds(s: Seq<char>, pos: int)
    requires
        0 <= pos <= s.len(),
    ensures
        predicate_at(s, pos) matches Ok(r) ==> pos <= r.1 <= s.len(),
{
    lemma_operand_bounds(s, pos);
    if let Ok((left, at1)) = operand_at(s, pos) {
        let at2 = skip_whitespace(s, at1);
        lemma_scan_bounds(s, at1, name_stops());
        let at3 = find_any(s, at2, name_stops());
        lemma_scan_bounds(s, at2, name_stops());
        lemma_scan_bounds(s, at3, name_stops());
        lemma_operand_bounds(s, skip_whitespace(s, at3));
    }
}

/// The columns of a select list read at `pos`, and where the list ends. A
/// column is `table.column`: the table's name runs to the dot, the column's
/// name to a comma, a space or a line feed. A comma after it, with white
/// space on either side, announces another column.
pub open spec fn column_list_at(s: Seq<char>, pos: int) -> Result<(Seq<ColumnModel>, int), ParseError>
    decreases s.len() - pos,
{
    let dot = find_any(s, pos, seq!['.']);
    if 0 <= pos && dot < s.len() {
        let end = find_any(s, dot + 1, select_stops());
        let column = ColumnModel {
            table_name: s.subrange(pos, dot),
            column_name: token(s, dot + 1, end),
        };
        let comma = skip_whitespace(s, end);
        if peek_at(s, comma) == Some(',') {
            let next = skip_whitespace(s, comma + 1);
            proof {
                lemma_scan_bounds(s, pos, seq!['.']);
                lemma_scan_bounds(s, dot + 1, select_stops());
                lemma_scan_bounds(s, end, seq![]);
                lemma_scan_bounds(s, comma + 1, seq![]);
            }
            match column_list_at(s, next) {
                Err(e) => Err(e),
                Ok((rest, p)) => Ok((seq![column] + rest, p)),
            }
        } else {
            Ok((seq![column], comma))
        }
    } else {
        Err(ParseError::DelimiterNotFound)
    }
}

/// The SELECT clause read at `pos`: the keyword and the select list.
pub open spec fn select_at(s: Seq<char>, pos: int) -> Result<(Seq<ColumnModel>, int), ParseError> {
    match expect_at(s, skip_whitespace(s, pos), "SELECT"@) {
        Err(e) => Err(e),
        Ok(p) => column_list_at(s, skip_whitespace(s, p)),
    }
}

/// The FROM clause read at `pos`: the keyword and the name of the table,
/// which runs to a space or a line feed.
pub open spec fn from_at(s: Seq<char>, pos: int) -> Result<(Seq<char>, int), ParseError> {
    match expect_at(s, skip_whitespace(s, pos), "FROM"@) {
        Err(e) => Err(e),
        Ok(p) => {
            let start = skip_whitespace(s, p);
            let end = find_any(s, start, name_stops());
            Ok((token(s, start, end), end))
        },
    }
}

/// The JOIN clauses read at `pos`, and where they end. There is one for
/// each time that, after white space, the keyword JOIN stands in the source.
pub open spec fn joins_at(s: Seq<char>, pos: int) -> Result<(Seq<JoinModel>, int), ParseError>
    decreases s.len() - pos,
{
    let at0 = skip_whitespace(s, pos);
    if 0 <= pos && starts_with(s, at0, "JOIN"@) {
        let at1 = skip_whitespace(s, at0 + "JOIN"@.len());
        let at2 = find_any(s, at1, name_stops());
        match expect_at(s, skip_whitespace(s, at2), "ON"@) {
            Err(e) => Err(e),
            Ok(at3) => match predicate_at(s, skip_whitespace(s, at3)) {
                Err(e) => Err(e),
                Ok((on, at4)) => {
                    proof {
                        reveal_strlit("JOIN");
                        lemma_scan_bounds(s, pos, name_stops());
                        lemma_scan_bounds(s, at0 + 4, name_stops());
                        lemma_scan_bounds(s, at1, name_stops());
                        lemma_scan_bounds(s, at2, name_stops());
                        lemma_scan_bounds(s, at3, name_stops());
                        lemma_predicate_bounds(s, skip_whitespace(s, at3));
                    }
                    match joins_at(s, at4) {
                        Err(e) => Err(e),
                        Ok((rest, at5)) => Ok(
                            (seq![JoinModel { table_name: token(s, at1, at2), on }] + rest, at5),
                        ),
                    }
                },
            },
        }
    } else {
        Ok((Seq::empty(), at0))
    }
}

/// The WHERE clause read at `pos`, and where it ends. There is one if,
/// after white space, the keyword WHERE stands in the source.
pub open spec fn where_at(s: Seq<char>, pos: int) -> Result<(Option<ValueTestModel>, int), ParseError> {
    let at0 = skip_whitespace(s, pos);
    if starts_with(s, at0, "WHERE"@) {
        match predicate_at(s, skip_whitespace(s, at0 + "WHERE"@.len())) {
            Err(e) => Err(e),
            Ok((test, p)) => Ok((Some(test), p)),
        }
    } else {
        Ok((None, at0))
    }
}

/// The four clauses read at `pos`, in their fixed order, and where the
/// last one ends.
pub open spec fn query_at(s: Seq<char>, pos: int) -> Result<(QueryModel, int), ParseError> {
    match select_at(s, pos) {
        Err(e) => Err(e),
        Ok((select, at1)) => match from_at(s, at1) {
            Err(e) => Err(e),
            Ok((from, at2)) => match joins_at(s, at2) {
                Err(e) => Err(e),
                Ok((joins, at3)) => match where_at(s, at3) {
                    Err(e) => Err(e),
                    Ok((where_clause, at4)) => Ok(
                        (QueryModel { select, from, joins, where_clause }, at4),
                    ),
                },
            },
        },
    }
}

/// A whole query read at `pos`: the four clauses in their fixed order, and
/// nothing but white space behind the last of them.
pub open spec fn whole_query_at(s: Seq<char>, pos: int) -> Result<QueryModel, ParseError> {
    match query_at(s, pos) {
        Err(e) => Err(e),
        Ok((query, end)) => if skip_whitespace(s, end) == s.len() {
            Ok(query)
        } else {
            Err(ParseError::UnexpectedCharacter)
        },
    }
}

/// The query that a text denotes, or why it denotes none.
pub open spec fn parse_text(s: Seq<char>) -> Result<QueryModel, ParseError> {
    whole_query_at(s, 0)
}

} // verus!

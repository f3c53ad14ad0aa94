//! The parser: a cursor over the source and a recursive-descent reader
//! that turns query text into a `Query`.

use crate::grammar::{
    column_list_at, comparison_of, expect_at, find_any, from_at, joins_at, lemma_operand_bounds,
    lemma_scan_bounds, lemma_skip_whitespace, name_stops, operand_at, operand_stops, parse_text,
    peek_at, predicate_at, query_at, select_at, select_stops, skip_whitespace, starts_with,
    where_at, whole_query_at, ColumnModel, JoinModel, QueryModel, Scalar, ValueModel, ValueTestModel,
};
pub use crate::grammar::{Comparison, ParseError};
use crate::text::{
    chars_of, holds_char, integer_text, integer_to_text, is_whitespace, is_whitespace_char,
    parse_integer, qualified, qualified_name, same_text, string_of, trimmed,
};
use vstd::prelude::*;
use vstd::std_specs::iter::IteratorSpec;

verus! {

/// Represents a parsed SQL query.
#[derive(Debug)]
pub struct Query {
    pub select: Vec<Column>,
    pub from: String,
    pub joins: Vec<Join>,
    pub where_clause: Option<ValueTest>,
    pub input: Input,
}

/// Represents the input string being parsed: its characters and a cursor.
#[derive(Debug)]
pub struct Input {
    src: Vec<char>,
    pos: usize,
}

/// Represents a column in a SQL query.
#[derive(Debug)]
pub struct Column {
    pub table_name: String,
    pub column_name: String,
}

/// Represents a JOIN clause in a SQL query.
#[derive(Debug)]
pub struct Join {
    pub table_name: String,
    pub on: ValueTest,
}

/// Represents a value test (e.g., a condition in a WHERE clause).
#[derive(Debug)]
pub struct ValueTest {
    pub left: Value,
    pub comparison: Comparison,
    pub right: Value,
}

/// Represents a value in a SQL query, which can be a column or a constant.
#[derive(Debug)]
pub enum Value {
    Column(Column),
    Const(Const),
}

/// Represents a constant value in a SQL query, which can be a number or a string.
#[derive(Debug)]
pub enum Const {
    Number(i64),
    String(String),
}

impl View for Const {
    type V = Scalar;

    open spec fn view(&self) -> Scalar {
        match self {
            Const::Number(n) => Scalar::Integer(*n),
            Const::String(s) => Scalar::Text(s@),
        }
    }
}

impl View for Column {
    type V = ColumnModel;

    open spec fn view(&self) -> ColumnModel {
        ColumnModel { table_name: self.table_name@, column_name: self.column_name@ }
    }
}

impl View for Value {
    type V = ValueModel;

    open spec fn view(&self) -> ValueModel {
        match self {
            Value::Column(c) => ValueModel::Column(c@),
            Value::Const(c) => ValueModel::Const(c@),
        }
    }
}

impl View for ValueTest {
    type V = ValueTestModel;

    open spec fn view(&self) -> ValueTestModel {
        ValueTestModel { left: self.left@, comparison: self.comparison, right: self.right@ }
    }
}

impl View for Join {
    type V = JoinModel;

    open spec fn view(&self) -> JoinModel {
        JoinModel { table_name: self.table_name@, on: self.on@ }
    }
}

/// What a list of columns denotes.
pub open spec fn columns_model(columns: Seq<Column>) -> Seq<ColumnModel> {
    columns.map_values(|c: Column| c@)
}

/// What a list of joins denotes.
pub open spec fn joins_model(joins: Seq<Join>) -> Seq<JoinModel> {
    joins.map_values(|j: Join| j@)
}

/// What an optional predicate denotes.
pub open spec fn filter_model(filter: Option<ValueTest>) -> Option<ValueTestModel> {
    match filter {
        Some(test) => Some(test@),
        None => None,
    }
}

impl View for Query {
    type V = QueryModel;

    open spec fn view(&self) -> QueryModel {
        QueryModel {
            select: columns_model(self.select@),
            from: self.from@,
            joins: joins_model(self.joins@),
            where_clause: filter_model(self.where_clause),
        }
    }
}

impl Clone for Const {
    fn clone(&self) -> (r: Self)
        ensures
            r@ == self@,
    {
        match self {
            Const::Number(n) => Const::Number(*n),
            Const::String(s) => Const::String(s.clone()),
        }
    }
}

impl Clone for Column {
    fn clone(&self) -> (r: Self)
        ensures
            r@ == self@,
    {
        Column { table_name: self.table_name.clone(), column_name: self.column_name.clone() }
    }
}

impl Clone for Value {
    fn clone(&self) -> (r: Self)
        ensures
            r@ == self@,
    {
        match self {
            Value::Column(c) => Value::Column(c.clone()),
            Value::Const(c) => Value::Const(c.clone()),
        }
    }
}

impl Comparison {
    /// Converts a token into the comparison that it denotes.
    pub fn from_str(s: &str) -> (r: Result<Comparison, ()>)
        ensures
            match comparison_of(s@) {
                Some(c) => r == Ok::<Comparison, ()>(c),
                None => r is Err,
            },
    {
        if same_text(s, "=") {
            Ok(Comparison::Eq)
        } else if same_text(s, ">") {
            Ok(Comparison::Gt)
        } else if same_text(s, "<") {
            Ok(Comparison::Lt)
        } else if same_text(s, "<=") {
            Ok(Comparison::Le)
        } else if same_text(s, ">=") {
            Ok(Comparison::Ge)
        } else if same_text(s, "<>") {
            Ok(Comparison::Ne)
        } else {
            Err(())
        }
    }
}

/// The result of reading a list, with what was read before put in front.
pub open spec fn after<T>(head: Seq<T>, rest: Result<(Seq<T>, int), ParseError>) -> Result<
    (Seq<T>, int),
    ParseError,
> {
    match rest {
        Ok((tail, p)) => Ok((head + tail, p)),
        Err(e) => Err(e),
    }
}

impl Input {
    #[verifier::type_invariant]
    spec fn cursor_in_source(self) -> bool {
        self.pos <= self.src.len()
    }

    /// The characters of the source.
    pub closed spec fn source(&self) -> Seq<char> {
        self.src@
    }

    /// The cursor: how many characters have been read.
    pub closed spec fn position(&self) -> int {
        self.pos as int
    }

    /// Creates a new Input instance from a source string, the cursor at
    /// its start.
    pub fn new(src: &str) -> (input: Self)
        ensures
            input.source() == src@,
            input.position() == 0,
    {
        Input { src: chars_of(src), pos: 0 }
    }

    /// How many characters have been read.
    pub fn offset(&self) -> (n: usize)
        ensures
            n == self.position(),
            0 <= self.position() <= self.source().len(),
    {
        proof {
            use_type_invariant(self);
        }
        self.pos
    }

    /// Moves the cursor back to `pos`.
    fn rewind(&mut self, pos: usize)
        requires
            pos <= old(self).position(),
        ensures
            final(self).source() == old(self).source(),
            final(self).position() == pos,
    {
        proof {
            use_type_invariant(&*self);
        }
        self.pos = pos;
    }

    /// Consumes whitespace characters from the input.
    pub fn consume_whitespace(&mut self)
        ensures
            final(self).source() == old(self).source(),
            final(self).position() == skip_whitespace(old(self).source(), old(self).position()),
    {
        proof {
            use_type_invariant(&*self);
        }
        let mut at: usize = self.pos;
        while at < self.src.len() && is_whitespace_char(self.src[at])
            invariant
                self.pos <= at <= self.src.len(),
                skip_whitespace(self.src@, self.pos as int) == skip_whitespace(self.src@, at as int),
            decreases self.src.len() - at,
        {
            at += 1;
        }
        self.pos = at;
    }

    /// Returns the next character from the input, advancing the position.
    pub fn next(&mut self) -> (c: Option<char>)
        ensures
            final(self).source() == old(self).source(),
            c == peek_at(old(self).source(), old(self).position()),
            final(self).position() == old(self).position() + (if c is Some {
                1int
            } else {
                0int
            }),
    {
        proof {
            use_type_invariant(&*self);
        }
        if self.pos < self.src.len() {
            let c = self.src[self.pos];
            self.pos += 1;
            Some(c)
        } else {
            None
        }
    }

    /// Peeks at the next character without advancing the position.
    pub fn peek(&self) -> (c: Option<char>)
        ensures
            c == peek_at(self.source(), self.position()),
    {
        proof {
            use_type_invariant(self);
        }
        if self.pos < self.src.len() {
            Some(self.src[self.pos])
        } else {
            None
        }
    }

    /// Whether `literal` stands at the cursor.
    pub fn looking_at(&self, literal: &str) -> (r: bool)
        ensures
            r == starts_with(self.source(), self.position(), literal@),
    {
        proof {
            use_type_invariant(self);
        }
        let mut it = literal.chars();
        let mut at: usize = self.pos;
        loop
            invariant
                self.pos <= at <= self.src.len(),
                it.obeys_prophetic_iter_laws(),
                it.decrease() is Some,
                literal@ == self.src@.subrange(self.pos as int, at as int) + it.remaining(),
            decreases it.decrease()->0,
        {
            match it.next() {
                None => {
                    assert(literal@ =~= self.src@.subrange(self.pos as int, at as int));
                    return true;
                },
                Some(c) => {
                    if at >= self.src.len() {
                        return false;
                    }
                    if self.src[at] != c {
                        assert(literal@[at - self.pos] == c);
                        assert(self.pos + literal@.len() <= self.src.len() ==> self.src@.subrange(
                            self.pos as int,
                            self.pos + literal@.len(),
                        )[at - self.pos] == self.src[at as int]);
                        return false;
                    }
                    assert(self.src@.subrange(self.pos as int, at as int + 1)
                        =~= self.src@.subrange(self.pos as int, at as int).push(c));
                    at += 1;
                },
            }
        }
    }

    /// Consumes characters until the specified character is encountered,
    /// and returns them. The cursor stops at that character. Where the
    /// source ends before it, nothing is consumed.
    pub fn consume_until(&mut self, until: char) -> (r: Result<String, ParseError>)
        ensures
            final(self).source() == old(self).source(),
            ({
                let s = old(self).source();
                let end = find_any(s, old(self).position(), seq![until]);
                if end < s.len() {
                    &&& r matches Ok(t)
                    &&& t@ == s.subrange(old(self).position(), end)
                    &&& final(self).position() == end
                    &&& s[end] == until
                } else {
                    &&& r == Err::<String, ParseError>(ParseError::DelimiterNotFound)
                    &&& final(self).position() == old(self).position()
                }
            }),
    {
        proof {
            use_type_invariant(&*self);
        }
        let start = self.pos;
        let mut at: usize = self.pos;
        while at < self.src.len() && self.src[at] != until
            invariant
                self.pos <= at <= self.src.len(),
                find_any(self.src@, self.pos as int, seq![until]) == find_any(
                    self.src@,
                    at as int,
                    seq![until],
                ),
            decreases self.src.len() - at,
        {
            assert(seq![until].contains(self.src@[at as int]) ==> self.src@[at as int] == until);
            at += 1;
        }
        if at < self.src.len() {
            assert(seq![until][0] == until);
            self.pos = at;
            Ok(string_of(&self.src, start, at))
        } else {
            Err(ParseError::DelimiterNotFound)
        }
    }

    /// Consumes characters until any of the specified characters is
    /// encountered, or the source ends, and returns them.
    pub fn consume_until_any(&mut self, until: &[char]) -> (t: String)
        ensures
            final(self).source() == old(self).source(),
            final(self).position() == find_any(old(self).source(), old(self).position(), until@),
            t@ == old(self).source().subrange(old(self).position(), final(self).position()),
    {
        proof {
            use_type_invariant(&*self);
        }
        let start = self.pos;
        let mut at: usize = self.pos;
        while at < self.src.len() && !holds_char(until, self.src[at])
            invariant
                self.pos <= at <= self.src.len(),
                find_any(self.src@, self.pos as int, until@) == find_any(
                    self.src@,
                    at as int,
                    until@,
                ),
            decreases self.src.len() - at,
        {
            at += 1;
        }
        self.pos = at;
        string_of(&self.src, start, at)
    }

    /// Expects the next characters to match the specified string, and
    /// consumes them. Where they do not, nothing is consumed.
    pub fn expect(&mut self, expected: &str) -> (r: Result<(), ParseError>)
        ensures
            final(self).source() == old(self).source(),
            match expect_at(old(self).source(), old(self).position(), expected@) {
                Ok(p) => r is Ok && final(self).position() == p,
                Err(e) => r == Err::<(), ParseError>(e) && final(self).position() == old(
                    self,
                ).position(),
            },
    {
        proof {
            use_type_invariant(&*self);
        }
        let mut it = expected.chars();
        let mut at: usize = self.pos;
        loop
            invariant
                self.pos <= at <= self.src.len(),
                it.obeys_prophetic_iter_laws(),
                it.decrease() is Some,
                expected@ == self.src@.subrange(self.pos as int, at as int) + it.remaining(),
                *self == *old(self),
            decreases it.decrease()->0,
        {
            match it.next() {
                None => {
                    assert(expected@ =~= self.src@.subrange(self.pos as int, at as int));
                    self.pos = at;
                    return Ok(());
                },
                Some(c) => {
                    if at >= self.src.len() {
                        assert(self.src@.subrange(self.pos as int, self.src.len() as int)
                            =~= expected@.take(self.src.len() - self.pos));
                        return Err(ParseError::UnexpectedEnd);
                    }
                    if self.src[at] != c {
                        assert(expected@[at - self.pos] == c);
                        assert(self.pos + expected@.len() <= self.src.len()
                            ==> self.src@.subrange(self.pos as int, self.pos + expected@.len())[at
                            - self.pos] == self.src[at as int]);
                        assert(self.src@.subrange(self.pos as int, self.src.len() as int)[at
                            - self.pos] == self.src[at as int]);
                        assert(self.src.len() - self.pos < expected@.len() ==> expected@.take(
                            self.src.len() - self.pos,
                        )[at - self.pos] == c);
                        return Err(ParseError::UnexpectedCharacter);
                    }
                    assert(self.src@.subrange(self.pos as int, at as int + 1)
                        =~= self.src@.subrange(self.pos as int, at as int).push(c));
                    at += 1;
                },
            }
        }
    }

    /// Reads an operand at the cursor.
    fn read_operand(&mut self) -> (r: Result<Value, ParseError>)
        ensures
            final(self).source() == old(self).source(),
            old(self).position() <= final(self).position() <= old(self).source().len(),
            match operand_at(old(self).source(), old(self).position()) {
                Ok((v, p)) => r matches Ok(x) && x@ == v && final(self).position() == p,
                Err(e) => r matches Err(x) && x == e,
            },
    {
        proof {
            use_type_invariant(&*self);
            lemma_operand_bounds(self.source(), self.position());
            lemma_scan_bounds(self.source(), self.position(), seq![]);
        }
        self.consume_whitespace();
        let first = self.peek();
        let ghost p = self.position();
        proof {
            use_type_invariant(&*self);
            reveal_strlit("'");
            reveal_strlit(".");
        }
        match first {
            Some(c) => {
                if c == '\'' {
                    self.next();
                    let text = self.consume_until('\'')?;
                    proof {
                        lemma_scan_bounds(self.source(), p + 1, seq!['\'']);
                        assert(self.source().subrange(self.position(), self.position() + 1)
                            =~= "'"@);
                    }
                    self.expect("'")?;
                    return Ok(Value::Const(Const::String(text)));
                } else if c >= '0' && c <= '9' {
                    let literal = trimmed(self.consume_until_any(&[' ', '\n', '\r']).as_str());
                    proof {
                        assert([' ', '\n', '\r']@ =~= operand_stops());
                        lemma_scan_bounds(self.source(), p, operand_stops());
                    }
                    return match parse_integer(literal.as_str()) {
                        Some(n) => Ok(Value::Const(Const::Number(n))),
                        None => Err(ParseError::InvalidNumber),
                    };
                }
            },
            None => {},
        }
        let table = self.consume_until('.')?;
        proof {
            lemma_scan_bounds(self.source(), p, seq!['.']);
            assert(self.source().subrange(self.position(), self.position() + 1) =~= "."@);
        }
        let table_name = trimmed(table.as_str());
        self.expect(".")?;
        let ghost dot = self.position();
        let column_name = trimmed(self.consume_until_any(&[' ', '\n', '\r']).as_str());
        proof {
            assert([' ', '\n', '\r']@ =~= operand_stops());
            lemma_scan_bounds(self.source(), dot, operand_stops());
        }
        Ok(Value::Column(Column { table_name, column_name }))
    }

    /// Reads a predicate at the cursor.
    fn read_predicate(&mut self) -> (r: Result<ValueTest, ParseError>)
        ensures
            final(self).source() == old(self).source(),
            old(self).position() <= final(self).position() <= old(self).source().len(),
            match predicate_at(old(self).source(), old(self).position()) {
                Ok((v, p)) => r matches Ok(x) && x@ == v && final(self).position() == p,
                Err(e) => r matches Err(x) && x == e,
            },
    {
        let ghost s = self.source();
        let left = self.read_operand()?;
        let ghost at1 = self.position();
        self.consume_whitespace();
        let ghost at2 = self.position();
        let comparator = trimmed(self.consume_until_any(&[' ', '\n']).as_str());
        let ghost at3 = self.position();
        self.consume_whitespace();
        proof {
            assert([' ', '\n']@ =~= name_stops());
            lemma_scan_bounds(s, at1, name_stops());
            lemma_scan_bounds(s, at2, name_stops());
            lemma_scan_bounds(s, at3, name_stops());
        }
        let right = self.read_operand()?;
        match Comparison::from_str(comparator.as_str()) {
            Ok(comparison) => Ok(ValueTest { left, comparison, right }),
            Err(_) => Err(ParseError::InvalidComparison),
        }
    }

    /// Reads the SELECT clause at the cursor.
    fn read_select(&mut self) -> (r: Result<Vec<Column>, ParseError>)
        ensures
            final(self).source() == old(self).source(),
            old(self).position() <= final(self).position() <= old(self).source().len(),
            match select_at(old(self).source(), old(self).position()) {
                Ok((v, p)) => r matches Ok(x) && columns_model(x@) == v && final(self).position()
                    == p,
                Err(e) => r matches Err(x) && x == e,
            },
    {
        let ghost s = self.source();
        let ghost at0 = self.position();
        proof {
            use_type_invariant(&*self);
            lemma_scan_bounds(s, at0, seq![]);
        }
        self.consume_whitespace();
        self.expect("SELECT")?;
        proof {
            use_type_invariant(&*self);
            lemma_scan_bounds(s, self.position(), seq![]);
        }
        self.consume_whitespace();
        let ghost start = self.position();
        let mut columns: Vec<Column> = Vec::new();
        proof {
            if let Ok((tail, p)) = column_list_at(s, start) {
                assert(columns_model(columns@) + tail =~= tail);
            }
        }
        loop
            invariant
                self.source() == s,
                s == old(self).source(),
                at0 == old(self).position(),
                at0 <= self.position() <= s.len(),
                select_at(s, at0) == after(columns_model(columns@), column_list_at(s, self.position())),
            decreases s.len() - self.position(),
        {
            let ghost at = self.position();
            let ghost before = columns@;
            proof {
                reveal_strlit(".");
                lemma_scan_bounds(s, at, seq!['.']);
            }
            let table_name = self.consume_until('.')?;
            proof {
                assert(s.subrange(self.position(), self.position() + 1) =~= "."@);
            }
            self.expect(".")?;
            let ghost dot = self.position();
            let column_name = trimmed(self.consume_until_any(&[',', ' ', '\n']).as_str());
            let ghost end = self.position();
            proof {
                assert([',', ' ', '\n']@ =~= select_stops());
                lemma_scan_bounds(s, dot, select_stops());
                lemma_scan_bounds(s, end, seq![]);
            }
            let column = Column { table_name, column_name };
            let ghost model = column@;
            columns.push(column);
            self.consume_whitespace();
            let ghost comma = self.position();
            proof {
                assert(columns_model(columns@) =~= columns_model(before) + seq![model]);
            }
            let more = match self.peek() {
                Some(c) => c == ',',
                None => false,
            };
            if more {
                self.next();
                proof {
                    lemma_scan_bounds(s, comma + 1, seq![]);
                }
                self.consume_whitespace();
                proof {
                    let rest = column_list_at(s, self.position());
                    if let Ok((tail, p)) = rest {
                        assert(columns_model(before) + (seq![model] + tail) =~= columns_model(
                            columns@,
                        ) + tail);
                    }
                }
            } else {
                proof {
                    assert(columns_model(before) + seq![model] =~= columns_model(columns@));
                }
                return Ok(columns);
            }
        }
    }

    /// Reads the FROM clause at the cursor.
    fn read_from(&mut self) -> (r: Result<String, ParseError>)
        ensures
            final(self).source() == old(self).source(),
            old(self).position() <= final(self).position() <= old(self).source().len(),
            match from_at(old(self).source(), old(self).position()) {
                Ok((v, p)) => r matches Ok(x) && x@ == v && final(self).position() == p,
                Err(e) => r matches Err(x) && x == e,
            },
    {
        let ghost s = self.source();
        proof {
            use_type_invariant(&*self);
            lemma_scan_bounds(s, self.position(), seq![]);
        }
        self.consume_whitespace();
        self.expect("FROM")?;
        proof {
            use_type_invariant(&*self);
            lemma_scan_bounds(s, self.position(), seq![]);
        }
        self.consume_whitespace();
        proof {
            assert([' ', '\n']@ =~= name_stops());
            lemma_scan_bounds(s, self.position(), name_stops());
        }
        Ok(trimmed(self.consume_until_any(&[' ', '\n']).as_str()))
    }

    /// Reads the JOIN clauses at the cursor.
    fn read_joins(&mut self) -> (r: Result<Vec<Join>, ParseError>)
        ensures
            final(self).source() == old(self).source(),
            old(self).position() <= final(self).position() <= old(self).source().len(),
            match joins_at(old(self).source(), old(self).position()) {
                Ok((v, p)) => r matches Ok(x) && joins_model(x@) == v && final(self).position()
                    == p,
                Err(e) => r matches Err(x) && x == e,
            },
    {
        let ghost s = self.source();
        let ghost at0 = self.position();
        proof {
            use_type_invariant(&*self);
            lemma_scan_bounds(s, at0, seq![]);
            lemma_skip_whitespace(s, at0);
        }
        self.consume_whitespace();
        let mut joins: Vec<Join> = Vec::new();
        proof {
            lemma_skip_twice(s, at0);
            assert(joins_at(s, at0) == joins_at(s, self.position()));
            if let Ok((tail, p)) = joins_at(s, self.position()) {
                assert(joins_model(joins@) + tail =~= tail);
            }
        }
        while self.looking_at("JOIN")
            invariant
                self.source() == s,
                s == old(self).source(),
                at0 == old(self).position(),
                at0 <= self.position() <= s.len(),
                skip_whitespace(s, self.position()) == self.position(),
                joins_at(s, at0) == after(joins_model(joins@), joins_at(s, self.position())),
            decreases s.len() - self.position(),
        {
            let ghost at = self.position();
            let ghost before = joins@;
            proof {
                reveal_strlit("JOIN");
            }
            self.expect("JOIN")?;
            proof {
                lemma_scan_bounds(s, at + 4, seq![]);
            }
            self.consume_whitespace();
            let ghost at1 = self.position();
            let table_name = trimmed(self.consume_until_any(&[' ', '\n']).as_str());
            let ghost at2 = self.position();
            proof {
                assert([' ', '\n']@ =~= name_stops());
                lemma_scan_bounds(s, at1, name_stops());
                lemma_scan_bounds(s, at2, seq![]);
            }
            self.consume_whitespace();
            self.expect("ON")?;
            proof {
                use_type_invariant(&*self);
                lemma_scan_bounds(s, self.position(), seq![]);
            }
            self.consume_whitespace();
            let on = self.read_predicate()?;
            let ghost at4 = self.position();
            let join = Join { table_name, on };
            let ghost model = join@;
            joins.push(join);
            proof {
                lemma_scan_bounds(s, at4, seq![]);
                lemma_skip_twice(s, at4);
            }
            self.consume_whitespace();
            proof {
                assert(joins_model(joins@) =~= joins_model(before) + seq![model]);
                assert(joins_at(s, at4) == joins_at(s, self.position()));
                if let Ok((tail, p)) = joins_at(s, at4) {
                    assert(joins_model(before) + (seq![model] + tail) =~= joins_model(joins@)
                        + tail);
                }
            }
        }
        proof {
            assert(joins_model(joins@) + Seq::<JoinModel>::empty() =~= joins_model(joins@));
        }
        Ok(joins)
    }

    /// Reads the WHERE clause at the cursor, if there is one.
    fn read_where(&mut self) -> (r: Result<Option<ValueTest>, ParseError>)
        ensures
            final(self).source() == old(self).source(),
            old(self).position() <= final(self).position() <= old(self).source().len(),
            match where_at(old(self).source(), old(self).position()) {
                Ok((v, p)) => r matches Ok(x) && filter_model(x) == v && final(self).position()
                    == p,
                Err(e) => r matches Err(x) && x == e,
            },
    {
        let ghost s = self.source();
        proof {
            use_type_invariant(&*self);
            lemma_scan_bounds(s, self.position(), seq![]);
        }
        self.consume_whitespace();
        if self.looking_at("WHERE") {
            proof {
                reveal_strlit("WHERE");
                lemma_scan_bounds(s, self.position() + 5, seq![]);
            }
            self.expect("WHERE")?;
            self.consume_whitespace();
            let test = self.read_predicate()?;
            Ok(Some(test))
        } else {
            Ok(None)
        }
    }
}

/// Skipping white space twice ends where skipping it once ends.
proof fn lemma_skip_twice(s: Seq<char>, pos: int)
    requires
        0 <= pos <= s.len(),
    ensures
        skip_whitespace(s, skip_whitespace(s, pos)) == skip_whitespace(s, pos),
    decreases s.len() - pos,
{
    if pos < s.len() && is_whitespace(s[pos]) {
        lemma_skip_twice(s, pos + 1);
    }
}

impl Const {
    /// Converts a constant value to a string: an integer in decimal, a text
    /// as it is.
    pub fn to_string(&self) -> (t: String)
        ensures
            t@ == match self@ {
                Scalar::Integer(n) => integer_text(n as int),
                Scalar::Text(s) => s,
            },
    {
        match self {
            Const::Number(n) => integer_to_text(*n),
            Const::String(s) => s.clone(),
        }
    }
}

impl Value {
    /// Converts a `Value` to a string: a column as its qualified key, a
    /// constant as `Const::to_string` has it.
    pub fn to_string(&self) -> (t: String)
        ensures
            t@ == match self@ {
                ValueModel::Column(c) => qualified(c.table_name, c.column_name),
                ValueModel::Const(Scalar::Integer(n)) => integer_text(n as int),
                ValueModel::Const(Scalar::Text(s)) => s,
            },
    {
        match self {
            Value::Column(c) => qualified_name(c.table_name.as_str(), c.column_name.as_str()),
            Value::Const(c) => c.to_string(),
        }
    }

    /// Extracts a constant value if the `Value` is a constant.
    pub fn get_const(&self) -> (r: Option<Const>)
        ensures
            match self@ {
                ValueModel::Const(c) => r matches Some(x) && x@ == c,
                ValueModel::Column(_) => r is None,
            },
    {
        match self {
            Value::Const(c) => Some(c.clone()),
            Value::Column(_) => None,
        }
    }

    /// Gets the table name from a `Value` that is a column.
    pub fn get_table_name(&self) -> (name: &str)
        requires
            self is Column,
        ensures
            self@ matches ValueModel::Column(c) && name@ == c.table_name,
    {
        match self {
            Value::Column(c) => c.table_name.as_str(),
            Value::Const(_) => "",
        }
    }

    /// Gets the column name from a `Value` that is a column.
    pub fn get_column_name(&self) -> (name: &str)
        requires
            self is Column,
        ensures
            self@ matches ValueModel::Column(c) && name@ == c.column_name,
    {
        match self {
            Value::Column(c) => c.column_name.as_str(),
            Value::Const(_) => "",
        }
    }
}

/// The query that has the clauses of `first` and, after them, those of
/// `second`: the select lists and the joins one after the other, the table
/// of `second`, and the filter of `second` if it has one.
pub open spec fn extended(first: QueryModel, second: QueryModel) -> QueryModel {
    QueryModel {
        select: first.select + second.select,
        from: second.from,
        joins: first.joins + second.joins,
        where_clause: if second.where_clause is Some {
            second.where_clause
        } else {
            first.where_clause
        },
    }
}

impl Query {
    /// The characters of the source.
    pub open spec fn source(&self) -> Seq<char> {
        self.input.source()
    }

    /// How many characters of the source have been read.
    pub open spec fn position(&self) -> int {
        self.input.position()
    }

    /// Creates a new Query instance from an input string: no clause yet,
    /// the cursor at the start of the input.
    pub fn new(input: &str) -> (q: Self)
        ensures
            q.source() == input@,
            q.position() == 0,
            q@.select.len() == 0,
            q@.from.len() == 0,
            q@.joins.len() == 0,
            q@.where_clause is None,
    {
        Query {
            select: Vec::new(),
            from: String::new(),
            joins: Vec::new(),
            where_clause: None,
            input: Input::new(input),
        }
    }

    /// Parses the SQL query: the four clauses in their order, and the
    /// white space behind them, up to the end of the source. Where a
    /// clause fails, or where something other than white space follows
    /// the last clause, the query is left as it was.
    pub fn parse(&mut self) -> (r: Result<(), ParseError>)
        ensures
            final(self).source() == old(self).source(),
            match whole_query_at(old(self).source(), old(self).position()) {
                Ok(q) => {
                    &&& r is Ok
                    &&& final(self)@ == extended(old(self)@, q)
                    &&& final(self).position() == old(self).source().len()
                },
                Err(e) => {
                    &&& r == Err::<(), ParseError>(e)
                    &&& final(self)@ == old(self)@
                    &&& final(self).position() == old(self).position()
                },
            },
    {
        let start = self.input.offset();
        let ghost s = self.source();
        let mut select = match self.input.read_select() {
            Ok(v) => v,
            Err(e) => {
                self.input.rewind(start);
                return Err(e);
            },
        };
        let from = match self.input.read_from() {
            Ok(v) => v,
            Err(e) => {
                self.input.rewind(start);
                return Err(e);
            },
        };
        let mut joins = match self.input.read_joins() {
            Ok(v) => v,
            Err(e) => {
                self.input.rewind(start);
                return Err(e);
            },
        };
        let filter = match self.input.read_where() {
            Ok(v) => v,
            Err(e) => {
                self.input.rewind(start);
                return Err(e);
            },
        };
        proof {
            lemma_scan_bounds(s, self.position(), seq![]);
        }
        self.input.consume_whitespace();
        proof {
            use_type_invariant(&self.input);
        }
        match self.input.peek() {
            Some(_) => {
                self.input.rewind(start);
                return Err(ParseError::UnexpectedCharacter);
            },
            None => {},
        }
        proof {
            assert(columns_model(self.select@ + select@) =~= columns_model(self.select@)
                + columns_model(select@));
            assert(joins_model(self.joins@ + joins@) =~= joins_model(self.joins@) + joins_model(
                joins@,
            ));
        }
        self.select.append(&mut select);
        self.from = from;
        self.joins.append(&mut joins);
        if filter.is_some() {
            self.where_clause = filter;
        }
        Ok(())
    }

    /// Parses the SELECT clause of the SQL query, and adds its columns to
    /// the select list.
    pub fn parse_select(&mut self) -> (r: Result<(), ParseError>)
        ensures
            final(self).source() == old(self).source(),
            final(self)@.from == old(self)@.from,
            final(self)@.joins == old(self)@.joins,
            final(self)@.where_clause == old(self)@.where_clause,
            match select_at(old(self).source(), old(self).position()) {
                Ok((columns, p)) => {
                    &&& r is Ok
                    &&& final(self)@.select == old(self)@.select + columns
                    &&& final(self).position() == p
                },
                Err(e) => {
                    &&& r == Err::<(), ParseError>(e)
                    &&& final(self)@.select == old(self)@.select
                    &&& final(self).position() == old(self).position()
                },
            },
    {
        let start = self.input.offset();
        match self.input.read_select() {
            Ok(mut columns) => {
                proof {
                    assert(columns_model(self.select@ + columns@) =~= columns_model(self.select@)
                        + columns_model(columns@));
                }
                self.select.append(&mut columns);
                Ok(())
            },
            Err(e) => {
                self.input.rewind(start);
                Err(e)
            },
        }
    }

    /// Parses the FROM clause of the SQL query, and sets the table.
    pub fn parse_from(&mut self) -> (r: Result<(), ParseError>)
        ensures
            final(self).source() == old(self).source(),
            final(self)@.select == old(self)@.select,
            final(self)@.joins == old(self)@.joins,
            final(self)@.where_clause == old(self)@.where_clause,
            match from_at(old(self).source(), old(self).position()) {
                Ok((table, p)) => {
                    &&& r is Ok
                    &&& final(self)@.from == table
                    &&& final(self).position() == p
                },
                Err(e) => {
                    &&& r == Err::<(), ParseError>(e)
                    &&& final(self)@.from == old(self)@.from
                    &&& final(self).position() == old(self).position()
                },
            },
    {
        let start = self.input.offset();
        match self.input.read_from() {
            Ok(table) => {
                self.from = table;
                Ok(())
            },
            Err(e) => {
                self.input.rewind(start);
                Err(e)
            },
        }
    }

    /// Parses the JOIN clauses of the SQL query, and adds them to the joins.
    pub fn parse_joins(&mut self) -> (r: Result<(), ParseError>)
        ensures
            final(self).source() == old(self).source(),
            final(self)@.select == old(self)@.select,
            final(self)@.from == old(self)@.from,
            final(self)@.where_clause == old(self)@.where_clause,
            match joins_at(old(self).source(), old(self).position()) {
                Ok((joins, p)) => {
                    &&& r is Ok
                    &&& final(self)@.joins == old(self)@.joins + joins
                    &&& final(self).position() == p
                },
                Err(e) => {
                    &&& r == Err::<(), ParseError>(e)
                    &&& final(self)@.joins == old(self)@.joins
                    &&& final(self).position() == old(self).position()
                },
            },
    {
        let start = self.input.offset();
        match self.input.read_joins() {
            Ok(mut joins) => {
                proof {
                    assert(joins_model(self.joins@ + joins@) =~= joins_model(self.joins@)
                        + joins_model(joins@));
                }
                self.joins.append(&mut joins);
                Ok(())
            },
            Err(e) => {
                self.input.rewind(start);
                Err(e)
            },
        }
    }

    /// Parses the WHERE clause of the SQL query, if there is one, and sets
    /// the filter.
    pub fn parse_where(&mut self) -> (r: Result<(), ParseError>)
        ensures
            final(self).source() == old(self).source(),
            final(self)@.select == old(self)@.select,
            final(self)@.from == old(self)@.from,
            final(self)@.joins == old(self)@.joins,
            match where_at(old(self).source(), old(self).position()) {
                Ok((filter, p)) => {
                    &&& r is Ok
                    &&& final(self)@.where_clause == if filter is Some {
                        filter
                    } else {
                        old(self)@.where_clause
                    }
                    &&& final(self).position() == p
                },
                Err(e) => {
                    &&& r == Err::<(), ParseError>(e)
                    &&& final(self)@.where_clause == old(self)@.where_clause
                    &&& final(self).position() == old(self).position()
                },
            },
    {
        let start = self.input.offset();
        match self.input.read_where() {
            Ok(filter) => {
                if filter.is_some() {
                    self.where_clause = filter;
                }
                Ok(())
            },
            Err(e) => {
                self.input.rewind(start);
                Err(e)
            },
        }
    }

    /// Parses a value, which can be a column reference or a constant. The
    /// clauses stay as they are.
    pub fn parse_value(&mut self) -> (r: Result<Value, ParseError>)
        ensures
            final(self).source() == old(self).source(),
            final(self)@ == old(self)@,
            match operand_at(old(self).source(), old(self).position()) {
                Ok((v, p)) => r matches Ok(x) && x@ == v && final(self).position() == p,
                Err(e) => r matches Err(x) && x == e && final(self).position() == old(
                    self,
                ).position(),
            },
    {
        let start = self.input.offset();
        match self.input.read_operand() {
            Ok(v) => Ok(v),
            Err(e) => {
                self.input.rewind(start);
                Err(e)
            },
        }
    }
}

/// Parses an SQL query string into a Query instance: the query that the
/// text denotes, with the cursor at the end of the text, or why the text
/// denotes none.
pub fn parse_query(input: &str) -> (r: Result<Query, ParseError>)
    ensures
        match parse_text(input@) {
            Ok(q) => r matches Ok(x) && x@ == q && x.source() == input@ && x.position()
                == input@.len(),
            Err(e) => r matches Err(x) && x == e,
        },
{
    let mut parsed_query = Query::new(input);
    proof {
        if let Ok((q, p)) = query_at(input@, 0) {
            assert(parsed_query@.select + q.select =~= q.select);
            assert(parsed_query@.joins + q.joins =~= q.joins);
        }
    }
    match parsed_query.parse() {
        Ok(()) => Ok(parsed_query),
        Err(e) => Err(e),
    }
}

} // verus!

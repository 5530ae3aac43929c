//! Recursive-descent parser from source text to a `Value` tree, with one token of
//! lookahead over the comment-free token stream.
use vstd::prelude::*;
use vstd::string::*;
use crate::lexer::{
    LexState, Lexer, NoCommentLexer, Token, TokenKind, is_digit, is_lower, lemma_nc_next, nc_next,
};
use crate::value::{Value, ValueModel, fields_model, lemma_list_model, list_model};

verus! {

/// What went wrong in a parse.
#[derive(Debug, Clone, Copy, PartialEq, Eq, Structural)]
pub enum ParseErrorKind {
    /// A token that cannot start a value, or the end of the input where a value was due.
    ExpectedValue,
    /// Inside a list, something other than `]` or `,` after an element.
    ExpectedListEnd,
    /// Inside an object, something other than a field name or `)`.
    ExpectedField,
    /// Inside an object, something other than `)` or `,` after a value.
    ExpectedObjectEnd,
    /// An integer literal that is malformed or does not fit in 64 bits.
    InvalidInteger,
    /// A float literal without any digit.
    InvalidFloat,
    /// A keyword other than `True`, `False` and `None`.
    UnknownKeyword,
    /// A field name with a character other than a lowercase letter or `_`.
    FieldNotSnakeCase,
    /// A field name that occurs twice in one object.
    DuplicateField,
    /// A token after the complete top-level value.
    TrailingInput,
}

/// A parse failure: its kind, the character offset of the offending token (or the
/// length of the input where it ended too early), and a readable message.
#[derive(Debug)]
pub struct ParseError {
    pub kind: ParseErrorKind,
    pub location: usize,
    pub message: String,
}

/// The characters that a token covers.
pub open spec fn token_text(s: Seq<char>, t: Token) -> Seq<char> {
    s.subrange(t.start as int, t.end as int)
}

/// A literal with its `_` group separators removed.
pub open spec fn strip_separators(t: Seq<char>) -> Seq<char>
    decreases t.len(),
{
    if t.len() == 0 {
        t
    } else if t.last() == '_' {
        strip_separators(t.drop_last())
    } else {
        strip_separators(t.drop_last()).push(t.last())
    }
}

pub open spec fn digit_value(c: char) -> int {
    (c as u32) as int - ('0' as u32) as int
}

pub open spec fn all_digits(d: Seq<char>) -> bool {
    forall|i: int| 0 <= i < d.len() ==> is_digit(#[trigger] d[i])
}

/// The number that a run of decimal digits denotes.
pub open spec fn digits_value(d: Seq<char>) -> int
    decreases d.len(),
{
    if d.len() == 0 {
        0
    } else {
        digits_value(d.drop_last()) * 10 + digit_value(d.last())
    }
}

/// The integer that an integer literal denotes: an optional leading `-`, then digits
/// and `_` with at least one digit; `None` when it is not of that shape.
pub open spec fn integer_literal(t: Seq<char>) -> Option<int> {
    let neg = t.len() > 0 && t[0] == '-';
    let d = strip_separators(if neg { t.drop_first() } else { t });
    if d.len() > 0 && all_digits(d) {
        Some(if neg { -digits_value(d) } else { digits_value(d) })
    } else {
        None
    }
}

pub open spec fn fits_i64(x: int) -> bool {
    i64::MIN <= x <= i64::MAX
}

/// A float literal converts when it holds at least one digit.
pub open spec fn float_literal_ok(t: Seq<char>) -> bool {
    exists|i: int| 0 <= i < t.len() && is_digit(#[trigger] t[i])
}

/// The value of a keyword spelling; `None` for any spelling but the three keywords.
pub open spec fn keyword_value(t: Seq<char>) -> Option<ValueModel> {
    if t.len() == 4 && t[0] == 'T' && t[1] == 'r' && t[2] == 'u' && t[3] == 'e' {
        Some(ValueModel::Boolean(true))
    } else if t.len() == 5 && t[0] == 'F' && t[1] == 'a' && t[2] == 'l' && t[3] == 's' && t[4] == 'e' {
        Some(ValueModel::Boolean(false))
    } else if t.len() == 4 && t[0] == 'N' && t[1] == 'o' && t[2] == 'n' && t[3] == 'e' {
        Some(ValueModel::Null)
    } else {
        None
    }
}

/// Lexicographic order of character sequences.
pub open spec fn seq_le(a: Seq<char>, b: Seq<char>) -> bool
    decreases a.len(),
{
    if a.len() == 0 {
        true
    } else if b.len() == 0 {
        false
    } else if a[0] != b[0] {
        a[0] < b[0]
    } else {
        seq_le(a.drop_first(), b.drop_first())
    }
}

proof fn lemma_strip_prepend(c: char, t: Seq<char>)
    requires
        c != '_',
    ensures
        strip_separators(seq![c] + t) == seq![c] + strip_separators(t),
    decreases t.len(),
{
    let u = seq![c] + t;
    if t.len() == 0 {
        assert(u.drop_last() =~= Seq::<char>::empty());
        assert(u.last() == c);
        assert(strip_separators(u.drop_last()) == Seq::<char>::empty());
        assert(strip_separators(t) == Seq::<char>::empty());
        assert(strip_separators(u) =~= seq![c] + strip_separators(t));
    } else {
        assert(u.drop_last() =~= seq![c] + t.drop_last());
        assert(u.last() == t.last());
        lemma_strip_prepend(c, t.drop_last());
        if t.last() != '_' {
            assert(seq![c] + strip_separators(t.drop_last()).push(t.last()) =~= (seq![c]
                + strip_separators(t.drop_last())).push(t.last()));
        }
    }
}

proof fn lemma_strip_idempotent(t: Seq<char>)
    ensures
        strip_separators(strip_separators(t)) == strip_separators(t),
        forall|i: int| 0 <= i < strip_separators(t).len() ==> #[trigger] strip_separators(t)[i] != '_',
    decreases t.len(),
{
    if t.len() > 0 {
        lemma_strip_idempotent(t.drop_last());
        let p = strip_separators(t.drop_last());
        if t.last() != '_' {
            let q = p.push(t.last());
            assert(q.drop_last() =~= p);
            assert forall|i: int| 0 <= i < q.len() implies #[trigger] q[i] != '_' by {
                if i < p.len() {
                    assert(q[i] == p[i]);
                }
            }
        }
    }
}

/// Group separators do not change what an integer literal denotes: a literal that does
/// not begin with `_` reads the same with its separators removed.
pub proof fn lemma_integer_separators(t: Seq<char>)
    requires
        t.len() == 0 || t[0] != '_',
    ensures
        integer_literal(strip_separators(t)) == integer_literal(t),
{
    if t.len() > 0 {
        let rest = t.drop_first();
        assert(t =~= seq![t[0]] + rest);
        lemma_strip_prepend(t[0], rest);
        let u = strip_separators(t);
        assert(u[0] == t[0]);
        assert(u.drop_first() =~= strip_separators(rest));
        lemma_strip_idempotent(rest);
        lemma_strip_idempotent(t);
    } else {
        assert(strip_separators(t) == t);
    }
}

proof fn lemma_strip_keeps_digits(t: Seq<char>)
    ensures
        float_literal_ok(strip_separators(t)) == float_literal_ok(t),
    decreases t.len(),
{
    if t.len() > 0 {
        let p = t.drop_last();
        lemma_strip_keeps_digits(p);
        let sp = strip_separators(p);
        let st = strip_separators(t);
        if float_literal_ok(t) {
            let i = choose|i: int| 0 <= i < t.len() && is_digit(#[trigger] t[i]);
            if i < p.len() {
                assert(p[i] == t[i]);
                let k = choose|k: int| 0 <= k < sp.len() && is_digit(#[trigger] sp[k]);
                if t.last() != '_' {
                    assert(st[k] == sp[k]);
                }
            } else {
                assert(st[st.len() - 1] == t.last());
            }
        }
        if float_literal_ok(st) {
            let k = choose|k: int| 0 <= k < st.len() && is_digit(#[trigger] st[k]);
            if t.last() != '_' && k == st.len() - 1 {
                assert(t[t.len() - 1] == t.last());
            } else {
                if t.last() != '_' {
                    assert(st[k] == sp[k]);
                }
                let i = choose|i: int| 0 <= i < p.len() && is_digit(#[trigger] p[i]);
                assert(t[i] == p[i]);
            }
        }
    }
}

/// Group separators do not change a float literal: it converts exactly when it does
/// without them, and to the same text.
pub proof fn lemma_float_separators(t: Seq<char>)
    ensures
        float_literal_ok(strip_separators(t)) == float_literal_ok(t),
        strip_separators(strip_separators(t)) == strip_separators(t),
{
    lemma_strip_keeps_digits(t);
    lemma_strip_idempotent(t);
}

/// Every character sequence is ordered with every other.
pub proof fn lemma_seq_le_total(a: Seq<char>, b: Seq<char>)
    ensures
        seq_le(a, b) || seq_le(b, a),
    decreases a.len(),
{
    if a.len() > 0 && b.len() > 0 && a[0] == b[0] {
        lemma_seq_le_total(a.drop_first(), b.drop_first());
    }
}

proof fn lemma_seq_le_trans(a: Seq<char>, b: Seq<char>, c: Seq<char>)
    requires
        seq_le(a, b),
        seq_le(b, c),
    ensures
        seq_le(a, c),
    decreases a.len(),
{
    if a.len() > 0 && b.len() > 0 && c.len() > 0 && a[0] == b[0] && b[0] == c[0] {
        lemma_seq_le_trans(a.drop_first(), b.drop_first(), c.drop_first());
    }
}

proof fn lemma_seq_le_antisym(a: Seq<char>, b: Seq<char>)
    requires
        seq_le(a, b),
        seq_le(b, a),
    ensures
        a == b,
    decreases a.len(),
{
    if a.len() > 0 && b.len() > 0 {
        lemma_seq_le_antisym(a.drop_first(), b.drop_first());
        assert(a =~= seq![a[0]] + a.drop_first());
        assert(b =~= seq![b[0]] + b.drop_first());
    } else if a.len() == 0 && b.len() == 0 {
        assert(a =~= b);
    }
}

/// Lowercase ASCII letters and underscores only.
pub open spec fn is_snake_case(n: Seq<char>) -> bool {
    forall|i: int| 0 <= i < n.len() ==> is_lower(#[trigger] n[i]) || n[i] == '_'
}

/// An object entry while an object is parsed: the range of the field name in the source
/// (its start is the entry's location) and the value.
pub type EntryModel = (int, int, ValueModel);

pub open spec fn entry_name(s: Seq<char>, e: EntryModel) -> Seq<char> {
    s.subrange(e.0, e.1)
}

/// Where an entry named `name` goes in the sorted `acc`: after every entry whose name is not greater.
pub open spec fn insert_pos(s: Seq<char>, acc: Seq<EntryModel>, name: Seq<char>) -> int
    decreases acc.len(),
{
    if acc.len() == 0 {
        0
    } else if seq_le(entry_name(s, acc.last()), name) {
        acc.len() as int
    } else {
        insert_pos(s, acc.drop_last(), name)
    }
}

/// Stable insertion of `e` into entries sorted by name.
pub open spec fn insert_entry(s: Seq<char>, acc: Seq<EntryModel>, e: EntryModel) -> Seq<EntryModel> {
    acc.insert(insert_pos(s, acc, entry_name(s, e)), e)
}

/// The first violation among the sorted entries from index `i` on: a name that is not
/// snake_case, or a name equal to the one before it.
pub open spec fn check_fields(s: Seq<char>, es: Seq<EntryModel>, i: int) -> Option<(ParseErrorKind, int)>
    decreases es.len() - i,
{
    if 0 <= i < es.len() {
        let n = entry_name(s, es[i]);
        if !is_snake_case(n) {
            Some((ParseErrorKind::FieldNotSnakeCase, es[i].0))
        } else if i > 0 && n == entry_name(s, es[i - 1]) {
            Some((ParseErrorKind::DuplicateField, es[i].0))
        } else {
            check_fields(s, es, i + 1)
        }
    } else {
        None
    }
}

pub open spec fn entries_model(s: Seq<char>, es: Seq<EntryModel>) -> Seq<(Seq<char>, ValueModel)> {
    es.map_values(|e: EntryModel| (entry_name(s, e), e.2))
}

/// Field names in strictly increasing order, each of them snake_case.
pub open spec fn fields_well_formed(fs: Seq<(Seq<char>, ValueModel)>) -> bool {
    &&& forall|i: int| 0 < i < fs.len() ==> seq_le(#[trigger] fs[i - 1].0, fs[i].0) && fs[i - 1].0 != fs[i].0
    &&& forall|i: int| 0 <= i < fs.len() ==> is_snake_case(#[trigger] fs[i].0)
}

/// In an object of a parsed value the field names are unique and in lexicographic
/// order: of any two fields, the earlier one has the smaller name.
pub proof fn lemma_fields_unique_and_sorted(fs: Seq<(Seq<char>, ValueModel)>)
    requires
        fields_well_formed(fs),
    ensures
        forall|i: int, j: int|
            0 <= i < j < fs.len() ==> seq_le(#[trigger] fs[i].0, #[trigger] fs[j].0) && fs[i].0 != fs[j].0,
{
    assert forall|i: int, j: int| 0 <= i < j < fs.len() implies seq_le(#[trigger] fs[i].0, #[trigger] fs[j].0)
        && fs[i].0 != fs[j].0 by {
        lemma_fields_ordered_from(fs, i, j);
    }
}

proof fn lemma_fields_ordered_from(fs: Seq<(Seq<char>, ValueModel)>, i: int, j: int)
    requires
        fields_well_formed(fs),
        0 <= i < j < fs.len(),
    ensures
        seq_le(fs[i].0, fs[j].0) && fs[i].0 != fs[j].0,
    decreases j - i,
{
    assert(seq_le(fs[j - 1].0, fs[j].0) && fs[j - 1].0 != fs[j].0);
    if i < j - 1 {
        lemma_fields_ordered_from(fs, i, j - 1);
        lemma_seq_le_trans(fs[i].0, fs[j - 1].0, fs[j].0);
        if fs[i].0 == fs[j].0 {
            lemma_seq_le_antisym(fs[j - 1].0, fs[j].0);
        }
    }
}

/// The invariant of a parsed value: in every object of the tree the field names are
/// snake_case, unique and sorted.
pub open spec fn value_well_formed(v: ValueModel) -> bool
    decreases v,
{
    match v {
        ValueModel::Object(fs) => fields_well_formed(fs) && forall|i: int|
            0 <= i < fs.len() ==> value_well_formed(#[trigger] fs[i].1),
        ValueModel::List(vs) => forall|i: int| 0 <= i < vs.len() ==> value_well_formed(#[trigger] vs[i]),
        _ => true,
    }
}

/// Entries sorted by name, each with a well-formed value.
pub open spec fn entries_sorted(s: Seq<char>, es: Seq<EntryModel>) -> bool {
    &&& forall|i: int| 0 < i < es.len() ==> seq_le(entry_name(s, #[trigger] es[i - 1]), entry_name(s, es[i]))
    &&& forall|i: int| 0 <= i < es.len() ==> value_well_formed(#[trigger] es[i].2)
}

proof fn lemma_insert_sorted(s: Seq<char>, ev: Seq<EntryModel>, pos: int, e: EntryModel)
    requires
        entries_sorted(s, ev),
        0 <= pos <= ev.len(),
        value_well_formed(e.2),
        forall|k: int| pos <= k < ev.len() ==> !seq_le(entry_name(s, #[trigger] ev[k]), entry_name(s, e)),
        pos > 0 ==> seq_le(entry_name(s, ev[pos - 1]), entry_name(s, e)),
    ensures
        entries_sorted(s, ev.insert(pos, e)),
{
    let ev_new = ev.insert(pos, e);
    let name = entry_name(s, e);
    if pos < ev.len() {
        lemma_seq_le_total(entry_name(s, ev[pos]), name);
    }
    assert forall|i: int| 0 < i < ev_new.len() implies seq_le(
        entry_name(s, #[trigger] ev_new[i - 1]),
        entry_name(s, ev_new[i]),
    ) by {
        if i < pos {
            assert(ev_new[i - 1] == ev[i - 1] && ev_new[i] == ev[i]);
            assert(seq_le(entry_name(s, ev[i - 1]), entry_name(s, ev[i])));
        } else if i == pos {
            assert(ev_new[i - 1] == ev[i - 1] && ev_new[i] == e);
        } else if i == pos + 1 {
            assert(ev_new[i - 1] == e && ev_new[i] == ev[i - 1]);
            assert(!seq_le(entry_name(s, ev[pos]), name));
        } else {
            let k = i - 1;
            assert(ev_new[i - 1] == ev[k - 1] && ev_new[i] == ev[k]);
            assert(seq_le(entry_name(s, ev[k - 1]), entry_name(s, ev[k])));
        }
    }
    assert forall|i: int| 0 <= i < ev_new.len() implies value_well_formed(#[trigger] ev_new[i].2) by {
        if i < pos {
            assert(ev_new[i] == ev[i]);
        } else if i > pos {
            assert(ev_new[i] == ev[i - 1]);
        }
    }
}

/// The parser's abstract state: the lookahead token and the lexer behind it.
pub struct PState {
    pub la: Option<Token>,
    pub lex: LexState,
}

impl PState {
    pub open spec fn wf(self) -> bool {
        &&& self.lex.wf()
        &&& self.la matches Some(t) ==> t.start < t.end <= self.lex.pos && t.kind
            != TokenKind::Comment && (t.kind == TokenKind::String ==> t.start + 2 <= t.end)
    }

    pub open spec fn measure(self) -> int {
        self.lex.rank() + if self.la is Some {
            1int
        } else {
            0int
        }
    }

    /// The state after the lookahead token is consumed.
    pub open spec fn advance(self) -> PState {
        PState { la: nc_next(self.lex).0, lex: nc_next(self.lex).1 }
    }
}

/// `next` is a well-formed state closer to the end than `ps`. This holds of every state
/// that parsing reaches from a well-formed one; stating it makes termination evident.
pub open spec fn progressed(next: PState, ps: PState) -> bool {
    next.wf() && next.measure() < ps.measure()
}

pub type ParseResult<T> = Result<(T, PState), (ParseErrorKind, int)>;

/// The state in which parsing of `src` begins.
pub open spec fn initial_state(src: Seq<char>) -> PState {
    let lex = LexState { src, pos: 0, invalidated: false };
    PState { la: nc_next(lex).0, lex: nc_next(lex).1 }
}

/// `value := list | object | float | integer | string | keyword`
pub open spec fn parse_value(ps: PState) -> ParseResult<ValueModel>
    decreases ps.measure(), 0int,
    when ps.wf()
    via parse_value_decreases
{
    let s = ps.lex.src;
    match ps.la {
        None => Err((ParseErrorKind::ExpectedValue, s.len() as int)),
        Some(t) => {
            let ps1 = ps.advance();
            let text = token_text(s, t);
            if t.kind == TokenKind::SquareL {
                match parse_list(ps1, Seq::empty()) {
                    Ok((vs, ps2)) => Ok((ValueModel::List(vs), ps2)),
                    Err(e) => Err(e),
                }
            } else if t.kind == TokenKind::ParenL {
                match parse_object(ps1, Seq::empty()) {
                    Ok((es, ps2)) => match check_fields(s, es, 0) {
                        Some(e) => Err(e),
                        None => Ok((ValueModel::Object(entries_model(s, es)), ps2)),
                    },
                    Err(e) => Err(e),
                }
            } else if t.kind == TokenKind::Float {
                if float_literal_ok(text) {
                    Ok((ValueModel::Float(strip_separators(text)), ps1))
                } else {
                    Err((ParseErrorKind::InvalidFloat, t.start as int))
                }
            } else if t.kind == TokenKind::Integer {
                match integer_literal(text) {
                    Some(n) => if fits_i64(n) {
                        Ok((ValueModel::Integer(n), ps1))
                    } else {
                        Err((ParseErrorKind::InvalidInteger, t.start as int))
                    },
                    None => Err((ParseErrorKind::InvalidInteger, t.start as int)),
                }
            } else if t.kind == TokenKind::Keyword {
                match keyword_value(text) {
                    Some(v) => Ok((v, ps1)),
                    None => Err((ParseErrorKind::UnknownKeyword, t.start as int)),
                }
            } else if t.kind == TokenKind::String {
                Ok((ValueModel::String(s.subrange(t.start + 1, t.end - 1)), ps1))
            } else {
                Err((ParseErrorKind::ExpectedValue, t.start as int))
            }
        },
    }
}

/// The rest of a list after `[`, with the elements read so far in `acc`:
/// `(value (',' value)* ','?)? ']'`
pub open spec fn parse_list(ps: PState, acc: Seq<ValueModel>) -> ParseResult<Seq<ValueModel>>
    decreases ps.measure(), 1int,
    when ps.wf()
    via parse_list_decreases
{
    let s = ps.lex.src;
    if ps.la matches Some(t) && t.kind == TokenKind::SquareR {
        Ok((acc, ps.advance()))
    } else {
        match parse_value(ps) {
            Err(e) => Err(e),
            Ok((v, ps2)) => match ps2.la {
                None => Err((ParseErrorKind::ExpectedListEnd, s.len() as int)),
                Some(t2) => if t2.kind == TokenKind::SquareR {
                    Ok((acc.push(v), ps2.advance()))
                } else if t2.kind == TokenKind::Comma && progressed(ps2.advance(), ps) {
                    parse_list(ps2.advance(), acc.push(v))
                } else {
                    Err((ParseErrorKind::ExpectedListEnd, t2.start as int))
                },
            },
        }
    }
}

/// The rest of an object after `(`, with the entries read so far sorted by name in
/// `acc`: `(field value (',' field value)* ','?)? ')'`
pub open spec fn parse_object(ps: PState, acc: Seq<EntryModel>) -> ParseResult<Seq<EntryModel>>
    decreases ps.measure(), 1int,
    when ps.wf()
    via parse_object_decreases
{
    let s = ps.lex.src;
    match ps.la {
        None => Err((ParseErrorKind::ExpectedField, s.len() as int)),
        Some(t) => if t.kind == TokenKind::ParenR {
            Ok((acc, ps.advance()))
        } else if t.kind == TokenKind::Field {
            match parse_value(ps.advance()) {
                Err(e) => Err(e),
                Ok((v, ps2)) => {
                    let acc2 = insert_entry(s, acc, (t.start as int, t.end as int, v));
                    match ps2.la {
                        None => Err((ParseErrorKind::ExpectedObjectEnd, s.len() as int)),
                        Some(t2) => if t2.kind == TokenKind::ParenR {
                            Ok((acc2, ps2.advance()))
                        } else if t2.kind == TokenKind::Comma && progressed(ps2.advance(), ps) {
                            parse_object(ps2.advance(), acc2)
                        } else {
                            Err((ParseErrorKind::ExpectedObjectEnd, t2.start as int))
                        },
                    }
                },
            }
        } else {
            Err((ParseErrorKind::ExpectedField, t.start as int))
        },
    }
}

#[via_fn]
proof fn parse_value_decreases(ps: PState) {
    lemma_nc_next(ps.lex);
}

#[via_fn]
proof fn parse_list_decreases(ps: PState, acc: Seq<ValueModel>) {
    lemma_nc_next(ps.lex);
}

#[via_fn]
proof fn parse_object_decreases(ps: PState, acc: Seq<EntryModel>) {
    lemma_nc_next(ps.lex);
}

/// One value from state `ps`, and nothing after it.
pub open spec fn parse_to_end(ps: PState) -> Result<ValueModel, (ParseErrorKind, int)> {
    match parse_value(ps) {
        Err(e) => Err(e),
        Ok((v, ps)) => match ps.la {
            Some(t) => Err((ParseErrorKind::TrailingInput, t.start as int)),
            None => Ok(v),
        },
    }
}

/// A whole document: one value and nothing after it.
pub open spec fn parse_document(src: Seq<char>) -> Result<ValueModel, (ParseErrorKind, int)> {
    parse_to_end(initial_state(src))
}

pub open spec fn entries_view(v: Seq<(usize, usize, Value)>) -> Seq<EntryModel> {
    v.map_values(|e: (usize, usize, Value)| (e.0 as int, e.1 as int, e.2@))
}

/// `r` is the value that `m` describes, or an error of the kind and location that `m` gives.
pub open spec fn result_is<T: View>(r: Result<T, ParseError>, m: Result<T::V, (ParseErrorKind, int)>) -> bool {
    match m {
        Ok(v) => r matches Ok(x) && x@ == v,
        Err((k, l)) => r matches Err(e) && e.kind == k && e.location == l,
    }
}

/// Parses a whole document: exactly one value, with nothing but whitespace and comments
/// after it.
pub fn parse(source: &str) -> (r: Result<Value, ParseError>)
    ensures
        result_is(r, parse_document(source@)),
        r matches Ok(v) ==> value_well_formed(v@),
{
    let mut parser = Parser::new(source);
    parser.parse()
}

fn error_prefix(kind: ParseErrorKind) -> &'static str {
    match kind {
        ParseErrorKind::ExpectedValue => "Expected value but got ",
        ParseErrorKind::ExpectedListEnd => "Expected ']' or ',' but got ",
        ParseErrorKind::ExpectedField => "Expected Field but got ",
        ParseErrorKind::ExpectedObjectEnd => "Expected ')' or ',' but got ",
        ParseErrorKind::InvalidInteger => "Failed to parse Integer ",
        ParseErrorKind::InvalidFloat => "Failed to parse Float ",
        ParseErrorKind::UnknownKeyword => "Not a valid Keyword (only None, True and False are allowed): ",
        ParseErrorKind::FieldNotSnakeCase => "Field name needs to be snake_case: ",
        ParseErrorKind::DuplicateField => "Field name is a duplicate: ",
        ParseErrorKind::TrailingInput => "Expected Nothing but got ",
    }
}

fn make_error(kind: ParseErrorKind, location: usize, detail: &str) -> (e: ParseError)
    ensures
        e.kind == kind,
        e.location == location,
{
    let message = error_prefix(kind).to_owned().concat(detail);
    ParseError { kind, location, message }
}

/// A parser over one source text.
pub struct Parser {
    source: String,
    lexer: NoCommentLexer,
    peeked: Option<Token>,
}

impl View for Parser {
    type V = PState;

    closed spec fn view(&self) -> PState {
        PState { la: self.peeked, lex: self.lexer@ }
    }
}

impl Parser {
    pub closed spec fn wf(&self) -> bool {
        self@.wf() && self.source@ == self@.lex.src
    }

    /// A parser at the start of `string`.
    pub fn new(string: &str) -> (r: Parser)
        ensures
            r@ == initial_state(string@),
            r.wf(),
    {
        let lexer = Lexer::new(string);
        let mut lexer = lexer.no_comments();
        proof {
            lemma_nc_next(lexer@);
        }
        let peeked = lexer.next();
        Parser { source: string.to_owned(), lexer, peeked }
    }

    /// Parses one value and requires that nothing follows it.
    pub fn parse(&mut self) -> (r: Result<Value, ParseError>)
        requires
            old(self).wf(),
        ensures
            result_is(r, parse_to_end(old(self)@)),
            r matches Ok(v) ==> value_well_formed(v@),
    {
        let value = match self.parse_one() {
            Ok(v) => v,
            Err(e) => return Err(e),
        };
        match self.peeked {
            Some(t) => Err(make_error(ParseErrorKind::TrailingInput, t.start, self.describe(t).as_str())),
            None => Ok(value),
        }
    }

    fn text(&self, start: usize, end: usize) -> (r: &str)
        requires
            self.wf(),
            start <= end <= self@.lex.src.len(),
        ensures
            r@ == self@.lex.src.subrange(start as int, end as int),
    {
        self.source.as_str().substring_char(start, end)
    }

    /// A token's kind, and its text unless it is invalid.
    fn describe(&self, t: Token) -> String
        requires
            self.wf(),
            t.start <= t.end <= self@.lex.src.len(),
    {
        let name = t.kind.name().to_owned();
        if t.kind == TokenKind::Invalid {
            name
        } else {
            name.concat(" `").concat(self.text(t.start, t.end)).concat("`")
        }
    }

    fn advance(&mut self) -> (r: Option<Token>)
        requires
            old(self).wf(),
        ensures
            r == old(self)@.la,
            final(self)@ == old(self)@.advance(),
            final(self)@.lex.src == old(self)@.lex.src,
            final(self).wf(),
            final(self)@.measure() <= old(self)@.measure(),
            old(self)@.la is Some ==> final(self)@.measure() < old(self)@.measure(),
    {
        proof {
            lemma_nc_next(self@.lex);
        }
        let t = self.peeked;
        self.peeked = self.lexer.next();
        t
    }

    fn parse_one(&mut self) -> (r: Result<Value, ParseError>)
        requires
            old(self).wf(),
        ensures
            final(self).wf(),
            final(self)@.lex.src == old(self)@.lex.src,
            match parse_value(old(self)@) {
                Ok((m, ps2)) => r matches Ok(v) && v@ == m && final(self)@ == ps2
                    && final(self)@.measure() < old(self)@.measure(),
                Err((k, l)) => r matches Err(e) && e.kind == k && e.location == l,
            },
            r matches Ok(v) ==> value_well_formed(v@),
        decreases old(self)@.measure(), 0int,
    {
        let len = self.lexer.source_len();
        let t = match self.advance() {
            None => return Err(make_error(ParseErrorKind::ExpectedValue, len, "Nothing")),
            Some(t) => t,
        };
        match t.kind {
            TokenKind::SquareL => match self.parse_rest_of_list() {
                Ok(vs) => {
                    proof {
                        lemma_list_model(vs@);
                    }
                    Ok(Value::List(vs))
                },
                Err(e) => Err(e),
            },
            TokenKind::ParenL => match self.parse_rest_of_object() {
                Ok(fs) => Ok(Value::Object(fs)),
                Err(e) => Err(e),
            },
            TokenKind::Float => {
                if self.has_digit(t.start, t.end) {
                    Ok(Value::Float(self.without_separators(t.start, t.end)))
                } else {
                    Err(make_error(ParseErrorKind::InvalidFloat, t.start, self.text(t.start, t.end)))
                }
            },
            TokenKind::Integer => match self.integer_value(t.start, t.end) {
                Some(n) => Ok(Value::Integer(n)),
                None => Err(
                    make_error(ParseErrorKind::InvalidInteger, t.start, self.text(t.start, t.end)),
                ),
            },
            TokenKind::Keyword => match self.keyword(t.start, t.end) {
                Some(v) => Ok(v),
                None => Err(
                    make_error(ParseErrorKind::UnknownKeyword, t.start, self.text(t.start, t.end)),
                ),
            },
            TokenKind::String => Ok(Value::String(self.text(t.start + 1, t.end - 1).to_owned())),
            _ => Err(make_error(ParseErrorKind::ExpectedValue, t.start, self.describe(t).as_str())),
        }
    }

    fn parse_rest_of_list(&mut self) -> (r: Result<Vec<Value>, ParseError>)
        requires
            old(self).wf(),
        ensures
            final(self).wf(),
            final(self)@.lex.src == old(self)@.lex.src,
            match parse_list(old(self)@, Seq::empty()) {
                Ok((ms, ps2)) => r matches Ok(vs) && list_model(vs@) == ms && final(self)@ == ps2
                    && final(self)@.measure() <= old(self)@.measure(),
                Err((k, l)) => r matches Err(e) && e.kind == k && e.location == l,
            },
            r matches Ok(vs) ==> forall|i: int| 0 <= i < vs@.len() ==> value_well_formed(#[trigger] vs@[i]@),
        decreases old(self)@.measure(), 1int,
    {
        let len = self.lexer.source_len();
        let mut values: Vec<Value> = Vec::new();
        assert(list_model(values@) =~= Seq::<ValueModel>::empty());
        loop
            invariant
                self.wf(),
                len == self@.lex.src.len(),
                self@.lex.src == old(self)@.lex.src,
                self@.measure() <= old(self)@.measure(),
                parse_list(self@, list_model(values@)) == parse_list(old(self)@, Seq::empty()),
                forall|i: int| 0 <= i < values@.len() ==> value_well_formed(#[trigger] values@[i]@),
            decreases self@.measure(),
        {
            if let Some(t) = self.peeked {
                if t.kind == TokenKind::SquareR {
                    self.advance();
                    return Ok(values);
                }
            }
            let ghost ps = self@;
            let ghost acc = list_model(values@);
            let v = match self.parse_one() {
                Ok(v) => v,
                Err(e) => return Err(e),
            };
            let ghost vm = v@;
            let ghost old_values = values@;
            values.push(v);
            assert(values@.drop_last() =~= old_values);
            assert(list_model(values@) == acc.push(vm));
            match self.advance() {
                None => return Err(make_error(ParseErrorKind::ExpectedListEnd, len, "Nothing")),
                Some(t2) => {
                    if t2.kind == TokenKind::SquareR {
                        return Ok(values);
                    } else if t2.kind != TokenKind::Comma {
                        return Err(make_error(ParseErrorKind::ExpectedListEnd, t2.start, self.describe(t2).as_str()));
                    }
                },
            }
        }
    }

    fn parse_rest_of_object(&mut self) -> (r: Result<Vec<(String, Value)>, ParseError>)
        requires
            old(self).wf(),
        ensures
            final(self).wf(),
            final(self)@.lex.src == old(self)@.lex.src,
            match parse_object(old(self)@, Seq::empty()) {
                Ok((es, ps2)) => match check_fields(old(self)@.lex.src, es, 0) {
                    Some((k, l)) => r matches Err(e) && e.kind == k && e.location == l,
                    None => r matches Ok(fs) && fields_model(fs@) == entries_model(
                        old(self)@.lex.src,
                        es,
                    ) && final(self)@ == ps2 && final(self)@.measure() <= old(self)@.measure(),
                },
                Err((k, l)) => r matches Err(e) && e.kind == k && e.location == l,
            },
            r matches Ok(fs) ==> value_well_formed(ValueModel::Object(fields_model(fs@))),
        decreases old(self)@.measure(), 1int,
    {
        let len = self.lexer.source_len();
        let ghost s = self@.lex.src;
        let mut entries: Vec<(usize, usize, Value)> = Vec::new();
        assert(entries_view(entries@) =~= Seq::<EntryModel>::empty());
        loop
            invariant
                self.wf(),
                len == s.len(),
                s == self@.lex.src,
                s == old(self)@.lex.src,
                self@.measure() <= old(self)@.measure(),
                forall|i: int| 0 <= i < entries@.len() ==> #[trigger] entries@[i].0 <= entries@[i].1 <= len,
                parse_object(self@, entries_view(entries@)) == parse_object(old(self)@, Seq::empty()),
                entries_sorted(s, entries_view(entries@)),
            decreases self@.measure(),
        {
            let t = match self.peeked {
                None => return Err(make_error(ParseErrorKind::ExpectedField, len, "Nothing")),
                Some(t) => t,
            };
            if t.kind == TokenKind::ParenR {
                self.advance();
                return self.finish_object(entries);
            }
            if t.kind != TokenKind::Field {
                return Err(make_error(ParseErrorKind::ExpectedField, t.start, self.describe(t).as_str()));
            }
            self.advance();
            let v = match self.parse_one() {
                Ok(v) => v,
                Err(e) => return Err(e),
            };
            let pos = self.insert_position(&entries, t.start, t.end);
            let ghost before = entries@;
            let ghost e = (t.start as int, t.end as int, v@);
            let ghost ev_old = entries_view(before);
            entries.insert(pos, (t.start, t.end, v));
            proof {
                assert(entries_view(entries@) =~= ev_old.insert(pos as int, e));
                assert(entry_name(s, e) == s.subrange(t.start as int, t.end as int));
                lemma_insert_sorted(s, ev_old, pos as int, e);
            }
            assert(entries_view(entries@) =~= insert_entry(s, entries_view(before), e)) by {
                assert(entries@ =~= before.insert(pos as int, (t.start, t.end, v)));
                assert(entry_name(s, e) == s.subrange(t.start as int, t.end as int));
            }
            assert forall|i: int| 0 <= i < entries@.len() implies #[trigger] entries@[i].0
                <= entries@[i].1 <= len by {
                if i > pos {
                    assert(entries@[i] == before[i - 1]);
                } else if i < pos {
                    assert(entries@[i] == before[i]);
                }
            }
            match self.advance() {
                None => return Err(make_error(ParseErrorKind::ExpectedObjectEnd, len, "Nothing")),
                Some(t2) => {
                    if t2.kind == TokenKind::ParenR {
                        return self.finish_object(entries);
                    } else if t2.kind != TokenKind::Comma {
                        return Err(make_error(ParseErrorKind::ExpectedObjectEnd, t2.start, self.describe(t2).as_str()));
                    }
                },
            }
        }
    }

    /// Checks the sorted entries of an object and turns them into its fields.
    fn finish_object(&self, sorted: Vec<(usize, usize, Value)>) -> (r: Result<Vec<(String, Value)>, ParseError>)
        requires
            self.wf(),
            forall|i: int| 0 <= i < sorted@.len() ==> #[trigger] sorted@[i].0 <= sorted@[i].1 <= self@.lex.src.len(),
            entries_sorted(self@.lex.src, entries_view(sorted@)),
        ensures
            r matches Ok(fs) ==> value_well_formed(ValueModel::Object(fields_model(fs@))),
            match check_fields(self@.lex.src, entries_view(sorted@), 0) {
                Some((k, l)) => r matches Err(e) && e.kind == k && e.location == l,
                None => r matches Ok(fs) && fields_model(fs@) == entries_model(self@.lex.src, entries_view(sorted@)),
            },
    {
        let ghost s = self@.lex.src;
        let ghost ev0 = entries_view(sorted@);
        let ghost raw0 = sorted@;
        let n = sorted.len();
        let mut entries = sorted;
        let mut result: Vec<(String, Value)> = Vec::new();
        let mut i: usize = 0;
        let mut prev_start: usize = 0;
        let mut prev_end: usize = 0;
        assert(fields_model(result@) =~= entries_model(s, ev0.subrange(0, 0)));
        while i < n
            invariant
                self.wf(),
                s == self@.lex.src,
                n == ev0.len(),
                ev0 == entries_view(raw0),
                raw0 == sorted@,
                i <= n,
                entries@ == raw0.subrange(i as int, n as int),
                forall|j: int| 0 <= j < raw0.len() ==> #[trigger] raw0[j].0 <= raw0[j].1 <= s.len(),
                check_fields(s, ev0, 0) == check_fields(s, ev0, i as int),
                fields_model(result@) == entries_model(s, ev0.subrange(0, i as int)),
                i > 0 ==> prev_start == raw0[i - 1].0 && prev_end == raw0[i - 1].1,
                forall|k: int| 0 <= k < i ==> is_snake_case(entry_name(s, #[trigger] ev0[k])),
                forall|k: int| 0 < k < i ==> entry_name(s, #[trigger] ev0[k - 1]) != entry_name(s, ev0[k]),
            decreases n - i,
        {
            let ghost entries_before = entries@;
            let (start, end, v) = entries.remove(0);
            assert(entries_before[0] == raw0[i as int]);
            assert(entries@ =~= raw0.subrange(i + 1, n as int));
            assert(ev0[i as int] == (start as int, end as int, v@));
            assert(entry_name(s, ev0[i as int]) == s.subrange(start as int, end as int));
            assert(i > 0 ==> entry_name(s, ev0[i - 1]) == s.subrange(prev_start as int, prev_end as int));
            if !self.is_snake(start, end) {
                return Err(make_error(ParseErrorKind::FieldNotSnakeCase, start, self.text(start, end)));
            }
            if i > 0 && self.names_eq(prev_start, prev_end, start, end) {
                return Err(make_error(ParseErrorKind::DuplicateField, start, self.text(start, end)));
            }
            let name = self.text(start, end).to_owned();
            let ghost old_result = result@;
            let ghost item = (name, v);
            result.push((name, v));
            proof {
                assert(result@.drop_last() =~= old_result);
                assert(entries_model(s, ev0.subrange(0, i + 1)) =~= entries_model(s, ev0.subrange(0, i as int)).push(
                    (s.subrange(start as int, end as int), raw0[i as int].2@),
                ));
            }
            prev_start = start;
            prev_end = end;
            i = i + 1;
        }
        assert(ev0.subrange(0, n as int) =~= ev0);
        proof {
            let fm = entries_model(s, ev0);
            assert forall|k: int| 0 < k < fm.len() implies seq_le(#[trigger] fm[k - 1].0, fm[k].0) && fm[k - 1].0
                != fm[k].0 by {
                assert(fm[k - 1].0 == entry_name(s, ev0[k - 1]));
                assert(fm[k].0 == entry_name(s, ev0[k]));
            }
            assert forall|k: int| 0 <= k < fm.len() implies is_snake_case(#[trigger] fm[k].0) by {
                assert(fm[k].0 == entry_name(s, ev0[k]));
            }
            assert forall|k: int| 0 <= k < fm.len() implies value_well_formed(#[trigger] fm[k].1) by {
                assert(fm[k].1 == ev0[k].2);
            }
        }
        Ok(result)
    }

    /// Where an entry named by the source range `[start, end)` goes among the sorted entries.
    fn insert_position(&self, entries: &Vec<(usize, usize, Value)>, start: usize, end: usize) -> (j: usize)
        requires
            self.wf(),
            start <= end <= self@.lex.src.len(),
            forall|i: int| 0 <= i < entries@.len() ==> #[trigger] entries@[i].0 <= entries@[i].1 <= self@.lex.src.len(),
        ensures
            j == insert_pos(self@.lex.src, entries_view(entries@), self@.lex.src.subrange(start as int, end as int)),
            j <= entries@.len(),
            forall|k: int| j <= k < entries@.len() ==> !seq_le(
                entry_name(self@.lex.src, #[trigger] entries_view(entries@)[k]),
                self@.lex.src.subrange(start as int, end as int),
            ),
            j > 0 ==> seq_le(
                entry_name(self@.lex.src, entries_view(entries@)[j - 1]),
                self@.lex.src.subrange(start as int, end as int),
            ),
    {
        let ghost s = self@.lex.src;
        let ghost ev = entries_view(entries@);
        let ghost name = s.subrange(start as int, end as int);
        let mut j = entries.len();
        assert(ev.subrange(0, j as int) =~= ev);
        while j > 0
            invariant
                self.wf(),
                s == self@.lex.src,
                ev == entries_view(entries@),
                name == s.subrange(start as int, end as int),
                start <= end <= s.len(),
                forall|i: int| 0 <= i < entries@.len() ==> #[trigger] entries@[i].0 <= entries@[i].1 <= s.len(),
                j <= entries@.len(),
                insert_pos(s, ev.subrange(0, j as int), name) == insert_pos(s, ev, name),
                forall|k: int| j <= k < entries@.len() ==> !seq_le(entry_name(s, #[trigger] ev[k]), name),
            decreases j,
        {
            if self.names_le(entries[j - 1].0, entries[j - 1].1, start, end) {
                assert(ev[j - 1] == (entries@[j - 1].0 as int, entries@[j - 1].1 as int, entries@[j - 1].2@));
                assert(ev.subrange(0, j as int).last() == ev[j - 1]);
                return j;
            }
            assert(ev[j - 1] == (entries@[j - 1].0 as int, entries@[j - 1].1 as int, entries@[j - 1].2@));
            assert(ev.subrange(0, j as int).last() == ev[j - 1]);
            assert(ev.subrange(0, j as int).drop_last() =~= ev.subrange(0, j - 1));
            j = j - 1;
        }
        j
    }

    /// Lexicographic order of two ranges of the source.
    fn names_le(&self, a0: usize, a1: usize, b0: usize, b1: usize) -> (r: bool)
        requires
            self.wf(),
            a0 <= a1 <= self@.lex.src.len(),
            b0 <= b1 <= self@.lex.src.len(),
        ensures
            r == seq_le(self@.lex.src.subrange(a0 as int, a1 as int), self@.lex.src.subrange(b0 as int, b1 as int)),
    {
        let ghost s = self@.lex.src;
        let ghost a = s.subrange(a0 as int, a1 as int);
        let ghost b = s.subrange(b0 as int, b1 as int);
        let mut k: usize = 0;
        assert(a.subrange(0, a.len() as int) =~= a);
        assert(b.subrange(0, b.len() as int) =~= b);
        loop
            invariant
                self.wf(),
                s == self@.lex.src,
                a0 + k <= a1 <= s.len(),
                b0 + k <= b1 <= s.len(),
                a == s.subrange(a0 as int, a1 as int),
                b == s.subrange(b0 as int, b1 as int),
                seq_le(a, b) == seq_le(a.subrange(k as int, a.len() as int), b.subrange(k as int, b.len() as int)),
            decreases a1 - a0 - k,
        {
            if a0 + k == a1 {
                return true;
            }
            if b0 + k == b1 {
                return false;
            }
            let ca = self.lexer.char_at(a0 + k);
            let cb = self.lexer.char_at(b0 + k);
            assert(a.subrange(k as int, a.len() as int)[0] == ca);
            assert(b.subrange(k as int, b.len() as int)[0] == cb);
            if ca != cb {
                return ca < cb;
            }
            assert(a.subrange(k as int, a.len() as int).drop_first() =~= a.subrange(k + 1, a.len() as int));
            assert(b.subrange(k as int, b.len() as int).drop_first() =~= b.subrange(k + 1, b.len() as int));
            k = k + 1;
        }
    }

    /// Whether two ranges of the source hold the same characters.
    fn names_eq(&self, a0: usize, a1: usize, b0: usize, b1: usize) -> (r: bool)
        requires
            self.wf(),
            a0 <= a1 <= self@.lex.src.len(),
            b0 <= b1 <= self@.lex.src.len(),
        ensures
            r == (self@.lex.src.subrange(a0 as int, a1 as int) == self@.lex.src.subrange(b0 as int, b1 as int)),
    {
        let ghost s = self@.lex.src;
        let ghost a = s.subrange(a0 as int, a1 as int);
        let ghost b = s.subrange(b0 as int, b1 as int);
        if a1 - a0 != b1 - b0 {
            assert(a.len() != b.len());
            return false;
        }
        let n = a1 - a0;
        let mut k: usize = 0;
        while k < n
            invariant
                self.wf(),
                s == self@.lex.src,
                n == a.len() && n == b.len(),
                a0 <= a1 <= s.len() && b0 <= b1 <= s.len(),
                a0 + n <= s.len() && b0 + n <= s.len(),
                a == s.subrange(a0 as int, a1 as int),
                b == s.subrange(b0 as int, b1 as int),
                k <= n,
                forall|i: int| 0 <= i < k ==> a[i] == b[i],
            decreases n - k,
        {
            assert(a[k as int] == s[a0 + k] && b[k as int] == s[b0 + k]);
            if self.lexer.char_at(a0 + k) != self.lexer.char_at(b0 + k) {
                return false;
            }
            k = k + 1;
        }
        assert(a =~= b);
        true
    }

    /// Whether a range of the source holds lowercase letters and underscores only.
    fn is_snake(&self, a0: usize, a1: usize) -> (r: bool)
        requires
            self.wf(),
            a0 <= a1 <= self@.lex.src.len(),
        ensures
            r == is_snake_case(self@.lex.src.subrange(a0 as int, a1 as int)),
    {
        let ghost a = self@.lex.src.subrange(a0 as int, a1 as int);
        let mut k: usize = a0;
        while k < a1
            invariant
                self.wf(),
                a0 <= k <= a1 <= self@.lex.src.len(),
                a == self@.lex.src.subrange(a0 as int, a1 as int),
                forall|i: int| 0 <= i < k - a0 ==> crate::lexer::is_lower(#[trigger] a[i]) || a[i] == '_',
            decreases a1 - k,
        {
            let c = self.lexer.char_at(k);
            if !(('a' <= c && c <= 'z') || c == '_') {
                assert(a[k - a0] == c);
                return false;
            }
            k = k + 1;
        }
        true
    }

    /// Whether a range of the source holds a decimal digit.
    fn has_digit(&self, a0: usize, a1: usize) -> (r: bool)
        requires
            self.wf(),
            a0 <= a1 <= self@.lex.src.len(),
        ensures
            r == float_literal_ok(self@.lex.src.subrange(a0 as int, a1 as int)),
    {
        let ghost a = self@.lex.src.subrange(a0 as int, a1 as int);
        let mut k: usize = a0;
        while k < a1
            invariant
                self.wf(),
                a0 <= k <= a1 <= self@.lex.src.len(),
                a == self@.lex.src.subrange(a0 as int, a1 as int),
                forall|i: int| 0 <= i < k - a0 ==> !is_digit(#[trigger] a[i]),
            decreases a1 - k,
        {
            let c = self.lexer.char_at(k);
            if '0' <= c && c <= '9' {
                assert(is_digit(a[k - a0]));
                return true;
            }
            k = k + 1;
        }
        false
    }

    /// A range of the source with its `_` separators removed.
    fn without_separators(&self, a0: usize, a1: usize) -> (r: String)
        requires
            self.wf(),
            a0 <= a1 <= self@.lex.src.len(),
        ensures
            r@ == strip_separators(self@.lex.src.subrange(a0 as int, a1 as int)),
    {
        let ghost s = self@.lex.src;
        let mut r = String::new();
        let mut k: usize = a0;
        assert(strip_separators(s.subrange(a0 as int, a0 as int)) =~= Seq::<char>::empty());
        while k < a1
            invariant
                self.wf(),
                s == self@.lex.src,
                a0 <= k <= a1 <= s.len(),
                r@ == strip_separators(s.subrange(a0 as int, k as int)),
            decreases a1 - k,
        {
            let c = self.lexer.char_at(k);
            assert(s.subrange(a0 as int, k + 1).drop_last() =~= s.subrange(a0 as int, k as int));
            if c != '_' {
                let piece = self.text(k, k + 1);
                assert(piece@ =~= seq![c]);
                r.append(piece);
                assert(r@ =~= strip_separators(s.subrange(a0 as int, k as int)).push(c));
            }
            k = k + 1;
        }
        r
    }

    /// The value of an integer literal in a range of the source, when it fits in 64 bits.
    fn integer_value(&self, a0: usize, a1: usize) -> (r: Option<i64>)
        requires
            self.wf(),
            a0 <= a1 <= self@.lex.src.len(),
        ensures
            match integer_literal(self@.lex.src.subrange(a0 as int, a1 as int)) {
                Some(n) => if fits_i64(n) {
                    r == Some(n as i64)
                } else {
                    r is None
                },
                None => r is None,
            },
    {
        let ghost s = self@.lex.src;
        let ghost t = s.subrange(a0 as int, a1 as int);
        let neg = a0 < a1 && self.lexer.char_at(a0) == '-';
        let first = if neg {
            a0 + 1
        } else {
            a0
        };
        assert(neg ==> t.drop_first() =~= s.subrange(first as int, a1 as int));
        assert(!neg ==> t =~= s.subrange(first as int, a1 as int));
        let mut mag: u64 = 0;
        let mut overflow = false;
        let mut any = false;
        let mut bad = false;
        let mut k: usize = first;
        assert(strip_separators(s.subrange(first as int, first as int)) =~= Seq::<char>::empty());
        while k < a1
            invariant
                self.wf(),
                s == self@.lex.src,
                first <= k <= a1 <= s.len(),
                all_digits(strip_separators(s.subrange(first as int, k as int))) == !bad,
                any == (strip_separators(s.subrange(first as int, k as int)).len() > 0),
                !bad && !overflow ==> mag as int == digits_value(strip_separators(s.subrange(first as int, k as int))),
                !bad && overflow ==> digits_value(strip_separators(s.subrange(first as int, k as int))) > u64::MAX,
            decreases a1 - k,
        {
            let c = self.lexer.char_at(k);
            let ghost prev = strip_separators(s.subrange(first as int, k as int));
            assert(s.subrange(first as int, k + 1).drop_last() =~= s.subrange(first as int, k as int));
            if c != '_' {
                let ghost cur = prev.push(c);
                assert(cur.drop_last() =~= prev);
                if bad {
                    assert(!all_digits(cur)) by {
                        if all_digits(cur) {
                            assert forall|i: int| 0 <= i < prev.len() implies is_digit(#[trigger] prev[i]) by {
                                assert(cur[i] == prev[i]);
                            }
                        }
                    }
                }
                if '0' <= c && c <= '9' {
                    let d = (c as u32 - '0' as u32) as u64;
                    assert(digits_value(cur) == digits_value(prev) * 10 + d);
                    if !bad && !overflow {
                        let next: u128 = mag as u128 * 10 + d as u128;
                        if next > u64::MAX as u128 {
                            overflow = true;
                        } else {
                            mag = next as u64;
                        }
                    }
                } else {
                    assert(!is_digit(cur[cur.len() - 1]));
                    bad = true;
                }
                any = true;
            }
            k = k + 1;
        }
        if !any || bad {
            return None;
        }
        if overflow {
            return None;
        }
        if neg {
            if mag <= 9223372036854775807 {
                Some(-(mag as i64))
            } else if mag == 9223372036854775808 {
                Some(i64::MIN)
            } else {
                None
            }
        } else {
            if mag <= 9223372036854775807 {
                Some(mag as i64)
            } else {
                None
            }
        }
    }

    /// The value of a keyword in a range of the source.
    fn keyword(&self, a0: usize, a1: usize) -> (r: Option<Value>)
        requires
            self.wf(),
            a0 <= a1 <= self@.lex.src.len(),
        ensures
            match keyword_value(self@.lex.src.subrange(a0 as int, a1 as int)) {
                Some(m) => r matches Some(v) && v@ == m,
                None => r is None,
            },
    {
        let ghost t = self@.lex.src.subrange(a0 as int, a1 as int);
        let n = a1 - a0;
        if n == 4 && self.lexer.char_at(a0) == 'T' && self.lexer.char_at(a0 + 1) == 'r'
            && self.lexer.char_at(a0 + 2) == 'u' && self.lexer.char_at(a0 + 3) == 'e' {
            return Some(Value::Boolean(true));
        }
        if n == 5 && self.lexer.char_at(a0) == 'F' && self.lexer.char_at(a0 + 1) == 'a'
            && self.lexer.char_at(a0 + 2) == 'l' && self.lexer.char_at(a0 + 3) == 's'
            && self.lexer.char_at(a0 + 4) == 'e' {
            return Some(Value::Boolean(false));
        }
        if n == 4 && self.lexer.char_at(a0) == 'N' && self.lexer.char_at(a0 + 1) == 'o'
            && self.lexer.char_at(a0 + 2) == 'n' && self.lexer.char_at(a0 + 3) == 'e' {
            return Some(Value::Null);
        }
        None
    }
}

} // verus!

//! Schema rules, and validation of a value tree against them.
use vstd::prelude::*;
use vstd::string::*;
use crate::lexer::{is_digit, is_lower, is_upper};
use crate::parser::{all_digits, digits_value, seq_le};
use crate::value::{Value, ValueModel, fields_model, lemma_fields_model, lemma_list_model, list_model};

verus! {

/// A schema constraint on a value.
#[derive(Debug)]
pub enum Rule {
    /// At least one alternative holds; they are tried in order.
    RuleUnion(Vec<Rule>),
    /// Every constraint holds; each one works on what the one before it produced.
    RuleList(Vec<Rule>),
    String,
    Integer,
    Float,
    Boolean,
    Any,
    List,
    /// A closed schema: each field of the value must be declared here, and each declared
    /// field must be present unless its rule is `Default`. The first declaration of a
    /// name counts.
    Object(Vec<(String, Rule)>),
    Null,
    /// A string without lowercase ASCII letters.
    AllUppercase,
    /// A string without uppercase ASCII letters.
    AllLowercase,
    /// A string of the form `scheme://authority...`.
    Url,
    /// An integer or a float.
    Number,
    /// A string of exactly this many characters.
    Length(u64),
    MinLength(u64),
    MaxLength(u64),
    /// A list whose elements all satisfy the rule.
    ListAll(Box<Rule>),
    /// A number not below the bound.
    Min(i64),
    /// A number not above the bound.
    Max(i64),
    /// Any value; as the rule of an object field, the value used when the field is absent.
    Default(Value),
}

pub enum RuleModel {
    RuleUnion(Seq<RuleModel>),
    RuleList(Seq<RuleModel>),
    String,
    Integer,
    Float,
    Boolean,
    Any,
    List,
    Object(Seq<(Seq<char>, RuleModel)>),
    Null,
    AllUppercase,
    AllLowercase,
    Url,
    Number,
    Length(int),
    MinLength(int),
    MaxLength(int),
    ListAll(Box<RuleModel>),
    Min(int),
    Max(int),
    Default(ValueModel),
}

impl View for Rule {
    type V = RuleModel;

    open spec fn view(&self) -> RuleModel
        decreases self,
    {
        match self {
            Rule::RuleUnion(rs) => RuleModel::RuleUnion(rules_model(rs@)),
            Rule::RuleList(rs) => RuleModel::RuleList(rules_model(rs@)),
            Rule::String => RuleModel::String,
            Rule::Integer => RuleModel::Integer,
            Rule::Float => RuleModel::Float,
            Rule::Boolean => RuleModel::Boolean,
            Rule::Any => RuleModel::Any,
            Rule::List => RuleModel::List,
            Rule::Object(fs) => RuleModel::Object(rule_fields_model(fs@)),
            Rule::Null => RuleModel::Null,
            Rule::AllUppercase => RuleModel::AllUppercase,
            Rule::AllLowercase => RuleModel::AllLowercase,
            Rule::Url => RuleModel::Url,
            Rule::Number => RuleModel::Number,
            Rule::Length(n) => RuleModel::Length(*n as int),
            Rule::MinLength(n) => RuleModel::MinLength(*n as int),
            Rule::MaxLength(n) => RuleModel::MaxLength(*n as int),
            Rule::ListAll(r) => RuleModel::ListAll(Box::new((**r)@)),
            Rule::Min(n) => RuleModel::Min(*n as int),
            Rule::Max(n) => RuleModel::Max(*n as int),
            Rule::Default(v) => RuleModel::Default(v@),
        }
    }
}

pub open spec fn rules_model(rs: Seq<Rule>) -> Seq<RuleModel>
    decreases rs,
{
    if rs.len() == 0 {
        Seq::empty()
    } else {
        rules_model(rs.drop_last()).push(rs.last()@)
    }
}

pub open spec fn rule_fields_model(fs: Seq<(String, Rule)>) -> Seq<(Seq<char>, RuleModel)>
    decreases fs,
{
    if fs.len() == 0 {
        Seq::empty()
    } else {
        rule_fields_model(fs.drop_last()).push((fs.last().0@, fs.last().1@))
    }
}

/// One step of the path from the root of a value to a node.
#[derive(Debug)]
pub enum PathStep {
    Field(String),
    Index(usize),
}

pub enum PathStepModel {
    Field(Seq<char>),
    Index(int),
}

impl View for PathStep {
    type V = PathStepModel;

    open spec fn view(&self) -> PathStepModel {
        match self {
            PathStep::Field(n) => PathStepModel::Field(n@),
            PathStep::Index(i) => PathStepModel::Index(*i as int),
        }
    }
}

/// The constraint that a value failed.
#[derive(Debug, Clone, Copy, PartialEq, Eq, Structural)]
pub enum ValidationErrorKind {
    /// The value is of another variant than the rule asks for.
    TypeMismatch,
    MissingField,
    UnexpectedField,
    NotUppercase,
    NotLowercase,
    NotUrl,
    WrongLength,
    TooShort,
    TooLong,
    BelowMin,
    AboveMax,
    /// A union without alternatives.
    NoAlternative,
}

/// The first violation found: where it is in the value, and what it is.
#[derive(Debug)]
pub struct ValidationError {
    pub path: Vec<PathStep>,
    pub kind: ValidationErrorKind,
}

pub type ErrorModel = (Seq<PathStepModel>, ValidationErrorKind);

pub type Checked<T> = Result<T, ErrorModel>;

pub open spec fn fail<T>(kind: ValidationErrorKind) -> Checked<T> {
    Err((Seq::empty(), kind))
}

/// An error of a child, seen from its parent.
pub open spec fn under<T>(step: PathStepModel, e: ErrorModel) -> Checked<T> {
    Err((seq![step] + e.0, e.1))
}

pub open spec fn no_lowercase(t: Seq<char>) -> bool {
    forall|i: int| 0 <= i < t.len() ==> !is_lower(#[trigger] t[i])
}

pub open spec fn no_uppercase(t: Seq<char>) -> bool {
    forall|i: int| 0 <= i < t.len() ==> !is_upper(#[trigger] t[i])
}

pub open spec fn is_scheme_char(c: char) -> bool {
    is_lower(c) || is_upper(c) || is_digit(c) || c == '+' || c == '-' || c == '.'
}

/// The end of the run of scheme characters that starts at `p`.
pub open spec fn scheme_end(t: Seq<char>, p: int) -> int
    decreases t.len() - p,
{
    if 0 <= p < t.len() && is_scheme_char(t[p]) {
        scheme_end(t, p + 1)
    } else {
        p
    }
}

/// A scheme that starts with a letter, then `://`, then an authority that is not empty.
pub open spec fn is_url(t: Seq<char>) -> bool {
    let k = scheme_end(t, 0);
    &&& k >= 1
    &&& (is_lower(t[0]) || is_upper(t[0]))
    &&& k + 3 < t.len()
    &&& t[k] == ':' && t[k + 1] == '/' && t[k + 2] == '/'
    &&& t[k + 3] != '/'
}

/// The position of the first `.` at or after `p`, or the length.
pub open spec fn dot_index(t: Seq<char>, p: int) -> int
    decreases t.len() - p,
{
    if 0 <= p < t.len() && t[p] != '.' {
        dot_index(t, p + 1)
    } else {
        p
    }
}

/// A float literal's sign, integer digits and fraction digits.
pub open spec fn float_parts(t: Seq<char>) -> (bool, Seq<char>, Seq<char>) {
    let neg = t.len() > 0 && t[0] == '-';
    let body = if neg { t.drop_first() } else { t };
    let k = dot_index(body, 0);
    (neg, body.subrange(0, k), if k < body.len() { body.subrange(k + 1, body.len() as int) } else { Seq::empty() })
}

/// An optional `-`, digits, an optional `.` and digits, with at least one digit.
pub open spec fn float_well_formed(t: Seq<char>) -> bool {
    let (_, i, f) = float_parts(t);
    all_digits(i) && all_digits(f) && i.len() + f.len() > 0
}

pub open spec fn has_nonzero(f: Seq<char>) -> bool {
    exists|i: int| 0 <= i < f.len() && #[trigger] f[i] != '0'
}

/// The largest integer not above the decimal that `t` denotes.
pub open spec fn float_floor(t: Seq<char>) -> int {
    let (neg, i, f) = float_parts(t);
    if neg {
        -(digits_value(i) + if has_nonzero(f) { 1int } else { 0int })
    } else {
        digits_value(i)
    }
}

/// The smallest integer not below the decimal that `t` denotes.
pub open spec fn float_ceil(t: Seq<char>) -> int {
    let (neg, i, f) = float_parts(t);
    if neg {
        -digits_value(i)
    } else {
        digits_value(i) + if has_nonzero(f) { 1int } else { 0int }
    }
}

/// The index of the first rule field named `name`, from index `j` on.
pub open spec fn find_rule(rfs: Seq<(Seq<char>, RuleModel)>, name: Seq<char>, j: int) -> Option<int>
    decreases rfs.len() - j,
{
    if 0 <= j < rfs.len() {
        if rfs[j].0 == name {
            Some(j)
        } else {
            find_rule(rfs, name, j + 1)
        }
    } else {
        None
    }
}

pub open spec fn has_field(vfs: Seq<(Seq<char>, ValueModel)>, name: Seq<char>) -> bool {
    exists|i: int| 0 <= i < vfs.len() && (#[trigger] vfs[i]).0 == name
}

/// Where a field named `name` goes among fields sorted by name.
pub open spec fn field_pos(out: Seq<(Seq<char>, ValueModel)>, name: Seq<char>) -> int
    decreases out.len(),
{
    if out.len() == 0 {
        0
    } else if seq_le(out.last().0, name) {
        out.len() as int
    } else {
        field_pos(out.drop_last(), name)
    }
}

/// Adds the defaults of the declared fields from index `j` on that the value lacks;
/// a declared field that is absent and has no default is missing.
pub open spec fn fill_defaults(
    rfs: Seq<(Seq<char>, RuleModel)>,
    vfs: Seq<(Seq<char>, ValueModel)>,
    j: int,
    out: Seq<(Seq<char>, ValueModel)>,
) -> Checked<Seq<(Seq<char>, ValueModel)>>
    decreases rfs.len() - j,
{
    if 0 <= j < rfs.len() {
        let name = rfs[j].0;
        if find_rule(rfs, name, 0) != Some(j) || has_field(vfs, name) {
            fill_defaults(rfs, vfs, j + 1, out)
        } else {
            match rfs[j].1 {
                RuleModel::Default(fb) => fill_defaults(
                    rfs,
                    vfs,
                    j + 1,
                    out.insert(field_pos(out, name), (name, fb)),
                ),
                _ => under(PathStepModel::Field(name), (Seq::empty(), ValidationErrorKind::MissingField)),
            }
        }
    } else {
        Ok(out)
    }
}

/// Validates `value` against `rule`: the value with defaults filled in, or the first
/// violation.
pub open spec fn check(rule: RuleModel, value: ValueModel) -> Checked<ValueModel>
    decreases rule, 0int,
{
    match rule {
        RuleModel::RuleUnion(rs) => check_union(rs, 0, value),
        RuleModel::RuleList(rs) => check_chain(rs, 0, value),
        RuleModel::String => if value is String { Ok(value) } else { fail(ValidationErrorKind::TypeMismatch) },
        RuleModel::Integer => if value is Integer { Ok(value) } else { fail(ValidationErrorKind::TypeMismatch) },
        RuleModel::Float => if value is Float { Ok(value) } else { fail(ValidationErrorKind::TypeMismatch) },
        RuleModel::Boolean => if value is Boolean { Ok(value) } else { fail(ValidationErrorKind::TypeMismatch) },
        RuleModel::Any => Ok(value),
        RuleModel::List => if value is List { Ok(value) } else { fail(ValidationErrorKind::TypeMismatch) },
        RuleModel::Object(rfs) => match value {
            ValueModel::Object(vfs) => match check_value_fields(rfs, vfs, 0, Seq::empty()) {
                Ok(out) => match fill_defaults(rfs, vfs, 0, out) {
                    Ok(all) => Ok(ValueModel::Object(all)),
                    Err(e) => Err(e),
                },
                Err(e) => Err(e),
            },
            _ => fail(ValidationErrorKind::TypeMismatch),
        },
        RuleModel::Null => if value is Null { Ok(value) } else { fail(ValidationErrorKind::TypeMismatch) },
        RuleModel::AllUppercase => match value {
            ValueModel::String(t) => if no_lowercase(t) { Ok(value) } else { fail(ValidationErrorKind::NotUppercase) },
            _ => fail(ValidationErrorKind::TypeMismatch),
        },
        RuleModel::AllLowercase => match value {
            ValueModel::String(t) => if no_uppercase(t) { Ok(value) } else { fail(ValidationErrorKind::NotLowercase) },
            _ => fail(ValidationErrorKind::TypeMismatch),
        },
        RuleModel::Url => match value {
            ValueModel::String(t) => if is_url(t) { Ok(value) } else { fail(ValidationErrorKind::NotUrl) },
            _ => fail(ValidationErrorKind::TypeMismatch),
        },
        RuleModel::Number => if value is Integer || value is Float { Ok(value) } else { fail(ValidationErrorKind::TypeMismatch) },
        RuleModel::Length(n) => match value {
            ValueModel::String(t) => if t.len() == n { Ok(value) } else { fail(ValidationErrorKind::WrongLength) },
            _ => fail(ValidationErrorKind::TypeMismatch),
        },
        RuleModel::MinLength(n) => match value {
            ValueModel::String(t) => if t.len() >= n { Ok(value) } else { fail(ValidationErrorKind::TooShort) },
            _ => fail(ValidationErrorKind::TypeMismatch),
        },
        RuleModel::MaxLength(n) => match value {
            ValueModel::String(t) => if t.len() <= n { Ok(value) } else { fail(ValidationErrorKind::TooLong) },
            _ => fail(ValidationErrorKind::TypeMismatch),
        },
        RuleModel::ListAll(inner) => match value {
            ValueModel::List(items) => match check_items(*inner, items, 0, Seq::empty()) {
                Ok(out) => Ok(ValueModel::List(out)),
                Err(e) => Err(e),
            },
            _ => fail(ValidationErrorKind::TypeMismatch),
        },
        RuleModel::Min(n) => match value {
            ValueModel::Integer(x) => if x >= n { Ok(value) } else { fail(ValidationErrorKind::BelowMin) },
            ValueModel::Float(t) => if !float_well_formed(t) {
                fail(ValidationErrorKind::TypeMismatch)
            } else if float_floor(t) >= n {
                Ok(value)
            } else {
                fail(ValidationErrorKind::BelowMin)
            },
            _ => fail(ValidationErrorKind::TypeMismatch),
        },
        RuleModel::Max(n) => match value {
            ValueModel::Integer(x) => if x <= n { Ok(value) } else { fail(ValidationErrorKind::AboveMax) },
            ValueModel::Float(t) => if !float_well_formed(t) {
                fail(ValidationErrorKind::TypeMismatch)
            } else if float_ceil(t) <= n {
                Ok(value)
            } else {
                fail(ValidationErrorKind::AboveMax)
            },
            _ => fail(ValidationErrorKind::TypeMismatch),
        },
        RuleModel::Default(_) => Ok(value),
    }
}

/// The alternatives from index `i` on: the first that holds, or the last one's failure.
pub open spec fn check_union(rs: Seq<RuleModel>, i: int, value: ValueModel) -> Checked<ValueModel>
    decreases rs, rs.len() - i,
{
    if 0 <= i < rs.len() {
        match check(rs[i], value) {
            Ok(v) => Ok(v),
            Err(e) => if i + 1 == rs.len() {
                Err(e)
            } else {
                check_union(rs, i + 1, value)
            },
        }
    } else {
        fail(ValidationErrorKind::NoAlternative)
    }
}

/// The constraints from index `i` on, each applied to what the one before produced.
pub open spec fn check_chain(rs: Seq<RuleModel>, i: int, value: ValueModel) -> Checked<ValueModel>
    decreases rs, rs.len() - i,
{
    if 0 <= i < rs.len() {
        match check(rs[i], value) {
            Ok(v) => check_chain(rs, i + 1, v),
            Err(e) => Err(e),
        }
    } else {
        Ok(value)
    }
}

/// The elements from index `i` on, each against `rule`, appended to `acc`.
pub open spec fn check_items(rule: RuleModel, items: Seq<ValueModel>, i: int, acc: Seq<ValueModel>) -> Checked<Seq<ValueModel>>
    decreases rule, items.len() - i,
{
    if 0 <= i < items.len() {
        match check(rule, items[i]) {
            Ok(v) => check_items(rule, items, i + 1, acc.push(v)),
            Err(e) => under(PathStepModel::Index(i), e),
        }
    } else {
        Ok(acc)
    }
}

/// The value's fields from index `i` on, each against the rule declared for it,
/// appended to `acc`; a field that no rule declares is unexpected.
pub open spec fn check_value_fields(
    rfs: Seq<(Seq<char>, RuleModel)>,
    vfs: Seq<(Seq<char>, ValueModel)>,
    i: int,
    acc: Seq<(Seq<char>, ValueModel)>,
) -> Checked<Seq<(Seq<char>, ValueModel)>>
    decreases rfs, vfs.len() - i,
{
    if 0 <= i < vfs.len() {
        let name = vfs[i].0;
        match find_rule(rfs, name, 0) {
            Some(j) => if 0 <= j < rfs.len() {
                match check(rfs[j].1, vfs[i].1) {
                    Ok(v) => check_value_fields(rfs, vfs, i + 1, acc.push((name, v))),
                    Err(e) => under(PathStepModel::Field(name), e),
                }
            } else {
                under(PathStepModel::Field(name), (Seq::empty(), ValidationErrorKind::UnexpectedField))
            },
            None => under(PathStepModel::Field(name), (Seq::empty(), ValidationErrorKind::UnexpectedField)),
        }
    } else {
        Ok(acc)
    }
}

pub proof fn lemma_rules_model(rs: Seq<Rule>)
    ensures
        rules_model(rs).len() == rs.len(),
        forall|i: int| 0 <= i < rs.len() ==> #[trigger] rules_model(rs)[i] == rs[i]@,
    decreases rs.len(),
{
    if rs.len() > 0 {
        lemma_rules_model(rs.drop_last());
        assert(rules_model(rs) == rules_model(rs.drop_last()).push(rs.last()@));
    } else {
        assert(rules_model(rs) == Seq::<RuleModel>::empty());
    }
}

pub proof fn lemma_rule_fields_model(fs: Seq<(String, Rule)>)
    ensures
        rule_fields_model(fs).len() == fs.len(),
        forall|i: int| 0 <= i < fs.len() ==> #[trigger] rule_fields_model(fs)[i] == (fs[i].0@, fs[i].1@),
    decreases fs.len(),
{
    if fs.len() > 0 {
        lemma_rule_fields_model(fs.drop_last());
        assert(rule_fields_model(fs) == rule_fields_model(fs.drop_last()).push((fs.last().0@, fs.last().1@)));
    } else {
        assert(rule_fields_model(fs) == Seq::<(Seq<char>, RuleModel)>::empty());
    }
}

pub open spec fn path_model(p: Seq<PathStep>) -> Seq<PathStepModel> {
    p.map_values(|s: PathStep| s@)
}

/// `r` is the value that `m` describes, or an error with the path and kind that `m` gives.
pub open spec fn outcome_is(r: Result<Value, ValidationError>, m: Checked<ValueModel>) -> bool {
    match m {
        Ok(v) => r matches Ok(x) && x@ == v,
        Err((p, k)) => r matches Err(e) && path_model(e.path@) == p && e.kind == k,
    }
}

fn failure(kind: ValidationErrorKind) -> (e: ValidationError)
    ensures
        path_model(e.path@) == Seq::<PathStepModel>::empty(),
        e.kind == kind,
{
    let e = ValidationError { path: Vec::new(), kind };
    assert(path_model(e.path@) =~= Seq::<PathStepModel>::empty());
    e
}

/// The error `e` of a child, seen from its parent through `step`.
fn prefixed(step: PathStep, e: ValidationError) -> (r: ValidationError)
    ensures
        path_model(r.path@) == seq![step@] + path_model(e.path@),
        r.kind == e.kind,
{
    let ghost s = step@;
    let mut path = e.path;
    path.insert(0, step);
    assert(path_model(path@) =~= seq![s] + path_model(e.path@));
    ValidationError { path, kind: e.kind }
}

fn is_lower_exec(c: char) -> (r: bool)
    ensures
        r == is_lower(c),
{
    'a' <= c && c <= 'z'
}

fn is_upper_exec(c: char) -> (r: bool)
    ensures
        r == is_upper(c),
{
    'A' <= c && c <= 'Z'
}

/// Whether the string holds no lowercase ASCII letter (when `upper`) or no uppercase
/// ASCII letter (otherwise).
fn letters_all_of_case(t: &String, upper: bool) -> (r: bool)
    ensures
        r == if upper { no_lowercase(t@) } else { no_uppercase(t@) },
{
    let s = t.as_str();
    let n = s.unicode_len();
    let mut i: usize = 0;
    while i < n
        invariant
            n == t@.len(),
            s@ == t@,
            i <= n,
            upper ==> forall|j: int| 0 <= j < i ==> !is_lower(#[trigger] t@[j]),
            !upper ==> forall|j: int| 0 <= j < i ==> !is_upper(#[trigger] t@[j]),
        decreases n - i,
    {
        let c = s.get_char(i);
        if upper && is_lower_exec(c) {
            return false;
        }
        if !upper && is_upper_exec(c) {
            return false;
        }
        i = i + 1;
    }
    true
}

fn is_scheme_char_exec(c: char) -> (r: bool)
    ensures
        r == is_scheme_char(c),
{
    is_lower_exec(c) || is_upper_exec(c) || ('0' <= c && c <= '9') || c == '+' || c == '-' || c == '.'
}

fn url_ok(t: &String) -> (r: bool)
    ensures
        r == is_url(t@),
{
    let s = t.as_str();
    let n = s.unicode_len();
    let mut k: usize = 0;
    while k < n && is_scheme_char_exec(s.get_char(k))
        invariant
            n == t@.len(),
            s@ == t@,
            k <= n,
            scheme_end(t@, k as int) == scheme_end(t@, 0),
        decreases n - k,
    {
        k = k + 1;
    }
    if k < 1 || n - k <= 3 {
        return false;
    }
    let c0 = s.get_char(0);
    (is_lower_exec(c0) || is_upper_exec(c0)) && s.get_char(k) == ':' && s.get_char(k + 1) == '/'
        && s.get_char(k + 2) == '/' && s.get_char(k + 3) != '/'
}

proof fn lemma_all_digits_push(d: Seq<char>, c: char)
    ensures
        all_digits(d.push(c)) == (all_digits(d) && is_digit(c)),
{
    if all_digits(d) && is_digit(c) {
        assert forall|i: int| 0 <= i < d.push(c).len() implies is_digit(#[trigger] d.push(c)[i]) by {
            if i < d.len() {
                assert(d.push(c)[i] == d[i]);
            }
        }
    }
    if all_digits(d.push(c)) {
        assert(is_digit(d.push(c)[d.len() as int]));
        assert forall|i: int| 0 <= i < d.len() implies is_digit(#[trigger] d[i]) by {
            assert(d.push(c)[i] == d[i]);
        }
    }
}

proof fn lemma_has_nonzero_push(d: Seq<char>, c: char)
    ensures
        has_nonzero(d.push(c)) == (has_nonzero(d) || c != '0'),
{
    if has_nonzero(d) {
        let i = choose|i: int| 0 <= i < d.len() && #[trigger] d[i] != '0';
        assert(d.push(c)[i] == d[i]);
    }
    if c != '0' {
        assert(d.push(c)[d.len() as int] == c);
    }
    if has_nonzero(d.push(c)) {
        let i = choose|i: int| 0 <= i < d.push(c).len() && #[trigger] d.push(c)[i] != '0';
        if i < d.len() {
            assert(d.push(c)[i] == d[i]);
        }
    }
}

pub open spec fn min_int(a: int, b: int) -> int {
    if a <= b {
        a
    } else {
        b
    }
}

/// Reads a float literal: its sign, the value of its integer digits capped at 2^64, and
/// whether a fraction digit is not zero; `None` when it is not well formed.
fn float_reading(t: &String) -> (r: Option<(bool, u128, bool)>)
    ensures
        float_well_formed(t@) <==> r is Some,
        r matches Some((neg, cap, nz)) ==> neg == float_parts(t@).0 && cap as int == min_int(
            digits_value(float_parts(t@).1),
            0x1_0000_0000_0000_0000,
        ) && nz == has_nonzero(float_parts(t@).2),
{
    let s = t.as_str();
    let n = s.unicode_len();
    let neg = n > 0 && s.get_char(0) == '-';
    let start: usize = if neg {
        1
    } else {
        0
    };
    let ghost body = if neg {
        t@.drop_first()
    } else {
        t@
    };
    assert(body =~= t@.subrange(start as int, n as int));
    let mut k = start;
    while k < n && s.get_char(k) != '.'
        invariant
            n == t@.len(),
            s@ == t@,
            start <= k <= n,
            body == t@.subrange(start as int, n as int),
            dot_index(body, k - start) == dot_index(body, 0),
        decreases n - k,
    {
        k = k + 1;
    }
    assert(body.subrange(0, k - start) =~= t@.subrange(start as int, k as int));
    let mut cap: u128 = 0;
    let mut ok = true;
    let mut p = start;
    assert(t@.subrange(start as int, start as int) =~= Seq::<char>::empty());
    while p < k
        invariant
            n == t@.len(),
            s@ == t@,
            start <= p <= k <= n,
            ok == all_digits(t@.subrange(start as int, p as int)),
            ok ==> cap as int == min_int(digits_value(t@.subrange(start as int, p as int)), 0x1_0000_0000_0000_0000),
        decreases k - p,
    {
        let c = s.get_char(p);
        let ghost prev = t@.subrange(start as int, p as int);
        assert(t@.subrange(start as int, p + 1) =~= prev.push(c));
        assert(prev.push(c).drop_last() =~= prev);
        proof {
            lemma_all_digits_push(prev, c);
        }
        if '0' <= c && c <= '9' {
            if ok {
                let d = (c as u32 - '0' as u32) as u128;
                let next = cap * 10 + d;
                cap = if next > 0x1_0000_0000_0000_0000 {
                    0x1_0000_0000_0000_0000
                } else {
                    next
                };
            }
        } else {
            ok = false;
        }
        p = p + 1;
    }
    let mut nz = false;
    let mut q: usize = if k < n {
        k + 1
    } else {
        n
    };
    let fstart = q;
    let ghost frac = if k < n {
        body.subrange(k - start + 1, body.len() as int)
    } else {
        Seq::<char>::empty()
    };
    assert(frac =~= t@.subrange(fstart as int, n as int));
    assert(t@.subrange(fstart as int, fstart as int) =~= Seq::<char>::empty());
    let mut ok2 = true;
    while q < n
        invariant
            n == t@.len(),
            s@ == t@,
            fstart <= q <= n,
            ok2 == all_digits(t@.subrange(fstart as int, q as int)),
            nz == has_nonzero(t@.subrange(fstart as int, q as int)),
        decreases n - q,
    {
        let c = s.get_char(q);
        let ghost prev = t@.subrange(fstart as int, q as int);
        assert(t@.subrange(fstart as int, q + 1) =~= prev.push(c));
        proof {
            lemma_all_digits_push(prev, c);
            lemma_has_nonzero_push(prev, c);
        }
        if !('0' <= c && c <= '9') {
            ok2 = false;
        }
        if c != '0' {
            nz = true;
        }
        q = q + 1;
    }
    if ok && ok2 && (k - start) + (n - fstart) > 0 {
        Some((neg, cap, nz))
    } else {
        None
    }
}

/// Whether the decimal that `t` denotes is at least `n`; `None` when `t` is not well formed.
fn float_at_least(t: &String, n: i64) -> (r: Option<bool>)
    ensures
        r == if float_well_formed(t@) { Some(float_floor(t@) >= n) } else { None },
{
    match float_reading(t) {
        None => None,
        Some((neg, cap, nz)) => {
            let bump: u128 = if nz {
                1
            } else {
                0
            };
            let floor: i128 = if neg {
                -((cap + bump) as i128)
            } else {
                cap as i128
            };
            Some(floor >= n as i128)
        },
    }
}

/// Whether the decimal that `t` denotes is at most `n`; `None` when `t` is not well formed.
fn float_at_most(t: &String, n: i64) -> (r: Option<bool>)
    ensures
        r == if float_well_formed(t@) { Some(float_ceil(t@) <= n) } else { None },
{
    match float_reading(t) {
        None => None,
        Some((neg, cap, nz)) => {
            let bump: u128 = if nz {
                1
            } else {
                0
            };
            let ceil: i128 = if neg {
                -(cap as i128)
            } else {
                (cap + bump) as i128
            };
            Some(ceil <= n as i128)
        },
    }
}

/// The index of the first rule field named `name`.
fn find_rule_exec(rfs: &Vec<(String, Rule)>, name: &String) -> (r: Option<usize>)
    ensures
        match find_rule(rule_fields_model(rfs@), name@, 0) {
            Some(j) => r == Some(j as usize) && 0 <= j < rfs.len(),
            None => r is None,
        },
{
    let ghost rm = rule_fields_model(rfs@);
    proof {
        lemma_rule_fields_model(rfs@);
    }
    let mut j: usize = 0;
    while j < rfs.len()
        invariant
            rm == rule_fields_model(rfs@),
            rm.len() == rfs.len(),
            forall|i: int| 0 <= i < rfs.len() ==> #[trigger] rm[i] == (rfs@[i].0@, rfs@[i].1@),
            j <= rfs.len(),
            find_rule(rm, name@, j as int) == find_rule(rm, name@, 0),
        decreases rfs.len() - j,
    {
        if rfs[j].0 == *name {
            return Some(j);
        }
        j = j + 1;
    }
    None
}

fn has_field_exec(vfs: &Vec<(String, Value)>, name: &String) -> (r: bool)
    ensures
        r == has_field(fields_model(vfs@), name@),
{
    let ghost vm = fields_model(vfs@);
    proof {
        lemma_fields_model(vfs@);
    }
    let mut i: usize = 0;
    while i < vfs.len()
        invariant
            vm == fields_model(vfs@),
            vm.len() == vfs.len(),
            forall|k: int| 0 <= k < vfs.len() ==> #[trigger] vm[k] == (vfs@[k].0@, vfs@[k].1@),
            i <= vfs.len(),
            forall|k: int| 0 <= k < i ==> (#[trigger] vm[k]).0 != name@,
        decreases vfs.len() - i,
    {
        if vfs[i].0 == *name {
            assert(vm[i as int].0 == name@);
            return true;
        }
        i = i + 1;
    }
    false
}

/// Lexicographic order of two strings.
fn str_le(a: &String, b: &String) -> (r: bool)
    ensures
        r == seq_le(a@, b@),
{
    let sa = a.as_str();
    let sb = b.as_str();
    let na = sa.unicode_len();
    let nb = sb.unicode_len();
    let mut k: usize = 0;
    assert(a@.subrange(0, a@.len() as int) =~= a@);
    assert(b@.subrange(0, b@.len() as int) =~= b@);
    loop
        invariant
            na == a@.len(),
            nb == b@.len(),
            sa@ == a@,
            sb@ == b@,
            k <= na && k <= nb,
            seq_le(a@, b@) == seq_le(a@.subrange(k as int, na as int), b@.subrange(k as int, nb as int)),
        decreases na - k,
    {
        if k == na {
            return true;
        }
        if k == nb {
            return false;
        }
        let ca = sa.get_char(k);
        let cb = sb.get_char(k);
        assert(a@.subrange(k as int, na as int)[0] == ca);
        assert(b@.subrange(k as int, nb as int)[0] == cb);
        if ca != cb {
            return ca < cb;
        }
        assert(a@.subrange(k as int, na as int).drop_first() =~= a@.subrange(k + 1, na as int));
        assert(b@.subrange(k as int, nb as int).drop_first() =~= b@.subrange(k + 1, nb as int));
        k = k + 1;
    }
}

/// Where a field named `name` goes among fields sorted by name.
fn field_pos_exec(out: &Vec<(String, Value)>, name: &String) -> (r: usize)
    ensures
        r == field_pos(fields_model(out@), name@),
        r <= out.len(),
{
    let ghost om = fields_model(out@);
    proof {
        lemma_fields_model(out@);
    }
    let mut j = out.len();
    assert(om.subrange(0, j as int) =~= om);
    while j > 0
        invariant
            om == fields_model(out@),
            om.len() == out.len(),
            forall|k: int| 0 <= k < out.len() ==> #[trigger] om[k] == (out@[k].0@, out@[k].1@),
            j <= out.len(),
            field_pos(om.subrange(0, j as int), name@) == field_pos(om, name@),
        decreases j,
    {
        assert(om.subrange(0, j as int).last() == om[j - 1]);
        if str_le(&out[j - 1].0, name) {
            return j;
        }
        assert(om.subrange(0, j as int).drop_last() =~= om.subrange(0, j - 1));
        j = j - 1;
    }
    0
}

fn mismatch() -> (r: Result<Value, ValidationError>)
    ensures
        outcome_is(r, fail(ValidationErrorKind::TypeMismatch)),
{
    Err(failure(ValidationErrorKind::TypeMismatch))
}

/// The value itself when `ok`, else a failure of `kind`.
fn accept_if(ok: bool, value: &Value, kind: ValidationErrorKind) -> (r: Result<Value, ValidationError>)
    ensures
        outcome_is(r, if ok { Ok(value@) } else { fail(kind) }),
{
    if ok {
        Ok(value.copy())
    } else {
        Err(failure(kind))
    }
}

impl Rule {
    /// Checks `value` against this rule: the value with the defaults of absent object
    /// fields filled in, or the first violation with its path from the root of `value`.
    pub fn validate(&self, value: &Value) -> (r: Result<Value, ValidationError>)
        ensures
            outcome_is(r, check(self@, value@)),
        decreases self,
    {
        match self {
            Rule::RuleUnion(rs) => {
                let ghost rm = rules_model(rs@);
                if rs.len() == 0 {
                    return Err(failure(ValidationErrorKind::NoAlternative));
                }
                let mut i: usize = 0;
                loop
                    invariant
                        *self == Rule::RuleUnion(*rs),
                        rm == rules_model(rs@),
                        i < rs.len(),
                        check_union(rm, 0, value@) == check_union(rm, i as int, value@),
                    decreases rs.len() - i,
                {
                    proof {
                        lemma_rules_model(rs@);
                        vstd::std_specs::vec::axiom_vec_index_decreases(*rs, i as int);
                        assert(decreases_to!(*self => self->RuleUnion_0));
                    }
                    match rs[i].validate(value) {
                        Ok(v) => return Ok(v),
                        Err(e) => {
                            if i + 1 == rs.len() {
                                return Err(e);
                            }
                        },
                    }
                    i = i + 1;
                }
            },
            Rule::RuleList(rs) => {
                let ghost rm = rules_model(rs@);
                let mut cur = value.copy();
                let mut i: usize = 0;
                while i < rs.len()
                    invariant
                        *self == Rule::RuleList(*rs),
                        rm == rules_model(rs@),
                        i <= rs.len(),
                        check_chain(rm, 0, value@) == check_chain(rm, i as int, cur@),
                    decreases rs.len() - i,
                {
                    proof {
                        lemma_rules_model(rs@);
                        vstd::std_specs::vec::axiom_vec_index_decreases(*rs, i as int);
                        assert(decreases_to!(*self => self->RuleList_0));
                    }
                    match rs[i].validate(&cur) {
                        Ok(v) => {
                            cur = v;
                        },
                        Err(e) => return Err(e),
                    }
                    i = i + 1;
                }
                proof {
                    lemma_rules_model(rs@);
                }
                Ok(cur)
            },
            Rule::String => accept_if(matches!(value, Value::String(..)), value, ValidationErrorKind::TypeMismatch),
            Rule::Integer => accept_if(matches!(value, Value::Integer(..)), value, ValidationErrorKind::TypeMismatch),
            Rule::Float => accept_if(matches!(value, Value::Float(..)), value, ValidationErrorKind::TypeMismatch),
            Rule::Boolean => accept_if(matches!(value, Value::Boolean(..)), value, ValidationErrorKind::TypeMismatch),
            Rule::Any => Ok(value.copy()),
            Rule::List => accept_if(matches!(value, Value::List(..)), value, ValidationErrorKind::TypeMismatch),
            Rule::Null => accept_if(matches!(value, Value::Null), value, ValidationErrorKind::TypeMismatch),
            Rule::Number => accept_if(
                matches!(value, Value::Integer(..)) || matches!(value, Value::Float(..)),
                value,
                ValidationErrorKind::TypeMismatch,
            ),
            Rule::Default(_) => Ok(value.copy()),
            Rule::AllUppercase => match value {
                Value::String(t) => accept_if(letters_all_of_case(t, true), value, ValidationErrorKind::NotUppercase),
                _ => mismatch(),
            },
            Rule::AllLowercase => match value {
                Value::String(t) => accept_if(letters_all_of_case(t, false), value, ValidationErrorKind::NotLowercase),
                _ => mismatch(),
            },
            Rule::Url => match value {
                Value::String(t) => accept_if(url_ok(t), value, ValidationErrorKind::NotUrl),
                _ => mismatch(),
            },
            Rule::Length(n) => match value {
                Value::String(t) => accept_if(t.as_str().unicode_len() as u64 == *n, value, ValidationErrorKind::WrongLength),
                _ => mismatch(),
            },
            Rule::MinLength(n) => match value {
                Value::String(t) => accept_if(t.as_str().unicode_len() as u64 >= *n, value, ValidationErrorKind::TooShort),
                _ => mismatch(),
            },
            Rule::MaxLength(n) => match value {
                Value::String(t) => accept_if(t.as_str().unicode_len() as u64 <= *n, value, ValidationErrorKind::TooLong),
                _ => mismatch(),
            },
            Rule::Min(n) => match value {
                Value::Integer(x) => accept_if(*x >= *n, value, ValidationErrorKind::BelowMin),
                Value::Float(t) => match float_at_least(t, *n) {
                    Some(ok) => accept_if(ok, value, ValidationErrorKind::BelowMin),
                    None => mismatch(),
                },
                _ => mismatch(),
            },
            Rule::Max(n) => match value {
                Value::Integer(x) => accept_if(*x <= *n, value, ValidationErrorKind::AboveMax),
                Value::Float(t) => match float_at_most(t, *n) {
                    Some(ok) => accept_if(ok, value, ValidationErrorKind::AboveMax),
                    None => mismatch(),
                },
                _ => mismatch(),
            },
            Rule::ListAll(inner) => match value {
                Value::List(items) => {
                    let ghost im = list_model(items@);
                    let ghost rule = (**inner)@;
                    let mut out: Vec<Value> = Vec::new();
                    let mut i: usize = 0;
                    assert(list_model(out@) =~= Seq::<ValueModel>::empty());
                    while i < items.len()
                        invariant
                            *self == Rule::ListAll(*inner),
                            *value == Value::List(*items),
                            im == list_model(items@),
                            rule == (**inner)@,
                            i <= items.len(),
                            check_items(rule, im, 0, Seq::empty()) == check_items(rule, im, i as int, list_model(out@)),
                        decreases items.len() - i,
                    {
                        proof {
                            lemma_list_model(items@);
                            assert(decreases_to!(*self => **inner));
                        }
                        match inner.validate(&items[i]) {
                            Ok(v) => {
                                let ghost before = out@;
                                out.push(v);
                                assert(out@.drop_last() =~= before);
                            },
                            Err(e) => return Err(prefixed(PathStep::Index(i), e)),
                        }
                        i = i + 1;
                    }
                    proof {
                        lemma_list_model(items@);
                    }
                    Ok(Value::List(out))
                },
                _ => mismatch(),
            },
            Rule::Object(rfs) => match value {
                Value::Object(vfs) => {
                    let ghost rm = rule_fields_model(rfs@);
                    let ghost vm = fields_model(vfs@);
                    let mut out: Vec<(String, Value)> = Vec::new();
                    let mut i: usize = 0;
                    assert(fields_model(out@) =~= Seq::<(Seq<char>, ValueModel)>::empty());
                    while i < vfs.len()
                        invariant
                            *self == Rule::Object(*rfs),
                            *value == Value::Object(*vfs),
                            rm == rule_fields_model(rfs@),
                            vm == fields_model(vfs@),
                            i <= vfs.len(),
                            check_value_fields(rm, vm, 0, Seq::empty()) == check_value_fields(rm, vm, i as int, fields_model(out@)),
                        decreases vfs.len() - i,
                    {
                        proof {
                            lemma_fields_model(vfs@);
                            lemma_rule_fields_model(rfs@);
                        }
                        let name = &vfs[i].0;
                        match find_rule_exec(rfs, name) {
                            None => {
                                return Err(prefixed(PathStep::Field(name.clone()), failure(ValidationErrorKind::UnexpectedField)));
                            },
                            Some(j) => {
                                proof {
                                    vstd::std_specs::vec::axiom_vec_index_decreases(*rfs, j as int);
                                    assert(decreases_to!(*self => self->Object_0));
                                    assert(decreases_to!(*self => rfs[j as int].1));
                                }
                                match rfs[j].1.validate(&vfs[i].1) {
                                    Ok(v) => {
                                        let ghost before = out@;
                                        out.push((name.clone(), v));
                                        assert(out@.drop_last() =~= before);
                                    },
                                    Err(e) => return Err(prefixed(PathStep::Field(name.clone()), e)),
                                }
                            },
                        }
                        i = i + 1;
                    }
                    let ghost filled = fields_model(out@);
                    proof {
                        lemma_fields_model(vfs@);
                        assert(check_value_fields(rm, vm, 0, Seq::empty()) == Ok::<_, ErrorModel>(filled));
                    }
                    let mut j: usize = 0;
                    while j < rfs.len()
                        invariant
                            *self == Rule::Object(*rfs),
                            *value == Value::Object(*vfs),
                            check_value_fields(rm, vm, 0, Seq::empty()) == Ok::<_, ErrorModel>(filled),
                            rm == rule_fields_model(rfs@),
                            vm == fields_model(vfs@),
                            j <= rfs.len(),
                            fill_defaults(rm, vm, 0, filled) == fill_defaults(rm, vm, j as int, fields_model(out@)),
                        decreases rfs.len() - j,
                    {
                        proof {
                            lemma_rule_fields_model(rfs@);
                        }
                        let name = &rfs[j].0;
                        let first = match find_rule_exec(rfs, name) {
                            Some(k) => k == j,
                            None => false,
                        };
                        if first && !has_field_exec(vfs, name) {
                            match &rfs[j].1 {
                                Rule::Default(fb) => {
                                    let pos = field_pos_exec(&out, name);
                                    let ghost before = fields_model(out@);
                                    proof {
                                        lemma_fields_model(out@);
                                    }
                                    let item = (name.clone(), fb.copy());
                                    let ghost im = (item.0@, item.1@);
                                    out.insert(pos, item);
                                    proof {
                                        lemma_fields_model(out@);
                                    }
                                    assert(fields_model(out@) =~= before.insert(pos as int, im));
                                },
                                _ => {
                                    return Err(prefixed(PathStep::Field(name.clone()), failure(ValidationErrorKind::MissingField)));
                                },
                            }
                        }
                        j = j + 1;
                    }
                    proof {
                        lemma_rule_fields_model(rfs@);
                    }
                    Ok(Value::Object(out))
                },
                _ => mismatch(),
            },
        }
    }
}

} // verus!

use vstd::prelude::*;
use vstd::string::StringSliceAdditionalSpecFns;
use crate::lexer::{all_digits, lemma_lex_digits, lemma_lex_quoted, QUOTE, lex, lex_from, is_digit, span_is, token_text, tokens_view, true_word, Token, TokenModel};

verus! {

broadcast use {vstd::std_specs::vec::axiom_vec_decreases_to_view, vstd::seq::axiom_seq_index_decreases};

/// A JSON value. Numbers and strings borrow their text from the parsed input; an
/// object holds its members in a vector whose keys are unique.
#[allow(non_camel_case_types)]
#[derive(Debug, PartialEq)]
pub enum Value<'a> {
    NUM(&'a str),
    STR(&'a str),
    ARR(Vec<Value<'a>>),
    OBJ(Vec<(&'a str, Value<'a>)>),
    BOOL(bool),
    NULL,
}

/// What a value stands for. A number holds its decimal digits, a string its
/// bytes, an object its (key, value) members.
pub enum ValueModel {
    Num(Seq<u8>),
    Str(Seq<u8>),
    Arr(Seq<ValueModel>),
    Obj(Seq<(Seq<u8>, ValueModel)>),
    Bool(bool),
    Null,
}

pub open spec fn value_view<'a>(v: Value<'a>) -> ValueModel
    decreases v, 1nat,
{
    match v {
        Value::NUM(n) => ValueModel::Num(n.spec_bytes()),
        Value::STR(s) => ValueModel::Str(s.spec_bytes()),
        Value::ARR(a) => ValueModel::Arr(values_view(a@)),
        Value::OBJ(m) => ValueModel::Obj(members_view(m@)),
        Value::BOOL(b) => ValueModel::Bool(b),
        Value::NULL => ValueModel::Null,
    }
}

pub open spec fn values_view<'a>(s: Seq<Value<'a>>) -> Seq<ValueModel>
    decreases s, 0nat,
{
    if s.len() == 0 {
        Seq::empty()
    } else {
        values_view(s.drop_last()).push(value_view(s.last()))
    }
}

pub open spec fn members_view<'a>(s: Seq<(&'a str, Value<'a>)>) -> Seq<(Seq<u8>, ValueModel)>
    decreases s, 0nat,
{
    if s.len() == 0 {
        Seq::empty()
    } else {
        members_view(s.drop_last()).push((s.last().0.spec_bytes(), value_view(s.last().1)))
    }
}


impl<'a> Clone for Value<'a> {
    fn clone(&self) -> (r: Self)
        ensures
            r@ == self@,
        decreases self,
    {
        match self {
            Value::NUM(n) => Value::NUM(*n),
            Value::STR(s) => Value::STR(*s),
            Value::ARR(a) => {
                let mut out: Vec<Value<'a>> = Vec::new();
                let mut k: usize = 0;
                while k < a.len()
                    invariant
                        *self == Value::ARR(*a),
                        k <= a@.len(),
                        values_view(out@) == values_view(a@.subrange(0, k as int)),
                    decreases a@.len() - k,
                {
                    proof {
                        assert(decreases_to!(*self => self->ARR_0));
                        assert(decreases_to!(*a => a@));
                        assert(decreases_to!(a@ => a@[k as int]));
                        assert(decreases_to!(self => a[k as int]));
                    }
                    let e = a[k].clone();
                    let ghost before = out@;
                    out.push(e);
                    proof {
                        assert(out@.drop_last() == before);
                        assert(a@.subrange(0, k + 1).drop_last() =~= a@.subrange(0, k as int));
                    }
                    k += 1;
                }
                proof {
                    assert(a@.subrange(0, a@.len() as int) =~= a@);
                }
                Value::ARR(out)
            },
            Value::OBJ(m) => {
                let mut out: Vec<(&'a str, Value<'a>)> = Vec::new();
                let mut k: usize = 0;
                while k < m.len()
                    invariant
                        *self == Value::OBJ(*m),
                        k <= m@.len(),
                        members_view(out@) == members_view(m@.subrange(0, k as int)),
                    decreases m@.len() - k,
                {
                    proof {
                        assert(decreases_to!(*self => self->OBJ_0));
                        assert(decreases_to!(*m => m@));
                        assert(decreases_to!(m@ => m@[k as int]));
                        assert(decreases_to!(m@[k as int] => m@[k as int].1));
                        assert(decreases_to!(self => m[k as int].1));
                    }
                    let e = m[k].1.clone();
                    let ghost before = out@;
                    out.push((m[k].0, e));
                    proof {
                        assert(out@.drop_last() == before);
                        assert(m@.subrange(0, k + 1).drop_last() =~= m@.subrange(0, k as int));
                    }
                    k += 1;
                }
                proof {
                    assert(m@.subrange(0, m@.len() as int) =~= m@);
                }
                Value::OBJ(out)
            },
            Value::BOOL(b) => Value::BOOL(*b),
            Value::NULL => Value::NULL,
        }
    }
}

impl<'a> View for Value<'a> {
    type V = ValueModel;

    open spec fn view(&self) -> ValueModel {
        value_view(*self)
    }
}

/// Why a token sequence does not form a value.
#[derive(Debug, PartialEq, Clone)]
pub enum Error {
    /// A number token whose text is not a run of decimal digits; holds that text.
    NotANumber(String),
    /// A token where the grammar allows none of its kind; holds its text.
    UnexpectedToken(String),
    /// A comma with no value after it.
    ExpectedValueAfterComma,
    /// An array or object whose closing bracket never comes.
    UnclosedArray,
    /// An object key that is not followed by a colon.
    ExpectedColonInObj,
}

pub enum ErrorModel {
    NotANumber(Seq<char>),
    UnexpectedToken(Seq<char>),
    ExpectedValueAfterComma,
    UnclosedArray,
    ExpectedColonInObj,
}

impl View for Error {
    type V = ErrorModel;

    open spec fn view(&self) -> ErrorModel {
        match self {
            Error::NotANumber(s) => ErrorModel::NotANumber(s@),
            Error::UnexpectedToken(s) => ErrorModel::UnexpectedToken(s@),
            Error::ExpectedValueAfterComma => ErrorModel::ExpectedValueAfterComma,
            Error::UnclosedArray => ErrorModel::UnclosedArray,
            Error::ExpectedColonInObj => ErrorModel::ExpectedColonInObj,
        }
    }
}

/// A parse step's outcome: the value and the index just past its tokens, or the error.
pub type Parsed = Result<(ValueModel, int), ErrorModel>;

/// A member step's outcome: the key, the value and the index past them, or the error.
pub type ParsedMember = Result<(Seq<u8>, ValueModel, int), ErrorModel>;

pub open spec fn parsed_view<'a>(r: Result<(Value<'a>, usize), Error>) -> Parsed {
    match r {
        Ok((v, i)) => Ok((v@, i as int)),
        Err(e) => Err(e@),
    }
}

/// The cursor stands at the end of the tokens: past them, or on the end marker.
pub open spec fn at_end(ts: Seq<TokenModel>, i: int) -> bool {
    i < 0 || i >= ts.len() || ts[i] is Eof
}

pub open spec fn is_kind(ts: Seq<TokenModel>, i: int, k: TokenModel) -> bool {
    0 <= i < ts.len() && ts[i] == k
}

/// The members of an object after `key` is set to `v`: a member with that key
/// takes the new value in its place, else the pair is added at the end.
pub open spec fn insert_member(m: Seq<(Seq<u8>, ValueModel)>, key: Seq<u8>, v: ValueModel) -> Seq<
    (Seq<u8>, ValueModel),
> {
    if exists|p: int| 0 <= p < m.len() && #[trigger] m[p].0 == key {
        let p = choose|p: int| 0 <= p < m.len() && #[trigger] m[p].0 == key;
        m.update(p, (key, v))
    } else {
        m.push((key, v))
    }
}

/// Every object in the tree, at any depth, has unique keys.
pub open spec fn well_formed(v: ValueModel) -> bool
    decreases v,
{
    match v {
        ValueModel::Arr(a) => forall|x: int| 0 <= x < a.len() ==> well_formed(#[trigger] a[x]),
        ValueModel::Obj(m) => unique_keys(m) && forall|x: int|
            0 <= x < m.len() ==> well_formed(#[trigger] m[x].1),
        _ => true,
    }
}

/// The value that starts at token `i`.
pub open spec fn parse_value_at(ts: Seq<TokenModel>, i: int) -> Parsed
    decreases ts.len() - i, 2nat,
{
    if i < 0 || i >= ts.len() {
        Err(ErrorModel::UnexpectedToken(Seq::empty()))
    } else {
        match ts[i] {
            TokenModel::Num(n) => if all_digits(n) {
                Ok((ValueModel::Num(n), i + 1))
            } else {
                Err(ErrorModel::NotANumber(token_text(ts[i])))
            },
            TokenModel::Str(s) => Ok((ValueModel::Str(s), i + 1)),
            TokenModel::LBracket => parse_array_at(ts, i),
            TokenModel::LBrace => parse_object_at(ts, i),
            TokenModel::Bool(w) => Ok((ValueModel::Bool(w == true_word()), i + 1)),
            TokenModel::Null => Ok((ValueModel::Null, i + 1)),
            _ => Err(ErrorModel::UnexpectedToken(token_text(ts[i]))),
        }
    }
}

/// The array whose opening bracket stands at token `i`. A parsed value always
/// ends past its first token and within the tokens (`lemma_parse_value`); the
/// test on `k` only keeps the recursion well founded.
pub open spec fn parse_array_at(ts: Seq<TokenModel>, i: int) -> Parsed
    decreases ts.len() - i, 1nat,
{
    if i < 0 || i >= ts.len() {
        Err(ErrorModel::UnclosedArray)
    } else if is_kind(ts, i + 1, TokenModel::RBracket) {
        Ok((ValueModel::Arr(Seq::empty()), i + 2))
    } else if at_end(ts, i + 1) {
        Err(ErrorModel::UnclosedArray)
    } else {
        match parse_value_at(ts, i + 1) {
            Err(e) => Err(e),
            Ok((v, k)) => if i + 1 < k <= ts.len() {
                parse_elements(ts, k, seq![v])
            } else {
                Err(ErrorModel::UnclosedArray)
            },
        }
    }
}

/// The rest of an array from token `k`, after the elements `acc`: a closing
/// bracket, or a comma and one more element.
pub open spec fn parse_elements(ts: Seq<TokenModel>, k: int, acc: Seq<ValueModel>) -> Parsed
    decreases ts.len() - k, 0nat,
{
    if k < 0 || k > ts.len() {
        Err(ErrorModel::UnclosedArray)
    } else if is_kind(ts, k, TokenModel::RBracket) {
        Ok((ValueModel::Arr(acc), k + 1))
    } else if at_end(ts, k) {
        Err(ErrorModel::UnclosedArray)
    } else if !(ts[k] is Comma) {
        Err(ErrorModel::UnexpectedToken(token_text(ts[k])))
    } else if at_end(ts, k + 1) || is_kind(ts, k + 1, TokenModel::RBracket) {
        Err(ErrorModel::ExpectedValueAfterComma)
    } else {
        match parse_value_at(ts, k + 1) {
            Err(e) => Err(e),
            Ok((v, k2)) => if k + 1 < k2 <= ts.len() {
                parse_elements(ts, k2, acc.push(v))
            } else {
                Err(ErrorModel::UnclosedArray)
            },
        }
    }
}

/// The member that starts at token `j`: a string key, a colon and a value.
pub open spec fn parse_member_at(ts: Seq<TokenModel>, j: int) -> ParsedMember
    decreases ts.len() - j, 1nat,
{
    if j < 0 || j >= ts.len() {
        Err(ErrorModel::UnexpectedToken(Seq::empty()))
    } else if !(ts[j] is Str) {
        Err(ErrorModel::UnexpectedToken(token_text(ts[j])))
    } else if !is_kind(ts, j + 1, TokenModel::Colon) {
        Err(ErrorModel::ExpectedColonInObj)
    } else {
        match parse_value_at(ts, j + 2) {
            Err(e) => Err(e),
            Ok((v, k)) => Ok((ts[j]->Str_0, v, k)),
        }
    }
}

/// The object whose opening brace stands at token `i`. As for arrays, the test
/// on `k` never fails (`lemma_parse_member`).
pub open spec fn parse_object_at(ts: Seq<TokenModel>, i: int) -> Parsed
    decreases ts.len() - i, 1nat,
{
    if i < 0 || i >= ts.len() {
        Err(ErrorModel::UnclosedArray)
    } else if is_kind(ts, i + 1, TokenModel::RBrace) {
        Ok((ValueModel::Obj(Seq::empty()), i + 2))
    } else if at_end(ts, i + 1) {
        Err(ErrorModel::UnclosedArray)
    } else {
        match parse_member_at(ts, i + 1) {
            Err(e) => Err(e),
            Ok((key, v, k)) => if i + 1 < k <= ts.len() {
                parse_members(ts, k, seq![(key, v)])
            } else {
                Err(ErrorModel::UnclosedArray)
            },
        }
    }
}

/// The rest of an object from token `k`, after the members `acc`: a closing
/// brace, or a comma and one more member.
pub open spec fn parse_members(ts: Seq<TokenModel>, k: int, acc: Seq<(Seq<u8>, ValueModel)>) -> Parsed
    decreases ts.len() - k, 0nat,
{
    if k < 0 || k > ts.len() {
        Err(ErrorModel::UnclosedArray)
    } else if is_kind(ts, k, TokenModel::RBrace) {
        Ok((ValueModel::Obj(acc), k + 1))
    } else if at_end(ts, k) {
        Err(ErrorModel::UnclosedArray)
    } else if !(ts[k] is Comma) {
        Err(ErrorModel::UnexpectedToken(token_text(ts[k])))
    } else if at_end(ts, k + 1) || is_kind(ts, k + 1, TokenModel::RBrace) {
        Err(ErrorModel::ExpectedValueAfterComma)
    } else {
        match parse_member_at(ts, k + 1) {
            Err(e) => Err(e),
            Ok((key, v, k2)) => if k + 1 < k2 <= ts.len() {
                parse_members(ts, k2, insert_member(acc, key, v))
            } else {
                Err(ErrorModel::UnclosedArray)
            },
        }
    }
}


pub proof fn lemma_values_view<'a>(s: Seq<Value<'a>>)
    ensures
        values_view(s).len() == s.len(),
        forall|k: int| 0 <= k < s.len() ==> #[trigger] values_view(s)[k] == s[k]@,
    decreases s.len(),
{
    if s.len() > 0 {
        lemma_values_view(s.drop_last());
    }
}

pub proof fn lemma_members_view<'a>(s: Seq<(&'a str, Value<'a>)>)
    ensures
        members_view(s).len() == s.len(),
        forall|k: int|
            0 <= k < s.len() ==> #[trigger] members_view(s)[k] == (s[k].0.spec_bytes(), s[k].1@),
    decreases s.len(),
{
    if s.len() > 0 {
        lemma_members_view(s.drop_last());
    }
}

/// No two members share a key.
pub open spec fn unique_keys(m: Seq<(Seq<u8>, ValueModel)>) -> bool {
    forall|p: int, q: int| 0 <= p < q < m.len() ==> #[trigger] m[p].0 != #[trigger] m[q].0
}

pub proof fn lemma_insert_member_unique(m: Seq<(Seq<u8>, ValueModel)>, key: Seq<u8>, v: ValueModel)
    requires
        unique_keys(m),
    ensures
        unique_keys(insert_member(m, key, v)),
{
    let r = insert_member(m, key, v);
    assert forall|p: int, q: int| 0 <= p < q < r.len() implies #[trigger] r[p].0 != #[trigger] r[q].0 by {
        if exists|x: int| 0 <= x < m.len() && #[trigger] m[x].0 == key {
            let x = choose|x: int| 0 <= x < m.len() && #[trigger] m[x].0 == key;
            assert(r[x].0 == m[x].0);
        }
    }
}

pub proof fn lemma_insert_member_well_formed(
    m: Seq<(Seq<u8>, ValueModel)>,
    key: Seq<u8>,
    v: ValueModel,
)
    requires
        forall|x: int| 0 <= x < m.len() ==> well_formed(#[trigger] m[x].1),
        well_formed(v),
    ensures
        forall|x: int|
            0 <= x < insert_member(m, key, v).len() ==> well_formed(
                #[trigger] insert_member(m, key, v)[x].1,
            ),
{
}

/// A value that parses takes at least one token, ends within the tokens, and
/// is well formed.
pub proof fn lemma_parse_value(ts: Seq<TokenModel>, i: int)
    ensures
        parse_value_at(ts, i) is Ok ==> {
            let (v, k) = parse_value_at(ts, i)->Ok_0;
            i < k <= ts.len() && well_formed(v)
        },
    decreases ts.len() - i, 2nat,
{
    if 0 <= i < ts.len() {
        match ts[i] {
            TokenModel::LBracket => lemma_parse_array(ts, i),
            TokenModel::LBrace => lemma_parse_object(ts, i),
            _ => {},
        }
    }
}

pub proof fn lemma_parse_array(ts: Seq<TokenModel>, i: int)
    requires
        0 <= i < ts.len(),
    ensures
        parse_array_at(ts, i) is Ok ==> {
            let (v, k) = parse_array_at(ts, i)->Ok_0;
            i < k <= ts.len() && well_formed(v)
        },
    decreases ts.len() - i, 1nat,
{
    if !is_kind(ts, i + 1, TokenModel::RBracket) && !at_end(ts, i + 1) {
        lemma_parse_value(ts, i + 1);
        if let Ok((v, k)) = parse_value_at(ts, i + 1) {
            if i + 1 < k <= ts.len() {
                lemma_parse_elements(ts, k, seq![v]);
            }
        }
    }
}

pub proof fn lemma_parse_elements(ts: Seq<TokenModel>, k: int, acc: Seq<ValueModel>)
    requires
        forall|x: int| 0 <= x < acc.len() ==> well_formed(#[trigger] acc[x]),
    ensures
        parse_elements(ts, k, acc) is Ok ==> {
            let (v, k2) = parse_elements(ts, k, acc)->Ok_0;
            k < k2 <= ts.len() && well_formed(v)
        },
    decreases ts.len() - k, 0nat,
{
    if 0 <= k <= ts.len() && !is_kind(ts, k, TokenModel::RBracket) && !at_end(ts, k) && ts[k] is Comma
        && !at_end(ts, k + 1) && !is_kind(ts, k + 1, TokenModel::RBracket) {
        lemma_parse_value(ts, k + 1);
        if let Ok((v, k2)) = parse_value_at(ts, k + 1) {
            if k + 1 < k2 <= ts.len() {
                let acc2 = acc.push(v);
                assert forall|x: int| 0 <= x < acc2.len() implies well_formed(#[trigger] acc2[x]) by {
                    if x < acc.len() {
                        assert(acc2[x] == acc[x]);
                    }
                }
                lemma_parse_elements(ts, k2, acc2);
            }
        }
    }
}

pub proof fn lemma_parse_member(ts: Seq<TokenModel>, j: int)
    ensures
        parse_member_at(ts, j) is Ok ==> {
            let (key, v, k) = parse_member_at(ts, j)->Ok_0;
            j < k <= ts.len() && well_formed(v)
        },
    decreases ts.len() - j, 1nat,
{
    if 0 <= j < ts.len() && ts[j] is Str && is_kind(ts, j + 1, TokenModel::Colon) {
        lemma_parse_value(ts, j + 2);
    }
}

pub proof fn lemma_parse_object(ts: Seq<TokenModel>, i: int)
    requires
        0 <= i < ts.len(),
    ensures
        parse_object_at(ts, i) is Ok ==> {
            let (v, k) = parse_object_at(ts, i)->Ok_0;
            i < k <= ts.len() && well_formed(v)
        },
    decreases ts.len() - i, 1nat,
{
    if !is_kind(ts, i + 1, TokenModel::RBrace) && !at_end(ts, i + 1) {
        lemma_parse_member(ts, i + 1);
        if let Ok((key, v, k)) = parse_member_at(ts, i + 1) {
            if i + 1 < k <= ts.len() {
                lemma_parse_members(ts, k, seq![(key, v)]);
            }
        }
    }
}

pub proof fn lemma_parse_members(ts: Seq<TokenModel>, k: int, acc: Seq<(Seq<u8>, ValueModel)>)
    requires
        unique_keys(acc),
        forall|x: int| 0 <= x < acc.len() ==> well_formed(#[trigger] acc[x].1),
    ensures
        parse_members(ts, k, acc) is Ok ==> {
            let (v, k2) = parse_members(ts, k, acc)->Ok_0;
            k < k2 <= ts.len() && well_formed(v)
        },
    decreases ts.len() - k, 0nat,
{
    if 0 <= k <= ts.len() && !is_kind(ts, k, TokenModel::RBrace) && !at_end(ts, k) && ts[k] is Comma
        && !at_end(ts, k + 1) && !is_kind(ts, k + 1, TokenModel::RBrace) {
        lemma_parse_member(ts, k + 1);
        if let Ok((key, v, k2)) = parse_member_at(ts, k + 1) {
            if k + 1 < k2 <= ts.len() {
                lemma_insert_member_unique(acc, key, v);
                lemma_insert_member_well_formed(acc, key, v);
                lemma_parse_members(ts, k2, insert_member(acc, key, v));
            }
        }
    }
}

/// The index of the member whose key is `key`, if there is one.
fn find_key<'a>(members: &Vec<(&'a str, Value<'a>)>, key: &'a str) -> (r: Option<usize>)
    ensures
        match r {
            Some(p) => p < members@.len() && members_view(members@)[p as int].0 == key.spec_bytes(),
            None => forall|q: int|
                0 <= q < members@.len() ==> #[trigger] members_view(members@)[q].0 != key.spec_bytes(),
        },
{
    proof {
        lemma_members_view(members@);
    }
    let kb = key.as_bytes();
    let mut p: usize = 0;
    while p < members.len()
        invariant
            kb@ == key.spec_bytes(),
            p <= members@.len(),
            forall|q: int|
                0 <= q < p ==> #[trigger] members_view(members@)[q].0 != key.spec_bytes(),
        decreases members@.len() - p,
    {
        let other = members[p].0.as_bytes();
        let same = span_is(other, 0, other.len(), kb);
        proof {
            lemma_members_view(members@);
            assert(other@.subrange(0, other@.len() as int) =~= other@);
        }
        if same {
            return Some(p);
        }
        p += 1;
    }
    None
}

/// Sets `key` to `v` among `members`, as `insert_member` says.
fn put_member<'a>(members: &mut Vec<(&'a str, Value<'a>)>, key: &'a str, v: Value<'a>)
    requires
        unique_keys(members_view(old(members)@)),
    ensures
        members_view(final(members)@) == insert_member(members_view(old(members)@), key.spec_bytes(), v@),
        unique_keys(members_view(final(members)@)),
{
    let ghost m = members_view(members@);
    let ghost start = members@;
    proof {
        lemma_members_view(members@);
        lemma_insert_member_unique(m, key.spec_bytes(), v@);
    }
    match find_key(members, key) {
        Some(p) => {
            let ghost vm = v@;
            members.set(p, (key, v));
            proof {
                lemma_members_view(members@);
                let q = choose|q: int| 0 <= q < m.len() && #[trigger] m[q].0 == key.spec_bytes();
                assert(q == p);
                assert(members@ == start.update(p as int, (key, v)));
                assert(members_view(members@) =~= m.update(p as int, (key.spec_bytes(), vm)));
            }
        },
        None => {
            let ghost vm = v@;
            members.push((key, v));
            proof {
                lemma_members_view(members@);
                assert(members@ == start.push((key, v)));
                assert(members_view(members@) =~= m.push((key.spec_bytes(), vm)));
            }
        },
    }
}


pub open spec fn array_view<'a>(r: Result<(Vec<Value<'a>>, usize), Error>) -> Parsed {
    match r {
        Ok((a, i)) => Ok((ValueModel::Arr(values_view(a@)), i as int)),
        Err(e) => Err(e@),
    }
}

pub open spec fn object_view<'a>(r: Result<(Vec<(&'a str, Value<'a>)>, usize), Error>) -> Parsed {
    match r {
        Ok((m, i)) => Ok((ValueModel::Obj(members_view(m@)), i as int)),
        Err(e) => Err(e@),
    }
}

pub open spec fn member_view<'a>(r: Result<(&'a str, Value<'a>, usize), Error>) -> ParsedMember {
    match r {
        Ok((key, v, i)) => Ok((key.spec_bytes(), v@, i as int)),
        Err(e) => Err(e@),
    }
}

fn at_end_of<'a>(tokens: &Vec<Token<'a>>, i: usize) -> (r: bool)
    ensures
        r == at_end(tokens_view(tokens@), i as int),
{
    i >= tokens.len() || matches!(tokens[i], Token::EOF)
}

fn kind_at<'a>(tokens: &Vec<Token<'a>>, i: usize, k: &Token<'a>) -> (r: bool)
    requires
        !(k@ is Num || k@ is Str || k@ is Bool || k@ is Error),
    ensures
        r == is_kind(tokens_view(tokens@), i as int, k@),
{
    if i >= tokens.len() {
        return false;
    }
    match (&tokens[i], k) {
        (Token::LBRACE, Token::LBRACE) => true,
        (Token::RBRACE, Token::RBRACE) => true,
        (Token::LBRACKET, Token::LBRACKET) => true,
        (Token::RBRACKET, Token::RBRACKET) => true,
        (Token::COMMA, Token::COMMA) => true,
        (Token::COLON, Token::COLON) => true,
        (Token::NULL, Token::NULL) => true,
        (Token::EOF, Token::EOF) => true,
        _ => false,
    }
}

/// The text of a number token, when it is a run of decimal digits.
pub fn parse_num<'a>(t: &Token<'a>) -> (r: Result<&'a str, Error>)
    ensures
        match r {
            Ok(n) => t@ == TokenModel::Num(n.spec_bytes()) && all_digits(n.spec_bytes()),
            Err(e) => e@ == ErrorModel::NotANumber(token_text(t@)) && !(t@ is Num && all_digits(
                t@->Num_0,
            )),
        },
{
    let n = match t {
        Token::NUM(n) => *n,
        _ => return Err(Error::NotANumber(t.to_string())),
    };
    let nb = n.as_bytes();
    proof {
        assert(t@ == TokenModel::Num(nb@));
    }
    if nb.len() == 0 {
        return Err(Error::NotANumber(t.to_string()));
    }
    let mut k: usize = 0;
    while k < nb.len()
        invariant
            nb@ == n.spec_bytes(),
            t@ == TokenModel::Num(nb@),
            k <= nb@.len(),
            forall|m: int| 0 <= m < k ==> is_digit(#[trigger] nb@[m]),
        decreases nb@.len() - k,
    {
        if !(0x30 <= nb[k] && nb[k] <= 0x39) {
            proof {
                assert(!is_digit(nb@[k as int]));
            }
            return Err(Error::NotANumber(t.to_string()));
        }
        k += 1;
    }
    Ok(n)
}

/// Whether a literal word is `true`.
fn is_true<'a>(w: &'a str) -> (r: bool)
    ensures
        r == (w.spec_bytes() == true_word()),
{
    let true_w: [u8; 4] = [0x74, 0x72, 0x75, 0x65];
    let wb = w.as_bytes();
    proof {
        assert(true_w@ =~= true_word());
        assert(wb@.subrange(0, wb@.len() as int) =~= wb@);
    }
    span_is(wb, 0, wb.len(), true_w.as_slice())
}

/// Parses the value that starts at token `i`, and returns it with the index
/// just past its tokens.
pub fn parse_value<'a>(tokens: &Vec<Token<'a>>, i: usize) -> (r: Result<(Value<'a>, usize), Error>)
    requires
        i < tokens@.len(),
    ensures
        parsed_view(r) == parse_value_at(tokens_view(tokens@), i as int),
        r is Ok ==> i < r->Ok_0.1 <= tokens@.len(),
    decreases tokens@.len() - i, 2nat,
{
    proof {
        // the length is a usize, so the index past any token fits in one
        assert(tokens@.len() == tokens.len());
    }
    let token = &tokens[i];
    match token {
        Token::NUM(_) => match parse_num(token) {
            Ok(n) => Ok((Value::NUM(n), i + 1)),
            Err(e) => Err(e),
        },
        Token::STRING(s) => Ok((Value::STR(*s), i + 1)),
        Token::LBRACKET => match parse_array(tokens, i) {
            Ok((a, k)) => Ok((Value::ARR(a), k)),
            Err(e) => Err(e),
        },
        Token::LBRACE => match parse_object(tokens, i) {
            Ok((m, k)) => Ok((Value::OBJ(m), k)),
            Err(e) => Err(e),
        },
        Token::BOOL(w) => Ok((Value::BOOL(is_true(*w)), i + 1)),
        Token::NULL => Ok((Value::NULL, i + 1)),
        _ => Err(Error::UnexpectedToken(token.to_string())),
    }
}

/// Parses the array whose opening bracket stands at token `i`, and returns its
/// elements with the index just past its closing bracket.
pub fn parse_array<'a>(tokens: &Vec<Token<'a>>, i: usize) -> (r: Result<(Vec<Value<'a>>, usize), Error>)
    requires
        i < tokens@.len(),
    ensures
        array_view(r) == parse_array_at(tokens_view(tokens@), i as int),
        r is Ok ==> i < r->Ok_0.1 <= tokens@.len(),
    decreases tokens@.len() - i, 1nat,
{
    let ghost ts = tokens_view(tokens@);
    let n = tokens.len();
    let mut out: Vec<Value<'a>> = Vec::new();
    let j = i + 1;
    if kind_at(tokens, j, &Token::RBRACKET) {
        proof {
            assert(values_view(out@) =~= Seq::empty());
        }
        return Ok((out, j + 1));
    }
    if at_end_of(tokens, j) {
        return Err(Error::UnclosedArray);
    }
    let (val, k) = match parse_value(tokens, j) {
        Ok(p) => p,
        Err(e) => return Err(e),
    };
    let ghost first = val@;
    out.push(val);
    proof {
        lemma_values_view(out@);
        assert(values_view(out@) =~= seq![first]);
    }
    let mut loop_i = k;
    loop
        invariant
            ts == tokens_view(tokens@),
            n == tokens@.len(),
            i + 1 < loop_i <= tokens@.len(),
            parse_elements(ts, loop_i as int, values_view(out@)) == parse_array_at(ts, i as int),
        decreases tokens@.len() - loop_i,
    {
        if kind_at(tokens, loop_i, &Token::RBRACKET) {
            return Ok((out, loop_i + 1));
        }
        if at_end_of(tokens, loop_i) {
            return Err(Error::UnclosedArray);
        }
        if !kind_at(tokens, loop_i, &Token::COMMA) {
            return Err(Error::UnexpectedToken(tokens[loop_i].to_string()));
        }
        if at_end_of(tokens, loop_i + 1) || kind_at(tokens, loop_i + 1, &Token::RBRACKET) {
            return Err(Error::ExpectedValueAfterComma);
        }
        let (val, k2) = match parse_value(tokens, loop_i + 1) {
            Ok(p) => p,
            Err(e) => return Err(e),
        };
        let ghost before = out@;
        let ghost vm = val@;
        out.push(val);
        proof {
            lemma_values_view(out@);
            lemma_values_view(before);
            assert(values_view(out@) =~= values_view(before).push(vm));
        }
        loop_i = k2;
    }
}

/// Parses the member that starts at token `j`: a string key, a colon and a
/// value. Returns the key and value with the index just past the value.
pub fn parse_member<'a>(tokens: &Vec<Token<'a>>, j: usize) -> (r: Result<(&'a str, Value<'a>, usize), Error>)
    requires
        j < tokens@.len(),
    ensures
        member_view(r) == parse_member_at(tokens_view(tokens@), j as int),
        r is Ok ==> j < r->Ok_0.2 <= tokens@.len(),
    decreases tokens@.len() - j, 1nat,
{
    let n = tokens.len();
    let key = match &tokens[j] {
        Token::STRING(s) => *s,
        _ => return Err(Error::UnexpectedToken(tokens[j].to_string())),
    };
    if !kind_at(tokens, j + 1, &Token::COLON) {
        return Err(Error::ExpectedColonInObj);
    }
    if j + 2 >= n {
        return Err(Error::UnexpectedToken(String::new()));
    }
    match parse_value(tokens, j + 2) {
        Ok((v, k)) => Ok((key, v, k)),
        Err(e) => Err(e),
    }
}

/// Parses the object whose opening brace stands at token `i`, and returns its
/// members with the index just past its closing brace. A key given twice keeps
/// the later value.
pub fn parse_object<'a>(tokens: &Vec<Token<'a>>, i: usize) -> (r: Result<(Vec<(&'a str, Value<'a>)>, usize), Error>)
    requires
        i < tokens@.len(),
    ensures
        object_view(r) == parse_object_at(tokens_view(tokens@), i as int),
        r is Ok ==> i < r->Ok_0.1 <= tokens@.len(),
        r is Ok ==> unique_keys(members_view(r->Ok_0.0@)),
    decreases tokens@.len() - i, 1nat,
{
    let ghost ts = tokens_view(tokens@);
    let n = tokens.len();
    let mut out: Vec<(&'a str, Value<'a>)> = Vec::new();
    let j = i + 1;
    if kind_at(tokens, j, &Token::RBRACE) {
        proof {
            assert(members_view(out@) =~= Seq::empty());
        }
        return Ok((out, j + 1));
    }
    if at_end_of(tokens, j) {
        return Err(Error::UnclosedArray);
    }
    let (key, val, k) = match parse_member(tokens, j) {
        Ok(p) => p,
        Err(e) => return Err(e),
    };
    let ghost first = (key.spec_bytes(), val@);
    out.push((key, val));
    proof {
        lemma_members_view(out@);
        assert(members_view(out@) =~= seq![first]);
    }
    let mut loop_i = k;
    loop
        invariant
            ts == tokens_view(tokens@),
            n == tokens@.len(),
            i + 1 < loop_i <= tokens@.len(),
            unique_keys(members_view(out@)),
            parse_members(ts, loop_i as int, members_view(out@)) == parse_object_at(ts, i as int),
        decreases tokens@.len() - loop_i,
    {
        if kind_at(tokens, loop_i, &Token::RBRACE) {
            return Ok((out, loop_i + 1));
        }
        if at_end_of(tokens, loop_i) {
            return Err(Error::UnclosedArray);
        }
        if !kind_at(tokens, loop_i, &Token::COMMA) {
            return Err(Error::UnexpectedToken(tokens[loop_i].to_string()));
        }
        if at_end_of(tokens, loop_i + 1) || kind_at(tokens, loop_i + 1, &Token::RBRACE) {
            return Err(Error::ExpectedValueAfterComma);
        }
        let (key, val, k2) = match parse_member(tokens, loop_i + 1) {
            Ok(p) => p,
            Err(e) => return Err(e),
        };
        put_member(&mut out, key, val);
        loop_i = k2;
    }
}


/// What parsing `b` gives: the value that its first tokens form, or the error.
/// Tokens after that value are not read.
pub open spec fn parse_text(b: Seq<u8>) -> Result<ValueModel, ErrorModel> {
    match parse_value_at(lex_from(b, 0, false), 0) {
        Ok((v, _)) => Ok(v),
        Err(e) => Err(e),
    }
}

/// Lexes `string` from its start and parses the value that its tokens begin with.
pub fn try_parse<'a>(string: &'a str) -> (r: Result<Value<'a>, Error>)
    ensures
        match r {
            Ok(v) => parse_text(string.spec_bytes()) == Ok::<ValueModel, ErrorModel>(v@)
                && well_formed(v@),
            Err(e) => parse_text(string.spec_bytes()) == Err::<ValueModel, ErrorModel>(e@),
        },
{
    proof {
        lemma_parse_value(lex_from(string.spec_bytes(), 0, false), 0);
        crate::lexer::lemma_str_bytes_valid(string);
    }
    let tokens = lex(string, 0);
    match parse_value(&tokens, 0) {
        Ok((v, _)) => Ok(v),
        Err(e) => Err(e),
    }
}

/// Lexes `string` from its start and parses the value that its tokens begin with,
/// for input that parses.
pub fn parse<'a>(string: &'a str) -> (r: Value<'a>)
    requires
        parse_text(string.spec_bytes()) is Ok,
    ensures
        parse_text(string.spec_bytes()) == Ok::<ValueModel, ErrorModel>(r@),
        well_formed(r@),
{
    try_parse(string).unwrap()
}


/// A run of ASCII digits parses to the number made of exactly those digits.
pub proof fn lemma_parse_digits(d: Seq<u8>)
    requires
        d.len() >= 1,
        forall|k: int| 0 <= k < d.len() ==> is_digit(#[trigger] d[k]),
    ensures
        parse_text(d) == Ok::<ValueModel, ErrorModel>(ValueModel::Num(d)),
        all_digits(d),
{
    lemma_lex_digits(d, false);
    let ts = lex_from(d, 0, false);
    assert(ts[0] == TokenModel::Num(d));
}

/// Bytes without a quote, between two quotes, parse to the string of those bytes.
pub proof fn lemma_parse_quoted(s: Seq<u8>)
    requires
        forall|k: int| 0 <= k < s.len() ==> #[trigger] s[k] != QUOTE,
    ensures
        parse_text(seq![QUOTE] + s + seq![QUOTE]) == Ok::<ValueModel, ErrorModel>(ValueModel::Str(s)),
{
    lemma_lex_quoted(s, false);
    let ts = lex_from(seq![QUOTE] + s + seq![QUOTE], 0, false);
    assert(ts[0] == TokenModel::Str(s));
}

/// Parsing is deterministic: two inputs with the same bytes give structurally
/// equal trees, or the same error.
pub proof fn lemma_parse_deterministic<'a, 'b>(
    s1: &'a str,
    s2: &'b str,
    r1: Result<Value<'a>, Error>,
    r2: Result<Value<'b>, Error>,
)
    requires
        s1.spec_bytes() == s2.spec_bytes(),
        match r1 {
            Ok(v) => parse_text(s1.spec_bytes()) == Ok::<ValueModel, ErrorModel>(v@),
            Err(e) => parse_text(s1.spec_bytes()) == Err::<ValueModel, ErrorModel>(e@),
        },
        match r2 {
            Ok(v) => parse_text(s2.spec_bytes()) == Ok::<ValueModel, ErrorModel>(v@),
            Err(e) => parse_text(s2.spec_bytes()) == Err::<ValueModel, ErrorModel>(e@),
        },
    ensures
        r1 is Ok <==> r2 is Ok,
        r1 is Ok ==> r1->Ok_0@ == r2->Ok_0@,
        r1 is Err ==> r1->Err_0@ == r2->Err_0@,
{
}

} // verus!

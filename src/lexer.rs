use vstd::prelude::*;
use vstd::string::{StringExecFns, StringSliceAdditionalSpecFns};
use vstd::utf8::{
    decode_utf8, encode_utf8_decode_utf8, encode_utf8_valid_utf8, is_char_boundary,
    is_char_boundary_iff_not_is_continuation_byte, is_char_boundary_start_end_of_seq, valid_utf8,
    valid_utf8_split,
};

verus! {

/// ASCII whitespace as `u8::is_ascii_whitespace` defines it: space, tab, line
/// feed, form feed and carriage return.
pub open spec fn is_ws(c: u8) -> bool {
    c == 0x20 || c == 0x09 || c == 0x0a || c == 0x0c || c == 0x0d
}

pub open spec fn is_digit(c: u8) -> bool {
    0x30 <= c <= 0x39
}

pub open spec fn is_alnum(c: u8) -> bool {
    is_digit(c) || 0x41 <= c <= 0x5a || 0x61 <= c <= 0x7a
}

/// The end of the longest run of bytes of `b`, starting at `i`, that all satisfy `p`.
pub open spec fn scan(b: Seq<u8>, i: int, p: spec_fn(u8) -> bool) -> int
    decreases b.len() - i,
{
    if 0 <= i < b.len() && p(b[i]) {
        scan(b, i + 1, p)
    } else {
        i
    }
}

pub proof fn lemma_scan_bounds(b: Seq<u8>, i: int, p: spec_fn(u8) -> bool)
    ensures
        scan(b, i, p) >= i,
        0 <= i <= b.len() ==> scan(b, i, p) <= b.len(),
        forall|k: int| i <= k < scan(b, i, p) ==> p(#[trigger] b[k]),
        0 <= i <= b.len() ==> (scan(b, i, p) == b.len() || (scan(b, i, p) < b.len() && !p(b[scan(b, i, p)]))),
    decreases b.len() - i,
{
    if 0 <= i < b.len() && p(b[i]) {
        lemma_scan_bounds(b, i + 1, p);
    }
}

fn byte_is_ws(c: u8) -> (r: bool)
    ensures
        r == is_ws(c),
{
    c == 0x20 || c == 0x09 || c == 0x0a || c == 0x0c || c == 0x0d
}

/// The offset of the first byte at or after `start_i` that is not ASCII whitespace.
pub fn skip_whitespace(exp: &str, start_i: usize) -> (r: usize)
    ensures
        r == scan(exp.spec_bytes(), start_i as int, ws()),
{
    let exb = exp.as_bytes();
    let mut i = start_i;
    while i < exb.len() && byte_is_ws(exb[i])
        invariant
            exb@ == exp.spec_bytes(),
            start_i <= i,
            scan(exb@, start_i as int, ws()) == scan(exb@, i as int, ws()),
        decreases exb@.len() - i,
    {
        i += 1;
    }
    i
}


/// The bytes of any `str` are valid UTF-8.
pub proof fn lemma_str_bytes_valid(s: &str)
    ensures
        valid_utf8(s.spec_bytes()),
        is_char_boundary(s.spec_bytes(), 0),
        is_char_boundary(s.spec_bytes(), s.spec_bytes().len() as int),
        decode_utf8(s.spec_bytes()) == s@,
{
    encode_utf8_valid_utf8(s@);
    encode_utf8_decode_utf8(s@);
    is_char_boundary_start_end_of_seq(s.spec_bytes());
}

/// An ASCII byte of valid UTF-8 starts a character, and so does the byte after it.
pub proof fn lemma_ascii_boundaries(b: Seq<u8>, i: int)
    requires
        valid_utf8(b),
        0 <= i < b.len(),
        b[i] < 0x80,
    ensures
        is_char_boundary(b, i),
        is_char_boundary(b, i + 1),
{
    is_char_boundary_iff_not_is_continuation_byte(b, i);
    is_char_boundary_start_end_of_seq(b);
    if i + 1 < b.len() {
        valid_utf8_split(b, i);
        let rest = b.subrange(i, b.len() as int);
        assert(rest[0] == b[i]);
        reveal_with_fuel(valid_utf8, 2);
        let tail = b.subrange(i + 1, b.len() as int);
        assert(vstd::utf8::pop_first_scalar(rest) =~= tail);
        assert(tail[0] == b[i + 1]);
        is_char_boundary_iff_not_is_continuation_byte(b, i + 1);
    }
}

/// The part of `s` between two character boundaries, as a borrowed slice.
fn substr<'a>(s: &'a str, from: usize, to: usize) -> (r: &'a str)
    requires
        from <= to <= s.spec_bytes().len(),
        is_char_boundary(s.spec_bytes(), from as int),
        is_char_boundary(s.spec_bytes(), to as int),
    ensures
        r.spec_bytes() == s.spec_bytes().subrange(from as int, to as int),
        r@ == decode_utf8(s.spec_bytes().subrange(from as int, to as int)),
{
    let (head, _) = s.split_at(to);
    proof {
        lemma_str_bytes_valid(s);
        lemma_str_bytes_valid(head);
        if from < to {
            is_char_boundary_iff_not_is_continuation_byte(s.spec_bytes(), from as int);
            assert(head.spec_bytes()[from as int] == s.spec_bytes()[from as int]);
            is_char_boundary_iff_not_is_continuation_byte(head.spec_bytes(), from as int);
        }
    }
    let (_, r) = head.split_at(from);
    proof {
        lemma_str_bytes_valid(r);
        assert(r.spec_bytes() =~= s.spec_bytes().subrange(from as int, to as int));
    }
    r
}


/// A lexical unit. Text payloads borrow from the lexed input.
#[allow(non_camel_case_types)]
#[derive(Debug, PartialEq, Clone)]
pub enum Token<'a> {
    NUM(&'a str),
    LBRACE,
    RBRACE,
    LBRACKET,
    RBRACKET,
    COMMA,
    COLON,
    STRING(&'a str),
    NULL,
    BOOL(&'a str),
    ERROR(String),
    EOF,
}

/// What a token stands for: its kind, and the bytes of its payload.
pub enum TokenModel {
    Num(Seq<u8>),
    LBrace,
    RBrace,
    LBracket,
    RBracket,
    Comma,
    Colon,
    Str(Seq<u8>),
    Null,
    Bool(Seq<u8>),
    Error(Seq<char>),
    Eof,
}

impl<'a> View for Token<'a> {
    type V = TokenModel;

    open spec fn view(&self) -> TokenModel {
        match self {
            Token::NUM(n) => TokenModel::Num(n.spec_bytes()),
            Token::LBRACE => TokenModel::LBrace,
            Token::RBRACE => TokenModel::RBrace,
            Token::LBRACKET => TokenModel::LBracket,
            Token::RBRACKET => TokenModel::RBracket,
            Token::COMMA => TokenModel::Comma,
            Token::COLON => TokenModel::Colon,
            Token::STRING(s) => TokenModel::Str(s.spec_bytes()),
            Token::NULL => TokenModel::Null,
            Token::BOOL(b) => TokenModel::Bool(b.spec_bytes()),
            Token::ERROR(e) => TokenModel::Error(e@),
            Token::EOF => TokenModel::Eof,
        }
    }
}

/// The view of each token of a sequence.
pub open spec fn tokens_view<'a>(ts: Seq<Token<'a>>) -> Seq<TokenModel> {
    ts.map_values(|t: Token<'a>| t@)
}

/// The text a token shows: its payload, its punctuation character, `null`, or
/// nothing for the end of input.
pub open spec fn token_text(t: TokenModel) -> Seq<char> {
    match t {
        TokenModel::Num(n) => decode_utf8(n),
        TokenModel::Str(s) => decode_utf8(s),
        TokenModel::Bool(b) => decode_utf8(b),
        TokenModel::Error(e) => e,
        TokenModel::LBrace => seq!['{'],
        TokenModel::RBrace => seq!['}'],
        TokenModel::LBracket => seq!['['],
        TokenModel::RBracket => seq![']'],
        TokenModel::Comma => seq![','],
        TokenModel::Colon => seq![':'],
        TokenModel::Null => seq!['n', 'u', 'l', 'l'],
        TokenModel::Eof => Seq::empty(),
    }
}

impl<'a> Token<'a> {
    /// The token's text, as `token_text` gives it.
    pub fn to_string(&self) -> (r: String)
        ensures
            r@ == token_text(self@),
    {
        proof {
            broadcast use vstd::string::to_string_from_display_ensures_for_str;
        }
        match self {
            Token::NUM(n) => {
                proof { lemma_str_bytes_valid(n); }
                (*n).to_string()
            },
            Token::STRING(s) => {
                proof { lemma_str_bytes_valid(s); }
                (*s).to_string()
            },
            Token::ERROR(e) => e.clone(),
            Token::BOOL(b) => {
                proof { lemma_str_bytes_valid(b); }
                (*b).to_string()
            },
            Token::LBRACE => {
                proof { reveal_strlit("{"); }
                "{".to_string()
            },
            Token::RBRACE => {
                proof { reveal_strlit("}"); }
                "}".to_string()
            },
            Token::LBRACKET => {
                proof { reveal_strlit("["); }
                "[".to_string()
            },
            Token::RBRACKET => {
                proof { reveal_strlit("]"); }
                "]".to_string()
            },
            Token::COMMA => {
                proof { reveal_strlit(","); }
                ",".to_string()
            },
            Token::COLON => {
                proof { reveal_strlit(":"); }
                ":".to_string()
            },
            Token::NULL => {
                proof { reveal_strlit("null"); }
                "null".to_string()
            },
            Token::EOF => {
                proof { reveal_strlit(""); }
                "".to_string()
            },
        }
    }
}


/// The byte `"`.
pub const QUOTE: u8 = 0x22;

pub open spec fn ws() -> spec_fn(u8) -> bool {
    |c: u8| is_ws(c)
}

pub open spec fn non_ws() -> spec_fn(u8) -> bool {
    |c: u8| !is_ws(c)
}

pub open spec fn digit() -> spec_fn(u8) -> bool {
    |c: u8| is_digit(c)
}

pub open spec fn alnum() -> spec_fn(u8) -> bool {
    |c: u8| is_alnum(c)
}

pub open spec fn not_quote() -> spec_fn(u8) -> bool {
    |c: u8| c != QUOTE
}

fn byte_is_digit(c: u8) -> (r: bool)
    ensures
        r == is_digit(c),
{
    0x30 <= c && c <= 0x39
}

fn byte_is_alnum(c: u8) -> (r: bool)
    ensures
        r == is_alnum(c),
{
    (0x30 <= c && c <= 0x39) || (0x41 <= c && c <= 0x5a) || (0x61 <= c && c <= 0x7a)
}

/// Reads the run of ASCII digits that starts at `start_i`.
pub fn read_num<'a>(exp: &'a str, start_i: usize) -> (r: (Token<'a>, usize))
    requires
        start_i < exp.spec_bytes().len(),
        is_digit(exp.spec_bytes()[start_i as int]),
    ensures
        r.1 == scan(exp.spec_bytes(), start_i + 1, digit()),
        r.0@ == TokenModel::Num(exp.spec_bytes().subrange(start_i as int, r.1 as int)),
{
    let exb = exp.as_bytes();
    let n = exb.len();
    let mut i = start_i + 1;
    while i < n && byte_is_digit(exb[i])
        invariant
            exb@ == exp.spec_bytes(),
            n == exb@.len(),
            start_i < i <= exb@.len(),
            scan(exb@, start_i + 1, digit()) == scan(exb@, i as int, digit()),
            is_digit(exb@[i - 1]),
        decreases exb@.len() - i,
    {
        i = i + 1;
    }
    proof {
        lemma_str_bytes_valid(exp);
        lemma_ascii_boundaries(exb@, start_i as int);
        lemma_ascii_boundaries(exb@, i - 1);
    }
    (Token::NUM(substr(exp, start_i, i)), i)
}

/// Reads the string whose opening quote stands at `start_i`: the token holds the
/// bytes up to the next quote, or up to the end of input where none follows.
/// The offset returned is one past that closing quote, or the end of input.
pub fn read_str<'a>(exp: &'a str, start_i: usize) -> (r: (Token<'a>, usize))
    requires
        start_i < exp.spec_bytes().len(),
        exp.spec_bytes()[start_i as int] == QUOTE,
    ensures
        ({
            let k = scan(exp.spec_bytes(), start_i + 1, not_quote());
            &&& r.0@ == TokenModel::Str(exp.spec_bytes().subrange(start_i + 1, k))
            &&& r.1 == if k < exp.spec_bytes().len() {
                k + 1
            } else {
                k
            }
        }),
{
    let exb = exp.as_bytes();
    let n = exb.len();
    let mut i = start_i + 1;
    while i < n && exb[i] != QUOTE
        invariant
            exb@ == exp.spec_bytes(),
            n == exb@.len(),
            start_i < i <= exb@.len(),
            scan(exb@, start_i + 1, not_quote()) == scan(exb@, i as int, not_quote()),
        decreases exb@.len() - i,
    {
        i += 1
    }
    proof {
        lemma_str_bytes_valid(exp);
        lemma_ascii_boundaries(exb@, start_i as int);
        if i < exb@.len() {
            lemma_ascii_boundaries(exb@, i as int);
        }
    }
    let next = if i < n {
        i + 1
    } else {
        i
    };
    (Token::STRING(substr(exp, start_i + 1, i)), next)
}

/// Reads the run of ASCII letters and digits that starts at `start_i`.
pub fn read_alphanumeric<'a>(exp: &'a str, start_i: usize) -> (r: (&'a str, usize))
    requires
        start_i <= exp.spec_bytes().len(),
        is_char_boundary(exp.spec_bytes(), start_i as int),
    ensures
        r.1 == scan(exp.spec_bytes(), start_i as int, alnum()),
        r.0.spec_bytes() == exp.spec_bytes().subrange(start_i as int, r.1 as int),
        r.0@ == decode_utf8(exp.spec_bytes().subrange(start_i as int, r.1 as int)),
{
    let exb = exp.as_bytes();
    let mut i = start_i;
    while i < exb.len() && byte_is_alnum(exb[i])
        invariant
            exb@ == exp.spec_bytes(),
            start_i <= i <= exb@.len(),
            scan(exb@, start_i as int, alnum()) == scan(exb@, i as int, alnum()),
            i > start_i ==> is_alnum(exb@[i - 1]),
        decreases exb@.len() - i,
    {
        i += 1
    }
    proof {
        lemma_str_bytes_valid(exp);
        if i > start_i {
            lemma_ascii_boundaries(exb@, i - 1);
        }
    }
    (substr(exp, start_i, i), i)
}

/// Reads the run of bytes other than ASCII whitespace that starts at `start_i`.
pub fn read_non_whitespace<'a>(exp: &'a str, start_i: usize) -> (r: (&'a str, usize))
    requires
        start_i <= exp.spec_bytes().len(),
        is_char_boundary(exp.spec_bytes(), start_i as int),
    ensures
        r.1 == scan(exp.spec_bytes(), start_i as int, non_ws()),
        r.0.spec_bytes() == exp.spec_bytes().subrange(start_i as int, r.1 as int),
        r.0@ == decode_utf8(exp.spec_bytes().subrange(start_i as int, r.1 as int)),
{
    let exb = exp.as_bytes();
    let mut i = start_i;
    while i < exb.len() && !byte_is_ws(exb[i])
        invariant
            exb@ == exp.spec_bytes(),
            start_i <= i <= exb@.len(),
            scan(exb@, start_i as int, non_ws()) == scan(exb@, i as int, non_ws()),
        decreases exb@.len() - i,
    {
        i += 1
    }
    proof {
        lemma_str_bytes_valid(exp);
        if i < exb@.len() {
            lemma_ascii_boundaries(exb@, i as int);
        }
    }
    (substr(exp, start_i, i), i)
}


pub open spec fn true_word() -> Seq<u8> {
    seq![0x74u8, 0x72u8, 0x75u8, 0x65u8]
}

pub open spec fn false_word() -> Seq<u8> {
    seq![0x66u8, 0x61u8, 0x6cu8, 0x73u8, 0x65u8]
}

pub open spec fn null_word() -> Seq<u8> {
    seq![0x6eu8, 0x75u8, 0x6cu8, 0x6cu8]
}

/// The decimal digits of `n`, most significant first.
pub open spec fn decimal(n: nat) -> Seq<char>
    decreases n,
{
    let d = seq!['0', '1', '2', '3', '4', '5', '6', '7', '8', '9'];
    if n < 10 {
        seq![d[n as int]]
    } else {
        decimal(n / 10) + seq![d[(n % 10) as int]]
    }
}

/// The diagnostic of an unrecognised word: the word, the byte it starts with
/// (read as a Latin-1 character), and the offset just past the word.
pub open spec fn unexpected_text(word: Seq<char>, ch: u8, pos: nat) -> Seq<char> {
    "unexpected token "@ + word + ", ch "@ + seq![(ch as u32) as char] + ", at pos "@ + decimal(pos)
}

/// Relies on `char::to_string`, through `Display`: the text of one character.
#[verifier::external_body]
fn byte_char_text(ch: u8) -> (r: String)
    ensures
        r@ == seq![(ch as u32) as char],
{
    (ch as char).to_string()
}

/// The decimal digit `d` as text.
fn digit_text(d: usize) -> (r: &'static str)
    requires
        d < 10,
    ensures
        r@ == seq![seq!['0', '1', '2', '3', '4', '5', '6', '7', '8', '9'][d as int]],
{
    proof {
        reveal_strlit("0");
        reveal_strlit("1");
        reveal_strlit("2");
        reveal_strlit("3");
        reveal_strlit("4");
        reveal_strlit("5");
        reveal_strlit("6");
        reveal_strlit("7");
        reveal_strlit("8");
        reveal_strlit("9");
    }
    match d {
        0 => "0",
        1 => "1",
        2 => "2",
        3 => "3",
        4 => "4",
        5 => "5",
        6 => "6",
        7 => "7",
        8 => "8",
        _ => "9",
    }
}

/// Appends `n` in decimal to `out`.
fn push_decimal(out: &mut String, n: usize)
    ensures
        final(out)@ == old(out)@ + decimal(n as nat),
    decreases n,
{
    if n >= 10 {
        push_decimal(out, n / 10);
    }
    out.append(digit_text(n % 10));
    proof {
        assert(final(out)@ =~= old(out)@ + decimal(n as nat));
    }
}

/// The diagnostic of an unrecognised word, as `unexpected_text` gives it.
fn unexpected_message(word: &str, ch: u8, pos: usize) -> (r: String)
    ensures
        r@ == unexpected_text(word@, ch, pos as nat),
{
    proof {
        reveal_strlit("unexpected token ");
        reveal_strlit(", ch ");
        reveal_strlit(", at pos ");
    }
    let mut out = String::from_str("unexpected token ");
    out.append(word);
    out.append(", ch ");
    let c = byte_char_text(ch);
    out.append(c.as_str());
    out.append(", at pos ");
    push_decimal(&mut out, pos);
    proof {
        assert(out@ =~= unexpected_text(word@, ch, pos as nat));
    }
    out
}

/// The end of the word that starts at `j`: a run of ASCII letters and digits,
/// or, when `loose`, a run of anything but ASCII whitespace.
pub open spec fn word_end(b: Seq<u8>, j: int, loose: bool) -> int {
    if loose {
        scan(b, j, non_ws())
    } else {
        scan(b, j, alnum())
    }
}

/// The token that starts at `j` (a byte of `b` that is not whitespace), and the
/// offset where the next one may start.
pub open spec fn token_at(b: Seq<u8>, j: int, loose: bool) -> (TokenModel, int) {
    let c = b[j];
    if is_digit(c) {
        let k = scan(b, j + 1, digit());
        (TokenModel::Num(b.subrange(j, k)), k)
    } else if c == QUOTE {
        let k = scan(b, j + 1, not_quote());
        (TokenModel::Str(b.subrange(j + 1, k)), if k < b.len() {
            k + 1
        } else {
            k
        })
    } else if c == 0x7b {
        (TokenModel::LBrace, j + 1)
    } else if c == 0x7d {
        (TokenModel::RBrace, j + 1)
    } else if c == 0x5b {
        (TokenModel::LBracket, j + 1)
    } else if c == 0x5d {
        (TokenModel::RBracket, j + 1)
    } else if c == 0x3a {
        (TokenModel::Colon, j + 1)
    } else if c == 0x2c {
        (TokenModel::Comma, j + 1)
    } else {
        let w = word_end(b, j, loose);
        let word = b.subrange(j, w);
        if word == true_word() || word == false_word() {
            (TokenModel::Bool(word), w)
        } else if word == null_word() {
            (TokenModel::Null, w)
        } else {
            (TokenModel::Error(unexpected_text(decode_utf8(word), c, w as nat)), w)
        }
    }
}

pub proof fn lemma_token_at_advances(b: Seq<u8>, j: int, loose: bool)
    requires
        0 <= j < b.len(),
    ensures
        !(token_at(b, j, loose).0 is Error) ==> j < token_at(b, j, loose).1,
        token_at(b, j, loose).1 <= b.len(),
{
    let c = b[j];
    lemma_scan_bounds(b, j + 1, digit());
    lemma_scan_bounds(b, j + 1, not_quote());
    lemma_scan_bounds(b, j, non_ws());
    lemma_scan_bounds(b, j, alnum());
    let w = word_end(b, j, loose);
    if b.subrange(j, w) == true_word() || b.subrange(j, w) == false_word()
        || b.subrange(j, w) == null_word() {
        assert(b.subrange(j, w).len() == w - j);
    }
}

/// The tokens of `b` from offset `i` on: each token after the whitespace before
/// it, up to the end of input, which gives a last `Eof`, or to the first word
/// that is not a literal, which gives a last `Error` and ends the scan.
pub open spec fn lex_from(b: Seq<u8>, i: int, loose: bool) -> Seq<TokenModel>
    decreases b.len() + 2 - i,
    via lex_from_decreases
{
    let j = scan(b, i, ws());
    if j < 0 || j >= b.len() {
        seq![TokenModel::Eof]
    } else {
        let (t, k) = token_at(b, j, loose);
        if t is Error {
            seq![t]
        } else {
            seq![t] + lex_from(b, k, loose)
        }
    }
}

#[via_fn]
proof fn lex_from_decreases(b: Seq<u8>, i: int, loose: bool) {
    lemma_scan_bounds(b, i, ws());
    let j = scan(b, i, ws());
    if 0 <= j < b.len() {
        lemma_token_at_advances(b, j, loose);
    }
}


/// Whether the bytes of `b` from `from` to `to` are exactly `w`.
pub(crate) fn span_is(b: &[u8], from: usize, to: usize, w: &[u8]) -> (r: bool)
    requires
        from <= to <= b@.len(),
    ensures
        r == (b@.subrange(from as int, to as int) == w@),
{
    if to - from != w.len() {
        proof {
            assert(b@.subrange(from as int, to as int).len() != w@.len());
        }
        return false;
    }
    let mut k: usize = 0;
    while k < w.len()
        invariant
            from <= to <= b@.len(),
            to - from == w@.len(),
            k <= w@.len(),
            forall|m: int| 0 <= m < k ==> b@[from + m] == w@[m],
        decreases w@.len() - k,
    {
        if b[from + k] != w[k] {
            proof {
                assert(b@.subrange(from as int, to as int)[k as int] != w@[k as int]);
            }
            return false;
        }
        k += 1;
    }
    proof {
        assert(b@.subrange(from as int, to as int) =~= w@);
    }
    true
}

/// Lexes `exp` from `start_i`, reading words as `word_end` says.
fn lex_with<'a>(exp: &'a str, start_i: usize, loose: bool) -> (r: Vec<Token<'a>>)
    requires
        start_i > exp.spec_bytes().len() || is_char_boundary(exp.spec_bytes(), start_i as int),
    ensures
        tokens_view(r@) == lex_from(exp.spec_bytes(), start_i as int, loose),
{
    let exb = exp.as_bytes();
    let n = exb.len();
    let true_w: [u8; 4] = [0x74, 0x72, 0x75, 0x65];
    let false_w: [u8; 5] = [0x66, 0x61, 0x6c, 0x73, 0x65];
    let null_w: [u8; 4] = [0x6e, 0x75, 0x6c, 0x6c];
    proof {
        lemma_str_bytes_valid(exp);
        assert(true_w@ =~= true_word());
        assert(false_w@ =~= false_word());
        assert(null_w@ =~= null_word());
    }
    let mut out: Vec<Token<'a>> = Vec::new();
    let mut pos = start_i;
    loop
        invariant
            exb@ == exp.spec_bytes(),
            n == exb@.len(),
            valid_utf8(exb@),
            true_w@ == true_word(),
            false_w@ == false_word(),
            null_w@ == null_word(),
            pos > n || is_char_boundary(exb@, pos as int),
            pos == start_i || pos <= n,
            tokens_view(out@) + lex_from(exb@, pos as int, loose) == lex_from(
                exb@,
                start_i as int,
                loose,
            ),
        decreases n + 1 - pos,
    {
        let i = skip_whitespace(exp, pos);
        proof {
            lemma_scan_bounds(exb@, pos as int, ws());
            if i > pos {
                lemma_ascii_boundaries(exb@, i - 1);
            }
        }
        if i >= n {
            let ghost before = out@;
            out.push(Token::EOF);
            proof {
                assert(tokens_view(out@) =~= tokens_view(before) + seq![TokenModel::Eof]);
                assert(tokens_view(out@) =~= lex_from(exb@, start_i as int, loose));
            }
            return out;
        }
        let ch = exb[i];
        proof {
            lemma_token_at_advances(exb@, i as int, loose);
            lemma_scan_bounds(exb@, i + 1, digit());
            lemma_scan_bounds(exb@, i + 1, not_quote());
            lemma_scan_bounds(exb@, i as int, non_ws());
            lemma_scan_bounds(exb@, i as int, alnum());
        }
        let (token, new_i) = if byte_is_digit(ch) {
            read_num(exp, i)
        } else if ch == QUOTE {
            read_str(exp, i)
        } else if ch == 0x7b {
            (Token::LBRACE, i + 1)
        } else if ch == 0x7d {
            (Token::RBRACE, i + 1)
        } else if ch == 0x5b {
            (Token::LBRACKET, i + 1)
        } else if ch == 0x5d {
            (Token::RBRACKET, i + 1)
        } else if ch == 0x3a {
            (Token::COLON, i + 1)
        } else if ch == 0x2c {
            (Token::COMMA, i + 1)
        } else {
            let (word, k) = if loose {
                read_non_whitespace(exp, i)
            } else {
                read_alphanumeric(exp, i)
            };
            if span_is(exb, i, k, true_w.as_slice()) || span_is(exb, i, k, false_w.as_slice()) {
                (Token::BOOL(word), k)
            } else if span_is(exb, i, k, null_w.as_slice()) {
                (Token::NULL, k)
            } else {
                let ghost before = out@;
                out.push(Token::ERROR(unexpected_message(word, ch, k)));
                proof {
                    assert(tokens_view(out@) =~= tokens_view(before) + seq![token_at(exb@, i as int, loose).0]);
                    assert(tokens_view(out@) =~= lex_from(exb@, start_i as int, loose));
                }
                return out;
            }
        };
        proof {
            assert(token@ == token_at(exb@, i as int, loose).0);
            assert(new_i == token_at(exb@, i as int, loose).1);
        }
        let ghost before = out@;
        out.push(token);
        proof {
            assert(tokens_view(out@) =~= tokens_view(before) + seq![token@]);
            assert(lex_from(exb@, pos as int, loose) == seq![token@] + lex_from(exb@, new_i as int, loose));
            assert(tokens_view(out@) + lex_from(exb@, new_i as int, loose) =~= tokens_view(before) + lex_from(exb@, pos as int, loose));
            if new_i < n {
                lemma_ascii_boundaries(exb@, new_i - 1);
            } else if new_i == n {
                vstd::utf8::is_char_boundary_start_end_of_seq(exb@);
            }
        }
        pos = new_i;
    }
}

/// Splits `exp`, from byte offset `start_i` on, into tokens. Words are runs of
/// ASCII letters and digits.
pub fn lex<'a>(exp: &'a str, start_i: usize) -> (r: Vec<Token<'a>>)
    requires
        start_i > exp.spec_bytes().len() || is_char_boundary(exp.spec_bytes(), start_i as int),
    ensures
        tokens_view(r@) == lex_from(exp.spec_bytes(), start_i as int, false),
{
    lex_with(exp, start_i, false)
}

/// Splits `exp`, from byte offset `start_i` on, into tokens, taking as a word
/// any run of bytes up to the next ASCII whitespace.
pub fn lex_loose<'a>(exp: &'a str, start_i: usize) -> (r: Vec<Token<'a>>)
    requires
        start_i > exp.spec_bytes().len() || is_char_boundary(exp.spec_bytes(), start_i as int),
    ensures
        tokens_view(r@) == lex_from(exp.spec_bytes(), start_i as int, true),
{
    lex_with(exp, start_i, true)
}


pub proof fn lemma_scan_all(b: Seq<u8>, i: int, p: spec_fn(u8) -> bool)
    requires
        0 <= i <= b.len(),
        forall|k: int| i <= k < b.len() ==> p(#[trigger] b[k]),
    ensures
        scan(b, i, p) == b.len(),
    decreases b.len() - i,
{
    if i < b.len() {
        lemma_scan_all(b, i + 1, p);
    }
}

/// Input made of whitespace alone lexes to the end marker alone, from any offset.
pub proof fn lemma_lex_whitespace_only(b: Seq<u8>, start: nat, loose: bool)
    requires
        forall|k: int| 0 <= k < b.len() ==> is_ws(#[trigger] b[k]),
    ensures
        lex_from(b, start as int, loose) == seq![TokenModel::Eof],
{
    if start <= b.len() {
        lemma_scan_all(b, start as int, ws());
    }
}

/// A run of ASCII digits lexes to one number token that spans it, then the end marker.
pub proof fn lemma_lex_digits(d: Seq<u8>, loose: bool)
    requires
        d.len() >= 1,
        forall|k: int| 0 <= k < d.len() ==> is_digit(#[trigger] d[k]),
    ensures
        lex_from(d, 0, loose) == seq![TokenModel::Num(d), TokenModel::Eof],
{
    lemma_scan_all(d, 1, digit());
    assert(d.subrange(0, d.len() as int) =~= d);
    assert(lex_from(d, d.len() as int, loose) == seq![TokenModel::Eof]);
    assert(lex_from(d, 0, loose) =~= seq![TokenModel::Num(d), TokenModel::Eof]);
}

/// Bytes without a quote, between two quotes, lex to one string token that holds
/// them, then the end marker.
pub proof fn lemma_lex_quoted(s: Seq<u8>, loose: bool)
    requires
        forall|k: int| 0 <= k < s.len() ==> #[trigger] s[k] != QUOTE,
    ensures
        lex_from(seq![QUOTE] + s + seq![QUOTE], 0, loose) == seq![TokenModel::Str(s), TokenModel::Eof],
{
    let b = seq![QUOTE] + s + seq![QUOTE];
    assert(b[0] == QUOTE);
    assert(!is_ws(b[0]));
    assert(scan(b, 0, ws()) == 0);
    lemma_scan_bounds(b, 1, not_quote());
    assert forall|k: int| 1 <= k < s.len() + 1 as int implies #[trigger] not_quote()(b[k]) by {
        assert(b[k] == s[k - 1]);
    }
    lemma_scan_upto(b, 1, s.len() + 1 as int, not_quote());
    assert(b.subrange(1, s.len() + 1 as int) =~= s);
    assert(lex_from(b, s.len() + 2 as int, loose) == seq![TokenModel::Eof]);
    assert(lex_from(b, 0, loose) =~= seq![TokenModel::Str(s), TokenModel::Eof]);
}

/// A run that satisfies `p` from `i` up to `j`, where it stops, ends at `j`.
pub proof fn lemma_scan_upto(b: Seq<u8>, i: int, j: int, p: spec_fn(u8) -> bool)
    requires
        0 <= i <= j < b.len(),
        forall|k: int| i <= k < j ==> p(#[trigger] b[k]),
        !p(b[j]),
    ensures
        scan(b, i, p) == j,
    decreases j - i,
{
    if i < j {
        lemma_scan_upto(b, i + 1, j, p);
    }
}


/// A non-empty run of ASCII digits.
pub open spec fn all_digits(n: Seq<u8>) -> bool {
    n.len() >= 1 && forall|k: int| 0 <= k < n.len() ==> is_digit(#[trigger] n[k])
}

/// What every token that the lexer gives satisfies: a number spans one or more
/// digits, and a string holds no quote.
pub open spec fn token_ok(t: TokenModel) -> bool {
    match t {
        TokenModel::Num(n) => all_digits(n),
        TokenModel::Str(s) => forall|k: int| 0 <= k < s.len() ==> #[trigger] s[k] != QUOTE,
        _ => true,
    }
}

/// The lexer's output ends with exactly one end marker, or else with one error
/// token that is the last; no token before the last is either, and each token
/// is `token_ok`.
pub proof fn lemma_lex_shape(b: Seq<u8>, i: int, loose: bool)
    requires
        0 <= i,
    ensures
        lex_from(b, i, loose).len() >= 1,
        lex_from(b, i, loose).last() is Eof || lex_from(b, i, loose).last() is Error,
        forall|x: int|
            0 <= x < lex_from(b, i, loose).len() - 1 ==> !(#[trigger] lex_from(b, i, loose)[x] is Eof)
                && !(lex_from(b, i, loose)[x] is Error),
        forall|x: int|
            0 <= x < lex_from(b, i, loose).len() ==> token_ok(#[trigger] lex_from(b, i, loose)[x]),
    decreases b.len() + 2 - i,
{
    lemma_scan_bounds(b, i, ws());
    let j = scan(b, i, ws());
    if 0 <= j < b.len() {
        lemma_token_at_advances(b, j, loose);
        let (t, k) = token_at(b, j, loose);
        lemma_scan_bounds(b, j + 1, digit());
        lemma_scan_bounds(b, j + 1, not_quote());
        if is_digit(b[j]) {
            let n = b.subrange(j, k);
            assert forall|m: int| 0 <= m < n.len() implies is_digit(#[trigger] n[m]) by {
                assert(n[m] == b[j + m]);
                if m > 0 {
                    assert(digit()(b[j + m]));
                }
            }
        } else if b[j] == QUOTE {
            let q = b.subrange(j + 1, scan(b, j + 1, not_quote()));
            assert forall|m: int| 0 <= m < q.len() implies #[trigger] q[m] != QUOTE by {
                assert(q[m] == b[j + 1 + m]);
                assert(not_quote()(b[j + 1 + m]));
            }
        }
        assert(token_ok(t));
        if !(t is Error) {
            lemma_lex_shape(b, k, loose);
            let rest = lex_from(b, k, loose);
            let all = lex_from(b, i, loose);
            assert(all == seq![t] + rest);
            assert forall|x: int| 0 <= x < all.len() implies token_ok(#[trigger] all[x]) by {
                if x > 0 {
                    assert(all[x] == rest[x - 1]);
                }
            }
            assert forall|x: int| 0 <= x < all.len() - 1 implies !(#[trigger] all[x] is Eof) && !(all[x] is Error) by {
                if x > 0 {
                    assert(all[x] == rest[x - 1]);
                }
            }
        }
    }
}

} // verus!

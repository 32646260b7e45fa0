use vstd::prelude::*;
use vstd::string::StringSliceAdditionalSpecFns;
use vstd::utf8::{
    decode_utf8, encode_utf8_decode_utf8, encode_utf8_valid_utf8, is_char_boundary,
    is_char_boundary_iff_not_is_continuation_byte, is_char_boundary_start_end_of_seq, valid_utf8,
};

verus! {

pub const LOWER_A: u8 = 97;
pub const LOWER_Z: u8 = 122;
pub const UPPER_A: u8 = 65;
pub const UPPER_Z: u8 = 90;
pub const UNDERSCORE: u8 = 95;
pub const DIGIT_0: u8 = 48;
pub const DIGIT_9: u8 = 57;
pub const NEWLINE: u8 = 10;
pub const LPAREN: u8 = 40;
pub const RPAREN: u8 = 41;
pub const LBRACE: u8 = 123;
pub const RBRACE: u8 = 125;
pub const COMMA: u8 = 44;
pub const COLON: u8 = 58;
pub const SEMICOLON: u8 = 59;
pub const DOT: u8 = 46;
pub const EQUALS: u8 = 61;
pub const SPACE: u8 = 32;
pub const TAB: u8 = 9;
pub const SLASH: u8 = 47;
pub const MINUS: u8 = 45;
pub const GREATER: u8 = 62;
pub const QUOTE: u8 = 34;

/// The kind of a token, with the text of identifiers, numbers and strings.
#[derive(Debug, Clone, PartialEq)]
pub enum TokKind {
    Ident(String),
    Number(String),
    String(String),
    Module,
    Effects,
    Actor,
    Fn,
    LParen,
    RParen,
    LBrace,
    RBrace,
    Comma,
    Colon,
    Semicolon,
    Dot,
    Arrow,
    Eq,
    Eof,
}

/// A token with the 1-based line and column where it starts.
#[derive(Debug, Clone, PartialEq)]
pub struct Token {
    pub kind: TokKind,
    pub line: usize,
    pub col: usize,
}

/// Mathematical form of `TokKind`: texts as character sequences.
pub enum KindView {
    Ident(Seq<char>),
    Number(Seq<char>),
    Str(Seq<char>),
    Module,
    Effects,
    Actor,
    Fn,
    LParen,
    RParen,
    LBrace,
    RBrace,
    Comma,
    Colon,
    Semicolon,
    Dot,
    Arrow,
    Eq,
    Eof,
}

pub struct TokenView {
    pub kind: KindView,
    pub line: int,
    pub col: int,
}

impl View for TokKind {
    type V = KindView;

    open spec fn view(&self) -> KindView {
        match self {
            TokKind::Ident(s) => KindView::Ident(s@),
            TokKind::Number(s) => KindView::Number(s@),
            TokKind::String(s) => KindView::Str(s@),
            TokKind::Module => KindView::Module,
            TokKind::Effects => KindView::Effects,
            TokKind::Actor => KindView::Actor,
            TokKind::Fn => KindView::Fn,
            TokKind::LParen => KindView::LParen,
            TokKind::RParen => KindView::RParen,
            TokKind::LBrace => KindView::LBrace,
            TokKind::RBrace => KindView::RBrace,
            TokKind::Comma => KindView::Comma,
            TokKind::Colon => KindView::Colon,
            TokKind::Semicolon => KindView::Semicolon,
            TokKind::Dot => KindView::Dot,
            TokKind::Arrow => KindView::Arrow,
            TokKind::Eq => KindView::Eq,
            TokKind::Eof => KindView::Eof,
        }
    }
}

impl View for Token {
    type V = TokenView;

    open spec fn view(&self) -> TokenView {
        TokenView { kind: self.kind@, line: self.line as int, col: self.col as int }
    }
}

pub open spec fn tokens_view(t: Seq<Token>) -> Seq<TokenView> {
    t.map_values(|x: Token| x@)
}

pub open spec fn is_ident_start(c: u8) -> bool {
    (LOWER_A <= c && c <= LOWER_Z) || (UPPER_A <= c && c <= UPPER_Z) || c == UNDERSCORE
}

pub open spec fn is_digit(c: u8) -> bool {
    DIGIT_0 <= c && c <= DIGIT_9
}

pub open spec fn is_ident_byte(c: u8) -> bool {
    is_ident_start(c) || is_digit(c)
}

/// End of the run of identifier bytes that starts at `i`.
pub open spec fn word_end(b: Seq<u8>, i: int) -> int
    decreases b.len() - i,
{
    if 0 <= i < b.len() && is_ident_byte(b[i]) {
        word_end(b, i + 1)
    } else {
        i
    }
}

/// End of the run of digits that starts at `i`.
pub open spec fn digits_end(b: Seq<u8>, i: int) -> int
    decreases b.len() - i,
{
    if 0 <= i < b.len() && is_digit(b[i]) {
        digits_end(b, i + 1)
    } else {
        i
    }
}

/// First index at or after `i` that holds `stop`, or the length of `b`.
pub open spec fn find_byte(b: Seq<u8>, i: int, stop: u8) -> int
    decreases b.len() - i,
{
    if 0 <= i < b.len() && b[i] != stop {
        find_byte(b, i + 1, stop)
    } else {
        i
    }
}

/// The bytes `lo..hi` read one character per byte.
pub open spec fn text(b: Seq<u8>, lo: int, hi: int) -> Seq<char> {
    b.subrange(lo, hi).map_values(|c: u8| c as char)
}

/// Line and column reached after scanning bytes `lo..hi` from `(line, col)`.
pub open spec fn pos_after(b: Seq<u8>, lo: int, hi: int, line: int, col: int) -> (int, int)
    decreases hi - lo,
{
    if hi <= lo {
        (line, col)
    } else {
        let p = pos_after(b, lo, hi - 1, line, col);
        if b[hi - 1] == NEWLINE {
            (p.0 + 1, 1)
        } else {
            (p.0, p.1 + 1)
        }
    }
}

/// Keyword or identifier, by the exact text of a word.
pub open spec fn word_kind(s: Seq<char>) -> KindView {
    if s == "module"@ {
        KindView::Module
    } else if s == "effects"@ {
        KindView::Effects
    } else if s == "actor"@ {
        KindView::Actor
    } else if s == "fn"@ {
        KindView::Fn
    } else {
        KindView::Ident(s)
    }
}

/// The single-byte punctuation tokens.
pub open spec fn punct_kind(c: u8) -> Option<KindView> {
    if c == LPAREN {
        Some(KindView::LParen)
    } else if c == RPAREN {
        Some(KindView::RParen)
    } else if c == LBRACE {
        Some(KindView::LBrace)
    } else if c == RBRACE {
        Some(KindView::RBrace)
    } else if c == COMMA {
        Some(KindView::Comma)
    } else if c == COLON {
        Some(KindView::Colon)
    } else if c == SEMICOLON {
        Some(KindView::Semicolon)
    } else if c == DOT {
        Some(KindView::Dot)
    } else if c == EQUALS {
        Some(KindView::Eq)
    } else {
        None
    }
}

pub open spec fn tok(kind: KindView, line: int, col: int) -> TokenView {
    TokenView { kind, line, col }
}

pub proof fn lemma_word_end_bounds(b: Seq<u8>, i: int)
    requires
        0 <= i <= b.len(),
    ensures
        i <= word_end(b, i) <= b.len(),
        forall|k: int| i <= k < word_end(b, i) ==> is_ident_byte(#[trigger] b[k]),
    decreases b.len() - i,
{
    if i < b.len() && is_ident_byte(b[i]) {
        lemma_word_end_bounds(b, i + 1);
    }
}

pub proof fn lemma_digits_end_bounds(b: Seq<u8>, i: int)
    requires
        0 <= i <= b.len(),
    ensures
        i <= digits_end(b, i) <= b.len(),
        forall|k: int| i <= k < digits_end(b, i) ==> is_digit(#[trigger] b[k]),
    decreases b.len() - i,
{
    if i < b.len() && is_digit(b[i]) {
        lemma_digits_end_bounds(b, i + 1);
    }
}

pub proof fn lemma_find_byte_bounds(b: Seq<u8>, i: int, stop: u8)
    requires
        0 <= i <= b.len(),
    ensures
        i <= find_byte(b, i, stop) <= b.len(),
        forall|k: int| i <= k < find_byte(b, i, stop) ==> #[trigger] b[k] != stop,
        find_byte(b, i, stop) < b.len() ==> b[find_byte(b, i, stop)] == stop,
    decreases b.len() - i,
{
    if i < b.len() && b[i] != stop {
        lemma_find_byte_bounds(b, i + 1, stop);
    }
}

/// The tokens of `b` from index `i`, the scan being at `(line, col)`.
pub open spec fn lex_from(b: Seq<u8>, i: int, line: int, col: int) -> Seq<TokenView>
    decreases b.len() + 1 - i,
{
    if i < 0 || i >= b.len() {
        seq![tok(KindView::Eof, line, col)]
    } else {
        let c = b[i];
        if c == SPACE || c == TAB {
            lex_from(b, i + 1, line, col + 1)
        } else if c == NEWLINE {
            lex_from(b, i + 1, line + 1, 1)
        } else if c == SLASH && i + 1 < b.len() && b[i + 1] == SLASH {
            let e = find_byte(b, i, NEWLINE);
            proof {
                lemma_find_byte_bounds(b, i + 1, NEWLINE);
            }
            lex_from(b, e, line, col + (e - i))
        } else if punct_kind(c) is Some {
            seq![tok(punct_kind(c).unwrap(), line, col)] + lex_from(b, i + 1, line, col + 1)
        } else if c == MINUS && i + 1 < b.len() && b[i + 1] == GREATER {
            seq![tok(KindView::Arrow, line, col)] + lex_from(b, i + 2, line, col + 2)
        } else if c == QUOTE {
            let q = find_byte(b, i + 1, QUOTE);
            let p = pos_after(b, i + 1, q, line, col + 1);
            proof {
                lemma_find_byte_bounds(b, i + 1, QUOTE);
            }
            seq![tok(KindView::Str(decode_utf8(b.subrange(i + 1, q))), line, col)] + lex_from(b, q + 1, p.0, p.1 + 1)
        } else if is_ident_start(c) {
            let e = word_end(b, i);
            proof {
                lemma_word_end_bounds(b, i + 1);
            }
            seq![tok(word_kind(text(b, i, e)), line, col)] + lex_from(b, e, line, col + (e - i))
        } else if is_digit(c) {
            let e = digits_end(b, i);
            proof {
                lemma_digits_end_bounds(b, i + 1);
            }
            seq![tok(KindView::Number(text(b, i, e)), line, col)] + lex_from(b, e, line, col + (e - i))
        } else {
            lex_from(b, i + 1, line, col + 1)
        }
    }
}

/// Every scan yields a non-empty token sequence whose last token, and only that one,
/// is the end-of-stream token.
pub proof fn lemma_lex_ends_with_eof(b: Seq<u8>, i: int, line: int, col: int)
    ensures
        lex_from(b, i, line, col).len() >= 1,
        lex_from(b, i, line, col).last().kind == KindView::Eof,
        forall|k: int|
            0 <= k < lex_from(b, i, line, col).len() - 1 ==> (#[trigger] lex_from(
                b,
                i,
                line,
                col,
            )[k]).kind != KindView::Eof,
    decreases b.len() + 1 - i,
{
    if 0 <= i < b.len() {
        let c = b[i];
        if c == SPACE || c == TAB {
            lemma_lex_ends_with_eof(b, i + 1, line, col + 1);
        } else if c == NEWLINE {
            lemma_lex_ends_with_eof(b, i + 1, line + 1, 1);
        } else if c == SLASH && i + 1 < b.len() && b[i + 1] == SLASH {
            let e = find_byte(b, i, NEWLINE);
            lemma_find_byte_bounds(b, i + 1, NEWLINE);
            lemma_lex_ends_with_eof(b, e, line, col + (e - i));
        } else {
            let (head, next_i, next_line, next_col) = if punct_kind(c) is Some {
                (seq![tok(punct_kind(c).unwrap(), line, col)], i + 1, line, col + 1)
            } else if c == MINUS && i + 1 < b.len() && b[i + 1] == GREATER {
                (seq![tok(KindView::Arrow, line, col)], i + 2, line, col + 2)
            } else if c == QUOTE {
                let q = find_byte(b, i + 1, QUOTE);
                let p = pos_after(b, i + 1, q, line, col + 1);
                lemma_find_byte_bounds(b, i + 1, QUOTE);
                (seq![tok(KindView::Str(decode_utf8(b.subrange(i + 1, q))), line, col)], q + 1, p.0, p.1 + 1)
            } else if is_ident_start(c) {
                let e = word_end(b, i);
                lemma_word_end_bounds(b, i + 1);
                (seq![tok(word_kind(text(b, i, e)), line, col)], e, line, col + (e - i))
            } else if is_digit(c) {
                let e = digits_end(b, i);
                lemma_digits_end_bounds(b, i + 1);
                (seq![tok(KindView::Number(text(b, i, e)), line, col)], e, line, col + (e - i))
            } else {
                (seq![], i + 1, line, col + 1)
            };
            lemma_lex_ends_with_eof(b, next_i, next_line, next_col);
            let rest = lex_from(b, next_i, next_line, next_col);
            assert(lex_from(b, i, line, col) == head + rest);
            assert forall|k: int| 0 <= k < (head + rest).len() - 1 implies (#[trigger] (head
                + rest)[k]).kind != KindView::Eof by {
                if k >= head.len() {
                    assert((head + rest)[k] == rest[k - head.len()]);
                }
            }
        }
    }
}

pub open spec fn kinds(s: Seq<TokenView>) -> Seq<KindView> {
    s.map_values(|x: TokenView| x.kind)
}

proof fn lemma_shift_scans(p: Seq<u8>, r: Seq<u8>, j: int, stop: u8)
    requires
        0 <= j <= r.len(),
    ensures
        word_end(p + r, p.len() + j) == p.len() + word_end(r, j),
        digits_end(p + r, p.len() + j) == p.len() + digits_end(r, j),
        find_byte(p + r, p.len() + j, stop) == p.len() + find_byte(r, j, stop),
    decreases r.len() - j,
{
    if j < r.len() {
        assert((p + r)[p.len() + j] == r[j]);
        lemma_shift_scans(p, r, j + 1, stop);
    }
}

proof fn lemma_shift_pos(p: Seq<u8>, r: Seq<u8>, lo: int, hi: int, line: int, col: int)
    requires
        0 <= lo <= hi <= r.len(),
    ensures
        pos_after(p + r, p.len() + lo, p.len() + hi, line, col) == pos_after(r, lo, hi, line, col),
    decreases hi - lo,
{
    if lo < hi {
        assert((p + r)[p.len() + hi - 1] == r[hi - 1]);
        lemma_shift_pos(p, r, lo, hi - 1, line, col);
    }
}

/// The kinds of the tokens scanned from a point depend only on the bytes from that
/// point on: neither on what precedes them nor on the position the scan starts at.
pub proof fn lemma_kinds_of_suffix(
    p: Seq<u8>,
    r: Seq<u8>,
    j: int,
    l1: int,
    c1: int,
    l2: int,
    c2: int,
)
    requires
        0 <= j <= r.len() + 1,
    ensures
        kinds(lex_from(p + r, p.len() + j, l1, c1)) == kinds(lex_from(r, j, l2, c2)),
    decreases r.len() + 1 - j,
{
    let b = p + r;
    let i = p.len() + j;
    if j < r.len() {
        assert(b[i] == r[j]);
        if j + 1 < r.len() {
            assert(b[i + 1] == r[j + 1]);
        }
        let c = r[j];
        lemma_shift_scans(p, r, j, NEWLINE);
        lemma_shift_scans(p, r, j + 1, QUOTE);
        lemma_shift_scans(p, r, j + 1, NEWLINE);
        if c == SPACE || c == TAB {
            lemma_kinds_of_suffix(p, r, j + 1, l1, c1 + 1, l2, c2 + 1);
        } else if c == NEWLINE {
            lemma_kinds_of_suffix(p, r, j + 1, l1 + 1, 1, l2 + 1, 1);
        } else if c == SLASH && j + 1 < r.len() && r[j + 1] == SLASH {
            let e = find_byte(r, j, NEWLINE);
            lemma_find_byte_bounds(r, j + 1, NEWLINE);
            lemma_kinds_of_suffix(p, r, e, l1, c1 + (e - j), l2, c2 + (e - j));
        } else {
            let (h1, h2, nj, nl1, nc1, nl2, nc2) = if punct_kind(c) is Some {
                (
                    seq![tok(punct_kind(c).unwrap(), l1, c1)],
                    seq![tok(punct_kind(c).unwrap(), l2, c2)],
                    j + 1,
                    l1,
                    c1 + 1,
                    l2,
                    c2 + 1,
                )
            } else if c == MINUS && j + 1 < r.len() && r[j + 1] == GREATER {
                (
                    seq![tok(KindView::Arrow, l1, c1)],
                    seq![tok(KindView::Arrow, l2, c2)],
                    j + 2,
                    l1,
                    c1 + 2,
                    l2,
                    c2 + 2,
                )
            } else if c == QUOTE {
                let q = find_byte(r, j + 1, QUOTE);
                lemma_find_byte_bounds(r, j + 1, QUOTE);
                lemma_shift_pos(p, r, j + 1, q, l1, c1 + 1);
                assert(b.subrange(i + 1, p.len() + q) =~= r.subrange(j + 1, q));
                let p1 = pos_after(r, j + 1, q, l1, c1 + 1);
                let p2 = pos_after(r, j + 1, q, l2, c2 + 1);
                let k = KindView::Str(decode_utf8(r.subrange(j + 1, q)));
                (seq![tok(k, l1, c1)], seq![tok(k, l2, c2)], q + 1, p1.0, p1.1 + 1, p2.0, p2.1 + 1)
            } else if is_ident_start(c) {
                let e = word_end(r, j);
                lemma_word_end_bounds(r, j + 1);
                assert(text(b, i, p.len() + e) =~= text(r, j, e));
                let k = word_kind(text(r, j, e));
                (seq![tok(k, l1, c1)], seq![tok(k, l2, c2)], e, l1, c1 + (e - j), l2, c2 + (e - j))
            } else if is_digit(c) {
                let e = digits_end(r, j);
                lemma_digits_end_bounds(r, j + 1);
                assert(text(b, i, p.len() + e) =~= text(r, j, e));
                let k = KindView::Number(text(r, j, e));
                (seq![tok(k, l1, c1)], seq![tok(k, l2, c2)], e, l1, c1 + (e - j), l2, c2 + (e - j))
            } else {
                (seq![], seq![], j + 1, l1, c1 + 1, l2, c2 + 1)
            };
            lemma_kinds_of_suffix(p, r, nj, nl1, nc1, nl2, nc2);
            assert(lex_from(b, i, l1, c1) == h1 + lex_from(b, p.len() + nj, nl1, nc1));
            assert(lex_from(r, j, l2, c2) == h2 + lex_from(r, nj, nl2, nc2));
            assert(kinds(h1 + lex_from(b, p.len() + nj, nl1, nc1)) =~= kinds(h1) + kinds(
                lex_from(b, p.len() + nj, nl1, nc1),
            ));
            assert(kinds(h2 + lex_from(r, nj, nl2, nc2)) =~= kinds(h2) + kinds(
                lex_from(r, nj, nl2, nc2),
            ));
            assert(kinds(h1) =~= kinds(h2));
        }
    } else {
        assert(kinds(lex_from(b, i, l1, c1)) =~= kinds(lex_from(r, j, l2, c2)));
    }
}

/// The characters of a run of ASCII bytes.
pub open spec fn chars_of(w: Seq<u8>) -> Seq<char> {
    text(w, 0, w.len() as int)
}

/// Bytes that form one word: a letter or underscore, then letters, digits, underscores.
pub open spec fn is_word(w: Seq<u8>) -> bool {
    &&& w.len() > 0
    &&& is_ident_start(w[0])
    &&& forall|k: int| 0 <= k < w.len() ==> is_ident_byte(#[trigger] w[k])
}

proof fn lemma_word_end_exact(b: Seq<u8>, i: int, e: int)
    requires
        0 <= i <= e <= b.len(),
        forall|k: int| i <= k < e ==> is_ident_byte(#[trigger] b[k]),
        e == b.len() || !is_ident_byte(b[e]),
    ensures
        word_end(b, i) == e,
    decreases e - i,
{
    if i < e {
        lemma_word_end_exact(b, i + 1, e);
    }
}

/// A word at `i` that is not followed by another identifier byte is scanned as one
/// token, keyword or identifier, and the scan resumes right after it.
pub proof fn lemma_word_token(b: Seq<u8>, i: int, w: Seq<u8>, line: int, col: int)
    requires
        0 <= i,
        i + w.len() <= b.len(),
        b.subrange(i, i + w.len()) == w,
        is_word(w),
        i + w.len() == b.len() || !is_ident_byte(b[i + w.len()]),
    ensures
        lex_from(b, i, line, col) == seq![tok(word_kind(chars_of(w)), line, col)] + lex_from(
            b,
            i + w.len(),
            line,
            col + w.len(),
        ),
{
    assert forall|k: int| i <= k < i + w.len() implies is_ident_byte(#[trigger] b[k]) by {
        assert(b[k] == w[k - i]);
    }
    lemma_word_end_exact(b, i, i + w.len());
    assert(b[i] == w[0]);
    assert(text(b, i, i + w.len()) =~= chars_of(w));
}

/// Relies on std's `String::push`: the character is appended at the end.
pub assume_specification[ std::string::String::push ](s: &mut std::string::String, ch: char)
    ensures
        final(s)@ == old(s)@.push(ch),
;

proof fn lemma_push_concat<A>(a: Seq<A>, x: A, r: Seq<A>)
    ensures
        a.push(x) + r == a + (seq![x] + r),
{
    assert(a.push(x) + r =~= a + (seq![x] + r));
}

fn ident_start(c: u8) -> (r: bool)
    ensures
        r == is_ident_start(c),
{
    (LOWER_A <= c && c <= LOWER_Z) || (UPPER_A <= c && c <= UPPER_Z) || c == UNDERSCORE
}

fn digit(c: u8) -> (r: bool)
    ensures
        r == is_digit(c),
{
    DIGIT_0 <= c && c <= DIGIT_9
}

fn punct(c: u8) -> (r: Option<TokKind>)
    ensures
        r is Some == punct_kind(c) is Some,
        r is Some ==> punct_kind(c) == Some(r.unwrap()@),
{
    if c == LPAREN {
        Some(TokKind::LParen)
    } else if c == RPAREN {
        Some(TokKind::RParen)
    } else if c == LBRACE {
        Some(TokKind::LBrace)
    } else if c == RBRACE {
        Some(TokKind::RBrace)
    } else if c == COMMA {
        Some(TokKind::Comma)
    } else if c == COLON {
        Some(TokKind::Colon)
    } else if c == SEMICOLON {
        Some(TokKind::Semicolon)
    } else if c == DOT {
        Some(TokKind::Dot)
    } else if c == EQUALS {
        Some(TokKind::Eq)
    } else {
        None
    }
}

fn word_token(s: String) -> (r: TokKind)
    ensures
        r@ == word_kind(s@),
{
    if s == String::from_str("module") {
        TokKind::Module
    } else if s == String::from_str("effects") {
        TokKind::Effects
    } else if s == String::from_str("actor") {
        TokKind::Actor
    } else if s == String::from_str("fn") {
        TokKind::Fn
    } else {
        TokKind::Ident(s)
    }
}

/// Reads the identifier bytes from `start`; returns where the run ends and its text.
fn scan_word(b: &[u8], start: usize) -> (r: (usize, String))
    requires
        start <= b@.len(),
    ensures
        r.0 == word_end(b@, start as int),
        r.1@ == text(b@, start as int, r.0 as int),
{
    let mut i = start;
    let mut s = String::new();
    while i < b.len() && ident_start(b[i]) || i < b.len() && digit(b[i])
        invariant
            start <= i <= b@.len(),
            word_end(b@, start as int) == word_end(b@, i as int),
            s@ == text(b@, start as int, i as int),
        decreases b@.len() - i,
    {
        s.push(b[i] as char);
        i += 1;
        assert(s@ =~= text(b@, start as int, i as int));
    }
    (i, s)
}

/// Reads the digits from `start`; returns where the run ends and its text.
fn scan_digits(b: &[u8], start: usize) -> (r: (usize, String))
    requires
        start <= b@.len(),
    ensures
        r.0 == digits_end(b@, start as int),
        r.1@ == text(b@, start as int, r.0 as int),
{
    let mut i = start;
    let mut s = String::new();
    while i < b.len() && digit(b[i])
        invariant
            start <= i <= b@.len(),
            digits_end(b@, start as int) == digits_end(b@, i as int),
            s@ == text(b@, start as int, i as int),
        decreases b@.len() - i,
    {
        s.push(b[i] as char);
        i += 1;
        assert(s@ =~= text(b@, start as int, i as int));
    }
    (i, s)
}

/// Finds the end of a string body from `start` (the closing quote or the end of input),
/// tracking the position; returns the end and the line and column reached.
fn scan_quoted(b: &[u8], start: usize, line: usize, col: usize) -> (r: (usize, usize, usize))
    requires
        start <= b@.len(),
        b@.len() + 2 <= usize::MAX,
        1 <= line <= start + 1,
        1 <= col <= start + 1,
    ensures
        r.0 == find_byte(b@, start as int, QUOTE),
        (r.1 as int, r.2 as int) == pos_after(b@, start as int, r.0 as int, line as int, col as int),
        1 <= r.1 <= r.0 + 1,
        1 <= r.2 <= r.0 + 1,
{
    let mut i = start;
    let mut l = line;
    let mut c = col;
    while i < b.len() && b[i] != QUOTE
        invariant
            start <= i <= b@.len(),
            b@.len() + 2 <= usize::MAX,
            find_byte(b@, start as int, QUOTE) == find_byte(b@, i as int, QUOTE),
            (l as int, c as int) == pos_after(b@, start as int, i as int, line as int, col as int),
            1 <= l <= i + 1,
            1 <= c <= i + 1,
        decreases b@.len() - i,
    {
        if b[i] == NEWLINE {
            l += 1;
            c = 1;
        } else {
            c += 1;
        }
        i += 1;
    }
    (i, l, c)
}

/// A single-byte character that is not a continuation byte splits valid UTF-8 on
/// both of its sides.
proof fn lemma_ascii_boundaries(b: Seq<u8>, k: int)
    requires
        valid_utf8(b),
        0 <= k < b.len(),
        b[k] < 0x80,
    ensures
        is_char_boundary(b, k),
        is_char_boundary(b.subrange(k, b.len() as int), 1),
{
    is_char_boundary_iff_not_is_continuation_byte(b, k);
    let tail = b.subrange(k, b.len() as int);
    vstd::utf8::valid_utf8_split(b, k);
    reveal_with_fuel(is_char_boundary, 2);
    assert(is_char_boundary(vstd::utf8::pop_first_scalar(tail), 0));
}

/// The text of the string literal whose body is the bytes `lo..hi` of `src`, where
/// `lo - 1` holds the opening quote and `hi` the closing quote or the end.
fn quoted_text(src: &str, lo: usize, hi: usize) -> (r: String)
    requires
        1 <= lo <= hi <= src.spec_bytes().len(),
        src.spec_bytes()[lo - 1] == QUOTE,
        hi < src.spec_bytes().len() ==> src.spec_bytes()[hi as int] == QUOTE,
    ensures
        r@ == decode_utf8(src.spec_bytes().subrange(lo as int, hi as int)),
{
    let ghost b = src.spec_bytes();
    proof {
        encode_utf8_valid_utf8(src@);
        lemma_ascii_boundaries(b, lo - 1);
    }
    let (_, tail) = src.split_at(lo - 1);
    proof {
        encode_utf8_valid_utf8(tail@);
        assert(tail.spec_bytes() =~= b.subrange(lo - 1, b.len() as int));
    }
    let (_, rest) = tail.split_at(1);
    let ghost rb = rest.spec_bytes();
    proof {
        encode_utf8_valid_utf8(rest@);
        assert(rb =~= b.subrange(lo as int, b.len() as int));
        if hi < b.len() {
            assert(rb[hi - lo] == b[hi as int]);
            is_char_boundary_iff_not_is_continuation_byte(rb, hi - lo);
        } else {
            is_char_boundary_start_end_of_seq(rb);
        }
    }
    let (body, _) = rest.split_at(hi - lo);
    proof {
        assert(body.spec_bytes() =~= b.subrange(lo as int, hi as int));
        encode_utf8_decode_utf8(body@);
    }
    String::from_str(body)
}

/// Splits source text into tokens, ending with one end-of-stream token.
///
/// Identifiers and numbers are ASCII; a string literal's text is its body as written,
/// its UTF-8 characters kept. Columns count bytes.
///
/// The scan is deliberately lenient: a byte that starts no token is skipped, and a
/// string literal left open runs to the end of the input. Neither is reported.
pub fn lex(src: &str) -> (r: Vec<Token>)
    requires
        src.spec_bytes().len() + 2 <= usize::MAX,
    ensures
        tokens_view(r@) == lex_from(src.spec_bytes(), 0, 1, 1),
        r@.len() >= 1,
        r@.last().kind is Eof,
        forall|k: int| 0 <= k < r@.len() - 1 ==> !(#[trigger] r@[k].kind is Eof),
{
    let b = src.as_bytes();
    let n = b.len();
    let mut t: Vec<Token> = Vec::new();
    let mut i: usize = 0;
    let mut line: usize = 1;
    let mut col: usize = 1;
    assert(tokens_view(t@) =~= Seq::<TokenView>::empty());
    while i < n
        invariant
            b@ == src.spec_bytes(),
            n == b@.len(),
            n + 2 <= usize::MAX,
            i <= n + 1,
            1 <= line <= i + 1,
            1 <= col <= i + 1,
            tokens_view(t@) + lex_from(b@, i as int, line as int, col as int) == lex_from(
                b@,
                0,
                1,
                1,
            ),
        decreases n + 1 - i,
    {
        let c = b[i];
        let ghost gi = i as int;
        let ghost gl = line as int;
        let ghost gc = col as int;
        let ghost before = tokens_view(t@);
        if c == SPACE || c == TAB {
            i += 1;
            col += 1;
        } else if c == NEWLINE {
            i += 1;
            line += 1;
            col = 1;
        } else if c == SLASH && i + 1 < n && b[i + 1] == SLASH {
            proof {
                lemma_find_byte_bounds(b@, gi + 1, NEWLINE);
            }
            while i < n && b[i] != NEWLINE
                invariant
                    0 <= gi < n,
                    gi <= i <= n,
                    n == b@.len(),
                    n + 2 <= usize::MAX,
                    b@[gi] == SLASH,
                    find_byte(b@, gi, NEWLINE) == find_byte(b@, i as int, NEWLINE),
                    col == gc + (i - gi),
                    gc <= gi + 1,
                decreases n - i,
            {
                i += 1;
                col += 1;
            }
        } else if let Some(k) = punct(c) {
            t.push(Token { kind: k, line, col });
            proof {
                assert(tokens_view(t@) =~= before.push(tok(k@, gl, gc)));
                lemma_push_concat(before, tok(k@, gl, gc), lex_from(b@, gi + 1, gl, gc + 1));
            }
            i += 1;
            col += 1;
        } else if c == MINUS && i + 1 < n && b[i + 1] == GREATER {
            t.push(Token { kind: TokKind::Arrow, line, col });
            proof {
                assert(tokens_view(t@) =~= before.push(tok(KindView::Arrow, gl, gc)));
                lemma_push_concat(before, tok(KindView::Arrow, gl, gc), lex_from(b@, gi + 2, gl, gc + 2));
            }
            i += 2;
            col += 2;
        } else if c == QUOTE {
            let (e, l2, c2) = scan_quoted(b, i + 1, line, col + 1);
            proof {
                lemma_find_byte_bounds(b@, gi + 1, QUOTE);
            }
            let s = quoted_text(src, i + 1, e);
            let ghost tv = tok(KindView::Str(s@), gl, gc);
            t.push(Token { kind: TokKind::String(s), line, col });
            proof {
                lemma_find_byte_bounds(b@, gi + 1, QUOTE);
                assert(tokens_view(t@) =~= before.push(tv));
                lemma_push_concat(before, tv, lex_from(b@, e + 1, l2 as int, c2 + 1));
            }
            i = e + 1;
            line = l2;
            col = c2 + 1;
        } else if ident_start(c) {
            let (e, s) = scan_word(b, i);
            proof {
                lemma_word_end_bounds(b@, gi + 1);
            }
            let kind = word_token(s);
            let ghost tv = tok(kind@, gl, gc);
            t.push(Token { kind, line, col });
            proof {
                assert(tokens_view(t@) =~= before.push(tv));
                lemma_push_concat(before, tv, lex_from(b@, e as int, gl, gc + (e - gi)));
            }
            col += e - i;
            i = e;
        } else if digit(c) {
            let (e, s) = scan_digits(b, i);
            proof {
                lemma_digits_end_bounds(b@, gi + 1);
            }
            let ghost tv = tok(KindView::Number(s@), gl, gc);
            t.push(Token { kind: TokKind::Number(s), line, col });
            proof {
                assert(tokens_view(t@) =~= before.push(tv));
                lemma_push_concat(before, tv, lex_from(b@, e as int, gl, gc + (e - gi)));
            }
            col += e - i;
            i = e;
        } else {
            i += 1;
            col += 1;
        }
    }
    let ghost before = tokens_view(t@);
    t.push(Token { kind: TokKind::Eof, line, col });
    assert(tokens_view(t@) =~= before + lex_from(b@, i as int, line as int, col as int));
    proof {
        lemma_lex_ends_with_eof(b@, 0, 1, 1);
        assert forall|k: int| 0 <= k < t@.len() implies (#[trigger] t@[k]).kind@ == tokens_view(
            t@,
        )[k].kind by {}
    }
    t
}

} // verus!

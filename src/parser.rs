use vstd::prelude::*;
use crate::ast::{Item, ItemView, Module, ModuleView, items_view};
use crate::effects::{Effect, effect_of};
use crate::lexer::{
    COMMA, DOT, KindView, LBRACE, NEWLINE, SPACE, TokKind, Token, TokenView, chars_of, is_ident_byte, is_word, kinds,
    lemma_kinds_of_suffix, lemma_lex_ends_with_eof, lemma_word_token, lex_from, tok, tokens_view,
    word_kind,
};

verus! {

/// A syntax error: what was expected or found wrong, and the 1-based position of the
/// offending token, or line 0 and column 0 when the tokens ran out.
#[derive(Debug)]
pub struct ParseError {
    pub msg: String,
    pub line: usize,
    pub col: usize,
}

pub struct ErrorView {
    pub msg: Seq<char>,
    pub line: int,
    pub col: int,
}

impl View for ParseError {
    type V = ErrorView;

    open spec fn view(&self) -> ErrorView {
        ErrorView { msg: self.msg@, line: self.line as int, col: self.col as int }
    }
}

/// The character of a decimal digit.
pub open spec fn digit_char(d: nat) -> char {
    ((48 + d) as u8) as char
}

/// The decimal numeral of `n`, most significant digit first, without leading zeros.
pub open spec fn decimal(n: nat) -> Seq<char>
    decreases n,
{
    if n < 10 {
        seq![digit_char(n)]
    } else {
        decimal(n / 10).push(digit_char(n % 10))
    }
}

fn decimal_string(n: usize) -> (r: String)
    ensures
        r@ == decimal(n as nat),
    decreases n,
{
    let d = (n % 10) as u8;
    let c = (48 + d) as char;
    if n < 10 {
        let mut s = String::new();
        s.push(c);
        s
    } else {
        let mut s = decimal_string(n / 10);
        s.push(c);
        s
    }
}

impl ParseError {
    /// The error as text: `<message> at <line>:<column>`.
    pub fn message(&self) -> (r: String)
        ensures
            r@ == self.msg@ + " at "@ + decimal(self.line as nat) + ":"@ + decimal(
                self.col as nat,
            ),
    {
        let mut s = self.msg.clone();
        s.append(" at ");
        let line = decimal_string(self.line);
        s.append(line.as_str());
        s.append(":");
        let col = decimal_string(self.col);
        s.append(col.as_str());
        s
    }
}

pub open spec fn kind_is(t: Seq<TokenView>, i: int, k: KindView) -> bool {
    0 <= i < t.len() && t[i].kind == k
}

pub open spec fn ident_at(t: Seq<TokenView>, i: int) -> bool {
    0 <= i < t.len() && t[i].kind is Ident
}

pub open spec fn ident_text(t: Seq<TokenView>, i: int) -> Seq<char> {
    t[i].kind->Ident_0
}

/// An error placed at token `i`, or at 0:0 when there is no such token.
pub open spec fn error_at(t: Seq<TokenView>, i: int, msg: Seq<char>) -> ErrorView {
    if 0 <= i < t.len() {
        ErrorView { msg, line: t[i].line, col: t[i].col }
    } else {
        ErrorView { msg, line: 0, col: 0 }
    }
}

pub open spec fn expected_msg(what: Seq<char>) -> Seq<char> {
    "expected "@ + what
}

pub open spec fn unknown_effect_msg(name: Seq<char>) -> Seq<char> {
    "unknown effect '"@ + name + "'"@
}

pub open spec fn unterminated_msg() -> Seq<char> {
    "unterminated block"@
}

/// The rest of a dotted module name from token `i`: the name and the index after it.
pub open spec fn name_rest(t: Seq<TokenView>, i: int, name: Seq<char>) -> Result<
    (Seq<char>, int),
    ErrorView,
>
    decreases t.len() - i,
{
    if 0 <= i && kind_is(t, i, KindView::Dot) {
        if ident_at(t, i + 1) {
            name_rest(t, i + 2, name.push('.') + ident_text(t, i + 1))
        } else {
            Err(error_at(t, i + 1, expected_msg("ident after dot"@)))
        }
    } else {
        Ok((name, i))
    }
}

/// The comma-separated effect list from token `i`, appended to `es`, and the index after it.
pub open spec fn effects_rest(t: Seq<TokenView>, i: int, es: Seq<Effect>) -> Result<
    (Seq<Effect>, int),
    ErrorView,
>
    decreases t.len() - i,
{
    if !ident_at(t, i) {
        Err(error_at(t, i, expected_msg("effect ident"@)))
    } else {
        match effect_of(ident_text(t, i)) {
            None => Err(error_at(t, i, unknown_effect_msg(ident_text(t, i)))),
            Some(e) => if kind_is(t, i + 1, KindView::Comma) {
                effects_rest(t, i + 2, es.push(e))
            } else {
                Ok((es.push(e), i + 1))
            },
        }
    }
}

/// First index at or after `i` that holds `{` or the end-of-stream token, or the length.
pub open spec fn brace_seek(t: Seq<TokenView>, i: int) -> int
    decreases t.len() - i,
{
    if 0 <= i < t.len() && t[i].kind != KindView::LBrace && t[i].kind != KindView::Eof {
        brace_seek(t, i + 1)
    } else {
        i
    }
}

/// Scans a block from token `i` at brace depth `depth`: the index after the brace
/// that brings the depth back to zero.
pub open spec fn block_end(t: Seq<TokenView>, i: int, depth: int) -> Result<int, ErrorView>
    decreases t.len() - i,
{
    if i < 0 || i >= t.len() {
        Err(ErrorView { msg: unterminated_msg(), line: 0, col: 0 })
    } else {
        match t[i].kind {
            KindView::LBrace => block_end(t, i + 1, depth + 1),
            KindView::RBrace => if depth - 1 == 0 {
                Ok(i + 1)
            } else {
                block_end(t, i + 1, depth - 1)
            },
            KindView::Eof => Err(error_at(t, i, unterminated_msg())),
            _ => block_end(t, i + 1, depth),
        }
    }
}

/// Where a block scan from token `i` at depth `depth` stops: after the brace that
/// closes the block, at the end-of-stream token, or at the length.
pub open spec fn block_stop(t: Seq<TokenView>, i: int, depth: int) -> int
    decreases t.len() - i,
{
    if i < 0 || i >= t.len() {
        i
    } else {
        match t[i].kind {
            KindView::LBrace => block_stop(t, i + 1, depth + 1),
            KindView::RBrace => if depth - 1 == 0 {
                i + 1
            } else {
                block_stop(t, i + 1, depth - 1)
            },
            KindView::Eof => i,
            _ => block_stop(t, i + 1, depth),
        }
    }
}

/// Skips to the next `{` from token `i` and over the balanced block it opens.
pub open spec fn block_close(t: Seq<TokenView>, i: int) -> Result<int, ErrorView> {
    block_end(t, brace_seek(t, i), 0)
}

pub proof fn lemma_brace_seek(t: Seq<TokenView>, i: int)
    requires
        0 <= i,
    ensures
        i <= brace_seek(t, i),
        brace_seek(t, i) <= t.len() || brace_seek(t, i) == i,
        brace_seek(t, i) < t.len() ==> (t[brace_seek(t, i)].kind == KindView::LBrace
            || t[brace_seek(t, i)].kind == KindView::Eof),
        forall|k: int|
            i <= k < brace_seek(t, i) ==> (#[trigger] t[k]).kind != KindView::LBrace && t[k].kind
                != KindView::Eof,
    decreases t.len() - i,
{
    if 0 <= i < t.len() && t[i].kind != KindView::LBrace && t[i].kind != KindView::Eof {
        lemma_brace_seek(t, i + 1);
    }
}

pub proof fn lemma_block_end_after(t: Seq<TokenView>, i: int, depth: int)
    ensures
        block_end(t, i, depth) is Ok ==> i < block_end(t, i, depth)->Ok_0 <= t.len(),
    decreases t.len() - i,
{
    if 0 <= i < t.len() {
        lemma_block_end_after(t, i + 1, depth + 1);
        lemma_block_end_after(t, i + 1, depth - 1);
        lemma_block_end_after(t, i + 1, depth);
    }
}

/// The items from token `i` onward, appended to `items`.
pub open spec fn parse_items(t: Seq<TokenView>, i: int, items: Seq<ItemView>) -> Result<
    Seq<ItemView>,
    ErrorView,
>
    decreases t.len() - i,
{
    if i < 0 || i >= t.len() || t[i].kind == KindView::Eof {
        Ok(items)
    } else if t[i].kind == KindView::Actor {
        if !ident_at(t, i + 1) {
            Err(error_at(t, i + 1, expected_msg("actor name"@)))
        } else {
            proof {
                lemma_brace_seek(t, i + 2);
                lemma_block_end_after(t, brace_seek(t, i + 2), 0);
            }
            match block_close(t, i + 2) {
                Err(e) => Err(e),
                Ok(k) => parse_items(t, k, items.push(ItemView::Actor(ident_text(t, i + 1)))),
            }
        }
    } else if t[i].kind == KindView::Fn {
        if !ident_at(t, i + 1) {
            Err(error_at(t, i + 1, expected_msg("fn name"@)))
        } else {
            let j = brace_seek(t, i + 2);
            proof {
                lemma_brace_seek(t, i + 2);
                lemma_block_end_after(t, j, 0);
            }
            if kind_is(t, j, KindView::LBrace) {
                match block_end(t, j, 0) {
                    Err(e) => Err(e),
                    Ok(k) => parse_items(t, k, items.push(ItemView::Func(ident_text(t, i + 1)))),
                }
            } else {
                parse_items(t, j, items.push(ItemView::Func(ident_text(t, i + 1))))
            }
        }
    } else {
        parse_items(t, i + 1, items)
    }
}

/// The optional effects clause at token `i`: the effects and the index after the clause.
pub open spec fn effects_clause(t: Seq<TokenView>, i: int) -> Result<(Seq<Effect>, int), ErrorView> {
    if kind_is(t, i, KindView::Effects) {
        effects_rest(t, i + 1, Seq::empty())
    } else {
        Ok((Seq::empty(), i))
    }
}

/// The module that a token sequence describes, or the first syntax error in it.
pub open spec fn parse_tokens(t: Seq<TokenView>) -> Result<ModuleView, ErrorView> {
    if !kind_is(t, 0, KindView::Module) {
        Err(error_at(t, 0, expected_msg("module"@)))
    } else if !ident_at(t, 1) {
        Err(error_at(t, 1, expected_msg("module ident"@)))
    } else {
        match name_rest(t, 2, ident_text(t, 1)) {
            Err(e) => Err(e),
            Ok((name, i)) => match effects_clause(t, i) {
                Err(e) => Err(e),
                Ok((effects, j)) => match parse_items(t, j, Seq::empty()) {
                    Err(e) => Err(e),
                    Ok(items) => Ok(ModuleView { name, effects, items }),
                },
            },
        }
    }
}

/// A dotted name: when the tokens begin `module A . B . C` and no further dot follows,
/// the header yields the name `A.B.C` whatever comes after it, and so does any
/// successful parse.
pub proof fn lemma_dotted_name(t: Seq<TokenView>, a: Seq<char>, b: Seq<char>, c: Seq<char>)
    requires
        t.len() >= 6,
        t[0].kind == KindView::Module,
        t[1].kind == KindView::Ident(a),
        t[2].kind == KindView::Dot,
        t[3].kind == KindView::Ident(b),
        t[4].kind == KindView::Dot,
        t[5].kind == KindView::Ident(c),
        !kind_is(t, 6, KindView::Dot),
    ensures
        name_rest(t, 2, a) == Ok::<(Seq<char>, int), ErrorView>((a + seq!['.'] + b + seq!['.'] + c, 6)),
        parse_tokens(t) is Ok ==> parse_tokens(t)->Ok_0.name == a + seq!['.'] + b + seq!['.'] + c,
{
    let ab = a.push('.') + b;
    let abc = ab.push('.') + c;
    assert(name_rest(t, 6, abc) == Ok::<(Seq<char>, int), ErrorView>((abc, 6)));
    assert(name_rest(t, 4, ab) == name_rest(t, 6, abc));
    assert(name_rest(t, 2, a) == name_rest(t, 4, ab));
    assert(ab =~= a + seq!['.'] + b);
    assert(abc =~= a + seq!['.'] + b + seq!['.'] + c);
}

/// The bytes of the keyword `module`.
pub open spec fn module_word() -> Seq<u8> {
    seq![109u8, 111u8, 100u8, 117u8, 108u8, 101u8]
}

/// Source text that begins `module A.B.C`, where `A`, `B`, `C` are identifiers and
/// what follows neither extends `C` nor starts with a dot token, parses (if at all)
/// to a module named `A.B.C`, whatever comes after.
pub proof fn lemma_source_dotted_name(
    b: Seq<u8>,
    a: Seq<u8>,
    x: Seq<u8>,
    y: Seq<u8>,
    rest: Seq<u8>,
)
    requires
        b == module_word() + seq![SPACE] + a + seq![DOT] + x + seq![DOT] + y + rest,
        is_word(a) && word_kind(chars_of(a)) is Ident,
        is_word(x) && word_kind(chars_of(x)) is Ident,
        is_word(y) && word_kind(chars_of(y)) is Ident,
        rest.len() == 0 || !is_ident_byte(rest[0]),
        kinds(lex_from(rest, 0, 1, 1))[0] != KindView::Dot,
    ensures
        parse_tokens(lex_from(b, 0, 1, 1)) is Ok ==> parse_tokens(lex_from(b, 0, 1, 1))->Ok_0.name
            == chars_of(a) + seq!['.'] + chars_of(x) + seq!['.'] + chars_of(y),
{
    let m = module_word();
    let ia = 7int;
    let d1 = ia + a.len();
    let ix = d1 + 1;
    let d2 = ix + x.len();
    let iy = d2 + 1;
    let k = iy + y.len();
    assert(b.subrange(0, 6) =~= m);
    assert(b.subrange(ia, d1) =~= a);
    assert(b.subrange(ix, d2) =~= x);
    assert(b.subrange(iy, k) =~= y);
    assert(b.subrange(k, b.len() as int) =~= rest);
    assert(b[6] == SPACE);
    assert(b[d1] == DOT);
    assert(b[d2] == DOT);
    if k < b.len() {
        assert(b[k] == rest[0]);
    }
    reveal_strlit("module");
    assert(chars_of(m) =~= "module"@);
    lemma_word_token(b, 0, m, 1, 1);
    lemma_word_token(b, ia, a, 1, ia + 1);
    lemma_word_token(b, ix, x, 1, ix + 1);
    lemma_word_token(b, iy, y, 1, iy + 1);
    let tail = lex_from(b, k, 1, k + 1);
    let s5 = seq![tok(KindView::Ident(chars_of(y)), 1, iy + 1)] + tail;
    let s4 = seq![tok(KindView::Dot, 1, d2 + 1)] + s5;
    let s3 = seq![tok(KindView::Ident(chars_of(x)), 1, ix + 1)] + s4;
    let s2 = seq![tok(KindView::Dot, 1, d1 + 1)] + s3;
    let s1 = seq![tok(KindView::Ident(chars_of(a)), 1, ia + 1)] + s2;
    let t = seq![tok(KindView::Module, 1, 1)] + s1;
    assert(lex_from(b, iy, 1, iy + 1) == s5);
    assert(lex_from(b, d2, 1, d2 + 1) == s4);
    assert(lex_from(b, ix, 1, ix + 1) == s3);
    assert(lex_from(b, d1, 1, d1 + 1) == s2);
    assert(lex_from(b, ia, 1, ia + 1) == s1);
    assert(lex_from(b, 6, 1, 7) == s1);
    assert(lex_from(b, 0, 1, 1) == t);
    let p = b.subrange(0, k);
    assert(p + rest =~= b);
    lemma_kinds_of_suffix(p, rest, 0, 1, k + 1, 1, 1);
    lemma_lex_ends_with_eof(rest, 0, 1, 1);
    lemma_lex_ends_with_eof(b, k, 1, k + 1);
    assert(kinds(tail)[0] == tail[0].kind);
    assert(kinds(lex_from(rest, 0, 1, 1)).len() >= 1);
    assert(t[6] == tail[0]);
    lemma_dotted_name(t, chars_of(a), chars_of(x), chars_of(y));
}

/// Declared effects are kept in order and with repeats: `effects X, Y, Z` after a
/// one-segment module name yields exactly the three resolved effects.
pub proof fn lemma_effects_in_order(
    t: Seq<TokenView>,
    n: Seq<char>,
    x: Seq<char>,
    y: Seq<char>,
    z: Seq<char>,
)
    requires
        t.len() >= 8,
        t[0].kind == KindView::Module,
        t[1].kind == KindView::Ident(n),
        t[2].kind == KindView::Effects,
        t[3].kind == KindView::Ident(x),
        t[4].kind == KindView::Comma,
        t[5].kind == KindView::Ident(y),
        t[6].kind == KindView::Comma,
        t[7].kind == KindView::Ident(z),
        !kind_is(t, 8, KindView::Comma),
        effect_of(x) is Some,
        effect_of(y) is Some,
        effect_of(z) is Some,
    ensures
        effects_clause(t, 2) == Ok::<(Seq<Effect>, int), ErrorView>(
            (seq![effect_of(x).unwrap(), effect_of(y).unwrap(), effect_of(z).unwrap()], 8),
        ),
        parse_tokens(t) is Ok ==> parse_tokens(t)->Ok_0.effects == seq![
            effect_of(x).unwrap(),
            effect_of(y).unwrap(),
            effect_of(z).unwrap(),
        ],
{
    let ex = effect_of(x).unwrap();
    let ey = effect_of(y).unwrap();
    let ez = effect_of(z).unwrap();
    let e1 = Seq::<Effect>::empty().push(ex);
    let e2 = e1.push(ey);
    let e3 = e2.push(ez);
    assert(effects_rest(t, 7, e2) == Ok::<(Seq<Effect>, int), ErrorView>((e3, 8)));
    assert(effects_rest(t, 5, e1) == effects_rest(t, 7, e2));
    assert(effects_rest(t, 3, Seq::empty()) == effects_rest(t, 5, e1));
    assert(e3 =~= seq![ex, ey, ez]);
    assert(name_rest(t, 2, n) == Ok::<(Seq<char>, int), ErrorView>((n, 2)));
}

/// The bytes of the keyword `effects`.
pub open spec fn effects_word() -> Seq<u8> {
    seq![101u8, 102u8, 102u8, 101u8, 99u8, 116u8, 115u8]
}

/// No effect name is a keyword.
proof fn lemma_effect_names_are_identifiers(s: Seq<char>)
    requires
        effect_of(s) is Some,
    ensures
        word_kind(s) == KindView::Ident(s),
{
    reveal_strlit("module");
    reveal_strlit("effects");
    reveal_strlit("actor");
    reveal_strlit("fn");
    reveal_strlit("Db");
    reveal_strlit("Net");
    reveal_strlit("Now");
    reveal_strlit("Kms");
    reveal_strlit("Serial");
    assert(s.len() > 0 && (s[0] == 'D' || s[0] == 'N' || s[0] == 'K' || s[0] == 'S'));
    assert(s != "module"@ && s != "effects"@ && s != "actor"@ && s != "fn"@) by {
        assert("module"@[0] == 'm' && "effects"@[0] == 'e' && "actor"@[0] == 'a' && "fn"@[0]
            == 'f');
    }
}

/// Source text `module M` then, on the next line, `effects X, Y, Z` with three names
/// of the vocabulary, parses to the module `M` with exactly those effects in that order
/// (a repeated name gives a repeated entry) and no items.
#[verifier::rlimit(60)]
pub proof fn lemma_source_effects(b: Seq<u8>, m: Seq<u8>, x: Seq<u8>, y: Seq<u8>, z: Seq<u8>)
    requires
        b == module_word() + seq![SPACE] + m + seq![NEWLINE] + effects_word() + seq![SPACE] + x
            + seq![COMMA, SPACE] + y + seq![COMMA, SPACE] + z,
        is_word(m) && word_kind(chars_of(m)) is Ident,
        is_word(x) && effect_of(chars_of(x)) is Some,
        is_word(y) && effect_of(chars_of(y)) is Some,
        is_word(z) && effect_of(chars_of(z)) is Some,
    ensures
        parse_tokens(lex_from(b, 0, 1, 1)) == Ok::<ModuleView, ErrorView>(
            ModuleView {
                name: chars_of(m),
                effects: seq![
                    effect_of(chars_of(x)).unwrap(),
                    effect_of(chars_of(y)).unwrap(),
                    effect_of(chars_of(z)).unwrap(),
                ],
                items: Seq::empty(),
            },
        ),
{
    reveal_strlit("module");
    reveal_strlit("effects");
    reveal_strlit("actor");
    reveal_strlit("fn");
    reveal_strlit("Db");
    reveal_strlit("Net");
    reveal_strlit("Now");
    reveal_strlit("Kms");
    reveal_strlit("Serial");
    let d1 = 7 + m.len() as int;
    let ia = d1 + 1;
    let ix = ia + 8;
    let ex = ix + x.len() as int;
    let iy = ex + 2;
    let ey = iy + y.len() as int;
    let iz = ey + 2;
    let k = iz + z.len() as int;
    assert(b.subrange(0, 6) =~= module_word());
    assert(b.subrange(7, d1) =~= m);
    assert(b.subrange(ia, ia + 7) =~= effects_word());
    assert(b.subrange(ix, ex) =~= x);
    assert(b.subrange(iy, ey) =~= y);
    assert(b.subrange(iz, k) =~= z);
    assert(b.len() == k);
    assert(b[6] == SPACE);
    assert(b[d1] == NEWLINE);
    assert(b[ia + 7] == SPACE);
    assert(b[ex] == COMMA && b[ex + 1] == SPACE);
    assert(b[ey] == COMMA && b[ey + 1] == SPACE);
    assert(chars_of(module_word()) =~= "module"@);
    assert(chars_of(effects_word()) =~= "effects"@);
    lemma_effect_names_are_identifiers(chars_of(x));
    lemma_effect_names_are_identifiers(chars_of(y));
    lemma_effect_names_are_identifiers(chars_of(z));
    lemma_word_token(b, 0, module_word(), 1, 1);
    lemma_word_token(b, 7, m, 1, 8);
    lemma_word_token(b, ia, effects_word(), 2, 1);
    lemma_word_token(b, ix, x, 2, ix - d1);
    lemma_word_token(b, iy, y, 2, iy - d1);
    lemma_word_token(b, iz, z, 2, iz - d1);
    let s8 = seq![tok(KindView::Eof, 2, k - d1)];
    let s7 = seq![tok(KindView::Ident(chars_of(z)), 2, iz - d1)] + s8;
    let s6 = seq![tok(KindView::Comma, 2, ey - d1)] + s7;
    let s5 = seq![tok(KindView::Ident(chars_of(y)), 2, iy - d1)] + s6;
    let s4 = seq![tok(KindView::Comma, 2, ex - d1)] + s5;
    let s3 = seq![tok(KindView::Ident(chars_of(x)), 2, ix - d1)] + s4;
    let s2 = seq![tok(KindView::Effects, 2, 1)] + s3;
    let s1 = seq![tok(KindView::Ident(chars_of(m)), 1, 8)] + s2;
    let t = seq![tok(KindView::Module, 1, 1)] + s1;
    assert(lex_from(b, k, 2, k - d1) == s8);
    assert(lex_from(b, iz, 2, iz - d1) == s7);
    assert(lex_from(b, ey + 1, 2, ey + 1 - d1) == s7);
    assert(lex_from(b, ey, 2, ey - d1) == s6);
    assert(lex_from(b, iy, 2, iy - d1) == s5);
    assert(lex_from(b, ex + 1, 2, ex + 1 - d1) == s5);
    assert(lex_from(b, ex, 2, ex - d1) == s4);
    assert(lex_from(b, ix, 2, ix - d1) == s3);
    assert(lex_from(b, ia + 7, 2, 8) == s3);
    assert(lex_from(b, ia, 2, 1) == s2);
    assert(lex_from(b, d1, 1, d1 + 1) == s2);
    assert(lex_from(b, 7, 1, 8) == s1);
    assert(lex_from(b, 6, 1, 7) == s1);
    assert(lex_from(b, 0, 1, 1) == t);
    assert(t.len() == 9);
    lemma_effects_in_order(t, chars_of(m), chars_of(x), chars_of(y), chars_of(z));
    assert(name_rest(t, 2, chars_of(m)) == Ok::<(Seq<char>, int), ErrorView>((chars_of(m), 2)));
    assert(parse_items(t, 8, Seq::empty()) == Ok::<Seq<ItemView>, ErrorView>(Seq::empty()));
}

/// An effect name outside the vocabulary stops the parse with an error placed at
/// that name's token.
pub proof fn lemma_unknown_effect(t: Seq<TokenView>, n: Seq<char>, bogus: Seq<char>)
    requires
        t.len() >= 4,
        t[0].kind == KindView::Module,
        t[1].kind == KindView::Ident(n),
        t[2].kind == KindView::Effects,
        t[3].kind == KindView::Ident(bogus),
        effect_of(bogus) is None,
    ensures
        parse_tokens(t) == Err::<ModuleView, ErrorView>(
            ErrorView { msg: unknown_effect_msg(bogus), line: t[3].line, col: t[3].col },
        ),
{
    assert(name_rest(t, 2, n) == Ok::<(Seq<char>, int), ErrorView>((n, 2)));
}

pub open spec fn brace_delta(k: KindView) -> int {
    if k == KindView::LBrace {
        1
    } else if k == KindView::RBrace {
        -1
    } else {
        0
    }
}

/// Tokens without an end-of-stream token that, entered at depth `d`, never go below
/// depth zero and end at depth zero.
pub open spec fn balanced_from(c: Seq<TokenView>, d: int) -> bool
    decreases c.len(),
{
    if c.len() == 0 {
        d == 0
    } else {
        &&& c[0].kind != KindView::Eof
        &&& d + brace_delta(c[0].kind) >= 0
        &&& balanced_from(c.drop_first(), d + brace_delta(c[0].kind))
    }
}

/// Tokens without an end-of-stream token that, entered at depth `d`, never come
/// back down to depth zero.
pub open spec fn stays_open(c: Seq<TokenView>, d: int) -> bool
    decreases c.len(),
{
    c.len() == 0 || {
        &&& c[0].kind != KindView::Eof
        &&& d + brace_delta(c[0].kind) >= 1
        &&& stays_open(c.drop_first(), d + brace_delta(c[0].kind))
    }
}

proof fn lemma_block_end_balanced(t: Seq<TokenView>, j: int, c: Seq<TokenView>, d: int)
    requires
        0 <= j,
        j + c.len() < t.len(),
        t.subrange(j, j + c.len()) == c,
        t[j + c.len()].kind == KindView::RBrace,
        d >= 0,
        balanced_from(c, d),
    ensures
        block_end(t, j, d + 1) == Ok::<int, ErrorView>(j + c.len() + 1),
    decreases c.len(),
{
    if c.len() > 0 {
        assert(t[j] == c[0]);
        assert(t.subrange(j + 1, j + c.len()) =~= c.drop_first());
        lemma_block_end_balanced(t, j + 1, c.drop_first(), d + brace_delta(c[0].kind));
    }
}

proof fn lemma_block_end_open(t: Seq<TokenView>, j: int, c: Seq<TokenView>, d: int)
    requires
        0 <= j,
        j + c.len() <= t.len(),
        t.subrange(j, j + c.len()) == c,
        j + c.len() == t.len() || t[j + c.len()].kind == KindView::Eof,
        d >= 1,
        stays_open(c, d),
    ensures
        block_end(t, j, d) == Err::<int, ErrorView>(error_at(t, j + c.len(), unterminated_msg())),
    decreases c.len(),
{
    if c.len() > 0 {
        assert(t[j] == c[0]);
        assert(t.subrange(j + 1, j + c.len()) =~= c.drop_first());
        lemma_block_end_open(t, j + 1, c.drop_first(), d + brace_delta(c[0].kind));
    }
}

/// An actor whose block holds brace-balanced contents adds exactly one item, and the
/// item scan resumes after its closing brace: nothing inside the block becomes an item.
pub proof fn lemma_actor_block(
    t: Seq<TokenView>,
    i: int,
    name: Seq<char>,
    c: Seq<TokenView>,
    items: Seq<ItemView>,
)
    requires
        0 <= i,
        i + c.len() + 4 <= t.len(),
        t[i].kind == KindView::Actor,
        t[i + 1].kind == KindView::Ident(name),
        t[i + 2].kind == KindView::LBrace,
        t.subrange(i + 3, i + 3 + c.len()) == c,
        t[i + 3 + c.len()].kind == KindView::RBrace,
        balanced_from(c, 0),
    ensures
        parse_items(t, i, items) == parse_items(
            t,
            i + c.len() + 4,
            items.push(ItemView::Actor(name)),
        ),
{
    lemma_block_end_balanced(t, i + 3, c, 0);
    assert(brace_seek(t, i + 2) == i + 2);
}

/// A module holding one actor with a balanced block parses to that name, no effects,
/// and that single actor.
pub proof fn lemma_single_actor_module(
    t: Seq<TokenView>,
    m: Seq<char>,
    name: Seq<char>,
    c: Seq<TokenView>,
)
    requires
        t.len() == c.len() + 7,
        t[0].kind == KindView::Module,
        t[1].kind == KindView::Ident(m),
        t[2].kind == KindView::Actor,
        t[3].kind == KindView::Ident(name),
        t[4].kind == KindView::LBrace,
        t.subrange(5, 5 + c.len() as int) == c,
        t[5 + c.len() as int].kind == KindView::RBrace,
        t[6 + c.len() as int].kind == KindView::Eof,
        balanced_from(c, 0),
    ensures
        parse_tokens(t) == Ok::<ModuleView, ErrorView>(
            ModuleView { name: m, effects: Seq::empty(), items: seq![ItemView::Actor(name)] },
        ),
{
    lemma_actor_block(t, 2, name, c, Seq::empty());
    assert(name_rest(t, 2, m) == Ok::<(Seq<char>, int), ErrorView>((m, 2)));
    assert(Seq::<ItemView>::empty().push(ItemView::Actor(name)) =~= seq![ItemView::Actor(name)]);
}

/// The bytes of the keyword `actor`.
pub open spec fn actor_word() -> Seq<u8> {
    seq![97u8, 99u8, 116u8, 111u8, 114u8]
}

proof fn lemma_stays_open_kinds(c1: Seq<TokenView>, c2: Seq<TokenView>, d: int)
    requires
        kinds(c1) == kinds(c2),
    ensures
        stays_open(c1, d) == stays_open(c2, d),
    decreases c1.len(),
{
    assert(kinds(c1).len() == c1.len() && kinds(c2).len() == c2.len());
    if c1.len() > 0 {
        assert(c1[0].kind == kinds(c1)[0]);
        assert(c2[0].kind == kinds(c2)[0]);
        assert(kinds(c1.drop_first()) =~= kinds(c1).drop_first());
        assert(kinds(c2.drop_first()) =~= kinds(c2).drop_first());
        lemma_stays_open_kinds(c1.drop_first(), c2.drop_first(), d + brace_delta(c1[0].kind));
    }
}

/// Source text `module M` then, on the next line, `actor N {` followed by a body whose
/// braces never close that block, fails with the unterminated-block error placed at
/// the end-of-stream token.
#[verifier::rlimit(60)]
pub proof fn lemma_source_unterminated_actor(
    b: Seq<u8>,
    m: Seq<u8>,
    name: Seq<u8>,
    body: Seq<u8>,
)
    requires
        b == module_word() + seq![SPACE] + m + seq![NEWLINE] + actor_word() + seq![SPACE] + name
            + seq![SPACE, LBRACE] + body,
        is_word(m) && word_kind(chars_of(m)) is Ident,
        is_word(name) && word_kind(chars_of(name)) is Ident,
        stays_open(lex_from(body, 0, 1, 1).drop_last(), 1),
    ensures
        lex_from(b, 0, 1, 1).last().kind == KindView::Eof,
        parse_tokens(lex_from(b, 0, 1, 1)) == Err::<ModuleView, ErrorView>(
            ErrorView {
                msg: unterminated_msg(),
                line: lex_from(b, 0, 1, 1).last().line,
                col: lex_from(b, 0, 1, 1).last().col,
            },
        ),
{
    let d1 = 7 + m.len() as int;
    let ia = d1 + 1;
    let inm = ia + 6;
    let d2 = inm + name.len() as int;
    let k = d2 + 2;
    assert(b.subrange(0, 6) =~= module_word());
    assert(b.subrange(7, d1) =~= m);
    assert(b.subrange(ia, ia + 5) =~= actor_word());
    assert(b.subrange(inm, d2) =~= name);
    assert(b[6] == SPACE);
    assert(b[d1] == NEWLINE);
    assert(b[ia + 5] == SPACE);
    assert(b[d2] == SPACE);
    assert(b[d2 + 1] == LBRACE);
    reveal_strlit("module");
    reveal_strlit("effects");
    reveal_strlit("actor");
    assert(chars_of(module_word()) =~= "module"@);
    assert(chars_of(actor_word()) =~= "actor"@);
    lemma_word_token(b, 0, module_word(), 1, 1);
    lemma_word_token(b, 7, m, 1, 8);
    lemma_word_token(b, ia, actor_word(), 2, 1);
    lemma_word_token(b, inm, name, 2, inm - d1);
    let tail = lex_from(b, k, 2, k - d1);
    let s4 = seq![tok(KindView::LBrace, 2, d2 + 1 - d1)] + tail;
    let s3 = seq![tok(KindView::Ident(chars_of(name)), 2, inm - d1)] + s4;
    let s2 = seq![tok(KindView::Actor, 2, 1)] + s3;
    let s1 = seq![tok(KindView::Ident(chars_of(m)), 1, 8)] + s2;
    let t = seq![tok(KindView::Module, 1, 1)] + s1;
    assert(lex_from(b, d2 + 1, 2, d2 + 1 - d1) == s4);
    assert(lex_from(b, d2, 2, d2 - d1) == s4);
    assert(lex_from(b, inm, 2, inm - d1) == s3);
    assert(lex_from(b, ia + 5, 2, 6) == s3);
    assert(lex_from(b, ia, 2, 1) == s2);
    assert(lex_from(b, d1, 1, d1 + 1) == s2);
    assert(lex_from(b, 7, 1, 8) == s1);
    assert(lex_from(b, 6, 1, 7) == s1);
    assert(lex_from(b, 0, 1, 1) == t);
    let p = b.subrange(0, k);
    assert(p + body =~= b);
    lemma_kinds_of_suffix(p, body, 0, 2, k - d1, 1, 1);
    lemma_lex_ends_with_eof(b, k, 2, k - d1);
    lemma_lex_ends_with_eof(body, 0, 1, 1);
    let bt = lex_from(body, 0, 1, 1);
    let c = tail.drop_last();
    assert(kinds(tail).len() == tail.len() && kinds(bt).len() == bt.len());
    assert(kinds(c) =~= kinds(bt.drop_last())) by {
        assert forall|j: int| 0 <= j < c.len() implies #[trigger] kinds(c)[j] == kinds(
            bt.drop_last(),
        )[j] by {
            assert(kinds(tail)[j] == kinds(bt)[j]);
        }
    }
    lemma_stays_open_kinds(c, bt.drop_last(), 1);
    assert(t.subrange(5, 5 + c.len() as int) =~= c);
    assert(t[5 + c.len() as int] == tail.last());
    assert(t.last() == tail.last());
    lemma_unterminated_actor(t, 2, chars_of(name), c, Seq::empty());
    assert(name_rest(t, 2, chars_of(m)) == Ok::<(Seq<char>, int), ErrorView>((chars_of(m), 2)));
}

/// An actor block that is still open when the tokens end fails the parse with the
/// unterminated-block error.
pub proof fn lemma_unterminated_actor(
    t: Seq<TokenView>,
    i: int,
    name: Seq<char>,
    c: Seq<TokenView>,
    items: Seq<ItemView>,
)
    requires
        0 <= i,
        i + 3 + c.len() <= t.len(),
        t[i].kind == KindView::Actor,
        t[i + 1].kind == KindView::Ident(name),
        t[i + 2].kind == KindView::LBrace,
        t.subrange(i + 3, i + 3 + c.len()) == c,
        i + 3 + c.len() == t.len() || t[i + 3 + c.len()].kind == KindView::Eof,
        stays_open(c, 1),
    ensures
        parse_items(t, i, items) == Err::<Seq<ItemView>, ErrorView>(
            error_at(t, i + 3 + c.len(), unterminated_msg()),
        ),
{
    lemma_block_end_open(t, i + 3, c, 1);
    assert(brace_seek(t, i + 2) == i + 2);
}

/// What `expect` accepts at the cursor.
enum Expected {
    ModuleKeyword,
    Identifier,
}

spec fn accepts(want: Expected, k: KindView) -> bool {
    match want {
        Expected::ModuleKeyword => k == KindView::Module,
        Expected::Identifier => k is Ident,
    }
}

/// Takes the token at the cursor if it is what `want` asks for, advancing past it;
/// otherwise fails with "expected <what>" at that token.
fn expect<'a>(toks: &'a [Token], i: &mut usize, want: Expected, what: &str) -> (r: Result<
    &'a Token,
    ParseError,
>)
    ensures
        match r {
            Ok(tok) => {
                &&& *old(i) < toks@.len()
                &&& accepts(want, toks@[*old(i) as int].kind@)
                &&& tok@ == toks@[*old(i) as int]@
                &&& *final(i) == *old(i) + 1
            },
            Err(e) => {
                &&& !(*old(i) < toks@.len() && accepts(want, toks@[*old(i) as int].kind@))
                &&& e@ == error_at(tokens_view(toks@), *old(i) as int, expected_msg(what@))
                &&& *final(i) == *old(i)
            },
        },
{
    let mut msg = String::from_str("expected ");
    msg.append(what);
    if *i >= toks.len() {
        return Err(ParseError { msg, line: 0, col: 0 });
    }
    let tok = &toks[*i];
    let ok = match want {
        Expected::ModuleKeyword => matches!(tok.kind, TokKind::Module),
        Expected::Identifier => matches!(tok.kind, TokKind::Ident(_)),
    };
    if ok {
        *i = *i + 1;
        Ok(tok)
    } else {
        Err(ParseError { msg, line: tok.line, col: tok.col })
    }
}

/// The text of an identifier token.
fn ident_of(tok: &Token) -> (s: String)
    requires
        tok.kind is Ident,
    ensures
        s@ == tok.kind@->Ident_0,
{
    match &tok.kind {
        TokKind::Ident(s) => s.clone(),
        _ => String::new(),
    }
}

/// Moves the cursor to the next `{` and past the balanced block it opens.
fn skip_block(toks: &[Token], i: &mut usize) -> (r: Result<(), ParseError>)
    requires
        *old(i) <= toks@.len(),
    ensures
        match r {
            Ok(_) => {
                &&& block_close(tokens_view(toks@), *old(i) as int) == Ok::<int, ErrorView>(*final(i) as int)
                &&& *old(i) < *final(i) <= toks@.len()
            },
            Err(e) => block_close(tokens_view(toks@), *old(i) as int) == Err::<int, ErrorView>(e@),
        },
        *final(i) == block_stop(tokens_view(toks@), brace_seek(tokens_view(toks@), *old(i) as int), 0),
{
    let ghost t = tokens_view(toks@);
    let mut j = *i;
    while j < toks.len() && !matches!(toks[j].kind, TokKind::LBrace) && !matches!(
        toks[j].kind,
        TokKind::Eof
    )
        invariant
            *old(i) <= j <= toks@.len(),
            t == tokens_view(toks@),
            brace_seek(t, *old(i) as int) == brace_seek(t, j as int),
        decreases toks@.len() - j,
    {
        assert(t[j as int] == toks@[j as int]@);
        j += 1;
    }
    let ghost start = j as int;
    proof {
        if j < toks.len() {
            assert(t[j as int] == toks@[j as int]@);
        }
    }
    let mut depth: usize = 0;
    while j < toks.len()
        invariant
            start <= j <= toks@.len(),
            *old(i) <= start,
            t == tokens_view(toks@),
            brace_seek(t, *old(i) as int) == start,
            block_end(t, start, 0) == block_end(t, j as int, depth as int),
            block_stop(t, start, 0) == block_stop(t, j as int, depth as int),
            depth <= j - start,
            depth == 0 ==> j == start,
            j == start && start < toks@.len() ==> (t[start].kind == KindView::LBrace
                || t[start].kind == KindView::Eof),
        decreases toks@.len() - j,
    {
        assert(t[j as int] == toks@[j as int]@);
        match &toks[j].kind {
            TokKind::LBrace => {
                depth += 1;
            },
            TokKind::RBrace => {
                depth -= 1;
                if depth == 0 {
                    *i = j + 1;
                    return Ok(());
                }
            },
            TokKind::Eof => {
                *i = j;
                return Err(
                    ParseError {
                        msg: String::from_str("unterminated block"),
                        line: toks[j].line,
                        col: toks[j].col,
                    },
                );
            },
            _ => {},
        }
        j += 1;
    }
    *i = j;
    Err(ParseError { msg: String::from_str("unterminated block"), line: 0, col: 0 })
}

/// Parses a module header, an optional effects clause, and the top-level items.
///
/// The header is strict, while the item list is lenient: a top-level token that starts
/// no item is skipped rather than reported.
pub fn parse(toks: &[Token]) -> (r: Result<Module, ParseError>)
    ensures
        match r {
            Ok(m) => parse_tokens(tokens_view(toks@)) == Ok::<ModuleView, ErrorView>(m@),
            Err(e) => parse_tokens(tokens_view(toks@)) == Err::<ModuleView, ErrorView>(e@),
        },
{
    let ghost t = tokens_view(toks@);
    let mut i: usize = 0;
    match expect(toks, &mut i, Expected::ModuleKeyword, "module") {
        Ok(_) => {},
        Err(e) => return Err(e),
    }
    assert(t[0] == toks@[0]@);
    let first = match expect(toks, &mut i, Expected::Identifier, "module ident") {
        Ok(tok) => tok,
        Err(e) => return Err(e),
    };
    assert(t[1] == toks@[1]@);
    let mut name = ident_of(first);
    let ghost first_text = name@;
    while i < toks.len() && matches!(toks[i].kind, TokKind::Dot)
        invariant
            2 <= i <= toks@.len(),
            t == tokens_view(toks@),
            kind_is(t, 0, KindView::Module),
            ident_at(t, 1),
            first_text == ident_text(t, 1),
            name_rest(t, 2, first_text) == name_rest(t, i as int, name@),
        decreases toks@.len() - i,
    {
        assert(t[i as int] == toks@[i as int]@);
        i += 1;
        let id = match expect(toks, &mut i, Expected::Identifier, "ident after dot") {
            Ok(tok) => tok,
            Err(e) => return Err(e),
        };
        assert(t[i - 1] == toks@[i - 1]@);
        let s = ident_of(id);
        name.push('.');
        name.append(s.as_str());
    }
    proof {
        if i < toks.len() {
            assert(t[i as int] == toks@[i as int]@);
        }
    }
    let ghost name_end = i as int;
    let mut m = Module::new(name);
    assert(name_rest(t, 2, first_text) == Ok::<(Seq<char>, int), ErrorView>((m.name@, name_end)));

    if i < toks.len() && matches!(toks[i].kind, TokKind::Effects) {
        assert(t[i as int] == toks@[i as int]@);
        i += 1;
        loop
            invariant_except_break
                i <= toks@.len(),
                t == tokens_view(toks@),
                kind_is(t, name_end, KindView::Effects),
                kind_is(t, 0, KindView::Module),
                ident_at(t, 1),
                first_text == ident_text(t, 1),
                name_rest(t, 2, first_text) == Ok::<(Seq<char>, int), ErrorView>((m.name@, name_end)),
                m.items@ == Seq::<Item>::empty(),
                effects_rest(t, name_end + 1, Seq::empty()) == effects_rest(
                    t,
                    i as int,
                    m.effects@,
                ),
            ensures
                i <= toks@.len(),
                kind_is(t, name_end, KindView::Effects),
                kind_is(t, 0, KindView::Module),
                ident_at(t, 1),
                first_text == ident_text(t, 1),
                name_rest(t, 2, first_text) == Ok::<(Seq<char>, int), ErrorView>((m.name@, name_end)),
                m.items@ == Seq::<Item>::empty(),
                effects_rest(t, name_end + 1, Seq::empty()) == Ok::<(Seq<Effect>, int), ErrorView>((m.effects@, i as int)),
            decreases toks@.len() - i,
        {
            let tok = match expect(toks, &mut i, Expected::Identifier, "effect ident") {
                Ok(tok) => tok,
                Err(e) => return Err(e),
            };
            assert(t[i - 1] == toks@[i - 1]@);
            let s = ident_of(tok);
            match Effect::from_ident(s.as_str()) {
                Some(eff) => {
                    m.effects.push(eff);
                },
                None => {
                    let mut msg = String::from_str("unknown effect '");
                    msg.append(s.as_str());
                    msg.append("'");
                    return Err(ParseError { msg, line: tok.line, col: tok.col });
                },
            }
            if i < toks.len() && matches!(toks[i].kind, TokKind::Comma) {
                assert(t[i as int] == toks@[i as int]@);
                i += 1;
                continue ;
            }
            proof {
                if i < toks.len() {
                    assert(t[i as int] == toks@[i as int]@);
                }
            }
            break ;
        }
    }
    assert(effects_clause(t, name_end) == Ok::<(Seq<Effect>, int), ErrorView>((m.effects@, i as int)));

    let ghost items_start = i as int;
    assert(items_view(m.items@) =~= Seq::<ItemView>::empty());
    while i < toks.len() && !matches!(toks[i].kind, TokKind::Eof)
        invariant
            i <= toks@.len(),
            t == tokens_view(toks@),
            kind_is(t, 0, KindView::Module),
            ident_at(t, 1),
            first_text == ident_text(t, 1),
            name_rest(t, 2, first_text) == Ok::<(Seq<char>, int), ErrorView>((m.name@, name_end)),
            effects_clause(t, name_end) == Ok::<(Seq<Effect>, int), ErrorView>((m.effects@, items_start)),
            parse_items(t, items_start, Seq::empty()) == parse_items(
                t,
                i as int,
                items_view(m.items@),
            ),
        decreases toks@.len() - i,
    {
        let ghost gi = i as int;
        let ghost before = items_view(m.items@);
        assert(t[gi] == toks@[gi]@);
        if matches!(toks[i].kind, TokKind::Actor) {
            i += 1;
            let tok = match expect(toks, &mut i, Expected::Identifier, "actor name") {
                Ok(tok) => tok,
                Err(e) => return Err(e),
            };
            assert(t[gi + 1] == toks@[gi + 1]@);
            let nm = ident_of(tok);
            match skip_block(toks, &mut i) {
                Ok(_) => {},
                Err(e) => return Err(e),
            }
            m.items.push(Item::Actor { name: nm });
            assert(items_view(m.items@) =~= before.push(ItemView::Actor(ident_text(t, gi + 1))));
        } else if matches!(toks[i].kind, TokKind::Fn) {
            i += 1;
            let tok = match expect(toks, &mut i, Expected::Identifier, "fn name") {
                Ok(tok) => tok,
                Err(e) => return Err(e),
            };
            assert(t[gi + 1] == toks@[gi + 1]@);
            let nm = ident_of(tok);
            while i < toks.len() && !matches!(toks[i].kind, TokKind::LBrace) && !matches!(
                toks[i].kind,
                TokKind::Eof
            )
                invariant
                    gi + 2 <= i <= toks@.len(),
                    t == tokens_view(toks@),
                    brace_seek(t, gi + 2) == brace_seek(t, i as int),
                decreases toks@.len() - i,
            {
                assert(t[i as int] == toks@[i as int]@);
                i += 1;
            }
            proof {
                if i < toks.len() {
                    assert(t[i as int] == toks@[i as int]@);
                }
            }
            if i < toks.len() && matches!(toks[i].kind, TokKind::LBrace) {
                match skip_block(toks, &mut i) {
                    Ok(_) => {},
                    Err(e) => return Err(e),
                }
            }
            m.items.push(Item::Func { name: nm });
            assert(items_view(m.items@) =~= before.push(ItemView::Func(ident_text(t, gi + 1))));
        } else {
            i += 1;
        }
    }
    proof {
        if i < toks.len() {
            assert(t[i as int] == toks@[i as int]@);
        }
    }
    Ok(m)
}

} // verus!

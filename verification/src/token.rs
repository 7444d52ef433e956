//! Tokenizer: scans raw bytes into a flat, source-ordered token list.
//!
//! Each token carries a half-open byte range `[lo, hi)` into the source.
//! The mathematical model is `spec_tokens`, a recursive spec function over
//! the source byte sequence; `Tokenizer::tokenize` is proved to produce
//! exactly that token list.

use vstd::prelude::*;

verus! {

/// A lexical token.  Text is kept as raw bytes of the source.
#[derive(Clone, PartialEq, Debug)]
pub enum Tok {
    /// An unrecognized byte; the message is always `?`.
    Error(Vec<u8>),
    /// A maximal run of letters, digits and underscores (may start with a digit).
    Id(Vec<u8>),
    /// A maximal run of ASCII digits, read as a decimal integer.
    Int(i64),
    /// A double-quoted string; the quotes are not part of the text.
    Str(Vec<u8>),
    /// One of the fixed punctuation symbols.
    Pun(Vec<u8>),
    /// End of input; always the last token, with an empty range.
    Eof,
}

/// The mathematical view of a token: byte text becomes `Seq<u8>`.
pub ghost enum TokM {
    Error(Seq<u8>),
    Id(Seq<u8>),
    Int(i64),
    Str(Seq<u8>),
    Pun(Seq<u8>),
    Eof,
}

impl View for Tok {
    type V = TokM;

    open spec fn view(&self) -> TokM {
        match self {
            Tok::Error(m) => TokM::Error(m@),
            Tok::Id(s) => TokM::Id(s@),
            Tok::Int(v) => TokM::Int(*v),
            Tok::Str(s) => TokM::Str(s@),
            Tok::Pun(p) => TokM::Pun(p@),
            Tok::Eof => TokM::Eof,
        }
    }
}

impl DeepView for Tok {
    type V = TokM;

    open spec fn deep_view(&self) -> TokM {
        self.view()
    }
}

/// A token together with its half-open byte range into the source.
#[derive(Clone, PartialEq, Debug)]
pub struct Token {
    pub tok: Tok,
    pub lo: usize,
    pub hi: usize,
}

/// The mathematical view of `Token`.
pub ghost struct TokenM {
    pub tok: TokM,
    pub lo: int,
    pub hi: int,
}

impl View for Token {
    type V = TokenM;

    open spec fn view(&self) -> TokenM {
        TokenM { tok: self.tok@, lo: self.lo as int, hi: self.hi as int }
    }
}

impl DeepView for Token {
    type V = TokenM;

    open spec fn deep_view(&self) -> TokenM {
        self.view()
    }
}

/// ASCII byte values the scanner dispatches on.
pub const B_SPACE: u8 = 32;
pub const B_CR: u8 = 13;
pub const B_NL: u8 = 10;
pub const B_QUOTE: u8 = 34;
pub const B_SLASH: u8 = 47;
pub const B_UNDERSCORE: u8 = 95;

/// Character classes scanned as maximal runs.
#[derive(Clone, Copy, PartialEq, Eq, Debug)]
pub enum CharClass {
    /// Space, carriage return or line feed.
    Whitespace,
    /// ASCII decimal digit.
    Digit,
    /// Letter, digit or underscore.
    IdChar,
    /// A string-literal body byte: anything but a double quote or a line feed.
    StrBody,
    /// A comment-body byte: anything but a line feed.
    NotNewline,
    /// An input-word byte: anything but ASCII whitespace.
    WordChar,
}

/// ASCII whitespace as the input-word splitter sees it (space, tab, line
/// feed, vertical tab, form feed, carriage return).
pub open spec fn spec_is_word_sep(c: u8) -> bool {
    c == 32 || c == 9 || c == 10 || c == 11 || c == 12 || c == 13
}

#[verifier::when_used_as_spec(spec_is_word_sep)]
pub fn is_word_sep(c: u8) -> (r: bool)
    ensures
        r == spec_is_word_sep(c),
{
    c == 32 || c == 9 || c == 10 || c == 11 || c == 12 || c == 13
}

pub open spec fn spec_is_whitespace(c: u8) -> bool {
    c == B_SPACE || c == B_CR || c == B_NL
}

pub open spec fn spec_is_ascii_digit(c: u8) -> bool {
    48 <= c && c <= 57
}

pub open spec fn spec_is_id_char(c: u8) -> bool {
    (97 <= c && c <= 122) || (65 <= c && c <= 90) || c == B_UNDERSCORE || spec_is_ascii_digit(c)
}

#[verifier::when_used_as_spec(spec_is_whitespace)]
pub fn is_whitespace(c: u8) -> (r: bool)
    ensures
        r == spec_is_whitespace(c),
{
    c == B_SPACE || c == B_CR || c == B_NL
}

#[verifier::when_used_as_spec(spec_is_ascii_digit)]
pub fn is_ascii_digit(c: u8) -> (r: bool)
    ensures
        r == spec_is_ascii_digit(c),
{
    48 <= c && c <= 57
}

#[verifier::when_used_as_spec(spec_is_id_char)]
pub fn is_id_char(c: u8) -> (r: bool)
    ensures
        r == spec_is_id_char(c),
{
    (97 <= c && c <= 122) || (65 <= c && c <= 90) || c == B_UNDERSCORE || is_ascii_digit(c)
}

pub open spec fn in_class(cls: CharClass, c: u8) -> bool {
    match cls {
        CharClass::Whitespace => spec_is_whitespace(c),
        CharClass::Digit => spec_is_ascii_digit(c),
        CharClass::IdChar => spec_is_id_char(c),
        CharClass::StrBody => c != B_QUOTE && c != B_NL,
        CharClass::NotNewline => c != B_NL,
        CharClass::WordChar => !spec_is_word_sep(c),
    }
}

pub fn class_has(cls: CharClass, c: u8) -> (r: bool)
    ensures
        r == in_class(cls, c),
{
    match cls {
        CharClass::Whitespace => is_whitespace(c),
        CharClass::Digit => is_ascii_digit(c),
        CharClass::IdChar => is_id_char(c),
        CharClass::StrBody => c != B_QUOTE && c != B_NL,
        CharClass::NotNewline => c != B_NL,
        CharClass::WordChar => !is_word_sep(c),
    }
}

/// The end of the maximal run of bytes of class `cls` starting at `i`.
pub open spec fn run_end(s: Seq<u8>, i: int, cls: CharClass) -> int
    decreases s.len() - i,
{
    if 0 <= i < s.len() && in_class(cls, s[i]) {
        run_end(s, i + 1, cls)
    } else {
        i
    }
}

pub proof fn lemma_run_end(s: Seq<u8>, i: int, cls: CharClass)
    requires
        0 <= i <= s.len(),
    ensures
        i <= run_end(s, i, cls) <= s.len(),
        forall|j: int| i <= j < run_end(s, i, cls) ==> in_class(cls, s[j]),
        run_end(s, i, cls) < s.len() ==> !in_class(cls, s[run_end(s, i, cls)]),
    decreases s.len() - i,
{
    if 0 <= i < s.len() && in_class(cls, s[i]) {
        lemma_run_end(s, i + 1, cls);
    }
}


/// The length of the punctuation symbol at position `i`, or 0 if none.
///
/// The symbols and their priority are fixed: `( ) [ ] { }` and `:` are
/// single; `++=` is tried before `+=`, which is tried before `++` and `+`;
/// `-= *= /= %= ==` are tried before their one-byte forms; `!=` has no
/// one-byte form.  The order resolves prefix ambiguity and must be kept.
pub open spec fn spec_pun_len(s: Seq<u8>, i: int) -> int {
    if !(0 <= i < s.len()) {
        0
    } else {
        let b = s[i];
        if b == 40 || b == 41 || b == 91 || b == 93 || b == 123 || b == 125 {
            1
        } else if b == 43 {
            if i + 3 <= s.len() && s[i + 1] == 43 && s[i + 2] == 61 {
                3
            } else if i + 2 <= s.len() && s[i + 1] == 61 {
                2
            } else if i + 2 <= s.len() && s[i + 1] == 43 {
                2
            } else {
                1
            }
        } else if b == 45 || b == 42 || b == 47 || b == 37 || b == 61 {
            if i + 2 <= s.len() && s[i + 1] == 61 {
                2
            } else {
                1
            }
        } else if b == 33 {
            if i + 2 <= s.len() && s[i + 1] == 61 {
                2
            } else {
                0
            }
        } else if b == 58 {
            1
        } else {
            0
        }
    }
}

/// The token list of `s` from position `i` on: skip whitespace and `//`
/// comments, then a digit run, an identifier run, a string literal, a
/// punctuation symbol, or a one-byte error token, ending in one `Eof`
/// token with an empty range.
pub open spec fn spec_tokens(s: Seq<u8>, i: int) -> Seq<TokenM>
    decreases s.len() - i
        when 0 <= i <= s.len()
        via spec_tokens_dec
{
    let n = s.len() as int;
    if i >= n {
        seq![TokenM { tok: TokM::Eof, lo: i, hi: i }]
    } else if spec_is_whitespace(s[i]) {
        spec_tokens(s, run_end(s, i, CharClass::Whitespace))
    } else if spec_is_ascii_digit(s[i]) {
        let e = run_end(s, i, CharClass::Digit);
        seq![TokenM { tok: TokM::Int(crate::num::int_tok_val(s.subrange(i, e))), lo: i, hi: e }]
            + spec_tokens(s, e)
    } else if spec_is_id_char(s[i]) {
        let e = run_end(s, i, CharClass::IdChar);
        seq![TokenM { tok: TokM::Id(s.subrange(i, e)), lo: i, hi: e }] + spec_tokens(s, e)
    } else if s[i] == B_QUOTE {
        let b = run_end(s, i + 1, CharClass::StrBody);
        let e = if b < n && s[b] == B_QUOTE {
            b + 1
        } else {
            b
        };
        seq![TokenM { tok: TokM::Str(s.subrange(i + 1, b)), lo: i, hi: e }] + spec_tokens(s, e)
    } else if i + 2 <= n && s[i] == B_SLASH && s[i + 1] == B_SLASH {
        spec_tokens(s, run_end(s, i + 2, CharClass::NotNewline))
    } else if spec_pun_len(s, i) > 0 {
        let e = i + spec_pun_len(s, i);
        seq![TokenM { tok: TokM::Pun(s.subrange(i, e)), lo: i, hi: e }] + spec_tokens(s, e)
    } else {
        seq![TokenM { tok: TokM::Error(seq![63u8]), lo: i, hi: i + 1 }] + spec_tokens(s, i + 1)
    }
}

#[via_fn]
proof fn spec_tokens_dec(s: Seq<u8>, i: int) {
    if 0 <= i < s.len() {
        lemma_run_end(s, i, CharClass::Whitespace);
        lemma_run_end(s, i, CharClass::Digit);
        lemma_run_end(s, i, CharClass::IdChar);
        lemma_run_end(s, i + 1, CharClass::StrBody);
        if i + 2 <= s.len() {
            lemma_run_end(s, i + 2, CharClass::NotNewline);
        }
    }
}



/// The token list is never empty and always ends in the `Eof` token.
pub proof fn lemma_tokens_ends_eof(s: Seq<u8>, i: int)
    requires
        0 <= i <= s.len(),
    ensures
        spec_tokens(s, i).len() >= 1,
        spec_tokens(s, i).last().tok is Eof,
    decreases s.len() - i,
{
    let n = s.len() as int;
    if i >= n {
    } else if spec_is_whitespace(s[i]) {
        lemma_run_end(s, i, CharClass::Whitespace);
        lemma_tokens_ends_eof(s, run_end(s, i, CharClass::Whitespace));
    } else if spec_is_ascii_digit(s[i]) {
        lemma_run_end(s, i, CharClass::Digit);
        lemma_tokens_ends_eof(s, run_end(s, i, CharClass::Digit));
    } else if spec_is_id_char(s[i]) {
        lemma_run_end(s, i, CharClass::IdChar);
        lemma_tokens_ends_eof(s, run_end(s, i, CharClass::IdChar));
    } else if s[i] == B_QUOTE {
        lemma_run_end(s, i + 1, CharClass::StrBody);
        let b = run_end(s, i + 1, CharClass::StrBody);
        let e = if b < n && s[b] == B_QUOTE {
            b + 1
        } else {
            b
        };
        lemma_tokens_ends_eof(s, e);
    } else if i + 2 <= n && s[i] == B_SLASH && s[i + 1] == B_SLASH {
        lemma_run_end(s, i + 2, CharClass::NotNewline);
        lemma_tokens_ends_eof(s, run_end(s, i + 2, CharClass::NotNewline));
    } else if spec_pun_len(s, i) > 0 {
        lemma_tokens_ends_eof(s, i + spec_pun_len(s, i));
    } else {
        lemma_tokens_ends_eof(s, i + 1);
    }
}


/// The source bytes the tokens cover, concatenated in order.
pub open spec fn toks_text(s: Seq<u8>, ts: Seq<TokenM>) -> Seq<u8>
    decreases ts.len(),
{
    if ts.len() == 0 {
        Seq::empty()
    } else {
        s.subrange(ts[0].lo, ts[0].hi) + toks_text(s, ts.drop_first())
    }
}

/// The source with whitespace and comments removed: a whitespace byte is
/// dropped, a `//` comment is dropped up to its line end, a string
/// literal is kept whole (its body may hold spaces and slashes), and
/// every other byte is kept.
pub open spec fn spec_stripped(s: Seq<u8>, i: int) -> Seq<u8>
    decreases s.len() - i
        when 0 <= i <= s.len()
        via spec_stripped_dec
{
    let n = s.len() as int;
    if i >= n {
        Seq::empty()
    } else if spec_is_whitespace(s[i]) {
        spec_stripped(s, i + 1)
    } else if i + 2 <= n && s[i] == B_SLASH && s[i + 1] == B_SLASH {
        spec_stripped(s, run_end(s, i + 2, CharClass::NotNewline))
    } else if s[i] == B_QUOTE {
        let b = run_end(s, i + 1, CharClass::StrBody);
        let e = if b < n && s[b] == B_QUOTE {
            b + 1
        } else {
            b
        };
        s.subrange(i, e) + spec_stripped(s, e)
    } else {
        seq![s[i]] + spec_stripped(s, i + 1)
    }
}

#[via_fn]
proof fn spec_stripped_dec(s: Seq<u8>, i: int) {
    if 0 <= i < s.len() {
        lemma_run_end(s, i + 1, CharClass::StrBody);
        if i + 2 <= s.len() {
            lemma_run_end(s, i + 2, CharClass::NotNewline);
        }
    }
}

/// Bytes that are no whitespace, no comment start and no quote are kept
/// one by one.
proof fn lemma_stripped_copies(s: Seq<u8>, i: int, e: int)
    requires
        0 <= i <= e <= s.len(),
        forall|j: int| i <= j < e ==> !spec_is_whitespace(#[trigger] s[j]) && s[j] != B_QUOTE
            && !(j + 2 <= s.len() && s[j] == B_SLASH && s[j + 1] == B_SLASH),
    ensures
        spec_stripped(s, i) == s.subrange(i, e) + spec_stripped(s, e),
    decreases e - i,
{
    if i < e {
        lemma_stripped_copies(s, i + 1, e);
        assert(seq![s[i]] + (s.subrange(i + 1, e) + spec_stripped(s, e)) =~= s.subrange(i, e)
            + spec_stripped(s, e));
    } else {
        assert(s.subrange(i, i) + spec_stripped(s, i) =~= spec_stripped(s, i));
    }
}

/// Law: reassembling the source from the token ranges reproduces the
/// non-whitespace, non-comment text exactly, in order.
pub proof fn lemma_tokens_roundtrip(s: Seq<u8>, i: int)
    requires
        0 <= i <= s.len(),
    ensures
        toks_text(s, spec_tokens(s, i)) == spec_stripped(s, i),
    decreases s.len() - i,
{
    let n = s.len() as int;
    if i >= n {
        let ts = spec_tokens(s, i);
        let tm = TokenM { tok: TokM::Eof, lo: i, hi: i };
        assert(ts == seq![tm]);
        assert(ts[0] == tm);
        assert(ts.drop_first() =~= Seq::<TokenM>::empty());
        assert(toks_text(s, ts.drop_first()) == Seq::<u8>::empty());
        assert(s.subrange(i, i) =~= Seq::<u8>::empty());
        assert(toks_text(s, ts) =~= Seq::<u8>::empty());
    } else if spec_is_whitespace(s[i]) {
        lemma_run_end(s, i, CharClass::Whitespace);
        lemma_tokens_roundtrip(s, i + 1);
        assert(run_end(s, i, CharClass::Whitespace) == run_end(s, i + 1, CharClass::Whitespace));
        assert(spec_tokens(s, i) == spec_tokens(s, i + 1));
    } else if spec_is_ascii_digit(s[i]) {
        let e = run_end(s, i, CharClass::Digit);
        lemma_run_end(s, i, CharClass::Digit);
        lemma_tokens_roundtrip(s, e);
        let tm = TokenM { tok: TokM::Int(crate::num::int_tok_val(s.subrange(i, e))), lo: i, hi: e };
        let rest = spec_tokens(s, e);
        assert((seq![tm] + rest).drop_first() =~= rest);
        assert((seq![tm] + rest)[0] == tm);
        lemma_stripped_copies(s, i, e);
        assert(toks_text(s, spec_tokens(s, i)) == s.subrange(i, e) + toks_text(s, rest));
    } else if spec_is_id_char(s[i]) {
        let e = run_end(s, i, CharClass::IdChar);
        lemma_run_end(s, i, CharClass::IdChar);
        lemma_tokens_roundtrip(s, e);
        let tm = TokenM { tok: TokM::Id(s.subrange(i, e)), lo: i, hi: e };
        let rest = spec_tokens(s, e);
        assert((seq![tm] + rest).drop_first() =~= rest);
        assert((seq![tm] + rest)[0] == tm);
        lemma_stripped_copies(s, i, e);
        assert(toks_text(s, spec_tokens(s, i)) == s.subrange(i, e) + toks_text(s, rest));
    } else if s[i] == B_QUOTE {
        let b = run_end(s, i + 1, CharClass::StrBody);
        lemma_run_end(s, i + 1, CharClass::StrBody);
        let e = if b < n && s[b] == B_QUOTE {
            b + 1
        } else {
            b
        };
        lemma_tokens_roundtrip(s, e);
        let tm = TokenM { tok: TokM::Str(s.subrange(i + 1, b)), lo: i, hi: e };
        let rest = spec_tokens(s, e);
        assert((seq![tm] + rest).drop_first() =~= rest);
        assert((seq![tm] + rest)[0] == tm);
        assert(toks_text(s, spec_tokens(s, i)) == s.subrange(i, e) + toks_text(s, rest));
    } else if i + 2 <= n && s[i] == B_SLASH && s[i + 1] == B_SLASH {
        let ce = run_end(s, i + 2, CharClass::NotNewline);
        lemma_run_end(s, i + 2, CharClass::NotNewline);
        lemma_tokens_roundtrip(s, ce);
    } else if spec_pun_len(s, i) > 0 {
        let e = i + spec_pun_len(s, i);
        lemma_tokens_roundtrip(s, e);
        let tm = TokenM { tok: TokM::Pun(s.subrange(i, e)), lo: i, hi: e };
        let rest = spec_tokens(s, e);
        assert((seq![tm] + rest).drop_first() =~= rest);
        assert((seq![tm] + rest)[0] == tm);
        assert forall|j: int| i <= j < e implies !spec_is_whitespace(#[trigger] s[j]) && s[j]
            != B_QUOTE && !(j + 2 <= s.len() && s[j] == B_SLASH && s[j + 1] == B_SLASH) by {
            if j == i {
            } else {
                assert(s[j] == 61 || s[j] == 43);
            }
        }
        lemma_stripped_copies(s, i, e);
        assert(toks_text(s, spec_tokens(s, i)) == s.subrange(i, e) + toks_text(s, rest));
    } else {
        lemma_tokens_roundtrip(s, i + 1);
        let tm = TokenM { tok: TokM::Error(seq![63u8]), lo: i, hi: i + 1 };
        let rest = spec_tokens(s, i + 1);
        assert((seq![tm] + rest).drop_first() =~= rest);
        assert((seq![tm] + rest)[0] == tm);
        lemma_stripped_copies(s, i, i + 1);
        assert(toks_text(s, spec_tokens(s, i)) == s.subrange(i, i + 1) + toks_text(s, rest));
    }
}

/// Copies the byte range `[l, r)` of `src` into a fresh vector.
pub fn copy_range(src: &Vec<u8>, l: usize, r: usize) -> (w: Vec<u8>)
    requires
        l <= r <= src@.len(),
    ensures
        w@ == src@.subrange(l as int, r as int),
{
    let mut w: Vec<u8> = Vec::new();
    let mut j: usize = l;
    while j < r
        invariant
            l <= j <= r <= src@.len(),
            w@ == src@.subrange(l as int, j as int),
        decreases r - j,
    {
        w.push(src[j]);
        proof {
            assert(src@.subrange(l as int, j + 1) =~= src@.subrange(l as int, j as int).push(
                src@[j as int],
            ));
        }
        j += 1;
    }
    w
}


/// Scans a byte source into tokens by a single left-to-right pass.
pub struct Tokenizer {
    pub src: Vec<u8>,
    pub cur: usize,
    pub toks: Vec<Token>,
}


impl Tokenizer {
    pub fn new(src: Vec<u8>) -> (t: Tokenizer)
        ensures
            t.src@ == src@,
            t.cur == 0,
            t.toks@.len() == 0,
    {
        Tokenizer { src, cur: 0, toks: Vec::new() }
    }

    /// The byte under the cursor, or 0 past the end.
    pub fn c(&self) -> (r: u8)
        ensures
            r == (if self.cur < self.src@.len() {
                self.src@[self.cur as int]
            } else {
                0
            }),
    {
        if self.cur >= self.src.len() {
            return 0;
        }
        self.src[self.cur]
    }

    /// Consumes the maximal run of bytes of class `cls` at the cursor and
    /// returns its text and range, or `None` if the run is empty.
    pub fn take(&mut self, cls: CharClass) -> (r: Option<(Vec<u8>, (usize, usize))>)
        requires
            old(self).cur <= old(self).src@.len(),
        ensures
            final(self).src@ == old(self).src@,
            final(self).toks@ == old(self).toks@,
            ({
                let e = run_end(old(self).src@, old(self).cur as int, cls);
                if e == old(self).cur as int {
                    r is None && final(self).cur == old(self).cur
                } else {
                    &&& final(self).cur as int == e
                    &&& (match r {
                        Some(p) => p.0@ == old(self).src@.subrange(old(self).cur as int, e)
                            && p.1.0 == old(self).cur && p.1.1 as int == e,
                        None => false,
                    })
                }
            }),
    {
        let l = self.cur;
        let ghost s = self.src@;
        let ghost i0 = l as int;
        proof {
            lemma_run_end(s, i0, cls);
        }
        if self.cur >= self.src.len() {
            return None;
        }
        if !class_has(cls, self.src[self.cur]) {
            return None;
        }
        while self.cur < self.src.len() && class_has(cls, self.src[self.cur])
            invariant
                self.src@ == s,
                self.toks@ == old(self).toks@,
                i0 <= self.cur as int <= s.len(),
                run_end(s, self.cur as int, cls) == run_end(s, i0, cls),
            decreases s.len() - self.cur,
        {
            self.cur += 1;
        }
        proof {
            assert(run_end(s, self.cur as int, cls) == self.cur as int);
        }
        let w = copy_range(&self.src, l, self.cur);
        Some((w, (l, self.cur)))
    }

    /// Advances over `prefix` and reports true when the source continues
    /// with exactly those bytes at the cursor.
    pub fn followed_by(&mut self, prefix: &[u8]) -> (r: bool)
        requires
            old(self).cur <= old(self).src@.len(),
        ensures
            final(self).src@ == old(self).src@,
            final(self).toks@ == old(self).toks@,
            ({
                let i = old(self).cur as int;
                let s = old(self).src@;
                let p = prefix@;
                if i + p.len() <= s.len() && s.subrange(i, i + p.len()) == p {
                    r && final(self).cur as int == i + p.len()
                } else {
                    !r && final(self).cur == old(self).cur
                }
            }),
    {
        let n = prefix.len();
        let ghost s = self.src@;
        let ghost i0 = self.cur as int;
        let ghost p = prefix@;
        if n > self.src.len() - self.cur {
            return false;
        }
        let slen = self.src.len();
        let mut j: usize = 0;
        while j < n
            invariant
                self.src@ == s,
                slen == s.len(),
                self.toks@ == old(self).toks@,
                self.cur == old(self).cur,
                i0 == self.cur as int,
                p == prefix@,
                n == p.len(),
                i0 + n <= s.len(),
                0 <= j <= n,
                forall|k: int| 0 <= k < j ==> s[i0 + k] == p[k],
            decreases n - j,
        {
            if self.src[self.cur + j] != prefix[j] {
                proof {
                    assert(s.subrange(i0, i0 + p.len()) != p) by {
                        assert(s.subrange(i0, i0 + p.len())[j as int] == s[i0 + j]);
                    }
                }
                return false;
            }
            j += 1;
        }
        proof {
            assert(s.subrange(i0, i0 + p.len()) =~= p);
        }
        self.cur = self.cur + n;
        true
    }


    /// The length of the punctuation symbol at the cursor, or 0.
    pub fn pun_len(&self) -> (r: usize)
        requires
            self.cur <= self.src@.len(),
        ensures
            r as int == spec_pun_len(self.src@, self.cur as int),
            r <= 3,
    {
        let n = self.src.len();
        let i = self.cur;
        if i >= n {
            return 0;
        }
        let b = self.src[i];
        if b == 40 || b == 41 || b == 91 || b == 93 || b == 123 || b == 125 {
            1
        } else if b == 43 {
            if n - i > 2 && self.src[i + 1] == 43 && self.src[i + 2] == 61 {
                3
            } else if n - i > 1 && self.src[i + 1] == 61 {
                2
            } else if n - i > 1 && self.src[i + 1] == 43 {
                2
            } else {
                1
            }
        } else if b == 45 || b == 42 || b == 47 || b == 37 || b == 61 {
            if n - i > 1 && self.src[i + 1] == 61 {
                2
            } else {
                1
            }
        } else if b == 33 {
            if n - i > 1 && self.src[i + 1] == 61 {
                2
            } else {
                0
            }
        } else if b == 58 {
            1
        } else {
            0
        }
    }

    pub fn tokenize(self) -> (r: Vec<Token>)
        requires
            self.cur <= self.src@.len(),
        ensures
            r.deep_view() == (self.toks.deep_view() + spec_tokens(self.src@, self.cur as int)),
    {
        let mut me = self;
        let ghost src0 = me.src@;
        let ghost base = me.toks.deep_view();
        let ghost start = me.cur as int;
        while me.cur < me.src.len()
            invariant
                me.cur <= me.src@.len(),
                me.src@ == src0,
                base + spec_tokens(src0, start) == (me.toks.deep_view() + spec_tokens(src0, me.cur as int)),
                0 <= start <= src0.len(),
            decreases me.src@.len() - me.cur,
        {
            let c0 = me.src[me.cur];
            let ghost i = me.cur as int;
            let ghost pre = me.toks.deep_view();
            if is_whitespace(c0) {
                proof {
                    lemma_run_end(src0, i, CharClass::Whitespace);
                }
                me.take(CharClass::Whitespace);
                proof {
                    assert(spec_tokens(src0, i) == spec_tokens(src0, me.cur as int));
                }
            } else if is_ascii_digit(c0) {
                proof {
                    lemma_run_end(src0, i, CharClass::Digit);
                }
                let t = me.take(CharClass::Digit);
                let ghost e = run_end(src0, i, CharClass::Digit);
                match t {
                    Some(p) => {
                        let (w, lr) = p;
                        proof {
                            assert(forall|k: int|
                                0 <= k < w@.len() ==> spec_is_ascii_digit(#[trigger] w@[k]));
                        }
                        let v = crate::num::parse_digits_or_zero(&w);
                        me.toks.push(Token { tok: Tok::Int(v), lo: lr.0, hi: lr.1 });
                        proof {
                            let tm = TokenM {
                                tok: TokM::Int(crate::num::int_tok_val(src0.subrange(i, e))),
                                lo: i,
                                hi: e,
                            };
                            assert(me.toks.deep_view() =~= pre + seq![tm]);
                            assert(spec_tokens(src0, i) == seq![tm] + spec_tokens(src0, e));
                            assert(pre + (seq![tm] + spec_tokens(src0, e)) =~= (pre + seq![tm])
                                + spec_tokens(src0, e));
                        }
                    },
                    None => {
                        proof {
                            assert(false);
                        }
                    },
                }
            } else if is_id_char(c0) {
                proof {
                    lemma_run_end(src0, i, CharClass::IdChar);
                }
                let t = me.take(CharClass::IdChar);
                let ghost e = run_end(src0, i, CharClass::IdChar);
                match t {
                    Some(p) => {
                        let (w, lr) = p;
                        me.toks.push(Token { tok: Tok::Id(w), lo: lr.0, hi: lr.1 });
                        proof {
                            let tm = TokenM { tok: TokM::Id(src0.subrange(i, e)), lo: i, hi: e };
                            assert(me.toks.deep_view() =~= pre + seq![tm]);
                            assert(spec_tokens(src0, i) == seq![tm] + spec_tokens(src0, e));
                            assert(pre + (seq![tm] + spec_tokens(src0, e)) =~= (pre + seq![tm])
                                + spec_tokens(src0, e));
                        }
                    },
                    None => {
                        proof {
                            assert(false);
                        }
                    },
                }
            } else if c0 == B_QUOTE {
                let qpos = me.cur;
                me.cur = me.cur + 1;
                proof {
                    lemma_run_end(src0, i + 1, CharClass::StrBody);
                }
                let t = me.take(CharClass::StrBody);
                let ghost b = run_end(src0, i + 1, CharClass::StrBody);
                let (body, bend) = match t {
                    Some(p) => {
                        let (w, lr) = p;
                        (w, lr.1)
                    },
                    None => (Vec::new(), me.cur),
                };
                proof {
                    assert(body@ =~= src0.subrange(i + 1, b));
                    assert(bend as int == b);
                }
                let mut hi = bend;
                if hi < me.src.len() && me.src[hi] == B_QUOTE {
                    me.cur = hi + 1;
                    hi = hi + 1;
                }
                me.toks.push(Token { tok: Tok::Str(body), lo: qpos, hi });
                proof {
                    let e = if b < src0.len() && src0[b] == B_QUOTE {
                        b + 1
                    } else {
                        b
                    };
                    let tm = TokenM { tok: TokM::Str(src0.subrange(i + 1, b)), lo: i, hi: e };
                    assert(me.cur as int == e);
                    assert(me.toks.deep_view() =~= pre + seq![tm]);
                    assert(spec_tokens(src0, i) == seq![tm] + spec_tokens(src0, e));
                    assert(pre + (seq![tm] + spec_tokens(src0, e)) =~= (pre + seq![tm])
                        + spec_tokens(src0, e));
                }
            } else {
                let mut sl: Vec<u8> = Vec::new();
                sl.push(B_SLASH);
                sl.push(B_SLASH);
                proof {
                    assert(sl@ =~= seq![B_SLASH, B_SLASH]);
                }
                if me.followed_by(sl.as_slice()) {
                    proof {
                        assert(src0.subrange(i, i + 2) == sl@);
                        assert(src0[i] == src0.subrange(i, i + 2)[0]);
                        assert(src0[i + 1] == src0.subrange(i, i + 2)[1]);
                        lemma_run_end(src0, i + 2, CharClass::NotNewline);
                    }
                    me.take(CharClass::NotNewline);
                    proof {
                        assert(spec_tokens(src0, i) == spec_tokens(src0, me.cur as int));
                    }
                } else {
                    proof {
                        if i + 2 <= src0.len() && src0[i] == B_SLASH && src0[i + 1] == B_SLASH {
                            assert(src0.subrange(i, i + 2) =~= sl@);
                            assert(false);
                        }
                    }
                    let plen = me.pun_len();
                    if plen > 0 {
                        let l = me.cur;
                        proof {
                            assert(l as int + plen as int <= src0.len());
                        }
                        let w = copy_range(&me.src, l, l + plen);
                        me.cur = l + plen;
                        me.toks.push(Token { tok: Tok::Pun(w), lo: l, hi: l + plen });
                        proof {
                            let e = i + spec_pun_len(src0, i);
                            let tm = TokenM { tok: TokM::Pun(src0.subrange(i, e)), lo: i, hi: e };
                            assert(me.toks.deep_view() =~= pre + seq![tm]);
                            assert(spec_tokens(src0, i) == seq![tm] + spec_tokens(src0, e));
                            assert(pre + (seq![tm] + spec_tokens(src0, e)) =~= (pre + seq![tm])
                                + spec_tokens(src0, e));
                        }
                    } else {
                        let l = me.cur;
                        me.cur = me.cur + 1;
                        let mut m: Vec<u8> = Vec::new();
                        m.push(63);
                        me.toks.push(Token { tok: Tok::Error(m), lo: l, hi: l + 1 });
                        proof {
                            let tm = TokenM { tok: TokM::Error(seq![63u8]), lo: i, hi: i + 1 };
                            assert(me.toks.deep_view() =~= pre + seq![tm]);
                            assert(spec_tokens(src0, i) == seq![tm] + spec_tokens(src0, i + 1));
                            assert(pre + (seq![tm] + spec_tokens(src0, i + 1)) =~= (pre + seq![tm])
                                + spec_tokens(src0, i + 1));
                        }
                    }
                }
            }
        }
        let ghost endpos = me.cur as int;
        me.toks.push(Token { tok: Tok::Eof, lo: me.cur, hi: me.cur });
        proof {
            let tm = TokenM { tok: TokM::Eof, lo: endpos, hi: endpos };
            assert(spec_tokens(src0, endpos) == seq![tm]);
            assert(me.toks.deep_view() =~= (base + spec_tokens(src0, start)).subrange(
                0,
                base.len() + spec_tokens(src0, start).len() - 1,
            ).push(tm));
            assert(me.toks.deep_view() =~= base + spec_tokens(src0, start));
        }
        me.toks
    }
}

} // verus!

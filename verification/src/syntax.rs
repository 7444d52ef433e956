//! Parser: recursive descent over the token list, driven by bracket
//! matching, building a flat table of syntax nodes addressed by index.
//!
//! The mathematical model is the pair `spec_read_exp` / `spec_read_list`;
//! `Parser::read_exp` is proved to extend the table by exactly the model's
//! nodes.  All three opening brackets are interchangeable, as are the three
//! closing ones: no pairing of kinds is enforced.

use vstd::prelude::*;
use crate::token::{Tok, TokM, Token, TokenM, Tokenizer, spec_tokens};

verus! {

/// A syntax node.  Children of an application are table indices of earlier
/// nodes, so the last appended node is always the root of its expression.
#[derive(Clone, PartialEq, Debug)]
pub enum Syn {
    /// A parse failure carrying a message and the offending token's index.
    Error(Vec<u8>, usize),
    /// A single-token expression (identifier, integer, string, or any
    /// other token; validity is deferred to evaluation).
    Val(usize),
    /// A bracketed sequence of sub-expressions, by table index.
    App(Vec<usize>),
}

/// The mathematical view of a syntax node.
pub ghost enum SynM {
    Error(Seq<u8>, int),
    Val(int),
    App(Seq<int>),
}

impl View for Syn {
    type V = SynM;

    open spec fn view(&self) -> SynM {
        match self {
            Syn::Error(m, t) => SynM::Error(m@, *t as int),
            Syn::Val(t) => SynM::Val(*t as int),
            Syn::App(cs) => SynM::App(cs@.map(|k: int, x: usize| x as int)),
        }
    }
}

impl DeepView for Syn {
    type V = SynM;

    open spec fn deep_view(&self) -> SynM {
        self.view()
    }
}

/// The token kinds of a token list, ranges dropped.
pub open spec fn tok_seq(ts: Seq<TokenM>) -> Seq<TokM> {
    ts.map(|i: int, t: TokenM| t.tok)
}

/// The token at position `i`, end-of-input past the end.
pub open spec fn tok_at(toks: Seq<TokM>, i: int) -> TokM {
    if 0 <= i < toks.len() {
        toks[i]
    } else {
        TokM::Eof
    }
}

pub open spec fn is_opening(t: TokM) -> bool {
    match t {
        TokM::Pun(p) => p == seq![40u8] || p == seq![91u8] || p == seq![123u8],
        _ => false,
    }
}

pub open spec fn is_closing(t: TokM) -> bool {
    match t {
        TokM::Pun(p) => p == seq![41u8] || p == seq![93u8] || p == seq![125u8],
        _ => false,
    }
}

/// The message carried by an unmatched-bracket error node.
pub open spec fn unmatched_msg() -> Seq<u8> {
    seq![85u8, 110u8, 109u8, 97u8, 116u8, 99u8, 104u8, 101u8, 100u8, 32u8, 98u8, 114u8, 97u8,
        99u8, 107u8, 101u8, 116u8]
}

/// Reads one expression at `cur`, emitting nodes from table index `base`
/// on; yields the cursor after the expression and the emitted nodes, whose
/// last element is the expression's root.
pub open spec fn spec_read_exp(toks: Seq<TokM>, cur: int, base: int) -> (int, Seq<SynM>)
    decreases toks.len() - cur, 0int,
{
    let t = tok_at(toks, cur);
    if is_opening(t) {
        let (c1, d1, r1) = spec_read_list(toks, cur + 1, base);
        let c2 = if c1 < toks.len() && !(tok_at(toks, c1) is Eof) {
            c1 + 1
        } else {
            c1
        };
        (c2, d1 + seq![SynM::App(r1)])
    } else if is_closing(t) {
        (cur + 1, seq![SynM::Error(unmatched_msg(), cur)])
    } else {
        (cur + 1, seq![SynM::Val(cur)])
    }
}

/// Reads child expressions until a closing bracket or end of input; yields
/// the cursor, the emitted nodes, and the children's root indices in order.
///
/// The clamp on the child's end position can never fire (every read makes
/// progress, see `lemma_read_exp_props`); it only makes the recursion's
/// termination measure self-evident.
pub open spec fn spec_read_list(toks: Seq<TokM>, cur: int, base: int) -> (int, Seq<SynM>, Seq<
    int,
>)
    decreases toks.len() - cur, 1int,
{
    let t = tok_at(toks, cur);
    if cur >= toks.len() || is_closing(t) || t is Eof {
        (cur, Seq::empty(), Seq::empty())
    } else {
        let (c1, d1) = spec_read_exp(toks, cur, base);
        let c1c = if cur < c1 <= toks.len() {
            c1
        } else {
            cur + 1
        };
        let (c2, d2, r2) = spec_read_list(toks, c1c, base + d1.len());
        (c2, d1 + d2, seq![base + d1.len() - 1] + r2)
    }
}

/// Well-formedness of one node at table index `idx`: token references are
/// in range and application children point at strictly earlier indices.
pub open spec fn wf_node(nd: SynM, idx: int, ntoks: int) -> bool {
    match nd {
        SynM::Error(m, t) => 0 <= t < ntoks,
        SynM::Val(t) => 0 <= t < ntoks,
        SynM::App(cs) => forall|j: int| 0 <= j < cs.len() ==> 0 <= #[trigger] cs[j] < idx,
    }
}

/// Well-formedness of a run of nodes occupying indices `base..`.
pub open spec fn delta_wf(delta: Seq<SynM>, base: int, ntoks: int) -> bool {
    forall|k: int| 0 <= k < delta.len() ==> wf_node(#[trigger] delta[k], base + k, ntoks)
}

/// Every read consumes at least one token, stays within the token list,
/// emits at least one node, and emits only well-formed nodes.
pub proof fn lemma_read_exp_props(toks: Seq<TokM>, cur: int, base: int)
    requires
        0 <= cur < toks.len(),
        0 <= base,
    ensures
        ({
            let (c1, d) = spec_read_exp(toks, cur, base);
            cur < c1 <= toks.len() && d.len() >= 1 && delta_wf(d, base, toks.len() as int)
        }),
    decreases toks.len() - cur, 0int,
{
    let t = tok_at(toks, cur);
    if is_opening(t) {
        lemma_read_list_props(toks, cur + 1, base);
        let (c1, d1, r1) = spec_read_list(toks, cur + 1, base);
        assert forall|k: int| 0 <= k < (d1 + seq![SynM::App(r1)]).len() implies wf_node(
            #[trigger] (d1 + seq![SynM::App(r1)])[k],
            base + k,
            toks.len() as int,
        ) by {
            if k < d1.len() {
                assert((d1 + seq![SynM::App(r1)])[k] == d1[k]);
            } else {
                assert((d1 + seq![SynM::App(r1)])[k] == SynM::App(r1));
            }
        }
    }
}

pub proof fn lemma_read_list_props(toks: Seq<TokM>, cur: int, base: int)
    requires
        0 <= cur <= toks.len(),
        0 <= base,
    ensures
        ({
            let (c2, d, r) = spec_read_list(toks, cur, base);
            &&& cur <= c2 <= toks.len()
            &&& delta_wf(d, base, toks.len() as int)
            &&& r.len() <= d.len()
            &&& forall|j: int| 0 <= j < r.len() ==> base <= #[trigger] r[j] < base + d.len()
        }),
    decreases toks.len() - cur, 1int,
{
    let t = tok_at(toks, cur);
    if cur >= toks.len() || is_closing(t) || t is Eof {
    } else {
        lemma_read_exp_props(toks, cur, base);
        let (c1, d1) = spec_read_exp(toks, cur, base);
        lemma_read_list_props(toks, c1, base + d1.len());
        let (c2, d2, r2) = spec_read_list(toks, c1, base + d1.len());
        let d = d1 + d2;
        let r = seq![base + d1.len() - 1] + r2;
        assert forall|k: int| 0 <= k < d.len() implies wf_node(
            #[trigger] d[k],
            base + k,
            toks.len() as int,
        ) by {
            if k < d1.len() {
                assert(d[k] == d1[k]);
            } else {
                assert(d[k] == d2[k - d1.len()]);
            }
        }
        assert forall|j: int| 0 <= j < r.len() implies base <= #[trigger] r[j] < base + d.len()
        by {
            if j >= 1 {
                assert(r[j] == r2[j - 1]);
            }
        }
    }
}

/// The node table of a whole program: one top-level expression, read from
/// the start of the token list; trailing tokens are ignored.
pub open spec fn spec_parse(toks: Seq<TokM>) -> Seq<SynM> {
    spec_read_exp(toks, 0, 0).1
}

/// Well-formedness of a whole table.
pub open spec fn table_wf(syns: Seq<SynM>, ntoks: int) -> bool {
    forall|k: int| 0 <= k < syns.len() ==> wf_node(#[trigger] syns[k], k, ntoks)
}

pub proof fn lemma_parse_wf(toks: Seq<TokM>)
    requires
        toks.len() >= 1,
    ensures
        spec_parse(toks).len() >= 1,
        table_wf(spec_parse(toks), toks.len() as int),
{
    lemma_read_exp_props(toks, 0, 0);
}


/// Builds the unmatched-bracket message.
pub fn unmatched_msg_vec() -> (r: Vec<u8>)
    ensures
        r@ == unmatched_msg(),
{
    let mut v: Vec<u8> = Vec::new();
    v.push(85);
    v.push(110);
    v.push(109);
    v.push(97);
    v.push(116);
    v.push(99);
    v.push(104);
    v.push(101);
    v.push(100);
    v.push(32);
    v.push(98);
    v.push(114);
    v.push(97);
    v.push(99);
    v.push(107);
    v.push(101);
    v.push(116);
    proof {
        assert(v@ =~= unmatched_msg());
    }
    v
}

/// Consumes tokens by recursive descent and appends syntax nodes.
pub struct Parser {
    pub toks: Vec<Token>,
    pub cur: usize,
    pub syns: Vec<Syn>,
}

impl Parser {
    /// The token kinds the parser reads.
    pub open spec fn pmodel(&self) -> Seq<TokM> {
        tok_seq(self.toks.deep_view())
    }

    /// The token list is never empty and always ends in `Eof`, so `next`
    /// can answer past the cursor's end.
    pub open spec fn pwf(&self) -> bool {
        &&& self.toks@.len() >= 1
        &&& (self.pmodel().last() is Eof)
    }

    pub fn new(toks: Vec<Token>) -> (p: Parser)
        ensures
            p.toks == toks,
            p.cur == 0,
            p.syns@.len() == 0,
    {
        Parser { toks, cur: 0, syns: Vec::new() }
    }

    /// The token under the cursor, end-of-input past the end.
    pub fn next(&self) -> (r: &Tok)
        requires
            self.pwf(),
        ensures
            r@ == tok_at(self.pmodel(), self.cur as int),
    {
        if self.cur >= self.toks.len() {
            proof {
                assert(self.pmodel()[self.pmodel().len() - 1] == self.pmodel().last());
            }
            return &self.toks[self.toks.len() - 1].tok;
        }
        &self.toks[self.cur].tok
    }

    pub fn next_is_opening(&self) -> (r: bool)
        requires
            self.pwf(),
        ensures
            r == is_opening(tok_at(self.pmodel(), self.cur as int)),
    {
        match self.next() {
            Tok::Pun(p) => {
                let r = p.len() == 1 && (p[0] == 40 || p[0] == 91 || p[0] == 123);
                proof {
                    if r {
                        if p@[0] == 40 {
                            assert(p@ =~= seq![40u8]);
                        } else if p@[0] == 91 {
                            assert(p@ =~= seq![91u8]);
                        } else {
                            assert(p@ =~= seq![123u8]);
                        }
                    }
                }
                r
            },
            _ => false,
        }
    }

    pub fn next_is_closing(&self) -> (r: bool)
        requires
            self.pwf(),
        ensures
            r == is_closing(tok_at(self.pmodel(), self.cur as int)),
    {
        match self.next() {
            Tok::Pun(p) => {
                let r = p.len() == 1 && (p[0] == 41 || p[0] == 93 || p[0] == 125);
                proof {
                    if r {
                        if p@[0] == 41 {
                            assert(p@ =~= seq![41u8]);
                        } else if p@[0] == 93 {
                            assert(p@ =~= seq![93u8]);
                        } else {
                            assert(p@ =~= seq![125u8]);
                        }
                    }
                }
                r
            },
            _ => false,
        }
    }

    pub fn next_is_eof(&self) -> (r: bool)
        requires
            self.pwf(),
        ensures
            r == (tok_at(self.pmodel(), self.cur as int) is Eof),
    {
        match self.next() {
            Tok::Eof => true,
            _ => false,
        }
    }

    /// Appends a node and returns its table index.
    pub fn push(&mut self, syn: Syn) -> (r: usize)
        ensures
            final(self).toks == old(self).toks,
            final(self).cur == old(self).cur,
            final(self).syns@ == old(self).syns@.push(syn),
            r == old(self).syns@.len(),
    {
        let syn_id = self.syns.len();
        self.syns.push(syn);
        syn_id
    }

    /// Reads one expression, appending exactly the nodes of
    /// `spec_read_exp` and returning the root's table index.
    pub fn read_exp(&mut self) -> (r: usize)
        requires
            old(self).pwf(),
            old(self).cur < old(self).toks@.len(),
        ensures
            final(self).pwf(),
            final(self).toks == old(self).toks,
            ({
                let (c1, d) = spec_read_exp(
                    old(self).pmodel(),
                    old(self).cur as int,
                    old(self).syns.deep_view().len() as int,
                );
                &&& final(self).cur as int == c1
                &&& final(self).syns.deep_view() == (old(self).syns.deep_view() + d)
                &&& r as int == (final(self).syns.deep_view().len() - 1)
            }),
        decreases old(self).toks@.len() - old(self).cur,
    {
        let ghost m = self.pmodel();
        let ghost cur0 = self.cur as int;
        let ghost syns0 = self.syns.deep_view();
        let ghost base = syns0.len() as int;
        let ghost toksv = self.toks;
        let ntoks = self.toks.len();
        let tok_id = self.cur;

        if self.next_is_opening() {
            self.cur = self.cur + 1;
            let mut children: Vec<usize> = Vec::new();
            let ghost mut dsf: Seq<SynM> = Seq::empty();
            let ghost mut roots: Seq<int> = Seq::empty();
            proof {
                assert(self.syns.deep_view() =~= syns0 + dsf);
                assert(children@.map(|k: int, x: usize| x as int) =~= roots);
            }
            while !self.next_is_closing() && !self.next_is_eof()
                invariant
                    self.pwf(),
                    self.toks == toksv,
                    m == self.pmodel(),
                    ntoks == self.toks@.len(),
                    ntoks == m.len(),
                    cur0 + 1 <= self.cur as int <= m.len(),
                    cur0 == old(self).cur as int,
                    ntoks == old(self).toks@.len(),
                    0 <= base,
                    base == syns0.len(),
                    self.syns.deep_view() == (syns0 + dsf),
                    children@.map(|k: int, x: usize| x as int) == roots,
                    ({
                        let rest = spec_read_list(m, self.cur as int, base + dsf.len());
                        spec_read_list(m, cur0 + 1, base) == ((rest.0, dsf + rest.1, roots
                            + rest.2))
                    }),
                decreases m.len() - self.cur,
            {
                let ghost cur_b = self.cur as int;
                let ghost base_b = base + dsf.len();
                let ghost dsf0 = dsf;
                let ghost roots0 = roots;
                proof {
                    lemma_read_exp_props(m, cur_b, base_b);
                }
                let c = self.read_exp();
                children.push(c);
                proof {
                    let (c1, d1) = spec_read_exp(m, cur_b, base_b);
                    let cval = base_b + d1.len() - 1;
                    dsf = dsf0 + d1;
                    roots = roots0.push(cval);
                    assert(c as int == cval);
                    assert(self.syns.deep_view() == ((syns0 + dsf0) + d1));
                    assert(((syns0 + dsf0) + d1) =~= (syns0 + dsf));
                    assert(children@.map(|k: int, x: usize| x as int) =~= roots);
                    let rest2 = spec_read_list(m, c1, base_b + d1.len());
                    assert(spec_read_list(m, cur_b, base_b) == ((rest2.0, d1 + rest2.1, seq![cval]
                        + rest2.2)));
                    assert((dsf0 + (d1 + rest2.1)) =~= (dsf + rest2.1));
                    assert((roots0 + (seq![cval] + rest2.2)) =~= (roots + rest2.2));
                }
            }
            proof {
                let rest = spec_read_list(m, self.cur as int, base + dsf.len());
                assert(rest == ((self.cur as int, Seq::<SynM>::empty(), Seq::<int>::empty())));
                assert((dsf + rest.1) =~= dsf);
                assert((roots + rest.2) =~= roots);
            }
            if !self.next_is_eof() {
                proof {
                    assert(self.cur < ntoks);
                }
                self.cur = self.cur + 1;
            }
            let r = self.push(Syn::App(children));
            proof {
                let (c1x, d1x, r1x) = spec_read_list(m, cur0 + 1, base);
                assert(Syn::App(children)@ == SynM::App(roots));
                assert(self.syns.deep_view() =~= ((syns0 + d1x) + seq![SynM::App(r1x)]));
                assert(((syns0 + d1x) + seq![SynM::App(r1x)]) =~= (syns0 + (d1x + seq![SynM::App(
                    r1x,
                )])));
            }
            r
        } else if self.next_is_closing() {
            proof {
                assert(self.cur < ntoks);
            }
            self.cur = self.cur + 1;
            let msg = unmatched_msg_vec();
            let r = self.push(Syn::Error(msg, tok_id));
            proof {
                assert(self.syns.deep_view() =~= (syns0 + seq![SynM::Error(
                    unmatched_msg(),
                    cur0,
                )]));
            }
            r
        } else {
            proof {
                assert(self.cur < ntoks);
            }
            self.cur = self.cur + 1;
            let r = self.push(Syn::Val(tok_id));
            proof {
                assert(self.syns.deep_view() =~= (syns0 + seq![SynM::Val(cur0)]));
            }
            r
        }
    }

    /// Parses one top-level expression and returns the tokens and the node
    /// table; the table's last node is the program root, and trailing
    /// tokens are ignored.
    pub fn parse(self) -> (r: (Vec<Token>, Vec<Syn>))
        requires
            self.pwf(),
            self.cur < self.toks@.len(),
        ensures
            r.0 == self.toks,
            r.1.deep_view() == (self.syns.deep_view() + spec_read_exp(
                self.pmodel(),
                self.cur as int,
                self.syns.deep_view().len() as int,
            ).1),
    {
        let mut me = self;
        me.read_exp();
        (me.toks, me.syns)
    }
}

/// Tokenizes and parses a source text: the token list of `spec_tokens` and
/// the well-formed node table of `spec_parse`, whose last node is the root.
pub fn parse(src: &Vec<u8>) -> (r: (Vec<Token>, Vec<Syn>))
    ensures
        r.0.deep_view() == spec_tokens(src@, 0),
        r.1.deep_view() == spec_parse(tok_seq(spec_tokens(src@, 0))),
        r.1.deep_view().len() >= 1,
        table_wf(r.1.deep_view(), spec_tokens(src@, 0).len() as int),
{
    let srcc = crate::token::copy_range(src, 0, src.len());
    proof {
        assert(srcc@ =~= src@);
        crate::token::lemma_tokens_ends_eof(src@, 0);
    }
    let toks = Tokenizer::new(srcc).tokenize();
    let p = Parser::new(toks);
    proof {
        assert(p.pmodel() =~= tok_seq(spec_tokens(src@, 0)));
        assert(p.syns.deep_view() =~= Seq::<SynM>::empty());
        lemma_parse_wf(p.pmodel());
    }
    let (toks2, syns) = p.parse();
    (toks2, syns)
}


/// No token is both an opening and a closing bracket.
pub proof fn lemma_bracket_kinds_disjoint(t: TokM)
    ensures
        !(is_opening(t) && is_closing(t)),
{
    if is_opening(t) && is_closing(t) {
        match t {
            TokM::Pun(p) => {
                assert(seq![40u8][0] == 40u8);
                assert(seq![91u8][0] == 91u8);
                assert(seq![123u8][0] == 123u8);
                assert(seq![41u8][0] == 41u8);
                assert(seq![93u8][0] == 93u8);
                assert(seq![125u8][0] == 125u8);
                assert(p[0] == 40u8 || p[0] == 91u8 || p[0] == 123u8);
                assert(p[0] == 41u8 || p[0] == 93u8 || p[0] == 125u8);
                assert(false);
            },
            _ => {},
        }
    }
}

/// Tokens that the parser cannot tell apart: equal, or both opening
/// brackets, or both closing brackets.
pub open spec fn tok_bracket_equiv(a: TokM, b: TokM) -> bool {
    a == b || (is_opening(a) && is_opening(b)) || (is_closing(a) && is_closing(b))
}

pub open spec fn toks_bracket_equiv(a: Seq<TokM>, b: Seq<TokM>) -> bool {
    a.len() == b.len() && forall|i: int| 0 <= i < a.len() ==> tok_bracket_equiv(
        #[trigger] a[i],
        #[trigger] b[i],
    )
}

/// Bracket-equivalent tokens agree on every class the parser reads.
pub proof fn lemma_bracket_equiv_classes(t: TokM, t2: TokM)
    requires
        tok_bracket_equiv(t, t2),
    ensures
        is_opening(t) == is_opening(t2),
        is_closing(t) == is_closing(t2),
        (t is Eof) == (t2 is Eof),
{
    lemma_bracket_kinds_disjoint(t);
    lemma_bracket_kinds_disjoint(t2);
}

/// The parser reads only each token's bracket class: bracket-equivalent
/// token lists produce identical node tables.
pub proof fn lemma_read_exp_bracket_equiv(a: Seq<TokM>, b: Seq<TokM>, cur: int, base: int)
    requires
        toks_bracket_equiv(a, b),
    ensures
        spec_read_exp(a, cur, base) == spec_read_exp(b, cur, base),
    decreases a.len() - cur, 0int,
{
    if 0 <= cur < a.len() {
        assert(tok_bracket_equiv(a[cur], b[cur]));
    }
    let t = tok_at(a, cur);
    let t2 = tok_at(b, cur);
    lemma_bracket_equiv_classes(t, t2);
    if is_opening(t) {
        lemma_read_list_bracket_equiv(a, b, cur + 1, base);
        let (c1, d1, r1) = spec_read_list(a, cur + 1, base);
        if 0 <= c1 < a.len() {
            assert(tok_bracket_equiv(a[c1], b[c1]));
        }
        assert((tok_at(a, c1) is Eof) == (tok_at(b, c1) is Eof));
        assert(spec_read_exp(a, cur, base) == spec_read_exp(b, cur, base));
    } else if is_closing(t) {
        assert(spec_read_exp(a, cur, base) == spec_read_exp(b, cur, base));
    } else {
        assert(spec_read_exp(a, cur, base) == spec_read_exp(b, cur, base));
    }
}

pub proof fn lemma_read_list_bracket_equiv(a: Seq<TokM>, b: Seq<TokM>, cur: int, base: int)
    requires
        toks_bracket_equiv(a, b),
    ensures
        spec_read_list(a, cur, base) == spec_read_list(b, cur, base),
    decreases a.len() - cur, 1int,
{
    if 0 <= cur < a.len() {
        assert(tok_bracket_equiv(a[cur], b[cur]));
    }
    let t = tok_at(a, cur);
    let t2 = tok_at(b, cur);
    lemma_bracket_equiv_classes(t, t2);
    if cur >= a.len() || is_closing(t) || t is Eof {
        assert(spec_read_list(a, cur, base) == spec_read_list(b, cur, base));
    } else {
        lemma_read_exp_bracket_equiv(a, b, cur, base);
        let (c1, d1) = spec_read_exp(a, cur, base);
        let c1c = if cur < c1 <= a.len() {
            c1
        } else {
            cur + 1
        };
        lemma_read_list_bracket_equiv(a, b, c1c, base + d1.len());
        assert(spec_read_list(a, cur, base) == spec_read_list(b, cur, base));
    }
}

/// Law: bracket kinds do not matter to the parse.
pub proof fn lemma_parse_bracket_indifferent(a: Seq<TokM>, b: Seq<TokM>)
    requires
        toks_bracket_equiv(a, b),
    ensures
        spec_parse(a) == spec_parse(b),
{
    lemma_read_exp_bracket_equiv(a, b, 0, 0);
}

} // verus!

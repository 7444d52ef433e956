//! Evaluator: walks the syntax tree with an explicit value stack, resolves
//! identifiers against a flat environment, dispatches applications to a
//! fixed table of builtins, and pulls whitespace-delimited words from a
//! line-buffered input on demand.
//!
//! Every semantic violation aborts the whole run with a distinguishable
//! [`EvalError`]; there is no partial recovery.  The mathematical model is
//! `spec_eval_exp` (with `spec_do_app` for builtin dispatch and
//! `spec_next_word` for the input), and the entry point `eval` is proved
//! to return exactly `spec_eval_program(source, input)`.

use vstd::prelude::*;
use crate::token::{Tok, TokM, Token, CharClass, run_end, lemma_run_end, spec_is_word_sep, is_word_sep};
use crate::syntax::{SynM, Syn, tok_seq, table_wf, wf_node, spec_parse};
use crate::value::{Val, ValM, val_view, vals_view, spec_display};
use crate::num::spec_parse_i64;

verus! {

broadcast use vstd::std_specs::vec::group_vec_axioms;

/// Why an evaluation run aborted.  Fail-fast: the first violation ends the
/// run and nothing after it is evaluated.
#[derive(Clone, Copy, PartialEq, Eq, Debug)]
pub enum EvalError {
    /// An unmatched closing bracket was reached during evaluation.
    UnmatchedBracket,
    /// An unrecognized byte's error token was reached during evaluation.
    LexError,
    /// An application head evaluated to something other than an identifier.
    HeadNotIdentifier,
    /// The head identifier names no builtin.
    UnknownIdentifier,
    /// `sum` was given a non-integer argument.
    SumArgNotInt,
    /// The sum of the arguments does not fit in a 64-bit integer.
    SumOverflow,
    /// `join` was applied to no arguments at all.
    JoinMissingSeparator,
    /// `join`'s first argument is not a byte string.
    JoinSeparatorNotStr,
    /// `let` was given fewer than two arguments.
    LetMissingArgs,
    /// `let`'s first argument is not an unresolved identifier.
    LetNameNotId,
    /// `read_int` pulled a word that is not a decimal integer.
    ReadIntBadWord,
    /// No input word became available within the bounded retry budget.
    InputExhausted,
    /// An application consumed more values than the stack held.
    StackUnderflow,
}

/// The evaluator's mutable state, mathematically.
pub ghost struct SState {
    /// The value stack; the top is the last element.
    pub stack: Seq<ValM>,
    /// The variable environment: identifier text to bound value.
    pub env: Map<Seq<u8>, ValM>,
    /// How many input bytes have been consumed.
    pub pos: int,
    /// Buffered input words not yet consumed; the next word is the last.
    pub words: Seq<Seq<u8>>,
    /// The output written so far.
    pub out: Seq<u8>,
}

pub open spec fn kw_read_int() -> Seq<u8> {
    seq![114u8, 101u8, 97u8, 100u8, 95u8, 105u8, 110u8, 116u8]
}

pub open spec fn kw_read_str() -> Seq<u8> {
    seq![114u8, 101u8, 97u8, 100u8, 95u8, 115u8, 116u8, 114u8]
}

pub open spec fn kw_println() -> Seq<u8> {
    seq![112u8, 114u8, 105u8, 110u8, 116u8, 108u8, 110u8]
}

pub open spec fn kw_sum() -> Seq<u8> {
    seq![115u8, 117u8, 109u8]
}

pub open spec fn kw_join() -> Seq<u8> {
    seq![106u8, 111u8, 105u8, 110u8]
}

pub open spec fn kw_let() -> Seq<u8> {
    seq![108u8, 101u8, 116u8]
}

pub open spec fn kw_vec() -> Seq<u8> {
    seq![118u8, 101u8, 99u8]
}

/// One past the end of the current input line: everything up to and
/// including the next line feed, or to the end of the input.
pub open spec fn line_end(inp: Seq<u8>, pos: int) -> int {
    let nn = run_end(inp, pos, CharClass::NotNewline);
    if nn < inp.len() {
        nn + 1
    } else {
        nn
    }
}

/// The whitespace-delimited words of `s` from position `i` on.
pub open spec fn split_from(s: Seq<u8>, i: int) -> Seq<Seq<u8>>
    decreases s.len() - i
        when 0 <= i <= s.len()
        via split_from_dec
{
    if i >= s.len() {
        Seq::empty()
    } else if spec_is_word_sep(s[i]) {
        split_from(s, i + 1)
    } else {
        let e = run_end(s, i, CharClass::WordChar);
        seq![s.subrange(i, e)] + split_from(s, e)
    }
}

#[via_fn]
proof fn split_from_dec(s: Seq<u8>, i: int) {
    if 0 <= i < s.len() {
        lemma_run_end(s, i, CharClass::WordChar);
    }
}

/// The words of one whole line.
pub open spec fn words_of(line: Seq<u8>) -> Seq<Seq<u8>> {
    split_from(line, 0)
}

/// One pull of a whitespace-delimited word: pop the buffer if a word is
/// buffered, otherwise read the next line, buffer its words (next word
/// last) and try again, up to `reads` line reads; `None` when the budget
/// is exhausted.
pub open spec fn spec_next_word(inp: Seq<u8>, pos: int, words: Seq<Seq<u8>>, reads: nat) -> Option<
    (Seq<u8>, int, Seq<Seq<u8>>),
>
    decreases reads,
{
    if words.len() > 0 {
        Some((words.last(), pos, words.drop_last()))
    } else if reads == 0 {
        None
    } else {
        let le = line_end(inp, pos);
        spec_next_word(inp, le, words_of(inp.subrange(pos, le)).reverse(), (reads - 1) as nat)
    }
}

/// How many line reads one word pull may make before failing.
pub open spec fn read_budget() -> nat {
    9
}

/// The sum of a list of integer values; `None` if any is not an integer.
pub open spec fn spec_sum(args: Seq<ValM>) -> Option<int>
    decreases args,
{
    if args.len() == 0 {
        Some(0)
    } else {
        match (args.last(), spec_sum(args.drop_last())) {
            (ValM::Int(x), Some(s)) => Some(s + x),
            _ => None,
        }
    }
}

/// What `println` writes: each argument's display form with one trailing
/// space, then a line feed.
pub open spec fn println_items(args: Seq<ValM>) -> Seq<u8>
    decreases args,
{
    if args.len() == 0 {
        Seq::empty()
    } else {
        println_items(args.drop_last()) + spec_display(args.last()) + seq![32u8]
    }
}

/// What `join` builds from argument positions `i..`: the display forms,
/// with the separator before every item but the first (position 1).
pub open spec fn join_from(sep: Seq<u8>, args: Seq<ValM>, i: int) -> Seq<u8>
    decreases args.len() - i,
{
    if i >= args.len() {
        Seq::empty()
    } else {
        (if i > 1 {
            sep
        } else {
            Seq::empty()
        }) + spec_display(args[i]) + join_from(sep, args, i + 1)
    }
}

/// Builtin dispatch over the top `len` stack values: value 0 is the head,
/// values 1.. the arguments.  An application of zero children does
/// nothing.
pub open spec fn spec_do_app(inp: Seq<u8>, st: SState, len: nat) -> Result<SState, EvalError> {
    if len == 0 {
        Ok(st)
    } else if st.stack.len() < len {
        Err(EvalError::StackUnderflow)
    } else {
        let base = st.stack.len() - len;
        let head = st.stack[base as int];
        let args = st.stack.subrange(base as int + 1, st.stack.len() as int);
        let rest = st.stack.take(base as int);
        match head {
            ValM::Id(name) => {
                if name == kw_read_int() {
                    match spec_next_word(inp, st.pos, st.words, read_budget()) {
                        None => Err(EvalError::InputExhausted),
                        Some((w, p2, ws2)) => match spec_parse_i64(w) {
                            None => Err(EvalError::ReadIntBadWord),
                            Some(v) => Ok(
                                SState {
                                    stack: rest.push(ValM::Int(v)),
                                    pos: p2,
                                    words: ws2,
                                    ..st
                                },
                            ),
                        },
                    }
                } else if name == kw_read_str() {
                    match spec_next_word(inp, st.pos, st.words, read_budget()) {
                        None => Err(EvalError::InputExhausted),
                        Some((w, p2, ws2)) => Ok(
                            SState { stack: rest.push(ValM::Str(w)), pos: p2, words: ws2, ..st },
                        ),
                    }
                } else if name == kw_println() {
                    Ok(
                        SState {
                            stack: rest.push(ValM::Int(0)),
                            out: st.out + println_items(args) + seq![10u8],
                            ..st
                        },
                    )
                } else if name == kw_sum() {
                    match spec_sum(args) {
                        None => Err(EvalError::SumArgNotInt),
                        Some(s) => if i64::MIN <= s <= i64::MAX {
                            Ok(SState { stack: rest.push(ValM::Int(s as i64)), ..st })
                        } else {
                            Err(EvalError::SumOverflow)
                        },
                    }
                } else if name == kw_join() {
                    if args.len() == 0 {
                        Err(EvalError::JoinMissingSeparator)
                    } else {
                        match args[0] {
                            ValM::Str(sep) => Ok(
                                SState { stack: rest.push(ValM::Str(join_from(sep, args, 1))), ..st },
                            ),
                            _ => Err(EvalError::JoinSeparatorNotStr),
                        }
                    }
                } else if name == kw_let() {
                    if args.len() < 2 {
                        Err(EvalError::LetMissingArgs)
                    } else {
                        match args[0] {
                            ValM::Id(nm) => Ok(
                                SState {
                                    stack: rest.push(args[1]),
                                    env: st.env.insert(nm, args[1]),
                                    ..st
                                },
                            ),
                            _ => Err(EvalError::LetNameNotId),
                        }
                    }
                } else if name == kw_vec() {
                    Ok(SState { stack: rest.push(ValM::Vector(args)), ..st })
                } else {
                    Err(EvalError::UnknownIdentifier)
                }
            },
            _ => Err(EvalError::HeadNotIdentifier),
        }
    }
}

/// Evaluation of one syntax node: an error node aborts; a value node
/// pushes the token's value (an identifier resolves through the
/// environment, or stays an unresolved identifier; punctuation and
/// end-of-input push nothing); an application evaluates its children left
/// to right, then dispatches over the collected values.
pub open spec fn spec_eval_exp(
    toks: Seq<TokM>,
    syns: Seq<SynM>,
    inp: Seq<u8>,
    st: SState,
    syn_id: int,
) -> Result<SState, EvalError>
    decreases syn_id, 1int, 0int,
{
    if !(0 <= syn_id < syns.len()) {
        arbitrary()
    } else {
        match syns[syn_id] {
            SynM::Error(m, t) => Err(EvalError::UnmatchedBracket),
            SynM::Val(t) => {
                if !(0 <= t < toks.len()) {
                    arbitrary()
                } else {
                    match toks[t] {
                        TokM::Error(m) => Err(EvalError::LexError),
                        TokM::Id(name) => {
                            let v = if st.env.contains_key(name) {
                                st.env[name]
                            } else {
                                ValM::Id(name)
                            };
                            Ok(SState { stack: st.stack.push(v), ..st })
                        },
                        TokM::Int(x) => Ok(SState { stack: st.stack.push(ValM::Int(x)), ..st }),
                        TokM::Str(s) => Ok(SState { stack: st.stack.push(ValM::Str(s)), ..st }),
                        TokM::Pun(p) => Ok(st),
                        TokM::Eof => Ok(st),
                    }
                }
            },
            SynM::App(cs) => match spec_eval_children(toks, syns, inp, st, cs, syn_id) {
                Err(e) => Err(e),
                Ok(st2) => spec_do_app(inp, st2, cs.len()),
            },
        }
    }
}

/// Left-to-right evaluation of an application's children, short-circuiting
/// on the first abort.  `bound` is the application's own table index; in a
/// well-formed table every child index is below it.
pub open spec fn spec_eval_children(
    toks: Seq<TokM>,
    syns: Seq<SynM>,
    inp: Seq<u8>,
    st: SState,
    cs: Seq<int>,
    bound: int,
) -> Result<SState, EvalError>
    decreases bound, 0int, cs.len(),
{
    if cs.len() == 0 {
        Ok(st)
    } else if 0 <= cs[0] < bound {
        match spec_eval_exp(toks, syns, inp, st, cs[0]) {
            Err(e) => Err(e),
            Ok(st2) => spec_eval_children(toks, syns, inp, st2, cs.drop_first(), bound),
        }
    } else {
        arbitrary()
    }
}

/// The whole pipeline: tokenize, parse, then evaluate the root node with
/// an empty environment, a stack holding one sentinel `Int 0`, and the
/// given input text; the result is the output text, or the abort reason.
pub open spec fn spec_eval_program(src: Seq<u8>, inp: Seq<u8>) -> Result<Seq<u8>, EvalError> {
    let toks = tok_seq(crate::token::spec_tokens(src, 0));
    let syns = spec_parse(toks);
    let st0 = SState {
        stack: seq![ValM::Int(0)],
        env: Map::empty(),
        pos: 0,
        words: Seq::empty(),
        out: Seq::empty(),
    };
    match spec_eval_exp(toks, syns, inp, st0, syns.len() - 1) {
        Ok(st) => Ok(st.out),
        Err(e) => Err(e),
    }
}

/// The environment as a map: later bindings of a name shadow earlier ones.
pub open spec fn env_map(s: Seq<(Vec<u8>, Val)>) -> Map<Seq<u8>, ValM>
    decreases s.len(),
{
    if s.len() == 0 {
        Map::empty()
    } else {
        env_map(s.drop_last()).insert(s.last().0@, val_view(s.last().1))
    }
}

/// Entries above `i` that never mention `k` do not affect `k`'s binding.
pub proof fn lemma_env_map_skip(s: Seq<(Vec<u8>, Val)>, i: int, k: Seq<u8>)
    requires
        0 <= i <= s.len(),
        forall|j: int| i <= j < s.len() ==> #[trigger] s[j].0@ != k,
    ensures
        env_map(s).contains_key(k) == env_map(s.take(i)).contains_key(k),
        env_map(s).contains_key(k) ==> env_map(s)[k] == env_map(s.take(i))[k],
    decreases s.len() - i,
{
    if i < s.len() {
        lemma_env_map_skip(s.take(s.len() - 1), i, k);
        assert(s.take(s.len() - 1) =~= s.drop_last());
        assert(s.drop_last().take(i) =~= s.take(i));
    } else {
        assert(s.take(i) =~= s);
    }
}


/// Looks a name up in the environment: the value most recently bound to
/// it (a copy), or `None` when it is unbound.
pub fn env_get(env: &Vec<(Vec<u8>, Val)>, name: &Vec<u8>) -> (r: Option<Val>)
    ensures
        match r {
            Some(v) => env_map(env@).contains_key(name@) && val_view(v) == env_map(env@)[name@],
            None => !env_map(env@).contains_key(name@),
        },
{
    let n = env.len();
    let mut i: usize = n;
    while i > 0
        invariant
            i <= n,
            n == env@.len(),
            forall|j: int| i <= j < n ==> #[trigger] env@[j].0@ != name@,
        decreases i,
    {
        i = i - 1;
        if crate::value::bytes_eq(&env[i].0, name) {
            let v = env[i].1.dup();
            proof {
                lemma_env_map_skip(env@, i + 1, name@);
                assert(env@.take(i + 1).drop_last() =~= env@.take(i as int));
                assert(env@.take(i + 1).last() == env@[i as int]);
            }
            return Some(v);
        }
    }
    proof {
        lemma_env_map_skip(env@, 0, name@);
        assert(env@.take(0) =~= Seq::<(Vec<u8>, Val)>::empty());
    }
    None
}

/// A three-byte vector.
pub fn bv3(a: u8, b: u8, c: u8) -> (r: Vec<u8>)
    ensures
        r@ == seq![a, b, c],
{
    let mut v: Vec<u8> = Vec::new();
    v.push(a);
    v.push(b);
    v.push(c);
    proof {
        assert(v@ =~= seq![a, b, c]);
    }
    v
}

/// A four-byte vector.
pub fn bv4(a: u8, b: u8, c: u8, d: u8) -> (r: Vec<u8>)
    ensures
        r@ == seq![a, b, c, d],
{
    let mut v = bv3(a, b, c);
    v.push(d);
    proof {
        assert(v@ =~= seq![a, b, c, d]);
    }
    v
}

/// A seven-byte vector.
pub fn bv7(a: u8, b: u8, c: u8, d: u8, e: u8, f: u8, g: u8) -> (r: Vec<u8>)
    ensures
        r@ == seq![a, b, c, d, e, f, g],
{
    let mut v = bv4(a, b, c, d);
    v.push(e);
    v.push(f);
    v.push(g);
    proof {
        assert(v@ =~= seq![a, b, c, d, e, f, g]);
    }
    v
}

/// An eight-byte vector.
pub fn bv8(a: u8, b: u8, c: u8, d: u8, e: u8, f: u8, g: u8, h: u8) -> (r: Vec<u8>)
    ensures
        r@ == seq![a, b, c, d, e, f, g, h],
{
    let mut v = bv7(a, b, c, d, e, f, g);
    v.push(h);
    proof {
        assert(v@ =~= seq![a, b, c, d, e, f, g, h]);
    }
    v
}

/// Copies a vector of table indices.
pub fn copy_usizes(v: &Vec<usize>) -> (r: Vec<usize>)
    ensures
        r@ == v@,
{
    let n = v.len();
    let mut r: Vec<usize> = Vec::new();
    let mut i: usize = 0;
    while i < n
        invariant
            n == v@.len(),
            0 <= i <= n,
            r@ == v@.take(i as int),
        decreases n - i,
    {
        r.push(v[i]);
        proof {
            assert(v@.take(i + 1) =~= v@.take(i as int).push(v@[i as int]));
        }
        i += 1;
    }
    proof {
        assert(v@.take(n as int) =~= v@);
    }
    r
}

/// Walks the parsed document, evaluating against a line-buffered input
/// and collecting output bytes.
pub struct Evaluator {
    /// The token list (immutable during evaluation).
    pub toks: Vec<Token>,
    /// The node table (immutable during evaluation).
    pub syns: Vec<Syn>,
    /// The whole input text (immutable during evaluation).
    pub input: Vec<u8>,
    /// How many input bytes have been consumed.
    pub pos: usize,
    /// Buffered input words, next word last.
    pub words: Vec<Vec<u8>>,
    /// The variable environment, later bindings last.
    pub env: Vec<(Vec<u8>, Val)>,
    /// The output written so far.
    pub out: Vec<u8>,
}

impl Evaluator {
    /// The token kinds the evaluator reads.
    pub open spec fn tmodel(&self) -> Seq<TokM> {
        tok_seq(self.toks.deep_view())
    }

    /// The node table the evaluator walks.
    pub open spec fn smodel(&self) -> Seq<SynM> {
        self.syns.deep_view()
    }

    /// The mutable state, with the stack supplied by the caller.
    pub open spec fn st(&self, stackm: Seq<ValM>) -> SState {
        SState {
            stack: stackm,
            env: env_map(self.env@),
            pos: self.pos as int,
            words: self.words.deep_view(),
            out: self.out@,
        }
    }

    /// The parts that never change during evaluation.
    pub open spec fn same_doc(&self, other: &Evaluator) -> bool {
        &&& self.toks == other.toks
        &&& self.syns == other.syns
        &&& self.input == other.input
    }

    /// The node table is well-formed and the input cursor in range.
    pub open spec fn ewf(&self) -> bool {
        &&& table_wf(self.smodel(), self.tmodel().len() as int)
        &&& self.pos <= self.input@.len()
    }

    pub fn new(toks: Vec<Token>, syns: Vec<Syn>, input: Vec<u8>) -> (e: Evaluator)
        ensures
            e.toks == toks,
            e.syns == syns,
            e.input == input,
            e.pos == 0,
            e.words.deep_view() =~= Seq::<Seq<u8>>::empty(),
            e.env@.len() == 0,
            e.out@.len() == 0,
    {
        Evaluator {
            toks,
            syns,
            input,
            pos: 0,
            words: Vec::new(),
            env: Vec::new(),
            out: Vec::new(),
        }
    }
}


/// A list with a non-integer member has no sum.
pub proof fn lemma_sum_not_int(args: Seq<ValM>, j: int)
    requires
        0 <= j < args.len(),
        !(args[j] is Int),
    ensures
        spec_sum(args) is None,
    decreases args,
{
    if j < args.len() - 1 {
        assert(args.drop_last()[j] == args[j]);
        lemma_sum_not_int(args.drop_last(), j);
    }
}

impl Evaluator {
    /// Consumes the rest of the current line (through its line feed) and
    /// buffers its words, next word last.
    fn read_line_words(&mut self)
        requires
            old(self).pos <= old(self).input@.len(),
            old(self).words.deep_view().len() == 0,
        ensures
            final(self).toks == old(self).toks,
            final(self).syns == old(self).syns,
            final(self).input == old(self).input,
            final(self).env == old(self).env,
            final(self).out == old(self).out,
            final(self).pos as int == line_end(old(self).input@, old(self).pos as int),
            final(self).pos <= final(self).input@.len(),
            final(self).words.deep_view() == words_of(
                old(self).input@.subrange(
                    old(self).pos as int,
                    line_end(old(self).input@, old(self).pos as int),
                ),
            ).reverse(),
    {
        let n = self.input.len();
        let start = self.pos;
        let ghost inp = self.input@;
        let mut j: usize = self.pos;
        while j < n && self.input[j] != 10
            invariant
                start <= j <= n,
                n == self.input@.len(),
                self.input@ == inp,
                run_end(inp, j as int, CharClass::NotNewline) == run_end(
                    inp,
                    start as int,
                    CharClass::NotNewline,
                ),
            decreases n - j,
        {
            j += 1;
        }
        proof {
            assert(run_end(inp, j as int, CharClass::NotNewline) == j as int);
        }
        let le = if j < n {
            j + 1
        } else {
            j
        };
        let line = crate::token::copy_range(&self.input, start, le);
        self.pos = le;
        let ghost lv = line@;
        let mut tmp: Vec<Vec<u8>> = Vec::new();
        let ln = line.len();
        let mut i: usize = 0;
        proof {
            assert(tmp.deep_view() =~= Seq::<Seq<u8>>::empty());
        }
        while i < ln
            invariant
                0 <= i <= ln,
                ln == line@.len(),
                line@ == lv,
                words_of(lv) == tmp.deep_view() + split_from(lv, i as int),
            decreases ln - i,
        {
            if is_word_sep(line[i]) {
                i += 1;
            } else {
                proof {
                    lemma_run_end(lv, i as int, CharClass::WordChar);
                }
                let mut e: usize = i;
                while e < ln && !is_word_sep(line[e])
                    invariant
                        i <= e <= ln,
                        ln == line@.len(),
                        line@ == lv,
                        run_end(lv, e as int, CharClass::WordChar) == run_end(
                            lv,
                            i as int,
                            CharClass::WordChar,
                        ),
                    decreases ln - e,
                {
                    e += 1;
                }
                proof {
                    assert(run_end(lv, e as int, CharClass::WordChar) == e as int);
                }
                let ghost pre = tmp.deep_view();
                let w = crate::token::copy_range(&line, i, e);
                tmp.push(w);
                proof {
                    assert(tmp.deep_view() =~~= pre.push(lv.subrange(i as int, e as int)));
                    assert((pre + (seq![lv.subrange(i as int, e as int)] + split_from(lv,
                        e as int))) =~= (tmp.deep_view() + split_from(lv, e as int)));
                }
                i = e;
            }
        }
        proof {
            assert(split_from(lv, ln as int) =~= Seq::<Seq<u8>>::empty());
            assert(tmp.deep_view() + split_from(lv, ln as int) =~= tmp.deep_view());
        }
        let ghost tmp0 = tmp.deep_view();
        let ghost n0 = tmp0.len();
        while tmp.len() > 0
            invariant
                self.toks == old(self).toks,
                self.syns == old(self).syns,
                self.input == old(self).input,
                self.env == old(self).env,
                self.out == old(self).out,
                self.pos as int == line_end(inp, start as int),
                self.pos <= self.input@.len(),
                inp == old(self).input@,
                start == old(self).pos,
                tmp@.len() <= n0,
                tmp.deep_view() == tmp0.take(tmp@.len() as int),
                self.words.deep_view() == tmp0.reverse().take(n0 - tmp@.len()),
                n0 == tmp0.len(),
            decreases tmp@.len(),
        {
            let ghost ll = tmp@.len() as int;
            let ghost tl = tmp;
            let w = tmp.pop().unwrap();
            self.words.push(w);
            proof {
                assert(tl.deep_view() == tmp0.take(ll));
                assert(w.deep_view() == tl.deep_view()[ll - 1]);
                assert(tmp.deep_view() =~~= tmp0.take(ll - 1));
                assert(w@ =~= tmp0[ll - 1]);
                assert(tmp0.reverse()[n0 - ll] == tmp0[ll - 1]);
                assert(tmp0.reverse().take(n0 - ll + 1) =~= tmp0.reverse().take(n0 - ll).push(
                    tmp0[ll - 1],
                ));
                assert(self.words.deep_view() =~~= tmp0.reverse().take(n0 - ll).push(tmp0[ll - 1]));
            }
        }
        proof {
            assert(tmp0.reverse().take(n0 - 0) =~= tmp0.reverse());
            assert(words_of(inp.subrange(start as int, line_end(inp, start as int))) == tmp0);
        }
    }

    /// One word pull with `reads` line reads left in the budget.
    fn next_word_go(&mut self, reads: u32) -> (r: Result<Vec<u8>, EvalError>)
        requires
            old(self).pos <= old(self).input@.len(),
        ensures
            final(self).toks == old(self).toks,
            final(self).syns == old(self).syns,
            final(self).input == old(self).input,
            final(self).env == old(self).env,
            final(self).out == old(self).out,
            final(self).pos <= final(self).input@.len(),
            ({
                let res = spec_next_word(
                    old(self).input@,
                    old(self).pos as int,
                    old(self).words.deep_view(),
                    reads as nat,
                );
                match r {
                    Ok(w) => res == Some(
                        (w@, final(self).pos as int, final(self).words.deep_view()),
                    ),
                    Err(e) => e == EvalError::InputExhausted && res is None,
                }
            }),
        decreases reads,
    {
        let ghost words0 = self.words.deep_view();
        let popped = self.words.pop();
        match popped {
            Some(w) => {
                proof {
                    assert(words0.len() > 0);
                    assert(self.words.deep_view() =~= words0.drop_last());
                }
                Ok(w)
            },
            None => {
                proof {
                    assert(words0.len() == 0);
                }
                if reads == 0 {
                    Err(EvalError::InputExhausted)
                } else {
                    self.read_line_words();
                    self.next_word_go(reads - 1)
                }
            },
        }
    }

    /// Pulls the next whitespace-delimited word from the input, reading
    /// further lines on demand, and fails once the bounded retry budget
    /// is exhausted.
    fn next_word(&mut self) -> (r: Result<Vec<u8>, EvalError>)
        requires
            old(self).pos <= old(self).input@.len(),
        ensures
            final(self).toks == old(self).toks,
            final(self).syns == old(self).syns,
            final(self).input == old(self).input,
            final(self).env == old(self).env,
            final(self).out == old(self).out,
            final(self).pos <= final(self).input@.len(),
            ({
                let res = spec_next_word(
                    old(self).input@,
                    old(self).pos as int,
                    old(self).words.deep_view(),
                    read_budget(),
                );
                match r {
                    Ok(w) => res == Some(
                        (w@, final(self).pos as int, final(self).words.deep_view()),
                    ),
                    Err(e) => e == EvalError::InputExhausted && res is None,
                }
            }),
    {
        self.next_word_go(9)
    }
}


impl Evaluator {
    /// Applies the builtin dispatch to the top `len` stack values (head
    /// first, then the arguments in order), exactly as `spec_do_app`
    /// describes it.
    pub fn do_app(&mut self, stack: &mut Vec<Val>, len: usize) -> (r: Result<(), EvalError>)
        requires
            old(self).pos <= old(self).input@.len(),
        ensures
            final(self).toks == old(self).toks,
            final(self).syns == old(self).syns,
            final(self).input == old(self).input,
            final(self).pos <= final(self).input@.len(),
            ({
                let res = spec_do_app(
                    old(self).input@,
                    old(self).st(old(stack).deep_view()),
                    len as nat,
                );
                match r {
                    Ok(u) => res == Ok::<SState, EvalError>(
                        final(self).st(final(stack).deep_view()),
                    ),
                    Err(e) => res == Err::<SState, EvalError>(e),
                }
            }),
    {
        let ghost st0 = old(self).st(old(stack).deep_view());
        if len == 0 {
            return Ok(());
        }
        if stack.len() < len {
            return Err(EvalError::StackUnderflow);
        }
        let base = stack.len() - len;
        let args = stack.split_off(base + 1);
        let head = stack.pop().unwrap();
        let ghost argsm = st0.stack.subrange(base as int + 1, st0.stack.len() as int);
        let ghost restm = st0.stack.take(base as int);
        proof {
            assert(args.deep_view() =~= argsm);
            assert(stack.deep_view() =~= restm);
            assert(val_view(head) == st0.stack[base as int]);
        }
        match head {
            Val::Id(name) => {
                if crate::value::bytes_eq(&name, &bv8(114, 101, 97, 100, 95, 105, 110, 116)) {
                    match self.next_word() {
                        Err(e) => Err(e),
                        Ok(w) => match crate::num::parse_i64(&w) {
                            None => Err(EvalError::ReadIntBadWord),
                            Some(v) => {
                                stack.push(Val::Int(v));
                                proof {
                                    assert(stack.deep_view() =~= restm.push(ValM::Int(v)));
                                }
                                Ok(())
                            },
                        },
                    }
                } else if crate::value::bytes_eq(
                    &name,
                    &bv8(114, 101, 97, 100, 95, 115, 116, 114),
                ) {
                    match self.next_word() {
                        Err(e) => Err(e),
                        Ok(w) => {
                            let ghost wm = w@;
                            stack.push(Val::Str(w));
                            proof {
                                assert(stack.deep_view() =~= restm.push(ValM::Str(wm)));
                            }
                            Ok(())
                        },
                    }
                } else if crate::value::bytes_eq(&name, &bv7(112, 114, 105, 110, 116, 108, 110)) {
                    let ghost out0 = self.out@;
                    let an = args.len();
                    let mut i: usize = 0;
                    proof {
                        assert(println_items(argsm.take(0)) =~= Seq::<u8>::empty());
                        assert(self.out@ =~= out0 + println_items(argsm.take(0)));
                    }
                    while i < an
                        invariant
                            0 <= i <= an,
                            an == args@.len(),
                            argsm == args.deep_view(),
                            self.out@ == out0 + println_items(argsm.take(i as int)),
                            self.toks == old(self).toks,
                            self.syns == old(self).syns,
                            self.input == old(self).input,
                            self.env == old(self).env,
                            self.pos == old(self).pos,
                            self.words == old(self).words,
                            old(self).pos <= old(self).input@.len(),
                        decreases an - i,
                    {
                        crate::value::push_display(&args[i], &mut self.out);
                        self.out.push(32);
                        proof {
                            assert(argsm.take(i + 1).drop_last() =~= argsm.take(i as int));
                            assert(argsm.take(i + 1).last() == val_view(args@[i as int]));
                            assert(out0 + println_items(argsm.take(i + 1)) =~= ((out0
                                + println_items(argsm.take(i as int))) + spec_display(
                                val_view(args@[i as int]),
                            )).push(32u8));
                        }
                        i += 1;
                    }
                    self.out.push(10);
                    stack.push(Val::Int(0));
                    proof {
                        assert(argsm.take(an as int) =~= argsm);
                        assert(self.out@ =~= (out0 + println_items(argsm)) + seq![10u8]);
                        assert((out0 + println_items(argsm)) + seq![10u8] =~= out0
                            + println_items(argsm) + seq![10u8]);
                        assert(stack.deep_view() =~= restm.push(ValM::Int(0)));
                    }
                    Ok(())
                } else if crate::value::bytes_eq(&name, &bv3(115, 117, 109)) {
                    let an = args.len();
                    let mut acc: i128 = 0;
                    let mut i: usize = 0;
                    proof {
                        assert(argsm.take(0) =~= Seq::<ValM>::empty());
                    }
                    while i < an
                        invariant
                            0 <= i <= an,
                            an == args@.len(),
                            argsm == args.deep_view(),
                            spec_sum(argsm.take(i as int)) == Some(acc as int),
                            -(i as int) * 0x8000_0000_0000_0000 <= acc as int <= (i as int)
                                * 0x7fff_ffff_ffff_ffff,
                            self.toks == old(self).toks,
                            self.syns == old(self).syns,
                            self.input == old(self).input,
                            self.env == old(self).env,
                            self.pos == old(self).pos,
                            self.words == old(self).words,
                            self.out == old(self).out,
                            old(self).pos <= old(self).input@.len(),
                            val_view(head) == st0.stack[st0.stack.len() - len],
                            st0 == old(self).st(old(stack).deep_view()),
                            head == Val::Id(name),
                            name@ == kw_sum(),
                            len as int <= st0.stack.len(),
                            1 <= len,
                            argsm == st0.stack.subrange(st0.stack.len() - len + 1, st0.stack.len() as int),
                        decreases an - i,
                    {
                        let ghost pre = argsm.take(i as int);
                        proof {
                            assert(argsm.take(i + 1).drop_last() =~= pre);
                            assert(argsm.take(i + 1).last() == val_view(args@[i as int]));
                        }
                        match &args[i] {
                            Val::Int(x) => {
                                acc = acc + (*x as i128);
                            },
                            _ => {
                                proof {
                                    assert(!(argsm[i as int] is Int));
                                    lemma_sum_not_int(argsm, i as int);
                                }
                                return Err(EvalError::SumArgNotInt);
                            },
                        }
                        i += 1;
                    }
                    proof {
                        assert(argsm.take(an as int) =~= argsm);
                    }
                    if acc >= -0x8000_0000_0000_0000i128 && acc <= 0x7fff_ffff_ffff_ffffi128 {
                        stack.push(Val::Int(acc as i64));
                        proof {
                            assert(stack.deep_view() =~= restm.push(ValM::Int(acc as i64)));
                        }
                        Ok(())
                    } else {
                        Err(EvalError::SumOverflow)
                    }
                } else if crate::value::bytes_eq(&name, &bv4(106, 111, 105, 110)) {
                    if args.len() == 0 {
                        return Err(EvalError::JoinMissingSeparator);
                    }
                    match &args[0] {
                        Val::Str(sep) => {
                            let mut buf: Vec<u8> = Vec::new();
                            let an = args.len();
                            let mut i: usize = 1;
                            proof {
                                assert(argsm[0] == ValM::Str(sep@));
                                assert(buf@ =~= Seq::<u8>::empty());
                                assert(join_from(sep@, argsm, 1) =~= buf@ + join_from(
                                    sep@,
                                    argsm,
                                    1,
                                ));
                            }
                            while i < an
                                invariant
                                    1 <= i <= an,
                                    an == args@.len(),
                                    argsm == args.deep_view(),
                                    argsm.len() == an,
                                    argsm[0] == ValM::Str(sep@),
                                    join_from(sep@, argsm, 1) == buf@ + join_from(
                                        sep@,
                                        argsm,
                                        i as int,
                                    ),
                                decreases an - i,
                            {
                                let ghost b0 = buf@;
                                if i > 1 {
                                    crate::value::append_bytes(&mut buf, sep);
                                }
                                crate::value::push_display(&args[i], &mut buf);
                                proof {
                                    assert(argsm[i as int] == val_view(args@[i as int]));
                                    if i > 1 {
                                        assert(buf@ =~= b0 + (sep@ + spec_display(
                                            argsm[i as int],
                                        )));
                                        assert(b0 + ((sep@ + spec_display(argsm[i as int]))
                                            + join_from(sep@, argsm, i + 1)) =~= buf@ + join_from(
                                            sep@,
                                            argsm,
                                            i + 1,
                                        ));
                                    } else {
                                        assert(buf@ =~= b0 + (Seq::<u8>::empty() + spec_display(
                                            argsm[i as int],
                                        )));
                                        assert(b0 + ((Seq::<u8>::empty() + spec_display(
                                            argsm[i as int],
                                        )) + join_from(sep@, argsm, i + 1)) =~= buf@ + join_from(
                                            sep@,
                                            argsm,
                                            i + 1,
                                        ));
                                    }
                                }
                                i += 1;
                            }
                            proof {
                                assert(buf@ + join_from(sep@, argsm, an as int) =~= buf@);
                            }
                            let ghost bm = buf@;
                            stack.push(Val::Str(buf));
                            proof {
                                assert(stack.deep_view() =~= restm.push(ValM::Str(bm)));
                            }
                            Ok(())
                        },
                        _ => Err(EvalError::JoinSeparatorNotStr),
                    }
                } else if crate::value::bytes_eq(&name, &bv3(108, 101, 116)) {
                    if args.len() < 2 {
                        return Err(EvalError::LetMissingArgs);
                    }
                    match &args[0] {
                        Val::Id(nm) => {
                            let key = crate::value::copy_bytes(nm);
                            let bound = args[1].dup();
                            let ghost env0 = self.env@;
                            self.env.push((key, bound));
                            let pushed = args[1].dup();
                            stack.push(pushed);
                            proof {
                                assert(argsm[0] == ValM::Id(nm@));
                                assert(argsm[1] == val_view(args@[1]));
                                assert(self.env@.drop_last() =~= env0);
                                assert(env_map(self.env@) == env_map(env0).insert(
                                    nm@,
                                    argsm[1],
                                ));
                                assert(stack.deep_view() =~= restm.push(argsm[1]));
                            }
                            Ok(())
                        },
                        _ => Err(EvalError::LetNameNotId),
                    }
                } else if crate::value::bytes_eq(&name, &bv3(118, 101, 99)) {
                    let ghost argsq = args@;
                    stack.push(Val::Vector(args));
                    proof {
                        crate::value::lemma_vals_view_index(argsq);
                        assert(vals_view(argsq) =~= argsm);
                        assert(stack.deep_view() =~= restm.push(ValM::Vector(argsm)));
                    }
                    Ok(())
                } else {
                    proof {
                        assert(val_view(head) == ValM::Id(name@));
                    }
                    Err(EvalError::UnknownIdentifier)
                }
            },
            _ => Err(EvalError::HeadNotIdentifier),
        }
    }
}


impl Evaluator {
    /// Evaluates the node at `syn_id`, exactly as `spec_eval_exp`
    /// describes it: errors abort, values push, applications evaluate
    /// their children left to right and dispatch.
    pub fn eval_exp(&mut self, stack: &mut Vec<Val>, syn_id: usize) -> (r: Result<
        (),
        EvalError,
    >)
        requires
            old(self).ewf(),
            syn_id < old(self).smodel().len(),
        ensures
            final(self).toks == old(self).toks,
            final(self).syns == old(self).syns,
            final(self).input == old(self).input,
            final(self).ewf(),
            ({
                let res = spec_eval_exp(
                    old(self).tmodel(),
                    old(self).smodel(),
                    old(self).input@,
                    old(self).st(old(stack).deep_view()),
                    syn_id as int,
                );
                match r {
                    Ok(u) => res == Ok::<SState, EvalError>(
                        final(self).st(final(stack).deep_view()),
                    ),
                    Err(e) => res == Err::<SState, EvalError>(e),
                }
            }),
        decreases syn_id,
    {
        let ghost tm = self.tmodel();
        let ghost sm = self.smodel();
        let ghost inp0 = self.input@;
        let ghost st0 = self.st(stack.deep_view());
        proof {
            assert(wf_node(sm[syn_id as int], syn_id as int, tm.len() as int));
        }
        let kids: Option<Vec<usize>> = match &self.syns[syn_id] {
            Syn::Error(m, t) => {
                return Err(EvalError::UnmatchedBracket);
            },
            Syn::Val(tok_id) => {
                let t = *tok_id;
                proof {
                    assert(sm[syn_id as int] == SynM::Val(t as int));
                    assert(tm[t as int] == self.toks@[t as int].tok@);
                }
                match &self.toks[t].tok {
                    Tok::Error(m2) => {
                        return Err(EvalError::LexError);
                    },
                    Tok::Id(name) => {
                        match env_get(&self.env, name) {
                            Some(v) => {
                                stack.push(v);
                                proof {
                                    assert(stack.deep_view() =~= st0.stack.push(
                                        st0.env[name@],
                                    ));
                                }
                            },
                            None => {
                                let v = Val::Id(crate::value::copy_bytes(name));
                                stack.push(v);
                                proof {
                                    assert(stack.deep_view() =~= st0.stack.push(ValM::Id(name@)));
                                }
                            },
                        }
                    },
                    Tok::Int(x) => {
                        stack.push(Val::Int(*x));
                        proof {
                            assert(stack.deep_view() =~= st0.stack.push(ValM::Int(
                                self.toks@[t as int].tok@->Int_0,
                            )));
                        }
                    },
                    Tok::Str(s2) => {
                        let v = Val::Str(crate::value::copy_bytes(s2));
                        stack.push(v);
                        proof {
                            assert(stack.deep_view() =~= st0.stack.push(ValM::Str(s2@)));
                        }
                    },
                    Tok::Pun(p) => {},
                    Tok::Eof => {},
                }
                None
            },
            Syn::App(items) => Some(copy_usizes(items)),
        };
        match kids {
            None => Ok(()),
            Some(items) => {
                let ghost csm = items@.map(|k: int, x: usize| x as int);
                proof {
                    assert(sm[syn_id as int] == SynM::App(csm));
                }
                let n = items.len();
                let mut i: usize = 0;
                proof {
                    assert(csm.skip(0) =~= csm);
                }
                while i < n
                    invariant
                        0 <= i <= n,
                        n == items@.len(),
                        csm == items@.map(|k: int, x: usize| x as int),
                        self.ewf(),
                        self.toks == old(self).toks,
                        self.syns == old(self).syns,
                        self.input == old(self).input,
                        tm == self.tmodel(),
                        sm == self.smodel(),
                        inp0 == self.input@,
                        sm[syn_id as int] == SynM::App(csm),
                        syn_id < sm.len(),
                        wf_node(sm[syn_id as int], syn_id as int, tm.len() as int),
                        st0 == old(self).st(old(stack).deep_view()),
                        spec_eval_children(tm, sm, inp0, st0, csm, syn_id as int)
                            == spec_eval_children(
                            tm,
                            sm,
                            inp0,
                            self.st(stack.deep_view()),
                            csm.skip(i as int),
                            syn_id as int,
                        ),
                    decreases n - i,
                {
                    proof {
                        assert(csm[i as int] == items@[i as int] as int);
                        assert(0 <= csm[i as int] < syn_id as int);
                        assert(csm.skip(i as int)[0] == csm[i as int]);
                        assert(csm.skip(i as int).drop_first() =~= csm.skip(i + 1));
                    }
                    let c = items[i];
                    match self.eval_exp(stack, c) {
                        Ok(u) => {},
                        Err(e) => {
                            return Err(e);
                        },
                    }
                    i += 1;
                }
                proof {
                    assert(csm.skip(n as int) =~= Seq::<int>::empty());
                }
                self.do_app(stack, n)
            },
        }
    }

    /// Evaluates the whole document: root node (the last appended), one
    /// sentinel `Int 0` on the stack, and yields the output bytes or the
    /// abort reason.
    pub fn eval(self) -> (r: Result<Vec<u8>, EvalError>)
        requires
            self.ewf(),
            self.smodel().len() >= 1,
        ensures
            ({
                let res = spec_eval_exp(
                    self.tmodel(),
                    self.smodel(),
                    self.input@,
                    self.st(seq![ValM::Int(0)]),
                    self.smodel().len() - 1,
                );
                match r {
                    Ok(o) => res is Ok && (res matches Ok(st2) ==> o@ == st2.out),
                    Err(e) => res == Err::<SState, EvalError>(e),
                }
            }),
    {
        let mut me = self;
        let mut stack: Vec<Val> = Vec::new();
        stack.push(Val::Int(0));
        proof {
            assert(stack.deep_view() =~= seq![ValM::Int(0)]);
        }
        let root = me.syns.len() - 1;
        match me.eval_exp(&mut stack, root) {
            Ok(u) => Ok(me.out),
            Err(e) => Err(e),
        }
    }
}

/// Evaluates `source` against the input text `stdin` and returns the
/// produced output, or the reason the run aborted; exactly
/// `spec_eval_program(source, stdin)`.
pub fn eval(source: &Vec<u8>, stdin: &Vec<u8>) -> (r: Result<Vec<u8>, EvalError>)
    ensures
        ({
            let res = spec_eval_program(source@, stdin@);
            match r {
                Ok(o) => res is Ok && (res matches Ok(ob) ==> o@ == ob),
                Err(e) => res == Err::<Seq<u8>, EvalError>(e),
            }
        }),
{
    let (toks, syns) = crate::syntax::parse(source);
    let input = crate::value::copy_bytes(stdin);
    let ev = Evaluator::new(toks, syns, input);
    proof {
        assert(ev.tmodel() =~= tok_seq(crate::token::spec_tokens(source@, 0)));
        assert(ev.smodel() == spec_parse(tok_seq(crate::token::spec_tokens(source@, 0))));
        assert(env_map(ev.env@) =~= Map::<Seq<u8>, ValM>::empty());
        assert(ev.out@ =~= Seq::<u8>::empty());
        assert(ev.st(seq![ValM::Int(0)]) == SState {
            stack: seq![ValM::Int(0)],
            env: Map::empty(),
            pos: 0,
            words: Seq::empty(),
            out: Seq::empty(),
        });
    }
    ev.eval()
}


/// Law: `let` overwrites.  Binding a value to a name and then binding
/// another value to the same name leaves the environment with exactly the
/// second binding, and a later lookup of the name yields the last bound
/// value.  (Each application also pushes the bound value.)
pub proof fn lemma_let_overwrites(inp: Seq<u8>, st: SState, n: Seq<u8>, v1: ValM, v2: ValM)
    ensures
        ({
            let st1 = SState {
                stack: st.stack.push(ValM::Id(kw_let())).push(ValM::Id(n)).push(v1),
                ..st
            };
            let r1 = spec_do_app(inp, st1, 3);
            &&& r1 is Ok
            &&& (r1 matches Ok(sta) ==> {
                let st2 = SState {
                    stack: sta.stack.push(ValM::Id(kw_let())).push(ValM::Id(n)).push(v2),
                    ..sta
                };
                let r2 = spec_do_app(inp, st2, 3);
                &&& sta.env == st.env.insert(n, v1)
                &&& sta.stack == st.stack.push(v1)
                &&& r2 is Ok
                &&& (r2 matches Ok(stb) ==> stb.env == st.env.insert(n, v2) && stb.env[n] == v2
                    && stb.stack == st.stack.push(v1).push(v2))
            })
        }),
{
    let st1 = SState {
        stack: st.stack.push(ValM::Id(kw_let())).push(ValM::Id(n)).push(v1),
        ..st
    };
    let s1 = st1.stack;
    assert(s1.len() == st.stack.len() + 3);
    let base = s1.len() - 3;
    assert(s1[base as int] == ValM::Id(kw_let()));
    assert(s1.subrange(base as int + 1, s1.len() as int) =~= seq![ValM::Id(n), v1]);
    assert(s1.take(base as int) =~= st.stack);
    let args1 = s1.subrange(base as int + 1, s1.len() as int);
    assert(args1[0] == ValM::Id(n));
    assert(args1[1] == v1);
    let r1 = spec_do_app(inp, st1, 3);
    assert(r1 is Ok);
    let sta = r1->Ok_0;
    assert(sta.env == st.env.insert(n, v1));
    assert(sta.stack == st.stack.push(v1));
    let st2 = SState {
        stack: sta.stack.push(ValM::Id(kw_let())).push(ValM::Id(n)).push(v2),
        ..sta
    };
    let s2 = st2.stack;
    let base2 = s2.len() - 3;
    assert(s2[base2 as int] == ValM::Id(kw_let()));
    assert(s2.subrange(base2 as int + 1, s2.len() as int) =~= seq![ValM::Id(n), v2]);
    assert(s2.take(base2 as int) =~= sta.stack);
    let r2 = spec_do_app(inp, st2, 3);
    assert(r2 is Ok);
    let stb = r2->Ok_0;
    assert(stb.env =~= st.env.insert(n, v2));
    assert(stb.env[n] == v2);
}

/// Tokens that the evaluator cannot tell apart: equal, or both
/// punctuation (every punctuation value-node is a no-op).
pub open spec fn tok_pun_equiv(a: TokM, b: TokM) -> bool {
    a == b || (a is Pun && b is Pun)
}

pub open spec fn toks_pun_equiv(a: Seq<TokM>, b: Seq<TokM>) -> bool {
    a.len() == b.len() && forall|i: int| 0 <= i < a.len() ==> tok_pun_equiv(
        #[trigger] a[i],
        #[trigger] b[i],
    )
}

/// Evaluation reads no punctuation content: over one node table, two
/// punctuation-equivalent token lists evaluate identically.
pub proof fn lemma_eval_pun_indifferent(
    ta: Seq<TokM>,
    tb: Seq<TokM>,
    syns: Seq<SynM>,
    inp: Seq<u8>,
    st: SState,
    syn_id: int,
)
    requires
        toks_pun_equiv(ta, tb),
        table_wf(syns, ta.len() as int),
        0 <= syn_id < syns.len(),
    ensures
        spec_eval_exp(ta, syns, inp, st, syn_id) == spec_eval_exp(tb, syns, inp, st, syn_id),
    decreases syn_id, 1int, 0int,
{
    assert(wf_node(syns[syn_id], syn_id, ta.len() as int));
    match syns[syn_id] {
        SynM::Error(m, t) => {},
        SynM::Val(t) => {
            assert(tok_pun_equiv(ta[t], tb[t]));
        },
        SynM::App(cs) => {
            lemma_eval_children_pun_indifferent(ta, tb, syns, inp, st, cs, syn_id);
        },
    }
}

pub proof fn lemma_eval_children_pun_indifferent(
    ta: Seq<TokM>,
    tb: Seq<TokM>,
    syns: Seq<SynM>,
    inp: Seq<u8>,
    st: SState,
    cs: Seq<int>,
    bound: int,
)
    requires
        toks_pun_equiv(ta, tb),
        table_wf(syns, ta.len() as int),
        bound <= syns.len(),
        forall|j: int| 0 <= j < cs.len() ==> 0 <= #[trigger] cs[j] < bound,
    ensures
        spec_eval_children(ta, syns, inp, st, cs, bound) == spec_eval_children(
            tb,
            syns,
            inp,
            st,
            cs,
            bound,
        ),
    decreases bound, 0int, cs.len(),
{
    if cs.len() == 0 {
    } else {
        assert(0 <= cs[0] < bound);
        lemma_eval_pun_indifferent(ta, tb, syns, inp, st, cs[0]);
        match spec_eval_exp(ta, syns, inp, st, cs[0]) {
            Err(e) => {},
            Ok(st2) => {
                assert(forall|j: int|
                    0 <= j < cs.drop_first().len() ==> 0 <= #[trigger] cs.drop_first()[j]
                        < bound);
                lemma_eval_children_pun_indifferent(ta, tb, syns, inp, st2, cs.drop_first(), bound);
            },
        }
    }
}

/// Law: grouping symbols are interchangeable in kind.  Two token lists
/// that agree except that brackets may differ in kind (opening for
/// opening, closing for closing) parse to the same node table and
/// evaluate identically from the same starting state.
pub proof fn lemma_bracket_kind_indifference(
    t1: Seq<TokM>,
    t2: Seq<TokM>,
    inp: Seq<u8>,
    st: SState,
)
    requires
        crate::syntax::toks_bracket_equiv(t1, t2),
        t1.len() >= 1,
    ensures
        spec_parse(t1) == spec_parse(t2),
        ({
            let syns = spec_parse(t1);
            spec_eval_exp(t1, syns, inp, st, syns.len() - 1) == spec_eval_exp(
                t2,
                syns,
                inp,
                st,
                syns.len() - 1,
            )
        }),
{
    crate::syntax::lemma_parse_bracket_indifferent(t1, t2);
    crate::syntax::lemma_parse_wf(t1);
    let syns = spec_parse(t1);
    assert(toks_pun_equiv(t1, t2)) by {
        assert forall|i: int| 0 <= i < t1.len() implies tok_pun_equiv(
            #[trigger] t1[i],
            #[trigger] t2[i],
        ) by {
            assert(crate::syntax::tok_bracket_equiv(t1[i], t2[i]));
        }
    }
    lemma_eval_pun_indifferent(t1, t2, syns, inp, st, syns.len() - 1);
}

} // verus!

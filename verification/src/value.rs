//! Runtime values: a closed tagged union of identifier, integer, byte
//! string and vector, with a verified deep copy and a verified display
//! form (the form `println` and `join` write).

use vstd::prelude::*;
use crate::num::dec_repr;

verus! {

broadcast use vstd::std_specs::vec::group_vec_axioms;

/// A runtime value.  Values are plain data with no sharing.
#[derive(Debug)]
pub enum Val {
    /// An unresolved/free symbol (also how builtin names flow to a head
    /// position).
    Id(Vec<u8>),
    Int(i64),
    /// A byte string.
    Str(Vec<u8>),
    /// An ordered sequence of values.
    Vector(Vec<Val>),
}

/// The mathematical view of a value.
pub ghost enum ValM {
    Id(Seq<u8>),
    Int(i64),
    Str(Seq<u8>),
    Vector(Seq<ValM>),
}

pub open spec fn val_view(v: Val) -> ValM
    decreases v, 0int,
        via val_view_dec
{
    match v {
        Val::Id(s) => ValM::Id(s@),
        Val::Int(x) => ValM::Int(x),
        Val::Str(s) => ValM::Str(s@),
        Val::Vector(vs) => ValM::Vector(vals_view(vs@)),
    }
}

pub open spec fn vals_view(vs: Seq<Val>) -> Seq<ValM>
    decreases vs, 1int,
{
    if vs.len() == 0 {
        Seq::empty()
    } else {
        vals_view(vs.drop_last()).push(val_view(vs.last()))
    }
}

#[via_fn]
proof fn val_view_dec(v: Val) {
    match v {
        Val::Vector(vs) => {
            assert(decreases_to!(v => vs));
            assert(decreases_to!(vs => vs@));
        },
        _ => {},
    }
}

impl View for Val {
    type V = ValM;

    open spec fn view(&self) -> ValM {
        val_view(*self)
    }
}

impl DeepView for Val {
    type V = ValM;

    open spec fn deep_view(&self) -> ValM {
        val_view(*self)
    }
}

/// Appends a copy of `s` to `out`.
pub fn append_bytes(out: &mut Vec<u8>, s: &Vec<u8>)
    ensures
        final(out)@ == old(out)@ + s@,
{
    let n = s.len();
    let mut i: usize = 0;
    while i < n
        invariant
            n == s@.len(),
            0 <= i <= n,
            out@ == old(out)@ + s@.take(i as int),
        decreases n - i,
    {
        out.push(s[i]);
        proof {
            assert(old(out)@ + s@.take(i + 1) =~= (old(out)@ + s@.take(i as int)).push(
                s@[i as int],
            ));
        }
        i += 1;
    }
    proof {
        assert(s@.take(n as int) =~= s@);
    }
}

/// Byte-string equality, proved against the views.
pub fn bytes_eq(a: &Vec<u8>, b: &Vec<u8>) -> (r: bool)
    ensures
        r == (a@ == b@),
{
    let n = a.len();
    if n != b.len() {
        proof {
            assert(a@.len() != b@.len());
        }
        return false;
    }
    let mut i: usize = 0;
    while i < n
        invariant
            n == a@.len() == b@.len(),
            0 <= i <= n,
            forall|j: int| 0 <= j < i ==> a@[j] == b@[j],
        decreases n - i,
    {
        if a[i] != b[i] {
            return false;
        }
        i += 1;
    }
    proof {
        assert(a@ =~= b@);
    }
    true
}

/// Duplicates a byte vector.
pub fn copy_bytes(s: &Vec<u8>) -> (r: Vec<u8>)
    ensures
        r@ == s@,
{
    let r = crate::token::copy_range(s, 0, s.len());
    proof {
        assert(s@.subrange(0, s@.len() as int) =~= s@);
    }
    r
}

impl Val {
    /// A deep copy: the copy has the same view as the original.
    pub fn dup(&self) -> (r: Val)
        ensures
            r@ == self@,
        decreases *self,
    {
        match self {
            Val::Id(s) => Val::Id(copy_bytes(s)),
            Val::Int(x) => Val::Int(*x),
            Val::Str(s) => Val::Str(copy_bytes(s)),
            Val::Vector(vs) => {
                proof {
                    assert(decreases_to!(*self => vs@));
                }
                let n = vs.len();
                let mut out: Vec<Val> = Vec::new();
                let mut i: usize = 0;
                while i < n
                    invariant
                        n == vs@.len(),
                        0 <= i <= n,
                        out@.len() == i,
                        forall|j: int| 0 <= j < i ==> #[trigger] val_view(out@[j]) == val_view(
                            vs@[j],
                        ),
                        *self == Val::Vector(*vs),
                        decreases_to!(*self => vs@),
                    decreases n - i,
                {
                    proof {
                        assert(decreases_to!(vs@ => vs@[i as int]));
                    }
                    let c = vs[i].dup();
                    out.push(c);
                    i += 1;
                }
                let r = Val::Vector(out);
                proof {
                    lemma_vals_view_pointwise(out@, vs@);
                }
                r
            },
        }
    }
}

/// Two value lists with pointwise equal views have equal views.
pub proof fn lemma_vals_view_pointwise(a: Seq<Val>, b: Seq<Val>)
    requires
        a.len() == b.len(),
        forall|j: int| 0 <= j < a.len() ==> #[trigger] val_view(a[j]) == val_view(b[j]),
    ensures
        vals_view(a) == vals_view(b),
    decreases a,
{
    if a.len() > 0 {
        assert forall|j: int| 0 <= j < a.drop_last().len() implies #[trigger] val_view(
            a.drop_last()[j],
        ) == val_view(b.drop_last()[j]) by {
            assert(a.drop_last()[j] == a[j]);
            assert(b.drop_last()[j] == b[j]);
        }
        lemma_vals_view_pointwise(a.drop_last(), b.drop_last());
        assert(val_view(a.last()) == val_view(b.last()));
    }
}

/// The view list of a value list, index by index.
pub proof fn lemma_vals_view_index(vs: Seq<Val>)
    ensures
        vals_view(vs).len() == vs.len(),
        forall|j: int| 0 <= j < vs.len() ==> #[trigger] vals_view(vs)[j] == val_view(vs[j]),
    decreases vs,
{
    if vs.len() > 0 {
        lemma_vals_view_index(vs.drop_last());
        assert forall|j: int| 0 <= j < vs.len() implies #[trigger] vals_view(vs)[j] == val_view(
            vs[j],
        ) by {
            if j < vs.len() - 1 {
                assert(vals_view(vs)[j] == vals_view(vs.drop_last())[j]);
                assert(vs.drop_last()[j] == vs[j]);
            }
        }
    }
}

/// The display form of a value: an identifier or byte string is its raw
/// bytes, an integer its decimal text, and a vector `[` + the items'
/// display forms, unseparated, + `]`.
pub open spec fn spec_display(v: ValM) -> Seq<u8>
    decreases v, 0int,
{
    match v {
        ValM::Id(s) => s,
        ValM::Int(x) => dec_repr(x as int),
        ValM::Str(s) => s,
        ValM::Vector(es) => seq![91u8] + display_items(es) + seq![93u8],
    }
}

/// The concatenated display forms of a sequence of values, in order.
pub open spec fn display_items(es: Seq<ValM>) -> Seq<u8>
    decreases es, 1int,
{
    if es.len() == 0 {
        Seq::empty()
    } else {
        display_items(es.drop_last()) + spec_display(es.last())
    }
}

/// Appends the display form of `v` to `out`.
pub fn push_display(v: &Val, out: &mut Vec<u8>)
    ensures
        final(out)@ == old(out)@ + spec_display(v@),
    decreases *v,
{
    match v {
        Val::Id(s) => append_bytes(out, s),
        Val::Int(x) => crate::num::push_dec(out, *x),
        Val::Str(s) => append_bytes(out, s),
        Val::Vector(vs) => {
            let ghost vv = vals_view(vs@);
            proof {
                lemma_vals_view_index(vs@);
                assert(decreases_to!(*v => vs@));
            }
            out.push(91);
            let ghost out1 = out@;
            let n = vs.len();
            let mut i: usize = 0;
            while i < n
                invariant
                    n == vs@.len(),
                    0 <= i <= n,
                    vv == vals_view(vs@),
                    vv.len() == n,
                    forall|j: int| 0 <= j < n ==> #[trigger] vv[j] == val_view(vs@[j]),
                    out@ == out1 + display_items(vv.take(i as int)),
                    *v == Val::Vector(*vs),
                    decreases_to!(*v => vs@),
                decreases n - i,
            {
                proof {
                    assert(decreases_to!(vs@ => vs@[i as int]));
                }
                push_display(&vs[i], out);
                proof {
                    assert(vv.take(i + 1).drop_last() =~= vv.take(i as int));
                    assert(vv.take(i + 1).last() == val_view(vs@[i as int]));
                    assert(out1 + display_items(vv.take(i + 1)) =~= (out1 + display_items(
                        vv.take(i as int),
                    )) + spec_display(val_view(vs@[i as int])));
                }
                i += 1;
            }
            out.push(93);
            proof {
                assert(vv.take(n as int) =~= vv);
                assert(old(out)@ + spec_display(v@) =~= ((old(out)@.push(91u8) + display_items(
                    vv,
                )).push(93u8)));
            }
        },
    }
}

} // verus!

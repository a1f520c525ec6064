//! What sampling yields for each kind of node, whatever the draws.

use vstd::prelude::*;
use crate::bounded::wrap_into;
use crate::grammar::{
    coin_at, coin_fits, decimal, deeper, digit, int_at, int_fits, int_hi, int_lo, lookup, many_hi,
    many_lo, pick_at, pick_fits, run, run_chain, run_many, well_formed, Scope, Spec,
};
use crate::sample::rendered;
use crate::source::Draw;

verus! {

/// A token yields exactly itself, unmarked, and consumes no draw.
pub proof fn token_yields_itself(t: String, sc: Scope, d: Seq<Draw>, p: int)
    requires
        0 <= p,
    ensures
        run(Spec::Token(t), sc, d, p) == (seq![(t@, false)], p),
{
}

/// An integer node consumes exactly one draw, which must be an integer, and
/// yields that integer wrapped into its bounds, in decimal.
pub proof fn int_consumes_one_integer(
    min: Option<i32>,
    max: Option<i32>,
    sc: Scope,
    d: Seq<Draw>,
    p: int,
)
    requires
        0 <= p,
        int_lo(min) <= int_hi(max),
    ensures
        run(Spec::Int { min, max }, sc, d, p).1 >= 0 <==> int_fits(d, p),
        int_fits(d, p) ==> ({
            let v = wrap_into(int_at(d, p), int_lo(min), int_hi(max));
            &&& int_lo(min) <= v <= int_hi(max)
            &&& run(Spec::Int { min, max }, sc, d, p) == (seq![(decimal(v), false)], p + 1)
        }),
{
    if int_fits(d, p) {
        let m = int_hi(max) - int_lo(min) + 1;
        assert(0 <= (int_at(d, p) - int_lo(min)) % m < m);
    }
}

/// An enumeration consumes exactly one draw, a pick among its values, and
/// yields exactly one of its values.
pub proof fn enum_yields_a_value(values: Vec<String>, sc: Scope, d: Seq<Draw>, p: int)
    requires
        0 <= p,
        values.len() > 0,
    ensures
        run(Spec::Enum(values), sc, d, p).1 >= 0 <==> pick_fits(d, p, values.len() as int),
        pick_fits(d, p, values.len() as int) ==> {
            &&& run(Spec::Enum(values), sc, d, p).1 == p + 1
            &&& run(Spec::Enum(values), sc, d, p).0.len() == 1
            &&& exists|k: int|
                0 <= k < values.len() && #[trigger] values[k]@ == run(
                    Spec::Enum(values),
                    sc,
                    d,
                    p,
                ).0[0].0
        },
{
    if pick_fits(d, p, values.len() as int) {
        let k = pick_at(d, p);
        assert(values[k]@ == run(Spec::Enum(values), sc, d, p).0[0].0);
    }
}

/// A chain of two tokens yields them in order.
pub proof fn chain_keeps_order(parts: Vec<Spec>, a: String, b: String, sc: Scope, d: Seq<Draw>, p: int)
    requires
        0 <= p,
        parts@ == seq![Spec::Token(a), Spec::Token(b)],
    ensures
        run(Spec::Chain(parts), sc, d, p).0 == seq![(a@, false), (b@, false)],
{
    let s = Spec::Chain(parts);
    reveal_with_fuel(run_chain, 3);
    assert(parts[0] == Spec::Token(a));
    assert(parts[1] == Spec::Token(b));
    assert(run_chain(s, 1, sc, d, p).0 =~= seq![(a@, false)]);
    assert(run_chain(s, 2, sc, d, p).0 =~= seq![(a@, false), (b@, false)]);
}

/// A repetition of a token pinned to exactly two yields the token, the
/// delimiter (marked as the grammar's own), and the token again.
pub proof fn many_pinned_to_two(
    inner: Box<Spec>,
    x: String,
    delim: String,
    sc: Scope,
    d: Seq<Draw>,
    p: int,
)
    requires
        *inner == Spec::Token(x),
        int_fits(d, p),
    ensures
        run(Spec::Many { spec: inner, min: Some(2u32), max: Some(2u32), delim }, sc, d, p).0
            == seq![(x@, false), (delim@, true), (x@, false)],
{
    let s = Spec::Many { spec: inner, min: Some(2u32), max: Some(2u32), delim };
    assert(wrap_into(int_at(d, p), 2, 2) == 2);
    reveal_with_fuel(run_many, 3);
    assert(run_many(s, 1, sc, d, p + 1).0 =~= seq![(x@, false)]);
    assert(run_many(s, 2, sc, d, p + 1).0 =~= seq![(x@, false), (delim@, true), (x@, false)]);
}

/// An option consumes exactly one coin before anything else: on heads it
/// yields what its sub-grammar yields, on tails nothing.
pub proof fn opt_yields_all_or_nothing(inner: Box<Spec>, sc: Scope, d: Seq<Draw>, p: int)
    requires
        0 <= p,
    ensures
        run(Spec::Opt(inner), sc, d, p).1 >= 0 ==> coin_fits(d, p),
        coin_fits(d, p) && coin_at(d, p) ==> run(Spec::Opt(inner), sc, d, p) == run(
            *inner,
            sc,
            d,
            p + 1,
        ),
        coin_fits(d, p) && !coin_at(d, p) ==> run(Spec::Opt(inner), sc, d, p) == (
            Seq::<(Seq<char>, bool)>::empty(),
            p + 1,
        ),
{
}

/// A player node consumes one pick over the roster and yields exactly one
/// name of the roster.
pub proof fn player_yields_a_roster_name(sc: Scope, d: Seq<Draw>, p: int)
    requires
        0 <= p,
        sc.players.len() > 0,
        run(Spec::Player, sc, d, p).1 >= 0,
    ensures
        pick_fits(d, p, sc.players.len() as int),
        run(Spec::Player, sc, d, p).0.len() == 1,
        sc.players.contains(run(Spec::Player, sc, d, p).0[0].0),
{
    let k = pick_at(d, p);
    assert(sc.players[k] == run(Spec::Player, sc, d, p).0[0].0);
}

/// `move`, a space, and an integer from 1 to 3 are written as `move 1`,
/// `move 2` or `move 3`.
pub proof fn move_one_to_three(parts: Vec<Spec>, mv: String, sc: Scope, d: Seq<Draw>, p: int)
    requires
        mv@ == seq!['m', 'o', 'v', 'e'],
        parts@ == seq![
            Spec::Token(mv),
            Spec::Space,
            Spec::Int { min: Some(1i32), max: Some(3i32) },
        ],
        int_fits(d, p),
    ensures
        ({
            let c = rendered(run(Spec::Chain(parts), sc, d, p).0);
            c == seq!['m', 'o', 'v', 'e', ' ', '1'] || c == seq!['m', 'o', 'v', 'e', ' ', '2'] || c
                == seq!['m', 'o', 'v', 'e', ' ', '3']
        }),
{
    let s = Spec::Chain(parts);
    reveal_with_fuel(run_chain, 4);
    assert(parts[0] == Spec::Token(mv));
    assert(parts[1] == Spec::Space);
    assert(parts[2] == Spec::Int { min: Some(1i32), max: Some(3i32) });
    let v = wrap_into(int_at(d, p), 1, 3);
    assert(1 <= v <= 3);
    assert(digit(1) == '1' && digit(2) == '2' && digit(3) == '3');
    assert(decimal(v) == seq![digit(v)]);
    assert(run_chain(s, 1, sc, d, p) == (seq![(mv@, false)], p));
    assert(run_chain(s, 2, sc, d, p).0 =~= seq![(mv@, false), (seq![' '], true)]);
    assert(run_chain(s, 2, sc, d, p).1 == p);
    assert(run(parts[2], sc, d, p).0 == seq![(decimal(v), false)]);
    assert(run_chain(s, 3, sc, d, p).0 =~= seq![
        (mv@, false),
        (seq![' '], true),
        (decimal(v), false),
    ]);
    assert(run(s, sc, d, p) == run_chain(s, 3, sc, d, p));
    let t = run(s, sc, d, p).0;
    assert(t =~= seq![(mv@, false), (seq![' '], true), (seq![digit(v)], false)]);
    reveal_with_fuel(rendered, 3);
    assert(t.drop_last() =~= seq![(mv@, false), (seq![' '], true)]);
    assert(t.drop_last().drop_last() =~= seq![(mv@, false)]);
    assert(rendered(t.drop_last()) =~= mv@ + seq![' ']);
    let c = rendered(t);
    assert(c =~= mv@ + seq![' '] + seq![digit(v)]);
    if v == 1 {
        assert(c =~= seq!['m', 'o', 'v', 'e', ' ', '1']);
    } else if v == 2 {
        assert(c =~= seq!['m', 'o', 'v', 'e', ' ', '2']);
    } else {
        assert(c =~= seq!['m', 'o', 'v', 'e', ' ', '3']);
    }
}

/// The size of `s` with each reference replaced by what it names and each
/// repetition unrolled to its upper bound: one for each node, and for a
/// `Many` node its bound times the unrolled size of its sub-grammar and a
/// delimiter.
pub open spec fn unrolled_size(s: Spec, sc: Scope) -> nat
    decreases sc.depth, s, 1int, 0int,
{
    match s {
        Spec::OneOf(_) => 1 + children_size(s, s->OneOf_0.len() as int, sc),
        Spec::Chain(_) => 1 + children_size(s, s->Chain_0.len() as int, sc),
        Spec::Opt(inner) => 1 + unrolled_size(*inner, sc),
        Spec::Ref(name) => 1 + if sc.depth > 0 && lookup(sc.table, name@) is Some {
            unrolled_size(lookup(sc.table, name@)->Some_0, deeper(sc))
        } else {
            0
        },
        Spec::Many { spec, max, .. } => 1 + (if many_hi(max) >= 0 {
            many_hi(max) as nat
        } else {
            0
        }) * (unrolled_size(*spec, sc) + 1),
        Spec::Doc { spec, .. } => 1 + unrolled_size(*spec, sc),
        _ => 1,
    }
}

/// The unrolled sizes of the first `n` children of a `OneOf` or `Chain` node.
pub open spec fn children_size(s: Spec, n: int, sc: Scope) -> nat
    decreases sc.depth, s, 0int, n,
{
    match s {
        Spec::OneOf(c) => if n <= 0 || n > c.len() {
            0
        } else {
            children_size(s, n - 1, sc) + unrolled_size(c[n - 1], sc)
        },
        Spec::Chain(c) => if n <= 0 || n > c.len() {
            0
        } else {
            children_size(s, n - 1, sc) + unrolled_size(c[n - 1], sc)
        },
        _ => 0,
    }
}

pub(crate) proof fn lemma_child_within(s: Spec, c: Vec<Spec>, i: int, n: int, sc: Scope)
    requires
        s == Spec::OneOf(c),
        0 <= i < n <= c.len(),
    ensures
        unrolled_size(c[i], sc) <= children_size(s, n, sc),
    decreases n,
{
    if i < n - 1 {
        lemma_child_within(s, c, i, n - 1, sc);
    }
}

proof fn lemma_chain_within(s: Spec, c: Vec<Spec>, n: int, sc: Scope, d: Seq<Draw>, p: int)
    requires
        s == Spec::Chain(c),
        0 <= n <= c.len(),
        0 <= p,
        well_formed(s, sc),
    ensures
        run_chain(s, n, sc, d, p).1 >= 0 ==> p <= run_chain(s, n, sc, d, p).1 <= p + children_size(s, n, sc),
        run_chain(s, n, sc, d, p).1 >= 0 ==> run_chain(s, n, sc, d, p).0.len() <= children_size(s, n, sc),
    decreases sc.depth, s, 0int, n,
{
    if n > 0 {
        lemma_chain_within(s, c, n - 1, sc, d, p);
        let q = run_chain(s, n - 1, sc, d, p).1;
        assert(well_formed(Spec::Chain(c), sc));
        assert(forall|k: int| 0 <= k < c.len() ==> well_formed(#[trigger] c[k], sc));
        assert(well_formed(c[n - 1], sc));
        if q >= 0 {
            sample_stays_within(c[n - 1], sc, d, q);
        } else {
            assert(run(c[n - 1], sc, d, q).1 == q);
        }
    }
}

proof fn lemma_many_within(
    s: Spec,
    inner: Spec,
    k: int,
    sc: Scope,
    d: Seq<Draw>,
    p: int,
)
    requires
        s is Many,
        *s->Many_spec == inner,
        well_formed(inner, sc),
        0 <= k,
        0 <= p,
    ensures
        run_many(s, k, sc, d, p).1 >= 0 ==> p <= run_many(s, k, sc, d, p).1 <= p + k * (unrolled_size(inner, sc) + 1),
        run_many(s, k, sc, d, p).1 >= 0 ==> run_many(s, k, sc, d, p).0.len() <= k * (unrolled_size(inner, sc) + 1),
    decreases sc.depth, s, 0int, k,
{
    if k > 0 {
        lemma_many_within(s, inner, k - 1, sc, d, p);
        let q = run_many(s, k - 1, sc, d, p).1;
        if q >= 0 {
            sample_stays_within(inner, sc, d, q);
        } else {
            assert(run(inner, sc, d, q).1 == q);
        }
        let c = unrolled_size(inner, sc) + 1;
        assert(k * c == (k - 1) * c + c) by (nonlinear_arith);
    }
}

/// Sampling a well-formed grammar, on draws of the kinds it asks for,
/// consumes at most its unrolled size in draws and yields at most that many
/// tokens: the work is bounded by the size of the grammar times its
/// repetition bounds.
pub proof fn sample_stays_within(s: Spec, sc: Scope, d: Seq<Draw>, p: int)
    requires
        0 <= p,
        well_formed(s, sc),
    ensures
        run(s, sc, d, p).1 >= 0 ==> p <= run(s, sc, d, p).1 <= p + unrolled_size(s, sc),
        run(s, sc, d, p).1 >= 0 ==> run(s, sc, d, p).0.len() <= unrolled_size(s, sc),
    decreases sc.depth, s, 1int, 0int,
{
    match s {
        Spec::OneOf(c) => {
            if pick_fits(d, p, c.len() as int) {
                let i = pick_at(d, p);
                assert(well_formed(c[i], sc));
                sample_stays_within(c[i], sc, d, p + 1);
                lemma_child_within(s, c, i, c.len() as int, sc);
            }
        },
        Spec::Chain(c) => {
            lemma_chain_within(s, c, c.len() as int, sc, d, p);
        },
        Spec::Opt(inner) => {
            if coin_fits(d, p) {
                sample_stays_within(*inner, sc, d, p + 1);
            }
        },
        Spec::Many { spec, min, max, .. } => {
            let lo = many_lo(min);
            let hi = many_hi(max);
            if int_fits(d, p) {
                let k = crate::bounded::wrap_into(int_at(d, p), lo, hi);
                assert(lo <= k <= hi) by {
                    let r = int_at(d, p) - lo;
                    let m = hi - lo + 1;
                    assert(0 <= r % m < m);
                }
                lemma_many_within(s, *spec, k, sc, d, p + 1);
                let c = unrolled_size(*spec, sc) + 1;
                assert(k * c <= hi * c) by (nonlinear_arith)
                    requires
                        0 <= k <= hi,
                        c >= 1,
                ;
            }
        },
        Spec::Doc { spec, .. } => {
            sample_stays_within(*spec, sc, d, p);
        },
        Spec::Ref(name) => {
            if sc.depth > 0 && lookup(sc.table, name@) is Some {
                sample_stays_within(lookup(sc.table, name@)->Some_0, deeper(sc), d, p);
            }
        },
        _ => {},
    }
}

} // verus!


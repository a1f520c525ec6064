//! Command grammars and their interpretation over a sequence of draws.

use vstd::prelude::*;
use crate::bounded::wrap_into;
use crate::source::Draw;

verus! {

/// One node of a command grammar.
#[allow(inconsistent_fields)]
pub enum Spec {
    /// A decimal integer in `[min, max]`; an absent bound is the `i32` extreme.
    Int { min: Option<i32>, max: Option<i32> },
    /// A fixed literal.
    Token(String),
    /// One of the given literals.
    Enum(Vec<String>),
    /// One of the given sub-grammars, expanded.
    OneOf(Vec<Spec>),
    /// Every sub-grammar expanded, in order.
    Chain(Vec<Spec>),
    /// The sub-grammar expanded, or nothing, on a coin flip.
    Opt(Box<Spec>),
    /// Between `min` (default 0) and `max` (default 3) expansions of `spec`,
    /// with `delim` between consecutive ones.
    Many { spec: Box<Spec>, min: Option<u32>, max: Option<u32>, delim: String },
    /// A documented sub-grammar; the documentation never shows in a sample.
    Doc { spec: Box<Spec>, name: String, desc: Option<String> },
    /// The grammar of that name in the table given at sampling time.
    Ref(String),
    /// One player of the roster given at sampling time.
    Player,
    /// A single space.
    Space,
}

/// The lower bound of an `Int` node.
pub open spec fn int_lo(min: Option<i32>) -> int {
    match min {
        Some(m) => m as int,
        None => i32::MIN as int,
    }
}

/// The upper bound of an `Int` node.
pub open spec fn int_hi(max: Option<i32>) -> int {
    match max {
        Some(m) => m as int,
        None => i32::MAX as int,
    }
}

/// The lower bound of a `Many` node's count.
pub open spec fn many_lo(min: Option<u32>) -> int {
    match min {
        Some(m) => m as int,
        None => 0,
    }
}

/// The upper bound of a `Many` node's count.
pub open spec fn many_hi(max: Option<u32>) -> int {
    match max {
        Some(m) => m as int,
        None => 3,
    }
}

/// What sampling sees besides the grammar: the table of named grammars that
/// `Ref` nodes name, how many more references may be followed on the way
/// down, and the views of the roster's names.
pub struct Scope {
    pub table: Seq<(String, Spec)>,
    pub depth: nat,
    pub players: Seq<Seq<char>>,
}

/// The scope below one more reference.
pub open spec fn deeper(sc: Scope) -> Scope {
    Scope { table: sc.table, depth: (sc.depth - 1) as nat, players: sc.players }
}

/// The scope of a table, a depth and a roster.
pub open spec fn scope(table: Seq<(String, Spec)>, depth: nat, players: Seq<String>) -> Scope {
    Scope { table, depth, players: views(players) }
}

/// The grammar named `name` in `table` from index `i` on: the first entry
/// with that name.
pub open spec fn lookup_from(table: Seq<(String, Spec)>, name: Seq<char>, i: int) -> Option<Spec>
    decreases table.len() - i,
{
    if i < 0 || i >= table.len() {
        None
    } else if table[i].0@ == name {
        Some(table[i].1)
    } else {
        lookup_from(table, name, i + 1)
    }
}

/// The grammar named `name` in `table`: its first entry with that name.
pub open spec fn lookup(table: Seq<(String, Spec)>, name: Seq<char>) -> Option<Spec> {
    lookup_from(table, name, 0)
}

/// A grammar that can be sampled in scope `sc`: choices are non-empty,
/// bounds are ordered, counts fit an `i32`, a `Player` node has someone to
/// pick, and every reference names an entry of the table, with at most
/// `sc.depth` references followed on any path (so none is cyclic).
pub open spec fn well_formed(s: Spec, sc: Scope) -> bool
    decreases sc.depth, s,
{
    match s {
        Spec::Int { min, max } => int_lo(min) <= int_hi(max),
        Spec::Token(_) => true,
        Spec::Enum(values) => values.len() > 0,
        Spec::OneOf(options) => options.len() > 0 && forall|i: int|
            0 <= i < options.len() ==> well_formed(#[trigger] options[i], sc),
        Spec::Chain(parts) => forall|i: int|
            0 <= i < parts.len() ==> well_formed(#[trigger] parts[i], sc),
        Spec::Opt(inner) => well_formed(*inner, sc),
        Spec::Many { spec, min, max, .. } => many_lo(min) <= many_hi(max) <= i32::MAX
            && well_formed(*spec, sc),
        Spec::Doc { spec, .. } => well_formed(*spec, sc),
        Spec::Ref(name) => sc.depth > 0 && lookup(sc.table, name@) is Some && well_formed(
            lookup(sc.table, name@)->Some_0,
            deeper(sc),
        ),
        Spec::Player => sc.players.len() > 0,
        Spec::Space => true,
    }
}

/// The decimal digit `n`, for `n < 10`.
pub open spec fn digit(n: int) -> char {
    seq!['0', '1', '2', '3', '4', '5', '6', '7', '8', '9'][n]
}

/// The decimal digits of `n`, without leading zeros.
pub open spec fn digits(n: nat) -> Seq<char>
    decreases n,
{
    if n < 10 {
        seq![digit(n as int)]
    } else {
        digits(n / 10).push(digit((n % 10) as int))
    }
}

/// `v` written in decimal, with a leading `-` when negative.
pub open spec fn decimal(v: int) -> Seq<char> {
    if v < 0 {
        seq!['-'] + digits((-v) as nat)
    } else {
        digits(v as nat)
    }
}

/// Whether the draw at position `p` is an integer.
pub open spec fn int_fits(d: Seq<Draw>, p: int) -> bool {
    0 <= p < d.len() && d[p] is Int
}

/// The integer drawn at position `p`.
pub open spec fn int_at(d: Seq<Draw>, p: int) -> int {
    d[p]->Int_0 as int
}

/// Whether the draw at position `p` is a coin.
pub open spec fn coin_fits(d: Seq<Draw>, p: int) -> bool {
    0 <= p < d.len() && d[p] is Coin
}

/// The coin drawn at position `p`.
pub open spec fn coin_at(d: Seq<Draw>, p: int) -> bool {
    d[p]->Coin_0
}

/// Whether the draw at position `p` picks an index below `n` among `n`.
pub open spec fn pick_fits(d: Seq<Draw>, p: int, n: int) -> bool {
    0 <= p < d.len() && d[p] is Pick && d[p]->Pick_1 == n && d[p]->Pick_0 < n
}

/// The index picked at position `p`.
pub open spec fn pick_at(d: Seq<Draw>, p: int) -> int {
    d[p]->Pick_0 as int
}

/// The views of a sequence of strings.
pub open spec fn views(v: Seq<String>) -> Seq<Seq<char>> {
    v.map_values(|t: String| t@)
}

/// The views of a sequence of tokens, each with its glue mark.
pub open spec fn pieces(v: Seq<(String, bool)>) -> Seq<(Seq<char>, bool)> {
    v.map_values(|t: (String, bool)| (t.0@, t.1))
}

/// What sampling `s` yields when the draws are `d` from position `p` on: the
/// tokens, each marked when it is a delimiter that the grammar supplies
/// itself (a `Space`, or a `Many` node's `delim`), and the position of the
/// first draw left unused. A draw of another kind than the node asks for, or
/// a pick over another range, yields the position `-1`, which every later
/// node passes on unchanged.
pub open spec fn run(s: Spec, sc: Scope, d: Seq<Draw>, p: int) -> (Seq<(Seq<char>, bool)>, int)
    decreases sc.depth, s, 1int, 0int,
{
    if p < 0 {
        (seq![], p)
    } else {
        match s {
            Spec::Int { min, max } => if int_fits(d, p) {
                (seq![(decimal(wrap_into(int_at(d, p), int_lo(min), int_hi(max))), false)], p + 1)
            } else {
                (seq![], -1)
            },
            Spec::Token(t) => (seq![(t@, false)], p),
            Spec::Enum(values) => if pick_fits(d, p, values.len() as int) {
                (seq![(values[pick_at(d, p)]@, false)], p + 1)
            } else {
                (seq![], -1)
            },
            Spec::OneOf(options) => if pick_fits(d, p, options.len() as int) {
                run(options[pick_at(d, p)], sc, d, p + 1)
            } else {
                (seq![], -1)
            },
            Spec::Chain(parts) => run_chain(s, parts.len() as int, sc, d, p),
            Spec::Opt(inner) => if !coin_fits(d, p) {
                (seq![], -1)
            } else if coin_at(d, p) {
                run(*inner, sc, d, p + 1)
            } else {
                (seq![], p + 1)
            },
            Spec::Many { min, max, .. } => if int_fits(d, p) {
                run_many(s, wrap_into(int_at(d, p), many_lo(min), many_hi(max)), sc, d, p + 1)
            } else {
                (seq![], -1)
            },
            Spec::Doc { spec, .. } => run(*spec, sc, d, p),
            Spec::Ref(name) => if sc.depth > 0 && lookup(sc.table, name@) is Some {
                run(lookup(sc.table, name@)->Some_0, deeper(sc), d, p)
            } else {
                (seq![], p)
            },
            Spec::Player => if pick_fits(d, p, sc.players.len() as int) {
                (seq![(sc.players[pick_at(d, p)], false)], p + 1)
            } else {
                (seq![], -1)
            },
            Spec::Space => (seq![(seq![' '], true)], p),
        }
    }
}

/// The first `n` parts of a `Chain` node, sampled in order from position `p`.
pub open spec fn run_chain(s: Spec, n: int, sc: Scope, d: Seq<Draw>, p: int) -> (
    Seq<(Seq<char>, bool)>,
    int,
)
    decreases sc.depth, s, 0int, n,
{
    match s {
        Spec::Chain(parts) => if p < 0 || n <= 0 || n > parts.len() {
            (seq![], p)
        } else {
            let (front, q) = run_chain(s, n - 1, sc, d, p);
            let (back, r) = run(parts[n - 1], sc, d, q);
            (front + back, r)
        },
        _ => (seq![], p),
    }
}

/// `k` expansions of a `Many` node's sub-grammar, delimited, from position `p`.
pub open spec fn run_many(s: Spec, k: int, sc: Scope, d: Seq<Draw>, p: int) -> (
    Seq<(Seq<char>, bool)>,
    int,
)
    decreases sc.depth, s, 0int, k,
{
    match s {
        Spec::Many { spec, delim, .. } => if p < 0 || k <= 0 {
            (seq![], p)
        } else {
            let (front, q) = run_many(s, k - 1, sc, d, p);
            let (back, r) = run(*spec, sc, d, q);
            (if k == 1 {
                back
            } else {
                front.push((delim@, true)) + back
            }, r)
        },
        _ => (seq![], p),
    }
}

/// Whether `s` can be sampled with the named grammars of `table`, following
/// at most `depth` references on any path, and the roster `players`.
pub fn is_well_formed(
    s: &Spec,
    table: &Vec<(String, Spec)>,
    depth: usize,
    players: &Vec<String>,
) -> (r: bool)
    ensures
        r == well_formed(*s, scope(table@, depth as nat, players@)),
    decreases depth, s,
{
    match s {
        Spec::Int { min, max } => {
            let lo: i32 = match min {
                Some(m) => *m,
                None => i32::MIN,
            };
            let hi: i32 = match max {
                Some(m) => *m,
                None => i32::MAX,
            };
            lo <= hi
        },
        Spec::Token(_) => true,
        Spec::Enum(values) => values.len() > 0,
        Spec::OneOf(children) => {
            assert forall|k: int| #![trigger children[k]] 0 <= k < children.len() implies decreases_to!(*s => children[k]) by {
                vstd::std_specs::vec::axiom_vec_index_decreases(*children, k);
            }
            let mut i: usize = 0;
            while i < children.len()
                invariant
                    forall|k: int| #![trigger children[k]] 0 <= k < children.len() ==> decreases_to!(*s => children[k]),
                    0 <= i <= children.len(),
                    *s == Spec::OneOf(*children),
                    well_formed(*s, scope(table@, depth as nat, players@)) == (children.len() > 0 && (forall|k: int|
                        0 <= k < children.len() ==> well_formed(
                            #[trigger] children[k],
                            scope(table@, depth as nat, players@),
                        ))),
                    forall|k: int| 0 <= k < i ==> well_formed(#[trigger] children[k], scope(table@, depth as nat, players@)),
                decreases children.len() - i,
            {
                if !is_well_formed(&children[i], table, depth, players) {
                    assert(!well_formed(children[i as int], scope(table@, depth as nat, players@)));
                    return false;
                }
                i = i + 1;
            }
            children.len() > 0
        },
        Spec::Chain(children) => {
            assert forall|k: int| #![trigger children[k]] 0 <= k < children.len() implies decreases_to!(*s => children[k]) by {
                vstd::std_specs::vec::axiom_vec_index_decreases(*children, k);
            }
            let mut i: usize = 0;
            while i < children.len()
                invariant
                    forall|k: int| #![trigger children[k]] 0 <= k < children.len() ==> decreases_to!(*s => children[k]),
                    0 <= i <= children.len(),
                    *s == Spec::Chain(*children),
                    well_formed(*s, scope(table@, depth as nat, players@)) == ((forall|k: int|
                        0 <= k < children.len() ==> well_formed(
                            #[trigger] children[k],
                            scope(table@, depth as nat, players@),
                        ))),
                    forall|k: int| 0 <= k < i ==> well_formed(#[trigger] children[k], scope(table@, depth as nat, players@)),
                decreases children.len() - i,
            {
                if !is_well_formed(&children[i], table, depth, players) {
                    assert(!well_formed(children[i as int], scope(table@, depth as nat, players@)));
                    return false;
                }
                i = i + 1;
            }
            true
        },
        Spec::Opt(inner) => is_well_formed(inner, table, depth, players),
        Spec::Many { spec: inner, min, max, .. } => {
            let lo: u32 = match min {
                Some(m) => *m,
                None => 0,
            };
            let hi: u32 = match max {
                Some(m) => *m,
                None => 3,
            };
            lo <= hi && hi <= i32::MAX as u32 && is_well_formed(inner, table, depth, players)
        },
        Spec::Doc { spec: inner, .. } => is_well_formed(inner, table, depth, players),
        Spec::Ref(name) => {
            if depth == 0 {
                return false;
            }
            match find_entry(table, name) {
                Some(i) => is_well_formed(&table[i].1, table, depth - 1, players),
                None => false,
            }
        },
        Spec::Player => players.len() > 0,
        Spec::Space => true,
    }
}

/// The index of the first entry of `table` named `name`, if there is one.
pub fn find_entry(table: &Vec<(String, Spec)>, name: &String) -> (r: Option<usize>)
    ensures
        match r {
            Some(i) => i < table.len() && lookup(table@, name@) == Some(table@[i as int].1),
            None => lookup(table@, name@) is None,
        },
{
    let mut i: usize = 0;
    while i < table.len()
        invariant
            0 <= i <= table.len(),
            lookup(table@, name@) == lookup_from(table@, name@, i as int),
        decreases table.len() - i,
    {
        if table[i].0 == *name {
            return Some(i);
        }
        i = i + 1;
    }
    None
}

} // verus!


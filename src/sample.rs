//! Sampling a grammar into tokens and commands.

use vstd::prelude::*;
use crate::bounded::{bounded_i32, wrap_into};
use crate::grammar::{
    coin_at, decimal, deeper, find_entry, int_at, int_hi, int_lo, many_hi, many_lo, pick_at, run,
    run_chain, run_many, scope, pieces, well_formed, Scope, Spec,
};
use crate::laws::{children_size, lemma_child_within, unrolled_size};
use crate::source::{Draw, Source};

verus! {

/// `e` starts with all of `d`.
pub open spec fn extends(e: Seq<Draw>, d: Seq<Draw>) -> bool {
    d.len() <= e.len() && forall|i: int| 0 <= i < d.len() ==> #[trigger] e[i] == d[i]
}

/// Relies on std's `Display` for `i32` (through `to_string`): the decimal
/// digits, with a leading `-` for a negative value.
#[verifier::external_body]
fn int_token(v: i32) -> (r: String)
    ensures
        r@ == decimal(v as int),
{
    v.to_string()
}

/// Samples `s`: the tokens are what `run` gives over the draws this call
/// consumed, whatever later draws follow. Each call, recursive ones included,
/// counts itself in `calls`, and one sample makes at most the unrolled size
/// of `s` calls: the work is bounded by the size of the grammar times its
/// repetition bounds.
fn sample_node(
    s: &Spec,
    table: &Vec<(String, Spec)>,
    depth: usize,
    players: &Vec<String>,
    src: &mut Source,
    calls: &mut Ghost<nat>,
) -> (r: Vec<(String, bool)>)
    requires
        well_formed(*s, scope(table@, depth as nat, players@)),
    ensures
        old(calls)@ + 1 <= final(calls)@ <= old(calls)@ + unrolled_size(
            *s,
            scope(table@, depth as nat, players@),
        ),
        extends(final(src).drawn(), old(src).drawn()),
        forall|e: Seq<Draw>|
            extends(e, final(src).drawn()) ==> #[trigger] run(
                *s,
                scope(table@, depth as nat, players@),
                e,
                old(src).drawn().len() as int,
            ) == (pieces(r@), final(src).drawn().len() as int),
    decreases depth, s,
{
    let ghost p0 = src.drawn().len() as int;
    let ghost roster = scope(table@, depth as nat, players@);
    let ghost c0 = calls@;
    *calls = Ghost(calls@ + 1);
    match s {
        Spec::Int { min, max } => {
            let lo: i32 = match min {
                Some(m) => *m,
                None => i32::MIN,
            };
            let hi: i32 = match max {
                Some(m) => *m,
                None => i32::MAX,
            };
            let raw = src.next_int();
            let v = bounded_i32(raw, lo, hi);
            let t = int_token(v);
            let r = vec![(t, false)];
            proof {
                assert(pieces(r@) =~= seq![(decimal(v as int), false)]);
                assert forall|e: Seq<Draw>| extends(e, src.drawn()) implies #[trigger] run(
                    *s,
                    roster,
                    e,
                    p0,
                ) == (pieces(r@), src.drawn().len() as int) by {
                    assert(e[p0] == src.drawn()[p0]);
                    assert(int_at(e, p0) == raw as int);
                    assert(lo as int == int_lo(*min));
                    assert(hi as int == int_hi(*max));
                }
            }
            r
        },
        Spec::Token(t) => {
            let r = vec![(t.clone(), false)];
            proof {
                assert(pieces(r@) =~= seq![(t@, false)]);
                assert forall|e: Seq<Draw>| extends(e, src.drawn()) implies #[trigger] run(
                    *s,
                    roster,
                    e,
                    p0,
                ) == (pieces(r@), src.drawn().len() as int) by {}
            }
            r
        },
        Spec::Enum(values) => {
            let k = src.next_index(values.len());
            let r = vec![(values[k].clone(), false)];
            proof {
                assert(pieces(r@) =~= seq![(values[k as int]@, false)]);
                assert forall|e: Seq<Draw>| extends(e, src.drawn()) implies #[trigger] run(
                    *s,
                    roster,
                    e,
                    p0,
                ) == (pieces(r@), src.drawn().len() as int) by {
                    assert(e[p0] == src.drawn()[p0]);
                }
            }
            r
        },
        Spec::OneOf(options) => {
            let k = src.next_index(options.len());
            let ghost mid = src.drawn();
            assert(well_formed(options[k as int], scope(table@, depth as nat, players@)));
            let r = sample_node(&options[k], table, depth, players, src, calls);
            proof {
                lemma_child_within(*s, *options, k as int, options.len() as int, roster);
                assert forall|e: Seq<Draw>| extends(e, src.drawn()) implies #[trigger] run(
                    *s,
                    roster,
                    e,
                    p0,
                ) == (pieces(r@), src.drawn().len() as int) by {
                    assert(e[p0] == src.drawn()[p0]);
                    assert(src.drawn()[p0] == mid[p0]);
                    assert(pick_at(e, p0) == k as int);
                    assert(extends(e, mid));
                    assert(run(options[k as int], roster, e, mid.len() as int) == (
                        pieces(r@),
                        src.drawn().len() as int,
                    ));
                }
            }
            r
        },
        Spec::Chain(parts) => {
            let mut out: Vec<(String, bool)> = Vec::new();
            let mut i: usize = 0;
            assert(forall|k: int|
                0 <= k < parts.len() ==> well_formed(#[trigger] parts[k], scope(table@, depth as nat, players@)));
            assert forall|k: int| #![trigger parts[k]] 0 <= k < parts.len() implies decreases_to!(*s => parts[k]) by {
                vstd::std_specs::vec::axiom_vec_index_decreases(*parts, k);
            }
            while i < parts.len()
                invariant
                    forall|k: int| #![trigger parts[k]] 0 <= k < parts.len() ==> decreases_to!(*s => parts[k]),
                    forall|k: int|
                        0 <= k < parts.len() ==> well_formed(
                            #[trigger] parts[k],
                            scope(table@, depth as nat, players@),
                        ),
                    0 <= i <= parts.len(),
                    *s == Spec::Chain(*parts),
                    c0 + 1 <= calls@ <= c0 + 1 + children_size(*s, i as int, roster),
                    well_formed(*s, scope(table@, depth as nat, players@)),
                    roster == scope(table@, depth as nat, players@),
                    p0 == old(src).drawn().len(),
                    extends(src.drawn(), old(src).drawn()),
                    forall|e: Seq<Draw>|
                        extends(e, src.drawn()) ==> #[trigger] run_chain(
                            *s,
                            i as int,
                            roster,
                            e,
                            p0,
                        ) == (pieces(out@), src.drawn().len() as int),
                decreases parts.len() - i,
            {
                let ghost mid = src.drawn();
                let ghost before = out@;
                assert(well_formed(parts[i as int], scope(table@, depth as nat, players@)));
                let mut sub = sample_node(&parts[i], table, depth, players, src, calls);
                let ghost got = sub@;
                out.append(&mut sub);
                i = i + 1;
                proof {
                    assert(pieces(out@) =~= pieces(before) + pieces(got));
                    assert forall|e: Seq<Draw>| extends(e, src.drawn()) implies #[trigger] run_chain(
                        *s,
                        i as int,
                        roster,
                        e,
                        p0,
                    ) == (pieces(out@), src.drawn().len() as int) by {
                        assert(extends(e, mid));
                        assert(run_chain(*s, i - 1, roster, e, p0) == (
                            pieces(before),
                            mid.len() as int,
                        ));
                        assert(run(parts[i - 1], roster, e, mid.len() as int) == (
                            pieces(got),
                            src.drawn().len() as int,
                        ));
                    }
                }
            }
            proof {
                assert forall|e: Seq<Draw>| extends(e, src.drawn()) implies #[trigger] run(
                    *s,
                    roster,
                    e,
                    p0,
                ) == (pieces(out@), src.drawn().len() as int) by {
                    assert(run_chain(*s, parts.len() as int, roster, e, p0) == (
                        pieces(out@),
                        src.drawn().len() as int,
                    ));
                }
            }
            out
        },
        Spec::Opt(inner) => {
            let coin = src.next_coin();
            let ghost mid = src.drawn();
            if coin {
                let r = sample_node(inner, table, depth, players, src, calls);
                proof {
                    assert forall|e: Seq<Draw>| extends(e, src.drawn()) implies #[trigger] run(
                        *s,
                        roster,
                        e,
                        p0,
                    ) == (pieces(r@), src.drawn().len() as int) by {
                        assert(e[p0] == src.drawn()[p0]);
                        assert(src.drawn()[p0] == mid[p0]);
                        assert(extends(e, mid));
                        assert(run(**inner, roster, e, mid.len() as int) == (
                            pieces(r@),
                            src.drawn().len() as int,
                        ));
                    }
                }
                r
            } else {
                let r: Vec<(String, bool)> = Vec::new();
                proof {
                    assert(pieces(r@) =~= Seq::<(Seq<char>, bool)>::empty());
                    assert forall|e: Seq<Draw>| extends(e, src.drawn()) implies #[trigger] run(
                        *s,
                        roster,
                        e,
                        p0,
                    ) == (pieces(r@), src.drawn().len() as int) by {
                        assert(e[p0] == src.drawn()[p0]);
                    }
                }
                r
            }
        },
        Spec::Many { spec: inner, min, max, delim } => {
            let lo: u32 = match min {
                Some(m) => *m,
                None => 0,
            };
            let hi: u32 = match max {
                Some(m) => *m,
                None => 3,
            };
            let raw = src.next_int();
            let n = bounded_i32(raw, lo as i32, hi as i32);
            let ghost start = src.drawn();
            let mut out: Vec<(String, bool)> = Vec::new();
            let mut j: i32 = 0;
            assert(decreases_to!(*s => **inner));
            while j < n
                invariant
                    decreases_to!(*s => **inner),
                    j == 0 ==> out@.len() == 0,
                    0 <= j <= n,
                    *s == (Spec::Many { spec: *inner, min: *min, max: *max, delim: *delim }),
                    c0 + 1 <= calls@ <= c0 + 1 + j * (unrolled_size(**inner, roster) + 1),
                    well_formed(**inner, scope(table@, depth as nat, players@)),
                    roster == scope(table@, depth as nat, players@),
                    start.len() == p0 + 1,
                    start[p0] == Draw::Int(raw),
                    extends(start, old(src).drawn()),
                    extends(src.drawn(), start),
                    forall|e: Seq<Draw>|
                        extends(e, src.drawn()) ==> #[trigger] run_many(
                            *s,
                            j as int,
                            roster,
                            e,
                            p0 + 1,
                        ) == (pieces(out@), src.drawn().len() as int),
                decreases n - j,
            {
                let ghost mid = src.drawn();
                let ghost before = out@;
                if j != 0 {
                    out.push((delim.clone(), true));
                }
                let mut sub = sample_node(inner, table, depth, players, src, calls);
                let ghost got = sub@;
                out.append(&mut sub);
                j = j + 1;
                proof {
                    let c = unrolled_size(**inner, roster) + 1;
                    assert(j * c == (j - 1) * c + c) by (nonlinear_arith);
                    if j == 1 {
                        assert(pieces(out@) =~= pieces(got));
                    } else {
                        assert(pieces(out@) =~= pieces(before).push((delim@, true)) + pieces(got));
                    }
                    assert forall|e: Seq<Draw>| extends(e, src.drawn()) implies #[trigger] run_many(
                        *s,
                        j as int,
                        roster,
                        e,
                        p0 + 1,
                    ) == (pieces(out@), src.drawn().len() as int) by {
                        assert(extends(e, mid));
                        assert(run_many(*s, j - 1, roster, e, p0 + 1) == (
                            pieces(before),
                            mid.len() as int,
                        ));
                        assert(run(**inner, roster, e, mid.len() as int) == (
                            pieces(got),
                            src.drawn().len() as int,
                        ));
                    }
                }
            }
            proof {
                let c = unrolled_size(**inner, roster) + 1;
                assert(n as int <= hi as int);
                assert(n * c <= hi * c) by (nonlinear_arith)
                    requires
                        0 <= n <= hi,
                        c >= 1,
                ;
                assert(many_hi(*max) == hi as int);
                assert forall|e: Seq<Draw>| extends(e, src.drawn()) implies #[trigger] run(
                    *s,
                    roster,
                    e,
                    p0,
                ) == (pieces(out@), src.drawn().len() as int) by {
                    assert(e[p0] == src.drawn()[p0]);
                    assert(src.drawn()[p0] == start[p0]);
                    assert(lo as int == many_lo(*min));
                    assert(hi as int == many_hi(*max));
                    assert(int_at(e, p0) == raw as int);
                    assert(n as int == wrap_into(int_at(e, p0), many_lo(*min), many_hi(*max)));
                    assert(run_many(*s, n as int, roster, e, p0 + 1) == (
                        pieces(out@),
                        src.drawn().len() as int,
                    ));
                }
            }
            out
        },
        Spec::Doc { spec: inner, .. } => {
            let r = sample_node(inner, table, depth, players, src, calls);
            proof {
                assert forall|e: Seq<Draw>| extends(e, src.drawn()) implies #[trigger] run(
                    *s,
                    roster,
                    e,
                    p0,
                ) == (pieces(r@), src.drawn().len() as int) by {
                    assert(run(**inner, roster, e, p0) == (pieces(r@), src.drawn().len() as int));
                }
            }
            r
        },
        Spec::Ref(name) => match find_entry(table, name) {
            Some(i) => {
                let r = sample_node(&table[i].1, table, depth - 1, players, src, calls);
                proof {
                    let inner = scope(table@, (depth - 1) as nat, players@);
                    assert(inner == deeper(roster));
                    assert forall|e: Seq<Draw>| extends(e, src.drawn()) implies #[trigger] run(
                        *s,
                        roster,
                        e,
                        p0,
                    ) == (pieces(r@), src.drawn().len() as int) by {
                        assert(run(table@[i as int].1, inner, e, p0) == (
                            pieces(r@),
                            src.drawn().len() as int,
                        ));
                    }
                }
                r
            },
            None => Vec::new(),
        },
        Spec::Player => {
            let k = src.next_index(players.len());
            let r = vec![(players[k].clone(), false)];
            proof {
                assert(pieces(r@) =~= seq![(players@[k as int]@, false)]);
                assert forall|e: Seq<Draw>| extends(e, src.drawn()) implies #[trigger] run(
                    *s,
                    roster,
                    e,
                    p0,
                ) == (pieces(r@), src.drawn().len() as int) by {
                    assert(e[p0] == src.drawn()[p0]);
                }
            }
            r
        },
        Spec::Space => {
            let r = vec![(" ".to_owned(), true)];
            proof {
                reveal_strlit(" ");
                assert(r@[0].0@ =~= seq![' ']);
                assert(pieces(r@) =~= seq![(seq![' '], true)]);
                assert forall|e: Seq<Draw>| extends(e, src.drawn()) implies #[trigger] run(
                    *s,
                    roster,
                    e,
                    p0,
                ) == (pieces(r@), src.drawn().len() as int) by {}
            }
            r
        },
    }
}

/// Tokens written into one command: a single space between neighbours,
/// except next to a delimiter that the grammar supplies itself (a marked
/// token), which stands without extra spaces.
pub open spec fn rendered(toks: Seq<(Seq<char>, bool)>) -> Seq<char>
    decreases toks.len(),
{
    if toks.len() == 0 {
        Seq::empty()
    } else if toks.len() == 1 {
        toks[0].0
    } else {
        rendered(toks.drop_last()) + (if toks.last().1 || toks[toks.len() - 2].1 {
            Seq::empty()
        } else {
            seq![' ']
        }) + toks.last().0
    }
}

/// The scope of a grammar without references, sampled with `players`.
pub open spec fn roster_only(players: Seq<String>) -> Scope {
    scope(Seq::empty(), 0, players)
}

/// Samples `spec`, which holds no reference, with the draws of `src`: the
/// tokens are exactly what the grammar yields over the draws that this call
/// consumed.
pub fn sample(spec: &Spec, players: &Vec<String>, src: &mut Source) -> (r: Vec<(String, bool)>)
    requires
        well_formed(*spec, roster_only(players@)),
    ensures
        old(src).drawn().is_prefix_of(final(src).drawn()),
        run(*spec, roster_only(players@), final(src).drawn(), old(src).drawn().len() as int) == (
            pieces(r@),
            final(src).drawn().len() as int,
        ),
{
    let table: Vec<(String, Spec)> = Vec::new();
    let mut calls = Ghost(0nat);
    let r = sample_node(spec, &table, 0, players, src, &mut calls);
    proof {
        assert(old(src).drawn() =~= src.drawn().subrange(0, old(src).drawn().len() as int));
    }
    r
}

/// Samples the grammar named `entry` in `table`, following references into
/// the table, with the draws of `src`. Every name must resolve and no path
/// may follow more references than the table has entries: such a path would
/// name some entry twice, which is a cycle.
pub fn sample_entry(
    table: &Vec<(String, Spec)>,
    entry: &String,
    players: &Vec<String>,
    src: &mut Source,
) -> (r: Vec<(String, bool)>)
    requires
        well_formed(Spec::Ref(*entry), scope(table@, table.len() as nat, players@)),
    ensures
        old(src).drawn().is_prefix_of(final(src).drawn()),
        run(
            Spec::Ref(*entry),
            scope(table@, table.len() as nat, players@),
            final(src).drawn(),
            old(src).drawn().len() as int,
        ) == (pieces(r@), final(src).drawn().len() as int),
{
    let root = Spec::Ref(entry.clone());
    let mut calls = Ghost(0nat);
    let r = sample_node(&root, table, table.len(), players, src, &mut calls);
    proof {
        assert(old(src).drawn() =~= src.drawn().subrange(0, old(src).drawn().len() as int));
    }
    r
}

/// Writes tokens into one command, as `rendered` says.
pub fn join_tokens(toks: &Vec<(String, bool)>) -> (r: String)
    ensures
        r@ == rendered(pieces(toks@)),
{
    let mut out = String::new();
    let mut i: usize = 0;
    while i < toks.len()
        invariant
            0 <= i <= toks.len(),
            out@ == rendered(pieces(toks@.take(i as int))),
        decreases toks.len() - i,
    {
        let ghost before = toks@.take(i as int);
        if i != 0 && !toks[i].1 && !toks[i - 1].1 {
            out.append(" ");
        }
        out.append(toks[i].0.as_str());
        proof {
            reveal_strlit(" ");
            let now = pieces(toks@.take(i + 1));
            assert(now.drop_last() =~= pieces(before));
            assert(now.last() == (toks@[i as int].0@, toks@[i as int].1));
            if i == 0 {
                assert(pieces(before) =~= Seq::<(Seq<char>, bool)>::empty());
            } else {
                assert(now[now.len() - 2] == (toks@[i - 1].0@, toks@[i - 1].1));
            }
        }
        i = i + 1;
    }
    proof {
        assert(toks@.take(toks@.len() as int) =~= toks@);
    }
    out
}

/// Samples `spec` into one command: its tokens written as `rendered` says.
pub fn command(spec: &Spec, players: &Vec<String>, src: &mut Source) -> (r: String)
    requires
        well_formed(*spec, roster_only(players@)),
    ensures
        old(src).drawn().is_prefix_of(final(src).drawn()),
        run(*spec, roster_only(players@), final(src).drawn(), old(src).drawn().len() as int).1
            == final(src).drawn().len(),
        r@ == rendered(
            run(*spec, roster_only(players@), final(src).drawn(), old(src).drawn().len() as int).0,
        ),
{
    let toks = sample(spec, players, src);
    join_tokens(&toks)
}

/// One command sampled from `command_spec` with the thread-local generator,
/// as the only element of a list.
pub fn commands(command_spec: &Spec, players: &Vec<String>) -> (r: Vec<String>)
    requires
        well_formed(*command_spec, roster_only(players@)),
    ensures
        r@.len() == 1,
        exists|d: Seq<Draw>|
            #![trigger run(*command_spec, roster_only(players@), d, 0)]
            r@[0]@ == rendered(run(*command_spec, roster_only(players@), d, 0).0),
{
    let mut src = Source::thread();
    let c = command(command_spec, players, &mut src);
    let r = vec![c];
    proof {
        let d = src.drawn();
        assert(r@[0]@ == rendered(run(*command_spec, roster_only(players@), d, 0).0));
    }
    r
}

/// A bot that plays any game by sending random commands that fit the game's
/// command grammar, without looking at the game's state.
pub struct RandBot;

impl RandBot {
    /// One random command for the grammar `command_spec`, as a list of one.
    pub fn commands(&mut self, players: &Vec<String>, command_spec: &Spec) -> (r: Vec<String>)
        requires
            well_formed(*command_spec, roster_only(players@)),
        ensures
            r@.len() == 1,
            exists|d: Seq<Draw>|
                #![trigger run(*command_spec, roster_only(players@), d, 0)]
                r@[0]@ == rendered(run(*command_spec, roster_only(players@), d, 0).0),
    {
        commands(command_spec, players)
    }
}

} // verus!

//! What flattening keeps, what it brings in and when it ends.

use vstd::prelude::*;

use crate::flatten_model::{
    cell_name, cell_netlist, collides, fate, first_collision, fresh_reports, inlined, inner_cell,
    inner_extra, inner_piece, kept_piece, lemma_inlined, next_level, pass, path_into, piece_cell,
    piece_extra, pieces, pieces_of, reported, run, skip_of, skips, some_inlined, warned_after,
    FlattenErrorView, Level, Piece, ReasonView, Setting,
};
use crate::inline::{lemma_collision_prefix, lemma_kept_fresh, lemma_no_collision};
use crate::instance::InstanceView;
use crate::name_map::{
    has_name, lemma_filter_map_lookup, lemma_lookup_at, lemma_push_name, lookup, position,
    unique_names,
};
use crate::names::{joined_name, Name};
use crate::placement::InlinedView;
use crate::seqs::{lemma_filter_map_has, lemma_flat_map_contains, lemma_flat_map_prefix};

verus! {

/// Without a collision no two pieces among those of the first `i` instances
/// have the same name.
proof fn lemma_pieces_distinct(s: Setting, at: Level, i: int)
    requires
        unique_names(at.data.instances),
        0 <= i <= at.data.instances.len(),
        first_collision(pieces(s, at), pieces(s, at).len()) is None,
    ensures
        ({
            let done = at.data.instances.take(i).flat_map(
                |e: (Name, InstanceView)| pieces_of(s, at, e),
            );
            forall|p: int, q: int|
                0 <= p < done.len() && 0 <= q < done.len() && p != q ==> (#[trigger] done[p]).name
                    != (#[trigger] done[q]).name
        }),
    decreases i,
{
    let all = at.data.instances;
    let f = |e: (Name, InstanceView)| pieces_of(s, at, e);
    let ps = pieces(s, at);
    if i == 0 {
        assert(all.take(0).flat_map(f) =~= Seq::<Piece>::empty());
    } else {
        lemma_pieces_distinct(s, at, i - 1);
        let head = all.take(i - 1).flat_map(f);
        let own = f(all[i - 1]);
        let done = all.take(i).flat_map(f);
        all.lemma_flat_map_take_append(f, i - 1);
        lemma_flat_map_prefix(all, f, i - 1, own.len() as int);
        assert(own.take(own.len() as int) =~= own);
        assert(done =~= head + own);
        assert(done == ps.take(done.len() as int));
        lemma_no_collision(ps, ps.len());
        assert forall|p: int, q: int| 0 <= p < q < done.len() implies (#[trigger] done[p]).name != (
        #[trigger] done[q]).name by {
            if q < head.len() {
                assert(head[p].name != head[q].name);
            } else if fate(s, at, all[i - 1]) is Inline {
                assert(done[q] == own[q - head.len()]);
                assert(ps[q] == done[q] && ps[p] == done[p]);
                assert(ps[q].parent is Some);
                assert(!collides(ps, q));
            } else {
                if first_collision(ps, head.len()) is Some {
                    lemma_collision_prefix(ps, head.len(), ps.len());
                }
                lemma_kept_fresh(s, at, i - 1, head);
                assert(done[q] == kept_piece(at, all[i - 1]));
                assert(done[p] == head[p]);
            }
        }
    }
}

/// Lookups on the next level find the pieces.
proof fn lemma_next_level(s: Setting, at: Level)
    requires
        unique_names(at.data.instances),
        first_collision(pieces(s, at), pieces(s, at).len()) is None,
    ensures
        ({
            let ps = pieces(s, at);
            let next = next_level(s, at);
            &&& unique_names(next.data.instances)
            &&& unique_names(next.data.extras)
            &&& unique_names(next.cell_of)
            &&& forall|q: int|
                0 <= q < ps.len() ==> {
                    let p = #[trigger] ps[q];
                    &&& lookup(next.data.instances, p.name) == Some(p.inst)
                    &&& lookup(next.data.extras, p.name) == p.extra
                    &&& lookup(next.cell_of, p.name) == p.cell
                }
            &&& forall|n: Name|
                #![trigger has_name(next.data.instances, n)]
                #![trigger has_name(next.data.extras, n)]
                #![trigger has_name(next.cell_of, n)]
                has_name(next.data.instances, n) || has_name(next.data.extras, n) || has_name(
                    next.cell_of,
                    n,
                ) ==> exists|q: int| 0 <= q < ps.len() && (#[trigger] ps[q]).name == n
        }),
{
    let all = at.data.instances;
    let f = |e: (Name, InstanceView)| pieces_of(s, at, e);
    let ps = pieces(s, at);
    let next = next_level(s, at);
    lemma_pieces_distinct(s, at, all.len() as int);
    assert(all.take(all.len() as int) =~= all);
    let key = |p: Piece| p.name;
    lemma_filter_map_lookup(ps, key, |p: Piece| piece_extra(p));
    lemma_filter_map_lookup(ps, key, |p: Piece| piece_cell(p));
    assert forall|q: int| 0 <= q < ps.len() implies ({
        let p = #[trigger] ps[q];
        &&& lookup(next.data.instances, p.name) == Some(p.inst)
        &&& lookup(next.data.extras, p.name) == p.extra
        &&& lookup(next.cell_of, p.name) == p.cell
    }) by {
        lemma_lookup_at(next.data.instances, q);
        assert(key(ps[q]) == ps[q].name);
    }
    assert forall|n: Name|
        #![trigger has_name(next.data.instances, n)]
        #![trigger has_name(next.data.extras, n)]
        #![trigger has_name(next.cell_of, n)]
        has_name(next.data.instances, n) || has_name(next.data.extras, n) || has_name(
            next.cell_of,
            n,
        ) implies exists|q: int| 0 <= q < ps.len() && (#[trigger] ps[q]).name == n by {
        if has_name(next.data.instances, n) {
            let q = position(next.data.instances, n);
            assert(ps[q].name == n);
        } else {
            let q = choose|q: int| 0 <= q < ps.len() && key(#[trigger] ps[q]) == n;
            assert(ps[q].name == n);
        }
    }
}

/// Where a piece of an instance stands.
proof fn lemma_piece_position(s: Setting, at: Level, i: int, p: Piece) -> (q: int)
    requires
        0 <= i < at.data.instances.len(),
        pieces_of(s, at, at.data.instances[i]).contains(p),
    ensures
        0 <= q < pieces(s, at).len(),
        pieces(s, at)[q] == p,
{
    let all = at.data.instances;
    let f = |e: (Name, InstanceView)| pieces_of(s, at, e);
    let ps = pieces(s, at);
    assert(f(all[i]).contains(p));
    lemma_flat_map_contains(all, f, p);
    choose|q: int| 0 <= q < ps.len() && ps[q] == p
}

/// Where a piece comes from.
proof fn lemma_piece_origin(s: Setting, at: Level, q: int) -> (i: int)
    requires
        0 <= q < pieces(s, at).len(),
    ensures
        0 <= i < at.data.instances.len(),
        pieces_of(s, at, at.data.instances[i]).contains(pieces(s, at)[q]),
{
    let all = at.data.instances;
    let f = |e: (Name, InstanceView)| pieces_of(s, at, e);
    let ps = pieces(s, at);
    assert(ps.contains(ps[q]));
    lemma_flat_map_contains(all, f, ps[q]);
    choose|i: int| 0 <= i < all.len() && (#[trigger] f(all[i])).contains(ps[q])
}

/// An instance that is not inlined stays as it is, with what is recorded of
/// it.
pub proof fn law_survivor_stays(s: Setting, at: Level, next: Level, name: Name)
    requires
        unique_names(at.data.instances),
        pass(s, at) == Ok::<Level, FlattenErrorView>(next),
        has_name(at.data.instances, name),
        !inlined(s, at, name),
    ensures
        lookup(next.data.instances, name) == lookup(at.data.instances, name),
        lookup(next.data.extras, name) == lookup(at.data.extras, name),
        lookup(next.cell_of, name) == lookup(at.cell_of, name),
{
    if some_inlined(s, at) {
        let i = position(at.data.instances, name);
        let e = at.data.instances[i];
        lemma_inlined(s, at, i);
        lemma_next_level(s, at);
        let p = kept_piece(at, e);
        assert(pieces_of(s, at, e)[0] == p);
        let q = lemma_piece_position(s, at, i, p);
        assert(pieces(s, at)[q].name == name);
        lemma_lookup_at(at.data.instances, i);
    }
}

/// Every instance of an inlined instance's cell takes its place: under the
/// joined name, otherwise unchanged, with the cell that the cell's map or else
/// the record says, and with the inlined instance's placements before its own.
pub proof fn law_contents_take_place(s: Setting, at: Level, next: Level, parent: Name, j: int)
    requires
        unique_names(at.data.instances),
        pass(s, at) == Ok::<Level, FlattenErrorView>(next),
        inlined(s, at, parent),
        0 <= j < cell_netlist(s, at, parent).instances.len(),
    ensures
        ({
            let sub = cell_netlist(s, at, parent);
            let inner = sub.instances[j];
            let name = joined_name(parent, s.options.separator, inner.0);
            let cell = inner_cell(s, cell_name(at, parent), sub, inner.0);
            &&& lookup(next.data.instances, name) == Some(inner.1.renamed(name))
            &&& lookup(next.cell_of, name) == cell
            &&& lookup(next.data.extras, name) == Some(
                InlinedView {
                    cell: match cell {
                        Some(c) => c,
                        None => Seq::empty(),
                    },
                    path: path_into(at, parent).push(inner_extra(sub, inner.0).placement),
                },
            )
        }),
{
    let i = position(at.data.instances, parent);
    let e = at.data.instances[i];
    lemma_inlined(s, at, i);
    assert(fate(s, at, at.data.instances[i]) is Inline);
    lemma_next_level(s, at);
    let inner = cell_netlist(s, at, parent).instances[j];
    let p = inner_piece(s, at, parent, inner);
    assert(pieces_of(s, at, e)[j] == p);
    let q = lemma_piece_position(s, at, i, p);
    assert(pieces(s, at)[q] == p);
}

/// The instance `name` is an instance of the cell of an inlined instance.
pub open spec fn brought_in(s: Setting, at: Level, name: Name) -> bool {
    exists|parent: Name, j: int|
        inlined(s, at, parent) && 0 <= j < cell_netlist(s, at, parent).instances.len() && name
            == #[trigger] joined_name(
            parent,
            s.options.separator,
            cell_netlist(s, at, parent).instances[j].0,
        )
}

/// Nothing else comes in: an instance of the next level stayed, or was part of
/// an inlined instance's cell.
pub proof fn law_no_other_instances(s: Setting, at: Level, next: Level, name: Name)
    requires
        unique_names(at.data.instances),
        pass(s, at) == Ok::<Level, FlattenErrorView>(next),
        has_name(next.data.instances, name),
    ensures
        (has_name(at.data.instances, name) && !inlined(s, at, name)) || brought_in(s, at, name),
{
    if some_inlined(s, at) {
        lemma_next_level(s, at);
        let ps = pieces(s, at);
        let q = choose|q: int| 0 <= q < ps.len() && (#[trigger] ps[q]).name == name;
        let i = lemma_piece_origin(s, at, q);
        let e = at.data.instances[i];
        lemma_inlined(s, at, i);
        if fate(s, at, e) is Inline {
            let own = pieces_of(s, at, e);
            let j = choose|j: int| 0 <= j < own.len() && own[j] == ps[q];
            assert(name == joined_name(
                e.0,
                s.options.separator,
                cell_netlist(s, at, e.0).instances[j].0,
            ));
        } else {
            assert(ps[q] == kept_piece(at, e));
            assert(at.data.instances[i].0 == name);
        }
    } else {
        let i = position(at.data.instances, name);
        lemma_inlined(s, at, i);
        assert(!(fate(s, at, at.data.instances[i]) is Inline));
    }
}

/// Something is recorded on the next level of its instances alone.
pub(crate) proof fn lemma_next_names(s: Setting, at: Level, next: Level)
    requires
        unique_names(at.data.instances),
        some_inlined(s, at),
        pass(s, at) == Ok::<Level, FlattenErrorView>(next),
    ensures
        forall|n: Name| #[trigger]
            has_name(next.data.extras, n) ==> has_name(next.data.instances, n),
{
    lemma_next_level(s, at);
    let ps = pieces(s, at);
    assert forall|n: Name| #[trigger] has_name(next.data.extras, n) implies has_name(
        next.data.instances,
        n,
    ) by {
        let q = choose|q: int| 0 <= q < ps.len() && (#[trigger] ps[q]).name == n;
        assert(lookup(next.data.instances, ps[q].name) is Some);
    }
}

/// Cells are known on the next level of its instances alone.
pub(crate) proof fn lemma_next_cells(s: Setting, at: Level, next: Level)
    requires
        unique_names(at.data.instances),
        some_inlined(s, at),
        pass(s, at) == Ok::<Level, FlattenErrorView>(next),
    ensures
        forall|n: Name| #[trigger] has_name(next.cell_of, n) ==> has_name(next.data.instances, n),
{
    lemma_next_level(s, at);
    let ps = pieces(s, at);
    assert forall|n: Name| #[trigger] has_name(next.cell_of, n) implies has_name(
        next.data.instances,
        n,
    ) by {
        let q = choose|q: int| 0 <= q < ps.len() && (#[trigger] ps[q]).name == n;
        assert(lookup(next.data.instances, ps[q].name) is Some);
    }
}

/// No name occurs twice among the instances, the extras or the known cells.
pub open spec fn well_named(at: Level) -> bool {
    &&& unique_names(at.data.instances)
    &&& unique_names(at.data.extras)
    &&& unique_names(at.cell_of)
}

/// A pass keeps names unique.
pub proof fn law_pass_well_named(s: Setting, at: Level, next: Level)
    requires
        well_named(at),
        pass(s, at) == Ok::<Level, FlattenErrorView>(next),
    ensures
        well_named(next),
{
    if some_inlined(s, at) {
        lemma_next_level(s, at);
    }
}

/// All passes keep names unique.
pub proof fn law_run_well_named(s: Setting, at: Level, warned: Set<Name>, left: nat, last: Level)
    requires
        well_named(at),
        run(s, at, warned, left).result == Ok::<Level, FlattenErrorView>(last),
    ensures
        well_named(last),
    decreases left,
{
    if let Ok(next) = pass(s, at) {
        law_pass_well_named(s, at, next);
        if some_inlined(s, at) && s.options.recursive {
            law_run_well_named(s, next, warned_after(s, at, warned), (left - 1) as nat, last);
        }
    }
}

/// Each level is what a pass makes of the one before it.
pub open spec fn linked_by_passes(s: Setting, levels: Seq<Level>) -> bool {
    forall|k: int|
        0 <= k < levels.len() - 1 ==> pass(s, #[trigger] levels[k]) == Ok::<
            Level,
            FlattenErrorView,
        >(levels[k + 1])
}

/// Flattening is nothing but passes, at most `left` of them: what holds of a
/// pass holds of every step on the way to the result.
pub proof fn law_run_is_passes(
    s: Setting,
    at: Level,
    warned: Set<Name>,
    left: nat,
    last: Level,
) -> (levels: Seq<Level>)
    requires
        run(s, at, warned, left).result == Ok::<Level, FlattenErrorView>(last),
    ensures
        2 <= levels.len() <= left + 1,
        levels[0] == at,
        levels.last() == last,
        linked_by_passes(s, levels),
    decreases left,
{
    let next = pass(s, at)->Ok_0;
    if some_inlined(s, at) && s.options.recursive {
        let more = warned_after(s, at, warned);
        let rest = law_run_is_passes(s, next, more, (left - 1) as nat, last);
        let levels = seq![at] + rest;
        assert forall|k: int| 0 <= k < levels.len() - 1 implies pass(s, #[trigger] levels[k])
            == Ok::<Level, FlattenErrorView>(levels[k + 1]) by {
            if k > 0 {
                assert(levels[k] == rest[k - 1]);
            }
        }
        levels
    } else {
        seq![at, next]
    }
}

/// An instance that the first pass does not inline is left alone by all
/// passes.
pub proof fn law_left_alone(
    s: Setting,
    at: Level,
    warned: Set<Name>,
    left: nat,
    last: Level,
    name: Name,
)
    requires
        unique_names(at.data.instances),
        run(s, at, warned, left).result == Ok::<Level, FlattenErrorView>(last),
        has_name(at.data.instances, name),
        !inlined(s, at, name),
    ensures
        lookup(last.data.instances, name) == lookup(at.data.instances, name),
        lookup(last.data.extras, name) == lookup(at.data.extras, name),
        lookup(last.cell_of, name) == lookup(at.cell_of, name),
    decreases left,
{
    if let Ok(next) = pass(s, at) {
        law_survivor_stays(s, at, next, name);
        if some_inlined(s, at) {
            lemma_next_level(s, at);
            if s.options.recursive {
                assert(lookup(next.data.instances, name) is Some);
                let more = warned_after(s, at, warned);
                law_left_alone(s, next, more, (left - 1) as nat, last, name);
            }
        }
    }
}

/// The ports of the netlist stay.
pub proof fn law_ports_kept(s: Setting, at: Level, warned: Set<Name>, left: nat, last: Level)
    requires
        run(s, at, warned, left).result == Ok::<Level, FlattenErrorView>(last),
    ensures
        last.data.ports == at.data.ports,
    decreases left,
{
    if let Ok(next) = pass(s, at) {
        if some_inlined(s, at) && s.options.recursive {
            law_ports_kept(s, next, warned_after(s, at, warned), (left - 1) as nat, last);
        }
    }
}

/// Recursive flattening leaves nothing that could be inlined.
pub proof fn law_recursive_complete(
    s: Setting,
    at: Level,
    warned: Set<Name>,
    left: nat,
    last: Level,
)
    requires
        s.options.recursive,
        run(s, at, warned, left).result == Ok::<Level, FlattenErrorView>(last),
    ensures
        !some_inlined(s, last),
    decreases left,
{
    if let Ok(next) = pass(s, at) {
        if some_inlined(s, at) {
            law_recursive_complete(s, next, warned_after(s, at, warned), (left - 1) as nat, last);
        }
    }
}

/// Without recursion flattening is a single pass.
pub proof fn law_single_pass(s: Setting, at: Level, warned: Set<Name>, left: nat)
    requires
        !s.options.recursive,
        left > 0,
    ensures
        run(s, at, warned, left).result == pass(s, at),
        run(s, at, warned, left).reports == reported(s, at, warned),
{
}

/// Flattening a netlist with nothing to inline changes nothing; so what
/// recursive flattening leaves is not changed by flattening it once more.
pub proof fn law_nothing_to_inline(s: Setting, at: Level, warned: Set<Name>, left: nat)
    requires
        !some_inlined(s, at),
        left > 0,
    ensures
        run(s, at, warned, left).result == Ok::<Level, FlattenErrorView>(at),
{
}

/// The cell of an instance inside a cell.
pub open spec fn inner_at(s: Setting, cell: Name, j: int) -> Option<Name> {
    let sub = lookup(s.subs, cell).unwrap();
    inner_cell(s, cell, sub, sub.instances[j].0)
}

/// A cell with a netlist has an instance of the cell `inner`.
pub open spec fn holds_cell(s: Setting, cell: Name, inner: Name) -> bool {
    lookup(s.subs, cell) matches Some(sub) && exists|j: int|
        0 <= j < sub.instances.len() && #[trigger] inner_at(s, cell, j) == Some(inner)
}

/// Step `k` of a chain of cells.
pub open spec fn chain_step(s: Setting, chain: Seq<Name>, k: int) -> bool {
    holds_cell(s, chain[k], chain[k + 1])
}

/// Cells with a netlist, each of which has an instance of the next.
pub open spec fn is_chain(s: Setting, chain: Seq<Name>) -> bool {
    &&& forall|k: int| 0 <= k < chain.len() ==> has_name(s.subs, #[trigger] chain[k])
    &&& forall|k: int| 0 <= k < chain.len() - 1 ==> #[trigger] chain_step(s, chain, k)
}

/// The instances inside a cell are of cells of a lower rank, where these have a
/// netlist: no cell contains itself.
pub open spec fn ranked(s: Setting, rank: spec_fn(Name) -> nat) -> bool {
    forall|cell: Name, inner: Name| #[trigger]
        holds_cell(s, cell, inner) && has_name(s.subs, inner) ==> rank(inner) < rank(cell)
}

/// Ranks fall along a chain.
pub(crate) proof fn lemma_chain_descends(
    s: Setting,
    chain: Seq<Name>,
    rank: spec_fn(Name) -> nat,
)
    requires
        ranked(s, rank),
        is_chain(s, chain),
        chain.len() > 1,
    ensures
        rank(chain.last()) < rank(chain[0]),
    decreases chain.len(),
{
    let n = chain.len() as int;
    assert(chain_step(s, chain, n - 2));
    assert(has_name(s.subs, chain[n - 1]));
    if n > 2 {
        let d = chain.drop_last();
        assert forall|k: int| 0 <= k < d.len() implies has_name(s.subs, #[trigger] d[k]) by {
            assert(has_name(s.subs, chain[k]));
        }
        assert forall|k: int| 0 <= k < d.len() - 1 implies #[trigger] chain_step(s, d, k) by {
            assert(chain_step(s, chain, k));
        }
        lemma_chain_descends(s, d, rank);
    }
}

/// Passes that go on without end leave a chain of cells, one for each pass.
pub(crate) proof fn lemma_endless_chain(
    s: Setting,
    at: Level,
    warned: Set<Name>,
    left: nat,
) -> (chain: Seq<Name>)
    requires
        unique_names(at.data.instances),
        left > 0,
        run(s, at, warned, left).result == Err::<Level, FlattenErrorView>(
            FlattenErrorView::Endless,
        ),
    ensures
        is_chain(s, chain),
        chain.len() == left,
        exists|name: Name| #[trigger] inlined(s, at, name) && chain[0] == cell_name(at, name),
    decreases left,
{
    let next = pass(s, at)->Ok_0;
    assert(some_inlined(s, at));
    lemma_next_level(s, at);
    if left == 1 {
        let i = choose|i: int|
            0 <= i < at.data.instances.len() && fate(
                s,
                at,
                #[trigger] at.data.instances[i],
            ) is Inline;
        let name = at.data.instances[i].0;
        lemma_inlined(s, at, i);
        assert(inlined(s, at, name));
        seq![cell_name(at, name)]
    } else {
        let more = warned_after(s, at, warned);
        let rest = lemma_endless_chain(s, next, more, (left - 1) as nat);
        let name = choose|name: Name| #[trigger]
            inlined(s, next, name) && rest[0] == cell_name(next, name);
        lemma_goes_down(s, at, next, name);
        let parent = choose|parent: Name| #[trigger]
            inlined(s, at, parent) && holds_cell(
                s,
                cell_name(at, parent),
                cell_name(next, name),
            );
        let chain = seq![cell_name(at, parent)] + rest;
        assert forall|k: int| 0 <= k < chain.len() implies has_name(s.subs, #[trigger] chain[k]) by {
            if k > 0 {
                assert(chain[k] == rest[k - 1]);
            }
        }
        assert forall|k: int| 0 <= k < chain.len() - 1 implies #[trigger] chain_step(
            s,
            chain,
            k,
        ) by {
            if k > 0 {
                assert(chain_step(s, rest, k - 1));
            }
        }
        chain
    }
}

/// What is inlined next was part of something inlined now.
proof fn lemma_goes_down(s: Setting, at: Level, next: Level, name: Name)
    requires
        unique_names(at.data.instances),
        pass(s, at) == Ok::<Level, FlattenErrorView>(next),
        inlined(s, next, name),
        some_inlined(s, at),
    ensures
        exists|parent: Name| #[trigger]
            inlined(s, at, parent) && holds_cell(
                s,
                cell_name(at, parent),
                cell_name(next, name),
            ),
{
    assert(has_name(next.data.instances, name));
    law_no_other_instances(s, at, next, name);
    if has_name(at.data.instances, name) && !inlined(s, at, name) {
        law_survivor_stays(s, at, next, name);
    }
    let (parent, j) = choose|parent: Name, j: int|
        inlined(s, at, parent) && 0 <= j < cell_netlist(s, at, parent).instances.len() && name
            == #[trigger] joined_name(
            parent,
            s.options.separator,
            cell_netlist(s, at, parent).instances[j].0,
        );
    law_contents_take_place(s, at, next, parent, j);
    let cell = cell_name(at, parent);
    assert(inner_at(s, cell, j) == Some(cell_name(next, name)));
    assert(inlined(s, at, parent));
}

/// The names reported are those on the list that were not reported before.
proof fn lemma_fresh(list: Seq<(Name, ReasonView)>, warned: Set<Name>)
    ensures
        unique_names(fresh_reports(list, warned)),
        forall|n: Name| #[trigger]
            has_name(fresh_reports(list, warned), n) == (has_name(list, n) && !warned.contains(n)),
    decreases list.len(),
{
    if list.len() > 0 {
        let d = list.drop_last();
        let l = list.last();
        lemma_fresh(d, warned);
        assert(d.push(l) =~= list);
        lemma_push_name(d, l);
        lemma_push_name(fresh_reports(d, warned), l);
        let rest = fresh_reports(d, warned);
        if !warned.contains(l.0) && !has_name(d, l.0) {
            let t = rest.push(l);
            assert forall|i: int, j: int|
                0 <= i < t.len() && 0 <= j < t.len() && i != j implies (#[trigger] t[i]).0 != (
            #[trigger] t[j]).0 by {
                if i < rest.len() {
                    assert(has_name(rest, rest[i].0));
                }
                if j < rest.len() {
                    assert(has_name(rest, rest[j].0));
                }
            }
        }
    }
}

/// Over all passes each skipped instance is reported at most once, none that
/// was reported before, and none at all unless reports are asked for.
pub proof fn law_reported_once(s: Setting, at: Level, warned: Set<Name>, left: nat)
    ensures
        unique_names(run(s, at, warned, left).reports),
        forall|n: Name| #[trigger]
            has_name(run(s, at, warned, left).reports, n) ==> s.options.warn_skipped
                && !warned.contains(n),
    decreases left,
{
    if left > 0 {
        let now = reported(s, at, warned);
        lemma_fresh(skips(s, at), warned);
        if let Ok(next) = pass(s, at) {
            if some_inlined(s, at) && s.options.recursive {
                let more = warned_after(s, at, warned);
                law_reported_once(s, next, more, (left - 1) as nat);
                let rest = run(s, next, more, (left - 1) as nat).reports;
                let all = now + rest;
                assert forall|i: int, j: int|
                    0 <= i < all.len() && 0 <= j < all.len() && i != j implies (
                #[trigger] all[i]).0 != (#[trigger] all[j]).0 by {
                    if i < now.len() {
                        assert(now[i] == all[i]);
                        assert(has_name(now, now[i].0));
                    } else {
                        assert(rest[i - now.len()] == all[i]);
                        assert(has_name(rest, rest[i - now.len()].0));
                    }
                    if j < now.len() {
                        assert(now[j] == all[j]);
                        assert(has_name(now, now[j].0));
                    } else {
                        assert(rest[j - now.len()] == all[j]);
                        assert(has_name(rest, rest[j - now.len()].0));
                    }
                }
                assert forall|n: Name| #[trigger] has_name(all, n) implies s.options.warn_skipped
                    && !warned.contains(n) by {
                    let k = position(all, n);
                    if k < now.len() {
                        assert(now[k].0 == n);
                        assert(has_name(now, n));
                    } else {
                        assert(rest[k - now.len()].0 == n);
                        assert(has_name(rest, n));
                    }
                }
            }
        }
    }
}

/// The level that is looked at after `k` passes, if flattening gets that far.
pub open spec fn level_after(s: Setting, at: Level, k: nat) -> Option<Level>
    decreases k,
{
    if k == 0 {
        Some(at)
    } else if !some_inlined(s, at) || !s.options.recursive {
        None
    } else {
        match pass(s, at) {
            Ok(next) => level_after(s, next, (k - 1) as nat),
            Err(_) => None,
        }
    }
}

/// Flattening fails only where a pass over a level that it gets to fails, or
/// for want of passes.
pub proof fn law_errors_come_from_passes(
    s: Setting,
    at: Level,
    warned: Set<Name>,
    left: nat,
    e: FlattenErrorView,
)
    requires
        run(s, at, warned, left).result == Err::<Level, FlattenErrorView>(e),
    ensures
        e == FlattenErrorView::Endless || exists|k: nat|
            (#[trigger] level_after(s, at, k)) matches Some(later) && k < left && pass(s, later)
                == Err::<Level, FlattenErrorView>(e),
    decreases left,
{
    if left > 0 {
        match pass(s, at) {
            Err(_) => {
                assert(level_after(s, at, 0) == Some(at));
            },
            Ok(next) => {
                let more = warned_after(s, at, warned);
                law_errors_come_from_passes(s, next, more, (left - 1) as nat, e);
                if e != FlattenErrorView::Endless {
                    let k = choose|k: nat|
                        (#[trigger] level_after(s, next, k)) matches Some(later) && k < left - 1
                            && pass(s, later) == Err::<Level, FlattenErrorView>(e);
                    assert(level_after(s, at, k + 1) == level_after(s, next, k));
                }
            },
        }
    }
}

/// Names are unique on every later level.
pub(crate) proof fn lemma_unique_after(s: Setting, at: Level, k: nat, later: Level)
    requires
        unique_names(at.data.instances),
        level_after(s, at, k) == Some(later),
    ensures
        unique_names(later.data.instances),
    decreases k,
{
    if k > 0 {
        lemma_next_level(s, at);
        lemma_unique_after(s, pass(s, at)->Ok_0, (k - 1) as nat, later);
    }
}

/// An instance that is not inlined is found unchanged on every later level.
proof fn lemma_stays_after(s: Setting, at: Level, k: nat, later: Level, name: Name)
    requires
        unique_names(at.data.instances),
        level_after(s, at, k) == Some(later),
        has_name(at.data.instances, name),
        !inlined(s, at, name),
    ensures
        lookup(later.data.instances, name) == lookup(at.data.instances, name),
        lookup(later.cell_of, name) == lookup(at.cell_of, name),
    decreases k,
{
    if k > 0 {
        let next = pass(s, at)->Ok_0;
        law_survivor_stays(s, at, next, name);
        lemma_next_level(s, at);
        assert(lookup(next.data.instances, name) is Some);
        lemma_stays_after(s, next, (k - 1) as nat, later, name);
    }
}

/// On request every instance that is left alone on any level is reported, with
/// the reason: whether or not flattening succeeds, and unless it was reported
/// before.
pub proof fn law_skipped_reported(
    s: Setting,
    at: Level,
    warned: Set<Name>,
    left: nat,
    k: nat,
    later: Level,
    i: int,
)
    requires
        unique_names(at.data.instances),
        s.options.warn_skipped,
        k < left,
        level_after(s, at, k) == Some(later),
        0 <= i < later.data.instances.len(),
        !inlined(s, later, later.data.instances[i].0),
        !warned.contains(later.data.instances[i].0),
    ensures
        skip_of(s, later, later.data.instances[i]) matches Some(report) && run(
            s,
            at,
            warned,
            left,
        ).reports.contains(report),
    decreases k,
{
    let e = later.data.instances[i];
    lemma_unique_after(s, at, k, later);
    lemma_inlined(s, later, i);
    lemma_lookup_at(later.data.instances, i);
    let report = skip_of(s, later, e).unwrap();
    let now = reported(s, at, warned);
    let reports = run(s, at, warned, left).reports;
    if k == 0 {
        lemma_reported_now(s, at, warned, i);
        let n = choose|n: int| 0 <= n < now.len() && now[n] == report;
        assert(reports[n] == report);
    } else {
        let next = pass(s, at)->Ok_0;
        let more = warned_after(s, at, warned);
        let rest = run(s, next, more, (left - 1) as nat).reports;
        assert(reports == now + rest);
        lemma_next_level(s, at);
        if has_name(skips(s, at), e.0) {
            let list = skips(s, at);
            let old = list[position(list, e.0)];
            assert(list.contains(old));
            let f = |e: (Name, InstanceView)| skip_of(s, at, e);
            at.data.instances.lemma_filter_map_contains(f, old);
            let t = choose|t: (Name, InstanceView)| #[trigger]
                at.data.instances.contains(t) && f(t) == Some(old);
            let j = choose|j: int| 0 <= j < at.data.instances.len() && at.data.instances[j] == t;
            lemma_inlined(s, at, j);
            lemma_lookup_at(at.data.instances, j);
            lemma_stays_after(s, at, k, later, e.0);
            assert(t == e);
            lemma_reported_now(s, at, warned, j);
            let n = choose|n: int| 0 <= n < now.len() && now[n] == report;
            assert(reports[n] == report);
        } else {
            assert(!more.contains(e.0));
            law_skipped_reported(s, next, more, (left - 1) as nat, (k - 1) as nat, later, i);
            let n = choose|n: int| 0 <= n < rest.len() && rest[n] == report;
            assert(reports[now.len() + n] == report);
        }
    }
}

/// A pass reports the instances that it leaves alone.
proof fn lemma_reported_now(s: Setting, at: Level, warned: Set<Name>, i: int)
    requires
        unique_names(at.data.instances),
        s.options.warn_skipped,
        0 <= i < at.data.instances.len(),
        skip_of(s, at, at.data.instances[i]) is Some,
        !warned.contains(at.data.instances[i].0),
    ensures
        reported(s, at, warned).contains(skip_of(s, at, at.data.instances[i]).unwrap()),
{
    let all = at.data.instances;
    let f = |e: (Name, InstanceView)| skip_of(s, at, e);
    let e = skip_of(s, at, all[i]).unwrap();
    let list = skips(s, at);
    let now = fresh_reports(list, warned);
    assert(all.contains(all[i]));
    lemma_filter_map_has(all, f, all[i], e);
    lemma_filter_map_lookup(all, |e: (Name, InstanceView)| e.0, f);
    lemma_fresh_contains(list, warned, e);
}

/// What was not reported before is reported, in a list of distinct names.
proof fn lemma_fresh_contains(
    list: Seq<(Name, ReasonView)>,
    warned: Set<Name>,
    e: (Name, ReasonView),
)
    requires
        unique_names(list),
        list.contains(e),
        !warned.contains(e.0),
    ensures
        fresh_reports(list, warned).contains(e),
    decreases list.len(),
{
    let d = list.drop_last();
    let all = fresh_reports(list, warned);
    let rest = fresh_reports(d, warned);
    let k = choose|k: int| 0 <= k < list.len() && list[k] == e;
    if k < d.len() {
        assert(d[k] == e);
        lemma_fresh_contains(d, warned, e);
        let n = choose|n: int| 0 <= n < rest.len() && rest[n] == e;
        assert(all[n] == e);
    } else {
        if has_name(d, e.0) {
            let i = position(d, e.0);
            assert(list[i].0 != list[k].0);
        }
        assert(all[rest.len() as int] == e);
    }
}

} // verus!

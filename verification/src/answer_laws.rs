//! What flattening answers, told by what goes in and what comes out.

use vstd::prelude::*;

use crate::error_laws::{explains, is_reason, is_report, law_pass_fails, law_reason};
use crate::flatten::{pass_limit, FlatNetlist, Flattened};
use crate::flatten_laws::{
    brought_in, law_contents_take_place, law_no_other_instances, law_pass_well_named,
    law_reported_once, law_run_well_named, law_skipped_reported, law_survivor_stays,
    lemma_next_names, lemma_unique_after, level_after, well_named,
};
use crate::flatten_model::{
    base_cell_entry, cell_netlist, first_level, fresh_reports, in_order, inlined, pass, reported,
    run, skip_of, some_inlined, warned_after, FlattenErrorView, Level, NetlistDataView, ReasonView,
    Setting,
};
use crate::instance::InstanceView;
use crate::level_laws::paths_lead;
use crate::name_map::{
    has_name, lemma_filter_map_lookup, lemma_lookup_at, lemma_push_name, lemma_unique_permutation,
    lookup, position, unique_names,
};
use crate::names::{joined_name, name_le, Name};
use crate::net::{MemberView, Net, NetMember, NetlistPort};
use crate::pass_laws::{
    gives_way, is_step, law_gives_way, law_pass_is_step, law_something_gives_way,
};
use crate::result_laws::{law_first_level, law_order_keeps_names, uniquely_named};
use crate::seqs::{lemma_filter_map_push, lemma_matching, lemma_take_next};
use crate::sorting::{lemma_sorted_facts, sorted_views, views, Ordered};

verus! {

/// The cell of an instance of the netlist to flatten: the map comes first, then
/// what is recorded; an empty name stands for none.
pub open spec fn known_outside(
    base: NetlistDataView,
    map: Seq<(Name, Name)>,
    name: Name,
    known: Option<Name>,
) -> bool {
    let says = if has_name(map, name) {
        lookup(map, name)
    } else if has_name(base.extras, name) {
        Some(lookup(base.extras, name).unwrap().cell)
    } else {
        None
    };
    match says {
        Some(cell) => if cell.len() > 0 {
            known == Some(cell)
        } else {
            known is None
        },
        None => known is None,
    }
}

/// Flattening starts from the netlist as it is given: each placement is a path
/// of one step, and cells are known from the map or from what is recorded.
pub open spec fn starts_from(base: NetlistDataView, map: Seq<(Name, Name)>, first: Level) -> bool {
    &&& first.data.instances == base.instances
    &&& first.data.nets == base.nets
    &&& first.data.ports == base.ports
    &&& forall|n: Name|
        (#[trigger] lookup(first.data.extras, n)) matches Some(x) ==> (lookup(base.extras, n) matches Some(y)
            && x.cell == y.cell && x.path == seq![y.placement])
    &&& forall|n: Name| #[trigger]
        has_name(base.extras, n) ==> has_name(first.data.extras, n)
    &&& forall|n: Name| #[trigger]
        has_name(base.instances, n) ==> known_outside(base, map, n, lookup(first.cell_of, n))
    &&& forall|n: Name| #[trigger] has_name(first.cell_of, n) ==> has_name(base.instances, n)
}

/// Some instance gives way.
pub open spec fn goes_on(s: Setting, at: Level) -> bool {
    exists|name: Name| gives_way(s, at, name)
}

/// Level follows level by steps, each of which replaces what gives way.
pub open spec fn is_history(s: Setting, levels: Seq<Level>) -> bool {
    forall|k: int|
        0 <= k < levels.len() - 1 ==> goes_on(s, #[trigger] levels[k]) && is_step(
            s,
            levels[k],
            levels[k + 1],
        )
}

/// How flattening ends after the given levels.
pub open spec fn ends(
    s: Setting,
    levels: Seq<Level>,
    left: nat,
    result: Result<Level, FlattenErrorView>,
) -> bool {
    match result {
        Ok(last) => {
            &&& last == levels.last()
            &&& s.options.recursive ==> !goes_on(s, last)
            &&& !s.options.recursive ==> levels.len() == if goes_on(s, levels[0]) {
                2int
            } else {
                1int
            }
        },
        Err(e) => if e == FlattenErrorView::Endless {
            s.options.recursive && levels.len() == left + 1
        } else {
            explains(s, levels.last(), e) && (!s.options.recursive ==> levels.len() == 1)
        },
    }
}

proof fn lemma_paths_next(s: Setting, at: Level, next: Level)
    requires
        well_named(at),
        paths_lead(at),
        pass(s, at) == Ok::<Level, FlattenErrorView>(next),
    ensures
        paths_lead(next),
{
    if some_inlined(s, at) {
        lemma_next_names(s, at, next);
        assert forall|n: Name| (#[trigger] lookup(next.data.extras, n)) matches Some(e)
            ==> e.path.len() > 0 by {
            if has_name(next.data.extras, n) {
                assert(has_name(next.data.instances, n));
                law_no_other_instances(s, at, next, n);
                if has_name(at.data.instances, n) && !inlined(s, at, n) {
                    law_survivor_stays(s, at, next, n);
                    assert(lookup(at.data.extras, n) matches Some(e) ==> e.path.len() > 0);
                } else {
                    assert(brought_in(s, at, n));
                    let (parent, j) = choose|parent: Name, j: int|
                        inlined(s, at, parent) && 0 <= j < cell_netlist(
                            s,
                            at,
                            parent,
                        ).instances.len() && n == #[trigger] joined_name(
                            parent,
                            s.options.separator,
                            cell_netlist(s, at, parent).instances[j].0,
                        );
                    law_contents_take_place(s, at, next, parent, j);
                }
            }
        }
    }
}

/// Flattening is a history of steps, and it ends as it should.
pub proof fn law_run_is_history(s: Setting, at: Level, warned: Set<Name>, left: nat) -> (levels:
    Seq<Level>)
    requires
        well_named(at),
        paths_lead(at),
        left > 0,
    ensures
        levels.len() > 0,
        levels[0] == at,
        is_history(s, levels),
        ends(s, levels, left, run(s, at, warned, left).result),
    decreases left,
{
    law_something_gives_way(s, at);
    law_pass_fails(s, at);
    let own = seq![at];
    match pass(s, at) {
        Err(_) => own,
        Ok(next) => {
            law_pass_is_step(s, at, next);
            if !some_inlined(s, at) {
                own
            } else if !s.options.recursive {
                seq![at, next]
            } else {
                law_pass_well_named(s, at, next);
                lemma_paths_next(s, at, next);
                let more = warned_after(s, at, warned);
                if left == 1 {
                    seq![at, next]
                } else {
                    let rest = law_run_is_history(s, next, more, (left - 1) as nat);
                    let levels = own + rest;
                    assert forall|k: int| 0 <= k < levels.len() - 1 implies goes_on(
                        s,
                        #[trigger] levels[k],
                    ) && is_step(s, levels[k], levels[k + 1]) by {
                        if k > 0 {
                            assert(levels[k] == rest[k - 1]);
                            assert(levels[k + 1] == rest[k]);
                        }
                    }
                    assert(levels.last() == rest.last());
                    levels
                }
            }
        },
    }
}

/// Flattening starts from the netlist as it is given.
pub proof fn law_starts_from(base: NetlistDataView, map: Seq<(Name, Name)>)
    requires
        uniquely_named(base),
    ensures
        starts_from(base, map, first_level(base, map)),
        well_named(first_level(base, map)),
        paths_lead(first_level(base, map)),
{
    let first = first_level(base, map);
    law_first_level(base, map);
    assert forall|n: Name| (#[trigger] lookup(first.data.extras, n)) matches Some(x) ==> (lookup(
        base.extras,
        n,
    ) matches Some(y) && x.cell == y.cell && x.path == seq![y.placement]) by {
        if has_name(first.data.extras, n) {
            let i = position(first.data.extras, n);
            assert(base.extras[i].0 == n);
            lemma_lookup_at(base.extras, i);
        }
    }
    assert forall|n: Name| #[trigger] has_name(base.extras, n) implies has_name(
        first.data.extras,
        n,
    ) by {
        let i = position(base.extras, n);
        assert(first.data.extras[i].0 == n);
    }
    let f = |e: (Name, InstanceView)| base_cell_entry(base, map, e);
    lemma_filter_map_lookup(base.instances, |e: (Name, InstanceView)| e.0, f);
    assert forall|n: Name| #[trigger] has_name(first.cell_of, n) implies has_name(
        base.instances,
        n,
    ) by {
        let i = choose|i: int|
            0 <= i < base.instances.len() && (#[trigger] base.instances[i]).0 == n;
        assert(base.instances[i].0 == n);
    }
    assert forall|n: Name| (#[trigger] lookup(first.data.extras, n)) matches Some(e)
        ==> e.path.len() > 0 by {}
}

/// The names come in the order of their characters.
pub open spec fn by_name<T>(s: Seq<(Name, T)>) -> bool {
    forall|i: int, j: int|
        0 <= i < j < s.len() ==> name_le((#[trigger] s[i]).0, (#[trigger] s[j]).0)
}

/// Each value comes before those after it.
pub open spec fn rises<T: Ordered>(s: Seq<T::V>) -> bool {
    forall|i: int, j: int| 0 <= i < j < s.len() ==> T::le(#[trigger] s[i], #[trigger] s[j])
}

/// The netlist lists the contents of a level in order: the same instances and
/// extras by ascending name, the same nets with the same members, each in
/// ascending order, and the same ports in ascending order.
pub open spec fn lists(out: FlatNetlist, last: Level) -> bool {
    &&& unique_names(out.instances@) && by_name(out.instances@)
    &&& forall|n: Name| #[trigger] lookup(out.instances@, n) == lookup(last.data.instances, n)
    &&& unique_names(out.extras@) && by_name(out.extras@)
    &&& forall|n: Name| #[trigger] lookup(out.extras@, n) == lookup(last.data.extras, n)
    &&& rises::<Net>(views(out.nets@))
    &&& exists|from: Seq<int>, to: Seq<int>| #[trigger]
        same_nets(views(out.nets@), last.data.nets, from, to)
    &&& rises::<NetlistPort>(views(out.ports@))
    &&& views(out.ports@).to_multiset() == last.data.ports.to_multiset()
}

/// Net `i` of `out` is net `from[i]` of `nets` with its members in ascending
/// order, one for one.
pub open spec fn same_nets(
    out: Seq<Seq<MemberView>>,
    nets: Seq<Seq<MemberView>>,
    from: Seq<int>,
    to: Seq<int>,
) -> bool {
    &&& out.len() == nets.len() == from.len() == to.len()
    &&& forall|i: int|
        0 <= i < out.len() ==> 0 <= #[trigger] from[i] < nets.len() && to[from[i]] == i
            && rises::<NetMember>(out[i]) && out[i].to_multiset()
            == nets[from[i]].to_multiset()
    &&& forall|j: int|
        0 <= j < nets.len() ==> 0 <= #[trigger] to[j] < out.len() && from[to[j]] == j
}

proof fn lemma_lists(out: FlatNetlist, last: Level)
    requires
        well_named(last),
        in_order(out@, last.data),
    ensures
        lists(out, last),
{
    let v = out@;
    lemma_unique_permutation(last.data.instances, v.instances);
    lemma_unique_permutation(last.data.extras, v.extras);
    assert forall|n: Name| #[trigger] lookup(out.instances@, n) == lookup(
        last.data.instances,
        n,
    ) by {
        law_order_keeps_names(v, last.data, n);
    }
    assert forall|n: Name| #[trigger] lookup(out.extras@, n) == lookup(last.data.extras, n) by {
        law_order_keeps_names(v, last.data, n);
    }
    let nets = last.data.nets;
    let each = |net: Seq<MemberView>| sorted_views::<NetMember>(net);
    let sorted = nets.map_values(each);
    lemma_sorted_facts::<Net>(sorted);
    lemma_sorted_facts::<NetlistPort>(last.data.ports);
    let (from, to) = lemma_matching(v.nets, sorted);
    assert forall|i: int| 0 <= i < v.nets.len() implies 0 <= #[trigger] from[i] < nets.len()
        && to[from[i]] == i && rises::<NetMember>(v.nets[i]) && v.nets[i].to_multiset()
        == nets[from[i]].to_multiset() by {
        lemma_sorted_facts::<NetMember>(nets[from[i]]);
        assert(sorted[from[i]] == v.nets[i]);
    }
    assert forall|j: int| 0 <= j < nets.len() implies 0 <= #[trigger] to[j] < v.nets.len()
        && from[to[j]] == j by {}
    assert(same_nets(views(out.nets@), nets, from, to));
}

/// What flattening answers. It starts from the netlist as it is given, goes on
/// by steps, all the way down or one level deep, and lists what it comes to in
/// order. It fails only where names clash or connections would be lost, or
/// after as many steps as there are cells and more.
pub proof fn law_flattened(
    f: Flattened,
    s: Setting,
    base: NetlistDataView,
    map: Seq<(Name, Name)>,
) -> (levels: Seq<Level>)
    requires
        uniquely_named(base),
        f.answers(s, base, map),
    ensures
        levels.len() > 0,
        starts_from(base, map, levels[0]),
        is_history(s, levels),
        match f.result {
            Ok(out) => lists(out, levels.last()) && (s.options.recursive ==> !goes_on(
                s,
                levels.last(),
            )) && (!s.options.recursive ==> levels.len() == if goes_on(s, levels[0]) {
                2int
            } else {
                1int
            }),
            Err(e) => if e@ == FlattenErrorView::Endless {
                s.options.recursive && levels.len() == if s.subs.len() >= 1000 {
                    s.subs.len() + 2
                } else {
                    1001
                }
            } else {
                explains(s, levels.last(), e@) && (!s.options.recursive ==> levels.len() == 1)
            },
        },
{
    let first = first_level(base, map);
    let limit = pass_limit(s);
    law_starts_from(base, map);
    let levels = law_run_is_history(s, first, Set::empty(), limit);
    if let Ok(out) = f.result {
        let last = levels.last();
        law_run_well_named(s, first, Set::empty(), limit, last);
        lemma_lists(out, last);
    }
    levels
}

/// The reports of a pass in instance order.
pub open spec fn in_turn(at: Level, reports: Seq<(Name, ReasonView)>) -> bool {
    forall|k: int, l: int|
        0 <= k < l < reports.len() ==> position(
            at.data.instances,
            (#[trigger] reports[k]).0,
        ) < position(at.data.instances, (#[trigger] reports[l]).0)
}

/// The reports on the first `n` instances.
proof fn lemma_reports_upto(s: Setting, at: Level, warned: Set<Name>, n: int)
    requires
        unique_names(at.data.instances),
        0 <= n <= at.data.instances.len(),
    ensures
        ({
            let f = |e: (Name, InstanceView)| skip_of(s, at, e);
            let r = fresh_reports(at.data.instances.take(n).filter_map(f), warned);
            &&& forall|k: int|
                0 <= k < r.len() ==> is_report(s, at, #[trigger] r[k]) && !warned.contains(r[k].0)
                    && position(at.data.instances, r[k].0) < n
            &&& in_turn(at, r)
            &&& forall|i: int|
                0 <= i < n && !gives_way(s, at, (#[trigger] at.data.instances[i]).0)
                    && !warned.contains(at.data.instances[i].0) ==> has_name(
                    r,
                    at.data.instances[i].0,
                )
        }),
    decreases n,
{
    let all = at.data.instances;
    let f = |e: (Name, InstanceView)| skip_of(s, at, e);
    if n > 0 {
        lemma_reports_upto(s, at, warned, n - 1);
        let e = all[n - 1];
        let list = all.take(n - 1).filter_map(f);
        let rest = fresh_reports(list, warned);
        let r = fresh_reports(all.take(n).filter_map(f), warned);
        lemma_take_next(all, n - 1);
        lemma_filter_map_push(all.take(n - 1), e, f);
        law_reason(s, at, n - 1);
        lemma_lookup_at(all, n - 1);
        assert(!has_name(list, e.0)) by {
            if has_name(list, e.0) {
                let old = list[position(list, e.0)];
                assert(list.contains(old));
                let head = all.take(n - 1);
                head.lemma_filter_map_contains(f, old);
                let t = choose|t: (Name, InstanceView)| #[trigger]
                    head.contains(t) && f(t) == Some(old);
                let i = choose|i: int| 0 <= i < head.len() && head[i] == t;
                assert(all[i].0 != all[n - 1].0);
            }
        }
        if let Some(report) = f(e) {
            assert(list.push(report).drop_last() =~= list);
            if !warned.contains(e.0) {
                assert(r == rest.push(report));
            } else {
                assert(r == rest);
            }
            lemma_push_name(rest, report);
        }
        assert forall|i: int|
            0 <= i < n && !gives_way(s, at, (#[trigger] all[i]).0) && !warned.contains(
                all[i].0,
            ) implies has_name(r, all[i].0) by {
            if i < n - 1 {
                assert(has_name(rest, all[i].0));
            }
        }
    }
}

/// A pass reports, if asked to, exactly the instances that do not give way and
/// were not reported before, each with the reason that holds, in the order in
/// which the netlist has them.
pub proof fn law_pass_reports(s: Setting, at: Level, warned: Set<Name>)
    requires
        unique_names(at.data.instances),
    ensures
        ({
            let r = reported(s, at, warned);
            &&& !s.options.warn_skipped ==> r.len() == 0
            &&& forall|k: int|
                0 <= k < r.len() ==> is_report(s, at, #[trigger] r[k]) && !warned.contains(r[k].0)
            &&& in_turn(at, r)
            &&& s.options.warn_skipped ==> forall|i: int|
                0 <= i < at.data.instances.len() && !gives_way(
                    s,
                    at,
                    (#[trigger] at.data.instances[i]).0,
                ) && !warned.contains(at.data.instances[i].0) ==> has_name(
                    r,
                    at.data.instances[i].0,
                )
        }),
{
    let all = at.data.instances;
    lemma_reports_upto(s, at, warned, all.len() as int);
    assert(all.take(all.len() as int) =~= all);
}

/// Every report is on an instance of a level that flattening gets to, and gives
/// the reason that holds there; the first pass's reports come first.
pub proof fn law_reports_hold(s: Setting, at: Level, warned: Set<Name>, left: nat, r: int)
    requires
        unique_names(at.data.instances),
        0 <= r < run(s, at, warned, left).reports.len(),
    ensures
        exists|k: nat|
            (#[trigger] level_after(s, at, k)) matches Some(later) && k < left && is_report(
                s,
                later,
                run(s, at, warned, left).reports[r],
            ),
        r < reported(s, at, warned).len() ==> run(s, at, warned, left).reports[r] == reported(
            s,
            at,
            warned,
        )[r],
    decreases left,
{
    let now = reported(s, at, warned);
    law_pass_reports(s, at, warned);
    let all = run(s, at, warned, left).reports;
    if r < now.len() {
        assert(all[r] == now[r]);
        assert(level_after(s, at, 0) == Some(at));
    } else {
        let next = pass(s, at)->Ok_0;
        let more = warned_after(s, at, warned);
        let rest = run(s, next, more, (left - 1) as nat).reports;
        assert(level_after(s, at, 1) == Some(next)) by {
            assert(level_after(s, next, 0) == Some(next));
        }
        lemma_unique_after(s, at, 1, next);
        law_reports_hold(s, next, more, (left - 1) as nat, r - now.len());
        let k = choose|k: nat|
            (#[trigger] level_after(s, next, k)) matches Some(later) && k < left - 1 && is_report(
                s,
                later,
                rest[r - now.len()],
            );
        assert(level_after(s, at, k + 1) == level_after(s, next, k));
        assert(all[r] == rest[r - now.len()]);
    }
}

/// On request every instance that does not give way on some level is reported
/// there or before, once, with the reason that holds.
pub proof fn law_left_alone_is_reported(
    f: Flattened,
    s: Setting,
    base: NetlistDataView,
    map: Seq<(Name, Name)>,
    k: nat,
    later: Level,
    name: Name,
)
    requires
        uniquely_named(base),
        f.answers(s, base, map),
        s.options.warn_skipped,
        k < 1000,
        level_after(s, first_level(base, map), k) == Some(later),
        has_name(later.data.instances, name),
        !gives_way(s, later, name),
    ensures
        unique_names(views(f.reports@)),
        lookup(views(f.reports@), name) matches Some(why) && is_reason(s, later, name, why),
{
    let first = first_level(base, map);
    let limit = pass_limit(s);
    law_first_level(base, map);
    lemma_unique_after(s, first, k, later);
    let i = position(later.data.instances, name);
    law_gives_way(s, later, name);
    law_skipped_reported(s, first, Set::empty(), limit, k, later, i);
    law_reason(s, later, i);
    law_reported_once(s, first, Set::empty(), limit);
    let reports = views(f.reports@);
    let report = skip_of(s, later, later.data.instances[i]).unwrap();
    let n = choose|n: int| 0 <= n < reports.len() && reports[n] == report;
    lemma_lookup_at(reports, n);
}

/// Every report is on an instance that did not give way on some level that
/// flattening got to, for the reason that holds there.
pub proof fn law_reports_are_true(
    f: Flattened,
    s: Setting,
    base: NetlistDataView,
    map: Seq<(Name, Name)>,
    r: int,
)
    requires
        uniquely_named(base),
        f.answers(s, base, map),
        0 <= r < f.reports.len(),
    ensures
        exists|k: nat|
            (#[trigger] level_after(s, first_level(base, map), k)) matches Some(later)
                && is_report(s, later, f.reports[r]@),
{
    let first = first_level(base, map);
    let limit = pass_limit(s);
    law_first_level(base, map);
    law_reports_hold(s, first, Set::empty(), limit, r);
    assert(views(f.reports@)[r] == f.reports[r]@);
}

/// Without the request nothing is reported.
pub proof fn law_quiet(f: Flattened, s: Setting, base: NetlistDataView, map: Seq<(Name, Name)>)
    requires
        f.answers(s, base, map),
        !s.options.warn_skipped,
    ensures
        f.reports.len() == 0,
{
    let first = first_level(base, map);
    let limit = pass_limit(s);
    law_reported_once(s, first, Set::empty(), limit);
    let reports = views(f.reports@);
    if reports.len() > 0 {
        assert(has_name(reports, reports[0].0));
    }
}

} // verus!

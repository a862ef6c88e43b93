//! When a pass fails and what it reports, told by what goes in.

use vstd::prelude::*;

use crate::flatten_laws::{law_pass_well_named, well_named};
use crate::flatten_model::{
    cell_netlist, collides, fate, first_collision, hit, inner_piece, inner_wires, kept_piece,
    lemma_inlined, outer_wires, pass, pieces, pieces_of, skip_of, some_inlined, FlattenErrorView,
    Level, Piece, ReasonView, Setting,
};
use crate::inline::{lemma_no_collision, lemma_survivors};
use crate::instance::InstanceView;
use crate::name_map::{has_name, lemma_lookup_at, lookup, position, unique_names};
use crate::names::Name;
use crate::net::MemberView;
use crate::pass_laws::{
    contents, gives_way, is_several, law_gives_way, law_something_gives_way, lemma_inner_bound,
};
use crate::seqs::{
    flat_index, lemma_filter_map_has, lemma_filter_map_push, lemma_flat_map_at, lemma_flat_map_find,
    lemma_flat_map_order,
};
use crate::wiring::{bound, first_dangling, first_unbound, WireView};

verus! {

/// The first pair comes before the second.
pub open spec fn before(i: int, j: int, k: int, l: int) -> bool {
    i < k || (i == k && j < l)
}

/// The name that instance `j` inside instance `i` gets.
pub open spec fn new_name(s: Setting, at: Level, i: int, j: int) -> Name {
    let parent = at.data.instances[i].0;
    parent + s.options.separator + contents(s, at, parent).instances[j].0
}

/// Instance `i` gives way and has an instance `j` inside.
pub open spec fn is_inside(s: Setting, at: Level, i: int, j: int) -> bool {
    &&& 0 <= i < at.data.instances.len()
    &&& gives_way(s, at, at.data.instances[i].0)
    &&& 0 <= j < contents(s, at, at.data.instances[i].0).instances.len()
}

/// Instance `j` inside instance `i` gets the name of an instance that stays, or
/// one that an instance before it gets.
pub open spec fn clashes(s: Setting, at: Level, i: int, j: int) -> bool {
    &&& is_inside(s, at, i, j)
    &&& {
        ||| has_name(at.data.instances, new_name(s, at, i, j)) && !gives_way(
            s,
            at,
            new_name(s, at, i, j),
        )
        ||| exists|k: int, l: int| #[trigger]
            is_inside(s, at, k, l) && before(k, l, i, j) && new_name(s, at, k, l) == new_name(
                s,
                at,
                i,
                j,
            )
    }
}

/// The first name that is taken.
pub open spec fn first_clash(s: Setting, at: Level, i: int, j: int) -> bool {
    &&& clashes(s, at, i, j)
    &&& forall|k: int, l: int| #[trigger] clashes(s, at, k, l) ==> !before(k, l, i, j)
}

/// Where the piece of instance `j` inside instance `i` stands.
spec fn piece_index(s: Setting, at: Level, i: int, j: int) -> int {
    flat_index(at.data.instances, |e: (Name, InstanceView)| pieces_of(s, at, e), i, j)
}

proof fn lemma_piece_at(s: Setting, at: Level, i: int, j: int)
    requires
        unique_names(at.data.instances),
        is_inside(s, at, i, j),
    ensures
        0 <= piece_index(s, at, i, j) < pieces(s, at).len(),
        pieces(s, at)[piece_index(s, at, i, j)].name == new_name(s, at, i, j),
        pieces(s, at)[piece_index(s, at, i, j)].parent == Some(at.data.instances[i].0),
{
    let all = at.data.instances;
    let f = |e: (Name, InstanceView)| pieces_of(s, at, e);
    law_gives_way(s, at, all[i].0);
    lemma_inlined(s, at, i);
    let inner = cell_netlist(s, at, all[i].0).instances[j];
    assert(f(all[i])[j] == inner_piece(s, at, all[i].0, inner));
    lemma_flat_map_at(all, f, i, j);
}

/// A piece that was brought in is that of an instance inside another.
proof fn lemma_piece_find(s: Setting, at: Level, p: int) -> (res: (int, int))
    requires
        unique_names(at.data.instances),
        0 <= p < pieces(s, at).len(),
        pieces(s, at)[p].parent is Some,
    ensures
        is_inside(s, at, res.0, res.1),
        piece_index(s, at, res.0, res.1) == p,
{
    let all = at.data.instances;
    let f = |e: (Name, InstanceView)| pieces_of(s, at, e);
    let (i, k) = lemma_flat_map_find(all, f, p);
    lemma_flat_map_at(all, f, i, k);
    lemma_inlined(s, at, i);
    law_gives_way(s, at, all[i].0);
    if !(fate(s, at, all[i]) is Inline) {
        assert(f(all[i])[k] == kept_piece(at, all[i]));
    }
    (i, k)
}

proof fn lemma_piece_before(s: Setting, at: Level, i: int, j: int, k: int, l: int)
    requires
        unique_names(at.data.instances),
        is_inside(s, at, i, j),
        is_inside(s, at, k, l),
    ensures
        before(i, j, k, l) <==> piece_index(s, at, i, j) < piece_index(s, at, k, l),
{
    let all = at.data.instances;
    let f = |e: (Name, InstanceView)| pieces_of(s, at, e);
    law_gives_way(s, at, all[i].0);
    law_gives_way(s, at, all[k].0);
    lemma_inlined(s, at, i);
    lemma_inlined(s, at, k);
    assert(f(all[i]).len() == contents(s, at, all[i].0).instances.len());
    assert(f(all[k]).len() == contents(s, at, all[k].0).instances.len());
    if i < k {
        lemma_flat_map_order(all, f, i, j, k, l);
    } else if k < i {
        lemma_flat_map_order(all, f, k, l, i, j);
    }
}

/// A piece collides exactly if its name clashes.
proof fn lemma_collides(s: Setting, at: Level, i: int, j: int)
    requires
        unique_names(at.data.instances),
        is_inside(s, at, i, j),
    ensures
        collides(pieces(s, at), piece_index(s, at, i, j)) <==> clashes(s, at, i, j),
{
    let ps = pieces(s, at);
    let p = piece_index(s, at, i, j);
    let name = new_name(s, at, i, j);
    lemma_piece_at(s, at, i, j);
    lemma_survivors(s, at, name);
    law_gives_way(s, at, name);
    if collides(ps, p) {
        let q = choose|q: int|
            0 <= q < ps.len() && (#[trigger] ps[q]).name == ps[p].name && (q < p
                || ps[q].parent is None);
        if ps[q].parent is Some {
            let (k, l) = lemma_piece_find(s, at, q);
            lemma_piece_at(s, at, k, l);
            lemma_piece_before(s, at, k, l, i, j);
            assert(is_inside(s, at, k, l) && before(k, l, i, j));
        }
    }
    if clashes(s, at, i, j) {
        if has_name(at.data.instances, name) && !gives_way(s, at, name) {
            let q = choose|q: int|
                0 <= q < ps.len() && (#[trigger] ps[q]).name == name && ps[q].parent is None;
            assert(ps[q].name == ps[p].name);
        } else {
            let (k, l) = choose|k: int, l: int| #[trigger]
                is_inside(s, at, k, l) && before(k, l, i, j) && new_name(s, at, k, l) == name;
            lemma_piece_at(s, at, k, l);
            lemma_piece_before(s, at, k, l, i, j);
            assert(ps[piece_index(s, at, k, l)].name == ps[p].name);
        }
    }
}

/// What is found first collides, and nothing before it does.
proof fn lemma_first_collision(ps: Seq<Piece>, n: nat)
    ensures
        first_collision(ps, n) matches Some(p) ==> 0 <= p < n && collides(ps, p) && forall|q: int|
            0 <= q < p ==> !#[trigger] collides(ps, q),
    decreases n,
{
    if n > 0 {
        lemma_first_collision(ps, (n - 1) as nat);
        if first_collision(ps, (n - 1) as nat) is None {
            lemma_no_collision(ps, (n - 1) as nat);
        }
    }
}

/// Instance `i` stays and `j` is 0, or it gives way and has an instance `j`
/// inside.
pub open spec fn is_slot(s: Setting, at: Level, i: int, j: int) -> bool {
    is_inside(s, at, i, j) || (0 <= i < at.data.instances.len() && !gives_way(
        s,
        at,
        at.data.instances[i].0,
    ) && j == 0)
}

/// The name of what stands there afterwards.
pub open spec fn slot_name(s: Setting, at: Level, i: int, j: int) -> Name {
    if gives_way(s, at, at.data.instances[i].0) {
        new_name(s, at, i, j)
    } else {
        at.data.instances[i].0
    }
}

/// Where a piece stands.
proof fn lemma_slot(s: Setting, at: Level, i: int, j: int)
    requires
        unique_names(at.data.instances),
        is_slot(s, at, i, j),
    ensures
        0 <= piece_index(s, at, i, j) < pieces(s, at).len(),
        pieces(s, at)[piece_index(s, at, i, j)].name == slot_name(s, at, i, j),
        0 <= j < pieces_of(s, at, at.data.instances[i]).len(),
{
    let all = at.data.instances;
    let f = |e: (Name, InstanceView)| pieces_of(s, at, e);
    law_gives_way(s, at, all[i].0);
    lemma_inlined(s, at, i);
    if is_inside(s, at, i, j) {
        lemma_piece_at(s, at, i, j);
    } else {
        assert(f(all[i])[0] == kept_piece(at, all[i]));
        lemma_flat_map_at(all, f, i, j);
    }
}

/// A pass keeps the order: what takes the place of an instance stands where
/// the instance stood, in the order that it has inside the cell.
pub proof fn law_pass_order(
    s: Setting,
    at: Level,
    next: Level,
    i: int,
    j: int,
    k: int,
    l: int,
)
    requires
        well_named(at),
        some_inlined(s, at),
        pass(s, at) == Ok::<Level, FlattenErrorView>(next),
        is_slot(s, at, i, j),
        is_slot(s, at, k, l),
        before(i, j, k, l),
    ensures
        has_name(next.data.instances, slot_name(s, at, i, j)),
        has_name(next.data.instances, slot_name(s, at, k, l)),
        position(next.data.instances, slot_name(s, at, i, j)) < position(
            next.data.instances,
            slot_name(s, at, k, l),
        ),
{
    let all = at.data.instances;
    let f = |e: (Name, InstanceView)| pieces_of(s, at, e);
    law_pass_well_named(s, at, next);
    lemma_slot(s, at, i, j);
    lemma_slot(s, at, k, l);
    lemma_lookup_at(next.data.instances, piece_index(s, at, i, j));
    lemma_lookup_at(next.data.instances, piece_index(s, at, k, l));
    if i < k {
        lemma_flat_map_order(all, f, i, j, k, l);
    }
}

/// Member `l` of net `k` refers to a port of an instance that gives way.
pub open spec fn refers_inside(s: Setting, at: Level, k: int, l: int) -> Option<(Name, Name)> {
    match at.data.nets[k][l] {
        MemberView::Port(_) => None,
        MemberView::Ref(i, p) => if gives_way(s, at, i) {
            Some((i, p))
        } else {
            None
        },
        MemberView::ArrayRef(i, p, _, _) => if gives_way(s, at, i) {
            Some((i, p))
        } else {
            None
        },
    }
}

/// Some net inside an instance that gives way has the port.
pub open spec fn goes_on_inside(s: Setting, at: Level, parent: Name, port: Name) -> bool {
    exists|k: int|
        0 <= k < contents(s, at, parent).nets.len() && (#[trigger] contents(
            s,
            at,
            parent,
        ).nets[k]).contains(MemberView::Port(port))
}

/// Member `l` of net `k` refers to a port that no net inside has.
pub open spec fn dangles(s: Setting, at: Level, k: int, l: int) -> bool {
    &&& 0 <= k < at.data.nets.len()
    &&& 0 <= l < at.data.nets[k].len()
    &&& refers_inside(s, at, k, l) matches Some(key) && !goes_on_inside(s, at, key.0, key.1)
}

/// The first such member.
pub open spec fn first_to_dangle(s: Setting, at: Level, k: int, l: int) -> bool {
    &&& dangles(s, at, k, l)
    &&& forall|i: int, j: int| #[trigger] dangles(s, at, i, j) ==> !before(i, j, k, l)
}

/// The error is what stands in the way of inlining: the first name that is
/// taken, or else, unless that is allowed, the first connection that would be
/// lost.
pub open spec fn explains(s: Setting, at: Level, e: FlattenErrorView) -> bool {
    match e {
        FlattenErrorView::NameTaken { instance, name } => exists|i: int, j: int| #[trigger]
            first_clash(s, at, i, j) && instance == at.data.instances[i].0 && name == new_name(
                s,
                at,
                i,
                j,
            ),
        FlattenErrorView::Unconnected { instance, port, cell } => {
            &&& !s.options.allow_unconnected_ports
            &&& forall|i: int, j: int| !#[trigger] clashes(s, at, i, j)
            &&& lookup(at.cell_of, instance) == Some(cell)
            &&& exists|k: int, l: int| #[trigger]
                first_to_dangle(s, at, k, l) && refers_inside(s, at, k, l) == Some(
                    (instance, port),
                )
        },
        FlattenErrorView::Endless => false,
    }
}

/// Where an element of a `filter_map` comes from.
proof fn lemma_filter_map_index<A, B>(s: Seq<A>, f: spec_fn(A) -> Option<B>, e: int) -> (l: int)
    requires
        0 <= e < s.filter_map(f).len(),
    ensures
        0 <= l < s.len(),
        f(s[l]) == Some(s.filter_map(f)[e]),
        s.take(l).filter_map(f) == s.filter_map(f).take(e),
    decreases s.len(),
{
    let d = s.drop_last();
    assert(d.push(s.last()) =~= s);
    lemma_filter_map_push(d, s.last(), f);
    let head = d.filter_map(f);
    if e < head.len() {
        let l = lemma_filter_map_index(d, f, e);
        assert(d.take(l) =~= s.take(l));
        assert(s.filter_map(f).take(e) =~= head.take(e));
        l
    } else {
        assert(s.take(s.len() - 1) =~= d);
        assert(s.filter_map(f).take(e) =~= head);
        s.len() - 1
    }
}

/// What is found first is unbound, and everything before it is bound.
proof fn lemma_first_unbound(ends: Seq<(Name, Name)>, inner: Seq<WireView>) -> (e: int)
    ensures
        first_unbound(ends, inner) matches Some(key) ==> 0 <= e < ends.len() && ends[e] == key
            && !bound(inner, key) && forall|x: (Name, Name)| #[trigger]
            ends.take(e).contains(x) ==> bound(inner, x),
        first_unbound(ends, inner) is None ==> forall|x: (Name, Name)| #[trigger]
            ends.contains(x) ==> bound(inner, x),
    decreases ends.len(),
{
    if ends.len() == 0 {
        0
    } else {
        let d = ends.drop_last();
        let e = lemma_first_unbound(d, inner);
        if first_unbound(d, inner) is Some {
            assert(d.take(e) =~= ends.take(e));
            e
        } else {
            let n = ends.len() - 1;
            assert(ends.take(n) =~= d);
            assert forall|x: (Name, Name)|
                #[trigger] ends.contains(x) && x != ends.last() implies bound(inner, x) by {
                let i = choose|i: int| 0 <= i < ends.len() && ends[i] == x;
                assert(d[i] == x);
                assert(d.contains(x));
            }
            n
        }
    }
}

/// What dangles first is an end of the first wire that has such an end.
proof fn lemma_first_dangling(outer: Seq<WireView>, inner: Seq<WireView>) -> (res: (int, int))
    ensures
        first_dangling(outer, inner) matches Some(key) ==> {
            &&& 0 <= res.0 < outer.len()
            &&& 0 <= res.1 < outer[res.0].ends.len()
            &&& outer[res.0].ends[res.1] == key
            &&& !bound(inner, key)
            &&& forall|x: (Name, Name)| #[trigger]
                outer[res.0].ends.take(res.1).contains(x) ==> bound(inner, x)
            &&& forall|k: int, x: (Name, Name)|
                0 <= k < res.0 && #[trigger] outer[k].ends.contains(x) ==> bound(inner, x)
        },
        first_dangling(outer, inner) is None ==> forall|k: int, x: (Name, Name)|
            0 <= k < outer.len() && #[trigger] outer[k].ends.contains(x) ==> bound(inner, x),
    decreases outer.len(),
{
    if outer.len() == 0 {
        (0, 0)
    } else {
        let d = outer.drop_last();
        let n = outer.len() - 1;
        let (k, e) = lemma_first_dangling(d, inner);
        if first_dangling(d, inner) is Some {
            assert(outer[k] == d[k]);
            assert forall|i: int, x: (Name, Name)|
                0 <= i < k && #[trigger] outer[i].ends.contains(x) implies bound(inner, x) by {
                assert(d[i].ends.contains(x));
            }
            (k, e)
        } else {
            let e = lemma_first_unbound(outer.last().ends, inner);
            assert forall|i: int, x: (Name, Name)|
                0 <= i < n && #[trigger] outer[i].ends.contains(x) implies bound(inner, x) by {
                assert(d[i].ends.contains(x));
            }
            (n, e)
        }
    }
}

/// The wire of a net ends at the ports that its members refer to, in order.
proof fn lemma_refers(s: Setting, at: Level, k: int, l: int)
    requires
        0 <= k < at.data.nets.len(),
        0 <= l < at.data.nets[k].len(),
    ensures
        refers_inside(s, at, k, l) == hit(s, at, at.data.nets[k][l]),
        refers_inside(s, at, k, l) matches Some(key) ==> gives_way(s, at, key.0) && outer_wires(
            s,
            at,
        )[k].ends.contains(key),
{
    let net = at.data.nets[k];
    match net[l] {
        MemberView::Port(_) => {},
        MemberView::Ref(i, _) => law_gives_way(s, at, i),
        MemberView::ArrayRef(i, _, _, _) => law_gives_way(s, at, i),
    }
    if let Some(key) = refers_inside(s, at, k, l) {
        assert(net.contains(net[l]));
        lemma_filter_map_has(net, |m: MemberView| hit(s, at, m), net[l], key);
    }
}

/// What dangles first, if anything does.
proof fn lemma_dangles(s: Setting, at: Level)
    requires
        unique_names(at.data.instances),
    ensures
        first_dangling(outer_wires(s, at), inner_wires(s, at)) matches Some(key) ==> exists|
            k: int,
            l: int,
        | #[trigger]
            first_to_dangle(s, at, k, l) && refers_inside(s, at, k, l) == Some(key),
        first_dangling(outer_wires(s, at), inner_wires(s, at)) is None ==> forall|k: int, l: int|
            !#[trigger] dangles(s, at, k, l),
{
    let outer = outer_wires(s, at);
    let inner = inner_wires(s, at);
    let (k, e) = lemma_first_dangling(outer, inner);
    if let Some(key) = first_dangling(outer, inner) {
        let net = at.data.nets[k];
        let f = |m: MemberView| hit(s, at, m);
        assert(outer[k].ends == net.filter_map(f));
        let l = lemma_filter_map_index(net, f, e);
        lemma_refers(s, at, k, l);
        lemma_inner_bound(s, at, key.0, key.1);
        assert(refers_inside(s, at, k, l) == Some(key));
        assert(dangles(s, at, k, l));
        assert forall|i: int, j: int| #[trigger] dangles(s, at, i, j) implies !before(
            i,
            j,
            k,
            l,
        ) by {
            lemma_refers(s, at, i, j);
            let other = refers_inside(s, at, i, j).unwrap();
            lemma_inner_bound(s, at, other.0, other.1);
            assert((other.0, other.1) == other);
            if i < k {
                assert(outer[i].ends.contains(other));
            } else if i == k && j < l {
                assert(net.take(l)[j] == net[j]);
                assert(net.take(l).contains(net[j]));
                lemma_filter_map_has(net.take(l), f, net[j], other);
                assert(outer[k].ends.take(e).contains(other));
            }
        }
        assert(first_to_dangle(s, at, k, l));
    } else {
        assert forall|i: int, j: int| !#[trigger] dangles(s, at, i, j) by {
            if dangles(s, at, i, j) {
                lemma_refers(s, at, i, j);
                let other = refers_inside(s, at, i, j).unwrap();
                lemma_inner_bound(s, at, other.0, other.1);
                assert((other.0, other.1) == other);
                assert(outer[i].ends.contains(other));
            }
        }
    }
}

/// Which names clash, if any do.
proof fn lemma_clashes(s: Setting, at: Level)
    requires
        unique_names(at.data.instances),
    ensures
        ({
            let ps = pieces(s, at);
            match first_collision(ps, ps.len()) {
                Some(p) => exists|i: int, j: int| #[trigger]
                    first_clash(s, at, i, j) && ps[p].parent == Some(at.data.instances[i].0)
                        && ps[p].name == new_name(s, at, i, j),
                None => forall|i: int, j: int| !#[trigger] clashes(s, at, i, j),
            }
        }),
{
    let ps = pieces(s, at);
    lemma_first_collision(ps, ps.len());
    match first_collision(ps, ps.len()) {
        Some(p) => {
            let (i, j) = lemma_piece_find(s, at, p);
            lemma_piece_at(s, at, i, j);
            lemma_collides(s, at, i, j);
            assert forall|k: int, l: int| #[trigger] clashes(s, at, k, l) implies !before(
                k,
                l,
                i,
                j,
            ) by {
                lemma_piece_at(s, at, k, l);
                lemma_collides(s, at, k, l);
                lemma_piece_before(s, at, k, l, i, j);
            }
            assert(first_clash(s, at, i, j));
        },
        None => {
            lemma_no_collision(ps, ps.len());
            assert forall|i: int, j: int| !#[trigger] clashes(s, at, i, j) by {
                if clashes(s, at, i, j) {
                    lemma_piece_at(s, at, i, j);
                    lemma_collides(s, at, i, j);
                }
            }
        },
    }
}

/// A pass fails exactly if a name is taken or, unless that is allowed, a
/// connection would be lost, and its error says which.
pub proof fn law_pass_fails(s: Setting, at: Level)
    requires
        unique_names(at.data.instances),
    ensures
        match pass(s, at) {
            Err(e) => explains(s, at, e),
            Ok(_) => {
                &&& forall|i: int, j: int| !#[trigger] clashes(s, at, i, j)
                &&& s.options.allow_unconnected_ports || forall|k: int, l: int|
                    !#[trigger] dangles(s, at, k, l)
            },
        },
{
    law_something_gives_way(s, at);
    lemma_clashes(s, at);
    lemma_dangles(s, at);
    if some_inlined(s, at) {
        if let Err(e) = pass(s, at) {
            if let FlattenErrorView::Unconnected { instance, port, cell } = e {
                let (k, l) = choose|k: int, l: int| #[trigger]
                    first_to_dangle(s, at, k, l) && refers_inside(s, at, k, l) == Some(
                        (instance, port),
                    );
                lemma_refers(s, at, k, l);
                law_gives_way(s, at, instance);
            }
        }
    } else {
        assert forall|i: int, j: int| !#[trigger] clashes(s, at, i, j) by {
            if clashes(s, at, i, j) {
                assert(gives_way(s, at, at.data.instances[i].0));
            }
        }
        assert forall|k: int, l: int| !#[trigger] dangles(s, at, k, l) by {
            if dangles(s, at, k, l) {
                let key = refers_inside(s, at, k, l).unwrap();
                assert(gives_way(s, at, key.0));
            }
        }
    }
}

/// The reason holds of the instance.
pub open spec fn is_reason(s: Setting, at: Level, name: Name, why: ReasonView) -> bool {
    let known = lookup(at.cell_of, name);
    let asked_for = |cell: Name|
        !s.options.exclude.contains(cell) && (s.options.cells matches Some(cells) ==> cells.contains(
            cell,
        ));
    match why {
        ReasonView::UnknownCell => known is None,
        ReasonView::NotSelected(cell) => known == Some(cell) && !asked_for(cell),
        ReasonView::NoNetlist(cell) => known == Some(cell) && asked_for(cell) && !has_name(
            s.subs,
            cell,
        ),
        ReasonView::NoInstances(cell) => known == Some(cell) && asked_for(cell) && (lookup(
            s.subs,
            cell,
        ) matches Some(sub) && sub.instances.len() == 0),
        ReasonView::Array => {
            &&& known matches Some(cell) && asked_for(cell) && (lookup(s.subs, cell) matches Some(
                sub,
            ) && sub.instances.len() > 0)
            &&& lookup(at.data.instances, name) matches Some(inst) && is_several(inst)
        },
    }
}

/// The report is on an instance that is left alone, and says why.
pub open spec fn is_report(s: Setting, at: Level, report: (Name, ReasonView)) -> bool {
    &&& has_name(at.data.instances, report.0)
    &&& !gives_way(s, at, report.0)
    &&& is_reason(s, at, report.0, report.1)
}

/// An instance that does not give way is left alone for the reason that holds.
pub proof fn law_reason(s: Setting, at: Level, i: int)
    requires
        unique_names(at.data.instances),
        0 <= i < at.data.instances.len(),
    ensures
        match skip_of(s, at, at.data.instances[i]) {
            Some(report) => report.0 == at.data.instances[i].0 && is_report(s, at, report),
            None => gives_way(s, at, at.data.instances[i].0),
        },
{
    let e = at.data.instances[i];
    lemma_lookup_at(at.data.instances, i);
    lemma_inlined(s, at, i);
    law_gives_way(s, at, e.0);
}

} // verus!

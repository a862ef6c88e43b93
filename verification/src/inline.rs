//! One pass over the instances: survivors stay, inlined ones give way to what
//! their cell holds.

use vstd::prelude::*;

use crate::duplicate::Duplicate;
use crate::flatten::{FlattenError, Hierarchy, NetlistData, State};
use crate::flatten_model::{
    cell_netlist, collides, fate, first_collision, inlined, inner_cell, inner_piece, kept_piece,
    lemma_inlined, piece_cell, piece_extra, piece_instance, pieces, pieces_of, FlattenErrorView,
    Level, Piece, Setting,
};
use crate::instance::{InstanceView, NetlistInstance};
use crate::name_map::{has_name, lemma_lookup_at, lookup, position, unique_names, NameMap, NameSet};
use crate::names::{join_name, Name};
use crate::placement::{default_placement, InlinedExtra, Placement};
use crate::seqs::{lemma_filter_map_push, lemma_flat_map_contains, lemma_flat_map_prefix};

verus! {

/// An instance of the next level.
struct NewInstance {
    name: String,
    inst: NetlistInstance,
    extra: Option<InlinedExtra>,
    cell: Option<String>,
}

impl NewInstance {
    /// The instance is the given piece.
    spec fn is_piece(self, p: Piece) -> bool {
        &&& self.name@ == p.name
        &&& self.inst@ == p.inst
        &&& p.extra == match self.extra {
            Some(extra) => Some(extra@),
            None => None,
        }
        &&& p.cell == match self.cell {
            Some(cell) => Some(cell@),
            None => None,
        }
    }
}

/// The instances of the next level with what is known of them.
pub struct Spliced {
    pub instances: NameMap<NetlistInstance>,
    pub extras: NameMap<InlinedExtra>,
    pub cell_of: NameMap<String>,
}

impl Spliced {
    /// The level holds exactly the given pieces.
    pub open spec fn holds(self, ps: Seq<Piece>) -> bool {
        &&& self.instances@ == ps.map_values(|p: Piece| piece_instance(p))
        &&& self.extras@ == ps.filter_map(|p: Piece| piece_extra(p))
        &&& self.cell_of@ == ps.filter_map(|p: Piece| piece_cell(p))
    }

    fn new() -> (res: Self)
        ensures
            res.holds(Seq::empty()),
    {
        let res = Spliced {
            instances: NameMap::new(),
            extras: NameMap::new(),
            cell_of: NameMap::new(),
        };
        assert(res.instances@ =~= Seq::<Piece>::empty().map_values(|p: Piece| piece_instance(p)));
        res
    }

    /// Appends an instance under a name that is not taken.
    fn add_piece(&mut self, item: NewInstance, Ghost(done): Ghost<Seq<Piece>>, Ghost(p): Ghost<Piece>)
        requires
            old(self).holds(done),
            item.is_piece(p),
            forall|q: int| 0 <= q < done.len() ==> (#[trigger] done[q]).name != p.name,
        ensures
            final(self).holds(done.push(p)),
    {
        let ghost before = *self;
        proof {
            lemma_piece_names(done, p.name);
            lemma_filter_map_push(done, p, |p: Piece| piece_extra(p));
            lemma_filter_map_push(done, p, |p: Piece| piece_cell(p));
        }
        let NewInstance { name, inst, extra, cell } = item;
        if let Some(extra) = extra {
            self.extras.insert(name.clone(), extra);
        }
        if let Some(cell) = cell {
            self.cell_of.insert(name.clone(), cell);
        }
        self.instances.insert(name, inst);
        proof {
            assert(self.instances@ =~= done.push(p).map_values(|p: Piece| piece_instance(p)));
        }
    }
}

/// A name that no piece has is not recorded.
proof fn lemma_piece_names(ps: Seq<Piece>, name: Name)
    requires
        forall|q: int| 0 <= q < ps.len() ==> (#[trigger] ps[q]).name != name,
    ensures
        !has_name(ps.map_values(|p: Piece| piece_instance(p)), name),
        !has_name(ps.filter_map(|p: Piece| piece_extra(p)), name),
        !has_name(ps.filter_map(|p: Piece| piece_cell(p)), name),
{
    let es = ps.filter_map(|p: Piece| piece_extra(p));
    if has_name(es, name) {
        let e = es[position(es, name)];
        assert(es.contains(e));
        ps.lemma_filter_map_contains(|p: Piece| piece_extra(p), e);
        let p = choose|p: Piece| #[trigger] ps.contains(p) && piece_extra(p) == Some(e);
        let q = choose|q: int| 0 <= q < ps.len() && ps[q] == p;
        assert(ps[q].name == name);
    }
    let cs = ps.filter_map(|p: Piece| piece_cell(p));
    if has_name(cs, name) {
        let e = cs[position(cs, name)];
        assert(cs.contains(e));
        ps.lemma_filter_map_contains(|p: Piece| piece_cell(p), e);
        let p = choose|p: Piece| #[trigger] ps.contains(p) && piece_cell(p) == Some(e);
        let q = choose|q: int| 0 <= q < ps.len() && ps[q] == p;
        assert(ps[q].name == name);
    }
    let is = ps.map_values(|p: Piece| piece_instance(p));
    if has_name(is, name) {
        assert(ps[position(is, name)].name == name);
    }
}

/// No piece among the first `n` collides if none is found.
pub proof fn lemma_no_collision(ps: Seq<Piece>, n: nat)
    requires
        first_collision(ps, n) is None,
    ensures
        forall|q: int| 0 <= q < n ==> !#[trigger] collides(ps, q),
    decreases n,
{
    if n > 0 {
        lemma_no_collision(ps, (n - 1) as nat);
    }
}

/// The first collision among the first pieces is the first collision.
pub(crate) proof fn lemma_collision_prefix(ps: Seq<Piece>, m: nat, n: nat)
    requires
        m <= n,
        first_collision(ps, m) is Some,
    ensures
        first_collision(ps, n) == first_collision(ps, m),
    decreases n,
{
    if m < n {
        lemma_collision_prefix(ps, m, (n - 1) as nat);
    }
}

/// The pieces that stayed are the instances that are not inlined.
pub proof fn lemma_survivors(s: Setting, at: Level, name: Name)
    requires
        unique_names(at.data.instances),
    ensures
        (has_name(at.data.instances, name) && !inlined(s, at, name)) <==> exists|q: int|
            0 <= q < pieces(s, at).len() && (#[trigger] pieces(s, at)[q]).name == name && pieces(
                s,
                at,
            )[q].parent is None,
{
    let all = at.data.instances;
    let f = |e: (Name, InstanceView)| pieces_of(s, at, e);
    let ps = pieces(s, at);
    if has_name(all, name) && !inlined(s, at, name) {
        let i = position(all, name);
        lemma_inlined(s, at, i);
        let p = kept_piece(at, all[i]);
        assert(f(all[i])[0] == p);
        assert(f(all[i]).contains(p));
        lemma_flat_map_contains(all, f, p);
        let q = choose|q: int| 0 <= q < ps.len() && ps[q] == p;
        assert(ps[q].name == name && ps[q].parent is None);
    }
    if exists|q: int| 0 <= q < ps.len() && (#[trigger] ps[q]).name == name && ps[q].parent is None {
        let q = choose|q: int|
            0 <= q < ps.len() && (#[trigger] ps[q]).name == name && ps[q].parent is None;
        assert(ps.contains(ps[q]));
        lemma_flat_map_contains(all, f, ps[q]);
        let i = choose|i: int| 0 <= i < all.len() && (#[trigger] f(all[i])).contains(ps[q]);
        lemma_kept(s, at, i, ps[q]);
        lemma_inlined(s, at, i);
        lemma_lookup_at(all, i);
    }
}

/// A piece without a parent is an instance that stayed.
proof fn lemma_kept(s: Setting, at: Level, i: int, p: Piece)
    requires
        0 <= i < at.data.instances.len(),
        pieces_of(s, at, at.data.instances[i]).contains(p),
        p.parent is None,
    ensures
        !(fate(s, at, at.data.instances[i]) is Inline),
        p == kept_piece(at, at.data.instances[i]),
{
    let own = pieces_of(s, at, at.data.instances[i]);
    let k = choose|k: int| 0 <= k < own.len() && own[k] == p;
    assert(own[k].parent is None);
}

/// An instance that stays has a name that no earlier piece has.
pub(crate) proof fn lemma_kept_fresh(s: Setting, at: Level, i: int, done: Seq<Piece>)
    requires
        unique_names(at.data.instances),
        0 <= i < at.data.instances.len(),
        !(fate(s, at, at.data.instances[i]) is Inline),
        done == at.data.instances.take(i).flat_map(
            |e: (Name, InstanceView)| pieces_of(s, at, e),
        ),
        first_collision(pieces(s, at), done.len()) is None,
    ensures
        forall|q: int|
            0 <= q < done.len() ==> (#[trigger] done[q]).name != at.data.instances[i].0,
{
    let all = at.data.instances;
    let f = |e: (Name, InstanceView)| pieces_of(s, at, e);
    let ps = pieces(s, at);
    lemma_flat_map_prefix(all, f, i, 0);
    lemma_flat_map_prefix(all, f, i, 1);
    let n = done.len() as int;
    assert(ps.take(n + 1) == done + f(all[i]).take(1));
    assert(ps[n] == ps.take(n + 1)[n]);
    assert(ps[n] == kept_piece(at, all[i]));
    lemma_no_collision(ps, done.len());
    assert forall|q: int| 0 <= q < done.len() implies (#[trigger] done[q]).name != all[i].0 by {
        assert(ps[q] == ps.take(n + 1)[q]);
        assert(done[q] == ps[q]);
        if done[q].name == all[i].0 {
            if done[q].parent is Some {
                assert(ps[n].name == ps[q].name);
                assert(collides(ps, q));
            } else {
                assert(done.contains(done[q]));
                lemma_flat_map_contains(all.take(i), f, done[q]);
                let k = choose|k: int|
                    0 <= k < all.take(i).len() && (#[trigger] f(all.take(i)[k])).contains(done[q]);
                assert(all.take(i)[k] == all[k]);
                lemma_kept(s, at, k, done[q]);
                assert(all[k].0 != all[i].0);
            }
        }
    }
}

impl<'a> Hierarchy<'a> {
    /// An instance that stays as it is.
    fn keep(&self, state: &State, name: &String, inst: &NetlistInstance) -> (res: NewInstance)
        ensures
            res.is_piece(kept_piece(state.level(), (name@, inst@))),
    {
        NewInstance {
            name: name.clone(),
            inst: inst.duplicate(),
            extra: match state.data.extras.get(name.as_str()) {
                Some(extra) => Some(extra.duplicate()),
                None => None,
            },
            cell: match state.cell_of.get(name.as_str()) {
                Some(cell) => Some(cell.clone()),
                None => None,
            },
        }
    }

    /// The cell of an instance inside a cell: an explicit map wins over the
    /// recorded cell name.
    pub(crate) fn resolve_inner(&self, cell: &String, sub: &NetlistData, inner: &String) -> (res: Option<
        String,
    >)
        ensures
            inner_cell(self@, cell@, sub@, inner@) == (match res {
                Some(c) => Some(c@),
                None => None,
            }),
    {
        if let Some(map) = self.cell_maps.get(cell.as_str()) {
            if let Some(c) = map.get(inner.as_str()) {
                return Some(c.clone());
            }
        }
        match sub.extras.get(inner.as_str()) {
            Some(extra) => {
                if extra.cell.as_str().is_empty() {
                    None
                } else {
                    Some(extra.cell.clone())
                }
            },
            None => None,
        }
    }

    /// An instance inside an inlined one.
    fn lift(
        &self,
        state: &State,
        parent: &String,
        cell: &String,
        sub: &NetlistData,
        inner: &String,
        inst: &NetlistInstance,
    ) -> (res: NewInstance)
        requires
            lookup(state.level().cell_of, parent@) == Some(cell@),
            lookup(self@.subs, cell@) == Some(sub@),
        ensures
            res.is_piece(inner_piece(self@, state.level(), parent@, (inner@, inst@))),
    {
        let name = join_name(parent.as_str(), self.options.separator(), inner.as_str());
        let mut inst = inst.duplicate();
        inst.name = name.clone();
        let mut path: Vec<Placement> = match state.data.extras.get(parent.as_str()) {
            Some(extra) => extra.duplicate().path,
            None => {
                let mut path: Vec<Placement> = Vec::new();
                path.push(Placement::default());
                assert(path@ =~= seq![default_placement()]);
                path
            },
        };
        let own = match sub.extras.get(inner.as_str()) {
            Some(extra) => extra.placement,
            None => Placement::default(),
        };
        path.push(own);
        let resolved = self.resolve_inner(cell, sub, inner);
        let recorded = match &resolved {
            Some(c) => c.clone(),
            None => String::new(),
        };
        NewInstance {
            name,
            inst,
            extra: Some(InlinedExtra { cell: recorded, path }),
            cell: resolved,
        }
    }

    /// Puts the contents of each inlined instance in its place, under names
    /// joined with the instance's own.
    pub(crate) fn splice(&self, state: &State, picked: &NameSet) -> (res: Result<Spliced, FlattenError>)
        requires
            forall|n: Name| #[trigger]
                picked@.contains(n) == inlined(self@, state.level(), n),
        ensures
            match res {
                Ok(out) => {
                    let ps = pieces(self@, state.level());
                    first_collision(ps, ps.len()) is None && out.holds(ps)
                },
                Err(e) => {
                    let ps = pieces(self@, state.level());
                    first_collision(ps, ps.len()) matches Some(p) && e@
                        == (FlattenErrorView::NameTaken {
                        instance: ps[p].parent.unwrap(),
                        name: ps[p].name,
                    })
                },
            },
    {
        let ghost s = self@;
        let ghost at = state.level();
        let ghost all = at.data.instances;
        let ghost f = |e: (Name, InstanceView)| pieces_of(s, at, e);
        let ghost ps = pieces(s, at);
        let mut out = Spliced::new();
        let n = state.data.instances.len();
        assert(all.take(0).flat_map(f) =~= Seq::<Piece>::empty());
        for i in 0..n
            invariant
                s == self@,
                at == state.level(),
                all == at.data.instances,
                f == (|e: (Name, InstanceView)| pieces_of(s, at, e)),
                ps == pieces(s, at),
                n == all.len(),
                unique_names(all),
                forall|n: Name| #[trigger]
                    picked@.contains(n) == inlined(s, at, n),
                out.holds(all.take(i as int).flat_map(f)),
                first_collision(ps, all.take(i as int).flat_map(f).len()) is None,
        {
            let (name, inst) = state.data.instances.entry_at(i);
            let ghost e = all[i as int];
            let ghost head = all.take(i as int).flat_map(f);
            assert(e == (name@, inst@));
            proof {
                lemma_inlined(s, at, i as int);
                all.lemma_flat_map_take_append(f, i as int);
                lemma_flat_map_prefix(all, f, i as int, f(e).len() as int);
                assert(f(e).take(f(e).len() as int) =~= f(e));
            }
            if !picked.contains(name.as_str()) {
                let item = self.keep(state, name, inst);
                proof {
                    lemma_kept_fresh(s, at, i as int, head);
                    assert(ps[head.len() as int] == ps.take(head.len() as int + 1)[head.len() as int]);
                }
                out.add_piece(item, Ghost(head), Ghost(kept_piece(at, e)));
                assert(head.push(kept_piece(at, e)) =~= head + f(e));
                assert(!collides(ps, head.len() as int));
            } else {
                let cell = match state.cell_of.get(name.as_str()) {
                    Some(cell) => cell,
                    None => {
                        assert(false);
                        vstd::pervasive::unreached()
                    },
                };
                let sub = match self.subs.get(cell.as_str()) {
                    Some(sub) => sub,
                    None => {
                        assert(false);
                        vstd::pervasive::unreached()
                    },
                };
                assert(cell_netlist(s, at, name@) == sub@);
                let m = sub.instances.len();
                assert(head + f(e).take(0) =~= head);
                for j in 0..m
                    invariant
                        s == self@,
                        at == state.level(),
                        all == at.data.instances,
                        f == (|e: (Name, InstanceView)| pieces_of(s, at, e)),
                        ps == pieces(s, at),
                        0 <= i < all.len(),
                        unique_names(all),
                        forall|n: Name| #[trigger]
                            picked@.contains(n) == inlined(s, at, n),
                        e == all[i as int],
                        e.0 == name@,
                        fate(s, at, e) is Inline,
                        lookup(at.cell_of, name@) == Some(cell@),
                        lookup(s.subs, cell@) == Some(sub@),
                        m == sub@.instances.len(),
                        f(e).len() == m,
                        head == all.take(i as int).flat_map(f),
                        out.holds(head + f(e).take(j as int)),
                        first_collision(ps, (head.len() + j) as nat) is None,
                {
                    let (inner, inner_inst) = sub.instances.entry_at(j);
                    let ghost p = f(e)[j as int];
                    let ghost done = head + f(e).take(j as int);
                    let ghost k = head.len() + j;
                    assert(sub@.instances[j as int] == (inner@, inner_inst@));
                    assert(p == inner_piece(s, at, name@, (inner@, inner_inst@)));
                    proof {
                        lemma_flat_map_prefix(all, f, i as int, j as int);
                        lemma_flat_map_prefix(all, f, i as int, j + 1);
                        assert(f(e).take(j + 1) =~= f(e).take(j as int).push(p));
                        assert(ps[k] == ps.take(k + 1)[k]);
                        assert(ps[k] == p);
                        assert(forall|q: int| #![auto] 0 <= q < k ==> done[q] == ps.take(k)[q]);
                        assert(forall|q: int| #![auto] 0 <= q < k ==> done[q] == ps[q]);
                    }
                    let item = self.lift(state, name, cell, sub, inner, inner_inst);
                    let taken = out.instances.contains_key(item.name.as_str());
                    let survives = state.data.instances.contains_key(item.name.as_str())
                        && !picked.contains(item.name.as_str());
                    proof {
                        lemma_survivors(s, at, p.name);
                        let built = out.instances@;
                        assert(taken <==> exists|q: int| 0 <= q < k && (#[trigger] ps[q]).name
                            == p.name) by {
                            if has_name(built, p.name) {
                                let q = position(built, p.name);
                                assert(done[q].name == p.name);
                                assert(ps[q].name == p.name);
                            }
                            if exists|q: int| 0 <= q < k && (#[trigger] ps[q]).name == p.name {
                                let q = choose|q: int|
                                    0 <= q < k && (#[trigger] ps[q]).name == p.name;
                                assert(done[q] == ps[q]);
                                assert(built[q].0 == p.name);
                            }
                        }
                        assert(collides(ps, k) == (taken || survives));
                        assert(first_collision(ps, (k + 1) as nat) == if taken || survives {
                            Some(k)
                        } else {
                            None
                        });
                    }
                    if taken || survives {
                        proof {
                            lemma_collision_prefix(ps, (k + 1) as nat, ps.len());
                        }
                        return Err(
                            FlattenError::NameTaken { instance: name.clone(), name: item.name },
                        );
                    }
                    proof {
                        assert forall|q: int| 0 <= q < done.len() implies (#[trigger] done[q]).name
                            != p.name by {
                            assert(done[q] == ps[q]);
                        }
                    }
                    out.add_piece(item, Ghost(done), Ghost(p));
                    assert(done.push(p) =~= head + f(e).take(j + 1));
                }
                assert(f(e).take(m as int) =~= f(e));
            }
        }
        assert(all.take(n as int) =~= all);
        Ok(out)
    }
}

} // verus!

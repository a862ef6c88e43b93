//! One pass over the nets: the wires of the parent and of the inlined cells.

use vstd::prelude::*;

use crate::duplicate::Duplicate;
use crate::flatten::{Hierarchy, State};
use crate::flatten_model::{
    cell_netlist, hit, inlined, inner_end, inner_member, inner_wire, inner_wires, lemma_inlined,
    outer_wire, outer_wires, wires_inside,
};
use crate::instance::InstanceView;
use crate::name_map::{unique_names, NameSet};
use crate::names::{join_name, Name};
use crate::net::{MemberView, Net, NetMember, PortArrayRefData, PortRef};
use crate::seqs::{lemma_filter_map_push, lemma_take_next, lemma_views_push};
use crate::sorting::views;
use crate::wiring::Wire;

verus! {

/// The port of an inlined instance that a member refers to.
fn port_hit(picked: &NameSet, member: &NetMember) -> (res: Option<PortRef>)
    ensures
        match (res, member@) {
            (Some(port), MemberView::Ref(i, p)) => picked@.contains(i) && port@ == (i, p),
            (Some(port), MemberView::ArrayRef(i, p, _, _)) => picked@.contains(i) && port@ == (
                i,
                p,
            ),
            (Some(port), MemberView::Port(_)) => false,
            (None, MemberView::Ref(i, _)) => !picked@.contains(i),
            (None, MemberView::ArrayRef(i, _, _, _)) => !picked@.contains(i),
            (None, MemberView::Port(_)) => true,
        },
{
    match member {
        NetMember::Ref(r) => {
            if picked.contains(r.instance.as_str()) {
                Some(r.duplicate())
            } else {
                None
            }
        },
        NetMember::ArrayRef(r) => {
            if picked.contains(r.instance.as_str()) {
                Some(PortRef { instance: r.instance.clone(), port: r.port.clone() })
            } else {
                None
            }
        },
        NetMember::Port(_) => None,
    }
}

impl<'a> Hierarchy<'a> {
    /// A net of the parent: members that refer to an inlined instance are
    /// where it continues.
    fn wire_outside(&self, state: &State, picked: &NameSet, net: &Net) -> (res: Wire)
        requires
            forall|n: Name| #[trigger]
                picked@.contains(n) == inlined(self@, state.level(), n),
        ensures
            res@ == outer_wire(self@, state.level(), net@),
    {
        let ghost s = self@;
        let ghost at = state.level();
        let ghost keeps = |m: MemberView| hit(s, at, m) is None;
        let ghost ending = |m: MemberView| hit(s, at, m);
        let mut kept: Vec<NetMember> = Vec::new();
        let mut ends: Vec<PortRef> = Vec::new();
        let n = net.members.len();
        proof {
            reveal(Seq::filter);
            assert(views(kept@) =~= Seq::<MemberView>::empty());
            assert(views(ends@) =~= Seq::<(Name, Name)>::empty());
        }
        for i in 0..n
            invariant
                n == net.members.len(),
                s == self@,
                at == state.level(),
                keeps == (|m: MemberView| hit(s, at, m) is None),
                ending == (|m: MemberView| hit(s, at, m)),
                forall|n: Name| #[trigger]
                    picked@.contains(n) == inlined(s, at, n),
                views(kept@) == net@.take(i as int).filter(keeps),
                views(ends@) == net@.take(i as int).filter_map(ending),
        {
            let member = &net.members[i];
            let found = port_hit(picked, member);
            proof {
                lemma_take_next(net@, i as int);
                net@.take(i as int).lemma_filter_push(member@, keeps);
                lemma_filter_map_push(net@.take(i as int), member@, ending);
                assert(hit(s, at, member@) == (match found {
                    Some(port) => Some(port@),
                    None => None,
                }));
            }
            match found {
                Some(port) => {
                    proof {
                        lemma_views_push(ends@, port);
                    }
                    ends.push(port);
                },
                None => {
                    let copy = member.duplicate();
                    proof {
                        lemma_views_push(kept@, copy);
                    }
                    kept.push(copy);
                },
            }
        }
        assert(net@.take(n as int) =~= net@);
        Wire { kept, ends }
    }

    /// A net inside an inlined instance: its references get the parent's name
    /// in front, and it continues at the ports of the cell.
    fn wire_inside(&self, parent: &String, net: &Net) -> (res: Wire)
        ensures
            res@ == inner_wire(self@, parent@, net@),
    {
        let ghost s = self@;
        let ghost moving = |m: MemberView| inner_member(s, parent@, m);
        let ghost ending = |m: MemberView| inner_end(parent@, m);
        let mut kept: Vec<NetMember> = Vec::new();
        let mut ends: Vec<PortRef> = Vec::new();
        let n = net.members.len();
        proof {
            assert(views(kept@) =~= Seq::<MemberView>::empty());
            assert(views(ends@) =~= Seq::<(Name, Name)>::empty());
        }
        for i in 0..n
            invariant
                n == net.members.len(),
                s == self@,
                moving == (|m: MemberView| inner_member(s, parent@, m)),
                ending == (|m: MemberView| inner_end(parent@, m)),
                views(kept@) == net@.take(i as int).filter_map(moving),
                views(ends@) == net@.take(i as int).filter_map(ending),
        {
            let member = &net.members[i];
            proof {
                lemma_take_next(net@, i as int);
                lemma_filter_map_push(net@.take(i as int), member@, moving);
                lemma_filter_map_push(net@.take(i as int), member@, ending);
            }
            match member {
                NetMember::Port(p) => {
                    let end = PortRef { instance: parent.clone(), port: p.name.clone() };
                    proof {
                        lemma_views_push(ends@, end);
                    }
                    ends.push(end);
                },
                NetMember::Ref(r) => {
                    let moved = NetMember::Ref(
                        PortRef {
                            instance: join_name(
                                parent.as_str(),
                                self.options.separator(),
                                r.instance.as_str(),
                            ),
                            port: r.port.clone(),
                        },
                    );
                    proof {
                        lemma_views_push(kept@, moved);
                    }
                    kept.push(moved);
                },
                NetMember::ArrayRef(r) => {
                    let moved = NetMember::ArrayRef(
                        PortArrayRefData {
                            instance: join_name(
                                parent.as_str(),
                                self.options.separator(),
                                r.instance.as_str(),
                            ),
                            port: r.port.clone(),
                            ia: r.ia,
                            ib: r.ib,
                        },
                    );
                    proof {
                        lemma_views_push(kept@, moved);
                    }
                    kept.push(moved);
                },
            }
        }
        assert(net@.take(n as int) =~= net@);
        Wire { kept, ends }
    }

    /// The wires of the parent's nets.
    pub(crate) fn wires_of_parent(&self, state: &State, picked: &NameSet) -> (res: Vec<Wire>)
        requires
            forall|n: Name| #[trigger]
                picked@.contains(n) == inlined(self@, state.level(), n),
        ensures
            views(res@) == outer_wires(self@, state.level()),
    {
        let mut res: Vec<Wire> = Vec::new();
        let n = state.data.nets.len();
        for i in 0..n
            invariant
                n == state.data.nets.len(),
                forall|n: Name| #[trigger]
                    picked@.contains(n) == inlined(self@, state.level(), n),
                res.len() == i,
                forall|k: int|
                    0 <= k < i ==> (#[trigger] res[k])@ == outer_wire(
                        self@,
                        state.level(),
                        state.data.nets[k]@,
                    ),
        {
            res.push(self.wire_outside(state, picked, &state.data.nets[i]));
        }
        assert(views(res@) =~= outer_wires(self@, state.level()));
        res
    }

    /// The wires inside the inlined instances.
    pub(crate) fn wires_of_cells(&self, state: &State, picked: &NameSet) -> (res: Vec<Wire>)
        requires
            forall|n: Name| #[trigger]
                picked@.contains(n) == inlined(self@, state.level(), n),
        ensures
            views(res@) == inner_wires(self@, state.level()),
    {
        let ghost s = self@;
        let ghost at = state.level();
        let ghost all = at.data.instances;
        let ghost f = |e: (Name, InstanceView)| wires_inside(s, at, e);
        let mut res: Vec<Wire> = Vec::new();
        let n = state.data.instances.len();
        assert(views(res@) =~= all.take(0).flat_map(f));
        for i in 0..n
            invariant
                s == self@,
                at == state.level(),
                all == at.data.instances,
                f == (|e: (Name, InstanceView)| wires_inside(s, at, e)),
                n == all.len(),
                unique_names(all),
                forall|n: Name| #[trigger]
                    picked@.contains(n) == inlined(s, at, n),
                views(res@) == all.take(i as int).flat_map(f),
        {
            let (name, inst) = state.data.instances.entry_at(i);
            let ghost e = all[i as int];
            let ghost head = views(res@);
            proof {
                assert(e == (name@, inst@));
                lemma_inlined(s, at, i as int);
                all.lemma_flat_map_take_append(f, i as int);
            }
            if picked.contains(name.as_str()) {
                let cell = match state.cell_of.get(name.as_str()) {
                    Some(cell) => cell,
                    None => {
                        assert(false);
                        vstd::pervasive::unreached()
                    },
                };
                let sub = match self.subs.get(cell.as_str()) {
                    Some(sub) => sub,
                    None => {
                        assert(false);
                        vstd::pervasive::unreached()
                    },
                };
                assert(cell_netlist(s, at, name@) == sub@);
                let m = sub.nets.len();
                assert(head + f(e).take(0) =~= head);
                for j in 0..m
                    invariant
                        s == self@,
                        m == sub.nets.len(),
                        f(e).len() == m,
                        forall|k: int|
                            0 <= k < m ==> (#[trigger] f(e)[k]) == inner_wire(
                                s,
                                name@,
                                sub.nets[k]@,
                            ),
                        views(res@) == head + f(e).take(j as int),
                {
                    let wire = self.wire_inside(name, &sub.nets[j]);
                    proof {
                        lemma_views_push(res@, wire);
                        lemma_take_next(f(e), j as int);
                        assert(head + f(e).take(j as int).push(wire@) =~= (head + f(e).take(
                            j as int,
                        )).push(wire@));
                    }
                    res.push(wire);
                }
                assert(f(e).take(m as int) =~= f(e));
            } else {
                assert(head + f(e) =~= head);
            }
        }
        assert(all.take(n as int) =~= all);
        res
    }
}

} // verus!

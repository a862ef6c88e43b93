//! Ports and nets, and the order in which they are listed.

use vstd::prelude::*;
use vstd::relations::total_ordering;

use crate::duplicate::{duplicate_all, Duplicate};
use crate::names::{lemma_name_order, name_at_most, name_le, same_name, Name};
use crate::seqs::{lemma_lex_order, lex_le};
use crate::sorting::{sort_values, sorted_views, views, Ordered};

verus! {

/// A port of an instance.
#[derive(Debug, PartialEq, Eq)]
pub struct PortRef {
    pub instance: String,
    pub port: String,
}

impl View for PortRef {
    type V = (Name, Name);

    open spec fn view(&self) -> (Name, Name) {
        (self.instance@, self.port@)
    }
}

impl Duplicate for PortRef {
    fn duplicate(&self) -> (res: Self) {
        PortRef { instance: self.instance.clone(), port: self.port.clone() }
    }
}

/// A port of one element of an array instance.
#[derive(Debug, PartialEq, Eq)]
pub struct PortArrayRefData {
    pub instance: String,
    pub port: String,
    pub ia: i64,
    pub ib: i64,
}

/// A port of the netlist itself.
#[derive(Debug, PartialEq, Eq)]
pub struct NetlistPort {
    pub name: String,
}

impl View for NetlistPort {
    type V = Name;

    open spec fn view(&self) -> Name {
        self.name@
    }
}

impl Duplicate for NetlistPort {
    fn duplicate(&self) -> (res: Self) {
        NetlistPort { name: self.name.clone() }
    }
}

impl Ordered for NetlistPort {
    open spec fn le(a: Name, b: Name) -> bool {
        name_le(a, b)
    }

    proof fn order_is_total() {
        lemma_name_order();
        assert(total_ordering(|a: Name, b: Name| Self::le(a, b)));
    }

    fn at_most(&self, other: &Self) -> (res: bool) {
        name_at_most(self.name.as_str(), other.name.as_str())
    }
}

/// What a net connects.
#[derive(Debug, PartialEq, Eq)]
pub enum NetMember {
    Port(NetlistPort),
    Ref(PortRef),
    ArrayRef(PortArrayRefData),
}

/// View of [`NetMember`].
pub enum MemberView {
    Port(Name),
    Ref(Name, Name),
    ArrayRef(Name, Name, i64, i64),
}

impl View for NetMember {
    type V = MemberView;

    open spec fn view(&self) -> MemberView {
        match self {
            NetMember::Port(p) => MemberView::Port(p.name@),
            NetMember::Ref(r) => MemberView::Ref(r.instance@, r.port@),
            NetMember::ArrayRef(r) => MemberView::ArrayRef(r.instance@, r.port@, r.ia, r.ib),
        }
    }
}

impl Duplicate for NetMember {
    fn duplicate(&self) -> (res: Self) {
        match self {
            NetMember::Port(p) => NetMember::Port(p.duplicate()),
            NetMember::Ref(r) => NetMember::Ref(r.duplicate()),
            NetMember::ArrayRef(r) => NetMember::ArrayRef(
                PortArrayRefData {
                    instance: r.instance.clone(),
                    port: r.port.clone(),
                    ia: r.ia,
                    ib: r.ib,
                },
            ),
        }
    }
}

/// Lexicographic order of pairs of names.
pub open spec fn pair_le(a: (Name, Name), b: (Name, Name)) -> bool {
    if a.0 == b.0 {
        name_le(a.1, b.1)
    } else {
        name_le(a.0, b.0)
    }
}

/// Ports come first, then plain references, then array references; each kind
/// is ordered by its fields.
pub open spec fn member_le(a: MemberView, b: MemberView) -> bool {
    match (a, b) {
        (MemberView::Port(x), MemberView::Port(y)) => name_le(x, y),
        (MemberView::Port(_), _) => true,
        (_, MemberView::Port(_)) => false,
        (MemberView::Ref(i, p), MemberView::Ref(j, q)) => pair_le((i, p), (j, q)),
        (MemberView::Ref(_, _), MemberView::ArrayRef(_, _, _, _)) => true,
        (MemberView::ArrayRef(_, _, _, _), MemberView::Ref(_, _)) => false,
        (MemberView::ArrayRef(i, p, a1, b1), MemberView::ArrayRef(j, q, a2, b2)) => {
            if (i, p) != (j, q) {
                pair_le((i, p), (j, q))
            } else if a1 != a2 {
                a1 < a2
            } else {
                b1 <= b2
            }
        },
    }
}

fn pair_at_most(i: &String, p: &String, j: &String, q: &String) -> (res: bool)
    ensures
        res == pair_le((i@, p@), (j@, q@)),
{
    if same_name(i, j) {
        name_at_most(p.as_str(), q.as_str())
    } else {
        name_at_most(i.as_str(), j.as_str())
    }
}

impl Ordered for NetMember {
    open spec fn le(a: MemberView, b: MemberView) -> bool {
        member_le(a, b)
    }

    proof fn order_is_total() {
        lemma_name_order();
        let le = |a: MemberView, b: MemberView| Self::le(a, b);
        assert(total_ordering(le));
    }

    fn at_most(&self, other: &Self) -> (res: bool) {
        match (self, other) {
            (NetMember::Port(x), NetMember::Port(y)) => name_at_most(
                x.name.as_str(),
                y.name.as_str(),
            ),
            (NetMember::Port(_), _) => true,
            (_, NetMember::Port(_)) => false,
            (NetMember::Ref(x), NetMember::Ref(y)) => pair_at_most(
                &x.instance,
                &x.port,
                &y.instance,
                &y.port,
            ),
            (NetMember::Ref(_), NetMember::ArrayRef(_)) => true,
            (NetMember::ArrayRef(_), NetMember::Ref(_)) => false,
            (NetMember::ArrayRef(x), NetMember::ArrayRef(y)) => {
                if !same_name(&x.instance, &y.instance) || !same_name(&x.port, &y.port) {
                    pair_at_most(&x.instance, &x.port, &y.instance, &y.port)
                } else if x.ia != y.ia {
                    x.ia < y.ia
                } else {
                    x.ib <= y.ib
                }
            },
        }
    }
}

impl NetMember {
    /// The two members are the same.
    pub fn same(&self, other: &NetMember) -> (res: bool)
        ensures
            res == (self@ == other@),
    {
        match (self, other) {
            (NetMember::Port(x), NetMember::Port(y)) => same_name(&x.name, &y.name),
            (NetMember::Ref(x), NetMember::Ref(y)) => same_name(&x.instance, &y.instance)
                && same_name(&x.port, &y.port),
            (NetMember::ArrayRef(x), NetMember::ArrayRef(y)) => same_name(
                &x.instance,
                &y.instance,
            ) && same_name(&x.port, &y.port) && x.ia == y.ia && x.ib == y.ib,
            _ => false,
        }
    }
}

/// Ports that are connected to each other.
#[derive(Debug, PartialEq, Eq)]
pub struct Net {
    pub members: Vec<NetMember>,
}

impl View for Net {
    type V = Seq<MemberView>;

    open spec fn view(&self) -> Seq<MemberView> {
        views(self.members@)
    }
}

impl Duplicate for Net {
    fn duplicate(&self) -> (res: Self) {
        Net { members: duplicate_all(&self.members) }
    }
}

/// Lexicographic order of nets by their members.
pub open spec fn net_le(a: Seq<MemberView>, b: Seq<MemberView>) -> bool {
    lex_le(|x: MemberView, y: MemberView| NetMember::le(x, y), a, b)
}

impl Ordered for Net {
    open spec fn le(a: Seq<MemberView>, b: Seq<MemberView>) -> bool {
        net_le(a, b)
    }

    proof fn order_is_total() {
        NetMember::order_is_total();
        let members = |x: MemberView, y: MemberView| NetMember::le(x, y);
        lemma_lex_order(members);
        let le = |a: Seq<MemberView>, b: Seq<MemberView>| Self::le(a, b);
        assert(le =~= (|a: Seq<MemberView>, b: Seq<MemberView>| lex_le(members, a, b)));
    }

    fn at_most(&self, other: &Self) -> (res: bool) {
        let n = self.members.len();
        let m = other.members.len();
        let mut k: usize = 0;
        assert(self@.skip(0) =~= self@);
        assert(other@.skip(0) =~= other@);
        while k < n
            invariant
                n == self.members.len(),
                m == other.members.len(),
                k <= n,
                k <= m,
                net_le(self@, other@) == net_le(self@.skip(k as int), other@.skip(k as int)),
            decreases n - k,
        {
            if k == m {
                return false;
            }
            assert(self@.skip(k as int)[0] == self.members[k as int]@);
            assert(other@.skip(k as int)[0] == other.members[k as int]@);
            if !self.members[k].same(&other.members[k]) {
                return self.members[k].at_most(&other.members[k]);
            }
            assert(self@.skip(k as int).drop_first() =~= self@.skip(k + 1));
            assert(other@.skip(k as int).drop_first() =~= other@.skip(k + 1));
            k = k + 1;
        }
        true
    }
}

impl Net {
    /// A net of the given members.
    pub fn from_members(members: Vec<NetMember>) -> (res: Self)
        ensures
            res@ == views(members@),
    {
        Net { members }
    }

    /// Puts the members in order.
    pub fn sort_in_place(&mut self)
        ensures
            final(self)@ == sorted_views::<NetMember>(old(self)@),
    {
        let mut members: Vec<NetMember> = Vec::new();
        std::mem::swap(&mut self.members, &mut members);
        self.members = sort_values(members);
    }
}

} // verus!

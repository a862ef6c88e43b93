//! What the operations on placed netlists do, field by field.

use vstd::prelude::*;

use crate::error_laws::law_reason;
use crate::flatten::names_in;
use crate::flatten_model::{skip_of, skips, warned_after, FlatView, Level, OptionsView, Setting};
use crate::instance::{InstanceView, Settings, SettingsView};
use crate::name_map::{
    has_name, lemma_filter_map_lookup, lemma_lookup_at, lemma_only_names, lemma_put_lookup, lookup,
    names_of, only_names, position, put, unique_names, without,
};
use crate::names::{char_le, decimal_text, name_le, Name};
use crate::net::{MemberView, Net, NetMember, NetlistPort};
use crate::netlist::{made_instance, NetlistView};
use crate::pass_laws::{gives_way, is_unplaced};
use crate::placed::{
    composed_extras, extra_of, merged_extras, placed_data, placed_instance, placed_instances,
    placed_view, placement_or_default, plain_data, settings_or_empty, PlacedView,
};
use crate::placed_laws::{
    law_merge_union, law_placed_instance, lemma_only_lookup, lemma_without_lookup,
};
use crate::placement::{bbox_eq, default_placement, number_eq, placement_eq, ExtraView, Placement};
use crate::seqs::{lemma_filter_map_has, lex_le};
use crate::sorting::{views, Ordered};
use crate::turn::{turn_by, turn_of, unit_number};
use crate::wire::{
    read, read_extra, read_instance, written, written_instance, InstanceWireView, NetlistWireView,
};

verus! {

/// A name leads to the value that it is paired with, and to nothing if it is
/// paired with none.
pub proof fn law_lookup<T>(s: Seq<(Name, T)>, name: Name)
    requires
        forall|i: int, j: int|
            0 <= i < s.len() && 0 <= j < s.len() && (#[trigger] s[i]).0 == (#[trigger] s[j]).0
                ==> i == j,
    ensures
        unique_names(s),
        forall|i: int| 0 <= i < s.len() ==> lookup(s, (#[trigger] s[i]).0) == Some(s[i].1),
        (forall|i: int| 0 <= i < s.len() ==> (#[trigger] s[i]).0 != name) ==> lookup(s, name)
            is None,
        has_name(s, name) <==> lookup(s, name) is Some,
{
    assert forall|i: int| 0 <= i < s.len() implies lookup(s, (#[trigger] s[i]).0) == Some(
        s[i].1,
    ) by {
        lemma_lookup_at(s, i);
    }
}

/// Pairing a name with a value leaves every other pair as it is and where it
/// is; a new name comes last.
pub proof fn law_put<T>(s: Seq<(Name, T)>, name: Name, value: T)
    requires
        unique_names(s),
    ensures
        unique_names(put(s, name, value)),
        lookup(put(s, name, value), name) == Some(value),
        put(s, name, value).len() == s.len() + if has_name(s, name) {
            0int
        } else {
            1int
        },
        forall|i: int|
            0 <= i < s.len() ==> (#[trigger] put(s, name, value)[i]).0 == s[i].0 && (s[i].0 != name
                ==> put(s, name, value)[i].1 == s[i].1),
{
    lemma_put_lookup(s, name, value);
}

/// Taking a name out, or keeping some names only, leaves the other pairs as
/// they are.
pub proof fn law_taken_out<T>(s: Seq<(Name, T)>, name: Name, keep: Set<Name>, other: Name)
    requires
        unique_names(s),
    ensures
        !has_name(without(s, name), name),
        other != name ==> lookup(without(s, name), other) == lookup(s, other),
        keep.contains(other) ==> lookup(only_names(s, keep), other) == lookup(s, other),
        !keep.contains(other) ==> !has_name(only_names(s, keep), other),
{
    lemma_without_lookup(s, set![name], name);
    lemma_without_lookup(s, set![name], other);
    lemma_only_lookup(s, keep, other);
}

/// What is recorded of an instance, or else an empty cell name and the
/// placement that changes nothing.
pub open spec fn is_recorded(
    extras: Seq<(Name, ExtraView)>,
    name: Name,
    cell: Name,
    p: Placement,
) -> bool {
    match lookup(extras, name) {
        Some(extra) => cell == extra.cell && p == extra.placement,
        None => cell.len() == 0 && is_unplaced(p),
    }
}

/// Looking up what is recorded of an instance.
pub proof fn law_recorded(extras: Seq<(Name, ExtraView)>, name: Name)
    ensures
        is_recorded(extras, name, extra_of(extras, name).cell, extra_of(extras, name).placement),
{
}

/// Instances are listed one for one, in order: each is the plain instance with
/// the cell name and the placement that are recorded of it.
pub proof fn law_listed(v: PlacedView, i: int)
    requires
        0 <= i < v.base.instances.len(),
    ensures
        placed_instances(v).len() == v.base.instances.len(),
        placed_instances(v)[i].0 == v.base.instances[i].0,
        placed_instances(v)[i].1.base == v.base.instances[i].1,
        is_recorded(
            v.extras,
            v.base.instances[i].0,
            placed_instances(v)[i].1.cell,
            placed_instances(v)[i].1.placement,
        ),
{
    law_recorded(v.extras, v.base.instances[i].0);
}

/// The two ways to look at placements agree: an instance that has one is
/// listed with it.
pub proof fn law_placements_agree(v: PlacedView, name: Name)
    requires
        unique_names(v.base.instances),
        has_name(v.base.instances, name),
        has_name(v.extras, name),
    ensures
        lookup(placed_instances(v), name) matches Some(p) && lookup(v.extras, name) matches Some(
            extra,
        ) && lookup(v.base.instances, name) matches Some(inst) && p.base == inst && p.cell
            == extra.cell && p.placement == extra.placement,
{
    law_placed_instance(v, name);
}

/// The two layers of an instance are put together unchanged.
pub proof fn law_layers(inst: InstanceView, extra: ExtraView)
    ensures
        placed_instance(inst, extra).base == inst,
        placed_instance(inst, extra).cell == extra.cell,
        placed_instance(inst, extra).placement == extra.placement,
{
}

/// Each field is written as the field of the same name; null settings are
/// written as the empty object.
pub open spec fn writes(w: InstanceWireView, inst: InstanceView) -> bool {
    &&& w.kcl == inst.kcl
    &&& w.component == inst.component
    &&& w.array == inst.array
    &&& w.settings == match inst.settings {
        SettingsView::Null => SettingsView::Json("{}"@),
        SettingsView::Json(text) => SettingsView::Json(text),
    }
}

/// Instances are written one for one, in order, each field under its name, and
/// nets and ports as they are.
pub proof fn law_written(v: PlacedView, i: int)
    requires
        0 <= i < v.base.instances.len(),
    ensures
        written(v).instances.len() == v.base.instances.len(),
        written(v).instances[i].0 == v.base.instances[i].0,
        writes(written(v).instances[i].1, v.base.instances[i].1),
        is_recorded(
            v.extras,
            v.base.instances[i].0,
            written(v).instances[i].1.cell,
            written(v).instances[i].1.placement,
        ),
        written(v).nets == v.base.nets,
        written(v).ports == v.base.ports,
{
    law_recorded(v.extras, v.base.instances[i].0);
}

/// A single instance is written field by field.
pub proof fn law_written_instance(inst: InstanceView, extra: ExtraView)
    ensures
        writes(written_instance(inst, extra), inst),
        written_instance(inst, extra).cell == extra.cell,
        written_instance(inst, extra).placement == extra.placement,
{
}

/// Each field is read from the field of the same name, and the name is given.
pub proof fn law_read_instance(w: InstanceWireView, name: Name)
    ensures
        read_instance(w, name).kcl == w.kcl,
        read_instance(w, name).component == w.component,
        read_instance(w, name).settings == w.settings,
        read_instance(w, name).array == w.array,
        read_instance(w, name).name == name,
        read_extra(w).cell == w.cell,
        read_extra(w).placement == w.placement,
{
}

/// Instances are read one for one, in order, each field from its name, with
/// something recorded of each, and nets and ports as they are.
pub proof fn law_read(w: NetlistWireView, i: int)
    requires
        0 <= i < w.instances.len(),
    ensures
        read(w).base.instances.len() == w.instances.len(),
        read(w).base.instances[i].0 == w.instances[i].0,
        read(w).base.instances[i].1.kcl == w.instances[i].1.kcl,
        read(w).base.instances[i].1.component == w.instances[i].1.component,
        read(w).base.instances[i].1.settings == w.instances[i].1.settings,
        read(w).base.instances[i].1.array == w.instances[i].1.array,
        read(w).base.instances[i].1.name == w.instances[i].0,
        read(w).extras.len() == w.instances.len(),
        read(w).extras[i].0 == w.instances[i].0,
        read(w).extras[i].1.cell == w.instances[i].1.cell,
        read(w).extras[i].1.placement == w.instances[i].1.placement,
        read(w).base.nets == w.nets,
        read(w).base.ports == w.ports,
{
}

/// A made instance has what it is made of; it is an array with more than one
/// element in some direction only, and without settings it has the empty
/// object.
pub proof fn law_made(
    name: Name,
    kcl: Seq<char>,
    component: Seq<char>,
    settings: Option<SettingsView>,
    na: i64,
    nb: i64,
)
    ensures
        ({
            let inst = made_instance(name, kcl, component, settings, na, nb);
            &&& inst.name == name
            &&& inst.kcl == kcl
            &&& inst.component == component
            &&& settings matches Some(given) ==> inst.settings == given
            &&& settings is None ==> inst.settings == SettingsView::Json("{}"@)
            &&& inst.array is Some <==> na > 1 || nb > 1
            &&& inst.array matches Some(a) ==> a.na == na && a.nb == nb
        }),
{
}

/// What is left out gets its default.
pub proof fn law_defaults(settings: Option<Settings>, placement: Option<Placement>)
    ensures
        is_unplaced(default_placement()),
        settings matches Some(given) ==> settings_or_empty(settings) == given@,
        settings is None ==> settings_or_empty(settings) == SettingsView::Json("{}"@),
        placement matches Some(given) ==> placement_or_default(placement) == given,
        placement is None ==> is_unplaced(placement_or_default(placement)),
{
}

/// Netlists are read for flattening as they are, with nothing recorded of the
/// instances of a plain one.
pub proof fn law_read_for_flattening(plain: NetlistView, placed: PlacedView)
    ensures
        plain_data(plain).instances == plain.instances,
        plain_data(plain).nets == plain.nets,
        plain_data(plain).ports == plain.ports,
        plain_data(plain).extras.len() == 0,
        placed_data(placed).instances == placed.base.instances,
        placed_data(placed).nets == placed.base.nets,
        placed_data(placed).ports == placed.base.ports,
        placed_data(placed).extras == placed.extras,
{
}

/// Placing a flattened netlist keeps its instances, nets and ports, and
/// records of instance `i` the cell name that it has and the placement that is
/// given, unless there is no such instance.
pub proof fn law_placed(data: FlatView, composed: Seq<Placement>, i: int)
    requires
        unique_names(data.extras),
        composed.len() == data.extras.len(),
        0 <= i < data.extras.len(),
    ensures
        ({
            let v = placed_view(data, composed);
            let name = data.extras[i].0;
            &&& v.base.instances == data.instances
            &&& v.base.nets == data.nets
            &&& v.base.ports == data.ports
            &&& if has_name(data.instances, name) {
                lookup(v.extras, name) matches Some(extra) && extra.cell == data.extras[i].1.cell
                    && extra.placement == composed[i]
            } else {
                !has_name(v.extras, name)
            }
        }),
{
    let all = composed_extras(data.extras, composed);
    assert forall|k: int, l: int|
        0 <= k < all.len() && 0 <= l < all.len() && k != l implies (#[trigger] all[k]).0 != (
    #[trigger] all[l]).0 by {
        assert(data.extras[k].0 != data.extras[l].0);
    }
    assert(all[i].0 == data.extras[i].0);
    lemma_lookup_at(all, i);
    lemma_only_lookup(all, names_of(data.instances), data.extras[i].0);
    lemma_only_names(all, names_of(data.instances));
}

/// Nothing else is recorded of a placed flattened netlist.
pub proof fn law_placed_no_more(data: FlatView, composed: Seq<Placement>, name: Name)
    requires
        has_name(placed_view(data, composed).extras, name),
    ensures
        has_name(data.extras, name) && has_name(data.instances, name),
{
    let all = composed_extras(data.extras, composed);
    lemma_only_names(all, names_of(data.instances));
    let i = position(all, name);
    assert(data.extras[i].0 == name);
}

/// Merging records, of every instance that has a placement or a cell name, the
/// one and the other, and of no other instance anything.
pub proof fn law_merged(
    placements: Seq<(Name, Placement)>,
    cells: Seq<(Name, Name)>,
    name: Name,
)
    requires
        unique_names(placements),
        unique_names(cells),
    ensures
        match lookup(merged_extras(placements, cells), name) {
            Some(extra) => {
                &&& has_name(placements, name) || has_name(cells, name)
                &&& match lookup(placements, name) {
                    Some(p) => extra.placement == p,
                    None => is_unplaced(extra.placement),
                }
                &&& match lookup(cells, name) {
                    Some(c) => extra.cell == c,
                    None => extra.cell.len() == 0,
                }
            },
            None => !has_name(placements, name) && !has_name(cells, name),
        },
{
    law_merge_union(placements, cells, name);
}

/// Cells are selected and excluded by the names in the lists.
pub proof fn law_names_in(list: Seq<String>, name: Name)
    ensures
        names_in(list).contains(name) <==> exists|i: int|
            0 <= i < list.len() && (#[trigger] list[i])@ == name,
{
    let all = views(list);
    if names_in(list).contains(name) {
        let i = choose|i: int| 0 <= i < all.len() && all[i] == name;
        assert(list[i]@ == name);
    }
    if exists|i: int| 0 <= i < list.len() && (#[trigger] list[i])@ == name {
        let i = choose|i: int| 0 <= i < list.len() && (#[trigger] list[i])@ == name;
        assert(all[i] == name);
    }
}

/// Instances of a cell are inlined unless the cell is excluded, or cells are
/// named and it is not among them.
pub proof fn law_selects(o: OptionsView, cell: Name)
    ensures
        o.exclude.contains(cell) ==> !o.selects(cell),
        o.cells is None && !o.exclude.contains(cell) ==> o.selects(cell),
        o.cells matches Some(cells) ==> (o.selects(cell) <==> cells.contains(cell)
            && !o.exclude.contains(cell)),
{
}

/// A pass that reports takes note of every instance that it leaves alone, and
/// of no other.
pub proof fn law_noted(s: Setting, at: Level, warned: Set<Name>, name: Name)
    requires
        unique_names(at.data.instances),
    ensures
        warned_after(s, at, warned).contains(name) <==> warned.contains(name) || (
        s.options.warn_skipped && has_name(at.data.instances, name) && !gives_way(s, at, name)),
{
    let all = at.data.instances;
    let f = |e: (Name, InstanceView)| skip_of(s, at, e);
    lemma_filter_map_lookup(all, |e: (Name, InstanceView)| e.0, f);
    let list = skips(s, at);
    if has_name(list, name) {
        let i = choose|i: int|
            0 <= i < all.len() && (#[trigger] all[i]).0 == name && f(all[i]) is Some;
        law_reason(s, at, i);
    }
    if has_name(all, name) && !gives_way(s, at, name) {
        let i = position(all, name);
        law_reason(s, at, i);
        assert(all.contains(all[i]));
        let report = f(all[i]).unwrap();
        lemma_filter_map_has(all, f, all[i], report);
        let k = choose|k: int| 0 <= k < list.len() && list[k] == report;
        assert(list[k].0 == name);
    }
}

/// Two numbers are equal if neither is a NaN and their bits are the same or
/// both are zero, whatever their sign.
pub proof fn law_number_eq(a: u64, b: u64)
    ensures
        number_eq(a, b) <==> {
            let nan = |x: u64|
                x & 0x7ff0_0000_0000_0000 == 0x7ff0_0000_0000_0000 && x & 0x000f_ffff_ffff_ffff
                    != 0;
            &&& !nan(a)
            &&& !nan(b)
            &&& a == b || (a | b) & 0x7fff_ffff_ffff_ffff == 0
        },
{
    assert(a & 0x7ff0_0000_0000_0000 == 0x7ff0_0000_0000_0000 && a & 0x000f_ffff_ffff_ffff != 0
        <==> a % 0x8000_0000_0000_0000 > 0x7ff0_0000_0000_0000) by (bit_vector);
    assert(b & 0x7ff0_0000_0000_0000 == 0x7ff0_0000_0000_0000 && b & 0x000f_ffff_ffff_ffff != 0
        <==> b % 0x8000_0000_0000_0000 > 0x7ff0_0000_0000_0000) by (bit_vector);
    assert((a | b) & 0x7fff_ffff_ffff_ffff == 0 <==> a % 0x8000_0000_0000_0000 == 0 && b
        % 0x8000_0000_0000_0000 == 0) by (bit_vector);
}

/// Placements are equal if every number, the mirror and the box are.
pub proof fn law_placement_eq(a: Placement, b: Placement)
    ensures
        placement_eq(a, b) <==> {
            &&& number_eq(a.x.bits, b.x.bits)
            &&& number_eq(a.y.bits, b.y.bits)
            &&& number_eq(a.orientation.bits, b.orientation.bits)
            &&& a.mirror == b.mirror
            &&& number_eq(a.bbox.left.bits, b.bbox.left.bits)
            &&& number_eq(a.bbox.bottom.bits, b.bbox.bottom.bits)
            &&& number_eq(a.bbox.right.bits, b.bbox.right.bits)
            &&& number_eq(a.bbox.top.bits, b.bbox.top.bits)
        },
        bbox_eq(a.bbox, b.bbox) <==> {
            &&& number_eq(a.bbox.left.bits, b.bbox.left.bits)
            &&& number_eq(a.bbox.bottom.bits, b.bbox.bottom.bits)
            &&& number_eq(a.bbox.right.bits, b.bbox.right.bits)
            &&& number_eq(a.bbox.top.bits, b.bbox.top.bits)
        },
{
}

/// Ports come before references and these before references to array
/// elements; within a kind the first field that differs decides, in the order
/// instance, port, then the indices.
pub proof fn law_member_order(i: Name, p: Name, a: i64, b: i64, j: Name, q: Name, c: i64, d: i64)
    ensures
        NetMember::le(MemberView::Port(p), MemberView::Port(q)) == name_le(p, q),
        NetMember::le(MemberView::Port(p), MemberView::Ref(j, q)),
        !NetMember::le(MemberView::Ref(j, q), MemberView::Port(p)),
        NetMember::le(MemberView::Port(p), MemberView::ArrayRef(j, q, c, d)),
        !NetMember::le(MemberView::ArrayRef(j, q, c, d), MemberView::Port(p)),
        NetMember::le(MemberView::Ref(i, p), MemberView::ArrayRef(j, q, c, d)),
        !NetMember::le(MemberView::ArrayRef(j, q, c, d), MemberView::Ref(i, p)),
        i != j ==> NetMember::le(MemberView::Ref(i, p), MemberView::Ref(j, q)) == name_le(i, j),
        NetMember::le(MemberView::Ref(i, p), MemberView::Ref(i, q)) == name_le(p, q),
        i != j ==> NetMember::le(
            MemberView::ArrayRef(i, p, a, b),
            MemberView::ArrayRef(j, q, c, d),
        ) == name_le(i, j),
        p != q ==> NetMember::le(
            MemberView::ArrayRef(i, p, a, b),
            MemberView::ArrayRef(i, q, c, d),
        ) == name_le(p, q),
        a != c ==> NetMember::le(
            MemberView::ArrayRef(i, p, a, b),
            MemberView::ArrayRef(i, p, c, d),
        ) == (a < c),
        NetMember::le(MemberView::ArrayRef(i, p, a, b), MemberView::ArrayRef(i, p, a, d)) == (b
            <= d),
        NetlistPort::le(p, q) == name_le(p, q),
{
}

/// The first element that differs decides; what goes on comes later.
proof fn lemma_first_difference<T>(
    le: spec_fn(T, T) -> bool,
    head: Seq<T>,
    x: T,
    u: Seq<T>,
    y: T,
    v: Seq<T>,
)
    ensures
        x != y ==> lex_le(le, head + seq![x] + u, head + seq![y] + v) == le(x, y),
        lex_le(le, head, head + u),
        !lex_le(le, head + seq![x] + u, head),
    decreases head.len(),
{
    let a = head + seq![x] + u;
    let b = head + seq![y] + v;
    let c = head + u;
    if head.len() > 0 {
        let rest = head.drop_first();
        lemma_first_difference(le, rest, x, u, y, v);
        assert(a.drop_first() =~= rest + seq![x] + u);
        assert(b.drop_first() =~= rest + seq![y] + v);
        assert(c.drop_first() =~= rest + u);
        assert(a[0] == head[0] && b[0] == head[0] && c[0] == head[0]);
    } else {
        assert(a[0] == x && b[0] == y);
    }
}

/// Names are ordered by the first character that differs, by code point, and
/// nets by the first member that differs; what goes on comes later.
pub proof fn law_first_difference(
    name: Name,
    x: char,
    u: Name,
    y: char,
    v: Name,
    net: Seq<MemberView>,
    m: MemberView,
    more: Seq<MemberView>,
    n: MemberView,
    other: Seq<MemberView>,
)
    ensures
        x != y ==> name_le(name + seq![x] + u, name + seq![y] + v) == ((x as int) < (y as int)),
        name_le(name, name + u),
        !name_le(name + seq![x] + u, name),
        m != n ==> Net::le(net + seq![m] + more, net + seq![n] + other) == NetMember::le(m, n),
        Net::le(net, net + more),
        !Net::le(net + seq![m] + more, net),
{
    lemma_first_difference(|a: char, b: char| char_le(a, b), name, x, u, y, v);
    lemma_first_difference(
        |a: MemberView, b: MemberView| NetMember::le(a, b),
        net,
        m,
        more,
        n,
        other,
    );
}

/// The number that decimal digits stand for.
pub open spec fn digits_value(text: Seq<char>) -> int
    decreases text.len(),
{
    if text.len() == 0 {
        0
    } else {
        digits_value(text.drop_last()) * 10 + (text.last() as int - '0' as int)
    }
}

/// Decimal text is made of digits, has no leading zero, and stands for its
/// number.
pub proof fn law_decimal(n: nat)
    ensures
        digits_value(decimal_text(n)) == n,
        decimal_text(n).len() > 0,
        n > 0 ==> decimal_text(n)[0] != '0',
        decimal_text(0) == seq!['0'],
        forall|i: int|
            0 <= i < decimal_text(n).len() ==> '0' <= #[trigger] decimal_text(n)[i] <= '9',
    decreases n,
{
    let text = decimal_text(n);
    if n >= 10 {
        law_decimal(n / 10);
        let head = decimal_text(n / 10);
        assert(text.drop_last() =~= head);
        assert(text[0] == head[0]);
        assert forall|i: int| 0 <= i < text.len() implies '0' <= #[trigger] text[i] <= '9' by {
            if i < head.len() {
                assert(text[i] == head[i]);
            }
        }
    } else {
        assert(text.drop_last() =~= Seq::<char>::empty());
        assert(digits_value(text.drop_last()) == 0);
    }
    assert(decimal_text(0) =~= seq!['0']);
}

/// A quarter turn more takes the sine to the cosine and the cosine to the
/// negative sine, starting from 0 and 1; four of them come round.
pub proof fn law_turns(k: int)
    ensures
        turn_of(0).sin() == 0,
        turn_of(0).cos() == 1,
        turn_of(k + 1).sin() == turn_of(k).cos(),
        turn_of(k + 1).cos() == -turn_of(k).sin(),
        turn_of(k + 4) == turn_of(k),
        turn_of(turn_of(k).quarters()) == turn_of(k),
{
}

/// Sines and cosines as numbers: the bits of 0, 1 and -1.
pub proof fn law_unit_numbers()
    ensures
        unit_number(0) == 0,
        unit_number(1) == 0x3ff0_0000_0000_0000,
        unit_number(-1) == 0xbff0_0000_0000_0000,
{
}

/// The angles 0, 90, 180 and 270, by their bits, are so many quarter turns, and
/// no other angle but the negative zero is a turn.
pub proof fn law_turn_by(angle: u64)
    ensures
        turn_by(0) == Some(turn_of(0)),
        turn_by(0x8000_0000_0000_0000) == Some(turn_of(0)),
        turn_by(0x4056_8000_0000_0000) == Some(turn_of(1)),
        turn_by(0x4066_8000_0000_0000) == Some(turn_of(2)),
        turn_by(0x4070_e000_0000_0000) == Some(turn_of(3)),
        turn_by(angle) is Some ==> angle == 0 || angle == 0x8000_0000_0000_0000 || angle
            == 0x4056_8000_0000_0000 || angle == 0x4066_8000_0000_0000 || angle
            == 0x4070_e000_0000_0000,
{
}

} // verus!

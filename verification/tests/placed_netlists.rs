use kfnetlist::{
    merge_extras, placed_wire, wire_to_init, BBox, Duplicate, NameMap, Net, NetMember,
    NetlistArray, NetlistData, NetlistPort, Netlist, Number, PlacedExtra, PlacedInstance,
    PlacedInstanceWire, PlacedNetlist, PlacedNetlistWire, Placement, PortRef, Settings,
};

fn text(s: &str) -> String {
    s.to_string()
}

fn number(v: f64) -> Number {
    Number { bits: v.to_bits() }
}

fn placement(x: f64) -> Placement {
    let bbox = BBox {
        left: number(x),
        bottom: number(-1.0),
        right: number(x + 2.0),
        top: number(1.0),
    };
    Placement::new(number(x), number(0.5), number(90.0), false, bbox)
}

fn at(instance: &str, port: &str) -> NetMember {
    NetMember::Ref(PortRef { instance: text(instance), port: text(port) })
}

fn port(name: &str) -> NetMember {
    NetMember::Port(NetlistPort { name: text(name) })
}

fn names<V: vstd::prelude::View>(m: &NameMap<V>) -> Vec<String> {
    (0..m.len()).map(|i| m.entry_at(i).0.clone()).collect()
}

fn plain() -> Netlist {
    let mut n = Netlist::new();
    n.create_inst(text("b"), text("PDK"), text("bend"), None, 1, 1);
    n.create_inst(text("a"), text("PDK"), text("arm"), Some(Settings::Json(text("[1]"))), 3, 1);
    n.nets.push(Net::from_members(vec![at("a", "o1"), at("b", "o1")]));
    n.nets.push(Net::from_members(vec![at("b", "o2"), port("out")]));
    n.ports.push(NetlistPort { name: text("out") });
    n
}

fn placements(pairs: &[(&str, f64)]) -> NameMap<Placement> {
    let mut m: NameMap<Placement> = NameMap::new();
    for (n, x) in pairs {
        m.insert(text(n), placement(*x));
    }
    m
}

fn cells(pairs: &[(&str, &str)]) -> NameMap<String> {
    let mut m: NameMap<String> = NameMap::new();
    for (n, c) in pairs {
        m.insert(text(n), text(c));
    }
    m
}

#[test]
fn merging_takes_the_union() {
    let merged = merge_extras(
        Some(placements(&[("a", 1.0), ("b", 2.0)])),
        Some(cells(&[("c", "C"), ("b", "B")])),
    );
    assert_eq!(names(&merged), vec!["a", "b", "c"]);
    assert_eq!(merged.get("a").unwrap().cell, "");
    assert!(merged.get("a").unwrap().placement == placement(1.0));
    assert_eq!(merged.get("b").unwrap().cell, "B");
    assert!(merged.get("b").unwrap().placement == placement(2.0));
    assert_eq!(merged.get("c").unwrap().cell, "C");
    assert!(merged.get("c").unwrap().placement == Placement::default());
    assert_eq!(merge_extras(None, None).len(), 0);
    assert_eq!(names(&merge_extras(None, Some(cells(&[("x", "X")])))), vec!["x"]);
}

#[test]
fn attaching_drops_entries_without_an_instance() {
    let placed = PlacedNetlist::from_netlist(
        &plain(),
        Some(placements(&[("ghost", 9.0), ("b", 2.0)])),
        Some(cells(&[("nobody", "N"), ("b", "bend_cell")])),
    );
    assert_eq!(names(placed.extras()), vec!["b"]);
    let all = placed.instances();
    assert_eq!(names(&all), vec!["b", "a"]);
    assert_eq!(all.get("b").unwrap().cell, "bend_cell");
    assert!(all.get("b").unwrap().placement() == placement(2.0));
    assert_eq!(all.get("a").unwrap().cell, "");
    assert!(all.get("a").unwrap().placement() == Placement::default());
    assert_eq!(all.get("a").unwrap().base.component, "arm");
    assert_eq!(names(&placed.placements()), vec!["b"]);
    assert!(*placed.placements().get("b").unwrap() == placement(2.0));
}

#[test]
fn a_new_netlist_is_empty() {
    let placed = PlacedNetlist::new();
    assert_eq!(placed.instances().len(), 0);
    assert_eq!(placed.placements().len(), 0);
    assert_eq!(placed.base().nets.len(), 0);
    assert_eq!(placed.repr(), "PlacedNetlist(instances=0, nets=0, ports=0)");
}

#[test]
fn created_instances_have_both_layers() {
    let mut placed = PlacedNetlist::new();
    let made = placed.create_inst(
        text("i"),
        text("PDK"),
        text("comp"),
        None,
        1,
        2,
        text("cell"),
        Some(placement(4.0)),
    );
    assert_eq!(made.base.name, "i");
    assert_eq!(made.base.settings, Settings::Json(text("{}")));
    assert_eq!(made.base.array, Some(NetlistArray { na: 1, nb: 2 }));
    assert_eq!(made.cell, "cell");
    assert!(made.placement() == placement(4.0));
    let again = placed.create_inst(
        text("j"),
        text("PDK"),
        text("comp"),
        Some(Settings::Null),
        1,
        1,
        text(""),
        None,
    );
    assert_eq!(again.base.settings, Settings::Null);
    assert_eq!(again.base.array, None);
    assert!(again.placement() == Placement::default());
    assert_eq!(names(placed.extras()), vec!["i", "j"]);
    placed.create_inst(
        text("i"),
        text("PDK"),
        text("other"),
        None,
        1,
        1,
        text("new"),
        None,
    );
    assert_eq!(names(&placed.instances()), vec!["i", "j"]);
    assert_eq!(placed.extra("i").cell, "new");
    assert_eq!(placed.extra("nobody").cell, "");
}

#[test]
fn removed_instances_leave_both_layers() {
    let mut placed = PlacedNetlist::from_netlist(
        &plain(),
        Some(placements(&[("a", 1.0), ("b", 2.0)])),
        None,
    );
    placed.remove_instances(&vec![text("b"), text("nobody")]);
    assert_eq!(names(&placed.instances()), vec!["a"]);
    assert_eq!(names(placed.extras()), vec!["a"]);
    assert_eq!(
        placed.base().nets,
        vec![Net::from_members(vec![at("a", "o1"), port("out")])]
    );
    assert_eq!(placed.repr(), "PlacedNetlist(instances=1, nets=1, ports=1)");
}

#[test]
fn counts_have_several_digits() {
    let mut placed = PlacedNetlist::new();
    for k in 0..120 {
        placed.create_inst(
            format!("i{k}"),
            text("PDK"),
            text("c"),
            None,
            1,
            1,
            text(""),
            None,
        );
    }
    assert_eq!(placed.repr(), "PlacedNetlist(instances=120, nets=0, ports=0)");
}

#[test]
fn instances_in_words() {
    let made = PlacedInstance::new(
        text("PDK"),
        text("comp"),
        None,
        None,
        text("i\"1"),
        text("cell"),
        Some(placement(4.0)),
    );
    let p = made.placement().repr("4", "0.5", "90");
    assert_eq!(p, "Placement(x=4, y=0.5, orientation=90, mirror=false)");
    assert_eq!(
        made.repr(&p),
        "PlacedInstance(name=\"i\\\"1\", cell=\"cell\", component=\"comp\", \
         placement=Placement(x=4, y=0.5, orientation=90, mirror=false))"
    );
    let mut flipped = placement(4.0);
    flipped.mirror = true;
    assert_eq!(flipped.repr("1", "2", "3"), "Placement(x=1, y=2, orientation=3, mirror=true)");
}

#[test]
fn defaults_of_a_new_instance() {
    let mut made = PlacedInstance::new(
        text("PDK"),
        text("comp"),
        None,
        Some(NetlistArray { na: 2, nb: 2 }),
        text("n"),
        text(""),
        None,
    );
    assert_eq!(made.base.settings, Settings::Json(text("{}")));
    assert_eq!(made.base.array, Some(NetlistArray { na: 2, nb: 2 }));
    assert!(made.placement() == Placement::default());
    made.set_placement(placement(7.0));
    let extra = made.extra();
    assert_eq!(extra.cell, "");
    assert!(extra.placement == placement(7.0));
}

#[test]
fn null_settings_are_written_as_an_object() {
    let made = PlacedInstance::new(
        text("PDK"),
        text("comp"),
        Some(Settings::Null),
        None,
        text("n"),
        text("cell"),
        None,
    );
    let wire = PlacedInstanceWire::from_parts(&made.base, &made.extra());
    assert_eq!(wire.settings, Settings::Json(text("{}")));
    assert_eq!(wire.cell, "cell");
    let (inst, extra) = wire.into_instance(text("other"));
    assert_eq!(inst.name, "other");
    assert_eq!(inst.kcl, "PDK");
    assert_eq!(extra.cell, "cell");
}

#[test]
fn null_settings_that_are_read_stay_null() {
    let wire = PlacedInstanceWire {
        kcl: text("PDK"),
        component: text("c"),
        settings: Settings::Null,
        array: None,
        cell: text(""),
        placement: Placement::default(),
    };
    assert_eq!(wire.into_instance(text("i")).0.settings, Settings::Null);
}

#[test]
fn writing_and_reading_gives_the_netlist_back() {
    let placed = PlacedNetlist::from_netlist(
        &plain(),
        Some(placements(&[("b", 2.0)])),
        Some(cells(&[("b", "bend_cell")])),
    );
    let back = wire_to_init(placed_wire(&placed));
    assert_eq!(names(&back.instances()), vec!["b", "a"]);
    assert_eq!(names(back.extras()), vec!["b", "a"]);
    for name in ["a", "b"] {
        let was = placed.instances();
        let is = back.instances();
        assert_eq!(was.get(name).unwrap().base, is.get(name).unwrap().base);
        assert_eq!(was.get(name).unwrap().cell, is.get(name).unwrap().cell);
        assert!(was.get(name).unwrap().placement() == is.get(name).unwrap().placement());
    }
    assert_eq!(back.base().nets, plain().nets);
    assert_eq!(back.base().ports, plain().ports);
}

#[test]
fn reading_names_instances_after_their_key() {
    let mut instances: NameMap<PlacedInstanceWire> = NameMap::new();
    instances.insert(
        text("key"),
        PlacedInstanceWire {
            kcl: text("PDK"),
            component: text("c"),
            settings: Settings::Null,
            array: None,
            cell: text("cell"),
            placement: placement(1.0),
        },
    );
    let read = wire_to_init(PlacedNetlistWire { instances, nets: vec![], ports: vec![] });
    assert_eq!(read.instances().get("key").unwrap().base.name, "key");
    assert_eq!(read.extra("key").cell, "cell");
}

#[test]
fn flattening_places_what_the_paths_compose_to() {
    let mut placed = PlacedNetlist::new();
    placed.create_inst(
        text("m"),
        text("PDK"),
        text("mzi"),
        None,
        1,
        1,
        text("mzi_cell"),
        Some(placement(10.0)),
    );
    let mut inner = PlacedNetlist::new();
    inner.create_inst(
        text("w"),
        text("PDK"),
        text("wg"),
        None,
        1,
        1,
        text("wg_cell"),
        Some(placement(1.0)),
    );
    let mut netlists: NameMap<NetlistData> = NameMap::new();
    netlists.insert(text("mzi_cell"), NetlistData::from_placed(&inner));
    netlists.insert(text("plain_cell"), NetlistData::from_plain(&plain()));
    let res = placed.flatten(
        &netlists,
        None,
        None,
        None,
        None,
        true,
        false,
        true,
        text("."),
    );
    assert_eq!(res.reports.len(), 1);
    let flat = match res.result {
        Ok(flat) => flat,
        Err(e) => panic!("{}", e.message()),
    };
    assert!(flat.extras.get("m.w").unwrap().path == vec![placement(10.0), placement(1.0)]);
    let out = flat.placed(&vec![placement(11.0)]);
    assert_eq!(names(&out.instances()), vec!["m.w"]);
    assert_eq!(out.extra("m.w").cell, "wg_cell");
    assert!(out.extra("m.w").placement == placement(11.0));
}

#[test]
fn flattening_passes_its_arguments_on() {
    let mut placed = PlacedNetlist::new();
    placed.create_inst(text("m"), text("PDK"), text("c"), None, 1, 1, text("x"), None);
    let mut inner = Netlist::new();
    inner.create_inst(text("w"), text("PDK"), text("wg"), None, 1, 1);
    let mut netlists: NameMap<NetlistData> = NameMap::new();
    netlists.insert(text("y"), NetlistData::from_plain(&inner));
    let flatten = |cells_to: Option<Vec<String>>, exclude: Option<Vec<String>>| {
        let mut maps: NameMap<NameMap<String>> = NameMap::new();
        maps.insert(text("y"), cells(&[("w", "z")]));
        let res = placed.flatten(
            &netlists,
            cells_to,
            exclude,
            Some(cells(&[("m", "y")])),
            Some(maps),
            false,
            false,
            true,
            text("/"),
        );
        match res.result {
            Ok(flat) => flat,
            Err(e) => panic!("{}", e.message()),
        }
    };
    let flat = flatten(None, None);
    assert_eq!(names(&flat.instances), vec!["m/w"]);
    assert_eq!(flat.extras.get("m/w").unwrap().cell, "z");
    assert_eq!(names(&flatten(Some(vec![text("x")]), None).instances), vec!["m"]);
    assert_eq!(names(&flatten(None, Some(vec![text("y")])).instances), vec!["m"]);
}

#[test]
fn copies_are_equal() {
    let n = plain();
    let copy = n.duplicate();
    assert_eq!(names(&copy.instances), names(&n.instances));
    assert_eq!(copy.nets, n.nets);
    assert_eq!(copy.ports, n.ports);
    let extra = PlacedExtra { cell: text("c"), placement: placement(3.0) };
    assert_eq!(extra.duplicate().cell, "c");
    assert!(extra.duplicate().placement == placement(3.0));
}

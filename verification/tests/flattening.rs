use kfnetlist::{
    expand_pass, flatten_netlist, FlatNetlist, FlattenError, Flattened, InlinedExtra, NameMap,
    NameSet, Net, NetMember, NetlistArray, NetlistData, NetlistInstance, NetlistPort, Number,
    Options, PlacedExtra, Placement, PortArrayRefData, PortRef, Settings, SkipReason, Skipped,
    State, MAX_PASSES,
};

fn text(s: &str) -> String {
    s.to_string()
}

fn inst(name: &str, component: &str) -> NetlistInstance {
    NetlistInstance {
        kcl: text("PDK"),
        component: text(component),
        settings: Settings::Json(text("{\"length\":10.0}")),
        array: None,
        name: text(name),
    }
}

fn array_inst(name: &str, na: i64, nb: i64) -> NetlistInstance {
    let mut i = inst(name, "arr");
    i.array = Some(NetlistArray { na, nb });
    i
}

fn port(name: &str) -> NetMember {
    NetMember::Port(NetlistPort { name: text(name) })
}

fn at(instance: &str, port: &str) -> NetMember {
    NetMember::Ref(PortRef { instance: text(instance), port: text(port) })
}

fn at_element(instance: &str, port: &str, ia: i64, ib: i64) -> NetMember {
    NetMember::ArrayRef(PortArrayRefData { instance: text(instance), port: text(port), ia, ib })
}

fn net(members: Vec<NetMember>) -> Net {
    Net::from_members(members)
}

fn placed_at(x: f64, mirror: bool) -> Placement {
    let mut p = Placement::default();
    p.x = Number { bits: x.to_bits() };
    p.mirror = mirror;
    p
}

fn data(instances: Vec<NetlistInstance>, nets: Vec<Net>, ports: Vec<&str>) -> NetlistData {
    let mut map: NameMap<NetlistInstance> = NameMap::new();
    for i in instances {
        map.insert(i.name.clone(), i);
    }
    NetlistData {
        instances: map,
        nets,
        ports: ports.into_iter().map(|p| NetlistPort { name: text(p) }).collect(),
        extras: NameMap::new(),
    }
}

fn record(d: &mut NetlistData, name: &str, cell: &str, placement: Placement) {
    d.extras.insert(text(name), PlacedExtra { cell: text(cell), placement });
}

fn cells(pairs: &[(&str, &str)]) -> NameMap<String> {
    let mut m: NameMap<String> = NameMap::new();
    for (a, b) in pairs {
        m.insert(text(a), text(b));
    }
    m
}

fn subs(pairs: Vec<(&str, NetlistData)>) -> NameMap<NetlistData> {
    let mut m: NameMap<NetlistData> = NameMap::new();
    for (name, d) in pairs {
        m.insert(text(name), d);
    }
    m
}

fn options() -> Options {
    Options::new(None, None, true, false, true, text("."))
}

fn names<V: vstd::prelude::View>(m: &NameMap<V>) -> Vec<String> {
    (0..m.len()).map(|i| m.entry_at(i).0.clone()).collect()
}

fn flat(f: Flattened) -> FlatNetlist {
    match f.result {
        Ok(out) => out,
        Err(e) => panic!("{}", e.message()),
    }
}

fn failure(f: Flattened) -> FlattenError {
    match f.result {
        Ok(_) => panic!("flattened"),
        Err(e) => e,
    }
}

fn extra<'a>(out: &'a FlatNetlist, name: &str) -> &'a InlinedExtra {
    out.extras.get(name).unwrap()
}

/// Two splitters joined by a waveguide, with the outer ports on the splitters.
fn mzi() -> NetlistData {
    data(
        vec![inst("mmi1", "mmi"), inst("wg", "straight"), inst("mmi2", "mmi")],
        vec![
            net(vec![port("o1"), at("mmi1", "i")]),
            net(vec![at("mmi1", "o"), at("wg", "o1")]),
            net(vec![at("wg", "o2"), at("mmi2", "o")]),
            net(vec![at("mmi2", "i"), port("o2")]),
        ],
        vec!["o1", "o2"],
    )
}

/// A pad, the interferometer and a grating coupler in a row.
fn top() -> NetlistData {
    data(
        vec![inst("pad", "pad"), inst("mzi1", "mzi"), inst("gc", "gc")],
        vec![
            net(vec![at("pad", "p"), at("mzi1", "o1")]),
            net(vec![at("mzi1", "o2"), at("gc", "g")]),
            net(vec![port("out"), at("gc", "out")]),
        ],
        vec!["out"],
    )
}

#[test]
fn contents_take_the_place_of_the_instance() {
    let netlists = subs(vec![("mzi_cell", mzi())]);
    let res = flatten_netlist(
        top(),
        &cells(&[("mzi1", "mzi_cell")]),
        &netlists,
        &NameMap::new(),
        &options(),
    );
    let out = flat(res);
    assert_eq!(names(&out.instances), vec!["gc", "mzi1.mmi1", "mzi1.mmi2", "mzi1.wg", "pad"]);
    let mmi = out.instances.get("mzi1.mmi1").unwrap();
    assert_eq!(mmi.name, "mzi1.mmi1");
    assert_eq!(mmi.component, "mmi");
    assert_eq!(mmi.kcl, "PDK");
    assert_eq!(mmi.settings, Settings::Json(text("{\"length\":10.0}")));
    assert_eq!(out.instances.get("pad").unwrap(), &inst("pad", "pad"));
}

#[test]
fn connections_land_on_what_the_port_is_wired_to() {
    let netlists = subs(vec![("mzi_cell", mzi())]);
    let out = flat(flatten_netlist(
        top(),
        &cells(&[("mzi1", "mzi_cell")]),
        &netlists,
        &NameMap::new(),
        &options(),
    ));
    assert_eq!(
        out.nets,
        vec![
            net(vec![port("out"), at("gc", "out")]),
            net(vec![at("gc", "g"), at("mzi1.mmi2", "i")]),
            net(vec![at("mzi1.mmi1", "i"), at("pad", "p")]),
            net(vec![at("mzi1.mmi1", "o"), at("mzi1.wg", "o1")]),
            net(vec![at("mzi1.mmi2", "o"), at("mzi1.wg", "o2")]),
        ]
    );
    assert_eq!(out.ports, vec![NetlistPort { name: text("out") }]);
}

#[test]
fn instances_without_a_cell_are_left_alone_and_reported() {
    let netlists = subs(vec![("mzi_cell", mzi())]);
    let res = flatten_netlist(top(), &NameMap::new(), &netlists, &NameMap::new(), &options());
    assert_eq!(
        res.reports,
        vec![
            Skipped { name: text("pad"), why: SkipReason::UnknownCell },
            Skipped { name: text("mzi1"), why: SkipReason::UnknownCell },
            Skipped { name: text("gc"), why: SkipReason::UnknownCell },
        ]
    );
    assert_eq!(
        res.reports[0].message(),
        "not flattening instance \"pad\": its cell name is unknown (pass \
         instance_cell_map/sub_instance_cell_maps, or use a PlacedNetlist)"
    );
    let out = flat(res);
    assert_eq!(names(&out.instances), vec!["gc", "mzi1", "pad"]);
    assert_eq!(out.instances.get("mzi1").unwrap(), &inst("mzi1", "mzi"));
    assert_eq!(out.extras.len(), 0);
}

#[test]
fn reports_are_made_on_request_and_once() {
    let deep = data(vec![inst("x", "x")], vec![], vec![]);
    let mid = data(vec![inst("deep", "deep")], vec![], vec![]);
    let base = data(vec![inst("a", "a"), inst("b", "b")], vec![], vec![]);
    let netlists = subs(vec![("mid", mid), ("deep", deep)]);
    let maps = {
        let mut m: NameMap<NameMap<String>> = NameMap::new();
        m.insert(text("mid"), cells(&[("deep", "deep")]));
        m
    };
    let map = cells(&[("a", "mid")]);
    let res = flatten_netlist(base, &map, &netlists, &maps, &options());
    assert_eq!(
        res.reports,
        vec![
            Skipped { name: text("b"), why: SkipReason::UnknownCell },
            Skipped { name: text("a.deep.x"), why: SkipReason::UnknownCell },
        ]
    );
    let base = data(vec![inst("a", "a"), inst("b", "b")], vec![], vec![]);
    let quiet = Options::new(None, None, true, false, false, text("."));
    let res = flatten_netlist(base, &map, &netlists, &maps, &quiet);
    assert_eq!(res.reports, vec![]);
    assert_eq!(names(&flat(res).instances), vec!["a.deep.x", "b"]);
}

#[test]
fn every_reason_to_skip() {
    let base = data(
        vec![
            inst("none", "c"),
            inst("missing", "c"),
            inst("empty", "c"),
            array_inst("array", 2, 1),
            array_inst("single", 1, 1),
            inst("unselected", "c"),
        ],
        vec![],
        vec![],
    );
    let netlists = subs(vec![
        ("leaf", data(vec![], vec![], vec![])),
        ("full", data(vec![inst("i", "i")], vec![], vec![])),
        ("other", data(vec![inst("i", "i")], vec![], vec![])),
    ]);
    let map = cells(&[
        ("missing", "gone"),
        ("empty", "leaf"),
        ("array", "full"),
        ("single", "full"),
        ("unselected", "other"),
    ]);
    let opts = Options::new(None, Some(vec![text("other")]), true, false, true, text("."));
    let res = flatten_netlist(base, &map, &netlists, &NameMap::new(), &opts);
    assert_eq!(
        res.reports,
        vec![
            Skipped { name: text("none"), why: SkipReason::UnknownCell },
            Skipped { name: text("missing"), why: SkipReason::NoNetlist { cell: text("gone") } },
            Skipped { name: text("empty"), why: SkipReason::NoInstances { cell: text("leaf") } },
            Skipped { name: text("array"), why: SkipReason::Array },
            Skipped {
                name: text("unselected"),
                why: SkipReason::NotSelected { cell: text("other") },
            },
            Skipped { name: text("single.i"), why: SkipReason::UnknownCell },
        ]
    );
    assert_eq!(
        res.reports[1].message(),
        "not flattening instance \"missing\": no netlist given for its cell \"gone\""
    );
    assert_eq!(
        res.reports[2].message(),
        "not flattening instance \"empty\": cell \"leaf\" has no instances of its own"
    );
    assert_eq!(
        res.reports[3].message(),
        "not flattening instance \"array\": it is an array instance, which cannot be inlined"
    );
    assert_eq!(
        res.reports[4].message(),
        "not flattening instance \"unselected\": its cell \"other\" is not selected for inlining"
    );
    let out = flat(res);
    assert_eq!(
        names(&out.instances),
        vec!["array", "empty", "missing", "none", "single.i", "unselected"]
    );
    assert_eq!(out.instances.get("array").unwrap(), &array_inst("array", 2, 1));
}

#[test]
fn exclude_wins_over_cells() {
    let opts = Options::new(
        Some(vec![text("a"), text("b")]),
        Some(vec![text("b"), text("c")]),
        true,
        false,
        false,
        text("."),
    );
    assert!(opts.selected("a"));
    assert!(!opts.selected("b"));
    assert!(!opts.selected("c"));
    assert!(!opts.selected("d"));
    let all = Options::new(None, Some(vec![text("b")]), true, false, false, text("."));
    assert!(all.selected("a"));
    assert!(!all.selected("b"));
    let none = Options::new(Some(vec![]), None, true, false, false, text("."));
    assert!(!none.selected("a"));
}

#[test]
fn only_the_cells_asked_for_are_inlined() {
    let base = data(vec![inst("a", "a"), inst("b", "b")], vec![], vec![]);
    let netlists = subs(vec![
        ("x", data(vec![inst("i", "i")], vec![], vec![])),
        ("y", data(vec![inst("j", "j")], vec![], vec![])),
    ]);
    let map = cells(&[("a", "x"), ("b", "y")]);
    let opts = Options::new(Some(vec![text("y")]), None, true, false, true, text("/"));
    let res = flatten_netlist(base, &map, &netlists, &NameMap::new(), &opts);
    assert_eq!(
        res.reports,
        vec![
            Skipped { name: text("a"), why: SkipReason::NotSelected { cell: text("x") } },
            Skipped { name: text("b/j"), why: SkipReason::UnknownCell },
        ]
    );
    assert_eq!(names(&flat(res).instances), vec!["a", "b/j"]);
}

#[test]
fn explicit_map_wins_over_the_recorded_cell() {
    let mut base = data(vec![inst("a", "a"), inst("b", "b"), inst("c", "c")], vec![], vec![]);
    record(&mut base, "a", "x", Placement::default());
    record(&mut base, "b", "x", Placement::default());
    record(&mut base, "c", "x", Placement::default());
    let mut y = data(vec![inst("j", "j"), inst("k", "k")], vec![], vec![]);
    record(&mut y, "j", "x", Placement::default());
    record(&mut y, "k", "x", Placement::default());
    let netlists = subs(vec![("x", data(vec![inst("i", "i")], vec![], vec![])), ("y", y)]);
    let mut maps: NameMap<NameMap<String>> = NameMap::new();
    maps.insert(text("y"), cells(&[("k", "z")]));
    let map = cells(&[("a", "y"), ("c", "")]);
    let res = flatten_netlist(base, &map, &netlists, &maps, &options());
    assert_eq!(
        res.reports,
        vec![
            Skipped { name: text("c"), why: SkipReason::UnknownCell },
            Skipped { name: text("a.k"), why: SkipReason::NoNetlist { cell: text("z") } },
            Skipped { name: text("b.i"), why: SkipReason::UnknownCell },
            Skipped { name: text("a.j.i"), why: SkipReason::UnknownCell },
        ]
    );
    let out = flat(res);
    assert_eq!(names(&out.instances), vec!["a.j.i", "a.k", "b.i", "c"]);
    assert_eq!(extra(&out, "a.k").cell, "z");
    assert_eq!(extra(&out, "a.j.i").cell, "");
    assert_eq!(extra(&out, "c").cell, "x");
}

#[test]
fn one_level_without_recursion() {
    let deep = data(vec![inst("x", "x")], vec![], vec![]);
    let mid = data(vec![inst("deep", "deep")], vec![], vec![]);
    let base = data(vec![inst("a", "a")], vec![], vec![]);
    let netlists = subs(vec![("mid", mid), ("deep", deep)]);
    let mut maps: NameMap<NameMap<String>> = NameMap::new();
    maps.insert(text("mid"), cells(&[("deep", "deep")]));
    let opts = Options::new(None, None, false, false, true, text("."));
    let res = flatten_netlist(base, &cells(&[("a", "mid")]), &netlists, &maps, &opts);
    assert_eq!(res.reports, vec![]);
    let out = flat(res);
    assert_eq!(names(&out.instances), vec!["a.deep"]);
    assert_eq!(extra(&out, "a.deep").cell, "deep");
}

#[test]
fn the_result_can_be_flattened_without_maps() {
    let deep = || data(vec![inst("x", "x")], vec![], vec![]);
    let mid = || data(vec![inst("deep", "deep")], vec![], vec![]);
    let mut maps: NameMap<NameMap<String>> = NameMap::new();
    maps.insert(text("mid"), cells(&[("deep", "deep")]));
    let once = Options::new(None, None, false, false, false, text("."));
    let out = flat(flatten_netlist(
        data(vec![inst("a", "a")], vec![], vec![]),
        &cells(&[("a", "mid")]),
        &subs(vec![("mid", mid()), ("deep", deep())]),
        &maps,
        &once,
    ));
    let composed = vec![Placement::default(); out.extras.len()];
    let placed = out.placed(&composed);
    let again = flat(flatten_netlist(
        NetlistData::from_placed(&placed),
        &NameMap::new(),
        &subs(vec![("mid", mid()), ("deep", deep())]),
        &NameMap::new(),
        &once,
    ));
    assert_eq!(names(&again.instances), vec!["a.deep.x"]);
}

#[test]
fn placements_are_paths_from_the_outermost_cell() {
    let mut base = data(vec![inst("a", "a"), inst("b", "b")], vec![], vec![]);
    record(&mut base, "a", "mid", placed_at(1.0, true));
    let mut mid = data(vec![inst("m", "m"), inst("n", "n")], vec![], vec![]);
    record(&mut mid, "m", "deep", placed_at(2.0, false));
    let mut deep = data(vec![inst("d", "d")], vec![], vec![]);
    record(&mut deep, "d", "", placed_at(3.0, true));
    let netlists = subs(vec![("mid", mid), ("deep", deep)]);
    let map = cells(&[("b", "deep")]);
    let out = flat(flatten_netlist(base, &map, &netlists, &NameMap::new(), &options()));
    assert_eq!(names(&out.extras), vec!["a.m.d", "a.n", "b.d"]);
    assert!(extra(&out, "a.m.d").path
        == vec![placed_at(1.0, true), placed_at(2.0, false), placed_at(3.0, true)]);
    assert!(extra(&out, "a.n").path == vec![placed_at(1.0, true), Placement::default()]);
    assert!(extra(&out, "b.d").path == vec![Placement::default(), placed_at(3.0, true)]);
}

#[test]
fn a_taken_name_is_an_error() {
    let base = data(vec![inst("a", "a"), inst("a.i", "i")], vec![], vec![]);
    let netlists = subs(vec![("x", data(vec![inst("i", "i")], vec![], vec![]))]);
    let e = failure(flatten_netlist(
        base,
        &cells(&[("a", "x")]),
        &netlists,
        &NameMap::new(),
        &options(),
    ));
    assert_eq!(e, FlattenError::NameTaken { instance: text("a"), name: text("a.i") });
    assert_eq!(
        e.message(),
        "flatten: inlining instance \"a\" would create instance \"a.i\", which already exists"
    );
}

#[test]
fn a_name_made_twice_is_an_error() {
    let base = data(vec![inst("a", "a"), inst("a.b", "b")], vec![], vec![]);
    let netlists = subs(vec![
        ("x", data(vec![inst("b.c", "i")], vec![], vec![])),
        ("y", data(vec![inst("c", "i")], vec![], vec![])),
    ]);
    let e = failure(flatten_netlist(
        base,
        &cells(&[("a", "x"), ("a.b", "y")]),
        &netlists,
        &NameMap::new(),
        &options(),
    ));
    assert_eq!(e, FlattenError::NameTaken { instance: text("a.b"), name: text("a.b.c") });
}

#[test]
fn the_name_of_an_inlined_instance_is_free() {
    let base = data(vec![inst("a", "a"), inst("a.b", "b")], vec![], vec![]);
    let netlists = subs(vec![
        ("x", data(vec![inst("b", "i")], vec![], vec![])),
        ("y", data(vec![inst("c", "i")], vec![], vec![])),
    ]);
    let out = flat(flatten_netlist(
        base,
        &cells(&[("a", "x"), ("a.b", "y")]),
        &netlists,
        &NameMap::new(),
        &options(),
    ));
    assert_eq!(names(&out.instances), vec!["a.b", "a.b.c"]);
    assert_eq!(out.instances.get("a.b").unwrap(), &inst("a.b", "i"));
}

#[test]
fn a_connection_that_would_be_lost_is_an_error() {
    let mut cell = mzi();
    cell.nets.pop();
    let netlists = subs(vec![("mzi_cell", cell)]);
    let e = failure(flatten_netlist(
        top(),
        &cells(&[("mzi1", "mzi_cell")]),
        &netlists,
        &NameMap::new(),
        &options(),
    ));
    assert_eq!(
        e,
        FlattenError::Unconnected {
            instance: text("mzi1"),
            port: text("o2"),
            cell: text("mzi_cell"),
        }
    );
    assert_eq!(
        e.message(),
        "flatten: instance \"mzi1\" is connected on port \"o2\", but that port is not part of any \
         net inside cell \"mzi_cell\" \u{2014} inlining would drop the connection. Pass \
         allow_unconnected_ports=True to inline anyway."
    );
}

#[test]
fn lost_connections_can_be_allowed() {
    let mut cell = mzi();
    cell.nets.pop();
    let netlists = subs(vec![("mzi_cell", cell)]);
    let opts = Options::new(None, None, true, true, false, text("."));
    let out = flat(flatten_netlist(
        top(),
        &cells(&[("mzi1", "mzi_cell")]),
        &netlists,
        &NameMap::new(),
        &opts,
    ));
    assert_eq!(
        out.nets,
        vec![
            net(vec![port("out"), at("gc", "out")]),
            net(vec![at("gc", "g")]),
            net(vec![at("mzi1.mmi1", "i"), at("pad", "p")]),
            net(vec![at("mzi1.mmi1", "o"), at("mzi1.wg", "o1")]),
            net(vec![at("mzi1.mmi2", "o"), at("mzi1.wg", "o2")]),
        ]
    );
}

#[test]
fn a_cell_that_contains_itself_is_an_error() {
    let base = data(vec![inst("a", "a")], vec![], vec![]);
    let mut cell = data(vec![inst("a", "a")], vec![], vec![]);
    record(&mut cell, "a", "x", Placement::default());
    let netlists = subs(vec![("x", cell)]);
    let e = failure(flatten_netlist(
        base,
        &cells(&[("a", "x")]),
        &netlists,
        &NameMap::new(),
        &options(),
    ));
    assert_eq!(e, FlattenError::Endless);
    assert_eq!(
        e.message(),
        "flatten: still inlining after 1000 passes \u{2014} `netlists` describes a cell that \
         contains itself"
    );
    assert_eq!(MAX_PASSES, 1000);
}

fn chain(depth: usize) -> NameMap<NetlistData> {
    let mut m: NameMap<NetlistData> = NameMap::new();
    for k in 0..depth {
        let mut d = data(vec![inst("i", "i")], vec![], vec![]);
        if k > 0 {
            record(&mut d, "i", &format!("c{}", k - 1), Placement::default());
        }
        m.insert(format!("c{k}"), d);
    }
    m
}

#[test]
fn a_deep_hierarchy_without_cycles_is_flattened() {
    let top = || data(vec![inst("t", "t")], vec![], vec![]);
    let quiet = || Options::new(None, None, true, false, false, text(""));
    let res = flatten_netlist(
        top(),
        &cells(&[("t", "c998")]),
        &chain(999),
        &NameMap::new(),
        &quiet(),
    );
    assert_eq!(flat(res).instances.len(), 1);
    let res = flatten_netlist(
        top(),
        &cells(&[("t", "c1000")]),
        &chain(1001),
        &NameMap::new(),
        &quiet(),
    );
    let out = flat(res);
    assert_eq!(names(&out.instances), vec![text("t") + &"i".repeat(1001)]);
}

#[test]
fn a_long_cycle_is_an_error() {
    let mut netlists = chain(1001);
    let mut bottom = data(vec![inst("i", "i")], vec![], vec![]);
    record(&mut bottom, "i", "c1000", Placement::default());
    netlists.insert(text("c0"), bottom);
    let res = flatten_netlist(
        data(vec![inst("t", "t")], vec![], vec![]),
        &cells(&[("t", "c1000")]),
        &netlists,
        &NameMap::new(),
        &Options::new(None, None, true, false, false, text("")),
    );
    assert_eq!(failure(res), FlattenError::Endless);
}

#[test]
fn an_excluded_instance_is_reported() {
    let base = data(vec![inst("a", "a")], vec![], vec![]);
    let netlists = subs(vec![("C", data(vec![inst("w", "w")], vec![], vec![]))]);
    let opts = Options::new(None, Some(vec![text("C")]), true, false, true, text("."));
    let res = flatten_netlist(base, &cells(&[("a", "C")]), &netlists, &NameMap::new(), &opts);
    assert_eq!(
        res.reports,
        vec![Skipped { name: text("a"), why: SkipReason::NotSelected { cell: text("C") } }]
    );
    assert_eq!(names(&flat(res).instances), vec!["a"]);
}

#[test]
fn a_net_between_ports_of_a_cell_joins_outside_nets() {
    let cell = data(
        vec![inst("i", "i")],
        vec![net(vec![port("p"), port("q")])],
        vec!["p", "q"],
    );
    let base = data(
        vec![inst("a", "a"), inst("l", "l"), inst("r", "r")],
        vec![
            net(vec![at("l", "x"), at("a", "p")]),
            net(vec![at("r", "y"), at("a", "q"), at("r", "y")]),
        ],
        vec![],
    );
    let out = flat(flatten_netlist(
        base,
        &cells(&[("a", "c")]),
        &subs(vec![("c", cell)]),
        &NameMap::new(),
        &options(),
    ));
    assert_eq!(out.nets, vec![net(vec![at("l", "x"), at("r", "y")])]);
}

#[test]
fn connections_between_two_inlined_instances() {
    let cell = || {
        data(
            vec![inst("i", "i")],
            vec![net(vec![port("p"), at_element("i", "z", 1, -2)])],
            vec!["p"],
        )
    };
    let base = data(
        vec![inst("a", "a"), inst("b", "b")],
        vec![net(vec![at_element("a", "p", 0, 0), at("b", "p")])],
        vec![],
    );
    let out = flat(flatten_netlist(
        base,
        &cells(&[("a", "c"), ("b", "c")]),
        &subs(vec![("c", cell())]),
        &NameMap::new(),
        &options(),
    ));
    assert_eq!(
        out.nets,
        vec![net(vec![at_element("a.i", "z", 1, -2), at_element("b.i", "z", 1, -2)])]
    );
}

#[test]
fn the_result_is_listed_in_order() {
    let mut base = data(
        vec![inst("b", "b"), inst("a", "a")],
        vec![
            net(vec![at("b", "x"), at("a", "x"), port("z"), at_element("a", "x", 0, 0)]),
            net(vec![]),
            net(vec![port("y")]),
        ],
        vec!["z", "Z", "y"],
    );
    record(&mut base, "b", "", Placement::default());
    record(&mut base, "a", "", Placement::default());
    let out = flat(flatten_netlist(
        base,
        &NameMap::new(),
        &NameMap::new(),
        &NameMap::new(),
        &options(),
    ));
    assert_eq!(names(&out.instances), vec!["a", "b"]);
    assert_eq!(names(&out.extras), vec!["a", "b"]);
    assert_eq!(
        out.nets,
        vec![
            net(vec![]),
            net(vec![port("y")]),
            net(vec![port("z"), at("a", "x"), at("b", "x"), at_element("a", "x", 0, 0)]),
        ]
    );
    let ports: Vec<String> = out.ports.iter().map(|p| p.name.clone()).collect();
    assert_eq!(ports, vec!["Z", "y", "z"]);
}

#[test]
fn a_pass_goes_one_level_deep() {
    let start = data(vec![inst("a", "a"), inst("b", "b")], vec![], vec!["p"]);
    let state = State {
        data: FlatNetlist {
            instances: start.instances,
            nets: start.nets,
            ports: start.ports,
            extras: NameMap::new(),
        },
        cell_of: cells(&[("a", "x"), ("b", "gone")]),
        warned: NameSet::new(),
    };
    let mut x = data(vec![inst("i", "i"), inst("j", "j")], vec![], vec![]);
    record(&mut x, "j", "x", Placement::default());
    let netlists = subs(vec![("x", x)]);
    let first = expand_pass(state, &netlists, &NameMap::new(), &options());
    assert_eq!(
        first.reports,
        vec![Skipped { name: text("b"), why: SkipReason::NoNetlist { cell: text("gone") } }]
    );
    let (state, expanded) = first.result.unwrap_or_else(|e| panic!("{}", e.message()));
    assert!(expanded);
    assert_eq!(names(&state.data.instances), vec!["a.i", "a.j", "b"]);
    assert_eq!(names(&state.cell_of), vec!["a.j", "b"]);
    assert!(state.warned.contains("b"));
    let none = Options::new(Some(vec![]), None, true, false, true, text("."));
    let second = expand_pass(state, &netlists, &NameMap::new(), &none);
    assert_eq!(
        second.reports,
        vec![
            Skipped { name: text("a.i"), why: SkipReason::UnknownCell },
            Skipped { name: text("a.j"), why: SkipReason::NotSelected { cell: text("x") } },
        ]
    );
    let (state, expanded) = second.result.unwrap_or_else(|e| panic!("{}", e.message()));
    assert!(!expanded);
    assert_eq!(names(&state.data.instances), vec!["a.i", "a.j", "b"]);
}

#[test]
fn recursion_is_one_pass_after_another() {
    let top = || data(vec![inst("t", "t")], vec![], vec![]);
    let all = Options::new(None, None, true, false, false, text("."));
    let once = Options::new(None, None, false, false, false, text("."));
    let out = flat(flatten_netlist(
        top(),
        &cells(&[("t", "c2")]),
        &chain(3),
        &NameMap::new(),
        &all,
    ));
    let mut placed = None;
    for _ in 0..3 {
        let base = match &placed {
            None => top(),
            Some(p) => NetlistData::from_placed(p),
        };
        let step = flat(flatten_netlist(
            base,
            &cells(&[("t", "c2")]),
            &chain(3),
            &NameMap::new(),
            &once,
        ));
        let composed = vec![Placement::default(); step.extras.len()];
        placed = Some(step.placed(&composed));
    }
    let steps = placed.unwrap();
    assert_eq!(names(&out.instances), vec!["t.i.i.i"]);
    assert_eq!(names(&steps.base().instances), vec!["t.i.i.i"]);
    assert_eq!(extra(&out, "t.i.i.i").path.len(), 4);
}

/// Adds up the displacements along each path.
fn add_up(out: &FlatNetlist) -> Vec<Placement> {
    (0..out.extras.len())
        .map(|i| {
            let path = &out.extras.entry_at(i).1.path;
            placed_at(path.iter().map(|p| f64::from_bits(p.x.bits)).sum(), false)
        })
        .collect()
}

#[test]
fn level_by_level_is_all_at_once() {
    let leaf = || {
        let mut d = data(
            vec![inst("z", "z"), inst("y", "y")],
            vec![net(vec![at("z", "l"), port("p")]), net(vec![port("q"), at("y", "r")])],
            vec!["p", "q"],
        );
        record(&mut d, "z", "", placed_at(1.0, false));
        d
    };
    let mid = || {
        let mut d = data(
            vec![inst("b", "b"), inst("a", "a")],
            vec![
                net(vec![port("in"), at("b", "p")]),
                net(vec![at("a", "p"), at("b", "q")]),
                net(vec![at("a", "q"), port("out")]),
            ],
            vec!["in", "out"],
        );
        record(&mut d, "a", "leaf", placed_at(10.0, false));
        record(&mut d, "b", "", placed_at(20.0, false));
        d
    };
    let top = || {
        let mut d = data(
            vec![inst("m", "m"), inst("n", "n"), inst("k", "k")],
            vec![
                net(vec![at("m", "out"), at("n", "in"), at("k", "x")]),
                net(vec![port("end"), at("n", "out")]),
                net(vec![at("m", "in"), port("begin")]),
            ],
            vec!["end", "begin"],
        );
        record(&mut d, "m", "mid", placed_at(100.0, false));
        record(&mut d, "n", "mid", placed_at(200.0, false));
        d
    };
    let netlists = || subs(vec![("leaf", leaf()), ("mid", mid())]);
    let maps = || {
        let mut m: NameMap<NameMap<String>> = NameMap::new();
        m.insert(text("mid"), cells(&[("b", "leaf")]));
        m
    };
    let flatten = |base: NetlistData, recursive: bool| {
        let opts = Options::new(None, None, recursive, false, false, text("."));
        let out = flat(flatten_netlist(base, &NameMap::new(), &netlists(), &maps(), &opts));
        let composed = add_up(&out);
        out.placed(&composed)
    };
    let once = flatten(top(), false);
    assert_eq!(names(&once.base().instances), vec!["k", "m.a", "m.b", "n.a", "n.b"]);
    let then = flatten(NetlistData::from_placed(&once), true);
    let at_once = flatten(top(), true);
    assert_eq!(names(&at_once.base().instances).len(), 9);
    assert_eq!(names(&then.base().instances), names(&at_once.base().instances));
    assert_eq!(then.base().nets, at_once.base().nets);
    assert_eq!(then.base().ports, at_once.base().ports);
    assert_eq!(names(then.extras()), names(at_once.extras()));
    for name in names(at_once.extras()) {
        assert_eq!(then.extra(&name).cell, at_once.extra(&name).cell);
        assert!(then.extra(&name).placement == at_once.extra(&name).placement);
    }
    assert!(at_once.extra("n.a.z").placement == placed_at(211.0, false));
}

#[test]
fn quotes_in_names_are_escaped() {
    let why = SkipReason::NoNetlist { cell: text("a\"b\n") };
    assert_eq!(why.message(), "no netlist given for its cell \"a\\\"b\\n\"");
}

use kfnetlist::sorting::sort_values;
use kfnetlist::turn::{composed_mirror, Turn};
use kfnetlist::union_find::UnionFind;
use kfnetlist::wiring::{find_dangling, join_wires, Wire};
use kfnetlist::{
    BBox, Duplicate, NameMap, NameSet, Net, NetMember, NetlistPort, Number, Placement, PortRef,
};

fn text(s: &str) -> String {
    s.to_string()
}

fn number(v: f64) -> Number {
    Number { bits: v.to_bits() }
}

fn table(pairs: &[(&str, &str)]) -> NameMap<String> {
    let mut m: NameMap<String> = NameMap::new();
    for (n, v) in pairs {
        m.insert(text(n), text(v));
    }
    m
}

fn listed(m: &NameMap<String>) -> Vec<(String, String)> {
    (0..m.len())
        .map(|i| {
            let (n, v) = m.entry_at(i);
            (n.clone(), v.clone())
        })
        .collect()
}

fn pairs(list: &[(&str, &str)]) -> Vec<(String, String)> {
    list.iter().map(|(a, b)| (text(a), text(b))).collect()
}

#[test]
fn numbers_are_equal_as_floats_are() {
    let values = [
        0.0,
        -0.0,
        1.0,
        -1.0,
        f64::MIN_POSITIVE,
        5e-324,
        -5e-324,
        f64::MAX,
        f64::INFINITY,
        f64::NEG_INFINITY,
        f64::NAN,
        f64::from_bits(0xfff8_0000_0000_0001),
        f64::from_bits(0x7ff0_0000_0000_0001),
    ];
    for a in values {
        for b in values {
            assert_eq!(number(a) == number(b), a == b, "{a} {b}");
        }
    }
}

#[test]
fn placements_are_equal_field_by_field() {
    let base = Placement::default();
    assert!(base == Placement::default());
    let mut other = base;
    other.x = number(-0.0);
    assert!(base == other);
    for k in 0..8 {
        let mut other = base;
        match k {
            0 => other.x = number(1.0),
            1 => other.y = number(1.0),
            2 => other.orientation = number(90.0),
            3 => other.mirror = true,
            4 => other.bbox.left = number(1.0),
            5 => other.bbox.bottom = number(1.0),
            6 => other.bbox.right = number(1.0),
            _ => other.bbox.top = number(1.0),
        }
        assert!(base != other);
        assert!(other == other.duplicate());
    }
    let mut nan = base;
    nan.y = number(f64::NAN);
    assert!(nan != nan.duplicate());
}

#[test]
fn boxes_can_be_replaced() {
    let unit = BBox { left: number(0.0), bottom: number(0.0), right: number(1.0), top: number(1.0) };
    let mut p = Placement::default();
    p.set_bbox(unit);
    assert!(p.bbox() == unit);
    assert!(p.x == number(0.0));
    assert!(!p.mirror);
}

#[test]
fn multiples_of_a_quarter_are_exact() {
    let exact = [(0.0, 0.0, 1.0), (90.0, 1.0, 0.0), (180.0, 0.0, -1.0), (270.0, -1.0, 0.0)];
    for (angle, sin, cos) in exact {
        let turn = Turn::by_angle(number(angle)).unwrap();
        let (s, c) = turn.sin_cos();
        assert_eq!(f64::from_bits(s.bits), sin);
        assert_eq!(f64::from_bits(c.bits), cos);
    }
    assert_eq!(Turn::by_angle(number(-0.0)), Some(Turn::Zero));
    for angle in [45.0, 89.999, 360.0, -90.0, f64::NAN] {
        assert_eq!(Turn::by_angle(number(angle)), None);
    }
}

#[test]
fn mirrors_cancel() {
    let plain = Placement::default();
    let mut flipped = plain;
    flipped.mirror = true;
    assert!(!composed_mirror(&plain, &plain));
    assert!(composed_mirror(&plain, &flipped));
    assert!(composed_mirror(&flipped, &plain));
    assert!(!composed_mirror(&flipped, &flipped));
}

#[test]
fn names_keep_their_place() {
    let mut m = table(&[("b", "1"), ("a", "2"), ("c", "3")]);
    assert_eq!(listed(&m), pairs(&[("b", "1"), ("a", "2"), ("c", "3")]));
    m.insert(text("a"), text("4"));
    assert_eq!(listed(&m), pairs(&[("b", "1"), ("a", "4"), ("c", "3")]));
    assert_eq!(m.get("a"), Some(&text("4")));
    assert_eq!(m.get("x"), None);
    assert!(m.contains_key("c"));
    assert!(!m.contains_key("x"));
}

#[test]
fn taking_names_out_keeps_the_order() {
    let mut m = table(&[("b", "1"), ("a", "2"), ("c", "3")]);
    m.remove("b");
    assert_eq!(listed(&m), pairs(&[("a", "2"), ("c", "3")]));
    m.remove("x");
    assert_eq!(m.len(), 2);
    m.insert(text("b"), text("5"));
    assert_eq!(listed(&m), pairs(&[("a", "2"), ("c", "3"), ("b", "5")]));
}

#[test]
fn keeping_the_names_of_another_table() {
    let mut m = table(&[("b", "1"), ("a", "2"), ("c", "3")]);
    m.retain_names(&table(&[("c", ""), ("b", ""), ("x", "")]));
    assert_eq!(listed(&m), pairs(&[("b", "1"), ("c", "3")]));
    m.retain_names(&table(&[]));
    assert_eq!(m.len(), 0);
}

#[test]
fn names_can_be_sorted() {
    let mut m = table(&[("b", "1"), ("\u{e9}", "2"), ("B", "3"), ("ab", "4"), ("a", "5")]);
    m.sort_keys();
    assert_eq!(
        listed(&m),
        pairs(&[("B", "3"), ("a", "5"), ("ab", "4"), ("b", "1"), ("\u{e9}", "2")])
    );
    assert_eq!(m.get("B"), Some(&text("3")));
}

#[test]
fn a_copy_of_a_table_is_independent() {
    let mut m = table(&[("b", "1"), ("a", "2")]);
    let copy = m.duplicate();
    m.insert(text("b"), text("9"));
    m.remove("a");
    assert_eq!(listed(&copy), pairs(&[("b", "1"), ("a", "2")]));
}

#[test]
fn sets_say_what_is_new() {
    let mut s = NameSet::new();
    assert!(!s.contains("a"));
    assert!(s.insert(text("a")));
    assert!(!s.insert(text("a")));
    assert!(s.contains("a"));
    assert!(!s.contains("b"));
}

#[test]
fn sets_are_joined_under_their_lowest_element() {
    let mut sets = UnionFind::new(6);
    sets.union(4, 5);
    sets.union(2, 4);
    sets.union(0, 3);
    assert_eq!((0..6).map(|i| sets.find(i)).collect::<Vec<_>>(), vec![0, 1, 2, 0, 2, 2]);
    sets.union(5, 3);
    assert_eq!((0..6).map(|i| sets.find(i)).collect::<Vec<_>>(), vec![0, 1, 0, 0, 0, 0]);
}

fn port(name: &str) -> NetMember {
    NetMember::Port(NetlistPort { name: text(name) })
}

fn end(instance: &str, port: &str) -> PortRef {
    PortRef { instance: text(instance), port: text(port) }
}

#[test]
fn wires_that_meet_become_one_net() {
    let wires = vec![
        Wire { kept: vec![port("a")], ends: vec![end("x", "1")] },
        Wire { kept: vec![port("b")], ends: vec![] },
        Wire { kept: vec![port("c"), port("a")], ends: vec![end("x", "2"), end("y", "1")] },
        Wire { kept: vec![], ends: vec![end("z", "1")] },
        Wire { kept: vec![port("d")], ends: vec![end("y", "1"), end("x", "1")] },
    ];
    assert_eq!(
        join_wires(&wires),
        vec![
            Net::from_members(vec![port("a"), port("c"), port("d")]),
            Net::from_members(vec![port("b")]),
        ]
    );
    assert_eq!(join_wires(&vec![]), vec![]);
}

#[test]
fn the_first_port_without_a_wire_inside_is_found() {
    let outer = vec![
        Wire { kept: vec![], ends: vec![end("x", "1")] },
        Wire { kept: vec![], ends: vec![end("x", "2"), end("x", "3")] },
    ];
    let inner = vec![Wire { kept: vec![], ends: vec![end("x", "1")] }];
    assert_eq!(find_dangling(&outer, &inner), Some(end("x", "2")));
    let all = vec![Wire { kept: vec![], ends: vec![end("x", "3"), end("x", "1"), end("x", "2")] }];
    assert_eq!(find_dangling(&outer, &all), None);
}

#[test]
fn members_and_nets_are_sorted() {
    let mut net = Net::from_members(vec![port("b"), port("a"), port("ab")]);
    net.sort_in_place();
    assert_eq!(net, Net::from_members(vec![port("a"), port("ab"), port("b")]));
    let nets = sort_values(vec![
        Net::from_members(vec![port("b")]),
        Net::from_members(vec![port("a"), port("c")]),
        Net::from_members(vec![port("a")]),
    ]);
    assert_eq!(
        nets,
        vec![
            Net::from_members(vec![port("a")]),
            Net::from_members(vec![port("a"), port("c")]),
            Net::from_members(vec![port("b")]),
        ]
    );
}

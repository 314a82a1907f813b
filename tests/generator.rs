use texturegen::process::{Blend, BlendType, Invert, Process, Stripes};
use texturegen::{decode_color, port, Generator, Port};

fn stripes() -> Process {
    Stripes::new(8, 1, decode_color("1,0.5,0,1").unwrap(), decode_color("0.5,0,0.5,1").unwrap())
}

fn compiled(list: &[(u32, texturegen::Source)]) -> Vec<u32> {
    list.iter().map(|(n, _)| *n).collect()
}

#[test]
fn stripes_into_blend_scenario() {
    let mut g: Generator<()> = Generator::new();
    let a = g.add(stripes(), ());
    let b = g.add(Blend::new(BlendType::Add, BlendType::Normal), ());
    assert!(g.connect(port(a, 0), port(b, 0)));
    assert!(g.connect(port(a, 0), port(b, 1)));
    assert_eq!(g.connections(), 2);
    let out = g.view();
    assert_eq!(compiled(&out), vec![a, b]);
    let frag = &out[1].1.fragment;
    assert!(frag.contains("in_1_0 = out_0_0;\n"));
    assert!(frag.contains("in_1_1 = out_0_0;\n"));
    assert_eq!(frag.matches("out_0_0;\n").count(), 3);
    assert!(frag.contains("vec4 out_1_0 = vec4(in_1_0.rgb + in_1_1.rgb,\nin_1_1.a);\n"));
    assert!(frag.ends_with("color = out_1_0;\n}"));
    assert_eq!(frag.matches("vec4 out_0_0;").count(), 1);

    assert_eq!(g.disconnect(port(b, 1)), Some(Port { node: a, port: 0 }));
    let out = g.view();
    assert_eq!(compiled(&out), vec![b]);
    let frag = &out[0].1.fragment;
    assert!(frag.contains("vec4 in_1_1 = vec4(0);\n"));
    assert!(!frag.contains("in_1_1 = out_0_0"));
    assert!(frag.contains("vec4 out_1_0 = in_1_0;\n"));
}

#[test]
fn cycles_are_refused_and_change_nothing() {
    let mut g: Generator<u8> = Generator::new();
    let a = g.add(Invert::new(), 1);
    let b = g.add(Invert::new(), 2);
    let c = g.add(Invert::new(), 3);
    assert!(g.connect(port(a, 0), port(b, 0)));
    assert!(g.connect(port(b, 0), port(c, 0)));
    let before = g.iter_connections();
    assert!(!g.connect(port(c, 0), port(a, 0)));
    assert!(!g.connect(port(a, 0), port(a, 0)));
    assert_eq!(g.connections(), 2);
    assert_eq!(g.iter_connections(), before);
}

#[test]
fn missing_nodes_are_reported_as_absent() {
    let mut g: Generator<u8> = Generator::new();
    let a = g.add(Invert::new(), 1);
    assert!(!g.connect(port(a, 0), port(5, 0)));
    assert!(g.get(5).is_none());
    assert!(g.get_mut(5).is_none());
    assert!(g.remove(5).is_none());
    assert!(g.disconnect(port(5, 0)).is_none());
    assert!(g.disconnect(port(a, 0)).is_none());
    assert!(g.set_setting(5, "alpha", "1").is_none());
}

#[test]
fn second_producer_replaces_the_first() {
    let mut g: Generator<()> = Generator::new();
    let a = g.add(stripes(), ());
    let b = g.add(stripes(), ());
    let n = g.add(Blend::new(BlendType::Add, BlendType::Add), ());
    assert!(g.connect(port(a, 1), port(n, 0)));
    assert_eq!(g.connections(), 1);
    assert!(g.connect(port(b, 2), port(n, 0)));
    assert_eq!(g.connections(), 1);
    let edges = g.iter_connections();
    assert_eq!(edges, vec![(Port { node: b, port: 2 }, Port { node: n, port: 0 })]);
}

#[test]
fn edits_dirty_everything_downstream() {
    let mut g: Generator<()> = Generator::new();
    let a = g.add(stripes(), ());
    let b = g.add(Invert::new(), ());
    let c = g.add(Invert::new(), ());
    let d = g.add(stripes(), ());
    assert!(g.connect(port(a, 0), port(b, 0)));
    assert!(g.connect(port(b, 0), port(c, 0)));
    assert_eq!(compiled(&g.view()), vec![a, b, c, d]);
    assert!(g.view().is_empty());
    assert_eq!(g.set_setting(a, "horizontal", "3"), Some(Ok(())));
    assert_eq!(compiled(&g.view()), vec![a, b, c]);
    assert!(g.view().is_empty());
    assert!(g.set_setting(b, "alpha", "maybe").unwrap().is_err());
    assert!(g.view().is_empty());
    {
        let (_, data) = g.get_mut(b).unwrap();
        *data = ();
    }
    assert_eq!(compiled(&g.view()), vec![b, c]);
}

#[test]
fn diamond_ancestor_is_emitted_once() {
    let mut g: Generator<()> = Generator::new();
    let a = g.add(stripes(), ());
    let b = g.add(Invert::new(), ());
    let c = g.add(Invert::new(), ());
    let d = g.add(Blend::new(BlendType::Multiply, BlendType::Normal), ());
    assert!(g.connect(port(a, 0), port(b, 0)));
    assert!(g.connect(port(a, 0), port(c, 0)));
    assert!(g.connect(port(b, 0), port(d, 0)));
    assert!(g.connect(port(c, 0), port(d, 1)));
    let (src, order) = g.build_shader(d).unwrap();
    assert_eq!(order.len(), 4);
    assert_eq!(order[0], d);
    assert_eq!(order.iter().filter(|n| **n == a).count(), 1);
    assert_eq!(src.fragment.matches("vec4 out_0_0;").count(), 1);
    assert_eq!(src.fragment.matches("vec4 out_1_0 =").count(), 1);
    assert_eq!(src.fragment.matches("vec4 out_2_0 =").count(), 1);
    assert!(src.vertex.contains("gl_Position = matrix * vec4(position, 0, 1);\n}"));
    assert!(src.fragment.contains("void main() {\nvec4 one = vec4(1);\n"));
    let (_, order_b) = g.build_shader(b).unwrap();
    assert_eq!(order_b, vec![b, a]);
}

#[test]
fn removal_cascades() {
    let mut g: Generator<&'static str> = Generator::new();
    let a = g.add(stripes(), "a");
    let n = g.add(Invert::new(), "n");
    let c1 = g.add(Invert::new(), "c1");
    let c2 = g.add(Blend::new(BlendType::Add, BlendType::Add), "c2");
    let e = g.add(Invert::new(), "e");
    assert!(g.connect(port(a, 0), port(n, 0)));
    assert!(g.connect(port(n, 0), port(c1, 0)));
    assert!(g.connect(port(n, 0), port(c2, 0)));
    assert!(g.connect(port(c1, 0), port(c2, 1)));
    assert!(g.connect(port(c2, 0), port(e, 0)));
    g.view();
    let removed = g.remove(n).unwrap();
    assert_eq!(removed.1, "n");
    // two outgoing and one incoming edge went away
    assert_eq!(g.connections(), 2);
    for (s, t) in g.iter_connections() {
        assert!(s.node != n && t.node != n);
    }
    assert_eq!(compiled(&g.view()), vec![c1, c2, e]);
    assert!(g.get(n).is_none());
    // handles are not reused
    let f = g.add(Invert::new(), "f");
    assert_ne!(f, n);
    assert_eq!(*g.get(c1).unwrap().1, "c1");
}

#[test]
fn iter_lists_live_nodes_in_order() {
    let mut g: Generator<u32> = Generator::new();
    let a = g.add(Invert::new(), 10);
    let b = g.add(Invert::new(), 20);
    let c = g.add(Invert::new(), 30);
    g.remove(b);
    let items: Vec<(u32, u32)> = g.iter().into_iter().map(|(n, _, d)| (n, *d)).collect();
    assert_eq!(items, vec![(a, 10), (c, 30)]);
}

#[test]
fn program_lists_parents_before_their_copies() {
    let mut g: Generator<()> = Generator::new();
    let a = g.add(stripes(), ());
    let b = g.add(Invert::new(), ());
    assert!(g.connect(port(a, 0), port(b, 0)));
    let (src, _) = g.build_shader(b).unwrap();
    let f = &src.fragment;
    let one = f.find("vec4 one = vec4(1);\n").unwrap();
    let ph = f.find("vec4 in_1_0 = vec4(0);\n").unwrap();
    let a_code = f.find("vec4 out_0_0;\n").unwrap();
    let copy = f.find("in_1_0 = out_0_0;\n").unwrap();
    let b_code = f.find("vec4 out_1_0 = vec4(1 - in_1_0.r").unwrap();
    let color = f.find("color = out_1_0;\n").unwrap();
    assert!(one < ph && ph < a_code && a_code < copy && copy < b_code && b_code < color);
}

use texturegen::shader::{Context, Identifier, Role, Shader};

#[test]
fn identifier_renders_role_node_and_index() {
    let i = Identifier { id: 12, itype: Role::Output, index: 3 };
    assert_eq!(i.to_string(), "out_12_3");
    let t = Identifier { id: 0, itype: Role::Temporary, index: 10 };
    assert_eq!(t.to_string(), "tmp_0_10");
    let n = Identifier { id: 7, itype: Role::Input, index: 0 };
    assert_eq!(n.to_string(), "in_7_0");
}

#[test]
fn context_inputs_outputs_and_temporaries() {
    let mut ctx = Context::new(5, vec![2, 0, 2], 1);
    assert_eq!(ctx.input_len(), 2);
    assert_eq!(ctx.input(2).unwrap().to_string(), "in_5_2");
    assert_eq!(ctx.input(0).unwrap().to_string(), "in_5_0");
    assert!(ctx.input(1).is_none());
    assert_eq!(ctx.first_input().to_string(), "in_5_2");
    assert_eq!(ctx.output(0).to_string(), "out_5_0");
    assert_eq!(ctx.temporary().to_string(), "tmp_5_0");
    assert_eq!(ctx.temporary().to_string(), "tmp_5_1");
    let mut it = ctx.inputs();
    let (p, id) = it.next().unwrap();
    assert_eq!(p, 2);
    assert_eq!(id.to_string(), "in_5_2");
    let (p, _) = it.next().unwrap();
    assert_eq!(p, 0);
    assert!(it.next().is_none());
}

#[test]
fn shader_build_wraps_fragments_in_boilerplate() {
    let mut s = Shader::new();
    s.add_vertex(String::from("A;\n"));
    s.add_fragment(String::from("B;\n"));
    s.add_fragment(String::from("C;\n"));
    let src = s.build();
    assert!(src.vertex.starts_with("#version 140\nin vec2 position;\n"));
    assert!(src.vertex.ends_with("v_tex_coords = tex_coords;\nA;\n}"));
    assert!(src.fragment.starts_with("#version 140\nin vec2 v_tex_coords;\nout vec4 color;\n"));
    assert!(src.fragment.contains("float snoise(float seed, vec2 v)"));
    assert!(src.fragment.ends_with("void main() {\nB;\nC;\n}"));
}

#[test]
fn empty_shader_still_has_entry_points() {
    let src = Shader::new().build();
    assert!(src.vertex.ends_with("void main() {\nv_tex_coords = tex_coords;\n}"));
    assert!(src.fragment.ends_with("void main() {\n}"));
}

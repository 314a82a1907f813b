use texturegen::process::{
    Blend, BlendType, Constant, EdgeDetect, EdgeDetectType, Invert, Noise, Select, Stripes,
    VoronoiNoise,
};
use texturegen::process::combiners::for_each_channel;
use texturegen::shader::{Context, Identifier, Role};
use texturegen::value::parse_number;
use texturegen::decode_color;

fn ctx(id: usize, inputs: Vec<u32>) -> Context {
    Context::new(id, inputs, 1)
}

#[test]
fn blend_with_two_inputs_applies_both_modes() {
    let p = Blend::new(BlendType::Add, BlendType::Normal);
    let code = p.shader(&mut ctx(1, vec![0, 1]));
    assert_eq!(code, "vec4 out_1_0 = vec4(in_1_0.rgb + in_1_1.rgb,\nin_1_1.a);\n");
}

#[test]
fn blend_with_one_input_passes_it_through() {
    let p = Blend::new(BlendType::Add, BlendType::Normal);
    assert_eq!(p.shader(&mut ctx(4, vec![1])), "vec4 out_4_0 = in_4_1;\n");
}

#[test]
fn blend_without_inputs_is_zero() {
    let p = Blend::new(BlendType::Add, BlendType::Normal);
    assert_eq!(p.shader(&mut ctx(4, vec![])), "vec4 out_4_0 = vec4(0);\n");
}

#[test]
fn blend_formulas() {
    let a = Identifier { id: 2, itype: Role::Input, index: 0 };
    let b = Identifier { id: 2, itype: Role::Input, index: 1 };
    assert_eq!(BlendType::Multiply.blend(&a, &b, "rgb"), "in_2_0.rgb * in_2_1.rgb");
    assert_eq!(BlendType::Divide.blend(&a, &b, "a"), "in_2_0.a / in_2_1.a");
    assert_eq!(BlendType::Substract.blend(&a, &b, "a"), "in_2_0.a - in_2_1.a");
    assert_eq!(BlendType::Difference.blend(&a, &b, "a"), "abs(in_2_0.a - in_2_1.a)");
    assert_eq!(BlendType::Darken.blend(&a, &b, "a"), "min(in_2_0.a, in_2_1.a)");
    assert_eq!(BlendType::Lighten.blend(&a, &b, "a"), "max(in_2_0.a, in_2_1.a)");
    assert_eq!(
        BlendType::Screen.blend(&a, &b, "a"),
        "one.a - (one.a - in_2_0.a) * (one.a - in_2_1.a)"
    );
    assert_eq!(
        BlendType::Overlay.blend(&a, &b, "a"),
        "in_2_0.a < 0.5?\n(2 * in_2_0.a * in_2_1.a):\n(one.a - 2 * (one.a - in_2_0.a) * (one.a - in_2_1.a))"
    );
    assert_eq!(
        BlendType::Hard.blend(&a, &b, "a"),
        "in_2_1.a < 0.5?\n(2 * in_2_0.a * in_2_1.a):\n(one.a - 2 * (one.a - in_2_0.a) * (one.a - in_2_1.a))"
    );
    assert_eq!(
        BlendType::Soft.blend(&a, &b, "a"),
        "in_2_1.a < 0.5?\n(2 * in_2_0.a * in_2_1.a + in_2_0.a * in_2_0.a - 2 * in_2_0.a * in_2_0.a * in_2_1.a):\n(2 * sqrt(in_2_0.a) * in_2_1.a - sqrt(in_2_0.a) + 2 * in_2_0.a - 2 * in_2_0.a * in_2_1.a)"
    );
}

#[test]
fn conditional_modes_work_per_channel() {
    let a = Identifier { id: 0, itype: Role::Input, index: 0 };
    let b = Identifier { id: 0, itype: Role::Input, index: 1 };
    let s = for_each_channel("rg", BlendType::Overlay, &a, &b);
    assert_eq!(
        s,
        "vec2(\nin_0_0.r < 0.5?\n(2 * in_0_0.r * in_0_1.r):\n(one.r - 2 * (one.r - in_0_0.r) * (one.r - in_0_1.r)),\nin_0_0.g < 0.5?\n(2 * in_0_0.g * in_0_1.g):\n(one.g - 2 * (one.g - in_0_0.g) * (one.g - in_0_1.g)))"
    );
    let rgb = BlendType::Hard.blend(&a, &b, "rgb");
    assert!(rgb.starts_with("vec3(\nin_0_1.r < 0.5?"));
    assert_eq!(rgb.matches(",\n").count(), 2);
}

#[test]
fn constant_and_stripes_code() {
    let c = Constant::new(decode_color("1,0.5,0,1").unwrap());
    assert_eq!(c.shader(&mut ctx(3, vec![])), "vec4 out_3_0 = vec4(1, 0.5, 0, 1);\n");
    let s = Stripes::new(8, 1, decode_color("1,1,1,1").unwrap(), decode_color("0,0,0,1").unwrap());
    assert_eq!(
        s.shader(&mut ctx(0, vec![])),
        "vec4 out_0_0;\nif(mod(v_tex_coords.x, 2.0 / 8.0) < 1.0 / 8.0 != mod(v_tex_coords.y, 2.0 / 1.0) < 1.0 / 1.0) {\nout_0_0 = vec4(0, 0, 0, 1);\n} else {\nout_0_0 = vec4(1, 1, 1, 1);\n}\n"
    );
}

#[test]
fn noises_use_a_fresh_temporary() {
    let n = Noise::new(3, 2, 4);
    let mut c = ctx(6, vec![]);
    assert_eq!(
        n.shader(&mut c),
        "float tmp_6_0 = snoise(3.0, v_tex_coords / vec2(1.0 / 4.0, 1.0 / 2.0));\nvec4 out_6_0 = vec4(tmp_6_0, tmp_6_0, tmp_6_0, 1.);\n"
    );
    let v = VoronoiNoise::new(1, 2, 4, parse_number("0.5").unwrap(), parse_number("1").unwrap());
    assert_eq!(
        v.shader(&mut c),
        "float tmp_6_1 = iqnoise(v_tex_coords / vec2(1.0 / 4.0, 1.0 / 2.0), 0.5, 1);\nvec4 out_6_0 = vec4(tmp_6_1, tmp_6_1, tmp_6_1, 1.);\n"
    );
}

#[test]
fn modifiers_code() {
    let e = EdgeDetect::new(parse_number("0.25").unwrap(), EdgeDetectType::FreiChen);
    assert_eq!(e.shader(&mut ctx(2, vec![0])), "vec4 out_2_0 = vec4(0.25, 0.25, 0.25, 0.25);\n");
    let s = Select::new(parse_number("0.5").unwrap());
    assert_eq!(
        s.shader(&mut ctx(2, vec![0, 1, 2])),
        "vec4 out_2_0 = in_2_0;\nif((in_2_1.r * 0.33 + in_2_1.g * 0.33 + in_2_1.b * 0.33) > 0.5) {\n  out_2_0 = in_2_2;\n}\n"
    );
    assert_eq!(s.shader(&mut ctx(2, vec![0, 2])), "vec4 out_2_0 = vec4(0);\n");
    let i = Invert::new();
    assert_eq!(
        i.shader(&mut ctx(9, vec![0])),
        "vec4 out_9_0 = vec4(1 - in_9_0.r, 1 - in_9_0.g, 1 - in_9_0.b, in_9_0.a);\n"
    );
    assert_eq!(i.shader(&mut ctx(9, vec![])), "vec4 out_9_0 = vec4(0);\n");
    let mut ia = Invert::new();
    ia.set_setting("alpha", "1").unwrap();
    assert_eq!(ia.shader(&mut ctx(9, vec![0])), "vec4 out_9_0 = vec4(in_9_0.rgb, 1 - in_9_0.a);\n");
}

//! Processes without inputs: constant color, stripes and two noises.
use vstd::prelude::*;
use crate::shader::{ident_text, output_ident, Context, Identifier, ContextModel};
use crate::text::{decimal, push_decimal};
use crate::value::{Color, Number, number_text};

verus! {

/// `vec4(r, g, b, a)` of a color.
pub open spec fn vec4_text(c: Color) -> Seq<char> {
    "vec4("@ + number_text(c.red) + ", "@ + number_text(c.green) + ", "@ + number_text(c.blue)
        + ", "@ + number_text(c.alpha) + ")"@
}

/// `<n>.0 / <d>.0`: a quotient of two whole numbers as a float expression.
pub open spec fn quotient_text(n: nat, d: nat) -> Seq<char> {
    decimal(n) + ".0 / "@ + decimal(d) + ".0"@
}

/// A color as a GLSL `vec4` constructor.
pub fn col(c: &Color) -> (r: String)
    ensures
        r@ == vec4_text(*c),
{
    let mut out = String::new();
    out.append("vec4(");
    c.red.write_to(&mut out);
    out.append(", ");
    c.green.write_to(&mut out);
    out.append(", ");
    c.blue.write_to(&mut out);
    out.append(", ");
    c.alpha.write_to(&mut out);
    out.append(")");
    assert(out@ =~= vec4_text(*c));
    out
}

pub fn write_quotient(out: &mut String, n: u32, d: u32)
    ensures
        final(out)@ == old(out)@ + quotient_text(n as nat, d as nat),
{
    push_decimal(out, n as u64);
    out.append(".0 / ");
    push_decimal(out, d as u64);
    out.append(".0");
    assert(final(out)@ =~= old(out)@ + quotient_text(n as nat, d as nat));
}

/// A single color everywhere.
#[derive(Clone, Copy, Debug, PartialEq, Eq, Structural)]
pub struct Constant {
    pub color: Color,
}

impl Constant {
    pub open spec fn shader_spec(&self, ctx: ContextModel) -> Seq<char> {
        "vec4 "@ + ident_text(output_ident(ctx.id, 0)) + " = "@ + vec4_text(self.color) + ";\n"@
    }

    pub fn shader(&self, ctx: &mut Context) -> (r: String)
        requires
            old(ctx)@.outputs >= 1,
        ensures
            r@ == self.shader_spec(old(ctx)@),
            final(ctx)@ == old(ctx)@,
    {
        let mut r = String::new();
        r.append("vec4 ");
        ctx.output(0).write_to(&mut r);
        r.append(" = ");
        r.append(col(&self.color).as_str());
        r.append(";\n");
        assert(r@ =~= self.shader_spec(ctx@));
        r
    }
}

/// A checkerboard of two colors with `ver` columns and `hor` rows of cells.
#[derive(Clone, Copy, Debug, PartialEq, Eq, Structural)]
pub struct Stripes {
    pub ver: u32,
    pub hor: u32,
    pub even_col: Color,
    pub odd_col: Color,
}

impl Stripes {
    pub open spec fn shader_spec(&self, ctx: ContextModel) -> Seq<char> {
        let o = ident_text(output_ident(ctx.id, 0));
        "vec4 "@ + o + ";\nif(mod(v_tex_coords.x, "@ + quotient_text(2, self.ver as nat) + ") < "@
            + quotient_text(1, self.ver as nat) + " != mod(v_tex_coords.y, "@ + quotient_text(
            2,
            self.hor as nat,
        ) + ") < "@ + quotient_text(1, self.hor as nat) + ") {\n"@ + o + " = "@ + vec4_text(
            self.odd_col,
        ) + ";\n} else {\n"@ + o + " = "@ + vec4_text(self.even_col) + ";\n}\n"@
    }

    pub fn shader(&self, ctx: &mut Context) -> (r: String)
        requires
            old(ctx)@.outputs >= 1,
        ensures
            r@ == self.shader_spec(old(ctx)@),
            final(ctx)@ == old(ctx)@,
    {
        let o = ctx.output(0);
        let mut r = String::new();
        r.append("vec4 ");
        o.write_to(&mut r);
        r.append(";\nif(mod(v_tex_coords.x, ");
        write_quotient(&mut r, 2, self.ver);
        r.append(") < ");
        write_quotient(&mut r, 1, self.ver);
        r.append(" != mod(v_tex_coords.y, ");
        write_quotient(&mut r, 2, self.hor);
        r.append(") < ");
        write_quotient(&mut r, 1, self.hor);
        r.append(") {\n");
        o.write_to(&mut r);
        r.append(" = ");
        r.append(col(&self.odd_col).as_str());
        r.append(";\n} else {\n");
        o.write_to(&mut r);
        r.append(" = ");
        r.append(col(&self.even_col).as_str());
        r.append(";\n}\n");
        assert(r@ =~= self.shader_spec(ctx@));
        r
    }
}

/// Cellular noise on a `hor` by `ver` grid.
#[derive(Clone, Copy, Debug, PartialEq, Eq, Structural)]
pub struct VoronoiNoise {
    pub ver: u32,
    pub hor: u32,
    pub seed: u32,
    pub grid: Number,
    pub control: Number,
}

/// `float <t> = <call>;` then the output as a grey level of `t`.
pub open spec fn grey_text(ctx: ContextModel, call: Seq<char>) -> Seq<char> {
    let t = ident_text(Identifier { id: ctx.id, itype: crate::shader::Role::Temporary, index: ctx.temps });
    "float "@ + t + " = "@ + call + ";\nvec4 "@ + ident_text(output_ident(ctx.id, 0)) + " = vec4("@
        + t + ", "@ + t + ", "@ + t + ", 1.);\n"@
}

/// `v_tex_coords / vec2(1.0 / <hor>.0, 1.0 / <ver>.0)`
pub open spec fn scaled_coords(hor: u32, ver: u32) -> Seq<char> {
    "v_tex_coords / vec2("@ + quotient_text(1, hor as nat) + ", "@ + quotient_text(1, ver as nat)
        + ")"@
}

fn write_scaled_coords(out: &mut String, hor: u32, ver: u32)
    ensures
        final(out)@ == old(out)@ + scaled_coords(hor, ver),
{
    out.append("v_tex_coords / vec2(");
    write_quotient(out, 1, hor);
    out.append(", ");
    write_quotient(out, 1, ver);
    out.append(")");
    assert(final(out)@ =~= old(out)@ + scaled_coords(hor, ver));
}

fn grey(ctx: &mut Context, call: &String) -> (r: String)
    requires
        old(ctx)@.outputs >= 1,
        old(ctx)@.temps < u32::MAX,
    ensures
        r@ == grey_text(old(ctx)@, call@),
        final(ctx)@.temps == old(ctx)@.temps + 1,
        final(ctx)@.id == old(ctx)@.id,
        final(ctx)@.inputs == old(ctx)@.inputs,
        final(ctx)@.outputs == old(ctx)@.outputs,
{
    let t = ctx.temporary();
    let mut r = String::new();
    r.append("float ");
    t.write_to(&mut r);
    r.append(" = ");
    r.append(call.as_str());
    r.append(";\nvec4 ");
    ctx.output(0).write_to(&mut r);
    r.append(" = vec4(");
    t.write_to(&mut r);
    r.append(", ");
    t.write_to(&mut r);
    r.append(", ");
    t.write_to(&mut r);
    r.append(", 1.);\n");
    assert(r@ =~= grey_text(old(ctx)@, call@));
    r
}

impl VoronoiNoise {
    pub open spec fn call_text(&self) -> Seq<char> {
        "iqnoise("@ + scaled_coords(self.hor, self.ver) + ", "@ + number_text(self.grid) + ", "@
            + number_text(self.control) + ")"@
    }

    pub open spec fn shader_spec(&self, ctx: ContextModel) -> Seq<char> {
        grey_text(ctx, self.call_text())
    }

    pub fn shader(&self, ctx: &mut Context) -> (r: String)
        requires
            old(ctx)@.outputs >= 1,
            old(ctx)@.temps < u32::MAX,
        ensures
            r@ == self.shader_spec(old(ctx)@),
            final(ctx)@.temps == old(ctx)@.temps + 1,
            final(ctx)@.id == old(ctx)@.id,
            final(ctx)@.inputs == old(ctx)@.inputs,
            final(ctx)@.outputs == old(ctx)@.outputs,
    {
        let mut call = String::new();
        call.append("iqnoise(");
        write_scaled_coords(&mut call, self.hor, self.ver);
        call.append(", ");
        self.grid.write_to(&mut call);
        call.append(", ");
        self.control.write_to(&mut call);
        call.append(")");
        assert(call@ =~= self.call_text());
        grey(ctx, &call)
    }
}

/// Gradient (simplex) noise on a `hor` by `ver` grid.
#[derive(Clone, Copy, Debug, PartialEq, Eq, Structural)]
pub struct Noise {
    pub ver: u32,
    pub hor: u32,
    pub seed: u32,
}

impl Noise {
    pub open spec fn call_text(&self) -> Seq<char> {
        "snoise("@ + decimal(self.seed as nat) + ".0, "@ + scaled_coords(self.hor, self.ver) + ")"@
    }

    pub open spec fn shader_spec(&self, ctx: ContextModel) -> Seq<char> {
        grey_text(ctx, self.call_text())
    }

    pub fn shader(&self, ctx: &mut Context) -> (r: String)
        requires
            old(ctx)@.outputs >= 1,
            old(ctx)@.temps < u32::MAX,
        ensures
            r@ == self.shader_spec(old(ctx)@),
            final(ctx)@.temps == old(ctx)@.temps + 1,
            final(ctx)@.id == old(ctx)@.id,
            final(ctx)@.inputs == old(ctx)@.inputs,
            final(ctx)@.outputs == old(ctx)@.outputs,
    {
        let mut call = String::new();
        call.append("snoise(");
        push_decimal(&mut call, self.seed as u64);
        call.append(".0, ");
        write_scaled_coords(&mut call, self.hor, self.ver);
        call.append(")");
        assert(call@ =~= self.call_text());
        grey(ctx, &call)
    }
}

impl Constant {
    pub fn new(color: Color) -> (r: crate::process::Process)
        ensures
            r == crate::process::Process::Constant(Constant { color }),
    {
        crate::process::Process::Constant(Constant { color })
    }
}

impl Stripes {
    pub fn new(ver: u32, hor: u32, even_col: Color, odd_col: Color) -> (r: crate::process::Process)
        ensures
            r == crate::process::Process::Stripes(Stripes { ver, hor, even_col, odd_col }),
    {
        crate::process::Process::Stripes(Stripes { ver, hor, even_col, odd_col })
    }
}

impl VoronoiNoise {
    pub fn new(seed: u32, ver: u32, hor: u32, grid: Number, control: Number) -> (r: crate::process::Process)
        ensures
            r == crate::process::Process::VoronoiNoise(VoronoiNoise { ver, hor, seed, grid, control }),
    {
        crate::process::Process::VoronoiNoise(VoronoiNoise { ver, hor, seed, grid, control })
    }
}

impl Noise {
    pub fn new(seed: u32, ver: u32, hor: u32) -> (r: crate::process::Process)
        ensures
            r == crate::process::Process::Noise(Noise { ver, hor, seed }),
    {
        crate::process::Process::Noise(Noise { ver, hor, seed })
    }
}

} // verus!

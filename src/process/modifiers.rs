//! Processes that transform their inputs: edge detection, select, invert.
use vstd::prelude::*;
use crate::process::combiners::{zero_output, zero_output_text};
use crate::shader::{ident_text, input_ident, output_ident, Context, ContextModel};
use crate::value::{Number, number_text};

verus! {

/// The edge detection operator.
#[derive(Clone, Copy, Debug, PartialEq, Eq, Structural)]
pub enum Type {
    Sobel,
    FreiChen,
}

/// Edge detection; for now it emits its threshold as a flat color.
#[derive(Clone, Copy, Debug, PartialEq, Eq, Structural)]
pub struct EdgeDetect {
    pub threshold: Number,
    pub edtype: Type,
}

impl EdgeDetect {
    pub open spec fn shader_spec(&self, ctx: ContextModel) -> Seq<char> {
        let t = number_text(self.threshold);
        "vec4 "@ + ident_text(output_ident(ctx.id, 0)) + " = vec4("@ + t + ", "@ + t + ", "@ + t
            + ", "@ + t + ");\n"@
    }

    pub fn shader(&self, ctx: &mut Context) -> (r: String)
        requires
            old(ctx)@.outputs >= 1,
        ensures
            r@ == self.shader_spec(old(ctx)@),
            final(ctx)@ == old(ctx)@,
    {
        let t = self.threshold.to_string();
        let mut r = String::new();
        r.append("vec4 ");
        ctx.output(0).write_to(&mut r);
        r.append(" = vec4(");
        r.append(t.as_str());
        r.append(", ");
        r.append(t.as_str());
        r.append(", ");
        r.append(t.as_str());
        r.append(", ");
        r.append(t.as_str());
        r.append(");\n");
        assert(r@ =~= self.shader_spec(ctx@));
        r
    }
}

/// Chooses, per pixel, input 0 or input 2 by the brightness of input 1.
#[derive(Clone, Copy, Debug, PartialEq, Eq, Structural)]
pub struct Select {
    pub threshold: Number,
}

impl Select {
    /// With inputs 0, 1 and 2 connected: input 0, replaced by input 2 where
    /// input 1 is brighter than the threshold; otherwise the zero vector.
    pub open spec fn shader_spec(&self, ctx: ContextModel) -> Seq<char> {
        let o = ident_text(output_ident(ctx.id, 0));
        let a = ident_text(input_ident(ctx.id, 0));
        let t = ident_text(input_ident(ctx.id, 1));
        let b = ident_text(input_ident(ctx.id, 2));
        if ctx.inputs.contains(0) && ctx.inputs.contains(1) && ctx.inputs.contains(2) {
            "vec4 "@ + o + " = "@ + a + ";\nif(("@ + t + ".r * 0.33 + "@ + t + ".g * 0.33 + "@ + t
                + ".b * 0.33) > "@ + number_text(self.threshold) + ") {\n  "@ + o + " = "@ + b
                + ";\n}\n"@
        } else {
            zero_output_text(ctx)
        }
    }

    pub fn shader(&self, ctx: &mut Context) -> (r: String)
        requires
            old(ctx)@.outputs >= 1,
        ensures
            r@ == self.shader_spec(old(ctx)@),
            final(ctx)@ == old(ctx)@,
    {
        match (ctx.input(0), ctx.input(1), ctx.input(2)) {
            (Some(a), Some(t), Some(b)) => {
                let o = ctx.output(0);
                let ts = t.to_string();
                let mut r = String::new();
                r.append("vec4 ");
                o.write_to(&mut r);
                r.append(" = ");
                a.write_to(&mut r);
                r.append(";\nif((");
                r.append(ts.as_str());
                r.append(".r * 0.33 + ");
                r.append(ts.as_str());
                r.append(".g * 0.33 + ");
                r.append(ts.as_str());
                r.append(".b * 0.33) > ");
                self.threshold.write_to(&mut r);
                r.append(") {\n  ");
                o.write_to(&mut r);
                r.append(" = ");
                b.write_to(&mut r);
                r.append(";\n}\n");
                assert(r@ =~= self.shader_spec(ctx@));
                r
            },
            _ => zero_output(ctx),
        }
    }
}

/// Inverts the color channels of its input, or only its alpha.
#[derive(Clone, Copy, Debug, PartialEq, Eq, Structural)]
pub struct Invert {
    pub alpha: bool,
}

impl Invert {
    pub open spec fn shader_spec(&self, ctx: ContextModel) -> Seq<char> {
        let o = ident_text(output_ident(ctx.id, 0));
        let i = ident_text(input_ident(ctx.id, 0));
        if ctx.inputs.contains(0) {
            if self.alpha {
                "vec4 "@ + o + " = vec4("@ + i + ".rgb, 1 - "@ + i + ".a);\n"@
            } else {
                "vec4 "@ + o + " = vec4(1 - "@ + i + ".r, 1 - "@ + i + ".g, 1 - "@ + i + ".b, "@ + i
                    + ".a);\n"@
            }
        } else {
            zero_output_text(ctx)
        }
    }

    pub fn shader(&self, ctx: &mut Context) -> (r: String)
        requires
            old(ctx)@.outputs >= 1,
        ensures
            r@ == self.shader_spec(old(ctx)@),
            final(ctx)@ == old(ctx)@,
    {
        match ctx.input(0) {
            Some(input) => {
                let i = input.to_string();
                let mut r = String::new();
                r.append("vec4 ");
                ctx.output(0).write_to(&mut r);
                if self.alpha {
                    r.append(" = vec4(");
                    r.append(i.as_str());
                    r.append(".rgb, 1 - ");
                    r.append(i.as_str());
                    r.append(".a);\n");
                } else {
                    r.append(" = vec4(1 - ");
                    r.append(i.as_str());
                    r.append(".r, 1 - ");
                    r.append(i.as_str());
                    r.append(".g, 1 - ");
                    r.append(i.as_str());
                    r.append(".b, ");
                    r.append(i.as_str());
                    r.append(".a);\n");
                }
                assert(r@ =~= self.shader_spec(ctx@));
                r
            },
            None => zero_output(ctx),
        }
    }
}

impl EdgeDetect {
    pub fn new(threshold: Number, edtype: Type) -> (r: crate::process::Process)
        ensures
            r == crate::process::Process::EdgeDetect(EdgeDetect { threshold, edtype }),
    {
        crate::process::Process::EdgeDetect(EdgeDetect { threshold, edtype })
    }
}

impl Select {
    pub fn new(threshold: Number) -> (r: crate::process::Process)
        ensures
            r == crate::process::Process::Select(Select { threshold }),
    {
        crate::process::Process::Select(Select { threshold })
    }
}

impl Invert {
    /// Inverts the color channels; the `alpha` setting switches to alpha.
    pub fn new() -> (r: crate::process::Process)
        ensures
            r == crate::process::Process::Invert(Invert { alpha: false }),
    {
        crate::process::Process::Invert(Invert { alpha: false })
    }
}

} // verus!

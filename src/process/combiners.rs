//! Processes that combine two inputs: the blend modes.
use vstd::prelude::*;
use crate::shader::{ident_text, input_ident, output_ident, Context, ContextModel, Identifier};
use crate::text::{chars_of, decimal, push_char, push_decimal};

verus! {

/// A per-channel blend function.
#[derive(Clone, Copy, Debug, PartialEq, Eq, Structural)]
pub enum Type {
    Normal,
    Multiply,
    Divide,
    Add,
    Substract,
    Difference,
    Darken,
    Lighten,
    Screen,
    Overlay,
    Hard,
    Soft,
}

/// `<identifier>.<channels>`
pub open spec fn operand(i: Identifier, ch: Seq<char>) -> Seq<char> {
    ident_text(i) + "."@ + ch
}

/// `one.<channels>`
pub open spec fn one_of(ch: Seq<char>) -> Seq<char> {
    "one."@ + ch
}

/// The conditional formula of the overlay, hard-light and soft-light modes
/// for one channel `c`; `a` and `b` are the two inputs.
pub open spec fn channel_formula(t: Type, a: Identifier, b: Identifier, c: char) -> Seq<char> {
    let x = operand(a, seq![c]);
    let y = operand(b, seq![c]);
    let o = one_of(seq![c]);
    match t {
        Type::Soft => y + " < 0.5?\n(2 * "@ + x + " * "@ + y + " + "@ + x + " * "@ + x + " - 2 * "@
            + x + " * "@ + x + " * "@ + y + "):\n(2 * sqrt("@ + x + ") * "@ + y + " - sqrt("@ + x
            + ") + 2 * "@ + x + " - 2 * "@ + x + " * "@ + y + ")"@,
        _ => (if t == Type::Hard { y } else { x }) + " < 0.5?\n(2 * "@ + x + " * "@ + y
            + "):\n("@ + o + " - 2 * ("@ + o + " - "@ + x + ") * ("@ + o + " - "@ + y + "))"@,
    }
}

/// The per-channel formulas for `chs`, separated by `,\n`.
pub open spec fn join_channels(t: Type, a: Identifier, b: Identifier, chs: Seq<char>) -> Seq<char>
    decreases chs.len(),
{
    if chs.len() == 0 {
        Seq::empty()
    } else if chs.len() == 1 {
        channel_formula(t, a, b, chs[0])
    } else {
        join_channels(t, a, b, chs.drop_last()) + ",\n"@ + channel_formula(t, a, b, chs.last())
    }
}

/// One channel's formula as is; several, gathered in a `vecN(...)` constructor.
pub open spec fn each_channel_text(t: Type, a: Identifier, b: Identifier, chs: Seq<char>) -> Seq<
    char,
> {
    if chs.len() == 1 {
        channel_formula(t, a, b, chs[0])
    } else {
        "vec"@ + decimal(chs.len()) + "(\n"@ + join_channels(t, a, b, chs) + ")"@
    }
}

/// The expression that blends channels `ch` of inputs `a` and `b` with mode `t`.
pub open spec fn blend_text(t: Type, a: Identifier, b: Identifier, ch: Seq<char>) -> Seq<char> {
    let x = operand(a, ch);
    let y = operand(b, ch);
    let o = one_of(ch);
    match t {
        Type::Normal => y,
        Type::Multiply => x + " * "@ + y,
        Type::Divide => x + " / "@ + y,
        Type::Add => x + " + "@ + y,
        Type::Substract => x + " - "@ + y,
        Type::Difference => "abs("@ + x + " - "@ + y + ")"@,
        Type::Darken => "min("@ + x + ", "@ + y + ")"@,
        Type::Lighten => "max("@ + x + ", "@ + y + ")"@,
        Type::Screen => o + " - ("@ + o + " - "@ + x + ") * ("@ + o + " - "@ + y + ")"@,
        _ => each_channel_text(t, a, b, ch),
    }
}

fn operand_string(i: &Identifier, ch: &str) -> (r: String)
    ensures
        r@ == operand(*i, ch@),
{
    let mut r = i.to_string();
    r.append(".");
    r.append(ch);
    r
}

fn operand_char(i: &Identifier, c: char) -> (r: String)
    ensures
        r@ == operand(*i, seq![c]),
{
    let mut r = i.to_string();
    r.append(".");
    push_char(&mut r, c);
    assert(r@ =~= operand(*i, seq![c]));
    r
}

fn formula(t: Type, a: &Identifier, b: &Identifier, c: char) -> (r: String)
    ensures
        r@ == channel_formula(t, *a, *b, c),
{
    let x = operand_char(a, c);
    let y = operand_char(b, c);
    let mut o = String::from_str("one.");
    push_char(&mut o, c);
    assert(o@ =~= one_of(seq![c]));
    let mut r = String::new();
    match t {
        Type::Soft => {
            r.append(y.as_str());
            r.append(" < 0.5?\n(2 * ");
            r.append(x.as_str());
            r.append(" * ");
            r.append(y.as_str());
            r.append(" + ");
            r.append(x.as_str());
            r.append(" * ");
            r.append(x.as_str());
            r.append(" - 2 * ");
            r.append(x.as_str());
            r.append(" * ");
            r.append(x.as_str());
            r.append(" * ");
            r.append(y.as_str());
            r.append("):\n(2 * sqrt(");
            r.append(x.as_str());
            r.append(") * ");
            r.append(y.as_str());
            r.append(" - sqrt(");
            r.append(x.as_str());
            r.append(") + 2 * ");
            r.append(x.as_str());
            r.append(" - 2 * ");
            r.append(x.as_str());
            r.append(" * ");
            r.append(y.as_str());
            r.append(")");
        },
        _ => {
            if t == Type::Hard {
                r.append(y.as_str());
            } else {
                r.append(x.as_str());
            }
            r.append(" < 0.5?\n(2 * ");
            r.append(x.as_str());
            r.append(" * ");
            r.append(y.as_str());
            r.append("):\n(");
            r.append(o.as_str());
            r.append(" - 2 * (");
            r.append(o.as_str());
            r.append(" - ");
            r.append(x.as_str());
            r.append(") * (");
            r.append(o.as_str());
            r.append(" - ");
            r.append(y.as_str());
            r.append("))");
        },
    }
    assert(r@ =~= channel_formula(t, *a, *b, c));
    r
}

/// Applies the conditional formula of mode `t` to each of `channels`
/// independently; more than one channel is gathered in a vector constructor.
pub fn for_each_channel(channels: &str, t: Type, a: &Identifier, b: &Identifier) -> (r: String)
    requires
        1 <= channels@.len() <= 4,
    ensures
        r@ == each_channel_text(t, *a, *b, channels@),
{
    let chs = chars_of(channels);
    let n = chs.len();
    let mut r = String::new();
    if n > 1 {
        r.append("vec");
        push_decimal(&mut r, n as u64);
        r.append("(\n");
    }
    let ghost start = r@;
    let mut i: usize = 0;
    while i < n
        invariant
            n == chs@.len(),
            chs@ == channels@,
            i <= n,
            r@ == start + join_channels(t, *a, *b, chs@.take(i as int)),
        decreases n - i,
    {
        if i > 0 {
            r.append(",\n");
        }
        let f = formula(t, a, b, chs[i]);
        r.append(f.as_str());
        assert(chs@.take(i as int + 1).drop_last() =~= chs@.take(i as int));
        i += 1;
    }
    assert(chs@.take(n as int) =~= chs@);
    if n > 1 {
        r.append(")");
    }
    assert(r@ =~= each_channel_text(t, *a, *b, channels@));
    r
}

impl Type {
    /// The expression blending channels `channels` of inputs `a` and `b`.
    pub fn blend(&self, a: &Identifier, b: &Identifier, channels: &str) -> (r: String)
        requires
            1 <= channels@.len() <= 4,
        ensures
            r@ == blend_text(*self, *a, *b, channels@),
    {
        let x = operand_string(a, channels);
        let y = operand_string(b, channels);
        let mut o = String::from_str("one.");
        o.append(channels);
        let mut r = String::new();
        match *self {
            Type::Normal => {
                r.append(y.as_str());
            },
            Type::Multiply => {
                r.append(x.as_str());
                r.append(" * ");
                r.append(y.as_str());
            },
            Type::Divide => {
                r.append(x.as_str());
                r.append(" / ");
                r.append(y.as_str());
            },
            Type::Add => {
                r.append(x.as_str());
                r.append(" + ");
                r.append(y.as_str());
            },
            Type::Substract => {
                r.append(x.as_str());
                r.append(" - ");
                r.append(y.as_str());
            },
            Type::Difference => {
                r.append("abs(");
                r.append(x.as_str());
                r.append(" - ");
                r.append(y.as_str());
                r.append(")");
            },
            Type::Darken => {
                r.append("min(");
                r.append(x.as_str());
                r.append(", ");
                r.append(y.as_str());
                r.append(")");
            },
            Type::Lighten => {
                r.append("max(");
                r.append(x.as_str());
                r.append(", ");
                r.append(y.as_str());
                r.append(")");
            },
            Type::Screen => {
                r.append(o.as_str());
                r.append(" - (");
                r.append(o.as_str());
                r.append(" - ");
                r.append(x.as_str());
                r.append(") * (");
                r.append(o.as_str());
                r.append(" - ");
                r.append(y.as_str());
                r.append(")");
            },
            _ => {
                r = for_each_channel(channels, *self, a, b);
            },
        }
        assert(r@ =~= blend_text(*self, *a, *b, channels@));
        r
    }
}

/// `vec4 <output 0> = vec4(0);`
pub open spec fn zero_output_text(ctx: ContextModel) -> Seq<char> {
    "vec4 "@ + ident_text(output_ident(ctx.id, 0)) + " = vec4(0);\n"@
}

pub fn zero_output(ctx: &Context) -> (r: String)
    requires
        ctx@.outputs >= 1,
    ensures
        r@ == zero_output_text(ctx@),
{
    let mut r = String::new();
    r.append("vec4 ");
    ctx.output(0).write_to(&mut r);
    r.append(" = vec4(0);\n");
    assert(r@ =~= zero_output_text(ctx@));
    r
}

/// Blends two inputs, the color channels with one mode and alpha with another.
#[derive(Clone, Copy, Debug, PartialEq, Eq, Structural)]
pub struct Blend(pub Type, pub Type);

impl Blend {
    /// With inputs 0 and 1 connected, the two modes applied to them;
    /// with no input, the zero vector; otherwise the first connected input.
    pub open spec fn shader_spec(&self, ctx: ContextModel) -> Seq<char> {
        let o = ident_text(output_ident(ctx.id, 0));
        let a = input_ident(ctx.id, 0);
        let b = input_ident(ctx.id, 1);
        if ctx.inputs.contains(0) && ctx.inputs.contains(1) {
            "vec4 "@ + o + " = vec4("@ + blend_text(self.0, a, b, "rgb"@) + ",\n"@ + blend_text(
                self.1,
                a,
                b,
                "a"@,
            ) + ");\n"@
        } else if ctx.inputs.len() == 0 {
            zero_output_text(ctx)
        } else {
            "vec4 "@ + o + " = "@ + ident_text(input_ident(ctx.id, ctx.inputs[0])) + ";\n"@
        }
    }

    pub fn shader(&self, ctx: &mut Context) -> (r: String)
        requires
            old(ctx)@.outputs >= 1,
        ensures
            r@ == self.shader_spec(old(ctx)@),
            final(ctx)@ == old(ctx)@,
    {
        let i0 = ctx.input(0);
        let i1 = ctx.input(1);
        match (i0, i1) {
            (Some(a), Some(b)) => {
                proof {
                    reveal_strlit("rgb");
                    reveal_strlit("a");
                }
                let mut r = String::new();
                r.append("vec4 ");
                ctx.output(0).write_to(&mut r);
                r.append(" = vec4(");
                let c = self.0.blend(&a, &b, "rgb");
                r.append(c.as_str());
                r.append(",\n");
                let al = self.1.blend(&a, &b, "a");
                r.append(al.as_str());
                r.append(");\n");
                assert(r@ =~= self.shader_spec(ctx@));
                r
            },
            _ => {
                if ctx.input_len() == 0 {
                    zero_output(ctx)
                } else {
                    let mut r = String::new();
                    r.append("vec4 ");
                    ctx.output(0).write_to(&mut r);
                    r.append(" = ");
                    ctx.first_input().write_to(&mut r);
                    r.append(";\n");
                    assert(r@ =~= self.shader_spec(ctx@));
                    r
                }
            },
        }
    }
}

impl Blend {
    pub fn new(color_blend: Type, alpha_blend: Type) -> (r: crate::process::Process)
        ensures
            r == crate::process::Process::Blend(Blend(color_blend, alpha_blend)),
    {
        crate::process::Process::Blend(Blend(color_blend, alpha_blend))
    }
}

} // verus!

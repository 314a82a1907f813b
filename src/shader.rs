//! Code emission: identifiers, the per-node emission context and the
//! assembler that turns fragments into a complete pair of shader sources.
use vstd::prelude::*;
use crate::text::{decimal, push_decimal};

verus! {

/// A compiled program: vertex and fragment stage sources.
#[derive(Clone, Debug, PartialEq, Eq)]
pub struct Source {
    pub vertex: String,
    pub fragment: String,
}

impl Source {
    /// A copy of the two stages.
    pub fn duplicate(&self) -> (r: Source)
        ensures
            r == *self,
    {
        Source { vertex: self.vertex.clone(), fragment: self.fragment.clone() }
    }
}

/// The role an identifier plays inside the code emitted for one node.
#[derive(Clone, Copy, Debug, PartialEq, Eq, Structural)]
pub enum Role {
    Input,
    Temporary,
    Output,
}

/// A name in the generated program, unique thanks to the owning node's id.
#[derive(Clone, Copy, Debug, PartialEq, Eq, Structural)]
pub struct Identifier {
    pub id: usize,
    pub itype: Role,
    pub index: u32,
}

pub open spec fn role_text(r: Role) -> Seq<char> {
    match r {
        Role::Input => "in"@,
        Role::Temporary => "tmp"@,
        Role::Output => "out"@,
    }
}

/// The token an identifier renders to: `<role>_<node id>_<index>`.
pub open spec fn ident_text(i: Identifier) -> Seq<char> {
    role_text(i.itype) + "_"@ + decimal(i.id as nat) + "_"@ + decimal(i.index as nat)
}

impl Identifier {
    /// Appends the rendered token to `s`.
    pub fn write_to(&self, s: &mut String)
        ensures
            final(s)@ == old(s)@ + ident_text(*self),
    {
        match self.itype {
            Role::Input => s.append("in"),
            Role::Temporary => s.append("tmp"),
            Role::Output => s.append("out"),
        }
        s.append("_");
        push_decimal(s, self.id as u64);
        s.append("_");
        push_decimal(s, self.index as u64);
        assert(final(s)@ =~= old(s)@ + ident_text(*self));
    }

    /// The rendered token.
    pub fn to_string(&self) -> (r: String)
        ensures
            r@ == ident_text(*self),
    {
        let mut s = String::new();
        self.write_to(&mut s);
        assert(s@ =~= ident_text(*self));
        s
    }
}


/// The fixed opening of every vertex stage.
pub const VERTEX_HEADER: &'static str = "#version 140\nin vec2 position;\nin vec2 tex_coords;\nuniform mat4 matrix;\nout vec2 v_tex_coords;\nvoid main() {\nv_tex_coords = tex_coords;\n";

/// The fixed opening of every fragment stage, up to the library code.
pub const FRAGMENT_HEADER: &'static str = "#version 140\nin vec2 v_tex_coords;\nout vec4 color;\n";

/// Helper functions that noise processes call: cellular noise and 2D simplex noise.
pub const NOISE_LIBRARY: &'static str = "
// Voronoise, by Inigo Quilez.
vec3 hash3(vec2 p) {
    vec3 q = vec3(dot(p, vec2(127.1, 311.7)),
                  dot(p, vec2(269.5, 183.3)),
                  dot(p, vec2(419.2, 371.9)));
    return fract(sin(q) * 43758.5453);
}

float iqnoise(in vec2 x, float u, float v) {
    vec2 floor = floor(x);
    vec2 fract = fract(x);
    float k = 1. + 63. * pow(1. - v, 4.);
    float va = 0.;
    float wt = 0.;
    for(int x = -2; x <= 2; x++) {
        for(int y = -2; y <= 2; y++) {
            vec2 offset = vec2(float(x), float(y));
            vec3 o = hash3(floor + offset) * vec3(u, u, 1.);
            vec2 r = offset - fract + o.xy;
            float d = dot(r, r);
            float ww = pow(1. - smoothstep(0., 1.414, sqrt(d)), k);
            va += o.z * ww;
            wt += ww;
        }
    }
    return va / wt;
}

// 2D simplex noise by Ian McEwan, Ashima Arts.
// Copyright (C) 2011 Ashima Arts. Distributed under the MIT License.
vec3 mod289(vec3 x) {
    return x - floor(x * (1. / 289.)) * 289.;
}

vec2 mod289(vec2 x) {
    return x - floor(x * (1. / 289.)) * 289.;
}

vec3 permute(vec3 x) {
    return mod289(((x * 34.) + 1.) * x);
}

float snoise(float seed, vec2 v) {
    const vec4 C = vec4(0.211324865405187,
                        0.366025403784439,
                        -0.577350269189626,
                        0.024390243902439);
    vec2 i  = floor(v + dot(v, C.yy));
    vec2 x0 = v - i + dot(i, C.xx);
    vec2 i1;
    i1 = (x0.x > x0.y) ? vec2(1., 0.) : vec2(0., 1.);
    vec4 x12 = x0.xyxy + C.xxzz;
    x12.xy -= i1;
    i = mod289(i);
    vec3 p = permute(permute(i.y + vec3(0., i1.y, 1.)) + i.x + vec3(0., i1.x, 1.));
    p = permute(p + vec3(seed));
    vec3 m = max(0.5 - vec3(dot(x0, x0), dot(x12.xy, x12.xy), dot(x12.zw, x12.zw)), 0.);
    m = m * m;
    m = m * m;
    vec3 x = 2. * fract(p * C.www) - 1.;
    vec3 h = abs(x) - 0.5;
    vec3 ox = floor(x + 0.5);
    vec3 a0 = x - ox;
    m *= 1.79284291400159 - 0.85373472095314 * (a0 * a0 + h * h);
    vec3 g;
    g.x = a0.x * x0.x + h.x * x0.y;
    g.yz = a0.yz * x12.xz + h.yz * x12.yw;
    return 130. * dot(m, g) * 0.5 + 0.5;
}
";

/// Opens the fragment stage's entry point.
pub const MAIN_OPEN: &'static str = "void main() {\n";

/// Closes an entry point.
pub const MAIN_CLOSE: &'static str = "}";

/// The concatenation of all parts, in order.
pub open spec fn concat(parts: Seq<Seq<char>>) -> Seq<char>
    decreases parts.len(),
{
    if parts.len() == 0 {
        Seq::empty()
    } else {
        concat(parts.drop_last()) + parts.last()
    }
}

/// The views of a sequence of strings.
pub open spec fn views(v: Seq<String>) -> Seq<Seq<char>> {
    v.map_values(|s: String| s@)
}

/// The complete vertex stage for the given body fragments.
pub open spec fn vertex_source(parts: Seq<Seq<char>>) -> Seq<char> {
    VERTEX_HEADER@ + concat(parts) + MAIN_CLOSE@
}

/// The complete fragment stage for the given body fragments.
pub open spec fn fragment_source(parts: Seq<Seq<char>>) -> Seq<char> {
    FRAGMENT_HEADER@ + NOISE_LIBRARY@ + MAIN_OPEN@ + concat(parts) + MAIN_CLOSE@
}

/// Accumulates vertex and fragment fragments in emission order.
pub struct Shader {
    vertex_snippets: Vec<String>,
    fragment_snippets: Vec<String>,
}

impl Shader {
    /// The vertex fragments added so far.
    pub closed spec fn vertex_parts(&self) -> Seq<Seq<char>> {
        views(self.vertex_snippets@)
    }

    /// The fragment-stage fragments added so far.
    pub closed spec fn fragment_parts(&self) -> Seq<Seq<char>> {
        views(self.fragment_snippets@)
    }

    pub fn new() -> (r: Shader)
        ensures
            r.vertex_parts() == Seq::<Seq<char>>::empty(),
            r.fragment_parts() == Seq::<Seq<char>>::empty(),
    {
        let r = Shader { vertex_snippets: Vec::new(), fragment_snippets: Vec::new() };
        assert(r.vertex_parts() =~= Seq::<Seq<char>>::empty());
        assert(r.fragment_parts() =~= Seq::<Seq<char>>::empty());
        r
    }

    pub fn add_vertex(&mut self, snippet: String)
        ensures
            final(self).vertex_parts() == old(self).vertex_parts().push(snippet@),
            final(self).fragment_parts() == old(self).fragment_parts(),
    {
        self.vertex_snippets.push(snippet);
        assert(self.vertex_parts() =~= old(self).vertex_parts().push(snippet@));
    }

    pub fn add_fragment(&mut self, snippet: String)
        ensures
            final(self).fragment_parts() == old(self).fragment_parts().push(snippet@),
            final(self).vertex_parts() == old(self).vertex_parts(),
    {
        self.fragment_snippets.push(snippet);
        assert(self.fragment_parts() =~= old(self).fragment_parts().push(snippet@));
    }

    /// Renders the two complete stages.
    pub fn build(self) -> (r: Source)
        ensures
            r.vertex@ == vertex_source(self.vertex_parts()),
            r.fragment@ == fragment_source(self.fragment_parts()),
    {
        let mut vertex = String::new();
        vertex.append(VERTEX_HEADER);
        append_all(&mut vertex, &self.vertex_snippets);
        vertex.append(MAIN_CLOSE);
        let mut fragment = String::new();
        fragment.append(FRAGMENT_HEADER);
        fragment.append(NOISE_LIBRARY);
        fragment.append(MAIN_OPEN);
        append_all(&mut fragment, &self.fragment_snippets);
        fragment.append(MAIN_CLOSE);
        assert(vertex@ =~= vertex_source(self.vertex_parts()));
        assert(fragment@ =~= fragment_source(self.fragment_parts()));
        Source { vertex, fragment }
    }
}

/// Appends every part, in order.
fn append_all(out: &mut String, parts: &Vec<String>)
    ensures
        final(out)@ == old(out)@ + concat(views(parts@)),
{
    let ghost start = out@;
    let mut i: usize = 0;
    while i < parts.len()
        invariant
            i <= parts.len(),
            out@ == start + concat(views(parts@.take(i as int))),
        decreases parts.len() - i,
    {
        out.append(parts[i].as_str());
        proof {
            let ps = views(parts@.take(i as int + 1));
            assert(ps.drop_last() =~= views(parts@.take(i as int)));
            assert(ps.last() == parts@[i as int]@);
        }
        i += 1;
    }
    assert(parts@.take(i as int) =~= parts@);
}

/// What a context knows: the node's id, its connected input ports (each
/// once), its declared output count and how many temporaries it handed out.
pub ghost struct ContextModel {
    pub id: usize,
    pub inputs: Seq<u32>,
    pub outputs: u32,
    pub temps: u32,
}

/// The elements of `s` in order, each at its first occurrence only.
pub open spec fn dedup(s: Seq<u32>) -> Seq<u32>
    decreases s.len(),
{
    if s.len() == 0 {
        Seq::empty()
    } else {
        let d = dedup(s.drop_last());
        if d.contains(s.last()) {
            d
        } else {
            d.push(s.last())
        }
    }
}

/// Per-node namespace allocator for one compilation.
pub struct Context {
    id: usize,
    inputs: Vec<u32>,
    outputs: u32,
    temps: u32,
}

pub open spec fn input_ident(id: usize, port: u32) -> Identifier {
    Identifier { id, itype: Role::Input, index: port }
}

pub open spec fn output_ident(id: usize, port: u32) -> Identifier {
    Identifier { id, itype: Role::Output, index: port }
}

impl View for Context {
    type V = ContextModel;

    closed spec fn view(&self) -> ContextModel {
        ContextModel { id: self.id, inputs: self.inputs@, outputs: self.outputs, temps: self.temps }
    }
}

/// The connected inputs of a context, as (port, identifier) pairs.
pub struct Inputs {
    items: Vec<(u32, Identifier)>,
    pos: usize,
}

impl Inputs {
    pub closed spec fn remaining(&self) -> Seq<(u32, Identifier)> {
        if self.pos <= self.items.len() {
            self.items@.skip(self.pos as int)
        } else {
            Seq::empty()
        }
    }

    /// The next pair, if any is left.
    pub fn next(&mut self) -> (r: Option<(u32, Identifier)>)
        ensures
            old(self).remaining().len() == 0 ==> r is None && final(self).remaining() == old(
                self,
            ).remaining(),
            old(self).remaining().len() > 0 ==> r == Some(old(self).remaining()[0])
                && final(self).remaining() == old(self).remaining().skip(1),
    {
        if self.pos < self.items.len() {
            let r = self.items[self.pos];
            self.pos = self.pos + 1;
            assert(r == old(self).remaining()[0]);
            assert(self.remaining() =~= old(self).remaining().skip(1));
            Some(r)
        } else {
            None
        }
    }
}

impl Context {
    /// A context for node `id` whose connected input ports are those listed
    /// in `inputs` (repeats are ignored) and that declares `outputs` outputs.
    pub fn new(id: usize, inputs: Vec<u32>, outputs: u32) -> (r: Context)
        ensures
            r@.id == id,
            r@.inputs == dedup(inputs@),
            r@.inputs.to_set() == inputs@.to_set(),
            r@.inputs.no_duplicates(),
            r@.outputs == outputs,
            r@.temps == 0,
    {
        let mut unique: Vec<u32> = Vec::new();
        let mut i: usize = 0;
        while i < inputs.len()
            invariant
                i <= inputs.len(),
                unique@.no_duplicates(),
                unique@.to_set() == inputs@.take(i as int).to_set(),
                unique@ == dedup(inputs@.take(i as int)),
            decreases inputs.len() - i,
        {
            let p = inputs[i];
            let mut found = false;
            let mut j: usize = 0;
            while j < unique.len()
                invariant
                    j <= unique.len(),
                    found <==> exists|k: int| 0 <= k < j && unique@[k] == p,
                decreases unique.len() - j,
            {
                if unique[j] == p {
                    found = true;
                }
                j += 1;
            }
            proof {
                assert(inputs@.take(i as int + 1) =~= inputs@.take(i as int).push(p));
                assert(inputs@.take(i as int + 1).drop_last() =~= inputs@.take(i as int));
                assert(found == unique@.contains(p));
                inputs@.take(i as int).lemma_push_to_set_commute(p);
                unique@.lemma_push_to_set_commute(p);
            }
            if !found {
                unique.push(p);
                assert(unique@.to_set() =~= inputs@.take(i as int + 1).to_set());
            } else {
                assert(unique@.contains(p));
                assert(unique@.to_set() =~= inputs@.take(i as int + 1).to_set());
            }
            i += 1;
        }
        assert(inputs@.take(i as int) =~= inputs@);
        assert(inputs@.take(0) =~= Seq::<u32>::empty());
        Context { id, inputs: unique, outputs, temps: 0 }
    }

    /// The identifier of input port `index`, if that port is connected.
    pub fn input(&self, index: u32) -> (r: Option<Identifier>)
        ensures
            r == (if self@.inputs.contains(index) {
                Some(input_ident(self@.id, index))
            } else {
                None
            }),
    {
        let mut j: usize = 0;
        while j < self.inputs.len()
            invariant
                j <= self.inputs.len(),
                forall|k: int| 0 <= k < j ==> self.inputs@[k] != index,
            decreases self.inputs.len() - j,
        {
            if self.inputs[j] == index {
                return Some(Identifier { id: self.id, itype: Role::Input, index });
            }
            j += 1;
        }
        None
    }

    /// The identifier of the first connected input.
    pub fn first_input(&self) -> (r: Identifier)
        requires
            self@.inputs.len() > 0,
        ensures
            r == input_ident(self@.id, self@.inputs[0]),
    {
        Identifier { id: self.id, itype: Role::Input, index: self.inputs[0] }
    }

    /// Every connected input, as (port, identifier) pairs.
    pub fn inputs(&self) -> (r: Inputs)
        ensures
            r.remaining().len() == self@.inputs.len(),
            forall|k: int|
                0 <= k < self@.inputs.len() ==> #[trigger] r.remaining()[k] == (
                    self@.inputs[k],
                    input_ident(self@.id, self@.inputs[k]),
                ),
    {
        let mut items: Vec<(u32, Identifier)> = Vec::new();
        let mut j: usize = 0;
        while j < self.inputs.len()
            invariant
                j <= self.inputs.len(),
                items@.len() == j,
                forall|k: int|
                    0 <= k < j ==> #[trigger] items@[k] == (
                        self.inputs@[k],
                        input_ident(self.id, self.inputs@[k]),
                    ),
            decreases self.inputs.len() - j,
        {
            let p = self.inputs[j];
            items.push((p, Identifier { id: self.id, itype: Role::Input, index: p }));
            j += 1;
        }
        let r = Inputs { items, pos: 0 };
        assert(r.remaining() =~= r.items@);
        r
    }

    /// How many input ports are connected.
    pub fn input_len(&self) -> (r: usize)
        ensures
            r == self@.inputs.len(),
    {
        self.inputs.len()
    }

    /// The identifier of output `index`; the index must be below the declared count.
    pub fn output(&self, index: u32) -> (r: Identifier)
        requires
            index < self@.outputs,
        ensures
            r == output_ident(self@.id, index),
    {
        Identifier { id: self.id, itype: Role::Output, index }
    }

    /// A fresh temporary; each call hands out the next index.
    pub fn temporary(&mut self) -> (r: Identifier)
        requires
            old(self)@.temps < u32::MAX,
        ensures
            r == (Identifier { id: old(self)@.id, itype: Role::Temporary, index: old(self)@.temps }),
            final(self)@.temps == old(self)@.temps + 1,
            final(self)@.id == old(self)@.id,
            final(self)@.inputs == old(self)@.inputs,
            final(self)@.outputs == old(self)@.outputs,
    {
        let r = Identifier { id: self.id, itype: Role::Temporary, index: self.temps };
        self.temps = self.temps + 1;
        r
    }
}

} // verus!

//! The catalog of processes: arity, named settings and shader emission.
use vstd::prelude::*;
use crate::shader::{Context, ContextModel};
use crate::text::{decimal, push_decimal, str_eq};
use crate::value::{
    Color, Number, ParseError, bool_text, color_text, number_text, parse_bool, parse_bool_spec,
    decode_color, encode_color, parse_color_spec, parse_number, parse_number_spec, parse_u32, parse_u32_spec,
    lemma_bool_round_trip, lemma_color_round_trip, lemma_number_round_trip, lemma_u32_round_trip,
};

pub mod combiners;
pub mod inputs;
pub mod modifiers;

pub use self::combiners::Blend;
pub use self::combiners::Type as BlendType;
pub use self::inputs::{Constant, Noise, Stripes, VoronoiNoise};
pub use self::modifiers::{EdgeDetect, Invert, Select};
pub use self::modifiers::Type as EdgeDetectType;

verus! {

/// The current value of one setting, by type.
#[derive(Clone, Copy, Debug, PartialEq, Eq, Structural)]
pub enum Setting {
    Integer(u32),
    Boolean(bool),
    Float(Number),
    Color(Color),
    Blend(BlendType),
}

pub open spec fn blend_name(t: BlendType) -> Seq<char> {
    match t {
        BlendType::Normal => "Normal"@,
        BlendType::Multiply => "Multiply"@,
        BlendType::Divide => "Divide"@,
        BlendType::Add => "Add"@,
        BlendType::Substract => "Substract"@,
        BlendType::Difference => "Difference"@,
        BlendType::Darken => "Darken"@,
        BlendType::Lighten => "Lighten"@,
        BlendType::Screen => "Screen"@,
        BlendType::Overlay => "Overlay"@,
        BlendType::Hard => "Hard"@,
        BlendType::Soft => "Soft"@,
    }
}

/// No two blend modes share a name.
pub proof fn lemma_blend_names_distinct()
    ensures
        forall|a: BlendType, b: BlendType| #[trigger] blend_name(a) == #[trigger] blend_name(b) ==> a == b,
{
    reveal_strlit("Normal");
    reveal_strlit("Multiply");
    reveal_strlit("Divide");
    reveal_strlit("Add");
    reveal_strlit("Substract");
    reveal_strlit("Difference");
    reveal_strlit("Darken");
    reveal_strlit("Lighten");
    reveal_strlit("Screen");
    reveal_strlit("Overlay");
    reveal_strlit("Hard");
    reveal_strlit("Soft");
    assert forall|a: BlendType, b: BlendType| #[trigger] blend_name(a) == #[trigger] blend_name(b) implies a == b by {
        if a != b {
            let x = blend_name(a);
            let y = blend_name(b);
            if x.len() == y.len() {
                assert(x[0] != y[0] || x[1] != y[1] || x[2] != y[2]);
            }
        }
    }
}

/// The blend mode of the given name, if there is one.
pub open spec fn parse_blend_spec(s: Seq<char>) -> Option<BlendType> {
    if exists|t: BlendType| blend_name(t) == s {
        Some(choose|t: BlendType| blend_name(t) == s)
    } else {
        None
    }
}

impl BlendType {
    /// Every blend mode.
    pub fn variants() -> (r: Vec<BlendType>)
        ensures
            forall|t: BlendType| #[trigger] r@.contains(t),
    {
        let r = vec![
            BlendType::Normal,
            BlendType::Multiply,
            BlendType::Divide,
            BlendType::Add,
            BlendType::Substract,
            BlendType::Difference,
            BlendType::Darken,
            BlendType::Lighten,
            BlendType::Screen,
            BlendType::Overlay,
            BlendType::Hard,
            BlendType::Soft,
        ];
        assert forall|t: BlendType| #[trigger] r@.contains(t) by {
            match t {
                BlendType::Normal => assert(r@[0] == t),
                BlendType::Multiply => assert(r@[1] == t),
                BlendType::Divide => assert(r@[2] == t),
                BlendType::Add => assert(r@[3] == t),
                BlendType::Substract => assert(r@[4] == t),
                BlendType::Difference => assert(r@[5] == t),
                BlendType::Darken => assert(r@[6] == t),
                BlendType::Lighten => assert(r@[7] == t),
                BlendType::Screen => assert(r@[8] == t),
                BlendType::Overlay => assert(r@[9] == t),
                BlendType::Hard => assert(r@[10] == t),
                BlendType::Soft => assert(r@[11] == t),
            }
        }
        r
    }

    /// The mode's name.
    pub fn name(&self) -> (r: &'static str)
        ensures
            r@ == blend_name(*self),
    {
        match self {
            BlendType::Normal => "Normal",
            BlendType::Multiply => "Multiply",
            BlendType::Divide => "Divide",
            BlendType::Add => "Add",
            BlendType::Substract => "Substract",
            BlendType::Difference => "Difference",
            BlendType::Darken => "Darken",
            BlendType::Lighten => "Lighten",
            BlendType::Screen => "Screen",
            BlendType::Overlay => "Overlay",
            BlendType::Hard => "Hard",
            BlendType::Soft => "Soft",
        }
    }

    /// The mode of the given name.
    pub fn from_name(s: &str) -> (r: Option<BlendType>)
        ensures
            r == parse_blend_spec(s@),
    {
        proof {
            lemma_blend_names_distinct();
        }
        let all = BlendType::variants();
        let mut i: usize = 0;
        while i < all.len()
            invariant
                i <= all@.len(),
                forall|t: BlendType| #[trigger] all@.contains(t),
                forall|k: int| 0 <= k < i ==> blend_name(#[trigger] all@[k]) != s@,
            decreases all.len() - i,
        {
            if str_eq(s, all[i].name()) {
                proof {
                    lemma_blend_names_distinct();
                    assert(blend_name(all@[i as int]) == s@);
                    let c = choose|t: BlendType| blend_name(t) == s@;
                    assert(blend_name(c) == blend_name(all@[i as int]));
                }
                return Some(all[i]);
            }
            i += 1;
        }
        assert forall|t: BlendType| blend_name(t) != s@ by {
            assert(all@.contains(t));
            let k = choose|k: int| 0 <= k < all@.len() && all@[k] == t;
            assert(blend_name(all@[k]) != s@);
        }
        None
    }
}

/// The text a setting is written as.
pub open spec fn setting_text(v: Setting) -> Seq<char> {
    match v {
        Setting::Integer(n) => decimal(n as nat),
        Setting::Boolean(b) => bool_text(b),
        Setting::Float(n) => number_text(n),
        Setting::Color(c) => color_text(c),
        Setting::Blend(t) => blend_name(t),
    }
}

impl Setting {
    pub open spec fn wf(&self) -> bool {
        match self {
            Setting::Float(n) => n.wf(),
            Setting::Color(c) => c.wf(),
            _ => true,
        }
    }

    /// Whether two values are of the same type.
    pub open spec fn same_kind(&self, o: Setting) -> bool {
        match (*self, o) {
            (Setting::Integer(_), Setting::Integer(_)) => true,
            (Setting::Boolean(_), Setting::Boolean(_)) => true,
            (Setting::Float(_), Setting::Float(_)) => true,
            (Setting::Color(_), Setting::Color(_)) => true,
            (Setting::Blend(_), Setting::Blend(_)) => true,
            _ => false,
        }
    }

    /// The text this setting is written as.
    pub fn to_string(&self) -> (r: String)
        ensures
            r@ == setting_text(*self),
    {
        match self {
            Setting::Integer(n) => {
                let mut r = String::new();
                push_decimal(&mut r, *n as u64);
                assert(r@ =~= decimal(*n as nat));
                r
            },
            Setting::Boolean(b) => {
                if *b {
                    String::from_str("1")
                } else {
                    String::from_str("0")
                }
            },
            Setting::Float(n) => n.to_string(),
            Setting::Color(c) => encode_color(c),
            Setting::Blend(t) => String::from_str(t.name()),
        }
    }
}

/// Reads `text` as a value of the same type as `like`.
pub open spec fn parse_like_spec(like: Setting, text: Seq<char>) -> Result<Setting, ParseError> {
    match like {
        Setting::Integer(_) => match parse_u32_spec(text) {
            Some(n) => Ok(Setting::Integer(n)),
            None => Err(ParseError::MalformedNumber),
        },
        Setting::Boolean(_) => match parse_bool_spec(text) {
            Some(b) => Ok(Setting::Boolean(b)),
            None => Err(ParseError::MalformedNumber),
        },
        Setting::Float(_) => match parse_number_spec(text) {
            Some(n) => Ok(Setting::Float(n)),
            None => Err(ParseError::MalformedNumber),
        },
        Setting::Color(_) => match parse_color_spec(text) {
            Ok(c) => Ok(Setting::Color(c)),
            Err(e) => Err(e),
        },
        Setting::Blend(_) => match parse_blend_spec(text) {
            Some(t) => Ok(Setting::Blend(t)),
            None => Err(ParseError::MalformedNumber),
        },
    }
}

/// Reads `text` as a value of the same type as `like`.
pub fn parse_like(like: &Setting, text: &str) -> (r: Result<Setting, ParseError>)
    ensures
        r == parse_like_spec(*like, text@),
        r matches Ok(v) ==> v.wf() && v.same_kind(*like),
{
    match like {
        Setting::Integer(_) => match parse_u32(text) {
            Some(n) => Ok(Setting::Integer(n)),
            None => Err(ParseError::MalformedNumber),
        },
        Setting::Boolean(_) => match parse_bool(text) {
            Some(b) => Ok(Setting::Boolean(b)),
            None => Err(ParseError::MalformedNumber),
        },
        Setting::Float(_) => match parse_number(text) {
            Some(n) => Ok(Setting::Float(n)),
            None => Err(ParseError::MalformedNumber),
        },
        Setting::Color(_) => match decode_color(text) {
            Ok(c) => Ok(Setting::Color(c)),
            Err(e) => Err(e),
        },
        Setting::Blend(_) => match BlendType::from_name(text) {
            Some(t) => Ok(Setting::Blend(t)),
            None => Err(ParseError::MalformedNumber),
        },
    }
}

/// Reading back a setting's text as a value of its own type gives that value.
pub proof fn lemma_parse_like_round_trip(like: Setting, v: Setting)
    requires
        v.wf(),
        v.same_kind(like),
    ensures
        parse_like_spec(like, setting_text(v)) == Ok::<Setting, ParseError>(v),
{
    match v {
        Setting::Integer(n) => lemma_u32_round_trip(n),
        Setting::Boolean(b) => lemma_bool_round_trip(b),
        Setting::Float(n) => lemma_number_round_trip(n),
        Setting::Color(c) => lemma_color_round_trip(c),
        Setting::Blend(t) => {
            lemma_blend_names_distinct();
            assert(blend_name(t) == blend_name(t));
        },
    }
}

/// A process of the catalog.
#[derive(Clone, Copy, Debug, PartialEq, Eq, Structural)]
pub enum Process {
    Constant(Constant),
    Stripes(Stripes),
    VoronoiNoise(VoronoiNoise),
    Noise(Noise),
    Blend(Blend),
    EdgeDetect(EdgeDetect),
    Select(Select),
    Invert(Invert),
}

impl Process {
    /// Every number and color the process holds is well formed.
    pub open spec fn wf(&self) -> bool {
        match *self {
            Process::Constant(p) => p.color.wf(),
            Process::Stripes(p) => p.even_col.wf() && p.odd_col.wf(),
            Process::VoronoiNoise(p) => p.grid.wf() && p.control.wf(),
            Process::EdgeDetect(p) => p.threshold.wf(),
            Process::Select(p) => p.threshold.wf(),
            _ => true,
        }
    }

    pub open spec fn max_in_spec(&self) -> u32 {
        match *self {
            Process::Blend(_) => 2,
            Process::EdgeDetect(_) => 1,
            Process::Select(_) => 3,
            Process::Invert(_) => 1,
            _ => 0,
        }
    }

    pub open spec fn max_out_spec(&self) -> u32 {
        1
    }

    /// The most input ports the process reads.
    pub fn max_in(&self) -> (r: u32)
        ensures
            r == self.max_in_spec(),
    {
        match self {
            Process::Blend(_) => 2,
            Process::EdgeDetect(_) => 1,
            Process::Select(_) => 3,
            Process::Invert(_) => 1,
            _ => 0,
        }
    }

    /// How many outputs the process declares.
    pub fn max_out(&self) -> (r: u32)
        ensures
            r == self.max_out_spec(),
    {
        1
    }

    /// The names of the process's settings, in display order.
    pub open spec fn names_spec(&self) -> Seq<Seq<char>> {
        match *self {
            Process::Constant(_) => seq!["color"@],
            Process::Stripes(_) => seq!["horizontal"@, "vertical"@, "even color"@, "odd color"@],
            Process::VoronoiNoise(_) => seq!["seed"@, "horizontal"@, "vertical"@, "grid"@, "control"@],
            Process::Noise(_) => seq!["seed"@, "horizontal"@, "vertical"@],
            Process::Blend(_) => seq!["blend"@, "alpha"@],
            Process::EdgeDetect(_) => seq!["threshold"@],
            Process::Select(_) => seq!["threshold"@],
            Process::Invert(_) => seq!["alpha"@],
        }
    }

    /// The names of the process's settings, in display order.
    pub fn settings(&self) -> (r: Vec<&'static str>)
        ensures
            r@.len() == self.names_spec().len(),
            forall|i: int| 0 <= i < r@.len() ==> #[trigger] r@[i]@ == self.names_spec()[i],
    {
        match self {
            Process::Constant(_) => vec!["color"],
            Process::Stripes(_) => vec!["horizontal", "vertical", "even color", "odd color"],
            Process::VoronoiNoise(_) => vec!["seed", "horizontal", "vertical", "grid", "control"],
            Process::Noise(_) => vec!["seed", "horizontal", "vertical"],
            Process::Blend(_) => vec!["blend", "alpha"],
            Process::EdgeDetect(_) => vec!["threshold"],
            Process::Select(_) => vec!["threshold"],
            Process::Invert(_) => vec!["alpha"],
        }
    }

    /// The current value of the setting named `key`, if the process has one.
    pub open spec fn setting_spec(&self, key: Seq<char>) -> Option<Setting> {
        match *self {
            Process::Constant(p) => if key == "color"@ { Some(Setting::Color(p.color)) } else { None },
            Process::Stripes(p) => if key == "horizontal"@ {
                Some(Setting::Integer(p.hor))
            } else if key == "vertical"@ {
                Some(Setting::Integer(p.ver))
            } else if key == "even color"@ {
                Some(Setting::Color(p.even_col))
            } else if key == "odd color"@ {
                Some(Setting::Color(p.odd_col))
            } else {
                None
            },
            Process::VoronoiNoise(p) => if key == "horizontal"@ {
                Some(Setting::Integer(p.hor))
            } else if key == "vertical"@ {
                Some(Setting::Integer(p.ver))
            } else if key == "seed"@ {
                Some(Setting::Integer(p.seed))
            } else if key == "grid"@ {
                Some(Setting::Float(p.grid))
            } else if key == "control"@ {
                Some(Setting::Float(p.control))
            } else {
                None
            },
            Process::Noise(p) => if key == "horizontal"@ {
                Some(Setting::Integer(p.hor))
            } else if key == "vertical"@ {
                Some(Setting::Integer(p.ver))
            } else if key == "seed"@ {
                Some(Setting::Integer(p.seed))
            } else {
                None
            },
            Process::Blend(p) => if key == "blend"@ {
                Some(Setting::Blend(p.0))
            } else if key == "alpha"@ {
                Some(Setting::Blend(p.1))
            } else {
                None
            },
            Process::EdgeDetect(p) => if key == "threshold"@ {
                Some(Setting::Float(p.threshold))
            } else {
                None
            },
            Process::Select(p) => if key == "threshold"@ {
                Some(Setting::Float(p.threshold))
            } else {
                None
            },
            Process::Invert(p) => if key == "alpha"@ {
                Some(Setting::Boolean(p.alpha))
            } else {
                None
            },
        }
    }

    /// The process with the setting named `key` replaced by `v`, which must
    /// be of that setting's type.
    pub open spec fn with_setting(&self, key: Seq<char>, v: Setting) -> Process {
        match (*self, v) {
            (Process::Constant(p), Setting::Color(c)) => Process::Constant(Constant { color: c }),
            (Process::Stripes(p), Setting::Integer(n)) => if key == "horizontal"@ {
                Process::Stripes(Stripes { hor: n, ..p })
            } else {
                Process::Stripes(Stripes { ver: n, ..p })
            },
            (Process::Stripes(p), Setting::Color(c)) => if key == "even color"@ {
                Process::Stripes(Stripes { even_col: c, ..p })
            } else {
                Process::Stripes(Stripes { odd_col: c, ..p })
            },
            (Process::VoronoiNoise(p), Setting::Integer(n)) => if key == "horizontal"@ {
                Process::VoronoiNoise(VoronoiNoise { hor: n, ..p })
            } else if key == "vertical"@ {
                Process::VoronoiNoise(VoronoiNoise { ver: n, ..p })
            } else {
                Process::VoronoiNoise(VoronoiNoise { seed: n, ..p })
            },
            (Process::VoronoiNoise(p), Setting::Float(x)) => if key == "grid"@ {
                Process::VoronoiNoise(VoronoiNoise { grid: x, ..p })
            } else {
                Process::VoronoiNoise(VoronoiNoise { control: x, ..p })
            },
            (Process::Noise(p), Setting::Integer(n)) => if key == "horizontal"@ {
                Process::Noise(Noise { hor: n, ..p })
            } else if key == "vertical"@ {
                Process::Noise(Noise { ver: n, ..p })
            } else {
                Process::Noise(Noise { seed: n, ..p })
            },
            (Process::Blend(p), Setting::Blend(t)) => if key == "blend"@ {
                Process::Blend(Blend(t, p.1))
            } else {
                Process::Blend(Blend(p.0, t))
            },
            (Process::EdgeDetect(p), Setting::Float(x)) => Process::EdgeDetect(
                EdgeDetect { threshold: x, ..p },
            ),
            (Process::Select(p), Setting::Float(x)) => Process::Select(Select { threshold: x }),
            (Process::Invert(p), Setting::Boolean(b)) => Process::Invert(Invert { alpha: b }),
            _ => *self,
        }
    }

    /// Setting `key` from `text`: an unknown name or a text that does not
    /// read as a value of the setting's type is refused.
    pub open spec fn set_spec(&self, key: Seq<char>, text: Seq<char>) -> Result<Process, ParseError> {
        match self.setting_spec(key) {
            None => Err(ParseError::UnknownSetting),
            Some(cur) => match parse_like_spec(cur, text) {
                Ok(v) => Ok(self.with_setting(key, v)),
                Err(e) => Err(e),
            },
        }
    }

    /// The current value of the setting named `key`.
    pub fn setting(&self, key: &str) -> (r: Option<Setting>)
        ensures
            r == self.setting_spec(key@),
    {
        match self {
            Process::Constant(p) => if str_eq(key, "color") { Some(Setting::Color(p.color)) } else { None },
            Process::Stripes(p) => if str_eq(key, "horizontal") {
                Some(Setting::Integer(p.hor))
            } else if str_eq(key, "vertical") {
                Some(Setting::Integer(p.ver))
            } else if str_eq(key, "even color") {
                Some(Setting::Color(p.even_col))
            } else if str_eq(key, "odd color") {
                Some(Setting::Color(p.odd_col))
            } else {
                None
            },
            Process::VoronoiNoise(p) => if str_eq(key, "horizontal") {
                Some(Setting::Integer(p.hor))
            } else if str_eq(key, "vertical") {
                Some(Setting::Integer(p.ver))
            } else if str_eq(key, "seed") {
                Some(Setting::Integer(p.seed))
            } else if str_eq(key, "grid") {
                Some(Setting::Float(p.grid))
            } else if str_eq(key, "control") {
                Some(Setting::Float(p.control))
            } else {
                None
            },
            Process::Noise(p) => if str_eq(key, "horizontal") {
                Some(Setting::Integer(p.hor))
            } else if str_eq(key, "vertical") {
                Some(Setting::Integer(p.ver))
            } else if str_eq(key, "seed") {
                Some(Setting::Integer(p.seed))
            } else {
                None
            },
            Process::Blend(p) => if str_eq(key, "blend") {
                Some(Setting::Blend(p.0))
            } else if str_eq(key, "alpha") {
                Some(Setting::Blend(p.1))
            } else {
                None
            },
            Process::EdgeDetect(p) => if str_eq(key, "threshold") {
                Some(Setting::Float(p.threshold))
            } else {
                None
            },
            Process::Select(p) => if str_eq(key, "threshold") {
                Some(Setting::Float(p.threshold))
            } else {
                None
            },
            Process::Invert(p) => if str_eq(key, "alpha") {
                Some(Setting::Boolean(p.alpha))
            } else {
                None
            },
        }
    }

    fn put(&mut self, key: &str, v: Setting)
        ensures
            *final(self) == old(self).with_setting(key@, v),
    {
        let cur = *self;
        *self = match (cur, v) {
            (Process::Constant(p), Setting::Color(c)) => Process::Constant(Constant { color: c }),
            (Process::Stripes(p), Setting::Integer(n)) => if str_eq(key, "horizontal") {
                Process::Stripes(Stripes { hor: n, ..p })
            } else {
                Process::Stripes(Stripes { ver: n, ..p })
            },
            (Process::Stripes(p), Setting::Color(c)) => if str_eq(key, "even color") {
                Process::Stripes(Stripes { even_col: c, ..p })
            } else {
                Process::Stripes(Stripes { odd_col: c, ..p })
            },
            (Process::VoronoiNoise(p), Setting::Integer(n)) => if str_eq(key, "horizontal") {
                Process::VoronoiNoise(VoronoiNoise { hor: n, ..p })
            } else if str_eq(key, "vertical") {
                Process::VoronoiNoise(VoronoiNoise { ver: n, ..p })
            } else {
                Process::VoronoiNoise(VoronoiNoise { seed: n, ..p })
            },
            (Process::VoronoiNoise(p), Setting::Float(x)) => if str_eq(key, "grid") {
                Process::VoronoiNoise(VoronoiNoise { grid: x, ..p })
            } else {
                Process::VoronoiNoise(VoronoiNoise { control: x, ..p })
            },
            (Process::Noise(p), Setting::Integer(n)) => if str_eq(key, "horizontal") {
                Process::Noise(Noise { hor: n, ..p })
            } else if str_eq(key, "vertical") {
                Process::Noise(Noise { ver: n, ..p })
            } else {
                Process::Noise(Noise { seed: n, ..p })
            },
            (Process::Blend(p), Setting::Blend(t)) => if str_eq(key, "blend") {
                Process::Blend(Blend(t, p.1))
            } else {
                Process::Blend(Blend(p.0, t))
            },
            (Process::EdgeDetect(p), Setting::Float(x)) => Process::EdgeDetect(
                EdgeDetect { threshold: x, ..p },
            ),
            (Process::Select(p), Setting::Float(x)) => Process::Select(Select { threshold: x }),
            (Process::Invert(p), Setting::Boolean(b)) => Process::Invert(Invert { alpha: b }),
            _ => cur,
        };
    }

    /// Sets the setting named `key` from its text; on an error the process
    /// is left as it was.
    pub fn set_setting(&mut self, key: &str, text: &str) -> (r: Result<(), ParseError>)
        ensures
            match old(self).set_spec(key@, text@) {
                Ok(p) => r is Ok && *final(self) == p,
                Err(e) => r == Err::<(), ParseError>(e) && *final(self) == *old(self),
            },
            old(self).wf() ==> final(self).wf(),
    {
        match self.setting(key) {
            None => Err(ParseError::UnknownSetting),
            Some(cur) => match parse_like(&cur, text) {
                Ok(v) => {
                    self.put(key, v);
                    proof {
                        lemma_with_setting_wf(*old(self), key@, v);
                    }
                    Ok(())
                },
                Err(e) => Err(e),
            },
        }
    }

    pub open spec fn shader_spec(&self, ctx: ContextModel) -> Seq<char> {
        match *self {
            Process::Constant(p) => p.shader_spec(ctx),
            Process::Stripes(p) => p.shader_spec(ctx),
            Process::VoronoiNoise(p) => p.shader_spec(ctx),
            Process::Noise(p) => p.shader_spec(ctx),
            Process::Blend(p) => p.shader_spec(ctx),
            Process::EdgeDetect(p) => p.shader_spec(ctx),
            Process::Select(p) => p.shader_spec(ctx),
            Process::Invert(p) => p.shader_spec(ctx),
        }
    }

    /// The process's code for the node that `ctx` describes.
    pub fn shader(&self, ctx: &mut Context) -> (r: String)
        requires
            old(ctx)@.outputs >= 1,
            old(ctx)@.temps < u32::MAX,
        ensures
            r@ == self.shader_spec(old(ctx)@),
    {
        match self {
            Process::Constant(p) => p.shader(ctx),
            Process::Stripes(p) => p.shader(ctx),
            Process::VoronoiNoise(p) => p.shader(ctx),
            Process::Noise(p) => p.shader(ctx),
            Process::Blend(p) => p.shader(ctx),
            Process::EdgeDetect(p) => p.shader(ctx),
            Process::Select(p) => p.shader(ctx),
            Process::Invert(p) => p.shader(ctx),
        }
    }
}

proof fn lemma_with_setting_wf(p: Process, key: Seq<char>, v: Setting)
    requires
        v.wf(),
    ensures
        p.wf() ==> p.with_setting(key, v).wf(),
{
}

/// Writing a value of a setting's own type as text and setting it from that
/// text, then reading the setting, gives the value back.
pub proof fn lemma_setting_round_trip(p: Process, key: Seq<char>, v: Setting)
    requires
        p.wf(),
        v.wf(),
        p.setting_spec(key) matches Some(cur) && v.same_kind(cur),
    ensures
        p.set_spec(key, setting_text(v)) matches Ok(q) && q.setting_spec(key) == Some(v),
{
    let cur = p.setting_spec(key).unwrap();
    lemma_parse_like_round_trip(cur, v);
    reveal_strlit("horizontal");
    reveal_strlit("vertical");
    reveal_strlit("seed");
    reveal_strlit("grid");
    reveal_strlit("control");
    reveal_strlit("even color");
    reveal_strlit("odd color");
    reveal_strlit("blend");
    reveal_strlit("alpha");
}

} // verus!

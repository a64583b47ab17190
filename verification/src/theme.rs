//! Colour palettes with named accessors for the layers in common use.
pub mod layer;

use vstd::prelude::*;

verus! {

broadcast use vstd::string::group_string_axioms;

/// The colour returned for a layer that the palette does not cover.
pub open spec fn white() -> Seq<char> {
    seq!['#', 'f', 'f', 'f', 'f', 'f', 'f']
}

/// The dark palette: black background, cyan wires, light text.
pub open spec fn dark_palette() -> Seq<Seq<char>> {
    seq![
        "#000000"@, "#00ccee"@, "#3f3f3f"@, "#cccccc"@, "#88dd00"@, "#bb2200"@,
        "#00ccee"@, "#ff0000"@, "#ffff00"@, "#ffffff"@, "#ff00ff"@, "#00ff00"@,
        "#0000cc"@, "#aaaa00"@, "#aaccaa"@, "#ff7777"@, "#bfff81"@, "#00ffcc"@,
        "#ce0097"@, "#d2d46b"@, "#ef6158"@, "#fdb200"@,
    ]
}

/// The light palette: white background, muted colours.
pub open spec fn light_palette() -> Seq<Seq<char>> {
    seq![
        "#ffffff"@, "#0044ee"@, "#aaaaaa"@, "#222222"@, "#229900"@, "#bb2200"@,
        "#00ccee"@, "#ff0000"@, "#888800"@, "#00aaaa"@, "#880088"@, "#00ff00"@,
        "#0000cc"@, "#666600"@, "#557755"@, "#aa2222"@, "#7ccc40"@, "#00ffcc"@,
        "#ce0097"@, "#d2d46b"@, "#ef6158"@, "#fdb200"@,
    ]
}

/// The dark palette, as text.
pub fn dark_strs() -> (r: [&'static str; 22])
    ensures
        r@.len() == 22,
        forall|i: int| 0 <= i < 22 ==> #[trigger] r@[i]@ == dark_palette()[i],
{
    let r = [
        "#000000", "#00ccee", "#3f3f3f", "#cccccc", "#88dd00", "#bb2200",
        "#00ccee", "#ff0000", "#ffff00", "#ffffff", "#ff00ff", "#00ff00",
        "#0000cc", "#aaaa00", "#aaccaa", "#ff7777", "#bfff81", "#00ffcc",
        "#ce0097", "#d2d46b", "#ef6158", "#fdb200",
    ];
    assert(r@.len() == 22);
    r
}

/// The light palette, as text.
pub fn light_strs() -> (r: [&'static str; 22])
    ensures
        r@.len() == 22,
        forall|i: int| 0 <= i < 22 ==> #[trigger] r@[i]@ == light_palette()[i],
{
    let r = [
        "#ffffff", "#0044ee", "#aaaaaa", "#222222", "#229900", "#bb2200",
        "#00ccee", "#ff0000", "#888800", "#00aaaa", "#880088", "#00ff00",
        "#0000cc", "#666600", "#557755", "#aa2222", "#7ccc40", "#00ffcc",
        "#ce0097", "#d2d46b", "#ef6158", "#fdb200",
    ];
    assert(r@.len() == 22);
    r
}

/// A palette as owned strings, in order.
pub fn palette_strings(palette: &[&str]) -> (r: Vec<String>)
    ensures
        r@.len() == palette@.len(),
        forall|i: int| 0 <= i < palette@.len() ==> #[trigger] r@[i]@ == palette@[i]@,
{
    let mut colors: Vec<String> = Vec::new();
    let mut i: usize = 0;
    while i < palette.len()
        invariant
            i <= palette@.len(),
            colors@.len() == i,
            forall|j: int| 0 <= j < i ==> #[trigger] colors@[j]@ == palette@[j]@,
        decreases palette@.len() - i,
    {
        colors.push(palette[i].to_string());
        i = i + 1;
    }
    colors
}

/// A palette: one `#rrggbb` colour per layer index.
#[derive(Debug)]
pub struct Theme {
    colors: Vec<String>,
}

impl Clone for Theme {
    /// A copy of the theme: the same palette, in the same order.
    fn clone(&self) -> (r: Self)
        ensures
            r@ == self@,
    {
        let mut colors: Vec<String> = Vec::new();
        let mut i: usize = 0;
        while i < self.colors.len()
            invariant
                i <= self.colors@.len(),
                colors@.len() == i,
                forall|j: int| 0 <= j < i ==> #[trigger] colors@[j]@ == self.colors@[j]@,
            decreases self.colors@.len() - i,
        {
            colors.push(self.colors[i].clone());
            i = i + 1;
        }
        let r = Theme { colors };
        proof { assert(r@ =~= self@); }
        r
    }
}

impl View for Theme {
    type V = Seq<Seq<char>>;

    closed spec fn view(&self) -> Seq<Seq<char>> {
        Seq::new(self.colors@.len(), |i: int| self.colors@[i]@)
    }
}

/// The colour of layer `n` in a palette: the palette's entry, or white past its end.
pub open spec fn layer_color(palette: Seq<Seq<char>>, n: int) -> Seq<char> {
    if 0 <= n < palette.len() { palette[n] } else { white() }
}

fn white_str() -> (r: &'static str)
    ensures r@ == white(),
{
    let r = "#ffffff";
    proof { reveal_strlit("#ffffff"); }
    r
}

impl Theme {
    /// Builds a theme from a palette of hex colours, in order.
    pub fn from_hex_palette(palette: &[&str]) -> (t: Theme)
        ensures
            t@.len() == palette@.len(),
            forall|i: int| 0 <= i < palette@.len() ==> #[trigger] t@[i] == palette@[i]@,
    {
        let mut colors: Vec<String> = Vec::new();
        let mut i: usize = 0;
        while i < palette.len()
            invariant
                i <= palette@.len(),
                colors@.len() == i,
                forall|j: int| 0 <= j < i ==> #[trigger] colors@[j]@ == palette@[j]@,
            decreases palette@.len() - i,
        {
            colors.push(palette[i].to_string());
            i = i + 1;
        }
        Theme { colors }
    }

    /// The dark theme: black background, cyan wires, light text.
    pub fn dark() -> (t: Theme)
        ensures t@ == dark_palette(),
    {
        let p = dark_strs();
        let t = Theme::from_hex_palette(&p);
        assert(t@ =~= dark_palette());
        t
    }

    /// The light theme: white background, muted colours.
    pub fn light() -> (t: Theme)
        ensures t@ == light_palette(),
    {
        let p = light_strs();
        let t = Theme::from_hex_palette(&p);
        assert(t@ =~= light_palette());
        t
    }

    /// Builds a theme that owns the given palette.
    pub fn from_vec(colors: Vec<String>) -> (t: Theme)
        ensures
            t@ == Seq::new(colors@.len(), |i: int| colors@[i]@),
    {
        Theme { colors }
    }

    /// The palette, in layer order.
    pub fn as_slice(&self) -> (r: &[String])
        ensures
            r@.len() == self@.len(),
            forall|i: int| 0 <= i < r@.len() ==> #[trigger] r@[i]@ == self@[i],
    {
        self.colors.as_slice()
    }

    /// Gives the palette back.
    pub fn into_vec(self) -> (r: Vec<String>)
        ensures
            r@.len() == self@.len(),
            forall|i: int| 0 <= i < r@.len() ==> #[trigger] r@[i]@ == self@[i],
    {
        self.colors
    }

    /// The colour of layer `n`; white where the palette has no such layer.
    pub fn layer(&self, n: usize) -> (r: &str)
        ensures r@ == layer_color(self@, n as int),
    {
        if n < self.colors.len() {
            self.colors[n].as_str()
        } else {
            white_str()
        }
    }

    pub fn background(&self) -> (r: &str)
        ensures r@ == layer_color(self@, layer::BACKGROUND as int),
    {
        self.layer(layer::BACKGROUND)
    }

    pub fn wire(&self) -> (r: &str)
        ensures r@ == layer_color(self@, layer::WIRE as int),
    {
        self.layer(layer::WIRE)
    }

    pub fn grid(&self) -> (r: &str)
        ensures r@ == layer_color(self@, layer::GRID as int),
    {
        self.layer(layer::GRID)
    }

    pub fn text(&self) -> (r: &str)
        ensures r@ == layer_color(self@, layer::TEXT as int),
    {
        self.layer(layer::TEXT)
    }

    pub fn pin(&self) -> (r: &str)
        ensures r@ == layer_color(self@, layer::PIN as int),
    {
        self.layer(layer::PIN)
    }

    pub fn label(&self) -> (r: &str)
        ensures r@ == layer_color(self@, layer::LABEL as int),
    {
        self.layer(layer::LABEL)
    }

    pub fn component(&self) -> (r: &str)
        ensures r@ == layer_color(self@, layer::COMPONENT as int),
    {
        self.layer(layer::COMPONENT)
    }
}

impl Default for Theme {
    /// The dark theme.
    fn default() -> (t: Theme)
        ensures t@ == dark_palette(),
    {
        Theme::dark()
    }
}

} // verus!

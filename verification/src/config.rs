//! Rendering options and their defaults.

use vstd::prelude::*;

verus! {

/// Size of the rendered image in pixels.
#[derive(Copy, Clone, Debug, PartialEq, Eq, Structural)]
pub struct Resolution {
    pub width: u32,
    pub height: u32,
}

impl Resolution {
    /// Number of pixels of an image of this size.
    pub open spec fn pixel_count(self) -> nat {
        (self.width as nat) * (self.height as nat)
    }
}

impl Default for Resolution {
    fn default() -> (r: Self)
        ensures
            r == (Resolution { width: 800, height: 800 }),
    {
        Resolution { width: 800, height: 800 }
    }
}

/// Whether `c` is a decimal digit.
pub open spec fn is_digit(c: char) -> bool {
    '0' as u32 <= c as u32 && c as u32 <= '9' as u32
}

/// The number that a run of decimal digits writes.
pub open spec fn digits_value(s: Seq<char>) -> nat
    decreases s.len(),
{
    if s.len() == 0 {
        0
    } else {
        digits_value(s.drop_last()) * 10 + (s.last() as u32 - '0' as u32) as nat
    }
}

/// Whether `s` holds decimal digits only.
pub open spec fn all_digits(s: Seq<char>) -> bool {
    forall|i: int| 0 <= i < s.len() ==> is_digit(#[trigger] s[i])
}

/// `s` without the `+` that may stand in front.
pub open spec fn unsigned_part(s: Seq<char>) -> Seq<char> {
    if s.len() > 0 && s[0] == '+' {
        s.drop_first()
    } else {
        s
    }
}

/// The 32-bit number that `s` writes: decimal digits, at least one, with an
/// optional `+` in front, and not above the largest 32-bit number.
pub open spec fn number_of(s: Seq<char>) -> Option<u32> {
    let digits = unsigned_part(s);
    if digits.len() > 0 && all_digits(digits) && digits_value(digits) <= u32::MAX {
        Some(digits_value(digits) as u32)
    } else {
        None
    }
}

/// `s` writes the resolution `r` with its `x` at index `at`: a width, an
/// `x`, and a height, as in `1920x1080`.
pub open spec fn writes_resolution(s: Seq<char>, at: int, r: Resolution) -> bool {
    &&& 0 <= at < s.len()
    &&& s[at] == 'x'
    &&& number_of(s.take(at)) == Some(r.width)
    &&& number_of(s.skip(at + 1)) == Some(r.height)
}

proof fn lemma_digits_grow(s: Seq<char>, k: int)
    requires
        0 <= k <= s.len(),
    ensures
        digits_value(s.take(k)) <= digits_value(s),
    decreases s.len() - k,
{
    if k < s.len() {
        lemma_digits_grow(s, k + 1);
        assert(s.take(k + 1).drop_last() =~= s.take(k));
    } else {
        assert(s.take(k) =~= s);
    }
}

/// Reads the number that the characters `text[from..to]` write.
fn parse_number(text: &str, from: usize, to: usize) -> (n: Option<u32>)
    requires
        from <= to <= text@.len(),
    ensures
        n == number_of(text@.subrange(from as int, to as int)),
{
    let ghost s = text@.subrange(from as int, to as int);
    let mut i = from;
    if i < to && text.get_char(i) == '+' {
        i += 1;
    }
    let ghost digits = text@.subrange(i as int, to as int);
    proof {
        if i > from {
            assert(s[0] == '+');
            assert(s.drop_first() =~= digits);
        } else {
            assert(s =~= digits);
            assert(s.len() > 0 ==> s[0] == text@[from as int]);
        }
        assert(digits == unsigned_part(s));
    }
    if i >= to {
        return None;
    }
    let start = i;
    let mut value: u64 = 0;
    proof {
        assert(digits.take(0) =~= Seq::<char>::empty());
    }
    while i < to
        invariant
            start <= i <= to <= text@.len(),
            start < to,
            from <= to,
            s == text@.subrange(from as int, to as int),
            digits == text@.subrange(start as int, to as int),
            digits == unsigned_part(s),
            forall|j: int| 0 <= j < i - start ==> is_digit(#[trigger] digits[j]),
            value == digits_value(digits.take(i - start)),
            value <= u32::MAX,
        decreases to - i,
    {
        let c = text.get_char(i);
        let code = c as u32;
        proof {
            assert(digits[i - start] == c);
            assert(digits.take(i - start + 1).drop_last() =~= digits.take(i - start));
        }
        if code < '0' as u32 || code > '9' as u32 {
            proof {
                assert(!is_digit(digits[i - start]));
            }
            return None;
        }
        let next = value * 10 + (code - '0' as u32) as u64;
        if next > u32::MAX as u64 {
            proof {
                lemma_digits_grow(digits, i - start + 1);
            }
            return None;
        }
        value = next;
        i += 1;
    }
    proof {
        assert(digits.take(i - start) =~= digits);
    }
    Some(value as u32)
}

/// Reads a resolution written as width, `x`, height, as in `1920x1080`.
/// Each number is written in decimal digits, which a `+` may precede, and
/// fits 32 bits.  Anything else is refused.
pub fn parse_resolution(text: &str) -> (parsed: Option<Resolution>)
    ensures
        parsed matches Some(r) ==> exists|at: int| writes_resolution(text@, at, r),
        forall|at: int, r: Resolution| writes_resolution(text@, at, r) ==> parsed == Some(r),
{
    let len = text.unicode_len();
    let mut at: usize = 0;
    while at < len && text.get_char(at) != 'x'
        invariant
            at <= len,
            len == text@.len(),
            forall|j: int| 0 <= j < at ==> text@[j] != 'x',
        decreases len - at,
    {
        at += 1;
    }
    if at >= len {
        return None;
    }
    let width = parse_number(text, 0, at);
    let height = parse_number(text, at + 1, len);
    proof {
        assert(text@.subrange(0, at as int) =~= text@.take(at as int));
        assert(text@.subrange(at + 1, len as int) =~= text@.skip(at + 1));
        assert forall|other: int, r: Resolution|
            other != at implies !writes_resolution(text@, other, r) by {
            if 0 <= other < text@.len() && text@[other] == 'x' {
                lemma_no_x_in_number(text@.take(other), at as int);
            }
        }
    }
    let parsed = match (width, height) {
        (Some(w), Some(h)) => Some(Resolution { width: w, height: h }),
        _ => None,
    };
    proof {
        if let Some(r) = parsed {
            assert(number_of(text@.take(at as int)) == Some(r.width));
            assert(number_of(text@.skip(at + 1)) == Some(r.height));
            assert(writes_resolution(text@, at as int, r));
        }
    }
    parsed
}

/// A number holds no `x`.
proof fn lemma_no_x_in_number(s: Seq<char>, at: int)
    requires
        0 <= at < s.len(),
        s[at] == 'x',
    ensures
        number_of(s) is None,
{
    let digits = unsigned_part(s);
    assert('x' as u32 == 120 && '0' as u32 == 48 && '9' as u32 == 57);
    if s[0] == '+' {
        assert(digits[at - 1] == 'x');
        assert(!is_digit(digits[at - 1]));
    } else {
        assert(digits[at] == 'x');
        assert(!is_digit(digits[at]));
    }
}

/// The surface scattering model.
#[derive(Copy, Clone, Debug, PartialEq, Eq, Structural)]
pub enum BrdfType {
    CookTorrance,
}

impl Default for BrdfType {
    fn default() -> (b: Self)
        ensures
            b == BrdfType::CookTorrance,
    {
        BrdfType::CookTorrance
    }
}

/// The curve that maps radiance to display values.
#[derive(Copy, Clone, Debug, PartialEq, Eq, Structural)]
pub enum TonemapType {
    Reinhard,
    Filmic,
    Aces,
}

impl Default for TonemapType {
    fn default() -> (t: Self)
        ensures
            t == TonemapType::Filmic,
    {
        TonemapType::Filmic
    }
}

/// Number of indirect bounces used when a profile names none.
pub fn default_bounces() -> (n: usize)
    ensures
        n == 2,
{
    2
}

/// Number of samples per pixel used when a profile names none.
pub fn default_samples() -> (n: usize)
    ensures
        n == 16,
{
    16
}

/// How an image is rendered.
#[derive(Copy, Clone, Debug, PartialEq, Eq, Structural)]
pub struct Profile {
    pub resolution: Resolution,
    /// Indirect bounces that follow the first hit of a path.
    pub bounces: usize,
    /// Paths traced through each pixel.
    pub samples: usize,
    pub brdf: BrdfType,
    pub tonemap: TonemapType,
    /// Worker threads; 0 leaves the choice to the scheduler.
    pub nb_threads: usize,
}

impl Profile {
    /// The profile used where none is given.
    pub open spec fn standard() -> Profile {
        Profile {
            resolution: Resolution { width: 800, height: 800 },
            bounces: 2,
            samples: 16,
            brdf: BrdfType::CookTorrance,
            tonemap: TonemapType::Filmic,
            nb_threads: 0,
        }
    }

    /// The profile that a partial description stands for: each option left
    /// out takes its default.
    pub fn complete(
        resolution: Option<Resolution>,
        bounces: Option<usize>,
        samples: Option<usize>,
        brdf: Option<BrdfType>,
        tonemap: Option<TonemapType>,
        nb_threads: Option<usize>,
    ) -> (p: Profile)
        ensures
            p.resolution == if let Some(r) = resolution {
                r
            } else {
                Profile::standard().resolution
            },
            p.bounces == if let Some(b) = bounces {
                b
            } else {
                2
            },
            p.samples == if let Some(s) = samples {
                s
            } else {
                16
            },
            p.brdf == if let Some(b) = brdf {
                b
            } else {
                BrdfType::CookTorrance
            },
            p.tonemap == if let Some(t) = tonemap {
                t
            } else {
                TonemapType::Filmic
            },
            p.nb_threads == if let Some(n) = nb_threads {
                n
            } else {
                0
            },
    {
        Profile {
            resolution: match resolution {
                Some(r) => r,
                None => Resolution::default(),
            },
            bounces: match bounces {
                Some(b) => b,
                None => default_bounces(),
            },
            samples: match samples {
                Some(s) => s,
                None => default_samples(),
            },
            brdf: match brdf {
                Some(b) => b,
                None => BrdfType::default(),
            },
            tonemap: match tonemap {
                Some(t) => t,
                None => TonemapType::default(),
            },
            nb_threads: match nb_threads {
                Some(n) => n,
                None => 0,
            },
        }
    }
}

impl Default for Profile {
    fn default() -> (p: Self)
        ensures
            p == Profile::standard(),
    {
        Profile::complete(None, None, None, None, None, None)
    }
}

/// Options of the `render` command.
#[derive(Debug)]
pub struct RenderConfig {
    /// Scene file to read.
    pub input: String,
    /// Image file to write.
    pub output: String,
    /// No progress bar.
    pub quiet: bool,
    /// Show the image in a window while it renders.
    pub viewer: bool,
    /// Write one image per material channel in place of the rendering.
    pub debug_textures: bool,
    /// File that holds the rendering profile, if any.
    pub profile: Option<String>,
}

impl RenderConfig {
    /// The two configurations name the same files and set the same options.
    pub open spec fn same_as(self, other: RenderConfig) -> bool {
        &&& self.input@ == other.input@
        &&& self.output@ == other.output@
        &&& self.quiet == other.quiet
        &&& self.viewer == other.viewer
        &&& self.debug_textures == other.debug_textures
        &&& self.profile is Some == other.profile is Some
        &&& self.profile is Some ==> self.profile.unwrap()@ == other.profile.unwrap()@
    }

    /// No files named, no progress bar, no viewer, no channel images, no
    /// profile.
    pub open spec fn is_blank(self) -> bool {
        &&& self.input@ == Seq::<char>::empty()
        &&& self.output@ == Seq::<char>::empty()
        &&& self.quiet
        &&& !self.viewer
        &&& !self.debug_textures
        &&& self.profile is None
    }
}

impl Default for RenderConfig {
    fn default() -> (c: Self)
        ensures
            c.is_blank(),
    {
        RenderConfig {
            input: String::new(),
            output: String::new(),
            quiet: true,
            viewer: false,
            debug_textures: false,
            profile: None,
        }
    }
}

impl Clone for RenderConfig {
    fn clone(&self) -> (copy: Self)
        ensures
            copy.same_as(*self),
    {
        RenderConfig {
            input: self.input.clone(),
            output: self.output.clone(),
            quiet: self.quiet,
            viewer: self.viewer,
            debug_textures: self.debug_textures,
            profile: match &self.profile {
                Some(path) => Some(path.clone()),
                None => None,
            },
        }
    }
}

/// Options of the `convert` command.
#[derive(Debug)]
pub struct ConvertConfig {
    /// Scene file to read, in an exchange format.
    pub input: String,
    /// Directory that receives the converted scene and its textures.
    pub output: String,
}

impl ConvertConfig {
    /// The two configurations name the same files.
    pub open spec fn same_as(self, other: ConvertConfig) -> bool {
        self.input@ == other.input@ && self.output@ == other.output@
    }

    /// No files named.
    pub open spec fn is_blank(self) -> bool {
        self.input@ == Seq::<char>::empty() && self.output@ == Seq::<char>::empty()
    }
}

impl Default for ConvertConfig {
    fn default() -> (c: Self)
        ensures
            c.is_blank(),
    {
        ConvertConfig { input: String::new(), output: String::new() }
    }
}

impl Clone for ConvertConfig {
    fn clone(&self) -> (copy: Self)
        ensures
            copy.same_as(*self),
    {
        ConvertConfig { input: self.input.clone(), output: self.output.clone() }
    }
}

/// What the program was asked to do.
#[derive(Debug)]
pub enum Config {
    Render(RenderConfig),
    Convert(ConvertConfig),
}

impl Config {
    /// The two commands are of one kind and ask for the same.
    pub open spec fn same_as(self, other: Config) -> bool {
        match (self, other) {
            (Config::Render(a), Config::Render(b)) => a.same_as(b),
            (Config::Convert(a), Config::Convert(b)) => a.same_as(b),
            _ => false,
        }
    }
}

impl Clone for Config {
    fn clone(&self) -> (copy: Self)
        ensures
            copy.same_as(*self),
    {
        match self {
            Config::Render(render) => Config::Render(render.clone()),
            Config::Convert(convert) => Config::Convert(convert.clone()),
        }
    }
}

impl Default for Config {
    /// The command where none is given: a render with nothing set.
    fn default() -> (c: Self)
        ensures
            c matches Config::Render(render) && render.is_blank(),
    {
        Config::Render(RenderConfig::default())
    }
}

} // verus!

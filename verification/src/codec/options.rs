//! What the options of an encoder select.
use oxideav_core::CodecOptions;
use vstd::prelude::*;

use crate::codec::text::{
    chars_of, find_char, is_word, lowercase, number_of, position, read_number, to_lowercase,
};

verus! {

/// The option bag of the `oxideav-core` crate: text values under text keys.
#[verifier::external_type_specification]
#[verifier::external_body]
pub struct ExCodecOptions(CodecOptions);

/// What an option bag holds: under each key the value of its first entry with that key.
pub uninterp spec fn option_entries(options: CodecOptions) -> Map<Seq<char>, Seq<char>>;

/// Calls `CodecOptions::get`, which looks a key up in the bag. It gives the value that
/// the bag holds under the key, and nothing if the key was never set.
#[verifier::external_body]
fn look_up<'a>(options: &'a CodecOptions, key: &str) -> (r: Option<&'a str>)
    ensures
        match r {
            Some(v) => option_entries(*options).contains_pair(key@, v@),
            None => !option_entries(*options).contains_key(key@),
        },
{
    options.get(key)
}

/// The options that an encoder knows.
#[derive(Debug, Clone, Copy, PartialEq, Eq, Structural)]
pub enum OptionKey {
    /// `lossless`: whether the coding is reversible.
    Lossless,
    /// `fine_bits`: how fine the quantization of irreversible coding is.
    FineBits,
    /// `levels`: number of decomposition levels.
    Levels,
    /// `layers`: number of layers.
    Layers,
    /// `progression`: order of the packets.
    Progression,
    /// `tile`: size of the tiles, as `WxH`.
    Tile,
    /// `psnr`: least quality.
    Psnr,
    /// `target_bytes`: greatest size.
    TargetBytes,
    /// `ht`: whether the high-throughput block coder is used.
    Ht,
    /// `plt`: whether packet lengths are written.
    Plt,
    /// `tlm`: whether tile-part lengths are written.
    Tlm,
    /// `sop`: whether packets are marked at their start.
    Sop,
    /// `eph`: whether packet headers are marked at their end.
    Eph,
    /// `comment`: a comment.
    Comment,
    /// `container`: whether a file or a bare codestream is made.
    Container,
}

/// The name of an option.
pub open spec fn key_name(k: OptionKey) -> Seq<char> {
    match k {
        OptionKey::Lossless => "lossless"@,
        OptionKey::FineBits => "fine_bits"@,
        OptionKey::Levels => "levels"@,
        OptionKey::Layers => "layers"@,
        OptionKey::Progression => "progression"@,
        OptionKey::Tile => "tile"@,
        OptionKey::Psnr => "psnr"@,
        OptionKey::TargetBytes => "target_bytes"@,
        OptionKey::Ht => "ht"@,
        OptionKey::Plt => "plt"@,
        OptionKey::Tlm => "tlm"@,
        OptionKey::Sop => "sop"@,
        OptionKey::Eph => "eph"@,
        OptionKey::Comment => "comment"@,
        OptionKey::Container => "container"@,
    }
}

impl OptionKey {
    /// The name of the option.
    pub fn name(self) -> (s: &'static str)
        ensures
            s@ == key_name(self),
    {
        match self {
            OptionKey::Lossless => "lossless",
            OptionKey::FineBits => "fine_bits",
            OptionKey::Levels => "levels",
            OptionKey::Layers => "layers",
            OptionKey::Progression => "progression",
            OptionKey::Tile => "tile",
            OptionKey::Psnr => "psnr",
            OptionKey::TargetBytes => "target_bytes",
            OptionKey::Ht => "ht",
            OptionKey::Plt => "plt",
            OptionKey::Tlm => "tlm",
            OptionKey::Sop => "sop",
            OptionKey::Eph => "eph",
            OptionKey::Comment => "comment",
            OptionKey::Container => "container",
        }
    }
}

/// The place of an option among all.
pub open spec fn key_index(k: OptionKey) -> int {
    match k {
        OptionKey::Lossless => 0,
        OptionKey::FineBits => 1,
        OptionKey::Levels => 2,
        OptionKey::Layers => 3,
        OptionKey::Progression => 4,
        OptionKey::Tile => 5,
        OptionKey::Psnr => 6,
        OptionKey::TargetBytes => 7,
        OptionKey::Ht => 8,
        OptionKey::Plt => 9,
        OptionKey::Tlm => 10,
        OptionKey::Sop => 11,
        OptionKey::Eph => 12,
        OptionKey::Comment => 13,
        OptionKey::Container => 14,
    }
}

impl OptionKey {
    /// The place of the option among all.
    fn index(self) -> (i: usize)
        ensures
            i == key_index(self),
            i < 15,
    {
        match self {
            OptionKey::Lossless => 0,
            OptionKey::FineBits => 1,
            OptionKey::Levels => 2,
            OptionKey::Layers => 3,
            OptionKey::Progression => 4,
            OptionKey::Tile => 5,
            OptionKey::Psnr => 6,
            OptionKey::TargetBytes => 7,
            OptionKey::Ht => 8,
            OptionKey::Plt => 9,
            OptionKey::Tlm => 10,
            OptionKey::Sop => 11,
            OptionKey::Eph => 12,
            OptionKey::Comment => 13,
            OptionKey::Container => 14,
        }
    }
}

impl OptionKey {
    /// The option at a place among all.
    fn at_index(i: usize) -> (k: Self)
        requires
            i < 15,
        ensures
            key_index(k) == i,
    {
        match i {
            0 => OptionKey::Lossless,
            1 => OptionKey::FineBits,
            2 => OptionKey::Levels,
            3 => OptionKey::Layers,
            4 => OptionKey::Progression,
            5 => OptionKey::Tile,
            6 => OptionKey::Psnr,
            7 => OptionKey::TargetBytes,
            8 => OptionKey::Ht,
            9 => OptionKey::Plt,
            10 => OptionKey::Tlm,
            11 => OptionKey::Sop,
            12 => OptionKey::Eph,
            13 => OptionKey::Comment,
            _ => OptionKey::Container,
        }
    }
}

/// The texts of the known options that are set.
#[derive(Debug)]
pub struct OptionTexts {
    texts: Vec<Option<String>>,
}

impl View for OptionTexts {
    type V = Map<OptionKey, Seq<char>>;

    closed spec fn view(&self) -> Map<OptionKey, Seq<char>> {
        Map::new(
            |k: OptionKey| self.texts@[key_index(k)] is Some,
            |k: OptionKey| self.texts@[key_index(k)]->0@,
        )
    }
}

impl OptionTexts {
    /// There is a place for each option.
    pub closed spec fn wf(&self) -> bool {
        self.texts@.len() == 15
    }

    /// No option is set.
    pub fn new() -> (t: Self)
        ensures
            t.wf(),
            t@ == Map::<OptionKey, Seq<char>>::empty(),
    {
        let mut texts: Vec<Option<String>> = Vec::with_capacity(15);
        for i in 0..15
            invariant
                texts@.len() == i,
                forall|k: int| 0 <= k < i ==> texts@[k] is None,
        {
            texts.push(None);
        }
        let t = OptionTexts { texts };
        assert(t@ =~= Map::empty());
        t
    }

    /// Sets an option.
    pub fn set(&mut self, k: OptionKey, text: String)
        requires
            old(self).wf(),
        ensures
            final(self).wf(),
            final(self)@ == old(self)@.insert(k, text@),
    {
        let ghost before = self@;
        self.texts.set(k.index(), Some(text));
        assert(self@ =~= before.insert(k, text@));
    }

    /// The text of an option, if it is set.
    pub fn get(&self, k: OptionKey) -> (r: Option<&str>)
        requires
            self.wf(),
        ensures
            match r {
                Some(s) => self@.contains_pair(k, s@),
                None => !self@.contains_key(k),
            },
    {
        match &self.texts[k.index()] {
            Some(s) => Some(s.as_str()),
            None => None,
        }
    }

    /// Looks one option up in a bag.
    fn take_from(&mut self, options: &CodecOptions, k: OptionKey)
        requires
            old(self).wf(),
        ensures
            final(self).wf(),
            final(self)@ == match value_of(known_options(option_entries(*options)), k) {
                Some(v) => old(self)@.insert(k, v),
                None => old(self)@,
            },
    {
        match look_up(options, k.name()) {
            Some(s) => {
                self.set(k, s.to_owned());
            },
            None => {},
        }
    }

    /// The known options of a bag.
    pub fn from_options(options: &CodecOptions) -> (t: Self)
        ensures
            t.wf(),
            t@ == known_options(option_entries(*options)),
    {
        let ghost known = known_options(option_entries(*options));
        let mut t = OptionTexts::new();
        for i in 0..15usize
            invariant
                known == known_options(option_entries(*options)),
                t.wf(),
                forall|k: OptionKey|
                    #[trigger] t@.contains_key(k) <==> key_index(k) < i && known.contains_key(k),
                forall|k: OptionKey| #[trigger] t@.contains_key(k) ==> t@[k] == known[k],
        {
            let at: OptionKey = OptionKey::at_index(i);
            assert forall|k: OptionKey| key_index(k) == i implies k == at by {}
            t.take_from(options, at);
        }
        assert(t@ =~= known_options(option_entries(*options)));
        t
    }
}

/// The order of the packets of a codestream (T.800 Table A.16).
#[derive(Debug, Clone, Copy, PartialEq, Eq, Structural)]
pub enum ProgressionOrder {
    /// Layer, resolution level, component, position.
    Lrcp,
    /// Resolution level, layer, component, position.
    Rlcp,
    /// Resolution level, position, component, layer.
    Rpcl,
    /// Position, component, resolution level, layer.
    Pcrl,
    /// Component, position, resolution level, layer.
    Cprl,
}

/// The wavelet kernel.
#[derive(Debug, Clone, Copy, PartialEq, Eq, Structural)]
pub enum EncodeKernel {
    /// The reversible 5-3 kernel.
    Lossless5x3,
    /// The irreversible 9-7 kernel.
    Lossy9x7 {
        /// How fine the quantization is.
        fine_bits: u8,
    },
}

/// What the options select. What they leave open is `None`.
#[derive(Debug, Clone, PartialEq, Eq)]
pub struct EncodeParams {
    /// The wavelet kernel.
    pub kernel: EncodeKernel,
    /// Whether the component transform is used.
    pub mct: bool,
    /// Number of decomposition levels.
    pub decomposition_levels: Option<u8>,
    /// Number of layers.
    pub layers: Option<u16>,
    /// Order of the packets.
    pub progression: Option<ProgressionOrder>,
    /// Width and height of the tiles.
    pub tile_size: Option<TileSize>,
    /// Greatest size in bytes.
    pub target_bytes: Option<usize>,
    /// Whether the high-throughput block coder is used.
    pub high_throughput: bool,
    /// Whether packet lengths are written.
    pub plt: bool,
    /// Whether tile-part lengths are written.
    pub tlm: bool,
    /// Whether packets are marked at their start.
    pub sop: bool,
    /// Whether packet headers are marked at their end.
    pub eph: bool,
    /// A comment.
    pub comment: Option<String>,
}

/// Width and height of the tiles.
#[derive(Debug, Clone, Copy, PartialEq, Eq, Structural)]
pub struct TileSize {
    /// Width.
    pub width: u32,
    /// Height.
    pub height: u32,
}

/// What the options select, as values.
pub struct ParamsView {
    pub kernel: EncodeKernel,
    pub mct: bool,
    pub decomposition_levels: Option<u8>,
    pub layers: Option<u16>,
    pub progression: Option<ProgressionOrder>,
    pub tile_size: Option<TileSize>,
    pub target_bytes: Option<usize>,
    pub high_throughput: bool,
    pub plt: bool,
    pub tlm: bool,
    pub sop: bool,
    pub eph: bool,
    pub comment: Option<Seq<char>>,
}

impl View for EncodeParams {
    type V = ParamsView;

    open spec fn view(&self) -> ParamsView {
        ParamsView {
            kernel: self.kernel,
            mct: self.mct,
            decomposition_levels: self.decomposition_levels,
            layers: self.layers,
            progression: self.progression,
            tile_size: self.tile_size,
            target_bytes: self.target_bytes,
            high_throughput: self.high_throughput,
            plt: self.plt,
            tlm: self.tlm,
            sop: self.sop,
            eph: self.eph,
            comment: match self.comment {
                Some(s) => Some(s@),
                None => None,
            },
        }
    }
}

/// The value of an option, if it is set.
pub open spec fn value_of(texts: Map<OptionKey, Seq<char>>, k: OptionKey) -> Option<Seq<char>> {
    if texts.contains_key(k) {
        Some(texts[k])
    } else {
        None
    }
}

/// The known options among all that a bag holds.
pub open spec fn known_options(entries: Map<Seq<char>, Seq<char>>) -> Map<OptionKey, Seq<char>> {
    Map::new(
        |k: OptionKey| entries.contains_key(key_name(k)),
        |k: OptionKey| entries[key_name(k)],
    )
}

/// What was read of an option.
pub enum Reading<T> {
    /// It is not set.
    Unset,
    /// Its value.
    Is(T),
    /// Its value has no meaning.
    Invalid,
}

impl<T> Reading<T> {
    /// The value, or another one where there is none.
    pub open spec fn or(self, other: T) -> T {
        match self {
            Reading::Is(v) => v,
            _ => other,
        }
    }

    /// The value, if there is one.
    pub open spec fn value(self) -> Option<T> {
        match self {
            Reading::Is(v) => Some(v),
            _ => None,
        }
    }
}

/// What a text says as a switch.
pub open spec fn switch_of(s: Seq<char>) -> Option<bool> {
    if s == "true"@ || s == "1"@ || s == "yes"@ {
        Some(true)
    } else if s == "false"@ || s == "0"@ || s == "no"@ {
        Some(false)
    } else {
        None
    }
}

/// The order that a text names, in capital or small letters.
pub open spec fn progression_of(s: Seq<char>) -> Option<ProgressionOrder> {
    let name = lowercase(s);
    if name == "lrcp"@ {
        Some(ProgressionOrder::Lrcp)
    } else if name == "rlcp"@ {
        Some(ProgressionOrder::Rlcp)
    } else if name == "rpcl"@ {
        Some(ProgressionOrder::Rpcl)
    } else if name == "pcrl"@ {
        Some(ProgressionOrder::Pcrl)
    } else if name == "cprl"@ {
        Some(ProgressionOrder::Cprl)
    } else {
        None
    }
}

/// The size that a text gives: two numbers with an `x` between them.
pub open spec fn tile_of(s: Seq<char>) -> Option<TileSize> {
    match position(s, 'x', 0) {
        Some(p) => match (
            number_of(s.take(p), u32::MAX as nat),
            number_of(s.skip(p + 1), u32::MAX as nat),
        ) {
            (Some(w), Some(h)) => Some(TileSize { width: w as u32, height: h as u32 }),
            _ => None,
        },
        None => None,
    }
}

/// Whether a text asks for a file rather than a bare codestream.
pub open spec fn container_of(s: Seq<char>) -> Option<bool> {
    if s == "j2k"@ || s == "j2c"@ {
        Some(false)
    } else if s == "jp2"@ || s == "jph"@ {
        Some(true)
    } else {
        None
    }
}

/// What was read of an option whose text means something.
pub open spec fn reading<T>(value: Option<Seq<char>>, meaning: spec_fn(Seq<char>) -> Option<T>) -> Reading<
    T,
> {
    match value {
        None => Reading::Unset,
        Some(s) => match meaning(s) {
            Some(v) => Reading::Is(v),
            None => Reading::Invalid,
        },
    }
}

/// What was read of a switch.
pub open spec fn switch(texts: Map<OptionKey, Seq<char>>, k: OptionKey) -> Reading<bool> {
    reading(value_of(texts, k), |s: Seq<char>| switch_of(s))
}

/// What was read of a number up to `max`.
pub open spec fn number(texts: Map<OptionKey, Seq<char>>, k: OptionKey, max: nat) -> Reading<
    nat,
> {
    reading(value_of(texts, k), |s: Seq<char>| number_of(s, max))
}

/// What was read of the order of the packets.
pub open spec fn progression(texts: Map<OptionKey, Seq<char>>) -> Reading<ProgressionOrder> {
    reading(value_of(texts, OptionKey::Progression), |s: Seq<char>| progression_of(s))
}

/// What was read of the size of the tiles.
pub open spec fn tile(texts: Map<OptionKey, Seq<char>>) -> Reading<TileSize> {
    reading(value_of(texts, OptionKey::Tile), |s: Seq<char>| tile_of(s))
}

/// What was read of the container.
pub open spec fn container(texts: Map<OptionKey, Seq<char>>) -> Reading<bool> {
    reading(value_of(texts, OptionKey::Container), |s: Seq<char>| container_of(s))
}

/// The first option that is invalid. `fine_bits` counts only where the coding is not
/// reversible. Whether `psnr` is a number is told by `psnr_valid`.
pub open spec fn first_invalid(texts: Map<OptionKey, Seq<char>>, psnr_valid: bool) -> Option<
    OptionKey,
> {
    if switch(texts, OptionKey::Lossless) is Invalid {
        Some(OptionKey::Lossless)
    } else if !switch(texts, OptionKey::Lossless).or(true) && number(
        texts,
        OptionKey::FineBits,
        0xFF,
    ) is Invalid {
        Some(OptionKey::FineBits)
    } else if number(texts, OptionKey::Levels, 0xFF) is Invalid {
        Some(OptionKey::Levels)
    } else if number(texts, OptionKey::Layers, 0xFFFF) is Invalid {
        Some(OptionKey::Layers)
    } else if progression(texts) is Invalid {
        Some(OptionKey::Progression)
    } else if tile(texts) is Invalid {
        Some(OptionKey::Tile)
    } else if value_of(texts, OptionKey::Psnr) is Some && !psnr_valid {
        Some(OptionKey::Psnr)
    } else if number(texts, OptionKey::TargetBytes, usize::MAX as nat) is Invalid {
        Some(OptionKey::TargetBytes)
    } else if switch(texts, OptionKey::Ht) is Invalid {
        Some(OptionKey::Ht)
    } else if switch(texts, OptionKey::Plt) is Invalid {
        Some(OptionKey::Plt)
    } else if switch(texts, OptionKey::Tlm) is Invalid {
        Some(OptionKey::Tlm)
    } else if switch(texts, OptionKey::Sop) is Invalid {
        Some(OptionKey::Sop)
    } else if switch(texts, OptionKey::Eph) is Invalid {
        Some(OptionKey::Eph)
    } else {
        None
    }
}

/// How fast frames come: so many in so many seconds.
#[derive(Debug, Clone, Copy, PartialEq, Eq, Structural)]
pub struct FrameRate {
    /// Frames.
    pub num: i64,
    /// Seconds.
    pub den: i64,
}

/// The bits that a frame may take at a bit rate: those of one frame time or, without a
/// frame rate, all of them.
pub open spec fn bits_per_frame(bit_rate: u64, frame_rate: Option<FrameRate>) -> int {
    match frame_rate {
        Some(r) => if r.num > 0 && r.den > 0 {
            bit_rate * r.den / r.num as int % 0x1_0000_0000_0000_0000
        } else {
            bit_rate as int
        },
        None => bit_rate as int,
    }
}

/// A size in bytes, or the greatest one that the machine knows.
pub open spec fn at_most_usize(n: int) -> usize {
    if n > usize::MAX {
        usize::MAX
    } else {
        n as usize
    }
}

/// The greatest size of a frame in bytes: as an option gives it, else from the bit rate.
pub open spec fn byte_budget(
    texts: Map<OptionKey, Seq<char>>,
    bit_rate: Option<u64>,
    frame_rate: Option<FrameRate>,
) -> Option<usize> {
    match number(texts, OptionKey::TargetBytes, usize::MAX as nat) {
        Reading::Is(n) => Some(n as usize),
        _ => match bit_rate {
            Some(b) => Some(at_most_usize(bits_per_frame(b, frame_rate) / 8)),
            None => None,
        },
    }
}

/// What valid options select for an image of so many components.
pub open spec fn selected(
    texts: Map<OptionKey, Seq<char>>,
    bit_rate: Option<u64>,
    frame_rate: Option<FrameRate>,
    components: usize,
) -> ParamsView {
    ParamsView {
        kernel: if switch(texts, OptionKey::Lossless).or(true) {
            EncodeKernel::Lossless5x3
        } else {
            EncodeKernel::Lossy9x7 {
                fine_bits: number(texts, OptionKey::FineBits, 0xFF).or(6) as u8,
            }
        },
        mct: components >= 3,
        decomposition_levels: match number(texts, OptionKey::Levels, 0xFF) {
            Reading::Is(n) => Some(n as u8),
            _ => None,
        },
        layers: match number(texts, OptionKey::Layers, 0xFFFF) {
            Reading::Is(n) => Some(n as u16),
            _ => None,
        },
        progression: progression(texts).value(),
        tile_size: tile(texts).value(),
        target_bytes: byte_budget(texts, bit_rate, frame_rate),
        high_throughput: switch(texts, OptionKey::Ht).or(false),
        plt: switch(texts, OptionKey::Plt).or(false),
        tlm: switch(texts, OptionKey::Tlm).or(false),
        sop: switch(texts, OptionKey::Sop).or(false),
        eph: switch(texts, OptionKey::Eph).or(false),
        comment: value_of(texts, OptionKey::Comment),
    }
}

/// The characters of the value of an option, if it is set.
fn option_chars(options: &OptionTexts, k: OptionKey) -> (r: Option<Vec<char>>)
    requires
        options.wf(),
    ensures
        match r {
            Some(v) => value_of(options@, k) == Some(v@),
            None => value_of(options@, k) is None,
        },
{
    match options.get(k) {
        Some(s) => Some(chars_of(s)),
        None => None,
    }
}

/// Reads a switch.
fn read_switch(options: &OptionTexts, k: OptionKey) -> (r: Result<Option<bool>, OptionKey>)
    requires
        options.wf(),
    ensures
        match switch(options@, k) {
            Reading::Unset => r == Ok::<Option<bool>, OptionKey>(None),
            Reading::Is(b) => r == Ok::<Option<bool>, OptionKey>(Some(b)),
            Reading::Invalid => r == Err::<Option<bool>, OptionKey>(k),
        },
{
    match option_chars(options, k) {
        None => Ok(None),
        Some(v) => if is_word(&v, "true") || is_word(&v, "1") || is_word(&v, "yes") {
            Ok(Some(true))
        } else if is_word(&v, "false") || is_word(&v, "0") || is_word(&v, "no") {
            Ok(Some(false))
        } else {
            Err(k)
        },
    }
}

/// Reads a number up to `max`.
fn read_count(options: &OptionTexts, k: OptionKey, max: u64) -> (r: Result<
    Option<u64>,
    OptionKey,
>)
    requires
        options.wf(),
    ensures
        match number(options@, k, max as nat) {
            Reading::Unset => r == Ok::<Option<u64>, OptionKey>(None),
            Reading::Is(n) => n <= max && r == Ok::<Option<u64>, OptionKey>(Some(n as u64)),
            Reading::Invalid => r == Err::<Option<u64>, OptionKey>(k),
        },
{
    match option_chars(options, k) {
        None => Ok(None),
        Some(v) => {
            assert(v@.subrange(0, v@.len() as int) =~= v@);
            match read_number(&v, 0, v.len(), max) {
                Some(n) => Ok(Some(n)),
                None => Err(k),
            }
        },
    }
}

/// Reads the order of the packets.
fn read_progression(options: &OptionTexts) -> (r: Result<Option<ProgressionOrder>, OptionKey>)
    requires
        options.wf(),
    ensures
        match progression(options@) {
            Reading::Unset => r == Ok::<Option<ProgressionOrder>, OptionKey>(None),
            Reading::Is(p) => r == Ok::<Option<ProgressionOrder>, OptionKey>(Some(p)),
            Reading::Invalid => r == Err::<Option<ProgressionOrder>, OptionKey>(
                OptionKey::Progression,
            ),
        },
{
    match option_chars(options, OptionKey::Progression) {
        None => Ok(None),
        Some(v) => {
            let name: Vec<char> = to_lowercase(&v);
            if is_word(&name, "lrcp") {
                Ok(Some(ProgressionOrder::Lrcp))
            } else if is_word(&name, "rlcp") {
                Ok(Some(ProgressionOrder::Rlcp))
            } else if is_word(&name, "rpcl") {
                Ok(Some(ProgressionOrder::Rpcl))
            } else if is_word(&name, "pcrl") {
                Ok(Some(ProgressionOrder::Pcrl))
            } else if is_word(&name, "cprl") {
                Ok(Some(ProgressionOrder::Cprl))
            } else {
                Err(OptionKey::Progression)
            }
        },
    }
}

/// Reads the size of the tiles.
fn read_tile(options: &OptionTexts) -> (r: Result<Option<TileSize>, OptionKey>)
    requires
        options.wf(),
    ensures
        match tile(options@) {
            Reading::Unset => r == Ok::<Option<TileSize>, OptionKey>(None),
            Reading::Is(t) => r == Ok::<Option<TileSize>, OptionKey>(Some(t)),
            Reading::Invalid => r == Err::<Option<TileSize>, OptionKey>(OptionKey::Tile),
        },
{
    match option_chars(options, OptionKey::Tile) {
        None => Ok(None),
        Some(v) => match find_char(&v, 'x') {
            None => Err(OptionKey::Tile),
            Some(p) => {
                assert(v@.subrange(0, p as int) =~= v@.take(p as int));
                assert(v@.subrange(p + 1, v@.len() as int) =~= v@.skip(p + 1));
                match (
                    read_number(&v, 0, p, u32::MAX as u64),
                    read_number(&v, p + 1, v.len(), u32::MAX as u64),
                ) {
                    (Some(w), Some(h)) => Ok(
                        Some(TileSize { width: w as u32, height: h as u32 }),
                    ),
                    _ => Err(OptionKey::Tile),
                }
            },
        },
    }
}

/// Reads whether a file is to be made rather than a bare codestream; without the option
/// it is not.
pub fn read_container(options: &OptionTexts) -> (r: Result<bool, OptionKey>)
    requires
        options.wf(),
    ensures
        match container(options@) {
            Reading::Unset => r == Ok::<bool, OptionKey>(false),
            Reading::Is(b) => r == Ok::<bool, OptionKey>(b),
            Reading::Invalid => r == Err::<bool, OptionKey>(OptionKey::Container),
        },
{
    match option_chars(options, OptionKey::Container) {
        None => Ok(false),
        Some(v) => if is_word(&v, "j2k") || is_word(&v, "j2c") {
            Ok(false)
        } else if is_word(&v, "jp2") || is_word(&v, "jph") {
            Ok(true)
        } else {
            Err(OptionKey::Container)
        },
    }
}

/// The greatest size of a frame at a bit rate.
fn budget(bit_rate: u64, frame_rate: Option<FrameRate>) -> (n: usize)
    ensures
        n == at_most_usize(bits_per_frame(bit_rate, frame_rate) / 8),
{
    let bits: u64 = match frame_rate {
        Some(r) if r.num > 0 && r.den > 0 => {
            proof {
                assert(bit_rate * r.den <= 0xFFFF_FFFF_FFFF_FFFF * 0x7FFF_FFFF_FFFF_FFFF)
                    by (nonlinear_arith)
                    requires
                        0 <= bit_rate <= 0xFFFF_FFFF_FFFF_FFFF,
                        0 <= r.den <= 0x7FFF_FFFF_FFFF_FFFF,
                ;
            }
            let whole: u128 = bit_rate as u128 * r.den as u128 / r.num as u128;
            (whole % 0x1_0000_0000_0000_0000) as u64
        },
        _ => bit_rate,
    };
    let bytes: u64 = bits / 8;
    if bytes > usize::MAX as u64 {
        usize::MAX
    } else {
        bytes as usize
    }
}

/// Reads what the options select for an image of so many components; the first option
/// that is invalid is an error.
///
/// `bit_rate` is in bits per second or, without a frame rate, per frame. Whether the
/// `psnr` option, where it is set, is a number is told by `psnr_valid`.
pub fn encode_params(
    options: &OptionTexts,
    bit_rate: Option<u64>,
    frame_rate: Option<FrameRate>,
    components: usize,
    psnr_valid: bool,
) -> (r: Result<EncodeParams, OptionKey>)
    requires
        options.wf(),
    ensures
        match first_invalid(options@, psnr_valid) {
            Some(k) => r == Err::<EncodeParams, OptionKey>(k),
            None => r matches Ok(p) && p@ == selected(
                options@,
                bit_rate,
                frame_rate,
                components,
            ),
        },
{
    let lossless: bool = match read_switch(options, OptionKey::Lossless) {
        Ok(Some(b)) => b,
        Ok(None) => true,
        Err(k) => {
            return Err(k);
        },
    };
    let kernel: EncodeKernel = if lossless {
        EncodeKernel::Lossless5x3
    } else {
        match read_count(options, OptionKey::FineBits, 0xFF) {
            Ok(Some(n)) => EncodeKernel::Lossy9x7 { fine_bits: n as u8 },
            Ok(None) => EncodeKernel::Lossy9x7 { fine_bits: 6 },
            Err(k) => {
                return Err(k);
            },
        }
    };
    let decomposition_levels: Option<u8> = match read_count(options, OptionKey::Levels, 0xFF) {
        Ok(Some(n)) => Some(n as u8),
        Ok(None) => None,
        Err(k) => {
            return Err(k);
        },
    };
    let layers: Option<u16> = match read_count(options, OptionKey::Layers, 0xFFFF) {
        Ok(Some(n)) => Some(n as u16),
        Ok(None) => None,
        Err(k) => {
            return Err(k);
        },
    };
    let progression: Option<ProgressionOrder> = match read_progression(options) {
        Ok(p) => p,
        Err(k) => {
            return Err(k);
        },
    };
    let tile_size: Option<TileSize> = match read_tile(options) {
        Ok(t) => t,
        Err(k) => {
            return Err(k);
        },
    };
    if !psnr_valid && option_chars(options, OptionKey::Psnr).is_some() {
        return Err(OptionKey::Psnr);
    }
    let target_bytes: Option<usize> = match read_count(
        options,
        OptionKey::TargetBytes,
        usize::MAX as u64,
    ) {
        Ok(Some(n)) => Some(n as usize),
        Ok(None) => match bit_rate {
            Some(b) => Some(budget(b, frame_rate)),
            None => None,
        },
        Err(k) => {
            return Err(k);
        },
    };
    let high_throughput: bool = match read_switch(options, OptionKey::Ht) {
        Ok(b) => b.unwrap_or(false),
        Err(k) => {
            return Err(k);
        },
    };
    let plt: bool = match read_switch(options, OptionKey::Plt) {
        Ok(b) => b.unwrap_or(false),
        Err(k) => {
            return Err(k);
        },
    };
    let tlm: bool = match read_switch(options, OptionKey::Tlm) {
        Ok(b) => b.unwrap_or(false),
        Err(k) => {
            return Err(k);
        },
    };
    let sop: bool = match read_switch(options, OptionKey::Sop) {
        Ok(b) => b.unwrap_or(false),
        Err(k) => {
            return Err(k);
        },
    };
    let eph: bool = match read_switch(options, OptionKey::Eph) {
        Ok(b) => b.unwrap_or(false),
        Err(k) => {
            return Err(k);
        },
    };
    let comment: Option<String> = match options.get(OptionKey::Comment) {
        Some(s) => Some(s.to_owned()),
        None => None,
    };
    Ok(
        EncodeParams {
            kernel,
            mct: components >= 3,
            decomposition_levels,
            layers,
            progression,
            tile_size,
            target_bytes,
            high_throughput,
            plt,
            tlm,
            sop,
            eph,
            comment,
        },
    )
}

} // verus!

//! What the options of an encoder mean, each by itself, and which frames are taken.
use vstd::prelude::*;

use crate::codec::options::{
    bits_per_frame, byte_budget, container, container_of, first_invalid, key_name, known_options,
    number, progression, progression_of, selected, switch, tile, tile_of, value_of, EncodeKernel,
    EncodeParams, FrameRate, OptionKey, ProgressionOrder, Reading,
};
use crate::codec::request::{
    codestream_in, frame_checked, packet_shown, pixels_refused, plan_of_frame, shown_image,
    EncoderSettings, FormatSetting, FramePlan, OfferedFrame, PacketError, RequestError,
};
use crate::codec::text::{
    all_digits, digits_value, lowercase, lowered, number_of, position, unsigned_part,
};
use crate::frame::unpack::{plane_of, unpack_refused};
use crate::frame::{
    holds_image, layout_of, packed_format, FrameError, PackedFormat, PackedFrame,
};
use crate::image::{DecodedImage, ImageView};
use crate::jp2;
use crate::jp2::container::begins_as_jp2;
use crate::jp2::types::HeaderView;
use crate::Error;

verus! {

/// Whether the text of an option turns it on.
pub open spec fn turned_on(texts: Map<OptionKey, Seq<char>>, k: OptionKey) -> bool {
    texts.contains_key(k) && (texts[k] == seq!['t', 'r', 'u', 'e'] || texts[k] == seq!['1']
        || texts[k] == seq!['y', 'e', 's'])
}

/// Whether the text of an option turns it off.
pub open spec fn turned_off(texts: Map<OptionKey, Seq<char>>, k: OptionKey) -> bool {
    texts.contains_key(k) && (texts[k] == seq!['f', 'a', 'l', 's', 'e'] || texts[k] == seq!['0']
        || texts[k] == seq!['n', 'o'])
}

/// The letters of the words for on and off.
proof fn lemma_switch_words()
    ensures
        "true"@ == seq!['t', 'r', 'u', 'e'],
        "1"@ == seq!['1'],
        "yes"@ == seq!['y', 'e', 's'],
        "false"@ == seq!['f', 'a', 'l', 's', 'e'],
        "0"@ == seq!['0'],
        "no"@ == seq!['n', 'o'],
{
    reveal_strlit("true");
    reveal_strlit("1");
    reveal_strlit("yes");
    reveal_strlit("false");
    reveal_strlit("0");
    reveal_strlit("no");
    assert("true"@ =~= seq!['t', 'r', 'u', 'e']);
    assert("1"@ =~= seq!['1']);
    assert("yes"@ =~= seq!['y', 'e', 's']);
    assert("false"@ =~= seq!['f', 'a', 'l', 's', 'e']);
    assert("0"@ =~= seq!['0']);
    assert("no"@ =~= seq!['n', 'o']);
}

/// What a switch is read as.
proof fn lemma_switch(texts: Map<OptionKey, Seq<char>>, k: OptionKey)
    ensures
        switch(texts, k) == Reading::Is(true) <==> turned_on(texts, k),
        switch(texts, k) == Reading::Is(false) <==> turned_off(texts, k),
        switch(texts, k) == Reading::<bool>::Unset <==> !texts.contains_key(k),
        switch(texts, k) is Invalid <==> texts.contains_key(k) && !turned_on(texts, k)
            && !turned_off(texts, k),
{
    lemma_switch_words();
    if texts.contains_key(k) {
        let s = texts[k];
        if turned_off(texts, k) {
            assert(s[0] == 'f' || s[0] == '0' || s[0] == 'n');
            assert(s != "true"@ && s != "1"@ && s != "yes"@) by {
                if s == "true"@ {
                    assert(s[0] == 't');
                }
                if s == "1"@ {
                    assert(s[0] == '1');
                }
                if s == "yes"@ {
                    assert(s[0] == 'y');
                }
            }
        }
    }
}

/// Each switch of the parameters is what the option of its own name says, and off where
/// that is not set: `ht` the high-throughput coder, `plt` packet lengths, `tlm` tile-part
/// lengths, `sop` and `eph` the marks of packets.
pub proof fn law_switches(
    texts: Map<OptionKey, Seq<char>>,
    bit_rate: Option<u64>,
    frame_rate: Option<FrameRate>,
    components: usize,
)
    ensures
        ({
            let p = selected(texts, bit_rate, frame_rate, components);
            &&& p.high_throughput <==> turned_on(texts, OptionKey::Ht)
            &&& p.plt <==> turned_on(texts, OptionKey::Plt)
            &&& p.tlm <==> turned_on(texts, OptionKey::Tlm)
            &&& p.sop <==> turned_on(texts, OptionKey::Sop)
            &&& p.eph <==> turned_on(texts, OptionKey::Eph)
        }),
{
    lemma_switch(texts, OptionKey::Ht);
    lemma_switch(texts, OptionKey::Plt);
    lemma_switch(texts, OptionKey::Tlm);
    lemma_switch(texts, OptionKey::Sop);
    lemma_switch(texts, OptionKey::Eph);
}

/// The coding is reversible unless `lossless` is turned off. `fine_bits` matters for
/// irreversible coding only, where 6 stands for it if it is not set. Components are
/// transformed where there are three or more.
pub proof fn law_kernel(
    texts: Map<OptionKey, Seq<char>>,
    bit_rate: Option<u64>,
    frame_rate: Option<FrameRate>,
    components: usize,
    psnr_valid: bool,
)
    requires
        first_invalid(texts, psnr_valid) is None,
    ensures
        ({
            let p = selected(texts, bit_rate, frame_rate, components);
            &&& p.mct <==> components >= 3
            &&& match p.kernel {
                EncodeKernel::Lossless5x3 => !turned_off(texts, OptionKey::Lossless),
                EncodeKernel::Lossy9x7 { fine_bits } => {
                    &&& turned_off(texts, OptionKey::Lossless)
                    &&& !texts.contains_key(OptionKey::FineBits) ==> fine_bits == 6
                    &&& texts.contains_key(OptionKey::FineBits) ==> number_of(
                        texts[OptionKey::FineBits],
                        255,
                    ) == Some(fine_bits as nat)
                },
            }
        }),
{
    lemma_switch(texts, OptionKey::Lossless);
    lemma_number_bound(texts, OptionKey::FineBits, 255);
}

/// A number that is read is within its bound.
proof fn lemma_number_bound(texts: Map<OptionKey, Seq<char>>, k: OptionKey, max: nat)
    ensures
        number(texts, k, max) matches Reading::Is(n) ==> n <= max && number_of(texts[k], max)
            == Some(n) && texts.contains_key(k),
        number(texts, k, max) == Reading::<nat>::Unset <==> !texts.contains_key(k),
        number(texts, k, max) is Invalid <==> texts.contains_key(k) && number_of(texts[k], max)
            is None,
{
}

/// Levels, layers, size, order, tiles and comment are each what the option of its own name
/// says, and nothing where that is not set.
pub proof fn law_values(
    texts: Map<OptionKey, Seq<char>>,
    bit_rate: Option<u64>,
    frame_rate: Option<FrameRate>,
    components: usize,
    psnr_valid: bool,
)
    requires
        first_invalid(texts, psnr_valid) is None,
    ensures
        ({
            let p = selected(texts, bit_rate, frame_rate, components);
            &&& match p.decomposition_levels {
                Some(n) => texts.contains_key(OptionKey::Levels) && number_of(
                    texts[OptionKey::Levels],
                    255,
                ) == Some(n as nat),
                None => !texts.contains_key(OptionKey::Levels),
            }
            &&& match p.layers {
                Some(n) => texts.contains_key(OptionKey::Layers) && number_of(
                    texts[OptionKey::Layers],
                    65535,
                ) == Some(n as nat),
                None => !texts.contains_key(OptionKey::Layers),
            }
            &&& match p.progression {
                Some(o) => texts.contains_key(OptionKey::Progression) && progression_of(
                    texts[OptionKey::Progression],
                ) == Some(o),
                None => !texts.contains_key(OptionKey::Progression),
            }
            &&& match p.tile_size {
                Some(t) => texts.contains_key(OptionKey::Tile) && tile_of(texts[OptionKey::Tile])
                    == Some(t),
                None => !texts.contains_key(OptionKey::Tile),
            }
            &&& match p.comment {
                Some(s) => texts.contains_key(OptionKey::Comment) && texts[OptionKey::Comment] == s,
                None => !texts.contains_key(OptionKey::Comment),
            }
            &&& texts.contains_key(OptionKey::TargetBytes) ==> p.target_bytes is Some && number_of(
                texts[OptionKey::TargetBytes],
                usize::MAX as nat,
            ) == Some(p.target_bytes->0 as nat)
            &&& !texts.contains_key(OptionKey::TargetBytes) ==> (p.target_bytes is Some
                <==> bit_rate is Some)
        }),
{
    lemma_number_bound(texts, OptionKey::Levels, 255);
    lemma_number_bound(texts, OptionKey::Layers, 65535);
    lemma_number_bound(texts, OptionKey::TargetBytes, usize::MAX as nat);
}

/// Setting an option changes no parameter but its own.
pub proof fn law_own_parameter(
    texts: Map<OptionKey, Seq<char>>,
    bit_rate: Option<u64>,
    frame_rate: Option<FrameRate>,
    components: usize,
    k: OptionKey,
    text: Seq<char>,
)
    ensures
        ({
            let p = selected(texts, bit_rate, frame_rate, components);
            let q = selected(texts.insert(k, text), bit_rate, frame_rate, components);
            &&& q.mct == p.mct
            &&& k != OptionKey::Lossless && k != OptionKey::FineBits ==> q.kernel == p.kernel
            &&& k != OptionKey::Levels ==> q.decomposition_levels == p.decomposition_levels
            &&& k != OptionKey::Layers ==> q.layers == p.layers
            &&& k != OptionKey::Progression ==> q.progression == p.progression
            &&& k != OptionKey::Tile ==> q.tile_size == p.tile_size
            &&& k != OptionKey::TargetBytes ==> q.target_bytes == p.target_bytes
            &&& k != OptionKey::Ht ==> q.high_throughput == p.high_throughput
            &&& k != OptionKey::Plt ==> q.plt == p.plt
            &&& k != OptionKey::Tlm ==> q.tlm == p.tlm
            &&& k != OptionKey::Sop ==> q.sop == p.sop
            &&& k != OptionKey::Eph ==> q.eph == p.eph
            &&& k != OptionKey::Comment ==> q.comment == p.comment
            &&& k != OptionKey::Container ==> container(texts.insert(k, text)) == container(texts)
        }),
{
    let more = texts.insert(k, text);
    assert forall|j: OptionKey| j != k implies #[trigger] value_of(more, j) == value_of(
        texts,
        j,
    ) by {}
    assert(k != OptionKey::Lossless ==> value_of(more, OptionKey::Lossless) == value_of(
        texts,
        OptionKey::Lossless,
    ));
}

/// The name of every option, letter by letter.
pub proof fn law_option_names(k: OptionKey)
    ensures
        key_name(k) == match k {
            OptionKey::Lossless => seq!['l', 'o', 's', 's', 'l', 'e', 's', 's'],
            OptionKey::FineBits => seq!['f', 'i', 'n', 'e', '_', 'b', 'i', 't', 's'],
            OptionKey::Levels => seq!['l', 'e', 'v', 'e', 'l', 's'],
            OptionKey::Layers => seq!['l', 'a', 'y', 'e', 'r', 's'],
            OptionKey::Progression => seq!['p', 'r', 'o', 'g', 'r', 'e', 's', 's', 'i', 'o', 'n'],
            OptionKey::Tile => seq!['t', 'i', 'l', 'e'],
            OptionKey::Psnr => seq!['p', 's', 'n', 'r'],
            OptionKey::TargetBytes => {
                seq!['t', 'a', 'r', 'g', 'e', 't', '_', 'b', 'y', 't', 'e', 's']
            },
            OptionKey::Ht => seq!['h', 't'],
            OptionKey::Plt => seq!['p', 'l', 't'],
            OptionKey::Tlm => seq!['t', 'l', 'm'],
            OptionKey::Sop => seq!['s', 'o', 'p'],
            OptionKey::Eph => seq!['e', 'p', 'h'],
            OptionKey::Comment => seq!['c', 'o', 'm', 'm', 'e', 'n', 't'],
            OptionKey::Container => seq!['c', 'o', 'n', 't', 'a', 'i', 'n', 'e', 'r'],
        },
{
    reveal_strlit("lossless");
    reveal_strlit("fine_bits");
    reveal_strlit("levels");
    reveal_strlit("layers");
    reveal_strlit("progression");
    reveal_strlit("tile");
    reveal_strlit("psnr");
    reveal_strlit("target_bytes");
    reveal_strlit("ht");
    reveal_strlit("plt");
    reveal_strlit("tlm");
    reveal_strlit("sop");
    reveal_strlit("eph");
    reveal_strlit("comment");
    reveal_strlit("container");
    match k {
        OptionKey::Lossless => {
            assert(key_name(k) =~= seq!['l', 'o', 's', 's', 'l', 'e', 's', 's']);
        },
        OptionKey::FineBits => {
            assert(key_name(k) =~= seq!['f', 'i', 'n', 'e', '_', 'b', 'i', 't', 's']);
        },
        OptionKey::Levels => {
            assert(key_name(k) =~= seq!['l', 'e', 'v', 'e', 'l', 's']);
        },
        OptionKey::Layers => {
            assert(key_name(k) =~= seq!['l', 'a', 'y', 'e', 'r', 's']);
        },
        OptionKey::Progression => {
            assert(key_name(k)
                =~= seq!['p', 'r', 'o', 'g', 'r', 'e', 's', 's', 'i', 'o', 'n']);
        },
        OptionKey::Tile => {
            assert(key_name(k) =~= seq!['t', 'i', 'l', 'e']);
        },
        OptionKey::Psnr => {
            assert(key_name(k) =~= seq!['p', 's', 'n', 'r']);
        },
        OptionKey::TargetBytes => {
            assert(key_name(k)
                =~= seq!['t', 'a', 'r', 'g', 'e', 't', '_', 'b', 'y', 't', 'e', 's']);
        },
        OptionKey::Ht => {
            assert(key_name(k) =~= seq!['h', 't']);
        },
        OptionKey::Plt => {
            assert(key_name(k) =~= seq!['p', 'l', 't']);
        },
        OptionKey::Tlm => {
            assert(key_name(k) =~= seq!['t', 'l', 'm']);
        },
        OptionKey::Sop => {
            assert(key_name(k) =~= seq!['s', 'o', 'p']);
        },
        OptionKey::Eph => {
            assert(key_name(k) =~= seq!['e', 'p', 'h']);
        },
        OptionKey::Comment => {
            assert(key_name(k) =~= seq!['c', 'o', 'm', 'm', 'e', 'n', 't']);
        },
        OptionKey::Container => {
            assert(key_name(k) =~= seq!['c', 'o', 'n', 't', 'a', 'i', 'n', 'e', 'r']);
        },
    }
}

/// An option of a bag is found under its name, and no other entry matters.
pub proof fn law_options_by_name(entries: Map<Seq<char>, Seq<char>>, k: OptionKey)
    ensures
        known_options(entries).contains_key(k) <==> entries.contains_key(key_name(k)),
        entries.contains_key(key_name(k)) ==> known_options(entries)[k] == entries[key_name(k)],
{
}

/// Digits are read in tens: one more digit takes a number ten times on and adds its own
/// value. A number is at most its bound.
pub proof fn law_numbers(s: Seq<char>, c: char, max: nat)
    ensures
        number_of(Seq::empty(), max) is None,
        ({
            let d = c as nat - '0' as nat;
            &&& number_of(seq![c], max) == if '0' <= c <= '9' && d <= max {
                Some(d as nat)
            } else {
                None
            }
            &&& number_of(s, max) matches Some(v) ==> number_of(s.push(c), max) == (if '0' <= c
                <= '9' && 10 * v + d <= max {
                Some((10 * v + d) as nat)
            } else {
                None
            })
        }),
{
    let one = seq![c];
    assert(one.drop_last() =~= Seq::empty());
    reveal_with_fuel(digits_value, 2);
    if c == '+' {
        assert(one.skip(1) =~= Seq::empty());
    } else {
        assert(unsigned_part(one) == one);
        assert(one[0] == c);
        if '0' <= c <= '9' {
            assert(all_digits(one));
        }
    }
    if number_of(s, max) is Some {
        let digits = unsigned_part(s);
        let more = s.push(c);
        assert(more[0] == s[0]);
        assert(unsigned_part(more) =~= digits.push(c));
        let t = digits.push(c);
        assert(t.drop_last() =~= digits);
        assert(t[t.len() - 1] == c);
        if '0' <= c <= '9' {
            assert forall|i: int| 0 <= i < t.len() implies '0' <= #[trigger] t[i] <= '9' by {
                if i < digits.len() {
                    assert(t[i] == digits[i]);
                }
            }
        }
    }
}

/// A plus sign in front of a number does not matter; a second one, or any sign that is not
/// a digit, spoils it.
pub proof fn law_number_sign(s: Seq<char>, max: nat)
    ensures
        number_of(seq!['+'] + s, max) is Some <==> number_of(s, max) is Some && s[0] != '+',
        s.len() > 0 && s[0] != '+' ==> number_of(seq!['+'] + s, max) == number_of(s, max),
        number_of(s, max) is Some ==> forall|i: int|
            0 < i < s.len() ==> '0' <= #[trigger] s[i] <= '9',
        number_of(s, max) is Some ==> s[0] == '+' || '0' <= s[0] <= '9',
{
    let t = seq!['+'] + s;
    assert(t[0] == '+');
    assert(t.skip(1) =~= s);
    let digits = unsigned_part(s);
    if s.len() > 0 && s[0] == '+' {
        assert(!all_digits(s));
    }
    if number_of(s, max) is Some {
        assert forall|i: int| 0 < i < s.len() implies '0' <= #[trigger] s[i] <= '9' by {
            if s[0] == '+' {
                assert(digits[i - 1] == s[i]);
            } else {
                assert(digits[i] == s[i]);
            }
        }
        if s[0] != '+' {
            assert(digits[0] == s[0]);
        }
    }
}

/// Whether a character is a letter, small or capital.
pub open spec fn is_letter(c: char, small: char, capital: char) -> bool {
    c == small || c == capital
}

/// An order of packets is named by four letters, small or capital.
pub proof fn law_progression_names(s: Seq<char>)
    ensures
        ({
            let o = progression_of(s);
            let is_l = |i: int| is_letter(s[i], 'l', 'L');
            let is_r = |i: int| is_letter(s[i], 'r', 'R');
            let is_c = |i: int| is_letter(s[i], 'c', 'C');
            let is_p = |i: int| is_letter(s[i], 'p', 'P');
            &&& o is Some ==> s.len() == 4
            &&& s.len() == 4 ==> {
                &&& o == Some(ProgressionOrder::Lrcp) <==> is_l(0) && is_r(1) && is_c(2) && is_p(3)
                &&& o == Some(ProgressionOrder::Rlcp) <==> is_r(0) && is_l(1) && is_c(2) && is_p(3)
                &&& o == Some(ProgressionOrder::Rpcl) <==> is_r(0) && is_p(1) && is_c(2) && is_l(3)
                &&& o == Some(ProgressionOrder::Pcrl) <==> is_p(0) && is_c(1) && is_r(2) && is_l(3)
                &&& o == Some(ProgressionOrder::Cprl) <==> is_c(0) && is_p(1) && is_r(2) && is_l(3)
            }
        }),
{
    reveal_strlit("lrcp");
    reveal_strlit("rlcp");
    reveal_strlit("rpcl");
    reveal_strlit("pcrl");
    reveal_strlit("cprl");
    assert("lrcp"@ =~= seq!['l', 'r', 'c', 'p']);
    assert("rlcp"@ =~= seq!['r', 'l', 'c', 'p']);
    assert("rpcl"@ =~= seq!['r', 'p', 'c', 'l']);
    assert("pcrl"@ =~= seq!['p', 'c', 'r', 'l']);
    assert("cprl"@ =~= seq!['c', 'p', 'r', 'l']);
    let name = lowercase(s);
    assert forall|i: int| 0 <= i < s.len() implies {
        &&& (#[trigger] name[i] == 'l') == is_letter(s[i], 'l', 'L')
        &&& (name[i] == 'r') == is_letter(s[i], 'r', 'R')
        &&& (name[i] == 'c') == is_letter(s[i], 'c', 'C')
        &&& (name[i] == 'p') == is_letter(s[i], 'p', 'P')
    } by {
        lemma_lowered(s[i]);
    }
    if s.len() == 4 {
        lemma_word(name, "lrcp"@);
        lemma_word(name, "rlcp"@);
        lemma_word(name, "rpcl"@);
        lemma_word(name, "pcrl"@);
        lemma_word(name, "cprl"@);
    }
}

/// Two words of four letters are equal if their letters are.
proof fn lemma_word(a: Seq<char>, b: Seq<char>)
    requires
        a.len() == 4,
        b.len() == 4,
    ensures
        a == b <==> a[0] == b[0] && a[1] == b[1] && a[2] == b[2] && a[3] == b[3],
{
    if a[0] == b[0] && a[1] == b[1] && a[2] == b[2] && a[3] == b[3] {
        assert(a =~= b);
    }
}

/// What becomes of the letters that name orders.
proof fn lemma_lowered(c: char)
    ensures
        (lowered(c) == 'l') == is_letter(c, 'l', 'L'),
        (lowered(c) == 'r') == is_letter(c, 'r', 'R'),
        (lowered(c) == 'c') == is_letter(c, 'c', 'C'),
        (lowered(c) == 'p') == is_letter(c, 'p', 'P'),
{
}

/// The size of tiles is written as width, `x`, height, the first `x` standing between.
pub proof fn law_tile_written(w: Seq<char>, h: Seq<char>)
    requires
        forall|i: int| 0 <= i < w.len() ==> #[trigger] w[i] != 'x',
    ensures
        ({
            let t = tile_of(w + seq!['x'] + h);
            let width = number_of(w, 0xFFFF_FFFF);
            let height = number_of(h, 0xFFFF_FFFF);
            &&& t is Some <==> width is Some && height is Some
            &&& t is Some ==> t->0.width == width->0 && t->0.height == height->0
        }),
        tile_of(w) is None,
{
    let s = w + seq!['x'] + h;
    lemma_position(s, w.len() as int, 0);
    assert(s.take(w.len() as int) =~= w);
    assert(s.skip(w.len() as int + 1) =~= h);
    lemma_no_position(w, 0);
}

/// The place of the first `x`.
proof fn lemma_position(s: Seq<char>, p: int, from: int)
    requires
        0 <= from <= p < s.len(),
        s[p] == 'x',
        forall|i: int| 0 <= i < p ==> #[trigger] s[i] != 'x',
    ensures
        position(s, 'x', from) == Some(p),
    decreases p - from,
{
    if from < p {
        lemma_position(s, p, from + 1);
    }
}

/// Where there is no `x` none is found.
proof fn lemma_no_position(s: Seq<char>, from: int)
    requires
        0 <= from,
        forall|i: int| 0 <= i < s.len() ==> #[trigger] s[i] != 'x',
    ensures
        position(s, 'x', from) is None,
    decreases s.len() - from,
{
    if from < s.len() {
        lemma_no_position(s, from + 1);
    }
}

/// A file is made for `jp2` and `jph`, a bare codestream for `j2k` and `j2c`; nothing else
/// has a meaning.
pub proof fn law_container_names(s: Seq<char>)
    ensures
        container_of(s) == Some(true) <==> s == seq!['j', 'p', '2'] || s == seq!['j', 'p', 'h'],
        container_of(s) == Some(false) <==> s == seq!['j', '2', 'k'] || s == seq!['j', '2', 'c'],
{
    reveal_strlit("j2k");
    reveal_strlit("j2c");
    reveal_strlit("jp2");
    reveal_strlit("jph");
    assert("j2k"@ =~= seq!['j', '2', 'k']);
    assert("j2c"@ =~= seq!['j', '2', 'c']);
    assert("jp2"@ =~= seq!['j', 'p', '2']);
    assert("jph"@ =~= seq!['j', 'p', 'h']);
    if s == seq!['j', 'p', '2'] || s == seq!['j', 'p', 'h'] {
        assert(s[1] == 'p');
        assert(s != "j2k"@ && s != "j2c"@) by {
            assert("j2k"@[1] == '2' && "j2c"@[1] == '2');
        }
    }
}

/// The place of an option in the order in which they are checked.
pub open spec fn check_rank(k: OptionKey) -> int {
    match k {
        OptionKey::Lossless => 0,
        OptionKey::FineBits => 1,
        OptionKey::Levels => 2,
        OptionKey::Layers => 3,
        OptionKey::Progression => 4,
        OptionKey::Tile => 5,
        OptionKey::Psnr => 6,
        OptionKey::TargetBytes => 7,
        OptionKey::Ht => 8,
        OptionKey::Plt => 9,
        OptionKey::Tlm => 10,
        OptionKey::Sop => 11,
        OptionKey::Eph => 12,
        OptionKey::Comment | OptionKey::Container => 13,
    }
}

/// Whether an option, if it is set, has a text that means something. The text of
/// `fine_bits` is not looked at where the coding is reversible.
pub open spec fn has_meaning(
    texts: Map<OptionKey, Seq<char>>,
    k: OptionKey,
    psnr_valid: bool,
) -> bool {
    !texts.contains_key(k) || match k {
        OptionKey::FineBits => !turned_off(texts, OptionKey::Lossless) || number_of(
            texts[k],
            255,
        ) is Some,
        OptionKey::Levels => number_of(texts[k], 255) is Some,
        OptionKey::Layers => number_of(texts[k], 65535) is Some,
        OptionKey::Progression => progression_of(texts[k]) is Some,
        OptionKey::Tile => tile_of(texts[k]) is Some,
        OptionKey::Psnr => psnr_valid,
        OptionKey::TargetBytes => number_of(texts[k], usize::MAX as nat) is Some,
        OptionKey::Comment | OptionKey::Container => true,
        _ => turned_on(texts, k) || turned_off(texts, k),
    }
}

/// The option that is refused is the first one, in the order of checking, whose text means
/// nothing. Where there is none, every option means something.
pub proof fn law_refused_option(texts: Map<OptionKey, Seq<char>>, psnr_valid: bool)
    ensures
        match first_invalid(texts, psnr_valid) {
            Some(k) => {
                &&& !has_meaning(texts, k, psnr_valid)
                &&& forall|j: OptionKey|
                    check_rank(j) < check_rank(k) ==> #[trigger] has_meaning(texts, j, psnr_valid)
            },
            None => forall|j: OptionKey| #[trigger] has_meaning(texts, j, psnr_valid),
        },
{
    lemma_switch(texts, OptionKey::Lossless);
    lemma_switch(texts, OptionKey::Ht);
    lemma_switch(texts, OptionKey::Plt);
    lemma_switch(texts, OptionKey::Tlm);
    lemma_switch(texts, OptionKey::Sop);
    lemma_switch(texts, OptionKey::Eph);
}

/// Without a size in bytes, a bit rate gives one: the whole bytes of a second, or of a
/// frame where a frame rate is set.
pub proof fn law_budget(
    texts: Map<OptionKey, Seq<char>>,
    bit_rate: u64,
    frame_rate: Option<FrameRate>,
)
    requires
        !texts.contains_key(OptionKey::TargetBytes),
        frame_rate matches Some(r) ==> r.num > 0 && r.den > 0 && bit_rate * r.den / r.num as int
            <= usize::MAX,
        bit_rate <= usize::MAX,
    ensures
        ({
            let b = byte_budget(texts, Some(bit_rate), frame_rate);
            &&& b is Some
            &&& frame_rate is None ==> 8 * b->0 <= bit_rate < 8 * b->0 + 8
            &&& frame_rate matches Some(r) ==> 8 * b->0 * r.num <= bit_rate * r.den < (8 * b->0
                + 8) * r.num
        }),
{
    lemma_number_bound(texts, OptionKey::TargetBytes, usize::MAX as nat);
    let n = bits_per_frame(bit_rate, frame_rate);
    let b = byte_budget(texts, Some(bit_rate), frame_rate)->0 as int;
    match frame_rate {
        Some(r) => {
            let x = bit_rate as int * r.den as int;
            let num = r.num as int;
            assert(0 <= x) by (nonlinear_arith)
                requires
                    x == bit_rate as int * r.den as int,
                    bit_rate >= 0,
                    r.den > 0,
            ;
            vstd::arithmetic::div_mod::lemma_fundamental_div_mod(x, num);
            assert(0 <= x / num) by (nonlinear_arith)
                requires
                    0 <= x,
                    num > 0,
            ;
            vstd::arithmetic::div_mod::lemma_small_mod((x / num) as nat, 0x1_0000_0000_0000_0000);
            assert(n == x / num);
            assert(8 * b <= n < 8 * b + 8);
            assert(8 * b * num <= x < (8 * b + 8) * num) by (nonlinear_arith)
                requires
                    8 * b <= n,
                    n + 1 <= 8 * b + 8,
                    x == num * n + x % num,
                    0 <= x % num < num,
                    num > 0,
            ;
        },
        None => {},
    }
}

/// A frame is refused for the first thing that is wrong: that a packet waits, that it is no
/// video, that the size is not known, that there is not one plane, that the layout is not
/// packed. What is accepted has the size and the layout that are set.
pub proof fn law_frames_taken(
    busy: bool,
    settings: EncoderSettings,
    frame: OfferedFrame<'_>,
    texts: Map<OptionKey, Seq<char>>,
    psnr_valid: bool,
)
    ensures
        ({
            let r = frame_checked(busy, settings, frame, texts, psnr_valid);
            let free = !busy && frame.is_video;
            let sized = settings.width is Some && settings.height is Some && settings.width->0 > 0
                && settings.height->0 > 0;
            &&& r == Err::<(u32, u32, PackedFormat), _>(RequestError::Busy) <==> busy
            &&& r == Err::<(u32, u32, PackedFormat), _>(RequestError::NotVideo) <==> !busy
                && !frame.is_video
            &&& r == Err::<(u32, u32, PackedFormat), _>(RequestError::NoSize) <==> free && !sized
            &&& r == Err::<(u32, u32, PackedFormat), _>(RequestError::NoPlanes) <==> free && sized
                && frame.plane_count == 0
            &&& r == Err::<(u32, u32, PackedFormat), _>(RequestError::ManyPlanes) <==> free && sized
                && frame.plane_count > 1
            &&& r == Err::<(u32, u32, PackedFormat), _>(RequestError::NotPacked) <==> free && sized
                && frame.plane_count == 1 && settings.format is Other
            &&& r matches Ok((w, h, f)) ==> {
                &&& settings.width == Some(w)
                &&& settings.height == Some(h)
                &&& settings.format matches FormatSetting::Packed(g) ==> f == g
                &&& first_invalid(texts, psnr_valid) is None
                &&& texts.contains_key(OptionKey::Container) ==> container_of(
                    texts[OptionKey::Container],
                ) is Some
            }
        }),
{
}

/// What is made is a file if and only if `container` asks for one.
pub proof fn law_container_chosen(texts: Map<OptionKey, Seq<char>>)
    ensures
        container(texts).or(false) <==> texts.contains_key(OptionKey::Container) && container_of(
            texts[OptionKey::Container],
        ) == Some(true),
        container(texts) is Invalid <==> texts.contains_key(OptionKey::Container) && container_of(
            texts[OptionKey::Container],
        ) is None,
{
}

/// What does not begin as a file is a codestream, and its image is shown as it is. The
/// codestream of a file lies in it where its container says.
pub proof fn law_packet_content(data: Seq<u8>, image: ImageView)
    ensures
        !begins_as_jp2(data) ==> codestream_in(data) == Ok::<_, Error>(
            (data, None::<HeaderView>),
        ),
        shown_image(None, image) == Ok::<ImageView, Error>(image),
        begins_as_jp2(data) ==> (codestream_in(data) is Ok <==> jp2::container::container_of(
            data,
        ) is Ok),
        begins_as_jp2(data) ==> (jp2::container::container_of(data) matches Ok(c) ==> codestream_in(
            data,
        )->Ok_0.1 == Some(c.header) && (0 <= c.codestream_offset && 0 <= c.codestream_len
            && c.codestream_offset + c.codestream_len <= data.len() ==> codestream_in(
            data,
        )->Ok_0.0.len() == c.codestream_len && forall|i: int|
            0 <= i < c.codestream_len ==> #[trigger] codestream_in(data)->Ok_0.0[i]
                == data[c.codestream_offset + i])),
{
}

/// Of a frame with one packed plane first its length is checked, then the options, then the
/// container, and last the samples.
pub proof fn law_pixels_refused(
    frame: OfferedFrame<'_>,
    texts: Map<OptionKey, Seq<char>>,
    psnr_valid: bool,
    width: u32,
    height: u32,
    f: PackedFormat,
)
    ensures
        ({
            let l = layout_of(f);
            let refused = unpack_refused(frame.data@, frame.stride as int, width, height, l);
            let short = refused == Some(FrameError::PlaneTooSmall);
            let unknown = texts.contains_key(OptionKey::Container) && container_of(
                texts[OptionKey::Container],
            ) is None;
            match pixels_refused(frame, texts, psnr_valid, width, height, f) {
                Some(RequestError::InvalidOption(k)) => {
                    &&& !short
                    &&& first_invalid(texts, psnr_valid) == Some(k) || first_invalid(
                        texts,
                        psnr_valid,
                    ) is None && unknown && k == OptionKey::Container
                },
                Some(RequestError::Pixels(e)) => {
                    &&& refused == Some(e)
                    &&& short || first_invalid(texts, psnr_valid) is None && !unknown
                },
                Some(_) => false,
                None => refused is None && first_invalid(texts, psnr_valid) is None && !unknown,
            }
        }),
{
    law_container_chosen(texts);
}

/// The plan of a frame has its size and layout, a plane of the size of the frame for each
/// component, and what the options select for that many components.
pub proof fn law_plan(
    plan: FramePlan,
    settings: EncoderSettings,
    frame: OfferedFrame<'_>,
    texts: Map<OptionKey, Seq<char>>,
    width: u32,
    height: u32,
    f: PackedFormat,
)
    requires
        plan_of_frame(plan, settings, frame, texts, width, height, f),
    ensures
        plan.format == f,
        plan.width == width,
        plan.height == height,
        plan.layout == layout_of(f),
        plan.planes@.len() == layout_of(f).components,
        forall|c: int|
            0 <= c < plan.planes@.len() ==> (#[trigger] plan.planes@[c])@.len() == width * height,
        forall|c: int|
            0 <= c < plan.planes@.len() ==> (#[trigger] plan.planes@[c])@ == plane_of(
                frame.data@,
                frame.stride as int,
                width,
                height,
                layout_of(f),
                c,
            ),
        plan.params@ == selected(
            texts,
            settings.bit_rate,
            settings.frame_rate,
            plan.planes@.len() as usize,
        ),
        plan.jp2 <==> texts.contains_key(OptionKey::Container) && container_of(
            texts[OptionKey::Container],
        ) == Some(true),
{
    law_container_chosen(texts);
}

/// Parameters stand for what their fields say.
pub proof fn law_params_fields(p: EncodeParams)
    ensures
        p@.kernel == p.kernel,
        p@.mct == p.mct,
        p@.decomposition_levels == p.decomposition_levels,
        p@.layers == p.layers,
        p@.progression == p.progression,
        p@.tile_size == p.tile_size,
        p@.target_bytes == p.target_bytes,
        p@.high_throughput == p.high_throughput,
        p@.plt == p.plt,
        p@.tlm == p.tlm,
        p@.sop == p.sop,
        p@.eph == p.eph,
        p.comment is None <==> p@.comment is None,
        p.comment matches Some(s) ==> p@.comment == Some(s@),
{
}

/// A packet that cannot be decoded gives the error of its codestream or of its channels,
/// one whose image cannot be packed that of the image; any other gives the image.
pub proof fn law_packet_shown(
    header: Option<HeaderView>,
    decoded: Result<DecodedImage, Error>,
    r: Result<PackedFrame, PacketError>,
)
    requires
        packet_shown(header, decoded, r),
    ensures
        match r {
            Ok(p) => {
                &&& decoded is Ok
                &&& shown_image(header, decoded->Ok_0@) is Ok
                &&& packed_format(shown_image(header, decoded->Ok_0@)->Ok_0) is Ok
                &&& holds_image(
                    p,
                    shown_image(header, decoded->Ok_0@)->Ok_0,
                    packed_format(shown_image(header, decoded->Ok_0@)->Ok_0)->Ok_0,
                )
            },
            Err(PacketError::Codec(e)) => {
                ||| decoded is Err && decoded->Err_0 == e
                ||| decoded is Ok && shown_image(header, decoded->Ok_0@) is Err && shown_image(
                    header,
                    decoded->Ok_0@,
                )->Err_0 == e
            },
            Err(PacketError::Pixels(e)) => {
                &&& decoded is Ok
                &&& shown_image(header, decoded->Ok_0@) is Ok
                &&& packed_format(shown_image(header, decoded->Ok_0@)->Ok_0) is Err
                &&& packed_format(shown_image(header, decoded->Ok_0@)->Ok_0)->Err_0 == e
            },
        },
{
}

/// The bits of a frame are those of a second, divided among its frames, in 64 bits; without
/// a frame rate, or with one that is not positive, they are those of a second.
pub proof fn law_frame_bits(bit_rate: u64, frame_rate: Option<FrameRate>)
    ensures
        frame_rate is None ==> bits_per_frame(bit_rate, frame_rate) == bit_rate,
        frame_rate matches Some(r) ==> {
            &&& r.num <= 0 || r.den <= 0 ==> bits_per_frame(bit_rate, frame_rate) == bit_rate
            &&& r.num > 0 && r.den > 0 ==> exists|k: int|
                #![trigger k * 18446744073709551616]
                bits_per_frame(bit_rate, frame_rate) + k * 18446744073709551616 == bit_rate * r.den
                    / r.num as int
            &&& 0 <= bits_per_frame(bit_rate, frame_rate) < 18446744073709551616
        },
{
    if let Some(r) = frame_rate {
        if r.num > 0 && r.den > 0 {
            let q = bit_rate * r.den / r.num as int;
            vstd::arithmetic::div_mod::lemma_fundamental_div_mod(q, 18446744073709551616);
            let k = q / 18446744073709551616;
            assert(bits_per_frame(bit_rate, frame_rate) + k * 18446744073709551616 == q);
        }
    }
}

/// A size in bytes that a bit rate gives is at most the greatest that can be held.
pub proof fn law_budget_held(
    texts: Map<OptionKey, Seq<char>>,
    bit_rate: u64,
    frame_rate: Option<FrameRate>,
)
    requires
        !texts.contains_key(OptionKey::TargetBytes),
    ensures
        ({
            let bytes = bits_per_frame(bit_rate, frame_rate) / 8;
            let b = byte_budget(texts, Some(bit_rate), frame_rate);
            &&& bytes <= usize::MAX ==> b is Some && b->0 == bytes
            &&& bytes > usize::MAX ==> b == Some(usize::MAX)
        }),
{
    law_frame_bits(bit_rate, frame_rate);
}

} // verus!

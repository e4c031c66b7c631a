//! Making the channels of an image from its components (T.800 §I.5.3.4 to §I.5.3.6).
use vstd::prelude::*;

use crate::image::{
    component_views, copy_component, ComponentView, DecodedComponent, DecodedImage, ImageView,
};
use crate::jp2::types::{
    ChannelDef, CmapEntry, CmapMapping, ColumnView, HeaderView, Jp2Header, PclrColumn,
};
use crate::Error;

verus! {

/// The palette value that a sample selects; a sample outside the palette selects the
/// nearest end.
pub open spec fn looked_up(values: Seq<i32>, sample: i32) -> i32 {
    if sample < 0 {
        values[0]
    } else if sample >= values.len() {
        values[values.len() - 1]
    } else {
        values[sample as int]
    }
}

/// A component mapped through a palette column: the column's bit depth and signedness on
/// the component's grid.
pub open spec fn through_palette(c: ComponentView, column: ColumnView) -> ComponentView {
    ComponentView {
        precision_bits: column.bit_depth,
        is_signed: column.signed,
        samples: Seq::new(c.samples.len(), |i: int| looked_up(column.values, c.samples[i])),
        ..c
    }
}

/// One channel of a component mapping. A column deeper than 32 bits cannot be applied.
pub open spec fn mapped_channel(
    h: HeaderView,
    components: Seq<ComponentView>,
    e: CmapEntry,
) -> Result<ComponentView, Error> {
    if e.component >= components.len() {
        Err(Error::InvalidMarkerLength)
    } else {
        let c = components[e.component as int];
        match e.mapping {
            CmapMapping::Direct => Ok(c),
            CmapMapping::Palette { column } => match h.pclr {
                Some(p) => if column >= p.len() {
                    Err(Error::InvalidMarkerLength)
                } else if p[column as int].bit_depth > 32 {
                    Err(Error::NotImplemented)
                } else {
                    Ok(through_palette(c, p[column as int]))
                },
                None => Err(Error::InvalidMarkerLength),
            },
        }
    }
}

/// The channels of a component mapping from entry `k` on.
pub open spec fn mapped_channels(
    h: HeaderView,
    components: Seq<ComponentView>,
    entries: Seq<CmapEntry>,
    k: nat,
) -> Result<Seq<ComponentView>, Error>
    decreases entries.len() - k,
{
    if k >= entries.len() {
        Ok(Seq::empty())
    } else {
        match mapped_channel(h, components, entries[k as int]) {
            Err(e) => Err(e),
            Ok(c) => match mapped_channels(h, components, entries, k + 1) {
                Err(e) => Err(e),
                Ok(more) => Ok(seq![c] + more),
            },
        }
    }
}

/// The channels: those of the component mapping or, without one, the components.
pub open spec fn channels_of(h: HeaderView, components: Seq<ComponentView>) -> Result<
    Seq<ComponentView>,
    Error,
> {
    match h.cmap {
        Some(entries) => mapped_channels(h, components, entries, 0),
        None => Ok(components),
    }
}

/// The first description of channel `c` from description `k` on.
pub open spec fn first_def(defs: Seq<ChannelDef>, c: int, k: nat) -> Option<ChannelDef>
    decreases defs.len() - k,
{
    if k >= defs.len() {
        None
    } else if defs[k as int].channel == c {
        Some(defs[k as int])
    } else {
        first_def(defs, c, k + 1)
    }
}

/// The number of the colour that channel `c` holds, if it holds one.
pub open spec fn colour_of(defs: Seq<ChannelDef>, c: int) -> Option<u16> {
    match first_def(defs, c, 0) {
        Some(d) => if d.channel_type == ChannelDef::TYPE_COLOUR && 1 <= d.association <= 0xFFFE {
            Some(d.association)
        } else {
            None
        },
        None => None,
    }
}

/// Whether channel `a` is shown before channel `b`: colours in their order before all
/// others, and these in channel order.
pub open spec fn shown_before(defs: Seq<ChannelDef>, a: int, b: int) -> bool {
    match (colour_of(defs, a), colour_of(defs, b)) {
        (Some(x), Some(y)) => x < y || x == y && a < b,
        (Some(_), None) => true,
        (None, Some(_)) => false,
        (None, None) => a < b,
    }
}

/// Puts channel `c` into an order, behind what is shown before it.
pub open spec fn placed(defs: Seq<ChannelDef>, order: Seq<int>, c: int) -> Seq<int>
    decreases order.len(),
{
    if order.len() == 0 || !shown_before(defs, c, order.last()) {
        order.push(c)
    } else {
        placed(defs, order.drop_last(), c).push(order.last())
    }
}

/// The order in which `n` channels are shown.
pub open spec fn presentation_order(defs: Seq<ChannelDef>, n: nat) -> Seq<int>
    decreases n,
{
    if n == 0 {
        Seq::empty()
    } else {
        placed(defs, presentation_order(defs, (n - 1) as nat), n - 1)
    }
}

/// Channels in a given order.
pub open spec fn in_order(channels: Seq<ComponentView>, order: Seq<int>) -> Seq<ComponentView> {
    Seq::new(order.len(), |i: int| channels[order[i]])
}

/// The image whose components are the channels that a JP2 Header describes, in the order
/// in which they are shown.
pub open spec fn mapped_image(h: HeaderView, image: ImageView) -> Result<ImageView, Error> {
    match channels_of(h, image.components) {
        Err(e) => Err(e),
        Ok(channels) => Ok(
            ImageView {
                components: match h.cdef {
                    Some(defs) => in_order(channels, presentation_order(defs, channels.len())),
                    None => channels,
                },
                ..image
            },
        ),
    }
}

/// Every column of the palette has values, and a sample can number them.
pub open spec fn palette_usable(h: HeaderView) -> bool {
    match h.pclr {
        Some(p) => forall|i: int|
            0 <= i < p.len() ==> 1 <= (#[trigger] p[i]).values.len() <= i32::MAX,
        None => true,
    }
}

/// Placing keeps the number of channels growing by one, and where it puts the new one
/// all that stood there stays in its order.
proof fn lemma_placed_insert(defs: Seq<ChannelDef>, order: Seq<int>, c: int, j: int)
    requires
        0 <= j <= order.len(),
        forall|k: int| j <= k < order.len() ==> shown_before(defs, c, #[trigger] order[k]),
        j > 0 ==> !shown_before(defs, c, order[j - 1]),
    ensures
        placed(defs, order, c) == order.insert(j, c),
    decreases order.len(),
{
    if j < order.len() {
        let head = order.drop_last();
        lemma_placed_insert(defs, head, c, j);
        assert(head.insert(j, c).push(order.last()) =~= order.insert(j, c));
    } else {
        assert(order.push(c) =~= order.insert(j, c));
    }
}

/// Where channel `c` goes.
proof fn lemma_placed_is_insert(defs: Seq<ChannelDef>, order: Seq<int>, c: int) -> (j: int)
    ensures
        0 <= j <= order.len(),
        placed(defs, order, c) == order.insert(j, c),
        forall|k: int| j <= k < order.len() ==> shown_before(defs, c, #[trigger] order[k]),
        j > 0 ==> !shown_before(defs, c, order[j - 1]),
    decreases order.len(),
{
    if order.len() == 0 || !shown_before(defs, c, order.last()) {
        assert(order.push(c) =~= order.insert(order.len() as int, c));
        order.len() as int
    } else {
        let head = order.drop_last();
        let j = lemma_placed_is_insert(defs, head, c);
        assert(head.insert(j, c).push(order.last()) =~= order.insert(j, c));
        assert forall|k: int| j <= k < order.len() implies shown_before(
            defs,
            c,
            #[trigger] order[k],
        ) by {
            if k < head.len() {
                assert(order[k] == head[k]);
            }
        }
        j
    }
}

/// The order in which channels are shown has every channel exactly once, and each one
/// before those that it is to be shown before: colour channels come first, in the order
/// of their colours, and the others follow in channel order.
pub proof fn law_presentation_order(defs: Seq<ChannelDef>, n: nat)
    ensures
        presentation_order(defs, n).len() == n,
        forall|c: int| 0 <= c < n ==> #[trigger] presentation_order(defs, n).contains(c),
        forall|i: int|
            0 <= i < n ==> 0 <= #[trigger] presentation_order(defs, n)[i] < n,
        forall|i: int, j: int|
            0 <= i < j < n ==> shown_before(
                defs,
                #[trigger] presentation_order(defs, n)[i],
                #[trigger] presentation_order(defs, n)[j],
            ),
    decreases n,
{
    if n > 0 {
        let before = presentation_order(defs, (n - 1) as nat);
        let after = presentation_order(defs, n);
        let c = n - 1;
        law_presentation_order(defs, (n - 1) as nat);
        let at = lemma_placed_is_insert(defs, before, c);
        assert(after.len() == n);
        assert forall|i: int| 0 <= i < n implies 0 <= #[trigger] after[i] < n by {
            if i < at {
                assert(after[i] == before[i]);
            } else if i > at {
                assert(after[i] == before[i - 1]);
            }
        }
        assert forall|d: int| 0 <= d < n implies #[trigger] after.contains(d) by {
            if d == c {
                assert(after[at] == c);
            } else {
                assert(before.contains(d));
                let k = choose|k: int| 0 <= k < before.len() && before[k] == d;
                if k < at {
                    assert(after[k] == d);
                } else {
                    assert(after[k + 1] == d);
                }
            }
        }
        assert forall|i: int, j: int| 0 <= i < j < n implies shown_before(
            defs,
            #[trigger] after[i],
            #[trigger] after[j],
        ) by {
            let a = if i < at {
                before[i]
            } else if i == at {
                c
            } else {
                before[i - 1]
            };
            let b = if j < at {
                before[j]
            } else if j == at {
                c
            } else {
                before[j - 1]
            };
            assert(after[i] == a && after[j] == b);
            if j == at {
                assert(before[i] < n - 1);
                assert(!shown_before(defs, c, before[at - 1]));
                assert(i < at - 1 ==> shown_before(defs, before[i], before[at - 1]));
            }
        }
    }
}

/// Maps a component through a palette column.
fn map_through_palette(comp: &DecodedComponent, column: &PclrColumn) -> (c: DecodedComponent)
    requires
        1 <= column@.values.len() <= i32::MAX,
    ensures
        c@ == through_palette(comp@, column@),
{
    let n: usize = column.values.len();
    let mut samples: Vec<i32> = Vec::with_capacity(comp.samples.len());
    for i in 0..comp.samples.len()
        invariant
            n == column@.values.len(),
            1 <= n <= i32::MAX,
            samples@ == Seq::new(
                i as nat,
                |k: int| looked_up(column@.values, comp@.samples[k]),
            ),
    {
        let s: i32 = comp.samples[i];
        let v: i32 = if s < 0 {
            column.values[0]
        } else if s as usize >= n {
            column.values[n - 1]
        } else {
            column.values[s as usize]
        };
        samples.push(v);
    }
    DecodedComponent {
        width: comp.width,
        height: comp.height,
        precision_bits: column.bit_depth,
        is_signed: column.signed,
        h_separation: comp.h_separation,
        v_separation: comp.v_separation,
        samples,
    }
}

/// Makes one channel of a component mapping.
fn map_channel(header: &Jp2Header, components: &Vec<DecodedComponent>, e: CmapEntry) -> (r: Result<
    DecodedComponent,
    Error,
>)
    requires
        palette_usable(header@),
    ensures
        match mapped_channel(header@, component_views(components@), e) {
            Ok(v) => r matches Ok(c) && c@ == v,
            Err(err) => r == Err::<DecodedComponent, Error>(err),
        },
{
    let index: usize = e.component as usize;
    if index >= components.len() {
        return Err(Error::InvalidMarkerLength);
    }
    match e.mapping {
        CmapMapping::Direct => Ok(copy_component(&components[index])),
        CmapMapping::Palette { column } => match &header.pclr {
            Some(p) => {
                let k: usize = column as usize;
                assert(header@.pclr == Some(p@));
                if k >= p.columns.len() {
                    return Err(Error::InvalidMarkerLength);
                }
                if p.columns[k].bit_depth > 32 {
                    return Err(Error::NotImplemented);
                }
                assert(1 <= p@[k as int].values.len() <= i32::MAX);
                Ok(map_through_palette(&components[index], &p.columns[k]))
            },
            None => Err(Error::InvalidMarkerLength),
        },
    }
}

/// Makes the channels of a component mapping.
fn map_channels(
    header: &Jp2Header,
    components: &Vec<DecodedComponent>,
    entries: &Vec<CmapEntry>,
) -> (r: Result<Vec<DecodedComponent>, Error>)
    requires
        palette_usable(header@),
    ensures
        match mapped_channels(header@, component_views(components@), entries@, 0) {
            Ok(v) => r matches Ok(c) && component_views(c@) == v,
            Err(e) => r == Err::<Vec<DecodedComponent>, Error>(e),
        },
{
    let ghost views = component_views(components@);
    let ghost goal = mapped_channels(header@, views, entries@, 0);
    let mut out: Vec<DecodedComponent> = Vec::with_capacity(entries.len());
    proof {
        assert(component_views(out@) =~= Seq::empty());
        if goal is Ok {
            assert(component_views(out@) + goal->Ok_0 =~= goal->Ok_0);
        }
    }
    let mut i: usize = 0;
    while i < entries.len()
        invariant
            i <= entries@.len(),
            palette_usable(header@),
            views == component_views(components@),
            goal == mapped_channels(header@, views, entries@, 0),
            match mapped_channels(header@, views, entries@, i as nat) {
                Ok(more) => goal == Ok::<Seq<ComponentView>, Error>(
                    component_views(out@) + more,
                ),
                Err(e) => goal == Err::<Seq<ComponentView>, Error>(e),
            },
        decreases entries@.len() - i,
    {
        let ghost before = component_views(out@);
        match map_channel(header, components, entries[i]) {
            Ok(c) => {
                out.push(c);
                proof {
                    assert(component_views(out@) =~= before.push(c@));
                    let next = mapped_channels(header@, views, entries@, (i + 1) as nat);
                    if next is Ok {
                        assert(before + (seq![c@] + next->Ok_0) =~= before.push(c@) + next->Ok_0);
                    }
                }
            },
            Err(e) => {
                return Err(e);
            },
        }
        i = i + 1;
    }
    assert(component_views(out@) + Seq::empty() =~= component_views(out@));
    Ok(out)
}

/// The number of the colour that channel `c` holds, if it holds one.
fn find_colour(defs: &Vec<ChannelDef>, c: usize) -> (r: Option<u16>)
    ensures
        r == colour_of(defs@, c as int),
{
    let mut k: usize = 0;
    while k < defs.len()
        invariant
            k <= defs@.len(),
            first_def(defs@, c as int, 0) == first_def(defs@, c as int, k as nat),
        decreases defs@.len() - k,
    {
        let d: ChannelDef = defs[k];
        if d.channel as usize == c {
            return if d.channel_type == ChannelDef::TYPE_COLOUR && 1 <= d.association
                && d.association <= 0xFFFE {
                Some(d.association)
            } else {
                None
            };
        }
        k = k + 1;
    }
    None
}

/// Whether channel `a` is shown before channel `b`.
fn goes_before(defs: &Vec<ChannelDef>, a: usize, b: usize) -> (r: bool)
    ensures
        r == shown_before(defs@, a as int, b as int),
{
    match (find_colour(defs, a), find_colour(defs, b)) {
        (Some(x), Some(y)) => x < y || x == y && a < b,
        (Some(_), None) => true,
        (None, Some(_)) => false,
        (None, None) => a < b,
    }
}

/// Channel numbers, as values.
spec fn as_ints(s: Seq<usize>) -> Seq<int> {
    Seq::new(s.len(), |i: int| s[i] as int)
}

/// Puts the channels into the order in which they are shown.
fn order_channels(channels: Vec<DecodedComponent>, defs: &Vec<ChannelDef>) -> (out: Vec<
    DecodedComponent,
>)
    ensures
        component_views(out@) == in_order(
            component_views(channels@),
            presentation_order(defs@, channels@.len()),
        ),
{
    let ghost views = component_views(channels@);
    let n: usize = channels.len();
    let mut order: Vec<usize> = Vec::with_capacity(n);
    let mut out: Vec<DecodedComponent> = Vec::with_capacity(n);
    let mut c: usize = 0;
    assert(as_ints(order@) =~= presentation_order(defs@, 0));
    assert(component_views(out@) =~= in_order(views, presentation_order(defs@, 0)));
    for channel in it: channels
        invariant
            it.seq() == channels@,
            views == component_views(channels@),
            c == it.index(),
            channels@.len() == n,
            order@.len() == c,
            out@.len() == c,
            as_ints(order@) == presentation_order(defs@, c as nat),
            component_views(out@) == in_order(views, presentation_order(defs@, c as nat)),
    {
        let ghost sorted = as_ints(order@);
        let ghost shown = component_views(out@);
        let mut j: usize = c;
        while j > 0 && goes_before(defs, c, order[j - 1])
            invariant
                j <= c,
                order@.len() == c,
                sorted == as_ints(order@),
                forall|k: int|
                    j <= k < sorted.len() ==> shown_before(defs@, c as int, #[trigger] sorted[k]),
            decreases j,
        {
            j = j - 1;
        }
        proof {
            lemma_placed_insert(defs@, sorted, c as int, j as int);
        }
        order.insert(j, c);
        out.insert(j, channel);
        proof {
            let next = presentation_order(defs@, (c + 1) as nat);
            assert(as_ints(order@) =~= sorted.insert(j as int, c as int));
            assert(component_views(out@) =~= shown.insert(j as int, views[c as int]));
            assert(component_views(out@) =~= in_order(views, next));
        }
        c = c + 1;
    }
    out
}

/// Makes the channels of an image from its components.
///
/// With a component mapping, channel `i` is what entry `i` says: a component, or a
/// component through a palette column. With channel definitions, the channels come in the
/// order in which they are shown.
pub fn apply_channel_mapping(header: &Jp2Header, image: DecodedImage) -> (r: Result<
    DecodedImage,
    Error,
>)
    requires
        palette_usable(header@),
    ensures
        match mapped_image(header@, image@) {
            Ok(v) => r matches Ok(i) && i@ == v,
            Err(e) => r == Err::<DecodedImage, Error>(e),
        },
{
    let DecodedImage { width, height, components } = image;
    let channels: Vec<DecodedComponent> = match &header.cmap {
        Some(entries) => match map_channels(header, &components, entries) {
            Ok(v) => v,
            Err(e) => {
                return Err(e);
            },
        },
        None => components,
    };
    let ordered: Vec<DecodedComponent> = match &header.cdef {
        Some(defs) => order_channels(channels, defs),
        None => channels,
    };
    Ok(DecodedImage { width, height, components: ordered })
}

} // verus!

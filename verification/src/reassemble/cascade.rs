//! From sub-bands to resolution levels to a tile-component.
use vstd::prelude::*;

use crate::dwt::Interleaved2D;
use crate::geometry::{ResolutionLevel, SubBand, SubBandOrientation};
use crate::mct::wrap::wrap32;
use crate::reassemble::{assembled, blocks_refused, reassemble_subband, CodedCodeBlock};
use crate::Error;

verus! {

/// Where the decoded code-blocks of a sub-band come from.
pub trait BlockSource<'a> {
    /// The code-blocks of a sub-band. A source that does not say which they are has
    /// some, always the same.
    open spec fn blocks(&self, band: SubBand) -> Seq<CodedCodeBlock<'a>> {
        arbitrary()
    }

    /// The code-blocks of a sub-band, of all precincts.
    fn blocks_for(&self, band: &SubBand) -> (r: &[CodedCodeBlock<'a>])
        ensures
            r@ == self.blocks(*band),
    ;
}

/// The first group from group `i` on whose first code-block is of orientation `o`.
pub open spec fn group_of<'a>(
    groups: Seq<&[CodedCodeBlock<'a>]>,
    o: SubBandOrientation,
    i: nat,
) -> Seq<CodedCodeBlock<'a>>
    decreases groups.len() - i,
{
    if i >= groups.len() {
        Seq::empty()
    } else if groups[i as int]@.len() > 0 && groups[i as int]@[0].coefficients.o() == o {
        groups[i as int]@
    } else {
        group_of(groups, o, i + 1)
    }
}

impl<'a> BlockSource<'a> for &[&[CodedCodeBlock<'a>]] {
    open spec fn blocks(&self, band: SubBand) -> Seq<CodedCodeBlock<'a>> {
        group_of(self@, band.orientation, 0)
    }

    /// The first group that holds code-blocks of the sub-band's orientation, or none.
    fn blocks_for(&self, band: &SubBand) -> (r: &[CodedCodeBlock<'a>]) {
        let mut i: usize = 0;
        while i < self.len()
            invariant
                i <= self@.len(),
                group_of(self@, band.orientation, 0) == group_of(
                    self@,
                    band.orientation,
                    i as nat,
                ),
            decreases self@.len() - i,
        {
            let group: &[CodedCodeBlock<'a>] = self[i];
            if group.len() > 0 && group[0].coefficients.orientation() == band.orientation {
                return group;
            }
            i = i + 1;
        }
        let none: &[CodedCodeBlock<'a>] = &[];
        assert(none@ =~= Seq::empty());
        none
    }
}

/// The coefficients of the sub-bands of a resolution level. What is not there is empty.
#[derive(Debug, PartialEq)]
pub struct ResolutionArrays<T> {
    /// `LL`, row by row.
    pub ll: Vec<T>,
    /// Width and height of `LL`.
    pub ll_dims: (usize, usize),
    /// `HL`, row by row.
    pub hl: Vec<T>,
    /// Width and height of `HL`.
    pub hl_dims: (usize, usize),
    /// `LH`, row by row.
    pub lh: Vec<T>,
    /// Width and height of `LH`.
    pub lh_dims: (usize, usize),
    /// `HH`, row by row.
    pub hh: Vec<T>,
    /// Width and height of `HH`.
    pub hh_dims: (usize, usize),
}

/// The coefficients of a resolution level of the reversible path.
pub type ResolutionArrays5x3 = ResolutionArrays<i32>;

impl<T: Clone> Clone for ResolutionArrays<T> {
    fn clone(&self) -> (a: Self)
        ensures
            forall|o: SubBandOrientation|
                (#[trigger] a.array(o)).len() == self.array(o).len() && a.dims(o) == self.dims(o),
            forall|o: SubBandOrientation, i: int|
                0 <= i < self.array(o).len() ==> cloned::<T>(
                    self.array(o)[i],
                    #[trigger] a.array(o)[i],
                ),
    {
        ResolutionArrays {
            ll: self.ll.clone(),
            ll_dims: self.ll_dims,
            hl: self.hl.clone(),
            hl_dims: self.hl_dims,
            lh: self.lh.clone(),
            lh_dims: self.lh_dims,
            hh: self.hh.clone(),
            hh_dims: self.hh_dims,
        }
    }
}

impl<T> ResolutionArrays<T> {
    /// The coefficients of the sub-band of an orientation.
    pub open spec fn array(self, o: SubBandOrientation) -> Seq<T> {
        match o {
            SubBandOrientation::LL => self.ll@,
            SubBandOrientation::HL => self.hl@,
            SubBandOrientation::LH => self.lh@,
            SubBandOrientation::HH => self.hh@,
        }
    }

    /// Width and height of the sub-band of an orientation.
    pub open spec fn dims(self, o: SubBandOrientation) -> (usize, usize) {
        match o {
            SubBandOrientation::LL => self.ll_dims,
            SubBandOrientation::HL => self.hl_dims,
            SubBandOrientation::LH => self.lh_dims,
            SubBandOrientation::HH => self.hh_dims,
        }
    }

    /// No sub-band.
    fn none() -> (a: Self)
        ensures
            forall|o: SubBandOrientation| (#[trigger] a.array(o)).len() == 0,
            forall|o: SubBandOrientation| #[trigger] a.dims(o) == (0usize, 0usize),
    {
        ResolutionArrays {
            ll: Vec::new(),
            ll_dims: (0, 0),
            hl: Vec::new(),
            hl_dims: (0, 0),
            lh: Vec::new(),
            lh_dims: (0, 0),
            hh: Vec::new(),
            hh_dims: (0, 0),
        }
    }

    /// Puts a sub-band in its place.
    fn put(&mut self, o: SubBandOrientation, array: Vec<T>, dims: (usize, usize))
        ensures
            final(self).array(o) == array@,
            final(self).dims(o) == dims,
            forall|p: SubBandOrientation|
                p != o ==> #[trigger] final(self).array(p) == old(self).array(p),
            forall|p: SubBandOrientation|
                p != o ==> #[trigger] final(self).dims(p) == old(self).dims(p),
    {
        match o {
            SubBandOrientation::LL => {
                self.ll = array;
                self.ll_dims = dims;
            },
            SubBandOrientation::HL => {
                self.hl = array;
                self.hl_dims = dims;
            },
            SubBandOrientation::LH => {
                self.lh = array;
                self.lh_dims = dims;
            },
            SubBandOrientation::HH => {
                self.hh = array;
                self.hh_dims = dims;
            },
        }
    }
}

/// The last of the first `n` sub-bands that is of orientation `o`.
pub open spec fn last_band(bands: Seq<SubBand>, o: SubBandOrientation, n: nat) -> Option<int>
    decreases n,
{
    if n == 0 {
        None
    } else if bands[n - 1].orientation == o {
        Some(n - 1)
    } else {
        last_band(bands, o, (n - 1) as nat)
    }
}

/// The coefficients of a sub-band that may be empty.
pub open spec fn band_array<Q, T, V: Fn(Q, i64, u32) -> T>(
    band: SubBand,
    blocks: Seq<CodedCodeBlock<'_>>,
    q: Q,
    zero: T,
    value: V,
    out: Seq<T>,
) -> bool {
    if band.area() == 0 {
        out.len() == 0
    } else {
        assembled(band, blocks, q, zero, value, out)
    }
}

/// Whether the code-blocks of one of the sub-bands cannot be put together.
pub open spec fn level_refused<'a, S: BlockSource<'a>>(bands: Seq<SubBand>, source: S) -> bool {
    exists|j: int|
        #![trigger bands[j]]
        0 <= j < bands.len() && bands[j].area() > 0 && blocks_refused(
            bands[j],
            source.blocks(bands[j]),
        )
}

/// Whether `array`, of size `dims`, is the last of the first `n` sub-bands of orientation
/// `o`, or empty where there is none.
pub open spec fn slot_filled<'a, S: BlockSource<'a>, Q, T, V: Fn(Q, i64, u32) -> T>(
    bands: Seq<SubBand>,
    source: S,
    params: Seq<Q>,
    zero: T,
    value: V,
    o: SubBandOrientation,
    n: nat,
    array: Seq<T>,
    dims: (usize, usize),
) -> bool {
    match last_band(bands, o, n) {
        Some(j) => {
            &&& dims.0 == bands[j].w()
            &&& dims.1 == bands[j].h()
            &&& band_array(bands[j], source.blocks(bands[j]), params[j], zero, value, array)
        },
        None => array.len() == 0 && dims == (0usize, 0usize),
    }
}

/// Whether `a` holds the sub-bands of a resolution level.
pub open spec fn level_filled<'a, S: BlockSource<'a>, Q, T, V: Fn(Q, i64, u32) -> T>(
    bands: Seq<SubBand>,
    source: S,
    params: Seq<Q>,
    zero: T,
    value: V,
    a: ResolutionArrays<T>,
) -> bool {
    forall|o: SubBandOrientation|
        slot_filled(
            bands,
            source,
            params,
            zero,
            value,
            o,
            bands.len(),
            #[trigger] a.array(o),
            a.dims(o),
        )
}

/// Every sub-band of the level fits the address space.
pub open spec fn bands_fit(bands: Seq<SubBand>) -> bool {
    forall|j: int| 0 <= j < bands.len() ==> (#[trigger] bands[j]).area() <= usize::MAX
}

/// Puts the sub-bands of a resolution level together; `params` has one entry for each.
pub fn reassemble_resolution<'a, S: BlockSource<'a>, Q: Copy, T: Copy, V: Fn(Q, i64, u32) -> T>(
    level: &ResolutionLevel,
    source: &S,
    params: &[Q],
    zero: T,
    value: &V,
) -> (r: Result<ResolutionArrays<T>, Error>)
    requires
        bands_fit(level.sub_bands@),
        forall|q: Q, c: i64, n: u32| call_requires(*value, (q, c, n)),
    ensures
        if params@.len() != level.sub_bands@.len() || level_refused(level.sub_bands@, *source) {
            r == Err::<ResolutionArrays<T>, Error>(Error::InvalidMarkerLength)
        } else {
            r matches Ok(a) && level_filled(level.sub_bands@, *source, params@, zero, *value, a)
        },
{
    let ghost bands = level.sub_bands@;
    if params.len() != level.sub_bands.len() {
        return Err(Error::InvalidMarkerLength);
    }
    let mut out: ResolutionArrays<T> = ResolutionArrays::none();
    let mut j: usize = 0;
    while j < level.sub_bands.len()
        invariant
            j <= bands.len(),
            bands == level.sub_bands@,
            params@.len() == bands.len(),
            bands_fit(bands),
            forall|q: Q, c: i64, n: u32| call_requires(*value, (q, c, n)),
            forall|k: int|
                #![trigger bands[k]]
                0 <= k < j ==> !(bands[k].area() > 0 && blocks_refused(
                    bands[k],
                    source.blocks(bands[k]),
                )),
            forall|o: SubBandOrientation|
                slot_filled(
                    bands,
                    *source,
                    params@,
                    zero,
                    *value,
                    o,
                    j as nat,
                    #[trigger] out.array(o),
                    out.dims(o),
                ),
        decreases bands.len() - j,
    {
        let band: &SubBand = &level.sub_bands[j];
        assert(bands[j as int].area() <= usize::MAX);
        let blocks: &[CodedCodeBlock<'a>] = source.blocks_for(band);
        match reassemble_subband(band, blocks, params[j], zero, value) {
            Ok(array) => {
                let ghost before = out;
                out.put(
                    band.orientation,
                    array,
                    (band.width() as usize, band.height() as usize),
                );
                assert forall|o: SubBandOrientation|
                    slot_filled(
                        bands,
                        *source,
                        params@,
                        zero,
                        *value,
                        o,
                        (j + 1) as nat,
                        #[trigger] out.array(o),
                        out.dims(o),
                    ) by {
                    if o != band.orientation {
                        assert(out.array(o) == before.array(o));
                        assert(out.dims(o) == before.dims(o));
                    }
                }
            },
            Err(e) => {
                assert(level_refused(bands, *source)) by {
                    assert(bands[j as int].area() > 0);
                }
                return Err(e);
            },
        }
        j = j + 1;
    }
    Ok(out)
}

/// Whether `next` is what `sr_2d` makes of `prev` as `LL` and the other sub-bands of a
/// resolution level.
pub open spec fn level_step<
    'a,
    S: BlockSource<'a>,
    Q,
    T,
    V: Fn(Q, i64, u32) -> T,
    R: Fn(&ResolutionArrays<T>, i32, i32) -> Result<Interleaved2D<T>, Error>,
>(
    level: ResolutionLevel,
    source: S,
    params: Seq<Q>,
    zero: T,
    value: V,
    sr_2d: R,
    prev: Interleaved2D<T>,
    next: Result<Interleaved2D<T>, Error>,
) -> bool {
    exists|a: &ResolutionArrays<T>|
        {
            &&& a.ll@ == prev.data@
            &&& a.ll_dims == (prev.width, prev.height)
            &&& forall|o: SubBandOrientation|
                o != SubBandOrientation::LL ==> slot_filled(
                    level.sub_bands@,
                    source,
                    params,
                    zero,
                    value,
                    o,
                    level.sub_bands@.len(),
                    #[trigger] a.array(o),
                    a.dims(o),
                )
            &&& #[trigger] call_ensures(
                sr_2d,
                (a, wrap32(level.trx0 as int), wrap32(level.try0 as int)),
                next,
            )
        }
}

/// Whether resolution level `k` may come out as `x`: at the lowest level the `LL`
/// sub-band, above it what [`level_step`] makes of the level below.
pub open spec fn level_comes_out<
    'a,
    S: BlockSource<'a>,
    Q,
    T,
    V: Fn(Q, i64, u32) -> T,
    R: Fn(&ResolutionArrays<T>, i32, i32) -> Result<Interleaved2D<T>, Error>,
>(
    levels: Seq<ResolutionLevel>,
    source: S,
    params: Seq<Vec<Q>>,
    zero: T,
    value: V,
    sr_2d: R,
    k: nat,
    x: Interleaved2D<T>,
) -> bool
    decreases k,
{
    if k == 0 {
        slot_filled(
            levels[0].sub_bands@,
            source,
            params[0]@,
            zero,
            value,
            SubBandOrientation::LL,
            levels[0].sub_bands@.len(),
            x.data@,
            (x.width, x.height),
        )
    } else {
        exists|prev: Interleaved2D<T>|
            {
                &&& level_comes_out(
                    levels,
                    source,
                    params,
                    zero,
                    value,
                    sr_2d,
                    (k - 1) as nat,
                    prev,
                )
                &&& #[trigger] level_step(
                    levels[k as int],
                    source,
                    params[k as int]@,
                    zero,
                    value,
                    sr_2d,
                    prev,
                    Ok(x),
                )
            }
    }
}

/// Whether resolution level `k` cannot be put together.
pub open spec fn level_unusable<'a, S: BlockSource<'a>, Q>(
    levels: Seq<ResolutionLevel>,
    source: S,
    params: Seq<Vec<Q>>,
    k: int,
) -> bool {
    params[k]@.len() != levels[k].sub_bands@.len() || level_refused(levels[k].sub_bands@, source)
}

/// Whether resolution level `k` cannot come out: it cannot be put together, or `sr_2d`
/// refuses it whatever the level below it is.
pub open spec fn level_fails<
    'a,
    S: BlockSource<'a>,
    Q,
    T,
    V: Fn(Q, i64, u32) -> T,
    R: Fn(&ResolutionArrays<T>, i32, i32) -> Result<Interleaved2D<T>, Error>,
>(
    levels: Seq<ResolutionLevel>,
    source: S,
    params: Seq<Vec<Q>>,
    zero: T,
    value: V,
    sr_2d: R,
    k: int,
) -> bool {
    ||| level_unusable(levels, source, params, k)
    ||| k >= 1 && forall|prev: Interleaved2D<T>, next: Result<Interleaved2D<T>, Error>|
        level_comes_out(levels, source, params, zero, value, sr_2d, (k - 1) as nat, prev)
            && #[trigger] level_step(
            levels[k],
            source,
            params[k]@,
            zero,
            value,
            sr_2d,
            prev,
            next,
        ) ==> next is Err
}

/// Whether the resolution levels below `k` come out and `e` is the error at level `k`:
/// where that level cannot be put together [`Error::InvalidMarkerLength`], else what
/// `sr_2d` gives for it.
pub open spec fn first_failure<
    'a,
    S: BlockSource<'a>,
    Q,
    T,
    V: Fn(Q, i64, u32) -> T,
    R: Fn(&ResolutionArrays<T>, i32, i32) -> Result<Interleaved2D<T>, Error>,
>(
    levels: Seq<ResolutionLevel>,
    source: S,
    params: Seq<Vec<Q>>,
    zero: T,
    value: V,
    sr_2d: R,
    k: int,
    e: Error,
) -> bool {
    &&& forall|i: int|
        #![trigger levels[i]]
        0 <= i < k ==> !level_unusable(levels, source, params, i)
    &&& if level_unusable(levels, source, params, k) {
        &&& e == Error::InvalidMarkerLength
        &&& k == 0 || exists|prev: Interleaved2D<T>|
            #[trigger] level_comes_out(
                levels,
                source,
                params,
                zero,
                value,
                sr_2d,
                (k - 1) as nat,
                prev,
            )
    } else {
        &&& k >= 1
        &&& exists|prev: Interleaved2D<T>|
            {
                &&& #[trigger] level_comes_out(
                    levels,
                    source,
                    params,
                    zero,
                    value,
                    sr_2d,
                    (k - 1) as nat,
                    prev,
                )
                &&& level_step(
                    levels[k],
                    source,
                    params[k]@,
                    zero,
                    value,
                    sr_2d,
                    prev,
                    Err(e),
                )
            }
    }
}

/// An edge as a signed number.
fn signed_edge(v: u32) -> (e: i32)
    ensures
        e == wrap32(v as int),
{
    if v <= 0x7FFF_FFFF {
        proof {
            crate::mct::wrap::lemma_wrap32_unique(v as int, v as i32, 0);
        }
        v as i32
    } else {
        let e: i32 = (v as i64 - 0x1_0000_0000) as i32;
        proof {
            crate::mct::wrap::lemma_wrap32_unique(v as int, e, 1);
        }
        e
    }
}

/// Puts a tile-component together from all its resolution levels (T.800 §F.3.1).
///
/// `levels` are the resolution levels from the lowest on, and `params` has the parameters
/// of the sub-bands of each. `sr_2d` makes the next level from its four sub-bands and the
/// left and upper edge of that level; `LL` is the level before it. Without decomposition
/// levels the `LL` sub-band is the tile-component.
pub fn idwt<
    'a,
    S: BlockSource<'a>,
    Q: Copy,
    T: Copy,
    V: Fn(Q, i64, u32) -> T,
    R: Fn(&ResolutionArrays<T>, i32, i32) -> Result<Interleaved2D<T>, Error>,
>(
    levels: &[ResolutionLevel],
    source: &S,
    params: &[Vec<Q>],
    zero: T,
    value: &V,
    sr_2d: &R,
) -> (r: Result<Interleaved2D<T>, Error>)
    requires
        levels@.len() > 0 && levels@.len() == params@.len() ==> {
            ||| levels@[0].n_l < levels@.len()
            ||| exists|k: int|
                0 <= k < levels@.len() && #[trigger] level_fails(
                    levels@,
                    *source,
                    params@,
                    zero,
                    *value,
                    *sr_2d,
                    k,
                )
        },
        forall|k: int| 0 <= k < levels@.len() ==> bands_fit((#[trigger] levels@[k]).sub_bands@),
        forall|q: Q, c: i64, n: u32| call_requires(*value, (q, c, n)),
        forall|a: &ResolutionArrays<T>, x: i32, y: i32| call_requires(*sr_2d, (a, x, y)),
    ensures
        if levels@.len() == 0 || levels@.len() != params@.len() {
            r == Err::<Interleaved2D<T>, Error>(Error::InvalidMarkerLength)
        } else {
            match r {
                Ok(x) => {
                    &&& level_comes_out(
                        levels@,
                        *source,
                        params@,
                        zero,
                        *value,
                        *sr_2d,
                        levels@[0].n_l as nat,
                        x,
                    )
                    &&& forall|k: int|
                        #![trigger levels@[k]]
                        0 <= k <= levels@[0].n_l ==> !level_unusable(levels@, *source, params@, k)
                },
                Err(e) => exists|k: int|
                    0 <= k <= levels@[0].n_l && k < levels@.len() && #[trigger] first_failure(
                        levels@,
                        *source,
                        params@,
                        zero,
                        *value,
                        *sr_2d,
                        k,
                        e,
                    ),
            }
        },
{
    if levels.len() == 0 || params.len() != levels.len() {
        return Err(Error::InvalidMarkerLength);
    }
    let first: ResolutionArrays<T> = match reassemble_resolution(
        &levels[0],
        source,
        params[0].as_slice(),
        zero,
        value,
    ) {
        Ok(a) => a,
        Err(e) => {
            assert(level_unusable(levels@, *source, params@, 0));
            assert(first_failure(
                levels@,
                *source,
                params@,
                zero,
                *value,
                *sr_2d,
                0,
                e,
            ));
            return Err(e);
        },
    };
    proof {
        assert(first.array(SubBandOrientation::LL) == first.ll@);
        assert(first.dims(SubBandOrientation::LL) == first.ll_dims);
    }
    let (w, h): (usize, usize) = first.ll_dims;
    let mut carry: Interleaved2D<T> = Interleaved2D { data: first.ll, width: w, height: h };
    let last: usize = levels[0].n_l as usize;
    let mut k: usize = 0;
    while k < last
        invariant
            k <= last,
            last == levels@[0].n_l,
            k < levels@.len(),
            levels@.len() == params@.len(),
            last < levels@.len() || exists|i: int|
                0 <= i < levels@.len() && #[trigger] level_fails(
                    levels@,
                    *source,
                    params@,
                    zero,
                    *value,
                    *sr_2d,
                    i,
                ),
            forall|i: int|
                0 <= i <= k ==> !#[trigger] level_fails(
                    levels@,
                    *source,
                    params@,
                    zero,
                    *value,
                    *sr_2d,
                    i,
                ),
            forall|i: int| 0 <= i < levels@.len() ==> bands_fit((#[trigger] levels@[i]).sub_bands@),
            forall|q: Q, c: i64, n: u32| call_requires(*value, (q, c, n)),
            forall|a: &ResolutionArrays<T>, x: i32, y: i32| call_requires(*sr_2d, (a, x, y)),
            level_comes_out(
                levels@,
                *source,
                params@,
                zero,
                *value,
                *sr_2d,
                k as nat,
                carry,
            ),
            forall|i: int|
                #![trigger levels@[i]]
                0 <= i <= k ==> !level_unusable(levels@, *source, params@, i),
        decreases last - k,
    {
        let at: usize = k + 1;
        assert(at < levels@.len());
        let level: &ResolutionLevel = &levels[at];
        assert(bands_fit(levels@[at as int].sub_bands@));
        let mut arrays: ResolutionArrays<T> = match reassemble_resolution(
            level,
            source,
            params[at].as_slice(),
            zero,
            value,
        ) {
            Ok(a) => a,
            Err(e) => {
                assert(level_unusable(levels@, *source, params@, at as int));
                assert(level_comes_out(
                    levels@,
                    *source,
                    params@,
                    zero,
                    *value,
                    *sr_2d,
                    (at - 1) as nat,
                    carry,
                ));
                assert(first_failure(
                    levels@,
                    *source,
                    params@,
                    zero,
                    *value,
                    *sr_2d,
                    at as int,
                    e,
                ));
                return Err(e);
            },
        };
        let ghost prev = carry;
        let ghost filled = arrays;
        arrays.ll = carry.data;
        arrays.ll_dims = (carry.width, carry.height);
        proof {
            assert forall|o: SubBandOrientation|
                o != SubBandOrientation::LL implies slot_filled(
                level.sub_bands@,
                *source,
                params@[at as int]@,
                zero,
                *value,
                o,
                level.sub_bands@.len(),
                #[trigger] arrays.array(o),
                arrays.dims(o),
            ) by {
                assert(arrays.array(o) == filled.array(o));
                assert(arrays.dims(o) == filled.dims(o));
            }
        }
        let (i0, j0): (i32, i32) = (signed_edge(level.trx0), signed_edge(level.try0));
        let next: Result<Interleaved2D<T>, Error> = sr_2d(&arrays, i0, j0);
        assert(level_step(
            levels@[at as int],
            *source,
            params@[at as int]@,
            zero,
            *value,
            *sr_2d,
            prev,
            next,
        ));
        match next {
            Ok(x) => {
                carry = x;
            },
            Err(e) => {
                assert(!level_unusable(levels@, *source, params@, at as int));
                assert(level_comes_out(
                    levels@,
                    *source,
                    params@,
                    zero,
                    *value,
                    *sr_2d,
                    (at - 1) as nat,
                    prev,
                ));
                assert(first_failure(
                    levels@,
                    *source,
                    params@,
                    zero,
                    *value,
                    *sr_2d,
                    at as int,
                    e,
                ));
                return Err(e);
            },
        }
        k = at;
    }
    Ok(carry)
}

} // verus!

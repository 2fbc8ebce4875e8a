//! Whole-texture operations: copying one texture into another, mapping a
//! function over a texture, and the two reductions that turn a raster of
//! elevations into bilinear patches and their maxima.

use vstd::prelude::*;
use vstd::math::max;
use crate::math::Color;
use crate::textures::Texture;

verus! {

/// Where in the buffer of the output row `r` of a copied region begins, for
/// an output of width `out_width` and a region placed at `(x, y)`.
pub open spec fn dest_offset(out_width: int, x: int, y: int, r: int) -> int {
    out_width * (r + y) + x
}

/// The place in the input buffer from which place `i` of the output buffer
/// is filled when the first `rows` rows of a region `w` wide are copied to
/// `(x, y)`, or `None` where the copy leaves place `i` as it was. Where rows
/// overlap in the output, the later row is the one that stays.
pub open spec fn blit_source(
    in_width: int,
    out_width: int,
    x: int,
    y: int,
    w: int,
    rows: int,
    i: int,
) -> Option<int>
    decreases rows,
{
    if rows <= 0 {
        None
    } else {
        let r = rows - 1;
        let off = dest_offset(out_width, x, y, r);
        if off <= i < off + w {
            Some(in_width * r + (i - off))
        } else {
            blit_source(in_width, out_width, x, y, w, r, i)
        }
    }
}

/// The output buffer once the first `rows` rows of the region are copied.
pub open spec fn blitted<T>(
    input: Seq<T>,
    output: Seq<T>,
    in_width: int,
    out_width: int,
    x: int,
    y: int,
    w: int,
    rows: int,
) -> Seq<T> {
    Seq::new(
        output.len(),
        |i: int|
            match blit_source(in_width, out_width, x, y, w, rows, i) {
                Some(j) => input[j],
                None => output[i],
            },
    )
}

/// The rows of a region can be read and written: the last row, and so every
/// row, lies inside both buffers, and its row number in the output is a
/// `usize`.
pub open spec fn region_fits<T: Copy + Default>(
    input: Texture<T>,
    output: Texture<T>,
    x: int,
    y: int,
    w: int,
    h: int,
) -> bool {
    h > 0 ==> {
        &&& y + (h - 1) <= usize::MAX
        &&& input.width * (h - 1) + w <= input.buffer.len()
        &&& dest_offset(output.width as int, x, y, h - 1) + w <= output.buffer.len()
    }
}

/// A copy whose rows stay inside the rows of the output touches exactly the
/// cells of the rectangle at `(x, y)`: cell `(cx, cy)` of the output is
/// filled from cell `(cx - x, cy - y)` of the input when it lies in the
/// rectangle, and is left alone otherwise.
pub proof fn lemma_blit_source_cell(
    in_width: int,
    out_width: int,
    x: int,
    y: int,
    w: int,
    rows: int,
    cx: int,
    cy: int,
)
    requires
        0 <= x,
        0 <= y,
        0 <= w,
        x + w <= out_width,
        0 <= cx < out_width,
        0 <= cy,
    ensures
        blit_source(in_width, out_width, x, y, w, rows, out_width * cy + cx) == if x <= cx < x + w
            && y <= cy < y + rows {
            Some(in_width * (cy - y) + (cx - x))
        } else {
            None::<int>
        },
    decreases rows,
{
    if rows > 0 {
        let r = rows - 1;
        let i = out_width * cy + cx;
        let off = dest_offset(out_width, x, y, r);
        lemma_blit_source_cell(in_width, out_width, x, y, w, r, cx, cy);
        assert(off <= i < off + w <==> (cy == r + y && x <= cx < x + w)) by (nonlinear_arith)
            requires
                off == out_width * (r + y) + x,
                i == out_width * cy + cx,
                0 <= x,
                0 <= w,
                x + w <= out_width,
                0 <= cx < out_width,
        ;
    }
}

/// Copy the top-left `w` by `h` cells of one texture onto another at `(x, y)`.
pub fn blit_region<T>(
    input: &Texture<T>,
    output: &mut Texture<T>,
    x: usize,
    y: usize,
    w: usize,
    h: usize,
) where T: Copy + Default
    requires
        region_fits(*input, *old(output), x as int, y as int, w as int, h as int),
    ensures
        final(output).width == old(output).width,
        final(output).height == old(output).height,
        final(output).buffer@ == blitted(
            input.buffer@,
            old(output).buffer@,
            input.width as int,
            old(output).width as int,
            x as int,
            y as int,
            w as int,
            h as int,
        ),
{
    let ghost before = output.buffer@;
    let ghost iw = input.width as int;
    let ghost ow = output.width as int;
    assert(output.buffer@ =~= blitted(
        input.buffer@,
        before,
        iw,
        ow,
        x as int,
        y as int,
        w as int,
        0,
    ));
    let mut src_y: usize = 0;
    while src_y < h
        invariant
            src_y <= h,
            region_fits(*input, *old(output), x as int, y as int, w as int, h as int),
            output.width == old(output).width,
            output.height == old(output).height,
            before == old(output).buffer@,
            iw == input.width,
            ow == output.width,
            output.buffer@ == blitted(
                input.buffer@,
                before,
                iw,
                ow,
                x as int,
                y as int,
                w as int,
                src_y as int,
            ),
        decreases h - src_y,
    {
        proof {
            assert(0 <= iw * src_y <= iw * (h - 1) && ow * (src_y + y) <= ow * (h - 1 + y) && 0
                <= ow * (src_y + y)) by (nonlinear_arith)
                requires
                    0 <= src_y <= h - 1,
                    0 <= iw,
                    0 <= ow,
                    0 <= y,
            ;
        }
        let src_offset: usize = input.width * src_y;
        let dest_offset: usize = output.width * (src_y + y) + x;
        let ghost row_start = output.buffer@;
        let mut i: usize = 0;
        while i < w
            invariant
                i <= w,
                src_offset + w <= input.buffer.len(),
                dest_offset + w <= output.buffer.len(),
                output.buffer@.len() == row_start.len(),
                output.width == old(output).width,
                output.height == old(output).height,
                forall|k: int|
                    0 <= k < row_start.len() ==> #[trigger] output.buffer@[k] == if dest_offset
                        <= k < dest_offset + i {
                        input.buffer@[src_offset + (k - dest_offset)]
                    } else {
                        row_start[k]
                    },
            decreases w - i,
        {
            let value: T = input.buffer[src_offset + i];
            output.buffer[dest_offset + i] = value;
            i = i + 1;
        }
        proof {
            assert(output.buffer@ =~= blitted(
                input.buffer@,
                before,
                iw,
                ow,
                x as int,
                y as int,
                w as int,
                src_y + 1,
            ));
        }
        src_y = src_y + 1;
    }
}

/// Copy the whole of one texture onto another at `(x, y)`.
pub fn blit<T>(input: &Texture<T>, output: &mut Texture<T>, x: usize, y: usize) where
    T: Copy + Default,

    requires
        region_fits(
            *input,
            *old(output),
            x as int,
            y as int,
            input.width as int,
            input.height as int,
        ),
    ensures
        final(output).width == old(output).width,
        final(output).height == old(output).height,
        final(output).buffer@ == blitted(
            input.buffer@,
            old(output).buffer@,
            input.width as int,
            old(output).width as int,
            x as int,
            y as int,
            input.width as int,
            input.height as int,
        ),
{
    blit_region(input, output, x, y, input.width, input.height);
}

/// Cell `(x, y)` comes before cell `(to_x, to_y)` when a grid is walked row
/// by row.
pub open spec fn walked(x: int, y: int, to_x: int, to_y: int) -> bool {
    y < to_y || (y == to_y && x < to_x)
}

/// Two textures of one size agree in what their buffers hold beyond the
/// cells of the grid, and their buffers have one length.
pub open spec fn same_beyond_grid<T: Copy + Default>(
    before: Texture<T>,
    after: Texture<T>,
) -> bool {
    &&& after.buffer@.len() == before.buffer@.len()
    &&& forall|i: int|
        before.width * before.height <= i < before.buffer@.len() ==> #[trigger] after.buffer@[i]
            == before.buffer@[i]
}

/// Map a function over each cell of a texture.
pub fn operator1x1<F, I, O>(input: &Texture<I>, output: &mut Texture<O>, callback: F) where
    F: Fn(I) -> O,
    I: Copy + Default,
    O: Copy + Default,

    requires
        input.width == old(output).width,
        input.height == old(output).height,
        input.covers(),
        old(output).covers(),
        forall|x: int, y: int|
            input.holds(x, y) ==> call_requires(callback, (#[trigger] input.at(x, y),)),
    ensures
        final(output).width == old(output).width,
        final(output).height == old(output).height,
        same_beyond_grid(*old(output), *final(output)),
        forall|x: int, y: int|
            input.holds(x, y) ==> call_ensures(
                callback,
                (input.at(x, y),),
                #[trigger] final(output).at(x, y),
            ),
{
    let width = input.width;
    let height = input.height;
    let mut y: usize = 0;
    while y < height
        invariant
            y <= height,
            width == input.width,
            height == input.height,
            output.width == width,
            output.height == height,
            input.covers(),
            same_beyond_grid(*old(output), *output),
            old(output).width == output.width,
            old(output).height == output.height,
            output.covers(),
            forall|x: int, y: int|
                input.holds(x, y) ==> call_requires(callback, (#[trigger] input.at(x, y),)),
            forall|cx: int, cy: int|
                input.holds(cx, cy) && walked(cx, cy, 0, y as int) ==> call_ensures(
                    callback,
                    (input.at(cx, cy),),
                    #[trigger] output.at(cx, cy),
                ),
        decreases height - y,
    {
        let mut x: usize = 0;
        while x < width
            invariant
                x <= width,
                y < height,
                width == input.width,
                height == input.height,
                output.width == width,
                output.height == height,
                input.covers(),
                same_beyond_grid(*old(output), *output),
                old(output).width == output.width,
                old(output).height == output.height,
                output.covers(),
                forall|x: int, y: int|
                    input.holds(x, y) ==> call_requires(callback, (#[trigger] input.at(x, y),)),
                forall|cx: int, cy: int|
                    input.holds(cx, cy) && walked(cx, cy, x as int, y as int) ==> call_ensures(
                        callback,
                        (input.at(cx, cy),),
                        #[trigger] output.at(cx, cy),
                    ),
            decreases width - x,
        {
            proof {
                input.lemma_index_in_buffer(x as int, y as int);
                output.lemma_index_in_buffer(x as int, y as int);
            }
            let ghost before = *output;
            let value = input.lookup1x1(x, y);
            let result = callback(value);
            output.write1x1(x, y, result);
            proof {
                assert forall|cx: int, cy: int|
                    input.holds(cx, cy) && walked(cx, cy, x + 1, y as int) implies call_ensures(
                    callback,
                    (input.at(cx, cy),),
                    #[trigger] output.at(cx, cy),
                ) by {
                    if cx != x || cy != y {
                        before.lemma_index_in_buffer(cx, cy);
                        if output.index_of(cx, cy) == output.index_of(x as int, y as int) {
                            output.lemma_index_distinct(cx, cy, x as int, y as int);
                        }
                        assert(output.at(cx, cy) == before.at(cx, cy));
                    }
                }
            }
            x = x + 1;
        }
        y = y + 1;
    }
}

/// The channels of a sequence of colours, three bytes for each colour: red,
/// green, blue.
pub open spec fn channels(colors: Seq<Color>) -> Seq<u8> {
    Seq::new(
        3 * colors.len(),
        |i: int|
            if i % 3 == 0 {
                colors[i / 3].r
            } else if i % 3 == 1 {
                colors[i / 3].g
            } else {
                colors[i / 3].b
            },
    )
}

/// The bytes of an image as an encoder of eight-bit RGB takes them: the
/// three channels of each cell, cell after cell, row after row.
pub fn rgb_bytes(texture: &Texture<Color>) -> (bytes: Vec<u8>)
    ensures
        bytes@ == channels(texture.buffer@),
{
    let mut bytes: Vec<u8> = Vec::new();
    let mut i: usize = 0;
    while i < texture.buffer.len()
        invariant
            i <= texture.buffer.len(),
            bytes@ == channels(texture.buffer@.subrange(0, i as int)),
        decreases texture.buffer.len() - i,
    {
        let color = texture.buffer[i];
        let ghost before = bytes@;
        bytes.push(color.r);
        bytes.push(color.g);
        bytes.push(color.b);
        proof {
            let done = texture.buffer@.subrange(0, i as int);
            let more = texture.buffer@.subrange(0, i + 1);
            assert forall|k: int| 0 <= k < 3 * (i + 1) implies bytes@[k] == channels(more)[k] by {
                if k < 3 * i {
                    assert(bytes@[k] == channels(done)[k]);
                    assert(more[k / 3] == done[k / 3]);
                }
            }
            assert(bytes@ =~= channels(more));
        }
        i = i + 1;
    }
    proof {
        assert(texture.buffer@.subrange(0, i as int) =~= texture.buffer@);
    }
    bytes
}

/// The three components of cell `i` of a texture that is given as a list
/// of components: with one component to a cell the cell holds it three
/// times, else the cell holds three components of the list in order.
pub open spec fn texel<T>(components: int, data: Seq<T>, i: int) -> Seq<T> {
    if components == 1 {
        seq![data[i], data[i], data[i]]
    } else {
        seq![data[3 * i], data[3 * i + 1], data[3 * i + 2]]
    }
}

/// The texture that a list of components describes. With one component to
/// a cell the texture has a cell for each component, whatever its size is
/// said to be. With three it has `width * height` cells, which take their
/// components from the front of the list. Any other number of components to
/// a cell gives a blank texture of one cell.
pub fn texels<T>(width: usize, height: usize, components: usize, data: &Vec<T>) -> (t: Texture<
    [T; 3],
>) where T: Copy + Default
    requires
        components == 3 ==> data.len() % 3 == 0 && 3 * (width * height) <= data.len(),
    ensures
        components == 1 || components == 3 ==> {
            &&& t.width == width
            &&& t.height == height
            &&& t.buffer.len() == if components == 1 {
                data.len() as int
            } else {
                width * height
            }
            &&& forall|i: int|
                0 <= i < t.buffer.len() ==> (#[trigger] t.buffer@[i])@ == texel(
                    components as int,
                    data@,
                    i,
                )
        },
        components != 1 && components != 3 ==> {
            &&& t.width == 1
            &&& t.height == 1
            &&& t.buffer.len() == 1
            &&& crate::textures::is_default(t.buffer@[0])
        },
{
    if components == 1 {
        let mut buffer: Vec<[T; 3]> = Vec::new();
        let mut i: usize = 0;
        while i < data.len()
            invariant
                i <= data.len(),
                buffer.len() == i,
                forall|k: int| 0 <= k < i ==> (#[trigger] buffer@[k])@ == texel(1, data@, k),
            decreases data.len() - i,
        {
            let d = data[i];
            let cell = [d, d, d];
            assert(cell@ =~= texel(1, data@, i as int));
            buffer.push(cell);
            i = i + 1;
        }
        Texture::new(width, height, buffer)
    } else if components == 3 {
        assert(0 <= width * height) by (nonlinear_arith)
            requires
                0 <= width,
                0 <= height,
        ;
        let cells: usize = width * height;
        let mut buffer: Vec<[T; 3]> = Vec::new();
        let mut i: usize = 0;
        while i < cells
            invariant
                i <= cells,
                3 * cells <= data.len(),
                buffer.len() == i,
                forall|k: int| 0 <= k < i ==> (#[trigger] buffer@[k])@ == texel(3, data@, k),
            decreases cells - i,
        {
            let cell = [data[i * 3], data[i * 3 + 1], data[i * 3 + 2]];
            assert(cell@ =~= texel(3, data@, i as int));
            buffer.push(cell);
            i = i + 1;
        }
        Texture::new(width, height, buffer)
    } else {
        Texture::blank(1, 1)
    }
}

/// The largest of four elevations.
pub open spec fn max4(a: int, b: int, c: int, d: int) -> int {
    max(max(max(a, b), c), d)
}

/// The larger of two elevations.
pub fn larger(a: i64, b: i64) -> (m: i64)
    ensures
        m == max(a as int, b as int),
{
    if a >= b {
        a
    } else {
        b
    }
}

/// The four corner elevations of the patch over cell `(x, y)` of a raster,
/// clockwise from the north-west: north-west, north-east, south-east,
/// south-west.
pub open spec fn patch_corners(input: Texture<i64>, x: int, y: int) -> Seq<i64> {
    seq![input.at(x, y), input.at(x + 1, y), input.at(x + 1, y + 1), input.at(x, y + 1)]
}

/// The highest corner of a patch.
pub open spec fn patch_max(corners: Seq<i64>) -> int {
    max4(corners[0] as int, corners[1] as int, corners[2] as int, corners[3] as int)
}

/// Create the grid of bilinear patches of a raster of elevations, and the
/// grid of the highest corner of each patch.
///
/// A raster of `w + 1` by `h + 1` samples gives `w` by `h` patches: the
/// patch of cell `(x, y)` has its corners at the samples `(x, y)`,
/// `(x + 1, y)`, `(x + 1, y + 1)` and `(x, y + 1)`.
pub fn height_map_to_bilinear_patch(
    input: &Texture<i64>,
    level0: &mut Texture<[i64; 4]>,
    level1: &mut Texture<i64>,
)
    requires
        old(level0).width == old(level1).width,
        old(level0).height == old(level1).height,
        input.width - 1 == old(level0).width,
        input.height - 1 == old(level0).height,
        input.covers(),
        old(level0).covers(),
        old(level1).covers(),
    ensures
        final(level0).width == old(level0).width,
        final(level0).height == old(level0).height,
        final(level1).width == old(level1).width,
        final(level1).height == old(level1).height,
        same_beyond_grid(*old(level0), *final(level0)),
        same_beyond_grid(*old(level1), *final(level1)),
        forall|x: int, y: int|
            final(level0).holds(x, y) ==> (#[trigger] final(level0).at(x, y))@ == patch_corners(
                *input,
                x,
                y,
            ),
        forall|x: int, y: int|
            final(level1).holds(x, y) ==> #[trigger] final(level1).at(x, y) == patch_max(
                patch_corners(*input, x, y),
            ),
{
    let width = level0.width;
    let height = level0.height;
    let mut y: usize = 0;
    while y < height
        invariant
            y <= height,
            level0.width == width,
            level0.height == height,
            level1.width == width,
            level1.height == height,
            input.width - 1 == width,
            input.height - 1 == height,
            input.covers(),
            level0.covers(),
            level1.covers(),
            same_beyond_grid(*old(level0), *level0),
            old(level0).width == level0.width,
            old(level0).height == level0.height,
            same_beyond_grid(*old(level1), *level1),
            old(level1).width == level1.width,
            old(level1).height == level1.height,
            forall|cx: int, cy: int|
                level0.holds(cx, cy) && walked(cx, cy, 0, y as int) ==> (#[trigger] level0.at(
                    cx,
                    cy,
                ))@ == patch_corners(*input, cx, cy),
            forall|cx: int, cy: int|
                level1.holds(cx, cy) && walked(cx, cy, 0, y as int) ==> #[trigger] level1.at(
                    cx,
                    cy,
                ) == patch_max(patch_corners(*input, cx, cy)),
        decreases height - y,
    {
        let mut x: usize = 0;
        while x < width
            invariant
                x <= width,
                y < height,
                level0.width == width,
                level0.height == height,
                level1.width == width,
                level1.height == height,
                input.width - 1 == width,
                input.height - 1 == height,
                input.covers(),
                level0.covers(),
                level1.covers(),
                same_beyond_grid(*old(level0), *level0),
                old(level0).width == level0.width,
                old(level0).height == level0.height,
                same_beyond_grid(*old(level1), *level1),
                old(level1).width == level1.width,
                old(level1).height == level1.height,
                forall|cx: int, cy: int|
                    level0.holds(cx, cy) && walked(cx, cy, x as int, y as int)
                        ==> (#[trigger] level0.at(cx, cy))@ == patch_corners(*input, cx, cy),
                forall|cx: int, cy: int|
                    level1.holds(cx, cy) && walked(cx, cy, x as int, y as int)
                        ==> #[trigger] level1.at(cx, cy) == patch_max(
                        patch_corners(*input, cx, cy),
                    ),
            decreases width - x,
        {
            proof {
                input.lemma_index_in_buffer(x + 1, y + 1);
                level0.lemma_index_in_buffer(x as int, y as int);
                level1.lemma_index_in_buffer(x as int, y as int);
            }
            let ghost before0 = *level0;
            let ghost before1 = *level1;
            // Read in raster order, write clockwise.
            let window = input.lookup2x2(x, y);
            let nw = window[0];
            let ne = window[1];
            let sw = window[2];
            let se = window[3];
            let corners = [nw, ne, se, sw];
            assert(corners@ =~= patch_corners(*input, x as int, y as int));
            level0.write1x1(x, y, corners);
            level1.write1x1(x, y, larger(larger(larger(nw, ne), se), sw));
            proof {
                assert forall|cx: int, cy: int|
                    level0.holds(cx, cy) && walked(cx, cy, x + 1, y as int) implies (
                #[trigger] level0.at(cx, cy))@ == patch_corners(*input, cx, cy) by {
                    if cx != x || cy != y {
                        before0.lemma_index_in_buffer(cx, cy);
                        if level0.index_of(cx, cy) == level0.index_of(x as int, y as int) {
                            level0.lemma_index_distinct(cx, cy, x as int, y as int);
                        }
                        assert(level0.at(cx, cy) == before0.at(cx, cy));
                    }
                }
                assert forall|cx: int, cy: int|
                    level1.holds(cx, cy) && walked(
                        cx,
                        cy,
                        x + 1,
                        y as int,
                    ) implies #[trigger] level1.at(cx, cy) == patch_max(
                    patch_corners(*input, cx, cy),
                ) by {
                    if cx != x || cy != y {
                        before1.lemma_index_in_buffer(cx, cy);
                        if level1.index_of(cx, cy) == level1.index_of(x as int, y as int) {
                            level1.lemma_index_distinct(cx, cy, x as int, y as int);
                        }
                        assert(level1.at(cx, cy) == before1.at(cx, cy));
                    }
                }
            }
            x = x + 1;
        }
        y = y + 1;
    }
}

/// The highest of the four cells of `input` that lie under cell `(x, y)` of
/// the next coarser level.
pub open spec fn block_max(input: Texture<i64>, x: int, y: int) -> int {
    max4(
        input.at(2 * x, 2 * y) as int,
        input.at(2 * x + 1, 2 * y) as int,
        input.at(2 * x, 2 * y + 1) as int,
        input.at(2 * x + 1, 2 * y + 1) as int,
    )
}

/// Create the next coarser level of a pyramid of maxima: each cell of the
/// output holds the highest of the 2x2 block of input cells under it.
pub fn maximum_mipmap_bilinear_patch(input: &Texture<i64>, output: &mut Texture<i64>)
    requires
        input.width / 2 == old(output).width,
        input.height / 2 == old(output).height,
        input.covers(),
        old(output).covers(),
    ensures
        final(output).width == old(output).width,
        final(output).height == old(output).height,
        same_beyond_grid(*old(output), *final(output)),
        forall|x: int, y: int|
            final(output).holds(x, y) ==> #[trigger] final(output).at(x, y) == block_max(
                *input,
                x,
                y,
            ),
{
    let width = output.width;
    let height = output.height;
    let mut y: usize = 0;
    while y < height
        invariant
            y <= height,
            output.width == width,
            output.height == height,
            input.width / 2 == width,
            input.height / 2 == height,
            input.covers(),
            output.covers(),
            same_beyond_grid(*old(output), *output),
            old(output).width == output.width,
            old(output).height == output.height,
            forall|cx: int, cy: int|
                output.holds(cx, cy) && walked(cx, cy, 0, y as int) ==> #[trigger] output.at(
                    cx,
                    cy,
                ) == block_max(*input, cx, cy),
        decreases height - y,
    {
        let mut x: usize = 0;
        while x < width
            invariant
                x <= width,
                y < height,
                output.width == width,
                output.height == height,
                input.width / 2 == width,
                input.height / 2 == height,
                input.covers(),
                output.covers(),
                same_beyond_grid(*old(output), *output),
                old(output).width == output.width,
                old(output).height == output.height,
                forall|cx: int, cy: int|
                    output.holds(cx, cy) && walked(cx, cy, x as int, y as int)
                        ==> #[trigger] output.at(cx, cy) == block_max(*input, cx, cy),
            decreases width - x,
        {
            proof {
                input.lemma_index_in_buffer(2 * x + 1, 2 * y + 1);
                output.lemma_index_in_buffer(x as int, y as int);
            }
            let ghost before = *output;
            let window = input.lookup2x2(x * 2, y * 2);
            let highest = larger(larger(larger(window[0], window[1]), window[2]), window[3]);
            output.write1x1(x, y, highest);
            proof {
                assert forall|cx: int, cy: int|
                    output.holds(cx, cy) && walked(
                        cx,
                        cy,
                        x + 1,
                        y as int,
                    ) implies #[trigger] output.at(cx, cy) == block_max(*input, cx, cy) by {
                    if cx != x || cy != y {
                        before.lemma_index_in_buffer(cx, cy);
                        if output.index_of(cx, cy) == output.index_of(x as int, y as int) {
                            output.lemma_index_distinct(cx, cy, x as int, y as int);
                        }
                        assert(output.at(cx, cy) == before.at(cx, cy));
                    }
                }
            }
            x = x + 1;
        }
        y = y + 1;
    }
}

} // verus!

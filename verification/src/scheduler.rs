use crate::options::RenderState;
use vstd::prelude::*;

verus! {

/// The pixel at column `x` of row `y` in a row-major buffer `width` wide.
pub open spec fn pixel_at(buf: Seq<u32>, width: int, x: int, y: int) -> u32 {
    buf[y * width + x]
}

/// Whether the checkerboard computes pixel (x, y) in a frame of the given
/// phase: the squares where `x + y` is even on a `false` phase, those where
/// it is odd on a `true` one.
pub open spec fn checker_selected(x: int, y: int, phase: bool) -> bool {
    ((x + y) % 2 == 1) == phase
}

/// The extent at which a frame is rendered: the full extent at scale one
/// or less, else the whole number of `scale`-sized blocks that fit.
pub open spec fn scaled_extent(extent: int, scale: int) -> int {
    if scale <= 1 {
        extent
    } else {
        extent / scale
    }
}

/// Every pixel of `buf` is a value that `shade` gives for its coordinates.
pub open spec fn freshly_shaded<F: Fn(usize, usize) -> u32>(
    buf: Seq<u32>,
    width: int,
    height: int,
    shade: &F,
) -> bool {
    &&& buf.len() == width * height
    &&& forall|x: int, y: int|
        0 <= x < width && 0 <= y < height ==> shade.ensures(
            (x as usize, y as usize),
            #[trigger] pixel_at(buf, width, x, y),
        )
}

/// A checkerboard frame over `prev`: the pixels of this phase are values
/// that `shade` gives for their coordinates, every other pixel is the one
/// `prev` holds at the same place.
pub open spec fn checkerboard_of<F: Fn(usize, usize) -> u32>(
    buf: Seq<u32>,
    prev: Seq<u32>,
    width: int,
    height: int,
    phase: bool,
    shade: &F,
) -> bool {
    &&& buf.len() == width * height
    &&& forall|x: int, y: int|
        0 <= x < width && 0 <= y < height ==> {
            &&& checker_selected(x, y, phase) ==> shade.ensures(
                (x as usize, y as usize),
                #[trigger] pixel_at(buf, width, x, y),
            )
            &&& !checker_selected(x, y, phase) ==> pixel_at(buf, width, x, y) == pixel_at(
                prev,
                width,
                x,
                y,
            )
        }
}

/// The low-resolution coordinate that a full-resolution coordinate samples:
/// the block it falls in, or the last block where the low-resolution image
/// ends before the full one does.
pub open spec fn source_index(c: int, scale: int, low_extent: int) -> int {
    if c / scale >= low_extent {
        low_extent - 1
    } else {
        c / scale
    }
}

/// `full` is `low` enlarged by nearest-neighbour sampling.
pub open spec fn upscaled(
    full: Seq<u32>,
    low: Seq<u32>,
    width: int,
    height: int,
    low_width: int,
    low_height: int,
    scale: int,
) -> bool {
    &&& full.len() == width * height
    &&& forall|x: int, y: int|
        0 <= x < width && 0 <= y < height ==> #[trigger] pixel_at(full, width, x, y) == pixel_at(
            low,
            low_width,
            source_index(x, scale, low_width),
            source_index(y, scale, low_height),
        )
}

/// A buffer brought to length `len`: cut where it is longer, filled with
/// zero pixels where it is shorter.
pub open spec fn resized(buf: Seq<u32>, len: int) -> Seq<u32> {
    if len <= buf.len() {
        buf.subrange(0, len)
    } else {
        buf + Seq::new((len - buf.len()) as nat, |i: int| 0u32)
    }
}

/// In a row-major buffer a pixel of an earlier row comes before every pixel
/// of a later one, and a pixel of the image lies inside the buffer.
pub proof fn lemma_row_major(x: int, y: int, width: int, later: int)
    requires
        0 <= x < width,
        0 <= y < later,
    ensures
        0 <= y * width <= y * width + x < later * width,
        later * width == width * later,
        (y + 1) * width <= later * width,
        y * width + width == (y + 1) * width,
{
    assert(later * width == width * later) by (nonlinear_arith);
    assert((y + 1) * width <= later * width) by (nonlinear_arith)
        requires
            y + 1 <= later,
            0 <= width,
    ;
    assert(y * width + width == (y + 1) * width) by (nonlinear_arith);
    assert(0 <= y * width) by (nonlinear_arith)
        requires
            0 <= y,
            0 <= width,
    ;
}

/// Tells whether the checkerboard computes pixel (x, y) in a frame of the
/// given phase.
pub fn is_checker_pixel(x: usize, y: usize, phase: bool) -> (selected: bool)
    ensures
        selected == checker_selected(x as int, y as int, phase),
{
    let odd = (x % 2) != (y % 2);
    odd == phase
}

/// The size at which a frame of `width` by `height` is rendered under a
/// scale factor.
pub fn scaled_size(width: usize, height: usize, scale_factor: usize) -> (size: (usize, usize))
    ensures
        size.0 == scaled_extent(width as int, scale_factor as int),
        size.1 == scaled_extent(height as int, scale_factor as int),
{
    if scale_factor <= 1 {
        (width, height)
    } else {
        (width / scale_factor, height / scale_factor)
    }
}

/// Shades every pixel of the frame, row by row. No row depends on
/// another: `shade_row` does one, for a caller that hands the rows out.
pub fn render_parallel<F: Fn(usize, usize) -> u32>(
    buffer: &mut Vec<u32>,
    width: usize,
    height: usize,
    shade: &F,
)
    requires
        old(buffer)@.len() == width * height,
        forall|x: usize, y: usize| x < width && y < height ==> shade.requires((x, y)),
    ensures
        freshly_shaded(final(buffer)@, width as int, height as int, shade),
{
    let mut y: usize = 0;
    while y < height
        invariant
            0 <= y <= height,
            buffer@.len() == width * height,
            forall|x: usize, y: usize| x < width && y < height ==> shade.requires((x, y)),
            forall|px: int, py: int|
                0 <= px < width && 0 <= py < y ==> shade.ensures(
                    (px as usize, py as usize),
                    #[trigger] pixel_at(buffer@, width as int, px, py),
                ),
        decreases height - y,
    {
        let mut x: usize = 0;
        while x < width
            invariant
                0 <= x <= width,
                0 <= y < height,
                buffer@.len() == width * height,
                forall|x: usize, y: usize| x < width && y < height ==> shade.requires((x, y)),
                forall|px: int, py: int|
                    0 <= px < width && (0 <= py < y || (py == y && px < x)) ==> shade.ensures(
                        (px as usize, py as usize),
                        #[trigger] pixel_at(buffer@, width as int, px, py),
                    ),
            decreases width - x,
        {
            proof {
                lemma_row_major(x as int, y as int, width as int, height as int);
                assert(buffer@.len() == buffer.len());
            }
            let value = shade(x, y);
            let ghost before = buffer@;
            buffer.set(y * width + x, value);
            proof {
                assert forall|px: int, py: int|
                    0 <= px < width && (0 <= py < y || (py == y && px < x + 1)) implies shade.ensures(
                    (px as usize, py as usize),
                    #[trigger] pixel_at(buffer@, width as int, px, py),
                ) by {
                    if py < y {
                        lemma_row_major(px, py, width as int, y as int);
                        assert(pixel_at(buffer@, width as int, px, py) == pixel_at(
                            before,
                            width as int,
                            px,
                            py,
                        ));
                    } else if px < x {
                        assert(pixel_at(buffer@, width as int, px, py) == pixel_at(
                            before,
                            width as int,
                            px,
                            py,
                        ));
                    }
                }
            }
            x = x + 1;
        }
        y = y + 1;
    }
}

/// Shades the pixels of this phase and takes every other pixel from
/// `prev`. No row depends on another: `checkerboard_row` does one.
pub fn render_checkerboard<F: Fn(usize, usize) -> u32>(
    buffer: &mut Vec<u32>,
    prev: &Vec<u32>,
    width: usize,
    height: usize,
    phase: bool,
    shade: &F,
)
    requires
        old(buffer)@.len() == width * height,
        prev@.len() == width * height,
        forall|x: usize, y: usize|
            x < width && y < height && checker_selected(x as int, y as int, phase)
                ==> shade.requires((x, y)),
    ensures
        checkerboard_of(final(buffer)@, prev@, width as int, height as int, phase, shade),
{
    let mut y: usize = 0;
    while y < height
        invariant
            0 <= y <= height,
            buffer@.len() == width * height,
            prev@.len() == width * height,
            forall|x: usize, y: usize|
                x < width && y < height && checker_selected(x as int, y as int, phase)
                    ==> shade.requires((x, y)),
            forall|px: int, py: int|
                0 <= px < width && 0 <= py < y ==> {
                    &&& checker_selected(px, py, phase) ==> shade.ensures(
                        (px as usize, py as usize),
                        #[trigger] pixel_at(buffer@, width as int, px, py),
                    )
                    &&& !checker_selected(px, py, phase) ==> pixel_at(
                        buffer@,
                        width as int,
                        px,
                        py,
                    ) == pixel_at(prev@, width as int, px, py)
                },
        decreases height - y,
    {
        let mut x: usize = 0;
        while x < width
            invariant
                0 <= x <= width,
                0 <= y < height,
                buffer@.len() == width * height,
                prev@.len() == width * height,
                forall|x: usize, y: usize|
                    x < width && y < height && checker_selected(x as int, y as int, phase)
                        ==> shade.requires((x, y)),
                forall|px: int, py: int|
                    0 <= px < width && (0 <= py < y || (py == y && px < x)) ==> {
                        &&& checker_selected(px, py, phase) ==> shade.ensures(
                            (px as usize, py as usize),
                            #[trigger] pixel_at(buffer@, width as int, px, py),
                        )
                        &&& !checker_selected(px, py, phase) ==> pixel_at(
                            buffer@,
                            width as int,
                            px,
                            py,
                        ) == pixel_at(prev@, width as int, px, py)
                    },
            decreases width - x,
        {
            proof {
                lemma_row_major(x as int, y as int, width as int, height as int);
                assert(buffer@.len() == buffer.len());
            }
            let value = if is_checker_pixel(x, y, phase) {
                shade(x, y)
            } else {
                prev[y * width + x]
            };
            let ghost before = buffer@;
            buffer.set(y * width + x, value);
            proof {
                assert forall|px: int, py: int|
                    0 <= px < width && (0 <= py < y || (py == y && px < x + 1)) implies {
                    &&& checker_selected(px, py, phase) ==> shade.ensures(
                        (px as usize, py as usize),
                        #[trigger] pixel_at(buffer@, width as int, px, py),
                    )
                    &&& !checker_selected(px, py, phase) ==> pixel_at(
                        buffer@,
                        width as int,
                        px,
                        py,
                    ) == pixel_at(prev@, width as int, px, py)
                } by {
                    if py < y {
                        lemma_row_major(px, py, width as int, y as int);
                        assert(pixel_at(buffer@, width as int, px, py) == pixel_at(
                            before,
                            width as int,
                            px,
                            py,
                        ));
                    } else if px < x {
                        assert(pixel_at(buffer@, width as int, px, py) == pixel_at(
                            before,
                            width as int,
                            px,
                            py,
                        ));
                    }
                }
            }
            x = x + 1;
        }
        y = y + 1;
    }
}

/// Enlarges `low` into `full`: each full-resolution pixel takes the
/// low-resolution pixel of its block, the last block standing in where the
/// low-resolution image ends short of the edge.
pub fn upscale_nearest(
    full: &mut Vec<u32>,
    low: &Vec<u32>,
    width: usize,
    height: usize,
    low_width: usize,
    low_height: usize,
    scale_factor: usize,
)
    requires
        scale_factor >= 1,
        low_width >= 1,
        low_height >= 1,
        old(full)@.len() == width * height,
        low@.len() == low_width * low_height,
    ensures
        upscaled(
            final(full)@,
            low@,
            width as int,
            height as int,
            low_width as int,
            low_height as int,
            scale_factor as int,
        ),
{
    let mut y: usize = 0;
    while y < height
        invariant
            0 <= y <= height,
            scale_factor >= 1,
            low_width >= 1,
            low_height >= 1,
            full@.len() == width * height,
            low@.len() == low_width * low_height,
            forall|px: int, py: int|
                0 <= px < width && 0 <= py < y ==> #[trigger] pixel_at(
                    full@,
                    width as int,
                    px,
                    py,
                ) == pixel_at(
                    low@,
                    low_width as int,
                    source_index(px, scale_factor as int, low_width as int),
                    source_index(py, scale_factor as int, low_height as int),
                ),
        decreases height - y,
    {
        let mut src_y: usize = y / scale_factor;
        if src_y >= low_height {
            src_y = low_height - 1;
        }
        let mut x: usize = 0;
        while x < width
            invariant
                0 <= x <= width,
                0 <= y < height,
                scale_factor >= 1,
                low_width >= 1,
                low_height >= 1,
                src_y == source_index(y as int, scale_factor as int, low_height as int),
                0 <= src_y < low_height,
                full@.len() == width * height,
                low@.len() == low_width * low_height,
                forall|px: int, py: int|
                    0 <= px < width && (0 <= py < y || (py == y && px < x)) ==> #[trigger] pixel_at(
                        full@,
                        width as int,
                        px,
                        py,
                    ) == pixel_at(
                        low@,
                        low_width as int,
                        source_index(px, scale_factor as int, low_width as int),
                        source_index(py, scale_factor as int, low_height as int),
                    ),
            decreases width - x,
        {
            let mut src_x: usize = x / scale_factor;
            if src_x >= low_width {
                src_x = low_width - 1;
            }
            proof {
                lemma_row_major(x as int, y as int, width as int, height as int);
                lemma_row_major(src_x as int, src_y as int, low_width as int, low_height as int);
                assert(full@.len() == full.len());
                assert(low@.len() == low.len());
            }
            let value = low[src_y * low_width + src_x];
            let ghost before = full@;
            full.set(y * width + x, value);
            proof {
                assert forall|px: int, py: int|
                    0 <= px < width && (0 <= py < y || (py == y && px < x + 1)) implies #[trigger] pixel_at(
                    full@,
                    width as int,
                    px,
                    py,
                ) == pixel_at(
                    low@,
                    low_width as int,
                    source_index(px, scale_factor as int, low_width as int),
                    source_index(py, scale_factor as int, low_height as int),
                ) by {
                    if py < y {
                        lemma_row_major(px, py, width as int, y as int);
                        assert(pixel_at(full@, width as int, px, py) == pixel_at(
                            before,
                            width as int,
                            px,
                            py,
                        ));
                    } else if px < x {
                        assert(pixel_at(full@, width as int, px, py) == pixel_at(
                            before,
                            width as int,
                            px,
                            py,
                        ));
                    }
                }
            }
            x = x + 1;
        }
        y = y + 1;
    }
}

/// The rendering size is never larger than the frame.
pub proof fn lemma_scaled_fits(width: int, height: int, scale: int)
    requires
        0 <= width,
        0 <= height,
    ensures
        0 <= scaled_extent(width, scale) <= width,
        0 <= scaled_extent(height, scale) <= height,
        0 <= scaled_extent(width, scale) * scaled_extent(height, scale) <= width * height,
        scale > 1 && width >= scale ==> scaled_extent(width, scale) >= 1,
        scale > 1 && height >= scale ==> scaled_extent(height, scale) >= 1,
{
    let lw = scaled_extent(width, scale);
    let lh = scaled_extent(height, scale);
    if scale > 1 {
        if width >= scale {
            assert(width / scale >= 1) by (nonlinear_arith)
                requires
                    width >= scale,
                    scale > 1,
            ;
        }
        if height >= scale {
            assert(height / scale >= 1) by (nonlinear_arith)
                requires
                    height >= scale,
                    scale > 1,
            ;
        }
        assert(0 <= width / scale <= width) by (nonlinear_arith)
            requires
                0 <= width,
                scale > 1,
        ;
        assert(0 <= height / scale <= height) by (nonlinear_arith)
            requires
                0 <= height,
                scale > 1,
        ;
    }
    assert(0 <= lw * lh <= width * height) by (nonlinear_arith)
        requires
            0 <= lw <= width,
            0 <= lh <= height,
    ;
}

/// Renders a frame at full or reduced resolution. At scale one or less
/// every pixel of `full` is shaded and `lowres` is left alone. Above that,
/// `lowres` is shaded at the reduced size and enlarged into `full`.
pub fn render_parallel_scaled<F: Fn(usize, usize) -> u32>(
    full: &mut Vec<u32>,
    lowres: &mut Vec<u32>,
    width: usize,
    height: usize,
    scale_factor: usize,
    shade: &F,
)
    requires
        old(full)@.len() == width * height,
        scale_factor > 1 ==> width >= scale_factor && height >= scale_factor,
        forall|x: usize, y: usize|
            x < scaled_extent(width as int, scale_factor as int) && y < scaled_extent(
                height as int,
                scale_factor as int,
            ) ==> shade.requires((x, y)),
    ensures
        scale_factor <= 1 ==> {
            &&& freshly_shaded(final(full)@, width as int, height as int, shade)
            &&& final(lowres)@ == old(lowres)@
        },
        scale_factor > 1 ==> {
            &&& freshly_shaded(
                final(lowres)@,
                scaled_extent(width as int, scale_factor as int),
                scaled_extent(height as int, scale_factor as int),
                shade,
            )
            &&& upscaled(
                final(full)@,
                final(lowres)@,
                width as int,
                height as int,
                scaled_extent(width as int, scale_factor as int),
                scaled_extent(height as int, scale_factor as int),
                scale_factor as int,
            )
        },
{
    if scale_factor <= 1 {
        render_parallel(full, width, height, shade);
        return ;
    }
    let (lw, lh) = scaled_size(width, height, scale_factor);
    proof {
        lemma_scaled_fits(width as int, height as int, scale_factor as int);
        assert(full@.len() == full.len());
    }
    lowres.resize(lw * lh, 0);
    render_parallel(lowres, lw, lh, shade);
    upscale_nearest(full, lowres, width, height, lw, lh, scale_factor);
}

/// Renders a checkerboard frame at full or reduced resolution and keeps it
/// for the next one. Only the pixels of this phase are shaded; the others
/// come from the frame kept at the same resolution, brought to size first.
pub fn render_checkerboard_scaled<F: Fn(usize, usize) -> u32>(
    full: &mut Vec<u32>,
    prev_full: &mut Vec<u32>,
    lowres: &mut Vec<u32>,
    prev_lowres: &mut Vec<u32>,
    width: usize,
    height: usize,
    scale_factor: usize,
    phase: bool,
    shade: &F,
)
    requires
        old(full)@.len() == width * height,
        scale_factor <= 1 ==> old(prev_full)@.len() == width * height,
        scale_factor > 1 ==> width >= scale_factor && height >= scale_factor,
        forall|x: usize, y: usize|
            x < scaled_extent(width as int, scale_factor as int) && y < scaled_extent(
                height as int,
                scale_factor as int,
            ) && checker_selected(x as int, y as int, phase) ==> shade.requires((x, y)),
    ensures
        scale_factor <= 1 ==> {
            &&& checkerboard_of(
                final(full)@,
                old(prev_full)@,
                width as int,
                height as int,
                phase,
                shade,
            )
            &&& final(prev_full)@ == final(full)@
            &&& final(lowres)@ == old(lowres)@
            &&& final(prev_lowres)@ == old(prev_lowres)@
        },
        scale_factor > 1 ==> {
            &&& checkerboard_of(
                final(lowres)@,
                resized(
                    old(prev_lowres)@,
                    scaled_extent(width as int, scale_factor as int) * scaled_extent(
                        height as int,
                        scale_factor as int,
                    ),
                ),
                scaled_extent(width as int, scale_factor as int),
                scaled_extent(height as int, scale_factor as int),
                phase,
                shade,
            )
            &&& upscaled(
                final(full)@,
                final(lowres)@,
                width as int,
                height as int,
                scaled_extent(width as int, scale_factor as int),
                scaled_extent(height as int, scale_factor as int),
                scale_factor as int,
            )
            &&& final(prev_lowres)@ == final(lowres)@
            &&& final(prev_full)@ == old(prev_full)@
        },
{
    if scale_factor <= 1 {
        render_checkerboard(full, prev_full, width, height, phase, shade);
        *prev_full = full.clone();
        assert(prev_full@ =~= full@);
        return ;
    }
    let (lw, lh) = scaled_size(width, height, scale_factor);
    proof {
        lemma_scaled_fits(width as int, height as int, scale_factor as int);
        assert(full@.len() == full.len());
    }
    let ghost kept = prev_lowres@;
    lowres.resize(lw * lh, 0);
    prev_lowres.resize(lw * lh, 0);
    assert(prev_lowres@ =~= resized(kept, lw * lh));
    render_checkerboard(lowres, prev_lowres, lw, lh, phase, shade);
    upscale_nearest(full, lowres, width, height, lw, lh, scale_factor);
    *prev_lowres = lowres.clone();
    assert(prev_lowres@ =~= lowres@);
}

/// Shades one row of a frame in place.
pub fn shade_row<F: Fn(usize, usize) -> u32>(row: &mut [u32], y: usize, shade: &F)
    requires
        forall|x: usize| x < old(row)@.len() ==> shade.requires((x, y)),
    ensures
        final(row)@.len() == old(row)@.len(),
        forall|x: int|
            0 <= x < final(row)@.len() ==> shade.ensures((x as usize, y), #[trigger] final(row)@[x]),
{
    let width = row.len();
    let mut x: usize = 0;
    while x < width
        invariant
            0 <= x <= width,
            width == row@.len(),
            row@.len() == old(row)@.len(),
            forall|x: usize| x < old(row)@.len() ==> shade.requires((x, y)),
            forall|px: int| 0 <= px < x ==> shade.ensures((px as usize, y), #[trigger] row@[px]),
        decreases width - x,
    {
        let value = shade(x, y);
        row[x] = value;
        x = x + 1;
    }
}

/// Fills one row of a checkerboard frame in place: the pixels of this phase
/// are shaded, the others come from the same row of the frame before.
pub fn checkerboard_row<F: Fn(usize, usize) -> u32>(
    row: &mut [u32],
    prev_row: &[u32],
    y: usize,
    phase: bool,
    shade: &F,
)
    requires
        prev_row@.len() == old(row)@.len(),
        forall|x: usize|
            x < old(row)@.len() && checker_selected(x as int, y as int, phase) ==> shade.requires(
                (x, y),
            ),
    ensures
        final(row)@.len() == old(row)@.len(),
        forall|x: int|
            0 <= x < final(row)@.len() ==> {
                &&& checker_selected(x, y as int, phase) ==> shade.ensures(
                    (x as usize, y),
                    #[trigger] final(row)@[x],
                )
                &&& !checker_selected(x, y as int, phase) ==> final(row)@[x] == prev_row@[x]
            },
{
    let width = row.len();
    let mut x: usize = 0;
    while x < width
        invariant
            0 <= x <= width,
            width == row@.len(),
            row@.len() == old(row)@.len(),
            prev_row@.len() == row@.len(),
            forall|x: usize|
                x < old(row)@.len() && checker_selected(x as int, y as int, phase)
                    ==> shade.requires((x, y)),
            forall|px: int|
                0 <= px < x ==> {
                    &&& checker_selected(px, y as int, phase) ==> shade.ensures(
                        (px as usize, y),
                        #[trigger] row@[px],
                    )
                    &&& !checker_selected(px, y as int, phase) ==> row@[px] == prev_row@[px]
                },
        decreases width - x,
    {
        let value = if is_checker_pixel(x, y, phase) {
            shade(x, y)
        } else {
            prev_row[x]
        };
        row[x] = value;
        x = x + 1;
    }
}

/// No two pixels of a frame share a place in its buffer, so rows written
/// by different hands never touch.
pub proof fn lemma_pixels_distinct(x: int, y: int, other_x: int, other_y: int, width: int)
    requires
        0 <= x < width,
        0 <= other_x < width,
        0 <= y,
        0 <= other_y,
        y * width + x == other_y * width + other_x,
    ensures
        x == other_x,
        y == other_y,
{
    if y < other_y {
        lemma_row_major(x, y, width, other_y);
    } else if other_y < y {
        lemma_row_major(other_x, other_y, width, y);
    }
}

/// In checkerboard mode a frame and the one after it shade every pixel
/// exactly once between them.
pub proof fn lemma_two_frames_cover(state: RenderState, x: int, y: int)
    requires
        state.ultra_mode,
    ensures
        checker_selected(x, y, state.checker_phase) != checker_selected(
            x,
            y,
            state.next().checker_phase,
        ),
        state.next().next().checker_phase == state.checker_phase,
{
}

/// Two frames in a row, of opposite phase, shade every pixel exactly once
/// between them: each pixel belongs to one phase and not to the other.
pub proof fn lemma_phases_alternate(x: int, y: int, phase: bool)
    ensures
        checker_selected(x, y, phase) != checker_selected(x, y, !phase),
{
}

/// Every low-resolution pixel fills the whole block of full-resolution
/// pixels that it stands for.
pub proof fn lemma_upscale_blocks(
    full: Seq<u32>,
    low: Seq<u32>,
    width: int,
    height: int,
    low_width: int,
    low_height: int,
    scale: int,
    lx: int,
    ly: int,
    dx: int,
    dy: int,
)
    requires
        upscaled(full, low, width, height, low_width, low_height, scale),
        scale >= 1,
        0 <= lx < low_width,
        0 <= ly < low_height,
        0 <= dx < scale,
        0 <= dy < scale,
        lx * scale + dx < width,
        ly * scale + dy < height,
    ensures
        pixel_at(full, width, lx * scale + dx, ly * scale + dy) == pixel_at(low, low_width, lx, ly),
{
    lemma_block_of(lx, dx, scale);
    lemma_block_of(ly, dy, scale);
    let x = lx * scale + dx;
    let y = ly * scale + dy;
    assert(pixel_at(full, width, x, y) == pixel_at(
        low,
        low_width,
        source_index(x, scale, low_width),
        source_index(y, scale, low_height),
    ));
}

/// Past the last whole block, a full-resolution pixel repeats the last
/// low-resolution row or column instead of reading outside the image.
pub proof fn lemma_upscale_clamps(c: int, scale: int, low_extent: int)
    requires
        scale >= 1,
        low_extent >= 1,
        0 <= c,
    ensures
        0 <= source_index(c, scale, low_extent) < low_extent,
        c >= low_extent * scale ==> source_index(c, scale, low_extent) == low_extent - 1,
{
    assert(0 <= c / scale) by (nonlinear_arith)
        requires
            0 <= c,
            scale >= 1,
    ;
    if c >= low_extent * scale {
        assert(c / scale >= low_extent) by (nonlinear_arith)
            requires
                c >= low_extent * scale,
                scale >= 1,
        ;
    }
}

/// The coordinate `offset` places into block `block` lies in that block.
pub proof fn lemma_block_of(block: int, offset: int, scale: int)
    requires
        0 <= block,
        0 <= offset < scale,
    ensures
        (block * scale + offset) / scale == block,
{
    assert((block * scale + offset) / scale == block) by (nonlinear_arith)
        requires
            0 <= block,
            0 <= offset < scale,
    ;
}

/// A pixel as the display takes it: red in bits 16 to 23, green in bits 8
/// to 15, blue in the low byte, the top byte clear.
pub open spec fn packed(red: u8, green: u8, blue: u8) -> int {
    red * 0x1_0000 + green * 0x100 + blue
}

/// Packs three colour channels into a pixel.
pub fn pack_rgb(red: u8, green: u8, blue: u8) -> (pixel: u32)
    ensures
        pixel == packed(red, green, blue),
{
    let r: u32 = red as u32;
    let g: u32 = green as u32;
    let b: u32 = blue as u32;
    assert((r << 16) | (g << 8) | b == r * 0x1_0000 + g * 0x100 + b) by (bit_vector)
        requires
            r < 256,
            g < 256,
            b < 256,
    ;
    (r << 16) | (g << 8) | b
}

/// The buffers that a session renders into: the frame on display and the
/// one before it, at full resolution and at the reduced one.
#[derive(Debug)]
pub struct FrameBuffers {
    pub width: usize,
    pub height: usize,
    pub frame: Vec<u32>,
    pub prev_frame: Vec<u32>,
    pub lowres: Vec<u32>,
    pub prev_lowres: Vec<u32>,
}

impl FrameBuffers {
    /// Both full-resolution buffers hold one pixel for each pixel of the
    /// frame.
    pub open spec fn wf(self) -> bool {
        &&& self.frame@.len() == self.width * self.height
        &&& self.prev_frame@.len() == self.width * self.height
    }

    /// Black buffers for a frame of the given size, or nothing where the
    /// number of its pixels cannot be held.
    pub fn new(width: usize, height: usize) -> (buffers: Option<FrameBuffers>)
        ensures
            buffers is Some <==> width * height <= usize::MAX,
            buffers is Some ==> {
                let b = buffers->0;
                &&& b.wf()
                &&& b.width == width
                &&& b.height == height
                &&& forall|i: int| 0 <= i < b.frame@.len() ==> b.frame@[i] == 0
                &&& forall|i: int| 0 <= i < b.prev_frame@.len() ==> b.prev_frame@[i] == 0
                &&& b.lowres@.len() == 0
                &&& b.prev_lowres@.len() == 0
            },
    {
        match width.checked_mul(height) {
            Some(n) => Some(
                FrameBuffers {
                    width,
                    height,
                    frame: vec![0u32; n],
                    prev_frame: vec![0u32; n],
                    lowres: Vec::new(),
                    prev_lowres: Vec::new(),
                },
            ),
            None => None,
        }
    }

    /// Renders the next frame under the given settings and returns the
    /// settings for the one after. In checkerboard mode half the pixels are
    /// shaded and the rest reused, and the phase flips. Otherwise the whole
    /// frame is shaded and kept as the frame to reuse.
    pub fn render<F: Fn(usize, usize) -> u32>(&mut self, state: RenderState, shade: &F) -> (next:
        RenderState)
        requires
            old(self).wf(),
            state.wf(),
            state.scale_factor > 1 ==> old(self).width >= state.scale_factor && old(self).height
                >= state.scale_factor,
            forall|x: usize, y: usize|
                x < scaled_extent(old(self).width as int, state.scale_factor as int) && y
                    < scaled_extent(old(self).height as int, state.scale_factor as int)
                    ==> shade.requires((x, y)),
        ensures
            next == state.next(),
            final(self).width == old(self).width,
            final(self).height == old(self).height,
            final(self).wf(),
            state.scale_factor > 1 ==> {
                &&& upscaled(
                    final(self).frame@,
                    final(self).lowres@,
                    old(self).width as int,
                    old(self).height as int,
                    scaled_extent(old(self).width as int, state.scale_factor as int),
                    scaled_extent(old(self).height as int, state.scale_factor as int),
                    state.scale_factor as int,
                )
                &&& final(self).prev_lowres@ == final(self).lowres@
                &&& final(self).prev_frame@ == old(self).prev_frame@
            },
            state.scale_factor <= 1 ==> {
                &&& final(self).prev_frame@ == final(self).frame@
                &&& final(self).lowres@ == old(self).lowres@
                &&& final(self).prev_lowres@ == old(self).prev_lowres@
            },
            state.ultra_mode && state.scale_factor <= 1 ==> checkerboard_of(
                final(self).frame@,
                old(self).prev_frame@,
                old(self).width as int,
                old(self).height as int,
                state.checker_phase,
                shade,
            ),
            state.ultra_mode && state.scale_factor > 1 ==> checkerboard_of(
                final(self).lowres@,
                resized(
                    old(self).prev_lowres@,
                    scaled_extent(old(self).width as int, state.scale_factor as int)
                        * scaled_extent(old(self).height as int, state.scale_factor as int),
                ),
                scaled_extent(old(self).width as int, state.scale_factor as int),
                scaled_extent(old(self).height as int, state.scale_factor as int),
                state.checker_phase,
                shade,
            ),
            !state.ultra_mode && state.scale_factor <= 1 ==> freshly_shaded(
                final(self).frame@,
                old(self).width as int,
                old(self).height as int,
                shade,
            ),
            !state.ultra_mode && state.scale_factor > 1 ==> freshly_shaded(
                final(self).lowres@,
                scaled_extent(old(self).width as int, state.scale_factor as int),
                scaled_extent(old(self).height as int, state.scale_factor as int),
                shade,
            ),
    {
        if state.ultra_mode {
            render_checkerboard_scaled(
                &mut self.frame,
                &mut self.prev_frame,
                &mut self.lowres,
                &mut self.prev_lowres,
                self.width,
                self.height,
                state.scale_factor,
                state.checker_phase,
                shade,
            );
        } else {
            render_parallel_scaled(
                &mut self.frame,
                &mut self.lowres,
                self.width,
                self.height,
                state.scale_factor,
                shade,
            );
            if state.scale_factor <= 1 {
                self.prev_frame = self.frame.clone();
                assert(self.prev_frame@ =~= self.frame@);
            } else {
                self.prev_lowres = self.lowres.clone();
                assert(self.prev_lowres@ =~= self.lowres@);
            }
        }
        state.after_frame()
    }
}

} // verus!

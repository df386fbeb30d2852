//! Pixel assembly: a zero-initialized RGBA canvas into which each source
//! image is copied at its placed rectangle, row by row, alpha unmodified —
//! a straight overwrite, since placements never overlap.
//!
//! The canvas is modeled byte for byte: `blit_bytes` says what every byte of
//! the canvas holds after one copy, and `composite_prefix` folds the copies in
//! input order.

use vstd::arithmetic::div_mod::{
    lemma_fundamental_div_mod, lemma_fundamental_div_mod_converse, lemma_mod_bound,
};
use vstd::arithmetic::mul::lemma_mul_inequality;
use vstd::prelude::*;

use crate::definitions::{PackError, Rect, RectModel};
use crate::placer::PlacementMap;

verus! {

/// A decoded image or an assembled canvas: RGBA bytes in row-major order,
/// four bytes per pixel.
#[derive(Debug)]
pub struct ImageBuffer {
    pub width: u32,
    pub height: u32,
    pub pixels: Vec<u8>,
}

/// Mathematical model of a pixel buffer.
pub ghost struct ImageModel {
    pub width: int,
    pub height: int,
    pub bytes: Seq<u8>,
}

impl View for ImageBuffer {
    type V = ImageModel;

    open spec fn view(&self) -> ImageModel {
        ImageModel { width: self.width as int, height: self.height as int, bytes: self.pixels@ }
    }
}

impl ImageModel {
    /// The byte count matches the dimensions: four bytes per pixel.
    pub open spec fn wf(self) -> bool {
        self.bytes.len() == 4 * self.width * self.height
    }
}

impl ImageBuffer {
    pub open spec fn wf(&self) -> bool {
        self@.wf()
    }
}

/// The byte index of channel `ch` of the pixel at `(x, y)` in a row-major
/// RGBA buffer that is `width` pixels wide.
pub open spec fn canvas_index(width: int, x: int, y: int, ch: int) -> int {
    4 * (y * width + x) + ch
}

/// The pixel column of byte `i` of a buffer `width` pixels wide.
pub open spec fn byte_x(width: int, i: int) -> int {
    (i / 4) % width
}

/// The pixel row of byte `i` of a buffer `width` pixels wide.
pub open spec fn byte_y(width: int, i: int) -> int {
    (i / 4) / width
}

/// The channel of byte `i`.
pub open spec fn byte_ch(i: int) -> int {
    i % 4
}

/// Whether canvas byte `i` falls inside the copy of `src` placed at
/// `(rx, ry)` on a canvas `cw` pixels wide.
pub open spec fn in_blit_region(cw: int, src: ImageModel, rx: int, ry: int, i: int) -> bool {
    &&& rx <= byte_x(cw, i) < rx + src.width
    &&& ry <= byte_y(cw, i) < ry + src.height
}

/// The source byte that canvas byte `i` receives from the copy.
pub open spec fn source_index(cw: int, src: ImageModel, rx: int, ry: int, i: int) -> int {
    canvas_index(src.width, byte_x(cw, i) - rx, byte_y(cw, i) - ry, byte_ch(i))
}

/// The canvas after copying all of `src` to `(rx, ry)`: bytes in the copied
/// region come from the source, all others are unchanged.
pub open spec fn blit_bytes(canvas: Seq<u8>, cw: int, src: ImageModel, rx: int, ry: int) -> Seq<
    u8,
> {
    Seq::new(
        canvas.len(),
        |i: int|
            if in_blit_region(cw, src, rx, ry, i) {
                src.bytes[source_index(cw, src, rx, ry, i)]
            } else {
                canvas[i]
            },
    )
}

/// The canvas after copying only the first `n` source bytes (row-major).
spec fn blit_prefix(canvas: Seq<u8>, cw: int, src: ImageModel, rx: int, ry: int, n: int) -> Seq<
    u8,
> {
    Seq::new(
        canvas.len(),
        |i: int|
            if in_blit_region(cw, src, rx, ry, i) && source_index(cw, src, rx, ry, i) < n {
                src.bytes[source_index(cw, src, rx, ry, i)]
            } else {
                canvas[i]
            },
    )
}

/// Decomposing the byte index of channel `ch` of pixel `(x, y)` recovers the
/// coordinates, and the index is bounded by the rows used so far.
proof fn lemma_canvas_index_coords(width: int, x: int, y: int, ch: int)
    requires
        width >= 1,
        0 <= x < width,
        0 <= y,
        0 <= ch < 4,
    ensures
        ({
            let i = canvas_index(width, x, y, ch);
            &&& 0 <= i
            &&& i < 4 * width * (y + 1)
            &&& byte_x(width, i) == x
            &&& byte_y(width, i) == y
            &&& byte_ch(i) == ch
        }),
{
    let q = y * width + x;
    assert(y * width >= 0) by (nonlinear_arith)
        requires
            y >= 0,
            width >= 1,
    {}
    let i = canvas_index(width, x, y, ch);
    assert(4 * q == q * 4) by (nonlinear_arith);
    lemma_fundamental_div_mod_converse(i, 4, q, ch);
    lemma_fundamental_div_mod_converse(q, width, y, x);
    assert((y + 1) * width == y * width + width) by (nonlinear_arith);
    assert(4 * width * (y + 1) == 4 * ((y + 1) * width)) by (nonlinear_arith);
}

/// Any nonnegative byte index equals the index rebuilt from its coordinates.
proof fn lemma_byte_coords_reconstruct(width: int, i: int)
    requires
        width >= 1,
        0 <= i,
    ensures
        i == canvas_index(width, byte_x(width, i), byte_y(width, i), byte_ch(i)),
        0 <= byte_ch(i) < 4,
        0 <= byte_x(width, i) < width,
        0 <= byte_y(width, i),
{
    lemma_fundamental_div_mod(i, 4);
    lemma_fundamental_div_mod(i / 4, width);
    lemma_mod_bound(i, 4);
    lemma_mod_bound(i / 4, width);
    vstd::arithmetic::div_mod::lemma_div_pos_is_pos(i, 4);
    vstd::arithmetic::div_mod::lemma_div_pos_is_pos(i / 4, width);
    assert(byte_y(width, i) * width == width * byte_y(width, i)) by (nonlinear_arith);
    assert(4 * (i / 4) == (i / 4) * 4) by (nonlinear_arith);
}

/// Copies all of `img` into `canvas` with its top-left pixel at `(rx, ry)`.
/// The result is exactly `blit_bytes`: source bytes inside the placed
/// rectangle, unchanged bytes everywhere else.
fn blit(canvas: &mut Vec<u8>, cw: u32, ch: u32, img: &ImageBuffer, rx: u32, ry: u32)
    requires
        img.wf(),
        old(canvas)@.len() == 4 * (cw as int) * (ch as int),
        rx as int + img.width as int <= cw as int,
        ry as int + img.height as int <= ch as int,
    ensures
        final(canvas)@ == blit_bytes(old(canvas)@, cw as int, img@, rx as int, ry as int),
{
    let ghost orig = canvas@;
    let ghost src = img@;
    let ghost cw_i = cw as int;
    let ghost ch_i = ch as int;
    let ghost rx_i = rx as int;
    let ghost ry_i = ry as int;
    let src_len: usize = img.pixels.len();
    let total: usize = canvas.len();
    let mut j: usize = 0;
    proof {
        assert(blit_prefix(orig, cw_i, src, rx_i, ry_i, 0) =~= orig);
    }
    while j < src_len
        invariant
            0 <= j <= src_len,
            src == img@,
            img.wf(),
            orig.len() == 4 * cw_i * ch_i,
            cw_i == cw as int && ch_i == ch as int && rx_i == rx as int && ry_i == ry as int,
            src_len == src.bytes.len(),
            rx_i + src.width <= cw_i,
            ry_i + src.height <= ch_i,
            canvas@.len() == orig.len(),
            total == orig.len(),
            canvas@ == blit_prefix(orig, cw_i, src, rx_i, ry_i, j as int),
        decreases src_len - j,
    {
        proof {
            assert(src.width >= 1 && src.height >= 1) by (nonlinear_arith)
                requires
                    4 * src.width * src.height > 0,
                    src.width >= 0,
                    src.height >= 0,
            {}
        }
        let sw: usize = img.width as usize;
        let sp: usize = j / 4;
        let sch: usize = j % 4;
        let scol: usize = sp % sw;
        let srow: usize = sp / sw;
        proof {
            // the source byte's coordinates are in range
            lemma_mod_bound(j as int, 4);
            lemma_mod_bound(sp as int, src.width);
            vstd::arithmetic::div_mod::lemma_div_pos_is_pos(j as int, 4);
            vstd::arithmetic::div_mod::lemma_div_pos_is_pos(sp as int, src.width);
            assert(4 * (sp as int) <= j as int) by {
                lemma_fundamental_div_mod(j as int, 4);
            }
            assert((sp as int) < src.width * src.height) by (nonlinear_arith)
                requires
                    4 * (sp as int) <= j as int,
                    (j as int) < 4 * src.width * src.height,
            {}
            assert((srow as int) < src.height) by (nonlinear_arith)
                requires
                    (sp as int) < src.width * src.height,
                    srow as int == sp as int / src.width,
                    src.width >= 1,
                    src.height >= 1,
            {}
            // the source byte index decomposes into those coordinates
            lemma_byte_coords_reconstruct(src.width, j as int);
            assert(byte_ch(j as int) == sch as int);
            assert(byte_x(src.width, j as int) == scol as int);
            assert(byte_y(src.width, j as int) == srow as int);
            // the destination byte index: same channel, offset coordinates
            lemma_canvas_index_coords(
                cw_i,
                rx_i + scol as int,
                ry_i + srow as int,
                sch as int,
            );
            assert(4 * cw_i * (ry_i + srow as int + 1) <= 4 * cw_i * ch_i) by {
                lemma_mul_inequality(ry_i + srow as int + 1, ch_i, 4 * cw_i);
                assert((ry_i + srow as int + 1) * (4 * cw_i) == 4 * cw_i * (ry_i + srow as int
                    + 1)) by (nonlinear_arith);
                assert(ch_i * (4 * cw_i) == 4 * cw_i * ch_i) by (nonlinear_arith);
            }
            assert((ry_i + srow as int) * cw_i >= 0) by (nonlinear_arith)
                requires
                    ry_i + srow as int >= 0,
                    cw_i >= 0,
            {}
        }
        let ghost dst_i = canvas_index(cw_i, rx_i + scol as int, ry_i + srow as int, sch as int);
        proof {
            assert(dst_i < orig.len());
            assert((ry_i + srow as int) * cw_i + rx_i + scol as int >= 0);
            assert((ry_i + srow as int) * cw_i <= dst_i);
        }
        let dst: usize = 4 * ((ry as usize + srow) * (cw as usize) + rx as usize + scol) + sch;
        proof {
            assert(dst as int == dst_i);
            assert(dst_i < canvas@.len());
        }
        let b: u8 = img.pixels[j];
        let ghost before = canvas@;
        canvas[dst] = b;
        proof {
            // the write extends the copied prefix by exactly this byte
            assert(canvas@ =~= before.update(dst_i, b));
            let after = blit_prefix(orig, cw_i, src, rx_i, ry_i, j as int + 1);
            assert(in_blit_region(cw_i, src, rx_i, ry_i, dst_i));
            assert(source_index(cw_i, src, rx_i, ry_i, dst_i) == j as int) by {
                lemma_canvas_index_coords(src.width, scol as int, srow as int, sch as int);
            }
            assert forall|i: int| 0 <= i < orig.len() implies canvas@[i] == after[i] by {
                if i == dst_i {
                    assert(after[i] == src.bytes[j as int]);
                } else {
                    if in_blit_region(cw_i, src, rx_i, ry_i, i) && source_index(
                        cw_i,
                        src,
                        rx_i,
                        ry_i,
                        i,
                    ) == j as int {
                        // two distinct canvas bytes cannot receive the same
                        // source byte: rebuild both indices from coordinates
                        lemma_byte_coords_reconstruct(cw_i, i);
                        lemma_canvas_index_coords(
                            src.width,
                            byte_x(cw_i, i) - rx_i,
                            byte_y(cw_i, i) - ry_i,
                            byte_ch(i),
                        );
                        lemma_canvas_index_coords(src.width, scol as int, srow as int, sch as int);
                        assert(byte_x(cw_i, i) - rx_i == scol as int);
                        assert(byte_y(cw_i, i) - ry_i == srow as int);
                        assert(byte_ch(i) == sch as int);
                        assert(i == dst_i);
                        assert(false);
                    }
                }
            }
            assert(canvas@ =~= after);
        }
        j = j + 1;
    }
    proof {
        let fin = blit_bytes(orig, cw_i, src, rx_i, ry_i);
        assert forall|i: int| 0 <= i < orig.len() implies canvas@[i] == fin[i] by {
            if in_blit_region(cw_i, src, rx_i, ry_i, i) {
                lemma_byte_coords_reconstruct(cw_i, i);
                lemma_canvas_index_coords(
                    src.width,
                    byte_x(cw_i, i) - rx_i,
                    byte_y(cw_i, i) - ry_i,
                    byte_ch(i),
                );
                assert(4 * src.width * (byte_y(cw_i, i) - ry_i + 1) <= 4 * src.width * src.height)
                    by {
                    lemma_mul_inequality(
                        byte_y(cw_i, i) - ry_i + 1,
                        src.height,
                        4 * src.width,
                    );
                    assert((byte_y(cw_i, i) - ry_i + 1) * (4 * src.width) == 4 * src.width * (
                    byte_y(cw_i, i) - ry_i + 1)) by (nonlinear_arith);
                    assert(src.height * (4 * src.width) == 4 * src.width * src.height)
                        by (nonlinear_arith);
                }
                assert(source_index(cw_i, src, rx_i, ry_i, i) < src.bytes.len());
            }
        }
        assert(canvas@ =~= fin);
    }
}

/// The view of a sequence of named images.
pub open spec fn images_model(s: Seq<(String, ImageBuffer)>) -> Seq<(Seq<char>, ImageModel)> {
    s.map_values(|p: (String, ImageBuffer)| (p.0@, p.1@))
}

/// The first image whose name equals `id`, if any.
pub open spec fn find_image(images: Seq<(Seq<char>, ImageModel)>, id: Seq<char>) -> Option<int>
    decreases images.len(),
{
    if images.len() == 0 {
        None
    } else if images[0].0 == id {
        Some(0)
    } else {
        match find_image(images.drop_first(), id) {
            None => None,
            Some(j) => Some(j + 1),
        }
    }
}

/// `find_image` returns the first match: a hit names a matching image with
/// no earlier match, a miss means no image matches at all.
pub proof fn lemma_find_image_spec(images: Seq<(Seq<char>, ImageModel)>, id: Seq<char>)
    ensures
        match find_image(images, id) {
            Some(j) => 0 <= j < images.len() && images[j].0 == id && forall|i: int|
                0 <= i < j ==> (#[trigger] images[i]).0 != id,
            None => forall|i: int| 0 <= i < images.len() ==> (#[trigger] images[i]).0 != id,
        },
    decreases images.len(),
{
    if images.len() == 0 {
    } else if images[0].0 == id {
    } else {
        let rest = images.drop_first();
        lemma_find_image_spec(rest, id);
        match find_image(rest, id) {
            Some(j) => {
                assert(images[j + 1] == rest[j]);
                assert forall|i: int| 0 <= i < j + 1 implies (#[trigger] images[i]).0 != id by {
                    if i >= 1 {
                        assert(images[i] == rest[i - 1]);
                    }
                }
            },
            None => {
                assert forall|i: int| 0 <= i < images.len() implies (#[trigger] images[i]).0
                    != id by {
                    if i >= 1 {
                        assert(images[i] == rest[i - 1]);
                    }
                }
            },
        }
    }
}

/// A placement entry is usable for compositing: its id names an image, the
/// image is well formed, the rectangle has the image's dimensions, and it
/// lies within the canvas.
pub open spec fn entry_ok(
    cw: int,
    ch: int,
    images: Seq<(Seq<char>, ImageModel)>,
    entry: (Seq<char>, RectModel),
) -> bool {
    match find_image(images, entry.0) {
        Some(j) => {
            let img = images[j].1;
            &&& img.wf()
            &&& entry.1.w == img.width
            &&& entry.1.h == img.height
            &&& entry.1.within_canvas(cw, ch)
        },
        None => false,
    }
}

/// The image-rectangle pairs that compositing walks, in placement order.
pub open spec fn layers_of(
    images: Seq<(Seq<char>, ImageModel)>,
    entries: Seq<(Seq<char>, RectModel)>,
) -> Seq<(ImageModel, RectModel)> {
    Seq::new(
        entries.len(),
        |k: int| (images[find_image(images, entries[k].0)->Some_0].1, entries[k].1),
    )
}

/// A fully transparent canvas: every byte zero.
pub open spec fn zero_canvas(cw: int, ch: int) -> Seq<u8> {
    Seq::new((4 * cw * ch) as nat, |i: int| 0u8)
}

/// The canvas bytes after compositing the first `n` layers onto the zeroed
/// canvas, in order.
pub open spec fn composite_prefix(
    cw: int,
    ch: int,
    layers: Seq<(ImageModel, RectModel)>,
    n: int,
) -> Seq<u8>
    decreases n,
{
    if n <= 0 {
        zero_canvas(cw, ch)
    } else {
        blit_bytes(
            composite_prefix(cw, ch, layers, n - 1),
            cw,
            layers[n - 1].0,
            layers[n - 1].1.x,
            layers[n - 1].1.y,
        )
    }
}

/// What compositing returns: the byte-exact canvas when every placement
/// names an image that fits, and `BlitOutOfBounds` as soon as any placement
/// is unusable.
pub open spec fn composite_model(
    cw: int,
    ch: int,
    images: Seq<(Seq<char>, ImageModel)>,
    entries: Seq<(Seq<char>, RectModel)>,
) -> Result<Seq<u8>, PackError> {
    if forall|k: int| 0 <= k < entries.len() ==> entry_ok(cw, ch, images, #[trigger] entries[k]) {
        Ok(composite_prefix(cw, ch, layers_of(images, entries), entries.len() as int))
    } else {
        Err(PackError::BlitOutOfBounds)
    }
}

/// The composited canvas always holds `4 * cw * ch` bytes.
pub proof fn lemma_composite_prefix_len(
    cw: int,
    ch: int,
    layers: Seq<(ImageModel, RectModel)>,
    n: int,
)
    requires
        cw >= 0,
        ch >= 0,
    ensures
        composite_prefix(cw, ch, layers, n).len() == 4 * cw * ch,
    decreases n,
{
    if n <= 0 {
        assert(4 * cw * ch >= 0) by (nonlinear_arith)
            requires
                cw >= 0,
                ch >= 0,
        {}
    } else {
        lemma_composite_prefix_len(cw, ch, layers, n - 1);
    }
}

/// One canvas byte cannot lie in the copies of two disjoint rectangles.
proof fn lemma_regions_disjoint(
    cw: int,
    a_img: ImageModel,
    a: RectModel,
    b_img: ImageModel,
    b: RectModel,
    i: int,
)
    requires
        cw >= 1,
        0 <= i,
        a.disjoint_from(b),
        a.w == a_img.width && a.h == a_img.height,
        b.w == b_img.width && b.h == b_img.height,
        in_blit_region(cw, a_img, a.x, a.y, i),
    ensures
        !in_blit_region(cw, b_img, b.x, b.y, i),
{
    lemma_byte_coords_reconstruct(cw, i);
}

/// Since placed rectangles never overlap, the order of composition is
/// irrelevant: every layer's bytes appear unchanged in the final canvas,
/// however many copies follow it.
proof fn lemma_layer_bytes_survive(
    cw: int,
    ch: int,
    layers: Seq<(ImageModel, RectModel)>,
    k: int,
    n: int,
    i: int,
)
    requires
        cw >= 1,
        ch >= 0,
        0 <= k < n <= layers.len(),
        forall|m: int|
            0 <= m < layers.len() ==> (#[trigger] layers[m]).1.w == layers[m].0.width
                && layers[m].1.h == layers[m].0.height && layers[m].1.within_canvas(cw, ch),
        forall|m1: int, m2: int|
            #![trigger layers[m1], layers[m2]]
            0 <= m1 < m2 < layers.len() ==> layers[m1].1.disjoint_from(layers[m2].1),
        in_blit_region(cw, layers[k].0, layers[k].1.x, layers[k].1.y, i),
        0 <= i < 4 * cw * ch,
    ensures
        composite_prefix(cw, ch, layers, n)[i] == layers[k].0.bytes[source_index(
            cw,
            layers[k].0,
            layers[k].1.x,
            layers[k].1.y,
            i,
        )],
    decreases n,
{
    lemma_composite_prefix_len(cw, ch, layers, n - 1);
    if n == k + 1 {
        assert(composite_prefix(cw, ch, layers, n) == blit_bytes(
            composite_prefix(cw, ch, layers, k),
            cw,
            layers[k].0,
            layers[k].1.x,
            layers[k].1.y,
        ));
    } else {
        lemma_layer_bytes_survive(cw, ch, layers, k, n - 1, i);
        let prev = layers[n - 1];
        if k < n - 1 {
            lemma_regions_disjoint(cw, layers[k].0, layers[k].1, prev.0, prev.1, i);
        }
        assert(composite_prefix(cw, ch, layers, n) == blit_bytes(
            composite_prefix(cw, ch, layers, n - 1),
            cw,
            prev.0,
            prev.1.x,
            prev.1.y,
        ));
    }
}

/// What "straight overwrite of disjoint regions" buys: in a successful
/// composite whose rectangles are pairwise disjoint, every canvas byte inside
/// a placement's region holds that placement's source byte — whichever place
/// in the input order the placement had.
pub proof fn lemma_composite_order_irrelevant(
    cw: int,
    ch: int,
    images: Seq<(Seq<char>, ImageModel)>,
    entries: Seq<(Seq<char>, RectModel)>,
    k: int,
    i: int,
)
    requires
        cw >= 1,
        ch >= 0,
        composite_model(cw, ch, images, entries) is Ok,
        forall|a: int, b: int|
            #![trigger entries[a], entries[b]]
            0 <= a < b < entries.len() ==> entries[a].1.disjoint_from(entries[b].1),
        0 <= k < entries.len(),
        in_blit_region(cw, layers_of(images, entries)[k].0, entries[k].1.x, entries[k].1.y, i),
        0 <= i < 4 * cw * ch,
    ensures
        ({
            let img = layers_of(images, entries)[k].0;
            composite_model(cw, ch, images, entries)->Ok_0[i] == img.bytes[source_index(
                cw,
                img,
                entries[k].1.x,
                entries[k].1.y,
                i,
            )]
        }),
{
    let layers = layers_of(images, entries);
    assert(entry_ok(cw, ch, images, entries[k]));
    assert forall|m: int|
        0 <= m < layers.len() implies (#[trigger] layers[m]).1.w == layers[m].0.width
            && layers[m].1.h == layers[m].0.height && layers[m].1.within_canvas(cw, ch) by {
        assert(entry_ok(cw, ch, images, entries[m]));
        lemma_find_image_spec(images, entries[m].0);
    }
    assert forall|m1: int, m2: int|
        #![trigger layers[m1], layers[m2]]
        0 <= m1 < m2 < layers.len() implies layers[m1].1.disjoint_from(layers[m2].1) by {
        assert(entries[m1].1.disjoint_from(entries[m2].1));
    }
    lemma_layer_bytes_survive(cw, ch, layers, k, entries.len() as int, i);
}

/// The index of the first image named `id`, exactly as `find_image` says.
fn find_image_index(images: &Vec<(String, ImageBuffer)>, id: &String) -> (res: Option<usize>)
    ensures
        match res {
            Some(j) => find_image(images_model(images@), id@) == Some(j as int),
            None => find_image(images_model(images@), id@) is None,
        },
{
    let ghost m = images_model(images@);
    proof {
        lemma_find_image_spec(m, id@);
    }
    let mut k: usize = 0;
    while k < images.len()
        invariant
            0 <= k <= images.len(),
            m == images_model(images@),
            m.len() == images.len(),
            forall|i: int| 0 <= i < k ==> (#[trigger] m[i]).0 != id@,
        decreases images.len() - k,
    {
        proof {
            assert(m[k as int] == (images@[k as int].0@, images@[k as int].1@));
        }
        if images[k].0 == *id {
            proof {
                lemma_find_image_spec(m, id@);
                match find_image(m, id@) {
                    Some(j) => {
                        if j < k as int {
                            assert(m[j].0 != id@);
                        }
                        if j > k as int {
                            assert(m[k as int].0 != id@);
                        }
                    },
                    None => {
                        assert(m[k as int].0 != id@);
                    },
                }
            }
            return Some(k);
        }
        k = k + 1;
    }
    proof {
        lemma_find_image_spec(m, id@);
        match find_image(m, id@) {
            Some(j) => {
                assert(m[j].0 != id@);
            },
            None => {},
        }
    }
    None
}

/// Assembles the atlas: a zeroed `canvas_width x canvas_height` RGBA canvas
/// with every placed image copied to its rectangle, in placement order —
/// exactly the bytes of `composite_model`. Fails with `BlitOutOfBounds` when
/// a placement names no image, the rectangle's size differs from its image,
/// or the rectangle reaches outside the canvas; nothing is composited then.
pub fn composite(
    canvas_width: u32,
    canvas_height: u32,
    images: &Vec<(String, ImageBuffer)>,
    placements: &PlacementMap,
) -> (res: Result<ImageBuffer, PackError>)
    requires
        4 * (canvas_width as int) * (canvas_height as int) <= usize::MAX,
    ensures
        match res {
            Ok(canvas) => {
                &&& composite_model(
                    canvas_width as int,
                    canvas_height as int,
                    images_model(images@),
                    placements@,
                ) == Ok::<Seq<u8>, PackError>(canvas@.bytes)
                &&& canvas.width == canvas_width
                &&& canvas.height == canvas_height
                &&& canvas.wf()
            },
            Err(e) => composite_model(
                canvas_width as int,
                canvas_height as int,
                images_model(images@),
                placements@,
            ) == Err::<Seq<u8>, PackError>(e),
        },
{
    let ghost cw_i = canvas_width as int;
    let ghost ch_i = canvas_height as int;
    let ghost imgs = images_model(images@);
    let ghost entries = placements@;
    let n = placements.entries.len();
    let mut idxs: Vec<usize> = Vec::new();
    let mut k: usize = 0;
    while k < n
        invariant
            0 <= k <= n,
            cw_i == canvas_width as int && ch_i == canvas_height as int,
            imgs == images_model(images@),
            entries == placements@,
            n == placements.entries.len(),
            entries.len() == n,
            imgs.len() == images.len(),
            idxs@.len() == k,
            forall|m: int| 0 <= m < k ==> entry_ok(cw_i, ch_i, imgs, #[trigger] entries[m]),
            forall|m: int|
                0 <= m < k ==> Some(#[trigger] idxs@[m] as int) == find_image(imgs, entries[m].0),
        decreases n - k,
    {
        proof {
            assert(entries[k as int] == (
                placements.entries@[k as int].0@,
                placements.entries@[k as int].1@,
            ));
        }
        let found = find_image_index(images, &placements.entries[k].0);
        match found {
            None => {
                proof {
                    assert(!entry_ok(cw_i, ch_i, imgs, entries[k as int]));
                }
                return Err(PackError::BlitOutOfBounds);
            },
            Some(j) => {
                proof {
                    lemma_find_image_spec(imgs, entries[k as int].0);
                }
                let img = &images[j].1;
                let r = placements.entries[k].1;
                proof {
                    assert(imgs[j as int] == (images@[j as int].0@, images@[j as int].1@));
                }
                proof {
                    assert(4u128 * (img.width as u128) * (img.height as u128) <= u128::MAX)
                        by (nonlinear_arith)
                        requires
                            img.width <= u32::MAX,
                            img.height <= u32::MAX,
                    {}
                }
                let wf_ok: bool = (img.pixels.len() as u128) == 4u128 * (img.width as u128) * (
                img.height as u128);
                let fits: bool = wf_ok && r.w == img.width && r.h == img.height && (r.x as u64
                    + r.w as u64) <= canvas_width as u64 && (r.y as u64 + r.h as u64)
                    <= canvas_height as u64;
                if !fits {
                    proof {
                        assert(!entry_ok(cw_i, ch_i, imgs, entries[k as int]));
                    }
                    return Err(PackError::BlitOutOfBounds);
                }
                idxs.push(j);
                proof {
                    assert(entry_ok(cw_i, ch_i, imgs, entries[k as int]));
                }
            },
        }
        k = k + 1;
    }
    let ghost layers = layers_of(imgs, entries);
    proof {
        assert((canvas_width as int) * (canvas_height as int) >= 0) by (nonlinear_arith);
        assert(4 * cw_i * ch_i == 4 * (cw_i * ch_i)) by (nonlinear_arith);
    }
    let area: usize = (canvas_width as usize) * (canvas_height as usize);
    let total: usize = 4 * area;
    let mut pixels: Vec<u8> = Vec::new();
    while pixels.len() < total
        invariant
            pixels@.len() <= total,
            total == 4 * cw_i * ch_i,
            cw_i == canvas_width as int && ch_i == canvas_height as int,
            forall|i: int| 0 <= i < pixels@.len() ==> pixels@[i] == 0u8,
        decreases total - pixels.len(),
    {
        pixels.push(0u8);
    }
    proof {
        assert(pixels@ =~= zero_canvas(cw_i, ch_i));
        assert(composite_prefix(cw_i, ch_i, layers, 0) == zero_canvas(cw_i, ch_i));
    }
    let mut t: usize = 0;
    while t < n
        invariant
            0 <= t <= n,
            cw_i == canvas_width as int && ch_i == canvas_height as int,
            imgs == images_model(images@),
            entries == placements@,
            n == placements.entries.len(),
            entries.len() == n,
            imgs.len() == images.len(),
            idxs@.len() == n,
            layers == layers_of(imgs, entries),
            forall|m: int| 0 <= m < n ==> entry_ok(cw_i, ch_i, imgs, #[trigger] entries[m]),
            forall|m: int|
                0 <= m < n ==> Some(#[trigger] idxs@[m] as int) == find_image(imgs, entries[m].0),
            pixels@.len() == 4 * cw_i * ch_i,
            pixels@ == composite_prefix(cw_i, ch_i, layers, t as int),
        decreases n - t,
    {
        proof {
            assert(entries[t as int] == (
                placements.entries@[t as int].0@,
                placements.entries@[t as int].1@,
            ));
            assert(entry_ok(cw_i, ch_i, imgs, entries[t as int]));
            assert(Some(idxs@[t as int] as int) == find_image(imgs, entries[t as int].0));
            lemma_find_image_spec(imgs, entries[t as int].0);
        }
        let j = idxs[t];
        let r = placements.entries[t].1;
        proof {
            assert(imgs[j as int] == (images@[j as int].0@, images@[j as int].1@));
            assert(layers[t as int] == (imgs[j as int].1, entries[t as int].1));
        }
        blit(&mut pixels, canvas_width, canvas_height, &images[j].1, r.x, r.y);
        proof {
            assert(pixels@ == composite_prefix(cw_i, ch_i, layers, t as int + 1));
        }
        t = t + 1;
    }
    let canvas = ImageBuffer { width: canvas_width, height: canvas_height, pixels };
    proof {
        assert(composite_model(cw_i, ch_i, imgs, entries) == Ok::<Seq<u8>, PackError>(
            composite_prefix(cw_i, ch_i, layers, n as int),
        ));
    }
    Ok(canvas)
}

} // verus!

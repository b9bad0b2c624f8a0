//! The compositor: a registry of layer slots, the stacking order of the
//! displayed layers, a per-pixel cache of which layer shows where, and a
//! renderer that emits the pixel writes a change makes necessary.
use vstd::prelude::*;

use crate::color::Color;
use crate::distinct::lemma_distinct_short;
use crate::owner::{
    Surface, covers, color_at, shows, topmost, some_shows, lemma_topmost_insert_hidden,
    lemma_topmost_remove_hidden, lemma_topmost_agree, lemma_topmost_rescan, lemma_topmost_top,
};

verus! {

/// Number of layer slots.
pub const MAX_LAYERS: usize = 256;

/// Width of the screen in pixels.
pub const SCREEN_WIDTH: usize = 640;

/// Height of the screen in pixels.
pub const SCREEN_HEIGHT: usize = 480;

/// The ownership-map entry of a pixel that no displayed layer shows at.
pub const BACKGROUND: u16 = 256;

/// The index of the screen pixel `(x, y)` in row-major order.
pub open spec fn pix(x: int, y: int) -> int {
    y * SCREEN_WIDTH + x
}

/// `(x, y)` lies on the screen.
pub open spec fn on_screen(x: int, y: int) -> bool {
    0 <= x < SCREEN_WIDTH && 0 <= y < SCREEN_HEIGHT
}

/// `(x, y)` lies in the half-open rectangle `[x0, x1) × [y0, y1)`.
pub open spec fn in_rect(x: int, y: int, x0: int, y0: int, x1: int, y1: int) -> bool {
    x0 <= x < x1 && y0 <= y < y1
}

/// `a` begins with `b`.
pub open spec fn starts_with<T>(a: Seq<T>, b: Seq<T>) -> bool {
    &&& b.len() <= a.len()
    &&& forall|i: int| 0 <= i < b.len() ==> #[trigger] a[i] == b[i]
}

/// The end of the span of `len` positions starting at `a`, saturated at
/// the largest `usize`.
pub open spec fn span_end(a: int, len: int) -> int {
    if a + len <= usize::MAX {
        a + len
    } else {
        usize::MAX as int
    }
}

/// The stacking order `s` after the layer `m`, now at stacking index
/// `cur` (or hidden), is moved to stacking index `t` (or hidden).
pub open spec fn restack(s: Seq<usize>, cur: Option<usize>, t: Option<usize>, m: usize) -> Seq<usize> {
    match cur {
        None => match t {
            None => s,
            Some(z) => s.insert(z as int, m),
        },
        Some(o) => match t {
            None => s.remove(o as int),
            Some(z) => s.remove(o as int).insert(z as int, m),
        },
    }
}

/// The stacking indices whose layers are redrawn over the moved layer's
/// rectangle when it goes from `cur` to `t`: the new index when it is put
/// on the stack or raised, the indices it passed over when lowered, and
/// those below its old index when hidden.
pub open spec fn redraw_range(cur: Option<usize>, t: Option<usize>) -> Option<(int, int)> {
    match cur {
        None => match t {
            None => None,
            Some(z) => Some((z as int, z as int)),
        },
        Some(o) => match t {
            None => if o > 0 {
                Some((0, o - 1))
            } else {
                None
            },
            Some(z) => if o == z {
                None
            } else if o > z {
                Some((z as int, o as int))
            } else {
                Some((z as int, z as int))
            },
        },
    }
}

/// Moving a layer that does not show at `(x, y)` to another place in the
/// stack, onto it or off it changes nothing there.
pub proof fn lemma_restack_hidden(
    s: Seq<usize>,
    surfs: Seq<Surface>,
    x: int,
    y: int,
    below: int,
    cur: Option<usize>,
    t: Option<usize>,
    m: usize,
)
    requires
        cur matches Some(o) ==> o < s.len() && s[o as int] == m,
        t matches Some(z) ==> z <= if cur is Some { s.len() - 1 } else { s.len() as int },
        !shows(surfs[m as int], x, y),
    ensures
        topmost(restack(s, cur, t, m), surfs, x, y, below) == topmost(s, surfs, x, y, below),
{
    match cur {
        None => match t {
            None => {},
            Some(z) => lemma_topmost_insert_hidden(s, surfs, x, y, below, z as int, m),
        },
        Some(o) => {
            lemma_topmost_remove_hidden(s, surfs, x, y, below, o as int);
            match t {
                None => {},
                Some(z) => lemma_topmost_insert_hidden(s.remove(o as int), surfs, x, y, below, z as int, m),
            }
        },
    }
}

/// After the layer `m` moves within, onto or off the stack, recomputing
/// what shows at `(x, y)` from the moved layer's new index (from the
/// bottom when it was hidden), over a region that holds every pixel where
/// `m` shows, gives what the new stack shows there.
proof fn lemma_rescan_pixel(
    old_stack: Seq<usize>,
    surfs: Seq<Surface>,
    x: int,
    y: int,
    cur: Option<usize>,
    t: Option<usize>,
    m: usize,
    in_region: bool,
    old_entry: int,
    new_entry: int,
)
    requires
        cur matches Some(o) ==> o < old_stack.len() && old_stack[o as int] == m,
        t matches Some(z) ==> z <= if cur is Some { old_stack.len() - 1 } else { old_stack.len() as int },
        shows(surfs[m as int], x, y) ==> in_region,
        old_entry == topmost(old_stack, surfs, x, y, BACKGROUND as int),
        ({
            let ns = restack(old_stack, cur, t, m);
            let z0: int = match t {
                Some(z) => z as int,
                None => 0,
            };
            new_entry == if in_region {
                topmost(ns.subrange(z0, ns.len() as int), surfs, x, y, if z0 == 0 { BACKGROUND as int } else { old_entry })
            } else {
                old_entry
            }
        }),
    ensures
        new_entry == topmost(restack(old_stack, cur, t, m), surfs, x, y, BACKGROUND as int),
{
    let ns = restack(old_stack, cur, t, m);
    let z0: int = match t {
        Some(z) => z as int,
        None => 0,
    };
    if !shows(surfs[m as int], x, y) {
        lemma_restack_hidden(old_stack, surfs, x, y, BACKGROUND as int, cur, t, m);
    }
    if in_region {
        if z0 == 0 {
            assert(ns.subrange(0, ns.len() as int) =~= ns);
        } else {
            if shows(surfs[m as int], x, y) {
                let z = t.unwrap() as int;
                assert(ns.subrange(z, ns.len() as int)[0] == m);
            }
            lemma_topmost_rescan(ns, surfs, x, y, z0, old_entry, BACKGROUND as int);
        }
    }
}

/// Where the layer `m`, at index `z` of the stack, changes what it puts on
/// the screen, recomputing what shows at `(x, y)` from the bottom over its
/// old rectangle and then from `zf` (the bottom or `z`) over its new one
/// gives what the stack now shows there.
proof fn lemma_resurface_pixel(
    stack: Seq<usize>,
    s0: Seq<Surface>,
    s1: Seq<Surface>,
    x: int,
    y: int,
    m: usize,
    z: int,
    zf: int,
    in_old: bool,
    in_new: bool,
    old_entry: int,
    mid_entry: int,
    new_entry: int,
)
    requires
        0 <= z < stack.len(),
        stack[z] == m,
        zf == 0 || zf == z,
        s0.len() == s1.len(),
        m < s0.len(),
        forall|id: int| 0 <= id < s0.len() && id != m ==> #[trigger] s1[id] == s0[id],
        forall|k: int| 0 <= k < stack.len() ==> #[trigger] stack[k] < s0.len(),
        shows(s0[m as int], x, y) ==> in_old,
        shows(s1[m as int], x, y) ==> in_new,
        old_entry == topmost(stack, s0, x, y, BACKGROUND as int),
        mid_entry == if in_old {
            topmost(stack.subrange(0, stack.len() as int), s1, x, y, BACKGROUND as int)
        } else {
            old_entry
        },
        new_entry == if in_new {
            topmost(stack.subrange(zf, stack.len() as int), s1, x, y, if zf == 0 { BACKGROUND as int } else { mid_entry })
        } else {
            mid_entry
        },
    ensures
        new_entry == topmost(stack, s1, x, y, BACKGROUND as int),
{
    assert(stack.subrange(0, stack.len() as int) =~= stack);
    if !in_old && !shows(s1[m as int], x, y) {
        lemma_topmost_agree(stack, s0, s1, x, y, BACKGROUND as int);
    }
    if in_new && zf != 0 {
        if shows(s1[m as int], x, y) {
            assert(stack.subrange(zf, stack.len() as int)[0] == m);
        }
        lemma_topmost_rescan(stack, s1, x, y, zf, mid_entry, BACKGROUND as int);
    }
}

/// The end of the span of `len` positions starting at `a`, saturated at
/// the largest `usize`.
fn span(a: usize, len: usize) -> (r: usize)
    ensures
        r as int == span_end(a as int, len as int),
{
    if a <= usize::MAX - len {
        a + len
    } else {
        usize::MAX
    }
}

/// Where a pointer-relative move along one axis lands: the position `p`
/// moved by `d`, held within `[0, screen - extent]` (at `0` when the
/// extent exceeds the screen).
pub open spec fn clamp_axis(p: int, d: int, extent: int, screen: int) -> int {
    let c = p + d;
    let hi = screen - extent;
    let c1 = if c > hi { hi } else { c };
    if c1 < 0 { 0 } else { c1 }
}

/// Computes `clamp_axis` for a position on a screen at most
/// `SCREEN_WIDTH` wide.
fn clamp_move(p: usize, d: isize, extent: isize, screen: usize) -> (r: usize)
    requires
        screen <= SCREEN_WIDTH,
    ensures
        r as int == clamp_axis(p as int, d as int, extent as int, screen as int),
{
    let c: i128 = p as i128 + d as i128;
    let hi: i128 = screen as i128 - extent as i128;
    let c1: i128 = if c > hi { hi } else { c };
    let c2: i128 = if c1 < 0 { 0 } else { c1 };
    assert(c2 <= usize::MAX) by {
        assert(isize::MIN == -(isize::MAX + 1));
        assert(isize::MAX + 1 + SCREEN_WIDTH <= usize::MAX);
    }
    c2 as usize
}

/// One pixel to be sent to the framebuffer.
#[derive(Debug, Clone, Copy, PartialEq, Eq, Structural)]
pub struct PixelWrite {
    pub x: usize,
    pub y: usize,
    pub color: Color,
}

/// One layer slot: a pixel buffer of `xsize × ysize` colours in row-major
/// order, placed with its top-left corner at `(x0, y0)`.
pub struct Layer {
    pub buf: Vec<Color>,
    pub x0: usize,
    pub y0: usize,
    pub xsize: usize,
    pub ysize: usize,
    pub is_used: bool,
    /// The stacking index while displayed; `None` while hidden.
    pub z: Option<usize>,
    /// Pixels of this colour are not drawn.
    pub transparent: Option<Color>,
}

impl Layer {
    /// The rectangle and pixels this layer puts on the screen.
    pub open spec fn surface(&self) -> Surface {
        Surface {
            x0: self.x0 as int,
            y0: self.y0 as int,
            width: self.xsize as int,
            height: self.ysize as int,
            transparent: self.transparent,
            pixels: self.buf@,
        }
    }

    /// The buffer holds exactly one colour per pixel of the rectangle.
    pub open spec fn sized(&self) -> bool {
        self.buf@.len() == self.xsize * self.ysize
    }

    /// An unused slot with an empty buffer at the origin.
    pub fn new() -> (r: Layer)
        ensures
            r.buf@.len() == 0,
            r.x0 == 0 && r.y0 == 0 && r.xsize == 0 && r.ysize == 0,
            !r.is_used,
            r.z is None,
            r.transparent is None,
    {
        Layer {
            x0: 0,
            y0: 0,
            xsize: 0,
            ysize: 0,
            is_used: false,
            transparent: None,
            z: None,
            buf: Vec::new(),
        }
    }

    /// Attaches `buf` as the layer's pixels, with the given size and
    /// transparent colour; returns the buffer attached before.
    pub fn set(&mut self, buf: Vec<Color>, xsize: usize, ysize: usize, transparent: Option<Color>) -> (prev: Vec<Color>)
        requires
            buf@.len() == xsize * ysize,
        ensures
            prev == old(self).buf,
            final(self).buf == buf,
            final(self).xsize == xsize,
            final(self).ysize == ysize,
            final(self).transparent == transparent,
            final(self).x0 == old(self).x0,
            final(self).y0 == old(self).y0,
            final(self).is_used == old(self).is_used,
            final(self).z == old(self).z,
    {
        let mut prev = buf;
        std::mem::swap(&mut self.buf, &mut prev);
        self.xsize = xsize;
        self.ysize = ysize;
        self.transparent = transparent;
        prev
    }
}

/// The compositor's whole state.
pub struct LayerCtl {
    z_max: Option<usize>,
    /// Stacking index to layer id; entries `0..=z_max` are meaningful.
    layers: Vec<usize>,
    layer_data: Vec<Layer>,
    /// Ownership map: for each screen pixel, the id of the layer that shows
    /// there, or `BACKGROUND`.
    map: Vec<u16>,
    /// Pixel writes produced and not yet taken by `take_writes`.
    pending: Vec<PixelWrite>,
}

impl LayerCtl {
    /// Number of displayed layers.
    pub closed spec fn depth(&self) -> int {
        match self.z_max {
            Some(m) => m + 1,
            None => 0,
        }
    }

    /// Highest occupied stacking index, if any layer is displayed.
    pub closed spec fn spec_z_max(&self) -> Option<usize> {
        self.z_max
    }

    /// The displayed layers, bottom to top.
    pub closed spec fn stack(&self) -> Seq<usize> {
        self.layers@.subrange(0, self.depth())
    }

    /// The slot with id `id`.
    pub closed spec fn slot(&self, id: int) -> Layer {
        self.layer_data@[id]
    }

    /// What each slot puts on the screen, by id.
    pub closed spec fn surfaces(&self) -> Seq<Surface> {
        self.layer_data@.map_values(|l: Layer| l.surface())
    }

    /// The ownership-map entry of screen pixel `(x, y)`.
    pub closed spec fn map_at(&self, x: int, y: int) -> int {
        self.map@[pix(x, y)] as int
    }

    /// The pixel writes waiting to be taken.
    pub closed spec fn writes(&self) -> Seq<PixelWrite> {
        self.pending@
    }

    /// The layer that shows at `(x, y)`: the highest displayed layer whose
    /// pixel there is not transparent, or `BACKGROUND`.
    pub closed spec fn owner(&self, x: int, y: int) -> int {
        topmost(self.stack(), self.surfaces(), x, y, BACKGROUND as int)
    }

    /// The slots, the stacking order and the stored stacking indices agree:
    /// stacking indices `0..=z_max` hold distinct used slots, each of which
    /// records its own index, and no other slot records one.
    pub closed spec fn wf_layers(&self) -> bool {
        &&& self.layers@.len() == MAX_LAYERS
        &&& self.layer_data@.len() == MAX_LAYERS
        &&& self.map@.len() == SCREEN_WIDTH * SCREEN_HEIGHT
        &&& self.depth() <= MAX_LAYERS
        &&& forall|k: int|
            0 <= k < self.depth() ==> {
                &&& #[trigger] self.layers@[k] < MAX_LAYERS
                &&& self.layer_data@[self.layers@[k] as int].is_used
                &&& self.layer_data@[self.layers@[k] as int].z == Some(k as usize)
            }
        &&& forall|id: int|
            0 <= id < MAX_LAYERS ==> {
                &&& (#[trigger] self.layer_data@[id]).sized()
                &&& (self.layer_data@[id].z matches Some(k) ==> k < self.depth()
                    && self.layers@[k as int] == id)
            }
    }

    /// Every screen pixel's ownership-map entry names the layer that shows there.
    pub closed spec fn map_ok(&self) -> bool {
        forall|x: int, y: int| on_screen(x, y) ==> #[trigger] self.map_at(x, y) == self.owner(x, y)
    }

    /// The compositor's invariant.
    pub closed spec fn wf(&self) -> bool {
        self.wf_layers() && self.map_ok()
    }

    /// Everything but the pending writes is as in `other`.
    pub closed spec fn same_but_writes(&self, other: &LayerCtl) -> bool {
        &&& self.z_max == other.z_max
        &&& self.layers@ == other.layers@
        &&& self.layer_data@ == other.layer_data@
        &&& self.map@ == other.map@
    }

    /// Everything but the ownership map is as in `other`.
    pub closed spec fn same_but_map(&self, other: &LayerCtl) -> bool {
        &&& self.z_max == other.z_max
        &&& self.layers@ == other.layers@
        &&& self.layer_data@ == other.layer_data@
        &&& self.pending@ == other.pending@
        &&& self.map@.len() == other.map@.len()
    }

    /// The stack, `z_max`, every slot and what each slot shows are as in
    /// `other`.
    pub open spec fn keeps_layers(&self, other: &LayerCtl) -> bool {
        &&& self.stack() == other.stack()
        &&& self.spec_z_max() == other.spec_z_max()
        &&& self.depth() == other.depth()
        &&& self.surfaces() == other.surfaces()
        &&& forall|id: int| 0 <= id < MAX_LAYERS ==> #[trigger] self.slot(id) == other.slot(id)
    }

    /// A compositor with every slot unused, nothing displayed, every pixel
    /// owned by the background and no pending writes.
    pub fn new() -> (r: LayerCtl)
        ensures
            r.wf(),
            r.spec_z_max() is None,
            r.writes().len() == 0,
            forall|id: int| 0 <= id < MAX_LAYERS ==> !(#[trigger] r.slot(id)).is_used,
    {
        let mut layer_data: Vec<Layer> = Vec::new();
        let mut i: usize = 0;
        while i < MAX_LAYERS
            invariant
                i <= MAX_LAYERS,
                layer_data@.len() == i,
                forall|id: int|
                    0 <= id < i ==> {
                        &&& !(#[trigger] layer_data@[id]).is_used
                        &&& layer_data@[id].z is None
                        &&& layer_data@[id].sized()
                    },
            decreases MAX_LAYERS - i,
        {
            let l = Layer::new();
            assert(l.sized());
            layer_data.push(l);
            assert(layer_data@[i as int] == l);
            i += 1;
        }
        let r = LayerCtl {
            z_max: None,
            layers: vec![0usize; MAX_LAYERS],
            layer_data,
            map: vec![BACKGROUND; SCREEN_WIDTH * SCREEN_HEIGHT],
            pending: Vec::new(),
        };
        assert forall|x: int, y: int| on_screen(x, y) implies #[trigger] r.map_at(x, y) == r.owner(x, y) by {
            assert(0 <= pix(x, y) < SCREEN_WIDTH * SCREEN_HEIGHT);
            assert(r.stack().len() == 0);
        }
        r
    }

    /// The id of the first unused slot, or `None` when every slot is in use.
    fn first_free(&self) -> (r: Option<usize>)
        requires
            self.layer_data@.len() == MAX_LAYERS,
        ensures
            match r {
                None => forall|id: int| 0 <= id < MAX_LAYERS ==> (#[trigger] self.slot(id)).is_used,
                Some(i) => {
                    &&& i < MAX_LAYERS
                    &&& !self.slot(i as int).is_used
                    &&& forall|id: int| 0 <= id < i ==> (#[trigger] self.slot(id)).is_used
                },
            },
    {
        let mut i: usize = 0;
        while i < MAX_LAYERS
            invariant
                i <= MAX_LAYERS,
                self.layer_data@.len() == MAX_LAYERS,
                forall|id: int| 0 <= id < i ==> (#[trigger] self.layer_data@[id]).is_used,
            decreases MAX_LAYERS - i,
        {
            if !self.layer_data[i].is_used {
                return Some(i);
            }
            i += 1;
        }
        None
    }

    /// Marks the first unused slot used and hidden and returns its id, or
    /// `None` when every slot is in use.
    pub fn allocate(&mut self) -> (r: Option<usize>)
        requires
            old(self).wf(),
        ensures
            final(self).wf(),
            final(self).stack() == old(self).stack(),
            final(self).surfaces() == old(self).surfaces(),
            final(self).spec_z_max() == old(self).spec_z_max(),
            final(self).writes() == old(self).writes(),
            match r {
                None => {
                    &&& forall|id: int| 0 <= id < MAX_LAYERS ==> (#[trigger] old(self).slot(id)).is_used
                    &&& forall|id: int| 0 <= id < MAX_LAYERS ==> #[trigger] final(self).slot(id) == old(self).slot(id)
                },
                Some(i) => {
                    &&& i < MAX_LAYERS
                    &&& !old(self).slot(i as int).is_used
                    &&& forall|id: int| 0 <= id < i ==> (#[trigger] old(self).slot(id)).is_used
                    &&& final(self).slot(i as int).is_used
                    &&& final(self).slot(i as int).z is None
                    &&& final(self).slot(i as int).surface() == old(self).slot(i as int).surface()
                    &&& forall|id: int| 0 <= id < MAX_LAYERS && id != i ==> #[trigger] final(self).slot(id) == old(self).slot(id)
                },
            },
    {
        match self.first_free() {
            None => None,
            Some(i) => {
                proof {
                    // a slot that is not used is not displayed
                    if self.layer_data@[i as int].z is Some {
                        let k = self.layer_data@[i as int].z.unwrap() as int;
                        assert(self.layers@[k] == i);
                    }
                }
                let ghost before = *self;
                self.layer_data[i].is_used = true;
                proof {
                    assert(self.surfaces() =~= before.surfaces());
                    assert(self.stack() =~= before.stack());
                    assert forall|x: int, y: int| on_screen(x, y) implies #[trigger] self.map_at(x, y) == self.owner(x, y) by {
                        assert(before.map_at(x, y) == before.owner(x, y));
                    }
                    assert forall|k: int| 0 <= k < self.depth() implies {
                        &&& #[trigger] self.layers@[k] < MAX_LAYERS
                        &&& self.layer_data@[self.layers@[k] as int].is_used
                        &&& self.layer_data@[self.layers@[k] as int].z == Some(k as usize)
                    } by {
                        assert(before.layers@[k] < MAX_LAYERS);
                    }
                    assert forall|id: int| 0 <= id < MAX_LAYERS implies {
                        &&& (#[trigger] self.layer_data@[id]).sized()
                        &&& (self.layer_data@[id].z matches Some(k) ==> k < self.depth()
                            && self.layers@[k as int] == id)
                    } by {
                        assert(before.layer_data@[id].sized());
                    }
                }
                Some(i)
            },
        }
    }

    /// Sets the ownership map to `BACKGROUND` on the screen pixels of the
    /// rectangle `[x0, x1) × [y0, y1)`.
    fn clear_map(&mut self, x0: usize, y0: usize, x1: usize, y1: usize)
        requires
            old(self).map@.len() == SCREEN_WIDTH * SCREEN_HEIGHT,
            x1 <= SCREEN_WIDTH,
            y1 <= SCREEN_HEIGHT,
        ensures
            final(self).same_but_map(old(self)),
            forall|x: int, y: int|
                on_screen(x, y) ==> #[trigger] final(self).map@[pix(x, y)] == if in_rect(x, y, x0 as int, y0 as int, x1 as int, y1 as int) {
                    BACKGROUND
                } else {
                    old(self).map@[pix(x, y)]
                },
    {
        let mut y: usize = y0;
        while y < y1
            invariant
                y0 <= y,
                y <= y1 || y == y0,
                old(self).map@.len() == SCREEN_WIDTH * SCREEN_HEIGHT,
                y1 <= SCREEN_HEIGHT,
                x1 <= SCREEN_WIDTH,
                self.same_but_map(old(self)),
                forall|px: int, py: int|
                    on_screen(px, py) ==> #[trigger] self.map@[pix(px, py)] == if in_rect(px, py, x0 as int, y0 as int, x1 as int, y as int) {
                        BACKGROUND
                    } else {
                        old(self).map@[pix(px, py)]
                    },
            decreases y1 - y,
        {
            let mut x: usize = x0;
            while x < x1
                invariant
                    y0 <= y < y1,
                    y1 <= SCREEN_HEIGHT,
                    x1 <= SCREEN_WIDTH,
                    x0 <= x,
                    x <= x1 || x == x0,
                    old(self).map@.len() == SCREEN_WIDTH * SCREEN_HEIGHT,
                    self.same_but_map(old(self)),
                    forall|px: int, py: int|
                        on_screen(px, py) ==> #[trigger] self.map@[pix(px, py)] == if in_rect(px, py, x0 as int, y0 as int, x1 as int, y as int)
                            || (py == y && x0 <= px < x) {
                            BACKGROUND
                        } else {
                            old(self).map@[pix(px, py)]
                        },
                decreases x1 - x,
            {
                self.map.set(y * SCREEN_WIDTH + x, BACKGROUND);
                x += 1;
            }
            y += 1;
        }
    }

    /// Records the layer at stacking index `h` as the owner of each screen
    /// pixel of the rectangle `[x0, x1) × [y0, y1)` where that layer shows.
    fn scan_layer(&mut self, h: usize, x0: usize, y0: usize, x1: usize, y1: usize)
        requires
            old(self).wf_layers(),
            h < old(self).depth(),
            x1 <= SCREEN_WIDTH,
            y1 <= SCREEN_HEIGHT,
        ensures
            final(self).same_but_map(old(self)),
            forall|x: int, y: int|
                on_screen(x, y) ==> #[trigger] final(self).map@[pix(x, y)] == if in_rect(x, y, x0 as int, y0 as int, x1 as int, y1 as int)
                    && shows(old(self).surfaces()[old(self).layers@[h as int] as int], x, y) {
                    old(self).layers@[h as int] as u16
                } else {
                    old(self).map@[pix(x, y)]
                },
    {
        let si = self.layers[h];
        let lx = self.layer_data[si].x0;
        let ly = self.layer_data[si].y0;
        let w = self.layer_data[si].xsize;
        let ht = self.layer_data[si].ysize;
        let blen = self.layer_data[si].buf.len();
        let ghost surf = old(self).surfaces()[si as int];
        assert(self.layer_data@[si as int].sized());
        assert(surf == self.layer_data@[si as int].surface());
        let bx0: usize = if x0 > lx { x0 - lx } else { 0 };
        let by0: usize = if y0 > ly { y0 - ly } else { 0 };
        let bx1: usize = if x1 > lx { if x1 - lx < w { x1 - lx } else { w } } else { 0 };
        let by1: usize = if y1 > ly { if y1 - ly < ht { y1 - ly } else { ht } } else { 0 };
        let mut by: usize = by0;
        while by < by1
            invariant
                self.same_but_map(old(self)),
                self.layer_data@[si as int].surface() == surf,
                si == old(self).layers@[h as int],
                si < MAX_LAYERS,
                self.layer_data@[si as int].sized(),
                lx == surf.x0, ly == surf.y0, w == surf.width, ht == surf.height,
                by1 <= ht,
                by1 == 0 || ly + by1 <= y1,
                bx1 <= w,
                bx1 == 0 || lx + bx1 <= x1,
                x1 > lx ==> bx1 == if x1 - lx < w { x1 - lx } else { w as int },
                y1 > ly ==> by1 == if y1 - ly < ht { y1 - ly } else { ht as int },
                x1 <= lx ==> bx1 == 0,
                y1 <= ly ==> by1 == 0,
                bx0 == if x0 > lx { x0 - lx } else { 0 },
                by0 == if y0 > ly { y0 - ly } else { 0 },
                by0 <= by,
                x1 <= SCREEN_WIDTH,
                y1 <= SCREEN_HEIGHT,
                self.layer_data@.len() == MAX_LAYERS,
                old(self).wf_layers(),
                blen == w * ht,
                forall|x: int, y: int|
                    on_screen(x, y) ==> #[trigger] self.map@[pix(x, y)] == if in_rect(x, y, x0 as int, y0 as int, x1 as int, y1 as int)
                        && shows(surf, x, y) && y - ly < by {
                        si as u16
                    } else {
                        old(self).map@[pix(x, y)]
                    },
            decreases by1 - by,
        {
            let vy = ly + by;
            let mut bx: usize = bx0;
            while bx < bx1
                invariant
                    self.same_but_map(old(self)),
                    self.layer_data@[si as int].surface() == surf,
                    si == old(self).layers@[h as int],
                    si < MAX_LAYERS,
                    self.layer_data@[si as int].sized(),
                    lx == surf.x0, ly == surf.y0, w == surf.width, ht == surf.height,
                    by < by1,
                    by1 <= ht,
                    ly + by1 <= y1,
                    vy == ly + by,
                    bx1 <= w,
                    bx1 == 0 || lx + bx1 <= x1,
                    x1 > lx ==> bx1 == if x1 - lx < w { x1 - lx } else { w as int },
                    x1 <= lx ==> bx1 == 0,
                    bx0 == if x0 > lx { x0 - lx } else { 0 },
                    by0 == if y0 > ly { y0 - ly } else { 0 },
                    by0 <= by,
                    bx0 <= bx,
                    x1 <= SCREEN_WIDTH,
                    y1 <= SCREEN_HEIGHT,
                    self.layer_data@.len() == MAX_LAYERS,
                    old(self).wf_layers(),
                    blen == w * ht,
                    forall|x: int, y: int|
                        on_screen(x, y) ==> #[trigger] self.map@[pix(x, y)] == if in_rect(x, y, x0 as int, y0 as int, x1 as int, y1 as int)
                            && shows(surf, x, y) && (y - ly < by || (y - ly == by && x - lx < bx)) {
                            si as u16
                        } else {
                            old(self).map@[pix(x, y)]
                        },
                decreases bx1 - bx,
            {
                let vx = lx + bx;
                proof {
                    assert(by * w + bx < w * ht) by (nonlinear_arith)
                        requires by < ht, bx < w;
                    assert(by * w <= by * w + bx);
                }
                let c = self.layer_data[si].buf[by * w + bx];
                let clear = match self.layer_data[si].transparent {
                    Some(t) => t == c,
                    None => false,
                };
                proof {
                    assert(color_at(surf, vx as int, vy as int) == c);
                    assert(covers(surf, vx as int, vy as int));
                    assert(in_rect(vx as int, vy as int, x0 as int, y0 as int, x1 as int, y1 as int));
                    assert(shows(surf, vx as int, vy as int) == !clear);
                }
                let ghost prev = self.map@;
                if !clear {
                    self.map.set(vy * SCREEN_WIDTH + vx, si as u16);
                }
                proof {
                    assert forall|x: int, y: int| on_screen(x, y) implies #[trigger] self.map@[pix(x, y)] == if in_rect(x, y, x0 as int, y0 as int, x1 as int, y1 as int)
                        && shows(surf, x, y) && (y - ly < by || (y - ly == by && x - lx < bx + 1)) {
                        si as u16
                    } else {
                        old(self).map@[pix(x, y)]
                    } by {
                        if x == vx && y == vy {
                        } else {
                            assert(pix(x, y) != pix(vx as int, vy as int));
                            assert(self.map@[pix(x, y)] == prev[pix(x, y)]);
                        }
                    }
                }
                bx += 1;
            }
            by += 1;
        }
    }

    /// Recomputes the ownership map on the screen pixels of the rectangle
    /// `[x0, x1) × [y0, y1)` for the layers at stacking indices `z0` and
    /// above, lowest first, so that a higher layer's visible pixel replaces
    /// a lower layer's. From `z0 == 0` the rectangle starts from the
    /// background; from a higher index it starts from the map's own entries.
    /// Nothing outside the rectangle is read or written.
    pub fn refresh_map(&mut self, x0: usize, y0: usize, x1: usize, y1: usize, z0: usize)
        requires
            old(self).wf_layers(),
            z0 <= old(self).depth(),
        ensures
            final(self).wf_layers(),
            final(self).same_but_map(old(self)),
            forall|x: int, y: int|
                on_screen(x, y) ==> #[trigger] final(self).map_at(x, y) == if in_rect(x, y, x0 as int, y0 as int, x1 as int, y1 as int) {
                    topmost(
                        old(self).stack().subrange(z0 as int, old(self).depth()),
                        old(self).surfaces(),
                        x,
                        y,
                        if z0 == 0 { BACKGROUND as int } else { old(self).map_at(x, y) },
                    )
                } else {
                    old(self).map_at(x, y)
                },
            old(self).map_ok() ==> final(self).map_ok(),
            old(self).wf() ==> final(self).wf(),
            final(self).keeps_layers(old(self)),
            final(self).writes() == old(self).writes(),
    {
        let cx1: usize = if x1 < SCREEN_WIDTH { x1 } else { SCREEN_WIDTH };
        let cy1: usize = if y1 < SCREEN_HEIGHT { y1 } else { SCREEN_HEIGHT };
        if z0 == 0 {
            self.clear_map(x0, y0, cx1, cy1);
        }
        let ghost start = self.map@;
        let ghost stack = old(self).stack();
        let ghost surfs = old(self).surfaces();
        let depth: usize = match self.z_max {
            Some(m) => m + 1,
            None => 0,
        };
        let mut h: usize = z0;
        while h < depth
            invariant
                self.same_but_map(old(self)),
                old(self).wf_layers(),
                stack == old(self).stack(),
                surfs == old(self).surfaces(),
                depth == old(self).depth(),
                z0 <= h <= depth,
                cx1 <= SCREEN_WIDTH,
                cy1 <= SCREEN_HEIGHT,
                forall|x: int, y: int|
                    on_screen(x, y) ==> #[trigger] self.map@[pix(x, y)] as int == if in_rect(x, y, x0 as int, y0 as int, cx1 as int, cy1 as int) {
                        topmost(stack.subrange(z0 as int, h as int), surfs, x, y, start[pix(x, y)] as int)
                    } else {
                        start[pix(x, y)] as int
                    },
            decreases depth - h,
        {
            proof {
                assert(self.wf_layers());
            }
            self.scan_layer(h, x0, y0, cx1, cy1);
            proof {
                assert forall|x: int, y: int| on_screen(x, y) implies #[trigger] self.map@[pix(x, y)] as int == if in_rect(x, y, x0 as int, y0 as int, cx1 as int, cy1 as int) {
                    topmost(stack.subrange(z0 as int, h + 1), surfs, x, y, start[pix(x, y)] as int)
                } else {
                    start[pix(x, y)] as int
                } by {
                    let s1 = stack.subrange(z0 as int, h + 1);
                    assert(s1.drop_last() =~= stack.subrange(z0 as int, h as int));
                    assert(s1.last() == old(self).layers@[h as int]);
                    assert(old(self).layers@[h as int] < MAX_LAYERS);
                }
            }
            h += 1;
        }
        proof {
            assert(stack.subrange(z0 as int, depth as int) =~= old(self).stack().subrange(z0 as int, old(self).depth()));
            assert forall|x: int, y: int| on_screen(x, y) implies #[trigger] self.map_at(x, y) == if in_rect(x, y, x0 as int, y0 as int, x1 as int, y1 as int) {
                topmost(
                    old(self).stack().subrange(z0 as int, old(self).depth()),
                    old(self).surfaces(),
                    x,
                    y,
                    if z0 == 0 { BACKGROUND as int } else { old(self).map_at(x, y) },
                )
            } else {
                old(self).map_at(x, y)
            } by {
                assert(in_rect(x, y, x0 as int, y0 as int, x1 as int, y1 as int) == in_rect(x, y, x0 as int, y0 as int, cx1 as int, cy1 as int));
            }
            if old(self).map_ok() {
                assert forall|x: int, y: int| on_screen(x, y) implies #[trigger] self.map_at(x, y) == self.owner(x, y) by {
                    assert(old(self).map_at(x, y) == old(self).owner(x, y));
                    assert(self.stack() == old(self).stack());
                    assert(self.surfaces() == old(self).surfaces());
                    if in_rect(x, y, x0 as int, y0 as int, x1 as int, y1 as int) && z0 != 0 {
                        lemma_topmost_rescan(old(self).stack(), old(self).surfaces(), x, y, z0 as int, old(self).map_at(x, y), BACKGROUND as int);
                    }
                    if in_rect(x, y, x0 as int, y0 as int, x1 as int, y1 as int) && z0 == 0 {
                        assert(old(self).stack().subrange(0, old(self).depth()) =~= old(self).stack());
                    }
                }
            }
        }
    }

    /// The ownership map gives screen pixel `(x, y)` to a displayed layer
    /// whose stacking index lies in `[z0, z1]` and whose rectangle contains it.
    pub closed spec fn owned_between(&self, x: int, y: int, z0: int, z1: int) -> bool {
        let o = self.map_at(x, y);
        &&& 0 <= o < MAX_LAYERS
        &&& (self.layer_data@[o].z matches Some(k) && z0 <= k <= z1)
        &&& covers(self.layer_data@[o].surface(), x, y)
    }

    /// Each pending write from index `start` on is of a screen pixel of the
    /// rectangle `[x0, x1) × [y0, y1)` that the ownership map gives to a
    /// layer with stacking index in `[z0, z1]`, in that layer's colour.
    #[verifier::opaque]
    pub closed spec fn painted_each(&self, start: int, end: int, x0: int, y0: int, x1: int, y1: int, z0: int, z1: int) -> bool {
        let w = self.pending@;
        forall|i: int|
            start <= i < end ==> {
                &&& on_screen((#[trigger] w[i]).x as int, w[i].y as int)
                &&& in_rect(w[i].x as int, w[i].y as int, x0, y0, x1, y1)
                &&& self.owned_between(w[i].x as int, w[i].y as int, z0, z1)
                &&& w[i].color == color_at(
                    self.layer_data@[self.map_at(w[i].x as int, w[i].y as int)].surface(),
                    w[i].x as int,
                    w[i].y as int,
                )
            }
    }

    /// No two pending writes from index `start` on are of the same pixel.
    #[verifier::opaque]
    pub closed spec fn painted_once(&self, start: int, end: int) -> bool {
        let w = self.pending@;
        forall|i: int, j: int|
            start <= i < j < end ==> (#[trigger] w[i]).x != (#[trigger] w[j]).x || w[i].y != w[j].y
    }

    /// Every screen pixel of the rectangle `[x0, x1) × [y0, y1)` that the
    /// ownership map gives to a layer with stacking index in `[z0, z1]` has
    /// a pending write from index `start` on.
    #[verifier::opaque]
    pub closed spec fn painted_all(&self, start: int, end: int, x0: int, y0: int, x1: int, y1: int, z0: int, z1: int) -> bool {
        let w = self.pending@;
        forall|x: int, y: int|
            on_screen(x, y) && in_rect(x, y, x0, y0, x1, y1) && #[trigger] self.owned_between(x, y, z0, z1)
                ==> exists|i: int| start <= i < end && (#[trigger] w[i]).x == x && w[i].y == y
    }

    /// The pending writes from index `start` up to `end` redraw the screen pixels of
    /// the rectangle `[x0, x1) × [y0, y1)` that the ownership map gives to a
    /// layer with stacking index in `[z0, z1]`: each such pixel exactly
    /// once, in its owner's colour, and no other pixel.
    pub closed spec fn painted(&self, start: int, end: int, x0: int, y0: int, x1: int, y1: int, z0: int, z1: int) -> bool {
        &&& 0 <= start <= end <= self.pending@.len()
        &&& self.painted_each(start, end, x0, y0, x1, y1, z0, z1)
        &&& self.painted_once(start, end)
        &&& self.painted_all(start, end, x0, y0, x1, y1, z0, z1)
    }

    /// A painting stays one when writes are appended after it.
    proof fn lemma_painted_kept(&self, before: &LayerCtl, start: int, end: int, x0: int, y0: int, x1: int, y1: int, z0: int, z1: int)
        requires
            before.painted(start, end, x0, y0, x1, y1, z0, z1),
            self.map@ == before.map@,
            before.layer_data@.len() == MAX_LAYERS,
            self.layer_data@.len() == before.layer_data@.len(),
            forall|i: int|
                0 <= i < self.layer_data@.len() ==> (#[trigger] self.layer_data@[i]).surface() == before.layer_data@[i].surface()
                    && self.layer_data@[i].z == before.layer_data@[i].z,
            starts_with(self.pending@, before.pending@),
        ensures
            self.painted(start, end, x0, y0, x1, y1, z0, z1),
    {
        reveal(LayerCtl::painted_each);
        reveal(LayerCtl::painted_once);
        reveal(LayerCtl::painted_all);
        assert forall|i: int| 0 <= i < end implies self.pending@[i] == before.pending@[i] by {}
        assert forall|i: int| start <= i < end implies {
            &&& on_screen((#[trigger] self.pending@[i]).x as int, self.pending@[i].y as int)
            &&& in_rect(self.pending@[i].x as int, self.pending@[i].y as int, x0, y0, x1, y1)
            &&& self.owned_between(self.pending@[i].x as int, self.pending@[i].y as int, z0, z1)
            &&& self.pending@[i].color == color_at(
                self.layer_data@[self.map_at(self.pending@[i].x as int, self.pending@[i].y as int)].surface(),
                self.pending@[i].x as int,
                self.pending@[i].y as int,
            )
        } by {
            let p = self.pending@[i];
            assert(p == before.pending@[i]);
            assert(before.owned_between(p.x as int, p.y as int, z0, z1));
            let o = self.map_at(p.x as int, p.y as int);
            assert(self.layer_data@[o].surface() == before.layer_data@[o].surface());
        }
        assert forall|x: int, y: int|
            on_screen(x, y) && in_rect(x, y, x0, y0, x1, y1) && #[trigger] self.owned_between(x, y, z0, z1)
            implies exists|i: int| start <= i < end && (#[trigger] self.pending@[i]).x == x && self.pending@[i].y == y by {
            let o = self.map_at(x, y);
            assert(self.layer_data@[o].surface() == before.layer_data@[o].surface());
            assert(before.owned_between(x, y, z0, z1));
            let i = choose|i: int| start <= i < end && (#[trigger] before.pending@[i]).x == x && before.pending@[i].y == y;
            assert(self.pending@[i] == before.pending@[i]);
        }
    }

    /// Emits, in row-major order, a write for each screen pixel of the
    /// rectangle `[x0, x1) × [y0, y1)` inside the rectangle of the layer at
    /// stacking index `h` that the ownership map gives to that layer.
    fn paint_layer(&mut self, h: usize, x0: usize, y0: usize, x1: usize, y1: usize)
        requires
            old(self).wf_layers(),
            h < old(self).depth(),
            x1 <= SCREEN_WIDTH,
            y1 <= SCREEN_HEIGHT,
        ensures
            final(self).same_but_writes(old(self)),
            starts_with(final(self).pending@, old(self).pending@),
            forall|i: int|
                old(self).pending@.len() <= i < final(self).pending@.len() ==> {
                    let p = #[trigger] final(self).pending@[i];
                    &&& on_screen(p.x as int, p.y as int)
                    &&& in_rect(p.x as int, p.y as int, x0 as int, y0 as int, x1 as int, y1 as int)
                    &&& old(self).map@[pix(p.x as int, p.y as int)] == old(self).layers@[h as int]
                    &&& covers(old(self).surfaces()[old(self).layers@[h as int] as int], p.x as int, p.y as int)
                    &&& p.color == color_at(old(self).surfaces()[old(self).layers@[h as int] as int], p.x as int, p.y as int)
                },
            forall|i: int, j: int|
                old(self).pending@.len() <= i < j < final(self).pending@.len()
                    ==> pix((#[trigger] final(self).pending@[i]).x as int, final(self).pending@[i].y as int)
                        < pix((#[trigger] final(self).pending@[j]).x as int, final(self).pending@[j].y as int),
            forall|x: int, y: int|
                on_screen(x, y) && in_rect(x, y, x0 as int, y0 as int, x1 as int, y1 as int)
                    && covers(old(self).surfaces()[old(self).layers@[h as int] as int], x, y)
                    && #[trigger] old(self).map@[pix(x, y)] == old(self).layers@[h as int]
                    ==> exists|i: int|
                        old(self).pending@.len() <= i < final(self).pending@.len()
                            && (#[trigger] final(self).pending@[i]).x == x && final(self).pending@[i].y == y,
    {
        let si = self.layers[h];
        let lx = self.layer_data[si].x0;
        let ly = self.layer_data[si].y0;
        let w = self.layer_data[si].xsize;
        let ht = self.layer_data[si].ysize;
        let blen = self.layer_data[si].buf.len();
        let ghost surf = old(self).surfaces()[si as int];
        let ghost start = old(self).pending@.len() as int;
        assert(self.layer_data@[si as int].sized());
        assert(surf == self.layer_data@[si as int].surface());
        let bx0: usize = if x0 > lx { x0 - lx } else { 0 };
        let by0: usize = if y0 > ly { y0 - ly } else { 0 };
        let bx1: usize = if x1 > lx { if x1 - lx < w { x1 - lx } else { w } } else { 0 };
        let by1: usize = if y1 > ly { if y1 - ly < ht { y1 - ly } else { ht } } else { 0 };
        let mut by: usize = by0;
        while by < by1
            invariant
                self.same_but_writes(old(self)),
                old(self).wf_layers(),
                self.layer_data@[si as int].surface() == surf,
                si == old(self).layers@[h as int],
                si < MAX_LAYERS,
                self.layer_data@[si as int].sized(),
                lx == surf.x0, ly == surf.y0, w == surf.width, ht == surf.height,
                blen == w * ht,
                by1 <= ht,
                by1 == 0 || ly + by1 <= y1,
                bx1 <= w,
                bx1 == 0 || lx + bx1 <= x1,
                x1 > lx ==> bx1 == if x1 - lx < w { x1 - lx } else { w as int },
                y1 > ly ==> by1 == if y1 - ly < ht { y1 - ly } else { ht as int },
                x1 <= lx ==> bx1 == 0,
                y1 <= ly ==> by1 == 0,
                bx0 == if x0 > lx { x0 - lx } else { 0 },
                by0 == if y0 > ly { y0 - ly } else { 0 },
                by0 <= by,
                x1 <= SCREEN_WIDTH,
                y1 <= SCREEN_HEIGHT,
                start == old(self).pending@.len(),
                starts_with(self.pending@, old(self).pending@),
                forall|i: int|
                    start <= i < self.pending@.len() ==> {
                        let p = #[trigger] self.pending@[i];
                        &&& on_screen(p.x as int, p.y as int)
                        &&& in_rect(p.x as int, p.y as int, x0 as int, y0 as int, x1 as int, y1 as int)
                        &&& old(self).map@[pix(p.x as int, p.y as int)] == si
                        &&& covers(surf, p.x as int, p.y as int)
                        &&& p.color == color_at(surf, p.x as int, p.y as int)
                        &&& p.y - ly < by
                    },
                forall|i: int, j: int|
                    start <= i < j < self.pending@.len()
                        ==> pix((#[trigger] self.pending@[i]).x as int, self.pending@[i].y as int)
                            < pix((#[trigger] self.pending@[j]).x as int, self.pending@[j].y as int),
                forall|x: int, y: int|
                    on_screen(x, y) && in_rect(x, y, x0 as int, y0 as int, x1 as int, y1 as int)
                        && covers(surf, x, y) && y - ly < by
                        && #[trigger] old(self).map@[pix(x, y)] == si
                        ==> exists|i: int|
                            start <= i < self.pending@.len()
                                && (#[trigger] self.pending@[i]).x == x && self.pending@[i].y == y,
            decreases by1 - by,
        {
            let vy = ly + by;
            let mut bx: usize = bx0;
            while bx < bx1
                invariant
                    self.same_but_writes(old(self)),
                    old(self).wf_layers(),
                    self.layer_data@[si as int].surface() == surf,
                    si == old(self).layers@[h as int],
                    si < MAX_LAYERS,
                    self.layer_data@[si as int].sized(),
                    lx == surf.x0, ly == surf.y0, w == surf.width, ht == surf.height,
                    blen == w * ht,
                    by < by1,
                    by1 <= ht,
                    ly + by1 <= y1,
                    vy == ly + by,
                    bx1 <= w,
                    bx1 == 0 || lx + bx1 <= x1,
                    x1 > lx ==> bx1 == if x1 - lx < w { x1 - lx } else { w as int },
                    x1 <= lx ==> bx1 == 0,
                    bx0 == if x0 > lx { x0 - lx } else { 0 },
                    by0 == if y0 > ly { y0 - ly } else { 0 },
                    by0 <= by,
                    bx0 <= bx,
                    x1 <= SCREEN_WIDTH,
                    y1 <= SCREEN_HEIGHT,
                    start == old(self).pending@.len(),
                    starts_with(self.pending@, old(self).pending@),
                    forall|i: int|
                        start <= i < self.pending@.len() ==> {
                            let p = #[trigger] self.pending@[i];
                            &&& on_screen(p.x as int, p.y as int)
                            &&& in_rect(p.x as int, p.y as int, x0 as int, y0 as int, x1 as int, y1 as int)
                            &&& old(self).map@[pix(p.x as int, p.y as int)] == si
                            &&& covers(surf, p.x as int, p.y as int)
                            &&& p.color == color_at(surf, p.x as int, p.y as int)
                            &&& (p.y - ly < by || (p.y - ly == by && p.x - lx < bx))
                        },
                    forall|i: int, j: int|
                        start <= i < j < self.pending@.len()
                            ==> pix((#[trigger] self.pending@[i]).x as int, self.pending@[i].y as int)
                                < pix((#[trigger] self.pending@[j]).x as int, self.pending@[j].y as int),
                    forall|x: int, y: int|
                        on_screen(x, y) && in_rect(x, y, x0 as int, y0 as int, x1 as int, y1 as int)
                            && covers(surf, x, y) && (y - ly < by || (y - ly == by && x - lx < bx))
                            && #[trigger] old(self).map@[pix(x, y)] == si
                            ==> exists|i: int|
                                start <= i < self.pending@.len()
                                    && (#[trigger] self.pending@[i]).x == x && self.pending@[i].y == y,
                decreases bx1 - bx,
            {
                let vx = lx + bx;
                let owner = self.map[vy * SCREEN_WIDTH + vx];
                if owner as usize == si {
                    proof {
                        assert(by * w + bx < w * ht) by (nonlinear_arith)
                            requires by < ht, bx < w;
                        assert(by * w <= by * w + bx);
                    }
                    let c = self.layer_data[si].buf[by * w + bx];
                    let ghost prev = self.pending@;
                    let pw = PixelWrite { x: vx, y: vy, color: c };
                    self.pending.push(pw);
                    proof {
                        assert(self.pending@ == prev.push(pw));
                        assert(self.pending@.len() == prev.len() + 1);
                        assert(color_at(surf, vx as int, vy as int) == c);
                        assert forall|i: int| 0 <= i < prev.len() implies self.pending@[i] == prev[i] by {
                            assert(prev.push(pw)[i] == prev[i]);
                        }
                        assert forall|x: int, y: int|
                            on_screen(x, y) && in_rect(x, y, x0 as int, y0 as int, x1 as int, y1 as int)
                                && covers(surf, x, y) && (y - ly < by || (y - ly == by && x - lx < bx + 1))
                                && #[trigger] old(self).map@[pix(x, y)] == si
                            implies exists|i: int|
                                start <= i < self.pending@.len()
                                    && (#[trigger] self.pending@[i]).x == x && self.pending@[i].y == y by {
                            if x == vx && y == vy {
                                assert(self.pending@[prev.len() as int].x == x);
                            } else {
                                let i = choose|i: int| start <= i < prev.len() && (#[trigger] prev[i]).x == x && prev[i].y == y;
                                assert(self.pending@[i] == prev[i]);
                            }
                        }
                    }
                }
                bx += 1;
            }
            by += 1;
        }
    }

    /// The new writes keep each pending write a redraw of an owned pixel.
    #[verifier::rlimit(40)]
    proof fn lemma_painted_step_each(
        &self,
        before: &LayerCtl,
        start: int,
        x0: int,
        y0: int,
        x1: int,
        y1: int,
        cx1: int,
        cy1: int,
        z0: int,
        h: int,
    )
        requires
            before.wf_layers(),
            0 <= z0 <= h < before.depth(),
            cx1 == if x1 < SCREEN_WIDTH { x1 } else { SCREEN_WIDTH as int },
            cy1 == if y1 < SCREEN_HEIGHT { y1 } else { SCREEN_HEIGHT as int },
            before.painted(start, before.pending@.len() as int, x0, y0, x1, y1, z0, h - 1),
            self.same_but_writes(before),
            starts_with(self.pending@, before.pending@),
            forall|i: int|
                before.pending@.len() <= i < self.pending@.len() ==> {
                    let p = #[trigger] self.pending@[i];
                    &&& on_screen(p.x as int, p.y as int)
                    &&& in_rect(p.x as int, p.y as int, x0, y0, cx1, cy1)
                    &&& before.map@[pix(p.x as int, p.y as int)] == before.layers@[h]
                    &&& covers(before.surfaces()[before.layers@[h] as int], p.x as int, p.y as int)
                    &&& p.color == color_at(before.surfaces()[before.layers@[h] as int], p.x as int, p.y as int)
                },
            forall|i: int, j: int|
                before.pending@.len() <= i < j < self.pending@.len()
                    ==> pix((#[trigger] self.pending@[i]).x as int, self.pending@[i].y as int)
                        < pix((#[trigger] self.pending@[j]).x as int, self.pending@[j].y as int),
            forall|x: int, y: int|
                on_screen(x, y) && in_rect(x, y, x0, y0, cx1, cy1)
                    && covers(before.surfaces()[before.layers@[h] as int], x, y)
                    && #[trigger] before.map@[pix(x, y)] == before.layers@[h]
                    ==> exists|i: int|
                        before.pending@.len() <= i < self.pending@.len()
                            && (#[trigger] self.pending@[i]).x == x && self.pending@[i].y == y,
        ensures
            self.painted_each(start, self.pending@.len() as int, x0, y0, x1, y1, z0, h),
    {
        let si = before.layers@[h];
        let w = self.pending@;
        let mid = before.pending@.len() as int;
        assert(before.layer_data@[si as int].z == Some(h as usize));
        assert forall|i: int| 0 <= i < mid implies w[i] == before.pending@[i] by {}
        reveal(LayerCtl::painted_each);
        assert forall|i: int| start <= i < w.len() implies {
            &&& on_screen((#[trigger] w[i]).x as int, w[i].y as int)
            &&& in_rect(w[i].x as int, w[i].y as int, x0, y0, x1, y1)
            &&& self.owned_between(w[i].x as int, w[i].y as int, z0, h)
            &&& w[i].color == color_at(
                self.layer_data@[self.map_at(w[i].x as int, w[i].y as int)].surface(),
                w[i].x as int,
                w[i].y as int,
            )
        } by {
            if i < mid {
                assert(w[i] == before.pending@[i]);
            } else {
                assert(self.map_at(w[i].x as int, w[i].y as int) == si);
                assert(before.surfaces()[si as int] == self.layer_data@[si as int].surface());
            }
        }
    }

    /// The new writes repeat no pixel.
    #[verifier::rlimit(40)]
    proof fn lemma_painted_step_once(
        &self,
        before: &LayerCtl,
        start: int,
        x0: int,
        y0: int,
        x1: int,
        y1: int,
        cx1: int,
        cy1: int,
        z0: int,
        h: int,
    )
        requires
            before.wf_layers(),
            0 <= z0 <= h < before.depth(),
            cx1 == if x1 < SCREEN_WIDTH { x1 } else { SCREEN_WIDTH as int },
            cy1 == if y1 < SCREEN_HEIGHT { y1 } else { SCREEN_HEIGHT as int },
            before.painted(start, before.pending@.len() as int, x0, y0, x1, y1, z0, h - 1),
            self.same_but_writes(before),
            starts_with(self.pending@, before.pending@),
            forall|i: int|
                before.pending@.len() <= i < self.pending@.len() ==> {
                    let p = #[trigger] self.pending@[i];
                    &&& on_screen(p.x as int, p.y as int)
                    &&& in_rect(p.x as int, p.y as int, x0, y0, cx1, cy1)
                    &&& before.map@[pix(p.x as int, p.y as int)] == before.layers@[h]
                    &&& covers(before.surfaces()[before.layers@[h] as int], p.x as int, p.y as int)
                    &&& p.color == color_at(before.surfaces()[before.layers@[h] as int], p.x as int, p.y as int)
                },
            forall|i: int, j: int|
                before.pending@.len() <= i < j < self.pending@.len()
                    ==> pix((#[trigger] self.pending@[i]).x as int, self.pending@[i].y as int)
                        < pix((#[trigger] self.pending@[j]).x as int, self.pending@[j].y as int),
            forall|x: int, y: int|
                on_screen(x, y) && in_rect(x, y, x0, y0, cx1, cy1)
                    && covers(before.surfaces()[before.layers@[h] as int], x, y)
                    && #[trigger] before.map@[pix(x, y)] == before.layers@[h]
                    ==> exists|i: int|
                        before.pending@.len() <= i < self.pending@.len()
                            && (#[trigger] self.pending@[i]).x == x && self.pending@[i].y == y,
        ensures
            self.painted_once(start, self.pending@.len() as int),
    {
        let si = before.layers@[h];
        let w = self.pending@;
        let mid = before.pending@.len() as int;
        assert(before.layer_data@[si as int].z == Some(h as usize));
        assert forall|i: int| 0 <= i < mid implies w[i] == before.pending@[i] by {}
        reveal(LayerCtl::painted_once);
        reveal(LayerCtl::painted_each);
        assert forall|i: int, j: int| start <= i < j < w.len() implies (#[trigger] w[i]).x != (#[trigger] w[j]).x || w[i].y != w[j].y by {
            if j < mid {
                assert(w[i] == before.pending@[i]);
                assert(w[j] == before.pending@[j]);
            } else if i < mid {
                assert(w[i] == before.pending@[i]);
                assert(before.owned_between(w[i].x as int, w[i].y as int, z0, h - 1));
                if w[i].x == w[j].x && w[i].y == w[j].y {
                    assert(self.map_at(w[j].x as int, w[j].y as int) == si);
                }
            }
        }
    }

    /// The new writes cover the pixels owned by the layer at `h`.
    #[verifier::rlimit(40)]
    proof fn lemma_painted_step_all(
        &self,
        before: &LayerCtl,
        start: int,
        x0: int,
        y0: int,
        x1: int,
        y1: int,
        cx1: int,
        cy1: int,
        z0: int,
        h: int,
    )
        requires
            before.wf_layers(),
            0 <= z0 <= h < before.depth(),
            cx1 == if x1 < SCREEN_WIDTH { x1 } else { SCREEN_WIDTH as int },
            cy1 == if y1 < SCREEN_HEIGHT { y1 } else { SCREEN_HEIGHT as int },
            before.painted(start, before.pending@.len() as int, x0, y0, x1, y1, z0, h - 1),
            self.same_but_writes(before),
            starts_with(self.pending@, before.pending@),
            forall|i: int|
                before.pending@.len() <= i < self.pending@.len() ==> {
                    let p = #[trigger] self.pending@[i];
                    &&& on_screen(p.x as int, p.y as int)
                    &&& in_rect(p.x as int, p.y as int, x0, y0, cx1, cy1)
                    &&& before.map@[pix(p.x as int, p.y as int)] == before.layers@[h]
                    &&& covers(before.surfaces()[before.layers@[h] as int], p.x as int, p.y as int)
                    &&& p.color == color_at(before.surfaces()[before.layers@[h] as int], p.x as int, p.y as int)
                },
            forall|i: int, j: int|
                before.pending@.len() <= i < j < self.pending@.len()
                    ==> pix((#[trigger] self.pending@[i]).x as int, self.pending@[i].y as int)
                        < pix((#[trigger] self.pending@[j]).x as int, self.pending@[j].y as int),
            forall|x: int, y: int|
                on_screen(x, y) && in_rect(x, y, x0, y0, cx1, cy1)
                    && covers(before.surfaces()[before.layers@[h] as int], x, y)
                    && #[trigger] before.map@[pix(x, y)] == before.layers@[h]
                    ==> exists|i: int|
                        before.pending@.len() <= i < self.pending@.len()
                            && (#[trigger] self.pending@[i]).x == x && self.pending@[i].y == y,
        ensures
            self.painted_all(start, self.pending@.len() as int, x0, y0, x1, y1, z0, h),
    {
        let si = before.layers@[h];
        let w = self.pending@;
        let mid = before.pending@.len() as int;
        assert(before.layer_data@[si as int].z == Some(h as usize));
        assert forall|i: int| 0 <= i < mid implies w[i] == before.pending@[i] by {}
        reveal(LayerCtl::painted_all);
        assert forall|x: int, y: int|
            on_screen(x, y) && in_rect(x, y, x0, y0, x1, y1)
                && #[trigger] self.owned_between(x, y, z0, h)
            implies exists|i: int| start <= i < w.len() && (#[trigger] w[i]).x == x && w[i].y == y by {
            let o = self.map_at(x, y);
            if self.layer_data@[o].z == Some(h as usize) {
                assert(before.layers@[h] == o);
                assert(before.map@[pix(x, y)] == si);
                assert(covers(before.surfaces()[si as int], x, y));
                assert(in_rect(x, y, x0, y0, cx1, cy1));
            } else {
                assert(before.owned_between(x, y, z0, h - 1));
                let i = choose|i: int| start <= i < before.pending@.len() && (#[trigger] before.pending@[i]).x == x && before.pending@[i].y == y;
                assert(w[i] == before.pending@[i]);
            }
        }
    }

    /// Painting the layer at stacking index `h` after the layers in
    /// `[z0, h)` have been painted gives a painting of `[z0, h]`.
    proof fn lemma_painted_step(
        &self,
        before: &LayerCtl,
        start: int,
        x0: int,
        y0: int,
        x1: int,
        y1: int,
        cx1: int,
        cy1: int,
        z0: int,
        h: int,
    )
        requires
            before.wf_layers(),
            0 <= z0 <= h < before.depth(),
            cx1 == if x1 < SCREEN_WIDTH { x1 } else { SCREEN_WIDTH as int },
            cy1 == if y1 < SCREEN_HEIGHT { y1 } else { SCREEN_HEIGHT as int },
            before.painted(start, before.pending@.len() as int, x0, y0, x1, y1, z0, h - 1),
            self.same_but_writes(before),
            starts_with(self.pending@, before.pending@),
            forall|i: int|
                before.pending@.len() <= i < self.pending@.len() ==> {
                    let p = #[trigger] self.pending@[i];
                    &&& on_screen(p.x as int, p.y as int)
                    &&& in_rect(p.x as int, p.y as int, x0, y0, cx1, cy1)
                    &&& before.map@[pix(p.x as int, p.y as int)] == before.layers@[h]
                    &&& covers(before.surfaces()[before.layers@[h] as int], p.x as int, p.y as int)
                    &&& p.color == color_at(before.surfaces()[before.layers@[h] as int], p.x as int, p.y as int)
                },
            forall|i: int, j: int|
                before.pending@.len() <= i < j < self.pending@.len()
                    ==> pix((#[trigger] self.pending@[i]).x as int, self.pending@[i].y as int)
                        < pix((#[trigger] self.pending@[j]).x as int, self.pending@[j].y as int),
            forall|x: int, y: int|
                on_screen(x, y) && in_rect(x, y, x0, y0, cx1, cy1)
                    && covers(before.surfaces()[before.layers@[h] as int], x, y)
                    && #[trigger] before.map@[pix(x, y)] == before.layers@[h]
                    ==> exists|i: int|
                        before.pending@.len() <= i < self.pending@.len()
                            && (#[trigger] self.pending@[i]).x == x && self.pending@[i].y == y,
        ensures
            self.painted(start, self.pending@.len() as int, x0, y0, x1, y1, z0, h),
    {
        self.lemma_painted_step_each(before, start, x0, y0, x1, y1, cx1, cy1, z0, h);
        self.lemma_painted_step_once(before, start, x0, y0, x1, y1, cx1, cy1, z0, h);
        self.lemma_painted_step_all(before, start, x0, y0, x1, y1, cx1, cy1, z0, h);
    }

    /// Emits a write for each screen pixel of the rectangle
    /// `[x0, x1) × [y0, y1)` that the ownership map gives to a displayed
    /// layer with stacking index in `[z0, z1]` and that lies in that layer's
    /// rectangle, in the layer's colour there. The ownership map makes each
    /// pixel written at most once, and never with a layer that another
    /// covers. Nothing outside the rectangle is read or written.
    pub fn refresh_part(&mut self, x0: usize, y0: usize, x1: usize, y1: usize, z0: usize, z1: usize)
        requires
            old(self).wf_layers(),
            z0 > z1 || z1 < old(self).depth(),
        ensures
            final(self).wf_layers(),
            final(self).same_but_writes(old(self)),
            starts_with(final(self).writes(), old(self).writes()),
            final(self).painted(old(self).writes().len() as int, final(self).writes().len() as int, x0 as int, y0 as int, x1 as int, y1 as int, z0 as int, z1 as int),
            old(self).map_ok() ==> final(self).map_ok(),
            old(self).wf() ==> final(self).wf(),
            final(self).keeps_layers(old(self)),
            forall|x: int, y: int| on_screen(x, y) ==> #[trigger] final(self).map_at(x, y) == old(self).map_at(x, y),
    {
        let cx1: usize = if x1 < SCREEN_WIDTH { x1 } else { SCREEN_WIDTH };
        let cy1: usize = if y1 < SCREEN_HEIGHT { y1 } else { SCREEN_HEIGHT };
        let ghost start = old(self).pending@.len() as int;
        if z0 > z1 {
            proof {
                reveal(LayerCtl::painted_each);
                reveal(LayerCtl::painted_once);
                reveal(LayerCtl::painted_all);
            }
            return;
        }
        proof {
            reveal(LayerCtl::painted_each);
            reveal(LayerCtl::painted_once);
            reveal(LayerCtl::painted_all);
            assert(self.painted(start, self.pending@.len() as int, x0 as int, y0 as int, x1 as int, y1 as int, z0 as int, z0 - 1));
        }
        let mut h: usize = z0;
        while h <= z1
            invariant
                self.same_but_writes(old(self)),
                old(self).wf_layers(),
                z0 <= h <= z1 + 1,
                z1 < old(self).depth(),
                cx1 <= SCREEN_WIDTH,
                cy1 <= SCREEN_HEIGHT,
                cx1 == if x1 < SCREEN_WIDTH { x1 as int } else { SCREEN_WIDTH as int },
                cy1 == if y1 < SCREEN_HEIGHT { y1 as int } else { SCREEN_HEIGHT as int },
                start == old(self).pending@.len(),
                starts_with(self.pending@, old(self).pending@),
                self.painted(start, self.pending@.len() as int, x0 as int, y0 as int, x1 as int, y1 as int, z0 as int, h - 1),
            decreases z1 + 1 - h,
        {
            let ghost before = *self;
            proof {
                assert(self.wf_layers()) by {
                    assert(self.layer_data@ == old(self).layer_data@);
                }
            }
            self.paint_layer(h, x0, y0, cx1, cy1);
            proof {
                self.lemma_painted_step(&before, start, x0 as int, y0 as int, x1 as int, y1 as int, cx1 as int, cy1 as int, z0 as int, h as int);
            }
            h += 1;
        }
        proof {
            assert(self.stack() == old(self).stack());
            assert(self.surfaces() == old(self).surfaces());
            if old(self).map_ok() {
                assert forall|x: int, y: int| on_screen(x, y) implies #[trigger] self.map_at(x, y) == self.owner(x, y) by {
                    assert(old(self).map_at(x, y) == old(self).owner(x, y));
                }
            }
        }
    }

    /// Clears the stored stacking index of every displayed layer.
    fn unlink(&mut self)
        requires
            old(self).wf_layers(),
        ensures
            final(self).z_max == old(self).z_max,
            final(self).layers@ == old(self).layers@,
            final(self).map@ == old(self).map@,
            final(self).pending@ == old(self).pending@,
            final(self).layer_data@.len() == MAX_LAYERS,
            forall|id: int|
                0 <= id < MAX_LAYERS ==> {
                    &&& (#[trigger] final(self).layer_data@[id]).z is None
                    &&& final(self).layer_data@[id].surface() == old(self).layer_data@[id].surface()
                    &&& final(self).layer_data@[id].is_used == old(self).layer_data@[id].is_used
                    &&& final(self).layer_data@[id].sized() == old(self).layer_data@[id].sized()
                },
    {
        let depth: usize = match self.z_max {
            Some(m) => m + 1,
            None => 0,
        };
        let mut k: usize = 0;
        while k < depth
            invariant
                old(self).wf_layers(),
                depth == old(self).depth(),
                k <= depth,
                self.z_max == old(self).z_max,
                self.layers@ == old(self).layers@,
                self.map@ == old(self).map@,
                self.pending@ == old(self).pending@,
                self.layer_data@.len() == MAX_LAYERS,
                forall|id: int|
                    0 <= id < MAX_LAYERS ==> {
                        &&& ((#[trigger] self.layer_data@[id]).z is None || self.layer_data@[id].z == old(self).layer_data@[id].z)
                        &&& self.layer_data@[id].surface() == old(self).layer_data@[id].surface()
                        &&& self.layer_data@[id].is_used == old(self).layer_data@[id].is_used
                        &&& self.layer_data@[id].sized() == old(self).layer_data@[id].sized()
                    },
                forall|j: int| 0 <= j < k ==> (#[trigger] self.layer_data@[self.layers@[j] as int]).z is None,
            decreases depth - k,
        {
            let id = self.layers[k];
            assert(id < MAX_LAYERS);
            self.layer_data[id].z = None;
            k += 1;
        }
        assert forall|id: int| 0 <= id < MAX_LAYERS implies (#[trigger] self.layer_data@[id]).z is None by {
            if self.layer_data@[id].z is Some {
                let p = old(self).layer_data@[id].z.unwrap() as int;
                assert(old(self).layers@[p] == id);
            }
        }
    }

    /// Stores in each displayed layer its stacking index.
    fn link(&mut self)
        requires
            old(self).layers@.len() == MAX_LAYERS,
            old(self).layer_data@.len() == MAX_LAYERS,
            old(self).map@.len() == SCREEN_WIDTH * SCREEN_HEIGHT,
            old(self).depth() <= MAX_LAYERS,
            old(self).stack().no_duplicates(),
            forall|k: int|
                0 <= k < old(self).depth() ==> #[trigger] old(self).layers@[k] < MAX_LAYERS
                    && old(self).layer_data@[old(self).layers@[k] as int].is_used,
            forall|id: int|
                0 <= id < MAX_LAYERS ==> (#[trigger] old(self).layer_data@[id]).z is None
                    && old(self).layer_data@[id].sized(),
        ensures
            final(self).wf_layers(),
            final(self).z_max == old(self).z_max,
            final(self).layers@ == old(self).layers@,
            final(self).map@ == old(self).map@,
            final(self).pending@ == old(self).pending@,
            forall|id: int|
                0 <= id < MAX_LAYERS ==> {
                    &&& (#[trigger] final(self).layer_data@[id]).surface() == old(self).layer_data@[id].surface()
                    &&& final(self).layer_data@[id].is_used == old(self).layer_data@[id].is_used
                },
    {
        let depth: usize = match self.z_max {
            Some(m) => m + 1,
            None => 0,
        };
        let ghost st = old(self).stack();
        let mut k: usize = 0;
        while k < depth
            invariant
                depth == old(self).depth(),
                depth <= MAX_LAYERS,
                k <= depth,
                st == old(self).stack(),
                st.no_duplicates(),
                old(self).layers@.len() == MAX_LAYERS,
                self.z_max == old(self).z_max,
                self.layers@ == old(self).layers@,
                self.map@ == old(self).map@,
                self.pending@ == old(self).pending@,
                self.layer_data@.len() == MAX_LAYERS,
                forall|j: int|
                    0 <= j < depth ==> #[trigger] self.layers@[j] < MAX_LAYERS
                        && old(self).layer_data@[self.layers@[j] as int].is_used,
                forall|id: int|
                    0 <= id < MAX_LAYERS ==> {
                        &&& (#[trigger] self.layer_data@[id]).surface() == old(self).layer_data@[id].surface()
                        &&& self.layer_data@[id].is_used == old(self).layer_data@[id].is_used
                        &&& self.layer_data@[id].sized()
                        &&& (self.layer_data@[id].z is None || (self.layer_data@[id].z matches Some(j)
                            && j < k && self.layers@[j as int] == id))
                    },
                forall|j: int| 0 <= j < k ==> (#[trigger] self.layer_data@[self.layers@[j] as int]).z == Some(j as usize),
            decreases depth - k,
        {
            let id = self.layers[k];
            proof {
                assert(st[k as int] == id);
                assert forall|j: int| 0 <= j < k implies #[trigger] self.layers@[j] != id by {
                    assert(st[j] == self.layers@[j]);
                }
            }
            self.layer_data[id].z = Some(k);
            k += 1;
        }
    }

    /// Opens stacking index `z` by moving the layers at `z` and above up by
    /// one, and puts `id` there.
    fn stack_insert(&mut self, z: usize, id: usize)
        requires
            old(self).layers@.len() == MAX_LAYERS,
            old(self).depth() < MAX_LAYERS,
            z <= old(self).depth(),
        ensures
            final(self).stack() == old(self).stack().insert(z as int, id),
            final(self).layers@.len() == MAX_LAYERS,
            final(self).depth() == old(self).depth() + 1,
            final(self).layer_data@ == old(self).layer_data@,
            final(self).map@ == old(self).map@,
            final(self).pending@ == old(self).pending@,
    {
        let depth: usize = match self.z_max {
            Some(m) => m + 1,
            None => 0,
        };
        let ghost st = old(self).stack();
        let mut h: usize = depth;
        while h > z
            invariant
                depth == old(self).depth(),
                depth < MAX_LAYERS,
                z <= h <= depth,
                st == old(self).stack(),
                self.z_max == old(self).z_max,
                self.layers@.len() == MAX_LAYERS,
                self.layer_data@ == old(self).layer_data@,
                self.map@ == old(self).map@,
                self.pending@ == old(self).pending@,
                forall|j: int| 0 <= j <= h ==> j < depth ==> #[trigger] self.layers@[j] == st[j],
                forall|j: int| h < j <= depth ==> #[trigger] self.layers@[j] == st[j - 1],
            decreases h - z,
        {
            let v = self.layers[h - 1];
            self.layers.set(h, v);
            h -= 1;
        }
        self.layers.set(z, id);
        self.z_max = Some(depth);
        assert(self.stack() =~= st.insert(z as int, id));
    }

    /// Closes stacking index `o` by moving the layers above it down by one.
    fn stack_remove(&mut self, o: usize)
        requires
            old(self).layers@.len() == MAX_LAYERS,
            old(self).depth() <= MAX_LAYERS,
            o < old(self).depth(),
        ensures
            final(self).stack() == old(self).stack().remove(o as int),
            final(self).layers@.len() == MAX_LAYERS,
            final(self).depth() == old(self).depth() - 1,
            final(self).layer_data@ == old(self).layer_data@,
            final(self).map@ == old(self).map@,
            final(self).pending@ == old(self).pending@,
    {
        let depth: usize = match self.z_max {
            Some(m) => m + 1,
            None => 0,
        };
        let ghost st = old(self).stack();
        let mut h: usize = o;
        while h + 1 < depth
            invariant
                depth == old(self).depth(),
                depth <= MAX_LAYERS,
                o <= h < depth,
                st == old(self).stack(),
                self.z_max == old(self).z_max,
                self.layers@.len() == MAX_LAYERS,
                self.layer_data@ == old(self).layer_data@,
                self.map@ == old(self).map@,
                self.pending@ == old(self).pending@,
                forall|j: int| 0 <= j < o ==> #[trigger] self.layers@[j] == st[j],
                forall|j: int| o <= j < h ==> #[trigger] self.layers@[j] == st[j + 1],
                forall|j: int| h < j < depth ==> #[trigger] self.layers@[j] == st[j],
            decreases depth - h,
        {
            let v = self.layers[h + 1];
            self.layers.set(h, v);
            h += 1;
        }
        self.z_max = if depth > 1 { Some(depth - 2) } else { None };
        assert(self.stack() =~= st.remove(o as int));
    }

    /// The displayed layers are distinct used slots, and a slot's stored
    /// stacking index is its place in the stack.
    proof fn lemma_stack_facts(&self)
        requires
            self.wf_layers(),
        ensures
            self.stack().len() == self.depth(),
            self.stack().no_duplicates(),
            forall|k: int|
                0 <= k < self.depth() ==> #[trigger] self.stack()[k] < MAX_LAYERS
                    && self.layer_data@[self.stack()[k] as int].is_used
                    && self.layer_data@[self.stack()[k] as int].z == Some(k as usize),
    {
        assert forall|k: int| 0 <= k < self.depth() implies #[trigger] self.stack()[k] == self.layers@[k] by {}
        assert forall|i: int, j: int| 0 <= i < self.depth() && 0 <= j < self.depth() && i != j implies self.stack()[i] != self.stack()[j] by {
            assert(self.stack()[i] == self.layers@[i]);
            assert(self.stack()[j] == self.layers@[j]);
        }
    }

    /// Moves the layer `id` from stacking index `cur` (or hidden) to `t`
    /// (or hidden) in the stack and in the slots' stored indices.
    #[verifier::rlimit(100)]
    fn reorder(&mut self, layer_index: usize, cur: Option<usize>, t: Option<usize>)
        requires
            old(self).wf_layers(),
            layer_index < MAX_LAYERS,
            old(self).layer_data@[layer_index as int].is_used,
            old(self).layer_data@[layer_index as int].z == cur,
            t matches Some(z) ==> z <= if cur is Some { old(self).depth() - 1 } else { old(self).depth() },
        ensures
            final(self).wf_layers(),
            final(self).stack() == restack(old(self).stack(), cur, t, layer_index),
            final(self).depth() == restack(old(self).stack(), cur, t, layer_index).len(),
            old(self).stack().len() == old(self).depth(),
            final(self).layer_data@[layer_index as int].z == t,
            final(self).surfaces() == old(self).surfaces(),
            forall|id: int| 0 <= id < MAX_LAYERS ==> (#[trigger] final(self).slot(id)).is_used == old(self).slot(id).is_used,
            final(self).map@ == old(self).map@,
            final(self).pending@ == old(self).pending@,
    {
        proof {
            self.lemma_stack_facts();
            if cur is Some {
                let o = cur.unwrap() as int;
                assert(self.layers@[o] == layer_index);
            }
        }
        let ghost old_stack = self.stack();
        let ghost surfs = self.surfaces();
        let ghost new_stack = restack(old_stack, cur, t, layer_index);
        let ghost rest = match cur {
            Some(o) => old_stack.remove(o as int),
            None => old_stack,
        };
        proof {
            if cur is None {
                assert forall|k: int| 0 <= k < old_stack.len() implies #[trigger] old_stack[k] < MAX_LAYERS && old_stack[k] != layer_index by {
                    assert(self.layer_data@[old_stack[k] as int].z == Some(k as usize));
                }
                lemma_distinct_short(old_stack, layer_index, MAX_LAYERS as int);
            }
        }
        self.unlink();
        match cur {
            Some(o) => self.stack_remove(o),
            None => {},
        }
        match t {
            Some(z) => self.stack_insert(z, layer_index),
            None => {},
        }
        proof {
            assert(self.stack() == new_stack);
            assert forall|k: int| 0 <= k < rest.len() implies #[trigger] rest[k] < MAX_LAYERS
                && old(self).layer_data@[rest[k] as int].is_used && rest[k] != layer_index by {
                match cur {
                    Some(o) => {
                        if k < o {
                            assert(rest[k] == old_stack[k]);
                        } else {
                            assert(rest[k] == old_stack[k + 1]);
                        }
                    },
                    None => {
                        assert(old(self).layer_data@[old_stack[k] as int].z == Some(k as usize));
                    },
                }
            }
            assert(rest.no_duplicates()) by {
                assert forall|i: int, j: int| 0 <= i < rest.len() && 0 <= j < rest.len() && i != j implies rest[i] != rest[j] by {
                    match cur {
                        Some(o) => {
                            let ii = if i < o { i } else { i + 1 };
                            let jj = if j < o { j } else { j + 1 };
                            assert(rest[i] == old_stack[ii]);
                            assert(rest[j] == old_stack[jj]);
                        },
                        None => {},
                    }
                }
            }
            assert forall|k: int| 0 <= k < self.depth() implies #[trigger] self.layers@[k] < MAX_LAYERS
                && self.layer_data@[self.layers@[k] as int].is_used by {
                assert(self.layers@[k] == new_stack[k]);
                match t {
                    Some(z) => {
                        if k < z {
                            assert(new_stack[k] == rest[k]);
                        } else if k > z {
                            assert(new_stack[k] == rest[k - 1]);
                        }
                    },
                    None => {},
                }
            }
            assert(new_stack.no_duplicates()) by {
                match t {
                    Some(z) => {
                        assert forall|i: int, j: int| 0 <= i < new_stack.len() && 0 <= j < new_stack.len() && i != j implies new_stack[i] != new_stack[j] by {
                            let ii = if i < z { i } else { i - 1 };
                            let jj = if j < z { j } else { j - 1 };
                            if i != z {
                                assert(new_stack[i] == rest[ii]);
                            }
                            if j != z {
                                assert(new_stack[j] == rest[jj]);
                            }
                        }
                    },
                    None => {},
                }
            }
        }
        self.link();
        proof {
            assert(self.surfaces() =~= old(self).surfaces());
            match t {
                Some(z) => {
                    assert(new_stack[z as int] == layer_index);
                    assert(self.layers@[z as int] == layer_index);
                },
                None => {
                    if self.layer_data@[layer_index as int].z is Some {
                        let j = self.layer_data@[layer_index as int].z.unwrap() as int;
                        assert(self.layers@[j] == layer_index);
                        assert(new_stack[j] == rest[j]);
                    }
                },
            }
        }
    }

    /// Where `up_down(id, oz)` puts the layer `id`: `None` hides it, and a
    /// requested index is lowered to the top of the stack (one above it for
    /// a hidden layer, which is then put on top).
    pub open spec fn target(&self, id: int, oz: Option<usize>) -> Option<usize> {
        match oz {
            None => None,
            Some(z) => {
                let cap = if self.slot(id).z is Some {
                    self.depth() - 1
                } else {
                    self.depth()
                };
                Some(if z < cap { z } else { cap as usize })
            },
        }
    }

    /// Moves the layer `layer_index` to stacking index `oz`, or hides it
    /// when `oz` is `None`, shifting the layers in between by one so that
    /// the stack stays dense; then recomputes the ownership map over the
    /// layer's rectangle and redraws there the layers whose pixels may have
    /// changed. Does nothing when the layer is already where it would go.
    #[verifier::rlimit(100)]
    pub fn up_down(&mut self, layer_index: usize, oz: Option<usize>)
        requires
            old(self).wf(),
            layer_index < MAX_LAYERS,
            old(self).slot(layer_index as int).is_used,
        ensures
            final(self).wf(),
            final(self).surfaces() == old(self).surfaces(),
            forall|id: int| 0 <= id < MAX_LAYERS ==> (#[trigger] final(self).slot(id)).is_used == old(self).slot(id).is_used,
            forall|id: int| 0 <= id < MAX_LAYERS ==> (#[trigger] final(self).slot(id)).surface() == old(self).slot(id).surface(),
            final(self).stack() == restack(
                old(self).stack(),
                old(self).slot(layer_index as int).z,
                old(self).target(layer_index as int, oz),
                layer_index,
            ),
            final(self).slot(layer_index as int).z == old(self).target(layer_index as int, oz),
            old(self).target(layer_index as int, oz) == old(self).slot(layer_index as int).z ==> *final(self) == *old(self),
            ({
                let l = old(self).slot(layer_index as int);
                match redraw_range(l.z, old(self).target(layer_index as int, oz)) {
                    None => final(self).writes() == old(self).writes(),
                    Some((lo, hi)) => {
                        &&& starts_with(final(self).writes(), old(self).writes())
                        &&& final(self).painted(
                            old(self).writes().len() as int,
                            final(self).writes().len() as int,
                            l.x0 as int,
                            l.y0 as int,
                            span_end(l.x0 as int, l.xsize as int),
                            span_end(l.y0 as int, l.ysize as int),
                            lo,
                            hi,
                        )
                    },
                }
            }),
    {
        let cur = self.layer_data[layer_index].z;
        let depth: usize = match self.z_max {
            Some(m) => m + 1,
            None => 0,
        };
        proof {
            self.lemma_stack_facts();
            if cur is Some {
                let o = cur.unwrap() as int;
                assert(self.layers@[o] == layer_index);
            }
        }
        let t: Option<usize> = match oz {
            None => None,
            Some(z) => {
                let cap = if cur.is_some() { depth - 1 } else { depth };
                Some(if z < cap { z } else { cap })
            },
        };
        let same = match cur {
            None => t.is_none(),
            Some(o) => match t {
                None => false,
                Some(z) => o == z,
            },
        };
        if same {
            proof {
                if cur is Some {
                    let o = cur.unwrap() as int;
                    assert(self.stack().remove(o).insert(o, layer_index) =~= self.stack());
                }
            }
            return;
        }
        let lx = self.layer_data[layer_index].x0;
        let ly = self.layer_data[layer_index].y0;
        let w = self.layer_data[layer_index].xsize;
        let ht = self.layer_data[layer_index].ysize;
        let x1: usize = if lx <= usize::MAX - w { lx + w } else { usize::MAX };
        let y1: usize = if ly <= usize::MAX - ht { ly + ht } else { usize::MAX };
        let ghost old_stack = self.stack();
        let ghost surfs = self.surfaces();
        let ghost new_stack = restack(old_stack, cur, t, layer_index);
        self.reorder(layer_index, cur, t);
        let ghost reordered = *self;
        let z0: usize = match t {
            Some(z) => z,
            None => 0,
        };
        let ghost mid = *self;
        self.refresh_map(lx, ly, x1, y1, z0);
        proof {
            assert forall|x: int, y: int| on_screen(x, y) implies #[trigger] self.map_at(x, y) == self.owner(x, y) by {
                assert(old(self).map_at(x, y) == old(self).owner(x, y));
                assert(mid.map_at(x, y) == old(self).map_at(x, y));
                lemma_rescan_pixel(
                    old_stack,
                    surfs,
                    x,
                    y,
                    cur,
                    t,
                    layer_index,
                    in_rect(x, y, lx as int, ly as int, x1 as int, y1 as int),
                    old(self).map_at(x, y),
                    self.map_at(x, y),
                );
            }
        }
        match cur {
            None => {
                self.refresh_part(lx, ly, x1, y1, z0, z0);
            },
            Some(o) => match t {
                None => {
                    if o > 0 {
                        self.refresh_part(lx, ly, x1, y1, 0, o - 1);
                    }
                },
                Some(z) => {
                    if o > z {
                        self.refresh_part(lx, ly, x1, y1, z, o);
                    } else {
                        self.refresh_part(lx, ly, x1, y1, z, z);
                    }
                },
            },
        }
        proof {
            assert(self.layer_data@ == reordered.layer_data@);
            assert forall|id: int| 0 <= id < MAX_LAYERS implies (#[trigger] self.slot(id)).is_used == old(self).slot(id).is_used by {
                assert(reordered.slot(id).is_used == old(self).slot(id).is_used);
            }
            assert forall|id: int| 0 <= id < MAX_LAYERS implies (#[trigger] self.slot(id)).surface() == old(self).slot(id).surface() by {
                assert(self.surfaces()[id] == old(self).surfaces()[id]);
            }
        }
    }

    /// After `slide(id, x, y)` from `old`: the layer `id` stands at `(x, y)`
    /// and nothing else about the layers changed; if it is displayed, the
    /// writes appended redraw its old rectangle for the layers below it and
    /// then its new rectangle for the layer itself.
    pub open spec fn slid(&self, old: &LayerCtl, id: int, x: int, y: int) -> bool {
        let l = old.slot(id);
        &&& self.wf()
        &&& self.stack() == old.stack()
        &&& self.spec_z_max() == old.spec_z_max()
        &&& self.slot(id) == (Layer { x0: x as usize, y0: y as usize, ..l })
        &&& forall|i: int| 0 <= i < MAX_LAYERS && i != id ==> #[trigger] self.slot(i) == old.slot(i)
        &&& forall|i: int|
            0 <= i < MAX_LAYERS ==> (#[trigger] self.slot(i)).is_used == old.slot(i).is_used
                && self.slot(i).z == old.slot(i).z
        &&& forall|i: int| 0 <= i < MAX_LAYERS && i != id ==> #[trigger] self.surfaces()[i] == old.surfaces()[i]
        &&& self.surfaces()[id] == Surface { x0: x, y0: y, ..old.surfaces()[id] }
        &&& match l.z {
            None => {
                &&& self.writes() == old.writes()
                &&& forall|px: int, py: int| on_screen(px, py) ==> #[trigger] self.map_at(px, py) == old.map_at(px, py)
            },
            Some(z) => {
                &&& starts_with(self.writes(), old.writes())
                &&& exists|mid: int|
                    #[trigger] self.painted(
                        old.writes().len() as int,
                        mid,
                        l.x0 as int,
                        l.y0 as int,
                        span_end(l.x0 as int, l.xsize as int),
                        span_end(l.y0 as int, l.ysize as int),
                        0,
                        z - 1,
                    ) && self.painted(
                        mid,
                        self.writes().len() as int,
                        x,
                        y,
                        span_end(x, l.xsize as int),
                        span_end(y, l.ysize as int),
                        z as int,
                        z as int,
                    )
            },
        }
    }

    /// Moves the layer `layer_index` so that its top-left corner is at
    /// `(x, y)`. If it is displayed, the ownership map is recomputed over its
    /// old rectangle from the bottom of the stack (vacating it may uncover
    /// any layer) and over its new one from its own index (only layers above
    /// can cover it); then the old rectangle is redrawn for the layers below
    /// it and the new one for the layer itself.
    #[verifier::rlimit(60)]
    pub fn slide(&mut self, layer_index: usize, x: usize, y: usize)
        requires
            old(self).wf(),
            layer_index < MAX_LAYERS,
            old(self).slot(layer_index as int).is_used,
        ensures
            final(self).slid(old(self), layer_index as int, x as int, y as int),
    {
        let lx = self.layer_data[layer_index].x0;
        let ly = self.layer_data[layer_index].y0;
        let w = self.layer_data[layer_index].xsize;
        let ht = self.layer_data[layer_index].ysize;
        let ox1 = span(lx, w);
        let oy1 = span(ly, ht);
        let nx1 = span(x, w);
        let ny1 = span(y, ht);
        let ghost s0 = *self;
        proof {
            self.lemma_stack_facts();
        }
        self.layer_data[layer_index].x0 = x;
        self.layer_data[layer_index].y0 = y;
        let ghost s1 = *self;
        proof {
            assert forall|id: int| 0 <= id < MAX_LAYERS implies #[trigger] self.surfaces()[id] == if id == layer_index {
                Surface { x0: x as int, y0: y as int, ..s0.surfaces()[id] }
            } else {
                s0.surfaces()[id]
            } by {}
            assert forall|k: int| 0 <= k < self.depth() implies {
                &&& #[trigger] self.layers@[k] < MAX_LAYERS
                &&& self.layer_data@[self.layers@[k] as int].is_used
                &&& self.layer_data@[self.layers@[k] as int].z == Some(k as usize)
            } by {
                assert(s0.layers@[k] < MAX_LAYERS);
            }
            assert forall|id: int| 0 <= id < MAX_LAYERS implies {
                &&& (#[trigger] self.layer_data@[id]).sized()
                &&& (self.layer_data@[id].z matches Some(k) ==> k < self.depth()
                    && self.layers@[k as int] == id)
            } by {
                assert(s0.layer_data@[id].sized());
            }
            assert(self.wf_layers());
        }
        match self.layer_data[layer_index].z {
            None => {
                proof {
                    assert forall|x: int, y: int| on_screen(x, y) implies #[trigger] self.map_at(x, y) == self.owner(x, y) by {
                        assert(s0.map_at(x, y) == s0.owner(x, y));
                        assert forall|k: int| 0 <= k < s0.stack().len() implies shows(
                            s0.surfaces()[#[trigger] s0.stack()[k] as int], x, y) == shows(
                            self.surfaces()[s0.stack()[k] as int], x, y) by {
                            assert(s0.stack()[k] != layer_index);
                        }
                        lemma_topmost_agree(s0.stack(), s0.surfaces(), self.surfaces(), x, y, BACKGROUND as int);
                    }
                }
            },
            Some(z) => {
                self.refresh_map(lx, ly, ox1, oy1, 0);
                let ghost s2 = *self;
                self.refresh_map(x, y, nx1, ny1, z);
                proof {
                    assert forall|px: int, py: int| on_screen(px, py) implies #[trigger] self.map_at(px, py) == self.owner(px, py) by {
                        assert(s0.map_at(px, py) == s0.owner(px, py));
                        assert(s1.map_at(px, py) == s0.map_at(px, py));
                        lemma_resurface_pixel(
                            s0.stack(),
                            s0.surfaces(),
                            s1.surfaces(),
                            px,
                            py,
                            layer_index,
                            z as int,
                            z as int,
                            in_rect(px, py, lx as int, ly as int, ox1 as int, oy1 as int),
                            in_rect(px, py, x as int, y as int, nx1 as int, ny1 as int),
                            s0.map_at(px, py),
                            s2.map_at(px, py),
                            self.map_at(px, py),
                        );
                    }
                }
                let ghost start = self.pending@.len() as int;
                if z > 0 {
                    self.refresh_part(lx, ly, ox1, oy1, 0, z - 1);
                } else {
                    proof {
                        reveal(LayerCtl::painted_each);
                        reveal(LayerCtl::painted_once);
                        reveal(LayerCtl::painted_all);
                    }
                }
                let ghost s3 = *self;
                let ghost mid = self.pending@.len() as int;
                self.refresh_part(x, y, nx1, ny1, z, z);
                proof {
                    self.lemma_painted_kept(&s3, start, mid, lx as int, ly as int, ox1 as int, oy1 as int, 0, z - 1);
                    assert(self.painted(start, mid, lx as int, ly as int, ox1 as int, oy1 as int, 0, z - 1));
                    assert forall|i: int| 0 <= i < start implies self.pending@[i] == s0.pending@[i] by {
                        assert(s3.pending@[i] == s0.pending@[i]);
                    }
                    assert(self.painted(start, mid, lx as int, ly as int, span_end(lx as int, w as int), span_end(ly as int, ht as int), 0, z - 1)
                        && self.painted(mid, self.pending@.len() as int, x as int, y as int, span_end(x as int, w as int), span_end(y as int, ht as int), z as int, z as int));
                }
            },
        }
        proof {
            assert(self.stack() == s0.stack());
            assert(self.layer_data@ == s1.layer_data@);
            assert forall|i: int| 0 <= i < MAX_LAYERS && i != layer_index implies #[trigger] self.surfaces()[i] == s0.surfaces()[i] by {
                assert(s1.surfaces()[i] == s0.surfaces()[i]);
            }
            assert forall|i: int| 0 <= i < MAX_LAYERS implies (#[trigger] self.slot(i)).is_used == s0.slot(i).is_used
                && self.slot(i).z == s0.slot(i).z by {
                assert(s1.slot(i) == self.slot(i));
            }
            assert(self.surfaces()[layer_index as int] == Surface { x0: x as int, y0: y as int, ..s0.surfaces()[layer_index as int] });
            assert(self.wf());
            assert(s0 == *old(self));
            assert(self.slot(layer_index as int) == (Layer { x0: x, y0: y, ..s0.slot(layer_index as int) }));
            assert forall|i: int| 0 <= i < MAX_LAYERS && i != layer_index implies #[trigger] self.slot(i) == s0.slot(i) by {
                assert(s1.slot(i) == self.slot(i));
            }
            if s0.slot(layer_index as int).z is Some {
                assert(starts_with(self.writes(), s0.writes()));
            } else {
                assert(self.writes() == s0.writes());
                assert forall|px: int, py: int| on_screen(px, py) implies #[trigger] self.map_at(px, py) == s0.map_at(px, py) by {}
            }
        }
    }

    /// Moves the layer `layer_index` by `(dx, dy)`, holding it so that a
    /// `width × height` extent at its corner stays on the screen, as
    /// `slide` does.
    pub fn slide_by_diff(&mut self, layer_index: usize, dx: isize, dy: isize, width: isize, height: isize)
        requires
            old(self).wf(),
            layer_index < MAX_LAYERS,
            old(self).slot(layer_index as int).is_used,
        ensures
            final(self).slid(
                old(self),
                layer_index as int,
                clamp_axis(old(self).slot(layer_index as int).x0 as int, dx as int, width as int, SCREEN_WIDTH as int),
                clamp_axis(old(self).slot(layer_index as int).y0 as int, dy as int, height as int, SCREEN_HEIGHT as int),
            ),
    {
        let nx = clamp_move(self.layer_data[layer_index].x0, dx, width, SCREEN_WIDTH);
        let ny = clamp_move(self.layer_data[layer_index].y0, dy, height, SCREEN_HEIGHT);
        self.slide(layer_index, nx, ny);
    }

    /// Redraws the part `[x0, x1) × [y0, y1)`, in the layer's own
    /// coordinates, of the layer `layer_index` after its pixels changed,
    /// where the ownership map gives the pixels to it; a hidden layer is not
    /// drawn. The ownership map is not recomputed.
    pub fn refresh(&mut self, layer_index: usize, x0: usize, y0: usize, x1: usize, y1: usize)
        requires
            old(self).wf(),
            layer_index < MAX_LAYERS,
            old(self).slot(layer_index as int).is_used,
        ensures
            final(self).wf(),
            final(self).same_but_writes(old(self)),
            final(self).keeps_layers(old(self)),
            forall|x: int, y: int| on_screen(x, y) ==> #[trigger] final(self).map_at(x, y) == old(self).map_at(x, y),
            ({
                let l = old(self).slot(layer_index as int);
                match l.z {
                    None => final(self).writes() == old(self).writes(),
                    Some(z) => {
                        &&& starts_with(final(self).writes(), old(self).writes())
                        &&& final(self).painted(
                            old(self).writes().len() as int,
                            final(self).writes().len() as int,
                            span_end(l.x0 as int, x0 as int),
                            span_end(l.y0 as int, y0 as int),
                            span_end(l.x0 as int, x1 as int),
                            span_end(l.y0 as int, y1 as int),
                            z as int,
                            z as int,
                        )
                    },
                }
            }),
    {
        let lx = self.layer_data[layer_index].x0;
        let ly = self.layer_data[layer_index].y0;
        match self.layer_data[layer_index].z {
            Some(z) => {
                proof {
                    assert(self.layers@[z as int] == layer_index);
                }
                self.refresh_part(span(lx, x0), span(ly, y0), span(lx, x1), span(ly, y1), z, z);
            },
            None => {},
        }
    }

    /// Takes the layer `layer_index` off the stack if it is displayed, as
    /// `up_down(layer_index, None)` does, and marks its slot unused.
    pub fn free(&mut self, layer_index: usize)
        requires
            old(self).wf(),
            layer_index < MAX_LAYERS,
            old(self).slot(layer_index as int).is_used,
        ensures
            final(self).wf(),
            final(self).surfaces() == old(self).surfaces(),
            forall|id: int| 0 <= id < MAX_LAYERS ==> (#[trigger] final(self).slot(id)).surface() == old(self).slot(id).surface(),
            !final(self).slot(layer_index as int).is_used,
            final(self).slot(layer_index as int).z is None,
            forall|id: int|
                0 <= id < MAX_LAYERS && id != layer_index ==> (#[trigger] final(self).slot(id)).is_used == old(self).slot(id).is_used,
            final(self).stack() == restack(old(self).stack(), old(self).slot(layer_index as int).z, None, layer_index),
            final(self).spec_z_max() == match old(self).slot(layer_index as int).z {
                Some(_) => match old(self).spec_z_max() {
                    Some(m) => if m > 0 { Some((m - 1) as usize) } else { None },
                    None => None,
                },
                None => old(self).spec_z_max(),
            },
            ({
                let l = old(self).slot(layer_index as int);
                match redraw_range(l.z, None) {
                    None => final(self).writes() == old(self).writes(),
                    Some((lo, hi)) => {
                        &&& starts_with(final(self).writes(), old(self).writes())
                        &&& final(self).painted(
                            old(self).writes().len() as int,
                            final(self).writes().len() as int,
                            l.x0 as int,
                            l.y0 as int,
                            span_end(l.x0 as int, l.xsize as int),
                            span_end(l.y0 as int, l.ysize as int),
                            lo,
                            hi,
                        )
                    },
                }
            }),
    {
        proof {
            self.lemma_stack_facts();
        }
        let ghost s0 = *self;
        if self.layer_data[layer_index].z.is_some() {
            self.up_down(layer_index, None);
        }
        let ghost s1 = *self;
        proof {
            self.lemma_stack_facts();
        }
        self.layer_data[layer_index].is_used = false;
        proof {
            assert(self.surfaces() =~= s1.surfaces());
            assert(self.stack() == s1.stack());
            assert forall|x: int, y: int| on_screen(x, y) implies #[trigger] self.map_at(x, y) == self.owner(x, y) by {
                assert(s1.map_at(x, y) == s1.owner(x, y));
            }
            assert forall|k: int| 0 <= k < self.depth() implies {
                &&& #[trigger] self.layers@[k] < MAX_LAYERS
                &&& self.layer_data@[self.layers@[k] as int].is_used
                &&& self.layer_data@[self.layers@[k] as int].z == Some(k as usize)
            } by {
                assert(s1.layers@[k] < MAX_LAYERS);
            }
            assert forall|id: int| 0 <= id < MAX_LAYERS implies {
                &&& (#[trigger] self.layer_data@[id]).sized()
                &&& (self.layer_data@[id].z matches Some(k) ==> k < self.depth()
                    && self.layers@[k as int] == id)
            } by {
                assert(s1.layer_data@[id].sized());
            }
            assert forall|id: int| 0 <= id < MAX_LAYERS && id != layer_index implies (#[trigger] self.slot(id)).is_used == old(self).slot(id).is_used by {
                assert(s1.slot(id).is_used == old(self).slot(id).is_used);
            }
            assert forall|id: int| 0 <= id < MAX_LAYERS implies (#[trigger] self.slot(id)).surface() == old(self).slot(id).surface() by {
                assert(self.surfaces()[id] == old(self).surfaces()[id]);
            }
            let l = old(self).slot(layer_index as int);
            match redraw_range(l.z, None) {
                None => {},
                Some((lo, hi)) => {
                    assert forall|i: int| 0 <= i < self.layer_data@.len() implies (#[trigger] self.layer_data@[i]).surface() == s1.layer_data@[i].surface()
                        && self.layer_data@[i].z == s1.layer_data@[i].z by {}
                    self.lemma_painted_kept(
                        &s1,
                        old(self).writes().len() as int,
                        self.writes().len() as int,
                        l.x0 as int,
                        l.y0 as int,
                        span_end(l.x0 as int, l.xsize as int),
                        span_end(l.y0 as int, l.ysize as int),
                        lo,
                        hi,
                    );
                },
            }
        }
    }

    /// After `set_buf(id, buf, xsize, ysize, transparent)` from `old`: the
    /// layer `id` shows `buf` as an `xsize × ysize` image with the given
    /// transparent colour at its old position, and nothing else about the
    /// layers changed; if it is displayed, the writes appended redraw its
    /// old rectangle and then its new one for the whole stack.
    pub open spec fn rebuffered(
        &self,
        old: &LayerCtl,
        id: int,
        buf: Seq<Color>,
        xsize: int,
        ysize: int,
        transparent: Option<Color>,
    ) -> bool {
        let l = old.slot(id);
        &&& self.wf()
        &&& self.stack() == old.stack()
        &&& self.spec_z_max() == old.spec_z_max()
        &&& self.slot(id).buf@ == buf
        &&& self.slot(id).xsize == xsize
        &&& self.slot(id).ysize == ysize
        &&& self.slot(id).transparent == transparent
        &&& self.slot(id).x0 == l.x0
        &&& self.slot(id).y0 == l.y0
        &&& forall|i: int| 0 <= i < MAX_LAYERS && i != id ==> #[trigger] self.slot(i) == old.slot(i)
        &&& forall|i: int|
            0 <= i < MAX_LAYERS ==> (#[trigger] self.slot(i)).is_used == old.slot(i).is_used
                && self.slot(i).z == old.slot(i).z
        &&& forall|i: int| 0 <= i < MAX_LAYERS && i != id ==> #[trigger] self.surfaces()[i] == old.surfaces()[i]
        &&& self.surfaces()[id] == Surface {
            x0: l.x0 as int,
            y0: l.y0 as int,
            width: xsize,
            height: ysize,
            transparent,
            pixels: buf,
        }
        &&& match l.z {
            None => {
                &&& self.writes() == old.writes()
                &&& forall|px: int, py: int| on_screen(px, py) ==> #[trigger] self.map_at(px, py) == old.map_at(px, py)
            },
            Some(z) => {
                &&& starts_with(self.writes(), old.writes())
                &&& exists|mid: int|
                    #[trigger] self.painted(
                        old.writes().len() as int,
                        mid,
                        l.x0 as int,
                        l.y0 as int,
                        span_end(l.x0 as int, l.xsize as int),
                        span_end(l.y0 as int, l.ysize as int),
                        0,
                        old.depth() - 1,
                    ) && self.painted(
                        mid,
                        self.writes().len() as int,
                        l.x0 as int,
                        l.y0 as int,
                        span_end(l.x0 as int, xsize),
                        span_end(l.y0 as int, ysize),
                        0,
                        old.depth() - 1,
                    )
            },
        }
    }

    /// Attaches `buf` to the layer `layer_index` as an `xsize × ysize`
    /// image with the given transparent colour, keeping its position and
    /// stacking index, and returns the buffer attached before. If the layer
    /// is displayed, the ownership map is recomputed over its old and new
    /// rectangles and both are redrawn.
    #[verifier::rlimit(60)]
    pub fn set_buf(
        &mut self,
        layer_index: usize,
        buf: Vec<Color>,
        xsize: usize,
        ysize: usize,
        transparent: Option<Color>,
    ) -> (prev: Vec<Color>)
        requires
            old(self).wf(),
            layer_index < MAX_LAYERS,
            old(self).slot(layer_index as int).is_used,
            buf@.len() == xsize * ysize,
        ensures
            prev == old(self).slot(layer_index as int).buf,
            final(self).rebuffered(old(self), layer_index as int, buf@, xsize as int, ysize as int, transparent),
    {
        let lx = self.layer_data[layer_index].x0;
        let ly = self.layer_data[layer_index].y0;
        let ox1 = span(lx, self.layer_data[layer_index].xsize);
        let oy1 = span(ly, self.layer_data[layer_index].ysize);
        let nx1 = span(lx, xsize);
        let ny1 = span(ly, ysize);
        let ghost s0 = *self;
        let ghost pixels = buf@;
        proof {
            self.lemma_stack_facts();
        }
        let prev = self.layer_data[layer_index].set(buf, xsize, ysize, transparent);
        let ghost s1 = *self;
        proof {
            assert forall|id: int| 0 <= id < MAX_LAYERS implies #[trigger] self.surfaces()[id] == if id == layer_index {
                Surface { x0: lx as int, y0: ly as int, width: xsize as int, height: ysize as int, transparent, pixels }
            } else {
                s0.surfaces()[id]
            } by {}
            assert forall|k: int| 0 <= k < self.depth() implies {
                &&& #[trigger] self.layers@[k] < MAX_LAYERS
                &&& self.layer_data@[self.layers@[k] as int].is_used
                &&& self.layer_data@[self.layers@[k] as int].z == Some(k as usize)
            } by {
                assert(s0.layers@[k] < MAX_LAYERS);
            }
            assert forall|id: int| 0 <= id < MAX_LAYERS implies {
                &&& (#[trigger] self.layer_data@[id]).sized()
                &&& (self.layer_data@[id].z matches Some(k) ==> k < self.depth()
                    && self.layers@[k as int] == id)
            } by {
                assert(s0.layer_data@[id].sized());
            }
            assert(self.wf_layers());
        }
        match self.layer_data[layer_index].z {
            None => {
                proof {
                    assert forall|x: int, y: int| on_screen(x, y) implies #[trigger] self.map_at(x, y) == self.owner(x, y) by {
                        assert(s0.map_at(x, y) == s0.owner(x, y));
                        assert forall|k: int| 0 <= k < s0.stack().len() implies shows(
                            s0.surfaces()[#[trigger] s0.stack()[k] as int], x, y) == shows(
                            self.surfaces()[s0.stack()[k] as int], x, y) by {
                            assert(s0.stack()[k] != layer_index);
                        }
                        lemma_topmost_agree(s0.stack(), s0.surfaces(), self.surfaces(), x, y, BACKGROUND as int);
                    }
                }
            },
            Some(z) => {
                self.refresh_map(lx, ly, ox1, oy1, 0);
                let ghost s2 = *self;
                self.refresh_map(lx, ly, nx1, ny1, 0);
                proof {
                    assert forall|px: int, py: int| on_screen(px, py) implies #[trigger] self.map_at(px, py) == self.owner(px, py) by {
                        assert(s0.map_at(px, py) == s0.owner(px, py));
                        assert(s1.map_at(px, py) == s0.map_at(px, py));
                        lemma_resurface_pixel(
                            s0.stack(),
                            s0.surfaces(),
                            s1.surfaces(),
                            px,
                            py,
                            layer_index,
                            z as int,
                            0,
                            in_rect(px, py, lx as int, ly as int, ox1 as int, oy1 as int),
                            in_rect(px, py, lx as int, ly as int, nx1 as int, ny1 as int),
                            s0.map_at(px, py),
                            s2.map_at(px, py),
                            self.map_at(px, py),
                        );
                    }
                }
                let top: usize = match self.z_max {
                    Some(m) => m,
                    None => 0,
                };
                let ghost start = self.pending@.len() as int;
                self.refresh_part(lx, ly, ox1, oy1, 0, top);
                let ghost s3 = *self;
                let ghost mid = self.pending@.len() as int;
                self.refresh_part(lx, ly, nx1, ny1, 0, top);
                proof {
                    self.lemma_painted_kept(&s3, start, mid, lx as int, ly as int, ox1 as int, oy1 as int, 0, top as int);
                    assert forall|i: int| 0 <= i < start implies self.pending@[i] == s0.pending@[i] by {
                        assert(s3.pending@[i] == s0.pending@[i]);
                    }
                    assert(top as int == s0.depth() - 1);
                    assert(self.painted(start, mid, lx as int, ly as int, ox1 as int, oy1 as int, 0, s0.depth() - 1)
                        && self.painted(mid, self.pending@.len() as int, lx as int, ly as int, nx1 as int, ny1 as int, 0, s0.depth() - 1));
                }
            },
        }
        proof {
            assert(self.stack() == s0.stack());
            assert(self.layer_data@ == s1.layer_data@);
            assert forall|i: int| 0 <= i < MAX_LAYERS && i != layer_index implies #[trigger] self.surfaces()[i] == s0.surfaces()[i] by {
                assert(s1.surfaces()[i] == s0.surfaces()[i]);
            }
            assert forall|i: int| 0 <= i < MAX_LAYERS implies (#[trigger] self.slot(i)).is_used == s0.slot(i).is_used
                && self.slot(i).z == s0.slot(i).z by {
                assert(s1.slot(i) == self.slot(i));
            }
            assert(self.wf());
            assert(s0 == *old(self));
            assert forall|i: int| 0 <= i < MAX_LAYERS && i != layer_index implies #[trigger] self.slot(i) == s0.slot(i) by {
                assert(s1.slot(i) == self.slot(i));
            }
            if s0.slot(layer_index as int).z is Some {
                assert(starts_with(self.writes(), s0.writes()));
            } else {
                assert(self.writes() == s0.writes());
                assert forall|px: int, py: int| on_screen(px, py) implies #[trigger] self.map_at(px, py) == s0.map_at(px, py) by {}
            }
        }
        prev
    }

    /// Hands out the pending pixel writes, oldest first, and leaves none.
    pub fn take_writes(&mut self) -> (r: Vec<PixelWrite>)
        requires
            old(self).wf(),
        ensures
            final(self).wf(),
            r@ == old(self).writes(),
            final(self).writes().len() == 0,
            final(self).stack() == old(self).stack(),
            final(self).surfaces() == old(self).surfaces(),
            forall|id: int| 0 <= id < MAX_LAYERS ==> #[trigger] final(self).slot(id) == old(self).slot(id),
            forall|x: int, y: int| on_screen(x, y) ==> #[trigger] final(self).map_at(x, y) == old(self).map_at(x, y),
    {
        let mut r: Vec<PixelWrite> = Vec::new();
        std::mem::swap(&mut self.pending, &mut r);
        proof {
            assert(self.stack() == old(self).stack());
            assert forall|x: int, y: int| on_screen(x, y) implies #[trigger] self.map_at(x, y) == self.owner(x, y) by {
                assert(old(self).map_at(x, y) == old(self).owner(x, y));
            }
        }
        r
    }

    /// The highest occupied stacking index, or `None` when nothing is displayed.
    pub fn z_max(&self) -> (r: Option<usize>)
        ensures
            r == self.spec_z_max(),
    {
        self.z_max
    }

    /// The slot with id `layer_index`.
    pub fn layer(&self, layer_index: usize) -> (r: &Layer)
        requires
            self.wf(),
            layer_index < MAX_LAYERS,
        ensures
            *r == self.slot(layer_index as int),
            r.surface() == self.surfaces()[layer_index as int],
    {
        &self.layer_data[layer_index]
    }

    /// The id of the layer at stacking index `z`.
    pub fn layer_at(&self, z: usize) -> (r: usize)
        requires
            self.wf(),
            z < self.depth(),
        ensures
            r == self.stack()[z as int],
    {
        self.layers[z]
    }

    /// The ownership-map entry of screen pixel `(x, y)`: the id of the
    /// layer that shows there, or `BACKGROUND`.
    pub fn owner_at(&self, x: usize, y: usize) -> (r: u16)
        requires
            self.wf(),
            x < SCREEN_WIDTH,
            y < SCREEN_HEIGHT,
        ensures
            r as int == self.map_at(x as int, y as int),
            r as int == self.owner(x as int, y as int),
    {
        proof {
            assert(self.map_at(x as int, y as int) == self.owner(x as int, y as int));
        }
        self.map[y * SCREEN_WIDTH + x]
    }

    /// The displayed layers hold the stacking indices `0..=z_max` exactly,
    /// each once: a displayed layer's index is below `depth()` and the
    /// stack holds the layer there, each index below `depth()` holds a used
    /// layer that records it, and no two layers record the same index.
    pub proof fn lemma_z_bijection(&self)
        requires
            self.wf(),
        ensures
            self.depth() == match self.spec_z_max() {
                Some(m) => m + 1,
                None => 0,
            },
            self.stack().len() == self.depth(),
            forall|id: int|
                0 <= id < MAX_LAYERS && (#[trigger] self.slot(id)).z is Some ==> {
                    &&& self.slot(id).is_used
                    &&& self.slot(id).z.unwrap() < self.depth()
                    &&& self.stack()[self.slot(id).z.unwrap() as int] == id
                },
            forall|k: int|
                0 <= k < self.depth() ==> {
                    &&& #[trigger] self.stack()[k] < MAX_LAYERS
                    &&& self.slot(self.stack()[k] as int).is_used
                    &&& self.slot(self.stack()[k] as int).z == Some(k as usize)
                },
            forall|a: int, b: int|
                0 <= a < MAX_LAYERS && 0 <= b < MAX_LAYERS && a != b && (#[trigger] self.slot(a)).z is Some
                    ==> self.slot(a).z != (#[trigger] self.slot(b)).z,
    {
        self.lemma_stack_facts();
        assert forall|id: int| 0 <= id < MAX_LAYERS && (#[trigger] self.slot(id)).z is Some implies {
            &&& self.slot(id).is_used
            &&& self.slot(id).z.unwrap() < self.depth()
            &&& self.stack()[self.slot(id).z.unwrap() as int] == id
        } by {
            let k = self.slot(id).z.unwrap() as int;
            assert(self.layers@[k] == id);
            assert(self.stack()[k] == id);
        }
        assert forall|a: int, b: int|
            0 <= a < MAX_LAYERS && 0 <= b < MAX_LAYERS && a != b && (#[trigger] self.slot(a)).z is Some
            implies self.slot(a).z != (#[trigger] self.slot(b)).z by {
            let k = self.slot(a).z.unwrap() as int;
            assert(self.layers@[k] == a);
            if self.slot(b).z == self.slot(a).z {
                assert(self.layers@[k] == b);
            }
        }
    }

    /// At every screen pixel the ownership map names exactly one owner:
    /// either the background, and then no displayed layer shows there, or a
    /// displayed layer whose rectangle contains the pixel with a colour
    /// other than its transparent one, above which no displayed layer shows
    /// there.
    pub proof fn lemma_owner_exclusive(&self, x: int, y: int)
        requires
            self.wf(),
            on_screen(x, y),
        ensures
            self.map_at(x, y) == BACKGROUND ==> forall|k: int|
                0 <= k < self.depth() ==> !shows(self.surfaces()[#[trigger] self.stack()[k] as int], x, y),
            self.map_at(x, y) != BACKGROUND ==> {
                let o = self.map_at(x, y);
                &&& 0 <= o < MAX_LAYERS
                &&& self.slot(o).is_used
                &&& self.slot(o).z is Some
                &&& shows(self.surfaces()[o], x, y)
                &&& forall|j: int|
                    self.slot(o).z.unwrap() < j < self.depth() ==> !shows(self.surfaces()[#[trigger] self.stack()[j] as int], x, y)
            },
    {
        self.lemma_stack_facts();
        assert(self.map_at(x, y) == self.owner(x, y));
        lemma_topmost_top(self.stack(), self.surfaces(), x, y, BACKGROUND as int);
        if self.map_at(x, y) == BACKGROUND {
            if some_shows(self.stack(), self.surfaces(), x, y) {
                let k = choose|k: int|
                    0 <= k < self.stack().len() && self.stack()[k] as int == self.owner(x, y)
                        && shows(self.surfaces()[self.stack()[k] as int], x, y)
                        && forall|j: int| k < j < self.stack().len() ==> !#[trigger] shows(self.surfaces()[self.stack()[j] as int], x, y);
                assert(self.stack()[k] < MAX_LAYERS);
            }
        } else {
            let k = choose|k: int|
                0 <= k < self.stack().len() && self.stack()[k] as int == self.owner(x, y)
                    && shows(self.surfaces()[self.stack()[k] as int], x, y)
                    && forall|j: int| k < j < self.stack().len() ==> !#[trigger] shows(self.surfaces()[self.stack()[j] as int], x, y);
            assert(self.slot(self.stack()[k] as int).z == Some(k as usize));
        }
    }

    /// What a redraw is, in views: the writes from `start` up to `end` are
    /// each of a screen pixel of `[x0, x1) × [y0, y1)` lying in the
    /// rectangle of its owner in the ownership map, a displayed slot with
    /// stacking index in `[z0, z1]`, in that slot's colour there; no pixel
    /// is written twice; and every screen pixel of the rectangle that the
    /// map gives to such a slot, inside that slot's rectangle, is written.
    pub proof fn lemma_painted_view(&self, start: int, end: int, x0: int, y0: int, x1: int, y1: int, z0: int, z1: int)
        requires
            self.painted(start, end, x0, y0, x1, y1, z0, z1),
        ensures
            0 <= start <= end <= self.writes().len(),
            forall|i: int|
                start <= i < end ==> {
                    let p = #[trigger] self.writes()[i];
                    let o = self.map_at(p.x as int, p.y as int);
                    &&& on_screen(p.x as int, p.y as int)
                    &&& in_rect(p.x as int, p.y as int, x0, y0, x1, y1)
                    &&& 0 <= o < MAX_LAYERS
                    &&& covers(self.slot(o).surface(), p.x as int, p.y as int)
                    &&& (self.slot(o).z matches Some(k) && z0 <= k <= z1)
                    &&& p.color == color_at(self.slot(o).surface(), p.x as int, p.y as int)
                },
            forall|i: int, j: int|
                start <= i < j < end ==> (#[trigger] self.writes()[i]).x != (#[trigger] self.writes()[j]).x
                    || self.writes()[i].y != self.writes()[j].y,
            forall|x: int, y: int|
                on_screen(x, y) && in_rect(x, y, x0, y0, x1, y1) && 0 <= #[trigger] self.map_at(x, y) < MAX_LAYERS
                    && (self.slot(self.map_at(x, y)).z matches Some(k) && z0 <= k <= z1)
                    && covers(self.slot(self.map_at(x, y)).surface(), x, y)
                    ==> exists|i: int| start <= i < end && (#[trigger] self.writes()[i]).x == x && self.writes()[i].y == y,
    {
        reveal(LayerCtl::painted_each);
        reveal(LayerCtl::painted_once);
        reveal(LayerCtl::painted_all);
        assert forall|x: int, y: int|
            on_screen(x, y) && in_rect(x, y, x0, y0, x1, y1) && 0 <= #[trigger] self.map_at(x, y) < MAX_LAYERS
                && (self.slot(self.map_at(x, y)).z matches Some(k) && z0 <= k <= z1)
                && covers(self.slot(self.map_at(x, y)).surface(), x, y)
            implies exists|i: int| start <= i < end && (#[trigger] self.writes()[i]).x == x && self.writes()[i].y == y by {
            assert(self.owned_between(x, y, z0, z1));
        }
    }

    /// Under the invariant, the slots' views agree with `surfaces()`.
    pub proof fn lemma_surfaces(&self)
        requires
            self.wf(),
        ensures
            self.surfaces().len() == MAX_LAYERS,
            forall|id: int| 0 <= id < MAX_LAYERS ==> #[trigger] self.surfaces()[id] == self.slot(id).surface(),
    {
    }

    /// Under the invariant, the stack holds `depth()` layers and `depth()`
    /// is one more than `z_max`, or zero.
    pub proof fn lemma_depth(&self)
        requires
            self.wf(),
        ensures
            self.stack().len() == self.depth(),
            self.depth() == match self.spec_z_max() {
                Some(m) => m + 1,
                None => 0,
            },
    {
        self.lemma_stack_facts();
    }

    /// The state `same_but_writes` keeps, in views: everything but the
    /// pending writes, including every ownership-map entry and the invariant.
    pub proof fn lemma_same_but_writes_all(&self, other: &LayerCtl)
        requires
            self.same_but_writes(other),
        ensures
            self.keeps_layers(other),
            forall|x: int, y: int| on_screen(x, y) ==> #[trigger] self.map_at(x, y) == other.map_at(x, y),
            other.wf() ==> self.wf(),
    {
        assert(self.stack() == other.stack());
        assert(self.surfaces() == other.surfaces());
        if other.wf() {
            assert forall|x: int, y: int| on_screen(x, y) implies #[trigger] self.map_at(x, y) == self.owner(x, y) by {
                assert(other.map_at(x, y) == other.owner(x, y));
            }
        }
    }

    /// The invariant holds of the layers and of the ownership map apart.
    pub proof fn lemma_wf_parts(&self)
        requires
            self.wf(),
        ensures
            self.wf_layers(),
            self.map_ok(),
    {
    }
}

} // verus!

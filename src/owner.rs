//! The mathematical model of occlusion: which layer of a stack shows at a
//! screen pixel, and the facts about it that the compositor's proofs use.
use vstd::prelude::*;

use crate::color::Color;

verus! {

/// What a layer contributes to the screen: its rectangle and its pixels.
pub struct Surface {
    pub x0: int,
    pub y0: int,
    pub width: int,
    pub height: int,
    pub transparent: Option<Color>,
    pub pixels: Seq<Color>,
}

/// The surface's rectangle contains the screen pixel `(x, y)`.
pub open spec fn covers(s: Surface, x: int, y: int) -> bool {
    s.x0 <= x < s.x0 + s.width && s.y0 <= y < s.y0 + s.height
}

/// The surface's own colour at the screen pixel `(x, y)`.
pub open spec fn color_at(s: Surface, x: int, y: int) -> Color {
    s.pixels[(y - s.y0) * s.width + (x - s.x0)]
}

/// The surface covers `(x, y)` and its pixel there is not its transparent colour.
pub open spec fn shows(s: Surface, x: int, y: int) -> bool {
    covers(s, x, y) && s.transparent != Some(color_at(s, x, y))
}

/// The layer that shows at `(x, y)` when the layers of `stack` are laid
/// bottom to top over a screen that already shows `below`: the last one
/// that shows there, or `below` if none does.
pub open spec fn topmost(stack: Seq<usize>, surfs: Seq<Surface>, x: int, y: int, below: int) -> int
    decreases stack.len(),
{
    if stack.len() == 0 {
        below
    } else if shows(surfs[stack.last() as int], x, y) {
        stack.last() as int
    } else {
        topmost(stack.drop_last(), surfs, x, y, below)
    }
}

/// Some layer of `stack` shows at `(x, y)`.
pub open spec fn some_shows(stack: Seq<usize>, surfs: Seq<Surface>, x: int, y: int) -> bool {
    exists|k: int| 0 <= k < stack.len() && #[trigger] shows(surfs[stack[k] as int], x, y)
}

/// Laying `a` and then `b` is laying `b` over what `a` shows.
pub proof fn lemma_topmost_concat(
    a: Seq<usize>,
    b: Seq<usize>,
    surfs: Seq<Surface>,
    x: int,
    y: int,
    below: int,
)
    ensures
        topmost(a + b, surfs, x, y, below) == topmost(b, surfs, x, y, topmost(a, surfs, x, y, below)),
    decreases b.len(),
{
    if b.len() == 0 {
        assert(a + b =~= a);
    } else {
        assert((a + b).drop_last() =~= a + b.drop_last());
        assert((a + b).last() == b.last());
        lemma_topmost_concat(a, b.drop_last(), surfs, x, y, below);
    }
}

/// Where no layer of the stack shows, what was below stays visible.
pub proof fn lemma_topmost_none(stack: Seq<usize>, surfs: Seq<Surface>, x: int, y: int, below: int)
    requires
        !some_shows(stack, surfs, x, y),
    ensures
        topmost(stack, surfs, x, y, below) == below,
    decreases stack.len(),
{
    if stack.len() > 0 {
        assert(!shows(surfs[stack[stack.len() - 1] as int], x, y));
        assert forall|k: int| 0 <= k < stack.drop_last().len() implies !#[trigger] shows(
            surfs[stack.drop_last()[k] as int],
            x,
            y,
        ) by {
            assert(stack.drop_last()[k] == stack[k]);
        }
        lemma_topmost_none(stack.drop_last(), surfs, x, y, below);
    }
}

/// Where some layer of the stack shows, what was below does not matter, and
/// the result is a layer of the stack that shows there.
pub proof fn lemma_topmost_some(
    stack: Seq<usize>,
    surfs: Seq<Surface>,
    x: int,
    y: int,
    b1: int,
    b2: int,
)
    requires
        some_shows(stack, surfs, x, y),
    ensures
        topmost(stack, surfs, x, y, b1) == topmost(stack, surfs, x, y, b2),
        exists|k: int|
            0 <= k < stack.len() && stack[k] as int == topmost(stack, surfs, x, y, b1) && shows(
                surfs[stack[k] as int],
                x,
                y,
            ),
    decreases stack.len(),
{
    let n = stack.len() as int;
    if !shows(surfs[stack[n - 1] as int], x, y) {
        let k = choose|k: int| 0 <= k < stack.len() && #[trigger] shows(surfs[stack[k] as int], x, y);
        assert(k < n - 1);
        assert(stack.drop_last()[k] == stack[k]);
        lemma_topmost_some(stack.drop_last(), surfs, x, y, b1, b2);
        let j = choose|j: int|
            0 <= j < stack.drop_last().len() && stack.drop_last()[j] as int == topmost(
                stack.drop_last(),
                surfs,
                x,
                y,
                b1,
            ) && shows(surfs[stack.drop_last()[j] as int], x, y);
        assert(stack[j] == stack.drop_last()[j]);
    } else {
        assert(stack[n - 1] == stack.last());
    }
}

/// Laying the same layers twice shows what laying them once shows.
pub proof fn lemma_topmost_twice(stack: Seq<usize>, surfs: Seq<Surface>, x: int, y: int, below: int)
    ensures
        topmost(stack, surfs, x, y, topmost(stack, surfs, x, y, below)) == topmost(
            stack,
            surfs,
            x,
            y,
            below,
        ),
{
    if some_shows(stack, surfs, x, y) {
        lemma_topmost_some(stack, surfs, x, y, topmost(stack, surfs, x, y, below), below);
    } else {
        lemma_topmost_none(stack, surfs, x, y, below);
        lemma_topmost_none(stack, surfs, x, y, topmost(stack, surfs, x, y, below));
    }
}

/// A layer that does not show at `(x, y)` can be added anywhere in the
/// stack without changing what shows there.
pub proof fn lemma_topmost_insert_hidden(
    stack: Seq<usize>,
    surfs: Seq<Surface>,
    x: int,
    y: int,
    below: int,
    k: int,
    m: usize,
)
    requires
        0 <= k <= stack.len(),
        !shows(surfs[m as int], x, y),
    ensures
        topmost(stack.insert(k, m), surfs, x, y, below) == topmost(stack, surfs, x, y, below),
{
    let a = stack.subrange(0, k);
    let b = stack.subrange(k, stack.len() as int);
    let one = seq![m];
    assert(stack.insert(k, m) =~= (a + one) + b);
    assert(stack =~= a + b);
    lemma_topmost_concat(a + one, b, surfs, x, y, below);
    assert((a + one).drop_last() =~= a);
    assert((a + one).last() == m);
    lemma_topmost_concat(a, b, surfs, x, y, below);
}

/// Removing a layer that does not show at `(x, y)` changes nothing there.
pub proof fn lemma_topmost_remove_hidden(
    stack: Seq<usize>,
    surfs: Seq<Surface>,
    x: int,
    y: int,
    below: int,
    k: int,
)
    requires
        0 <= k < stack.len(),
        !shows(surfs[stack[k] as int], x, y),
    ensures
        topmost(stack.remove(k), surfs, x, y, below) == topmost(stack, surfs, x, y, below),
{
    assert(stack.remove(k).insert(k, stack[k]) =~= stack);
    lemma_topmost_insert_hidden(stack.remove(k), surfs, x, y, below, k, stack[k]);
}

/// Two descriptions of the layers that agree, at `(x, y)`, on every layer of
/// the stack give the same result there.
pub proof fn lemma_topmost_agree(
    stack: Seq<usize>,
    s1: Seq<Surface>,
    s2: Seq<Surface>,
    x: int,
    y: int,
    below: int,
)
    requires
        forall|k: int|
            0 <= k < stack.len() ==> shows(s1[#[trigger] stack[k] as int], x, y) == shows(
                s2[stack[k] as int],
                x,
                y,
            ),
    ensures
        topmost(stack, s1, x, y, below) == topmost(stack, s2, x, y, below),
    decreases stack.len(),
{
    if stack.len() > 0 {
        assert(stack.last() == stack[stack.len() - 1]);
        assert forall|k: int| 0 <= k < stack.drop_last().len() implies shows(
            s1[#[trigger] stack.drop_last()[k] as int],
            x,
            y,
        ) == shows(s2[stack.drop_last()[k] as int], x, y) by {
            assert(stack.drop_last()[k] == stack[k]);
        }
        lemma_topmost_agree(stack.drop_last(), s1, s2, x, y, below);
    }
}

/// Recomputing the upper part of a stack, starting from `from`, yields what
/// the whole stack shows, provided a layer of that part shows there or
/// `from` already is what the whole stack shows.
pub proof fn lemma_topmost_rescan(
    stack: Seq<usize>,
    surfs: Seq<Surface>,
    x: int,
    y: int,
    z0: int,
    from: int,
    below: int,
)
    requires
        0 <= z0 <= stack.len(),
        some_shows(stack.subrange(z0, stack.len() as int), surfs, x, y) || from == topmost(
            stack,
            surfs,
            x,
            y,
            below,
        ),
    ensures
        topmost(stack.subrange(z0, stack.len() as int), surfs, x, y, from) == topmost(
            stack,
            surfs,
            x,
            y,
            below,
        ),
{
    let a = stack.subrange(0, z0);
    let b = stack.subrange(z0, stack.len() as int);
    assert(stack =~= a + b);
    lemma_topmost_concat(a, b, surfs, x, y, below);
    if some_shows(b, surfs, x, y) {
        lemma_topmost_some(b, surfs, x, y, from, topmost(a, surfs, x, y, below));
    } else {
        lemma_topmost_twice(b, surfs, x, y, topmost(a, surfs, x, y, below));
    }
}

/// What `topmost` yields is either `below`, where no layer of the stack
/// shows, or a layer of the stack that shows there with none above it
/// that does.
pub proof fn lemma_topmost_top(stack: Seq<usize>, surfs: Seq<Surface>, x: int, y: int, below: int)
    ensures
        (topmost(stack, surfs, x, y, below) == below && !some_shows(stack, surfs, x, y)) || exists|k: int|
            0 <= k < stack.len() && stack[k] as int == topmost(stack, surfs, x, y, below)
                && shows(surfs[stack[k] as int], x, y)
                && forall|j: int| k < j < stack.len() ==> !#[trigger] shows(surfs[stack[j] as int], x, y),
    decreases stack.len(),
{
    if stack.len() > 0 {
        let n = stack.len() - 1;
        if shows(surfs[stack[n] as int], x, y) {
            assert(stack[n] == stack.last());
        } else {
            let d = stack.drop_last();
            lemma_topmost_top(d, surfs, x, y, below);
            if topmost(d, surfs, x, y, below) == below && !some_shows(d, surfs, x, y) {
                assert forall|k: int| 0 <= k < stack.len() implies !#[trigger] shows(surfs[stack[k] as int], x, y) by {
                    if k < n {
                        assert(stack[k] == d[k]);
                    }
                }
            } else {
                let k = choose|k: int|
                    0 <= k < d.len() && d[k] as int == topmost(d, surfs, x, y, below)
                        && shows(surfs[d[k] as int], x, y)
                        && forall|j: int| k < j < d.len() ==> !#[trigger] shows(surfs[d[j] as int], x, y);
                assert(stack[k] == d[k]);
                assert forall|j: int| k < j < stack.len() implies !#[trigger] shows(surfs[stack[j] as int], x, y) by {
                    if j < n {
                        assert(stack[j] == d[j]);
                    }
                }
            }
        }
    }
}

} // verus!

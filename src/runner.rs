use vstd::prelude::*;

use crate::direction::{
    advance, dir_rev, dir_with_layer, is_side, layer_of, pos_moved, rev, side, with_layer,
};
use crate::world::{
    chunks_wf, empty_chunk, materialized, padded, schedule, stack_at,
    touch, with_stack, world_wf, Block, Signal, World, WorldView,
};

verus! {

/// A position: direction/layer byte, chunk key, in-chunk index.
pub type Pos = (u8, u64, u8);

/// Combines a side-signal `v` into a stored `value` as `mode` says.
pub open spec fn combine(mode: u8, value: u32, v: u32) -> u32 {
    if mode == 0 {
        v
    } else if mode == 1 {
        value | v
    } else if mode == 2 {
        value & v
    } else if mode == 3 {
        value ^ v
    } else if mode == 4 {
        if value + v > u32::MAX { u32::MAX } else { (value + v) as u32 }
    } else if mode == 5 {
        if value < v { 0 } else { (value - v) as u32 }
    } else if mode == 6 {
        if value * v > u32::MAX { u32::MAX } else { (value * v) as u32 }
    } else if mode == 7 {
        if v == 0 { u32::MAX } else { value / v }
    } else if mode == 8 {
        if v == 0 { value } else { value % v }
    } else {
        value
    }
}

/// The world with the top block of stack `(l, c, i)` replaced by `b`.
pub open spec fn set_top(w: WorldView, l: int, c: u64, i: u8, b: Block) -> WorldView {
    let s = stack_at(w, l, c, i);
    with_stack(w, l, c, i, s.update(s.len() - 1, b))
}

/// The world with `v` sent one step along `dl` from `(c, i)`, delivered `t`
/// ticks ahead; unchanged where that step leaves the world.
pub open spec fn forward(w: WorldView, t: nat, v: u32, dl: u8, c: u64, i: u8) -> WorldView {
    match advance(dl, c, i) {
        Some(p) => schedule(w, t, (v, p.0, p.1, p.2)),
        None => w,
    }
}

/// The world after the top block of `src` was taken off and put on `dst`;
/// `src`'s chunk is created first, `dst`'s only if a block moves.
pub open spec fn relocate(w: WorldView, src: Pos, dst: Pos) -> WorldView {
    let w1 = touch(w, layer_of(src.0), src.1);
    let s = stack_at(w1, layer_of(src.0), src.1, src.2);
    if s.len() == 0 {
        w1
    } else {
        let w2 = with_stack(w1, layer_of(src.0), src.1, src.2, s.drop_last());
        let d = stack_at(w2, layer_of(dst.0), dst.1, dst.2);
        with_stack(w2, layer_of(dst.0), dst.1, dst.2, d.push(s.last()))
    }
}

/// The world after the top block of `front` was taken off, exchanged with the
/// top block of `behind` where there is one, and what is left in hand put back
/// on `front`.
pub open spec fn exchange(w: WorldView, front: Pos, behind: Pos) -> WorldView {
    let (lf, lb) = (layer_of(front.0), layer_of(behind.0));
    let w1 = touch(w, lf, front.1);
    let s = stack_at(w1, lf, front.1, front.2);
    if s.len() == 0 {
        w1
    } else {
        let w2 = with_stack(w1, lf, front.1, front.2, s.drop_last());
        let b = stack_at(w2, lb, behind.1, behind.2);
        let (w3, held) = if b.len() == 0 {
            (touch(w2, lb, behind.1), s.last())
        } else {
            (with_stack(w2, lb, behind.1, behind.2, b.update(b.len() - 1, s.last())), b.last())
        };
        with_stack(w3, lf, front.1, front.2, stack_at(w3, lf, front.1, front.2).push(held))
    }
}

/// The world after one signal has been delivered to the top block of its target stack.
pub open spec fn delivered(w: WorldView, sig: Signal) -> WorldView {
    let (v, dl, c, i) = sig;
    let l = layer_of(dl);
    let w0 = touch(w, l, c);
    let s = stack_at(w0, l, c, i);
    if s.len() == 0 {
        w0
    } else {
        match s.last() {
            Block::Color(_) => set_top(w0, l, c, i, Block::Color(v)),
            Block::Char(_) => set_top(w0, l, c, i, Block::Char(v)),
            Block::Delay(t, d) => {
                if side(d, dl) {
                    set_top(w0, l, c, i, Block::Delay(v, d))
                } else {
                    forward(w0, t as nat, v, with_layer(d, dl), c, i)
                }
            },
            Block::Storage(value, mode, d) => {
                if side(d, dl) {
                    set_top(w0, l, c, i, Block::Storage(combine(mode, value, v), mode, d))
                } else {
                    let m: u8 = if v > 255 { 255 } else { v as u8 };
                    forward(
                        set_top(w0, l, c, i, Block::Storage(value, m, d)),
                        0,
                        value,
                        with_layer(d, dl),
                        c,
                        i,
                    )
                }
            },
            Block::Gate(open, d) => {
                if side(d, dl) {
                    set_top(w0, l, c, i, Block::Gate(v == 0, d))
                } else if open {
                    forward(w0, 0, v, with_layer(d, dl), c, i)
                } else {
                    w0
                }
            },
            Block::Splitter(d) => {
                if side(d, dl) {
                    forward(
                        forward(w0, 0, v, with_layer(d, dl), c, i),
                        0,
                        v,
                        rev(with_layer(d, dl)),
                        c,
                        i,
                    )
                } else {
                    w0
                }
            },
            Block::Move(d) => {
                let front = advance(with_layer(d, dl), c, i);
                let behind = advance(rev(with_layer(d, dl)), c, i);
                if side(d, dl) && front is Some && behind is Some {
                    if v == 0 {
                        relocate(w0, behind.unwrap(), front.unwrap())
                    } else {
                        relocate(w0, front.unwrap(), behind.unwrap())
                    }
                } else {
                    w0
                }
            },
            Block::Swap(d) => {
                let front = advance(with_layer(d, dl), c, i);
                let behind = advance(rev(with_layer(d, dl)), c, i);
                if side(d, dl) && front is Some && behind is Some {
                    exchange(w0, front.unwrap(), behind.unwrap())
                } else {
                    w0
                }
            },
        }
    }
}

/// The world after the signals of `s` were delivered one after the other.
pub open spec fn delivered_all(w: WorldView, s: Seq<Signal>) -> WorldView
    decreases s.len(),
{
    if s.len() == 0 {
        w
    } else {
        delivered(delivered_all(w, s.drop_last()), s.last())
    }
}

/// One tick: the queue is padded to two buckets, the first is taken off, and
/// its signals are delivered in order.
pub open spec fn ticked(w: WorldView) -> WorldView {
    let q = padded(w.queue, 2);
    delivered_all(WorldView { layers: w.layers, queue: q.drop_first() }, q[0])
}

/// Creating a chunk, or replacing one of its stacks, keeps the world well formed.
pub proof fn lemma_stack_ops_wf(w: WorldView)
    requires
        world_wf(w),
    ensures
        forall|l: int, c: u64| 0 <= l < 32 ==> world_wf(#[trigger] touch(w, l, c)),
        forall|l: int, c: u64, i: u8, s: Seq<Block>|
            0 <= l < 32 ==> world_wf(#[trigger] with_stack(w, l, c, i, s)),
        forall|t: nat, sig: Signal| world_wf(#[trigger] schedule(w, t, sig)),
        forall|l: int, c: u64, i: u8|
            0 <= l < 32 ==> #[trigger] stack_at(touch(w, l, c), l, c, i) == stack_at(w, l, c, i),
        forall|l: int, c: u64, i: u8, s: Seq<Block>|
            0 <= l < 32 ==> #[trigger] with_stack(touch(w, l, c), l, c, i, s) == with_stack(
                w,
                l,
                c,
                i,
                s,
            ),
{
    assert forall|l: int, c: u64, i: u8, s: Seq<Block>| 0 <= l < 32 implies #[trigger] with_stack(
        touch(w, l, c),
        l,
        c,
        i,
        s,
    ) == with_stack(w, l, c, i, s) by {
        assert(touch(w, l, c).layers[l] == materialized(w.layers[l], c));
        assert(materialized(materialized(w.layers[l], c), c) == materialized(w.layers[l], c));
        assert(touch(w, l, c).layers.update(l, materialized(w.layers[l], c)) =~= w.layers.update(
            l,
            materialized(w.layers[l], c),
        ));
        assert(with_stack(touch(w, l, c), l, c, i, s).layers =~= with_stack(w, l, c, i, s).layers);
    }
    assert forall|l: int, c: u64| 0 <= l < 32 implies world_wf(#[trigger] touch(w, l, c)) by {
        let w1 = touch(w, l, c);
        assert forall|l2: int| 0 <= l2 < 32 implies chunks_wf(#[trigger] w1.layers[l2]) by {
            if l2 == l {
                assert(chunks_wf(w.layers[l]));
            } else {
                assert(chunks_wf(w.layers[l2]));
            }
        }
    }
    assert forall|l: int, c: u64, i: u8, s: Seq<Block>| 0 <= l < 32 implies world_wf(
        #[trigger] with_stack(w, l, c, i, s),
    ) by {
        let w1 = with_stack(w, l, c, i, s);
        assert forall|l2: int| 0 <= l2 < 32 implies chunks_wf(#[trigger] w1.layers[l2]) by {
            assert(chunks_wf(w.layers[l]));
            assert(chunks_wf(w.layers[l2]));
            assert(materialized(w.layers[l], c)[c].len() == 256);
        }
    }
    assert forall|t: nat, sig: Signal| world_wf(#[trigger] schedule(w, t, sig)) by {
        assert(schedule(w, t, sig).layers == w.layers);
    }
    assert forall|l: int, c: u64, i: u8| 0 <= l < 32 implies #[trigger] stack_at(
        touch(w, l, c),
        l,
        c,
        i,
    ) == stack_at(w, l, c, i) by {
        assert(empty_chunk()[i as int] == Seq::<Block>::empty());
    }
}

/// Replacing a stack by what it already holds only creates its chunk.
proof fn lemma_with_same_stack(w: WorldView, l: int, c: u64, i: u8)
    requires
        world_wf(w),
        0 <= l < 32,
    ensures
        with_stack(w, l, c, i, stack_at(w, l, c, i)) == touch(w, l, c),
{
    let m = materialized(w.layers[l], c);
    assert(chunks_wf(w.layers[l]));
    assert(m[c].update(i as int, stack_at(w, l, c, i)) =~= m[c]);
    assert(m.insert(c, m[c]) =~= m);
}

/// The top block of stack `(l, c, i)`, its chunk created first.
fn top_block(world: &mut World, l: usize, c: u64, i: u8) -> (r: Option<Block>)
    requires
        old(world).wf(),
        l < 32,
    ensures
        final(world)@ == touch(old(world)@, l as int, c),
        final(world).wf(),
        r == (if stack_at(old(world)@, l as int, c, i).len() == 0 {
            None
        } else {
            Some(stack_at(old(world)@, l as int, c, i).last())
        }),
{
    proof {
        lemma_stack_ops_wf(old(world)@);
        lemma_with_same_stack(old(world)@, l as int, c, i);
    }
    let st = world.stack_mut(l, c, i);
    let n = st.len();
    if n == 0 {
        None
    } else {
        Some(st[n - 1])
    }
}

/// Replaces the top block of the non-empty stack `(l, c, i)`.
fn replace_top(world: &mut World, l: usize, c: u64, i: u8, b: Block)
    requires
        old(world).wf(),
        l < 32,
        stack_at(old(world)@, l as int, c, i).len() > 0,
    ensures
        final(world)@ == set_top(old(world)@, l as int, c, i, b),
        final(world).wf(),
{
    proof {
        lemma_stack_ops_wf(old(world)@);
    }
    let st = world.stack_mut(l, c, i);
    let n = st.len();
    st[n - 1] = b;
}

/// Takes the top block off stack `(l, c, i)`, its chunk created first.
fn pop_top(world: &mut World, l: usize, c: u64, i: u8) -> (r: Option<Block>)
    requires
        old(world).wf(),
        l < 32,
    ensures
        final(world).wf(),
        stack_at(old(world)@, l as int, c, i).len() == 0 ==> r is None && final(world)@ == touch(
            old(world)@,
            l as int,
            c,
        ),
        stack_at(old(world)@, l as int, c, i).len() > 0 ==> r == Some(
            stack_at(old(world)@, l as int, c, i).last(),
        ) && final(world)@ == with_stack(
            old(world)@,
            l as int,
            c,
            i,
            stack_at(old(world)@, l as int, c, i).drop_last(),
        ),
{
    proof {
        lemma_stack_ops_wf(old(world)@);
        lemma_with_same_stack(old(world)@, l as int, c, i);
    }
    let st = world.stack_mut(l, c, i);
    st.pop()
}

/// Puts `b` on top of stack `(l, c, i)`.
fn push_top(world: &mut World, l: usize, c: u64, i: u8, b: Block)
    requires
        old(world).wf(),
        l < 32,
    ensures
        final(world)@ == with_stack(
            old(world)@,
            l as int,
            c,
            i,
            stack_at(old(world)@, l as int, c, i).push(b),
        ),
        final(world).wf(),
{
    proof {
        lemma_stack_ops_wf(old(world)@);
    }
    let st = world.stack_mut(l, c, i);
    st.push(b);
}

/// Sends `v` one step along `dl` from `(c, i)`, into the bucket `t` ticks ahead.
fn send(world: &mut World, t: u32, v: u32, dl: u8, c: u64, i: u8)
    requires
        old(world).wf(),
    ensures
        final(world)@ == forward(old(world)@, t as nat, v, dl, c, i),
        final(world).wf(),
{
    proof {
        lemma_stack_ops_wf(old(world)@);
    }
    if let Some((dl2, c2, i2)) = pos_moved(dl, c, i) {
        let bucket = world.signals_mut(t as usize);
        bucket.push((v, dl2, c2, i2));
    }
}

/// Takes the top block off `src` and puts it on `dst`.
fn relocate_top(world: &mut World, src: Pos, dst: Pos)
    requires
        old(world).wf(),
    ensures
        final(world)@ == relocate(old(world)@, src, dst),
        final(world).wf(),
{
    proof {
        lemma_stack_ops_wf(old(world)@);
    }
    if let Some(b) = pop_top(world, (src.0 % 32) as usize, src.1, src.2) {
        push_top(world, (dst.0 % 32) as usize, dst.1, dst.2, b);
    }
}

/// Takes the top block off `front`, exchanges it with the top block of
/// `behind` if there is one, and puts what is in hand back on `front`.
fn exchange_tops(world: &mut World, front: Pos, behind: Pos)
    requires
        old(world).wf(),
    ensures
        final(world)@ == exchange(old(world)@, front, behind),
        final(world).wf(),
{
    let lf = (front.0 % 32) as usize;
    let lb = (behind.0 % 32) as usize;
    proof {
        lemma_stack_ops_wf(old(world)@);
    }
    if let Some(first) = pop_top(world, lf, front.1, front.2) {
        let ghost w2 = world@;
        proof {
            lemma_stack_ops_wf(w2);
        }
        let held = match top_block(world, lb, behind.1, behind.2) {
            None => first,
            Some(second) => {
                proof {
                    lemma_stack_ops_wf(touch(w2, lb as int, behind.1));
                }
                replace_top(world, lb, behind.1, behind.2, first);
                second
            },
        };
        push_top(world, lf, front.1, front.2, held);
    }
}

proof fn lemma_mul_saturates(a: u32, b: u32)
    requires
        b != 0,
    ensures
        a > u32::MAX / b ==> a * b > u32::MAX,
        a <= u32::MAX / b ==> a * b <= u32::MAX,
{
    assert(a > u32::MAX / b ==> a * b > u32::MAX) by (nonlinear_arith)
        requires
            b != 0,
    ;
    assert(a <= u32::MAX / b ==> a * b <= u32::MAX) by (nonlinear_arith)
        requires
            b != 0,
    ;
}

/// Combines a side-signal `v` into a stored `value` as `mode` says.
pub fn combine_value(mode: u8, value: u32, v: u32) -> (r: u32)
    ensures
        r == combine(mode, value, v),
{
    match mode {
        0 => v,
        1 => value | v,
        2 => value & v,
        3 => value ^ v,
        4 => value.saturating_add(v),
        5 => value.saturating_sub(v),
        6 => {
            if v != 0 && value > u32::MAX / v {
                proof {
                    lemma_mul_saturates(value, v);
                }
                u32::MAX
            } else {
                proof {
                    if v != 0 {
                        lemma_mul_saturates(value, v);
                    }
                }
                value * v
            }
        },
        7 => {
            if v == 0 {
                u32::MAX
            } else {
                value / v
            }
        },
        8 => {
            if v == 0 {
                value
            } else {
                value % v
            }
        },
        _ => value,
    }
}

/// Delivers one signal to the top block of its target stack.
fn deliver(world: &mut World, sig: Signal)
    requires
        old(world).wf(),
    ensures
        final(world)@ == delivered(old(world)@, sig),
        final(world).wf(),
{
    let (v, dl, c, i) = sig;
    let l = (dl % 32) as usize;
    proof {
        lemma_stack_ops_wf(old(world)@);
    }
    let top = top_block(world, l, c, i);
    let ghost w0 = world@;
    proof {
        lemma_stack_ops_wf(w0);
    }
    match top {
        None => {},
        Some(b) => match b {
            Block::Color(_) => replace_top(world, l, c, i, Block::Color(v)),
            Block::Char(_) => replace_top(world, l, c, i, Block::Char(v)),
            Block::Delay(t, d) => {
                if is_side(d, dl) {
                    replace_top(world, l, c, i, Block::Delay(v, d));
                } else {
                    send(world, t, v, dir_with_layer(d, dl), c, i);
                }
            },
            Block::Storage(value, mode, d) => {
                if is_side(d, dl) {
                    let nv = combine_value(mode, value, v);
                    replace_top(world, l, c, i, Block::Storage(nv, mode, d));
                } else {
                    let m: u8 = if v > 255 {
                        255
                    } else {
                        v as u8
                    };
                    replace_top(world, l, c, i, Block::Storage(value, m, d));
                    send(world, 0, value, dir_with_layer(d, dl), c, i);
                }
            },
            Block::Gate(open, d) => {
                if is_side(d, dl) {
                    replace_top(world, l, c, i, Block::Gate(v == 0, d));
                } else if open {
                    send(world, 0, v, dir_with_layer(d, dl), c, i);
                }
            },
            Block::Splitter(d) => {
                if is_side(d, dl) {
                    let f = dir_with_layer(d, dl);
                    send(world, 0, v, f, c, i);
                    send(world, 0, v, dir_rev(f), c, i);
                }
            },
            Block::Move(d) => {
                if is_side(d, dl) {
                    let f = dir_with_layer(d, dl);
                    let front = pos_moved(f, c, i);
                    let behind = pos_moved(dir_rev(f), c, i);
                    if let (Some(fr), Some(bh)) = (front, behind) {
                        if v == 0 {
                            relocate_top(world, bh, fr);
                        } else {
                            relocate_top(world, fr, bh);
                        }
                    }
                }
            },
            Block::Swap(d) => {
                if is_side(d, dl) {
                    let f = dir_with_layer(d, dl);
                    let front = pos_moved(f, c, i);
                    let behind = pos_moved(dir_rev(f), c, i);
                    if let (Some(fr), Some(bh)) = (front, behind) {
                        exchange_tops(world, fr, bh);
                    }
                }
            },
        },
    }
}

/// Creating a chunk changes no stack.
pub proof fn lemma_touch_keeps_stacks(w: WorldView, l: int, c: u64)
    requires
        0 <= l < w.layers.len(),
    ensures
        forall|l2: int, c2: u64, i2: u8|
            0 <= l2 < w.layers.len() ==> #[trigger] stack_at(touch(w, l, c), l2, c2, i2)
                == stack_at(w, l2, c2, i2),
        touch(w, l, c).queue == w.queue,
        touch(w, l, c).layers.len() == w.layers.len(),
{
    assert forall|l2: int, c2: u64, i2: u8| 0 <= l2 < w.layers.len() implies #[trigger] stack_at(
        touch(w, l, c),
        l2,
        c2,
        i2,
    ) == stack_at(w, l2, c2, i2) by {
        assert(empty_chunk()[i2 as int] == Seq::<Block>::empty());
    }
}

/// A side-signal to a Move block whose cell in front or behind lies outside
/// the world (a layer move past layer 0 or 31) changes no stack and schedules nothing.
pub proof fn lemma_move_at_edge(w: WorldView, sig: Signal, d: u8)
    requires
        world_wf(w),
        stack_at(w, layer_of(sig.1), sig.2, sig.3).len() > 0,
        stack_at(w, layer_of(sig.1), sig.2, sig.3).last() == Block::Move(d),
        side(d, sig.1),
        advance(with_layer(d, sig.1), sig.2, sig.3) is None || advance(
            rev(with_layer(d, sig.1)),
            sig.2,
            sig.3,
        ) is None,
    ensures
        delivered(w, sig) == touch(w, layer_of(sig.1), sig.2),
        delivered(w, sig).queue == w.queue,
        forall|l2: int, c2: u64, i2: u8|
            0 <= l2 < 32 ==> #[trigger] stack_at(delivered(w, sig), l2, c2, i2) == stack_at(
                w,
                l2,
                c2,
                i2,
            ),
{
    lemma_stack_ops_wf(w);
    lemma_touch_keeps_stacks(w, layer_of(sig.1), sig.2);
}

/// A side-signal to a Swap block whose stack in front is empty changes no
/// stack and schedules nothing.
pub proof fn lemma_swap_empty_front(w: WorldView, sig: Signal, d: u8)
    requires
        world_wf(w),
        stack_at(w, layer_of(sig.1), sig.2, sig.3).len() > 0,
        stack_at(w, layer_of(sig.1), sig.2, sig.3).last() == Block::Swap(d),
        advance(with_layer(d, sig.1), sig.2, sig.3) matches Some(f) && stack_at(
            w,
            layer_of(f.0),
            f.1,
            f.2,
        ).len() == 0,
    ensures
        delivered(w, sig).queue == w.queue,
        forall|l2: int, c2: u64, i2: u8|
            0 <= l2 < 32 ==> #[trigger] stack_at(delivered(w, sig), l2, c2, i2) == stack_at(
                w,
                l2,
                c2,
                i2,
            ),
{
    let l = layer_of(sig.1);
    let w0 = touch(w, l, sig.2);
    lemma_stack_ops_wf(w);
    lemma_touch_keeps_stacks(w, l, sig.2);
    let f = advance(with_layer(d, sig.1), sig.2, sig.3).unwrap();
    assert(stack_at(w0, layer_of(f.0), f.1, f.2) == stack_at(w, layer_of(f.0), f.1, f.2));
    lemma_stack_ops_wf(w0);
    lemma_touch_keeps_stacks(w0, layer_of(f.0), f.1);
    let w1 = touch(w0, layer_of(f.0), f.1);
    assert(stack_at(w1, layer_of(f.0), f.1, f.2).len() == 0);
}

/// Drives the simulation of the world it owns.
pub struct Runner {
    pub world: World,
}

impl Runner {
    /// Takes ownership of `world`, adding one empty bucket if its queue has none.
    pub fn new(world: World) -> (r: Runner)
        ensures
            r.world@ == (WorldView { layers: world@.layers, queue: padded(world@.queue, 1) }),
    {
        let mut world = world;
        let ghost q0 = world@.queue;
        if world.signals_queue.len() == 0 {
            let e: Vec<Signal> = Vec::new();
            assert(e@ =~= Seq::<Signal>::empty());
            world.signals_queue.push_back(e);
            assert(world@.queue =~= padded(q0, 1));
        }
        Runner { world }
    }

    /// Advances the simulation by one tick: the queue is padded to two buckets,
    /// the first bucket is taken off, and each of its signals is delivered in turn.
    pub fn tick(&mut self)
        requires
            old(self).world.wf(),
        ensures
            final(self).world@ == ticked(old(self).world@),
            final(self).world.wf(),
    {
        let ghost q0 = self.world@.queue;
        while self.world.signals_queue.len() < 2
            invariant
                self.world.wf(),
                self.world@.layers == old(self).world@.layers,
                q0.len() <= self.world@.queue.len(),
                self.world@.queue == padded(q0, self.world@.queue.len()),
                self.world@.queue.len() > q0.len() ==> self.world@.queue.len() <= 2,
            decreases 2 - self.world.signals_queue.len(),
        {
            let e: Vec<Signal> = Vec::new();
            assert(e@ =~= Seq::<Signal>::empty());
            let ghost prev = self.world@.queue;
            self.world.signals_queue.push_back(e);
            assert(self.world@.queue =~= prev.push(Seq::<Signal>::empty()));
            assert(self.world@.queue =~= padded(q0, self.world@.queue.len()));
        }
        assert(self.world@.queue =~= padded(q0, 2));
        let ghost q = self.world@.queue;
        let bucket = self.world.signals_queue.pop_front().unwrap();
        let ghost start = WorldView { layers: old(self).world@.layers, queue: q.drop_first() };
        assert(self.world@.queue =~= q.drop_first());
        assert(bucket@ == q[0]);
        let mut j: usize = 0;
        while j < bucket.len()
            invariant
                j <= bucket@.len(),
                self.world.wf(),
                self.world@ == delivered_all(start, bucket@.take(j as int)),
            decreases bucket@.len() - j,
        {
            assert(bucket@.take(j as int + 1).drop_last() =~= bucket@.take(j as int));
            deliver(&mut self.world, bucket[j]);
            j = j + 1;
        }
        assert(bucket@.take(j as int) =~= bucket@);
    }
}

} // verus!

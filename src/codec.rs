use std::collections::VecDeque;
use vstd::prelude::*;

verus! {

/// Big-endian bytes of a `u32`.
pub open spec fn u32_bytes(x: u32) -> Seq<u8> {
    seq![(x >> 24u32) as u8, (x >> 16u32) as u8, (x >> 8u32) as u8, x as u8]
}

/// The `u32` whose big-endian bytes start `b`.
pub open spec fn u32_of(b: Seq<u8>) -> u32 {
    (b[0] as u32) << 24u32 | (b[1] as u32) << 16u32 | (b[2] as u32) << 8u32 | b[3] as u32
}

/// Big-endian bytes of a `u64`.
pub open spec fn u64_bytes(x: u64) -> Seq<u8> {
    seq![
        (x >> 56u64) as u8,
        (x >> 48u64) as u8,
        (x >> 40u64) as u8,
        (x >> 32u64) as u8,
        (x >> 24u64) as u8,
        (x >> 16u64) as u8,
        (x >> 8u64) as u8,
        x as u8,
    ]
}

/// The `u64` whose big-endian bytes start `b`.
pub open spec fn u64_of(b: Seq<u8>) -> u64 {
    (b[0] as u64) << 56u64 | (b[1] as u64) << 48u64 | (b[2] as u64) << 40u64 | (b[3] as u64)
        << 32u64 | (b[4] as u64) << 24u64 | (b[5] as u64) << 16u64 | (b[6] as u64) << 8u64
        | b[7] as u64
}

pub proof fn lemma_u32_bytes(x: u32)
    ensures
        u32_of(u32_bytes(x)) == x,
{
    let b = u32_bytes(x);
    let (b0, b1, b2, b3) = (b[0], b[1], b[2], b[3]);
    assert(b0 == (x >> 24u32) as u8 && b1 == (x >> 16u32) as u8 && b2 == (x >> 8u32) as u8 && b3
        == x as u8 ==> (b0 as u32) << 24u32 | (b1 as u32) << 16u32 | (b2 as u32) << 8u32 | b3 as u32
        == x) by (bit_vector);
}

pub proof fn lemma_u64_bytes(x: u64)
    ensures
        u64_of(u64_bytes(x)) == x,
{
    let b = u64_bytes(x);
    let (b0, b1, b2, b3, b4, b5, b6, b7) = (b[0], b[1], b[2], b[3], b[4], b[5], b[6], b[7]);
    assert(b0 == (x >> 56u64) as u8 && b1 == (x >> 48u64) as u8 && b2 == (x >> 40u64) as u8 && b3
        == (x >> 32u64) as u8 && b4 == (x >> 24u64) as u8 && b5 == (x >> 16u64) as u8 && b6 == (x
        >> 8u64) as u8 && b7 == x as u8 ==> (b0 as u64) << 56u64 | (b1 as u64) << 48u64 | (b2 as u64)
        << 40u64 | (b3 as u64) << 32u64 | (b4 as u64) << 24u64 | (b5 as u64) << 16u64 | (b6 as u64)
        << 8u64 | b7 as u64 == x) by (bit_vector);
}

/// A value that is written to and read from the saved byte format.
pub trait SaveLoad: Sized {
    /// What a value stands for in the saved format.
    type Model;

    spec fn model(&self) -> Self::Model;

    /// `e` is a saved form of `m`.
    spec fn saved_as(m: Self::Model, e: Seq<u8>) -> bool;

    /// What loading reads from the front of `b`: the value and the number of
    /// bytes read, or `None` where the bytes end early or hold an unknown tag.
    spec fn loaded(b: Seq<u8>) -> Option<(Self::Model, nat)>;

    /// The values that load back as they were saved.
    spec fn round_trips(m: Self::Model) -> bool;

    /// Loading reads no more bytes than there are.
    proof fn lemma_loaded_len(b: Seq<u8>)
        ensures
            Self::loaded(b) is Some ==> Self::loaded(b).unwrap().1 <= b.len(),
    ;

    /// Whatever follows a saved value, loading reads the value back and stops
    /// where its saved form ends.
    proof fn lemma_load_saved(m: Self::Model, e: Seq<u8>, rest: Seq<u8>)
        requires
            Self::round_trips(m),
            Self::saved_as(m, e),
        ensures
            Self::loaded(e + rest) == Some((m, e.len())),
    ;

    /// Appends the saved form of `self` to `buf`.
    fn save(&self, buf: &mut Vec<u8>)
        ensures
            final(buf)@.len() >= old(buf)@.len(),
            final(buf)@.subrange(0, old(buf)@.len() as int) == old(buf)@,
            Self::saved_as(self.model(), final(buf)@.subrange(old(buf)@.len() as int, final(buf)@.len() as int)),
    ;

    /// Reads a value from `src` at `pos`; on success also the position after it.
    fn load(src: &Vec<u8>, pos: usize) -> (r: Option<(Self, usize)>)
        requires
            pos <= src@.len(),
        ensures
            match Self::loaded(src@.subrange(pos as int, src@.len() as int)) {
                None => r is None,
                Some((m, n)) => r is Some && r.unwrap().0.model() == m && r.unwrap().1 == pos + n,
            },
    ;
}

impl SaveLoad for u8 {
    type Model = u8;

    open spec fn model(&self) -> u8 {
        *self
    }

    open spec fn saved_as(m: u8, e: Seq<u8>) -> bool {
        e == seq![m]
    }

    open spec fn loaded(b: Seq<u8>) -> Option<(u8, nat)> {
        if b.len() >= 1 {
            Some((b[0], 1))
        } else {
            None
        }
    }

    open spec fn round_trips(m: u8) -> bool {
        true
    }

    proof fn lemma_loaded_len(b: Seq<u8>) {
    }

    proof fn lemma_load_saved(m: u8, e: Seq<u8>, rest: Seq<u8>) {
        assert((e + rest)[0] == e[0]);
    }

    fn save(&self, buf: &mut Vec<u8>) {
        let ghost b0 = buf@;
        buf.push(*self);
        assert(buf@.subrange(0, b0.len() as int) =~= b0);
        assert(buf@.subrange(b0.len() as int, buf@.len() as int) =~= seq![*self]);
    }

    fn load(src: &Vec<u8>, pos: usize) -> (r: Option<(u8, usize)>) {
        if pos < src.len() {
            Some((src[pos], pos + 1))
        } else {
            None
        }
    }
}

impl SaveLoad for u32 {
    type Model = u32;

    open spec fn model(&self) -> u32 {
        *self
    }

    open spec fn saved_as(m: u32, e: Seq<u8>) -> bool {
        e == u32_bytes(m)
    }

    open spec fn loaded(b: Seq<u8>) -> Option<(u32, nat)> {
        if b.len() >= 4 {
            Some((u32_of(b), 4))
        } else {
            None
        }
    }

    open spec fn round_trips(m: u32) -> bool {
        true
    }

    proof fn lemma_loaded_len(b: Seq<u8>) {
    }

    proof fn lemma_load_saved(m: u32, e: Seq<u8>, rest: Seq<u8>) {
        lemma_u32_bytes(m);
        assert(u32_of(e + rest) == u32_of(e));
    }

    fn save(&self, buf: &mut Vec<u8>) {
        let ghost b0 = buf@;
        put_u32(buf, *self);
        assert(buf@.subrange(0, b0.len() as int) =~= b0);
        assert(buf@.subrange(b0.len() as int, buf@.len() as int) =~= u32_bytes(*self));
    }

    fn load(src: &Vec<u8>, pos: usize) -> (r: Option<(u32, usize)>) {
        if src.len() - pos >= 4 {
            let x = get_u32(src, pos);
            proof {
                assert(src@.subrange(pos as int, src@.len() as int).subrange(0, 4) =~= src@.subrange(
                    pos as int,
                    pos + 4,
                ).subrange(0, 4));
                lemma_u32_of_prefix(
                    src@.subrange(pos as int, src@.len() as int),
                    src@.subrange(pos as int, pos + 4),
                );
            }
            Some((x, pos + 4))
        } else {
            None
        }
    }
}

impl SaveLoad for u64 {
    type Model = u64;

    open spec fn model(&self) -> u64 {
        *self
    }

    open spec fn saved_as(m: u64, e: Seq<u8>) -> bool {
        e == u64_bytes(m)
    }

    open spec fn loaded(b: Seq<u8>) -> Option<(u64, nat)> {
        if b.len() >= 8 {
            Some((u64_of(b), 8))
        } else {
            None
        }
    }

    open spec fn round_trips(m: u64) -> bool {
        true
    }

    proof fn lemma_loaded_len(b: Seq<u8>) {
    }

    proof fn lemma_load_saved(m: u64, e: Seq<u8>, rest: Seq<u8>) {
        lemma_u64_bytes(m);
        assert(u64_of(e + rest) == u64_of(e));
    }

    fn save(&self, buf: &mut Vec<u8>) {
        let ghost b0 = buf@;
        put_u64(buf, *self);
        assert(buf@.subrange(0, b0.len() as int) =~= b0);
        assert(buf@.subrange(b0.len() as int, buf@.len() as int) =~= u64_bytes(*self));
    }

    fn load(src: &Vec<u8>, pos: usize) -> (r: Option<(u64, usize)>) {
        if src.len() - pos >= 8 {
            let x = get_u64(src, pos);
            proof {
                assert(src@.subrange(pos as int, src@.len() as int).subrange(0, 8) =~= src@.subrange(
                    pos as int,
                    pos + 8,
                ).subrange(0, 8));
                lemma_u64_of_prefix(
                    src@.subrange(pos as int, src@.len() as int),
                    src@.subrange(pos as int, pos + 8),
                );
            }
            Some((x, pos + 8))
        } else {
            None
        }
    }
}

/// Appends the big-endian bytes of `x`.
pub(crate) fn put_u32(buf: &mut Vec<u8>, x: u32)
    ensures
        final(buf)@ == old(buf)@ + u32_bytes(x),
{
    buf.push((x >> 24) as u8);
    buf.push((x >> 16) as u8);
    buf.push((x >> 8) as u8);
    buf.push(x as u8);
    assert(final(buf)@ =~= old(buf)@ + u32_bytes(x));
}

/// Appends the big-endian bytes of `x`.
pub(crate) fn put_u64(buf: &mut Vec<u8>, x: u64)
    ensures
        final(buf)@ == old(buf)@ + u64_bytes(x),
{
    buf.push((x >> 56) as u8);
    buf.push((x >> 48) as u8);
    buf.push((x >> 40) as u8);
    buf.push((x >> 32) as u8);
    buf.push((x >> 24) as u8);
    buf.push((x >> 16) as u8);
    buf.push((x >> 8) as u8);
    buf.push(x as u8);
    assert(final(buf)@ =~= old(buf)@ + u64_bytes(x));
}

/// The `u32` whose big-endian bytes stand at `pos`.
pub(crate) fn get_u32(src: &Vec<u8>, pos: usize) -> (r: u32)
    requires
        pos + 4 <= src.len(),
    ensures
        r == u32_of(src@.subrange(pos as int, pos + 4)),
{
    let ghost b = src@.subrange(pos as int, pos + 4);
    assert(b[0] == src[pos as int] && b[1] == src[pos + 1] && b[2] == src[pos + 2] && b[3] == src[pos
        + 3]);
    (src[pos] as u32) << 24 | (src[pos + 1] as u32) << 16 | (src[pos + 2] as u32) << 8 | src[pos
        + 3] as u32
}

/// The `u64` whose big-endian bytes stand at `pos`.
pub(crate) fn get_u64(src: &Vec<u8>, pos: usize) -> (r: u64)
    requires
        pos + 8 <= src.len(),
    ensures
        r == u64_of(src@.subrange(pos as int, pos + 8)),
{
    let ghost b = src@.subrange(pos as int, pos + 8);
    assert(b[0] == src[pos as int] && b[1] == src[pos + 1] && b[2] == src[pos + 2] && b[3] == src[pos
        + 3] && b[4] == src[pos + 4] && b[5] == src[pos + 5] && b[6] == src[pos + 6] && b[7]
        == src[pos + 7]);
    (src[pos] as u64) << 56 | (src[pos + 1] as u64) << 48 | (src[pos + 2] as u64) << 40 | (src[pos
        + 3] as u64) << 32 | (src[pos + 4] as u64) << 24 | (src[pos + 5] as u64) << 16 | (src[pos
        + 6] as u64) << 8 | src[pos + 7] as u64
}

pub proof fn lemma_u32_of_prefix(b: Seq<u8>, c: Seq<u8>)
    requires
        b.len() >= 4,
        c.len() >= 4,
        b.subrange(0, 4) == c.subrange(0, 4),
    ensures
        u32_of(b) == u32_of(c),
{
    assert(b[0] == b.subrange(0, 4)[0] && b[1] == b.subrange(0, 4)[1] && b[2] == b.subrange(0, 4)[2]
        && b[3] == b.subrange(0, 4)[3]);
    assert(c[0] == c.subrange(0, 4)[0] && c[1] == c.subrange(0, 4)[1] && c[2] == c.subrange(0, 4)[2]
        && c[3] == c.subrange(0, 4)[3]);
}

pub proof fn lemma_u64_of_prefix(b: Seq<u8>, c: Seq<u8>)
    requires
        b.len() >= 8,
        c.len() >= 8,
        b.subrange(0, 8) == c.subrange(0, 8),
    ensures
        u64_of(b) == u64_of(c),
{
    let (x, y) = (b.subrange(0, 8), c.subrange(0, 8));
    assert(b[0] == x[0] && b[1] == x[1] && b[2] == x[2] && b[3] == x[3] && b[4] == x[4] && b[5]
        == x[5] && b[6] == x[6] && b[7] == x[7]);
    assert(c[0] == y[0] && c[1] == y[1] && c[2] == y[2] && c[3] == y[3] && c[4] == y[4] && c[5]
        == y[5] && c[6] == y[6] && c[7] == y[7]);
}

/// The byte sequences of `es`, one after the other.
pub open spec fn concat(es: Seq<Seq<u8>>) -> Seq<u8>
    decreases es.len(),
{
    if es.len() == 0 {
        Seq::empty()
    } else {
        concat(es.drop_last()) + es.last()
    }
}

/// Each `es[i]` is a saved form of `ms[i]`.
pub open spec fn each_saved<C: SaveLoad>(ms: Seq<C::Model>, es: Seq<Seq<u8>>) -> bool {
    &&& es.len() == ms.len()
    &&& forall|i: int| 0 <= i < ms.len() ==> C::saved_as(#[trigger] ms[i], es[i])
}

/// `e` is the saved forms of the items of `ms`, one after the other.
pub open spec fn items_saved<C: SaveLoad>(ms: Seq<C::Model>, e: Seq<u8>) -> bool {
    exists|es: Seq<Seq<u8>>| #[trigger] each_saved::<C>(ms, es) && e == concat(es)
}

/// What loading `n` items one after the other reads from the front of `b`.
pub open spec fn items_loaded<C: SaveLoad>(b: Seq<u8>, n: nat) -> Option<(Seq<C::Model>, nat)>
    decreases n,
{
    if n == 0 {
        Some((Seq::empty(), 0))
    } else {
        match items_loaded::<C>(b, (n - 1) as nat) {
            None => None,
            Some((ms, k)) => match C::loaded(b.skip(k as int)) {
                None => None,
                Some((m, k2)) => Some((ms.push(m), k + k2)),
            },
        }
    }
}

/// Loading items reads no more bytes than there are.
pub proof fn lemma_items_loaded_len<C: SaveLoad>(b: Seq<u8>, n: nat)
    ensures
        items_loaded::<C>(b, n) is Some ==> items_loaded::<C>(b, n).unwrap().1 <= b.len(),
    decreases n,
{
    if n > 0 {
        lemma_items_loaded_len::<C>(b, (n - 1) as nat);
        if let Some((ms, k)) = items_loaded::<C>(b, (n - 1) as nat) {
            C::lemma_loaded_len(b.skip(k as int));
        }
    }
}

/// Items saved one after the other load back, whatever follows them.
pub proof fn lemma_items_load_saved<C: SaveLoad>(ms: Seq<C::Model>, es: Seq<Seq<u8>>, rest: Seq<u8>)
    requires
        forall|i: int| 0 <= i < ms.len() ==> C::round_trips(#[trigger] ms[i]),
        each_saved::<C>(ms, es),
    ensures
        items_loaded::<C>(concat(es) + rest, ms.len()) == Some((ms, concat(es).len())),
    decreases ms.len(),
{
    if ms.len() == 0 {
        assert(ms =~= Seq::<C::Model>::empty());
    } else {
        let init = ms.drop_last();
        let head = es.drop_last();
        let e = concat(es);
        let k = concat(head).len() as int;
        assert forall|i: int| 0 <= i < init.len() implies C::round_trips(#[trigger] init[i]) by {
            assert(init[i] == ms[i]);
        }
        assert forall|i: int| 0 <= i < init.len() implies C::saved_as(#[trigger] init[i], head[i]) by {
            assert(init[i] == ms[i] && head[i] == es[i]);
        }
        lemma_items_load_saved::<C>(init, head, es.last() + rest);
        assert(concat(head) + (es.last() + rest) =~= e + rest);
        assert((e + rest).skip(k) =~= es.last() + rest);
        assert(C::round_trips(ms[ms.len() - 1]));
        assert(C::saved_as(ms[ms.len() - 1], es[ms.len() - 1]));
        C::lemma_load_saved(ms.last(), es.last(), rest);
        assert(init.push(ms.last()) =~= ms);
    }
}

/// Appends the saved forms of the items, one after the other.
pub(crate) fn save_items<C: SaveLoad>(items: &Vec<C>, buf: &mut Vec<u8>)
    ensures
        final(buf)@.len() >= old(buf)@.len(),
        final(buf)@.subrange(0, old(buf)@.len() as int) == old(buf)@,
        items_saved::<C>(
            items@.map_values(|c: C| c.model()),
            final(buf)@.subrange(old(buf)@.len() as int, final(buf)@.len() as int),
        ),
{
    let ghost b0 = buf@;
    let ghost ms = items@.map_values(|c: C| c.model());
    let ghost mut es: Seq<Seq<u8>> = Seq::empty();
    let mut j: usize = 0;
    assert(buf@.subrange(0, b0.len() as int) =~= b0);
    assert(buf@.subrange(b0.len() as int, buf@.len() as int) =~= concat(es));
    while j < items.len()
        invariant
            j <= items@.len(),
            ms == items@.map_values(|c: C| c.model()),
            buf@.len() >= b0.len(),
            buf@.subrange(0, b0.len() as int) == b0,
            each_saved::<C>(ms.take(j as int), es),
            buf@.subrange(b0.len() as int, buf@.len() as int) == concat(es),
        decreases items@.len() - j,
    {
        let ghost before = buf@;
        items[j].save(buf);
        proof {
            let piece = buf@.subrange(before.len() as int, buf@.len() as int);
            let es2 = es.push(piece);
            assert(es2.drop_last() =~= es);
            assert(buf@.subrange(b0.len() as int, buf@.len() as int) =~= concat(es) + piece);
            assert(buf@.subrange(0, b0.len() as int) =~= before.subrange(0, b0.len() as int));
            assert(items[j as int].model() == ms[j as int]);
            assert forall|i: int| 0 <= i < j + 1 implies C::saved_as(
                #[trigger] ms.take(j + 1)[i],
                es2[i],
            ) by {
                if i < j {
                    assert(ms.take(j + 1)[i] == ms.take(j as int)[i]);
                }
            }
            es = es2;
        }
        j = j + 1;
    }
    assert(ms.take(j as int) =~= ms);
}

/// Loads `n` items one after the other, starting at `pos`.
pub(crate) fn load_items<C: SaveLoad>(src: &Vec<u8>, pos: usize, n: u64) -> (r: Option<(Vec<C>, usize)>)
    requires
        pos <= src@.len(),
    ensures
        match items_loaded::<C>(src@.skip(pos as int), n as nat) {
            None => r is None,
            Some((ms, k)) => r is Some && r.unwrap().0@.map_values(|c: C| c.model()) == ms
                && r.unwrap().1 == pos + k,
        },
{
    let ghost b = src@.skip(pos as int);
    let mut out: Vec<C> = Vec::new();
    let mut p = pos;
    let mut j: u64 = 0;
    assert(out@.map_values(|c: C| c.model()) =~= Seq::<C::Model>::empty());
    while j < n
        invariant
            j <= n,
            pos <= p <= src@.len(),
            b == src@.skip(pos as int),
            items_loaded::<C>(b, j as nat) == Some((out@.map_values(|c: C| c.model()), (p - pos) as nat)),
        decreases n - j,
    {
        assert(b.skip(p - pos) =~= src@.subrange(p as int, src@.len() as int));
        match C::load(src, p) {
            None => {
                proof {
                    lemma_items_loaded_none::<C>(b, (j + 1) as nat, n as nat);
                }
                return None;
            },
            Some((item, next)) => {
                proof {
                    C::lemma_loaded_len(src@.subrange(p as int, src@.len() as int));
                }
                let ghost before = out@;
                out.push(item);
                assert(out@.map_values(|c: C| c.model()) =~= before.map_values(|c: C| c.model()).push(item.model()));
                p = next;
                j = j + 1;
            },
        }
    }
    Some((out, p))
}

/// Once loading items fails, loading more fails too.
pub proof fn lemma_items_loaded_none<C: SaveLoad>(b: Seq<u8>, m: nat, n: nat)
    requires
        m <= n,
        items_loaded::<C>(b, m) is None,
    ensures
        items_loaded::<C>(b, n) is None,
    decreases n - m,
{
    if m < n {
        lemma_items_loaded_none::<C>(b, m + 1, n);
    }
}

/// The saved form of a sequence: its length as 8 bytes, then its items.
pub open spec fn seq_saved<C: SaveLoad>(ms: Seq<C::Model>, e: Seq<u8>) -> bool {
    &&& e.len() >= 8
    &&& e.take(8) == u64_bytes(ms.len() as u64)
    &&& items_saved::<C>(ms, e.skip(8))
}

/// What loading a sequence reads from the front of `b`.
pub open spec fn seq_loaded<C: SaveLoad>(b: Seq<u8>) -> Option<(Seq<C::Model>, nat)> {
    if b.len() < 8 {
        None
    } else {
        match items_loaded::<C>(b.skip(8), u64_of(b) as nat) {
            None => None,
            Some((ms, k)) => Some((ms, k + 8)),
        }
    }
}

/// A sequence loads back when its length fits in 8 bytes and each item loads back.
pub open spec fn seq_round_trips<C: SaveLoad>(ms: Seq<C::Model>) -> bool {
    &&& ms.len() <= u64::MAX
    &&& forall|i: int| 0 <= i < ms.len() ==> C::round_trips(#[trigger] ms[i])
}

pub proof fn lemma_seq_loaded_len<C: SaveLoad>(b: Seq<u8>)
    ensures
        seq_loaded::<C>(b) is Some ==> seq_loaded::<C>(b).unwrap().1 <= b.len(),
{
    if b.len() >= 8 {
        lemma_items_loaded_len::<C>(b.skip(8), u64_of(b) as nat);
    }
}

pub proof fn lemma_seq_load_saved<C: SaveLoad>(ms: Seq<C::Model>, e: Seq<u8>, rest: Seq<u8>)
    requires
        seq_round_trips::<C>(ms),
        seq_saved::<C>(ms, e),
    ensures
        seq_loaded::<C>(e + rest) == Some((ms, e.len())),
{
    let b = e + rest;
    lemma_u64_bytes(ms.len() as u64);
    assert(b.subrange(0, 8) =~= e.take(8));
    assert(e.take(8).subrange(0, 8) =~= e.take(8));
    lemma_u64_of_prefix(b, e.take(8));
    assert(u64_bytes(ms.len() as u64).subrange(0, 8) =~= u64_bytes(ms.len() as u64));
    lemma_u64_of_prefix(e.take(8), u64_bytes(ms.len() as u64));
    let es = choose|es: Seq<Seq<u8>>| #[trigger] each_saved::<C>(ms, es) && e.skip(8) == concat(es);
    lemma_items_load_saved::<C>(ms, es, rest);
    assert(b.skip(8) =~= e.skip(8) + rest);
}

impl<C: SaveLoad> SaveLoad for Vec<C> {
    type Model = Seq<C::Model>;

    open spec fn model(&self) -> Seq<C::Model> {
        self@.map_values(|c: C| c.model())
    }

    open spec fn saved_as(m: Seq<C::Model>, e: Seq<u8>) -> bool {
        seq_saved::<C>(m, e)
    }

    open spec fn loaded(b: Seq<u8>) -> Option<(Seq<C::Model>, nat)> {
        seq_loaded::<C>(b)
    }

    open spec fn round_trips(m: Seq<C::Model>) -> bool {
        seq_round_trips::<C>(m)
    }

    proof fn lemma_loaded_len(b: Seq<u8>) {
        lemma_seq_loaded_len::<C>(b);
    }

    proof fn lemma_load_saved(m: Seq<C::Model>, e: Seq<u8>, rest: Seq<u8>) {
        lemma_seq_load_saved::<C>(m, e, rest);
    }

    fn save(&self, buf: &mut Vec<u8>) {
        let ghost b0 = buf@;
        put_u64(buf, self.len() as u64);
        let ghost b1 = buf@;
        save_items(self, buf);
        proof {
            let e = buf@.subrange(b0.len() as int, buf@.len() as int);
            assert(b1 =~= b0 + u64_bytes(self@.len() as u64));
            assert(buf@.subrange(0, b1.len() as int) == b1);
            assert forall|t: int| 0 <= t < 8 implies e.take(8)[t] == u64_bytes(
                self@.len() as u64,
            )[t] by {
                assert(e.take(8)[t] == buf@[b0.len() + t]);
                assert(buf@[b0.len() + t] == buf@.subrange(0, b1.len() as int)[b0.len() + t]);
                assert(b1[b0.len() + t] == u64_bytes(self@.len() as u64)[t]);
            }
            assert(e.take(8) =~= u64_bytes(self@.len() as u64));
            assert(e.skip(8) =~= buf@.subrange(b1.len() as int, buf@.len() as int));
            assert(buf@.subrange(0, b0.len() as int) =~= b1.subrange(0, b0.len() as int));
            assert(b1.subrange(0, b0.len() as int) =~= b0);
        }
    }

    fn load(src: &Vec<u8>, pos: usize) -> (r: Option<(Vec<C>, usize)>) {
        if src.len() - pos < 8 {
            return None;
        }
        let n = get_u64(src, pos);
        proof {
            let b = src@.subrange(pos as int, src@.len() as int);
            assert(b.subrange(0, 8) =~= src@.subrange(pos as int, pos + 8).subrange(0, 8));
            lemma_u64_of_prefix(b, src@.subrange(pos as int, pos + 8));
            assert(b.skip(8) =~= src@.skip(pos + 8));
        }
        load_items(src, pos + 8, n)
    }
}

/// Loading `n` items gives `n` items.
pub proof fn lemma_items_loaded_count<C: SaveLoad>(b: Seq<u8>, n: nat)
    ensures
        items_loaded::<C>(b, n) is Some ==> items_loaded::<C>(b, n).unwrap().0.len() == n,
    decreases n,
{
    if n > 0 {
        lemma_items_loaded_count::<C>(b, (n - 1) as nat);
    }
}

/// Appends the saved forms of the items of a queue, one after the other.
fn save_deque_items<C: SaveLoad>(items: &VecDeque<C>, buf: &mut Vec<u8>)
    ensures
        final(buf)@.len() >= old(buf)@.len(),
        final(buf)@.subrange(0, old(buf)@.len() as int) == old(buf)@,
        items_saved::<C>(
            items@.map_values(|c: C| c.model()),
            final(buf)@.subrange(old(buf)@.len() as int, final(buf)@.len() as int),
        ),
{
    let ghost b0 = buf@;
    let ghost ms = items@.map_values(|c: C| c.model());
    let ghost mut es: Seq<Seq<u8>> = Seq::empty();
    let mut j: usize = 0;
    assert(buf@.subrange(0, b0.len() as int) =~= b0);
    assert(buf@.subrange(b0.len() as int, buf@.len() as int) =~= concat(es));
    while j < items.len()
        invariant
            j <= items@.len(),
            ms == items@.map_values(|c: C| c.model()),
            buf@.len() >= b0.len(),
            buf@.subrange(0, b0.len() as int) == b0,
            each_saved::<C>(ms.take(j as int), es),
            buf@.subrange(b0.len() as int, buf@.len() as int) == concat(es),
        decreases items@.len() - j,
    {
        let ghost before = buf@;
        items[j].save(buf);
        proof {
            let piece = buf@.subrange(before.len() as int, buf@.len() as int);
            let es2 = es.push(piece);
            assert(es2.drop_last() =~= es);
            assert(buf@.subrange(b0.len() as int, buf@.len() as int) =~= concat(es) + piece);
            assert(buf@.subrange(0, b0.len() as int) =~= before.subrange(0, b0.len() as int));
            assert(items@[j as int].model() == ms[j as int]);
            assert forall|i: int| 0 <= i < j + 1 implies C::saved_as(
                #[trigger] ms.take(j + 1)[i],
                es2[i],
            ) by {
                if i < j {
                    assert(ms.take(j + 1)[i] == ms.take(j as int)[i]);
                }
            }
            es = es2;
        }
        j = j + 1;
    }
    assert(ms.take(j as int) =~= ms);
}

impl<C: SaveLoad> SaveLoad for VecDeque<C> {
    type Model = Seq<C::Model>;

    open spec fn model(&self) -> Seq<C::Model> {
        self@.map_values(|c: C| c.model())
    }

    open spec fn saved_as(m: Seq<C::Model>, e: Seq<u8>) -> bool {
        seq_saved::<C>(m, e)
    }

    open spec fn loaded(b: Seq<u8>) -> Option<(Seq<C::Model>, nat)> {
        seq_loaded::<C>(b)
    }

    open spec fn round_trips(m: Seq<C::Model>) -> bool {
        seq_round_trips::<C>(m)
    }

    proof fn lemma_loaded_len(b: Seq<u8>) {
        lemma_seq_loaded_len::<C>(b);
    }

    proof fn lemma_load_saved(m: Seq<C::Model>, e: Seq<u8>, rest: Seq<u8>) {
        lemma_seq_load_saved::<C>(m, e, rest);
    }

    fn save(&self, buf: &mut Vec<u8>) {
        let ghost b0 = buf@;
        put_u64(buf, self.len() as u64);
        let ghost b1 = buf@;
        save_deque_items(self, buf);
        proof {
            let e = buf@.subrange(b0.len() as int, buf@.len() as int);
            assert(b1 =~= b0 + u64_bytes(self@.len() as u64));
            assert(buf@.subrange(0, b1.len() as int) == b1);
            assert forall|t: int| 0 <= t < 8 implies e.take(8)[t] == u64_bytes(
                self@.len() as u64,
            )[t] by {
                assert(e.take(8)[t] == buf@[b0.len() + t]);
                assert(buf@[b0.len() + t] == buf@.subrange(0, b1.len() as int)[b0.len() + t]);
                assert(b1[b0.len() + t] == u64_bytes(self@.len() as u64)[t]);
            }
            assert(e.take(8) =~= u64_bytes(self@.len() as u64));
            assert(e.skip(8) =~= buf@.subrange(b1.len() as int, buf@.len() as int));
            assert(buf@.subrange(0, b0.len() as int) =~= b1.subrange(0, b0.len() as int));
            assert(b1.subrange(0, b0.len() as int) =~= b0);
        }
    }

    fn load(src: &Vec<u8>, pos: usize) -> (r: Option<(VecDeque<C>, usize)>) {
        if src.len() - pos < 8 {
            return None;
        }
        let n = get_u64(src, pos);
        proof {
            let b = src@.subrange(pos as int, src@.len() as int);
            assert(b.subrange(0, 8) =~= src@.subrange(pos as int, pos + 8).subrange(0, 8));
            lemma_u64_of_prefix(b, src@.subrange(pos as int, pos + 8));
            assert(b.skip(8) =~= src@.skip(pos + 8));
        }
        match load_items::<C>(src, pos + 8, n) {
            None => None,
            Some((mut items, next)) => {
                let ghost all = items@;
                let mut q: VecDeque<C> = VecDeque::new();
                while items.len() > 0
                    invariant
                        items@.len() <= all.len(),
                        items@ == all.take(items@.len() as int),
                        q@ == all.skip(items@.len() as int),
                    decreases items@.len(),
                {
                    let x = items.pop().unwrap();
                    q.push_front(x);
                    assert(q@ =~= all.skip(items@.len() as int));
                    assert(items@ =~= all.take(items@.len() as int));
                }
                assert(q@ =~= all);
                Some((q, next))
            },
        }
    }
}

} // verus!

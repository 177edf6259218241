use std::collections::hash_map::Entry;
use std::collections::{HashMap, VecDeque};
use vstd::prelude::*;

use crate::direction::{locate, locate_tile};

verus! {

broadcast use vstd::std_specs::hash::group_hash_axioms;

/// A scheduled delivery: (value, direction code and layer, target chunk, target in-chunk index).
pub type Signal = (u32, u8, u64, u8);

/// One logic or display element. Every variant but `Color` and `Char` holds a
/// direction/layer byte as its last field.
#[derive(Clone, Copy, Debug, PartialEq, Eq, Structural)]
pub enum Block {
    /// A single-color block, argb. Any signal sets its value.
    Color(u32),
    /// A character-display block. Any signal sets its value.
    Char(u32),
    /// Passes a front-signal on after the given number of ticks; side-signals
    /// set that number.
    Delay(u32, u8),
    /// Value, mode and direction. Side-signals combine into the value as the
    /// mode says; front-signals set the mode and send the value on.
    Storage(u32, u8, u8),
    /// Lets front-signals pass while open; a side-signal opens it if it is `0`
    /// and closes it otherwise.
    Gate(bool, u8),
    /// Sends a side-signal on to both cells along its axis.
    Splitter(u8),
    /// On a side-signal, moves the top block between the stacks in front and behind.
    Move(u8),
    /// On a side-signal, swaps the top blocks of the stacks in front and behind.
    Swap(u8),
}

/// The display name of a block kind; Storage names its mode, Gate its state.
pub open spec fn kind_name_of(b: Block) -> Seq<char> {
    match b {
        Block::Color(..) => "color"@,
        Block::Char(..) => "char"@,
        Block::Delay(..) => "delay"@,
        Block::Storage(_, m, _) => {
            if m == 0 {
                "storage/sto"@
            } else if m == 1 {
                "storage/or"@
            } else if m == 2 {
                "storage/and"@
            } else if m == 3 {
                "storage/xor"@
            } else if m == 4 {
                "storage/add"@
            } else if m == 5 {
                "storage/sub"@
            } else if m == 6 {
                "storage/mul"@
            } else if m == 7 {
                "storage/div"@
            } else if m == 8 {
                "storage/mod"@
            } else {
                "storage/default"@
            }
        },
        Block::Gate(open, _) => {
            if open {
                "gate/open"@
            } else {
                "gate/closed"@
            }
        },
        Block::Splitter(_) => "splitter"@,
        Block::Move(..) => "move"@,
        Block::Swap(..) => "swap"@,
    }
}

impl Block {
    /// The display name of this block's kind.
    pub fn kind_name(&self) -> (r: &'static str)
        ensures
            r@ == kind_name_of(*self),
    {
        match self {
            Block::Color(..) => "color",
            Block::Char(..) => "char",
            Block::Delay(..) => "delay",
            Block::Storage(_, 0, _) => "storage/sto",
            Block::Storage(_, 1, _) => "storage/or",
            Block::Storage(_, 2, _) => "storage/and",
            Block::Storage(_, 3, _) => "storage/xor",
            Block::Storage(_, 4, _) => "storage/add",
            Block::Storage(_, 5, _) => "storage/sub",
            Block::Storage(_, 6, _) => "storage/mul",
            Block::Storage(_, 7, _) => "storage/div",
            Block::Storage(_, 8, _) => "storage/mod",
            Block::Storage(_, _, _) => "storage/default",
            Block::Gate(true, _) => "gate/open",
            Block::Gate(false, _) => "gate/closed",
            Block::Splitter(_) => "splitter",
            Block::Move(..) => "move",
            Block::Swap(..) => "swap",
        }
    }
}

/// What a chunk holds: 256 stacks, the last block of each on top.
pub open spec fn stacks_view(c: Vec<Vec<Block>>) -> Seq<Seq<Block>> {
    c@.map_values(|s: Vec<Block>| s@)
}

/// The 256 empty stacks of a new chunk.
pub open spec fn empty_chunk() -> Seq<Seq<Block>> {
    Seq::new(256, |i: int| Seq::<Block>::empty())
}

/// Every chunk holds 256 stacks.
pub open spec fn chunks_wf(m: Map<u64, Seq<Seq<Block>>>) -> bool {
    forall|k: u64| #[trigger] m.contains_key(k) ==> m[k].len() == 256
}

/// The layer after its chunk `k` has been asked for mutably: created empty if it was absent.
pub open spec fn materialized(m: Map<u64, Seq<Seq<Block>>>, k: u64) -> Map<u64, Seq<Seq<Block>>> {
    if m.contains_key(k) {
        m
    } else {
        m.insert(k, empty_chunk())
    }
}

/// A chunk is absent until the first mutable access to it, after which it is
/// there with 256 empty stacks; no other chunk changes, none is removed, and a
/// second access creates nothing more.
pub proof fn lemma_chunk_laziness(m: Map<u64, Seq<Seq<Block>>>, k: u64)
    requires
        !m.contains_key(k),
    ensures
        materialized(m, k).contains_key(k),
        materialized(m, k)[k] == empty_chunk(),
        materialized(m, k)[k].len() == 256,
        forall|i: int| 0 <= i < 256 ==> (#[trigger] materialized(m, k)[k][i]).len() == 0,
        forall|k2: u64|
            #[trigger] m.contains_key(k2) ==> materialized(m, k).contains_key(k2) && materialized(
                m,
                k,
            )[k2] == m[k2],
        materialized(materialized(m, k), k) == materialized(m, k),
        materialized(m, k).insert(k, materialized(m, k)[k]) == materialized(m, k),
{
    assert(materialized(m, k).insert(k, materialized(m, k)[k]) =~= materialized(m, k));
}

/// One of the parallel planes of the world: chunks by packed chunk key.
pub struct Layer {
    pub chunks: HashMap<u64, Vec<Vec<Block>>>,
}

impl View for Layer {
    type V = Map<u64, Seq<Seq<Block>>>;

    open spec fn view(&self) -> Map<u64, Seq<Seq<Block>>> {
        self.chunks@.map_values(|c: Vec<Vec<Block>>| stacks_view(c))
    }
}

impl Default for Layer {
    /// A layer without chunks.
    fn default() -> (r: Layer)
        ensures
            r@ == Map::<u64, Seq<Seq<Block>>>::empty(),
    {
        Layer::new()
    }
}

fn create_empty_chunk() -> (r: Vec<Vec<Block>>)
    ensures
        stacks_view(r) == empty_chunk(),
{
    let mut arr: Vec<Vec<Block>> = Vec::new();
    let mut n: usize = 0;
    while n < 256
        invariant
            n <= 256,
            arr@.len() == n,
            forall|j: int| 0 <= j < n ==> (#[trigger] arr@[j])@ == Seq::<Block>::empty(),
        decreases 256 - n,
    {
        let e: Vec<Block> = Vec::new();
        assert(e@ =~= Seq::<Block>::empty());
        arr.push(e);
        n = n + 1;
    }
    assert(stacks_view(arr) =~= empty_chunk());
    arr
}

impl Layer {
    /// A layer without chunks.
    pub fn new() -> (r: Layer)
        ensures
            r@ == Map::<u64, Seq<Seq<Block>>>::empty(),
    {
        let r = Layer { chunks: HashMap::new() };
        assert(r@ =~= Map::<u64, Seq<Seq<Block>>>::empty());
        r
    }

    pub open spec fn wf(&self) -> bool {
        chunks_wf(self@)
    }

    /// The chunk under `chunk`, if it was ever created; creates nothing.
    pub fn get(&self, chunk: &u64) -> (r: Option<&Vec<Vec<Block>>>)
        ensures
            r is Some == self@.contains_key(*chunk),
            r is Some ==> stacks_view(*r.unwrap()) == self@[*chunk],
    {
        self.chunks.get(chunk)
    }

    /// Chunk key and in-chunk index of the tile at `(x, y)`.
    pub fn get_where(&self, x: i64, y: i64) -> (r: (u64, u8))
        ensures
            r == locate(x as int, y as int),
    {
        locate_tile(x, y)
    }

    /// The chunk under `chunk`, created with 256 empty stacks if it does not
    /// exist yet. A created chunk stays.
    pub fn get_mut(&mut self, chunk: &u64) -> (r: &mut Vec<Vec<Block>>)
        ensures
            stacks_view(*r) == materialized(old(self)@, *chunk)[*chunk],
            final(self)@ == old(self)@.insert(*chunk, stacks_view(*final(r))),
    {
        match self.chunks.entry(*chunk) {
            Entry::Occupied(o) => o.into_mut(),
            Entry::Vacant(v) => v.insert(create_empty_chunk()),
        }
    }
}

/// The abstract state of a world: 32 layers and the buckets of pending signals,
/// bucket `t` delivered `t` ticks from now.
pub struct WorldView {
    pub layers: Seq<Map<u64, Seq<Seq<Block>>>>,
    pub queue: Seq<Seq<Signal>>,
}

/// The world has 32 layers, each of whose chunks holds 256 stacks.
pub open spec fn world_wf(w: WorldView) -> bool {
    &&& w.layers.len() == 32
    &&& forall|l: int| 0 <= l < 32 ==> chunks_wf(#[trigger] w.layers[l])
}

/// The queue, extended with empty buckets until it holds at least `n`.
pub open spec fn padded(q: Seq<Seq<Signal>>, n: nat) -> Seq<Seq<Signal>> {
    if q.len() >= n {
        q
    } else {
        q + Seq::new((n - q.len()) as nat, |i: int| Seq::<Signal>::empty())
    }
}

/// The stack at layer `l`, chunk `c`, index `i`; empty where the chunk does not exist.
pub open spec fn stack_at(w: WorldView, l: int, c: u64, i: u8) -> Seq<Block> {
    if w.layers[l].contains_key(c) {
        w.layers[l][c][i as int]
    } else {
        Seq::empty()
    }
}

/// The world after chunk `c` of layer `l` has been asked for mutably.
pub open spec fn touch(w: WorldView, l: int, c: u64) -> WorldView {
    WorldView { layers: w.layers.update(l, materialized(w.layers[l], c)), queue: w.queue }
}

/// The world with stack `(l, c, i)` replaced by `s`, its chunk created if it was absent.
pub open spec fn with_stack(w: WorldView, l: int, c: u64, i: u8, s: Seq<Block>) -> WorldView {
    let m = materialized(w.layers[l], c);
    WorldView { layers: w.layers.update(l, m.insert(c, m[c].update(i as int, s))), queue: w.queue }
}

/// The world with signal `s` added to the bucket `t` ticks ahead.
pub open spec fn schedule(w: WorldView, t: nat, s: Signal) -> WorldView {
    let q = padded(w.queue, t + 1);
    WorldView { layers: w.layers, queue: q.update(t as int, q[t as int].push(s)) }
}

/// The whole simulation state: 32 layers and the delayed signal queue, one
/// bucket per tick ahead, bucket 0 delivered next.
pub struct World {
    pub layers: Vec<Layer>,
    pub signals_queue: VecDeque<Vec<Signal>>,
}

impl View for World {
    type V = WorldView;

    open spec fn view(&self) -> WorldView {
        WorldView {
            layers: self.layers@.map_values(|l: Layer| l@),
            queue: self.signals_queue@.map_values(|b: Vec<Signal>| b@),
        }
    }
}

/// Relies on `VecDeque`'s `IndexMut`: `&mut q[i]` is the element `i` places from
/// the front, and what is written through it stays there.
#[verifier::external_body]
fn deque_index_mut<T>(q: &mut VecDeque<T>, i: usize) -> (r: &mut T)
    requires
        i < old(q)@.len(),
    ensures
        *r == old(q)@[i as int],
        final(q)@ == old(q)@.update(i as int, *final(r)),
{
    &mut q[i]
}

/// Updating one element and then mapping is mapping and then updating.
pub proof fn lemma_map_values_update<A, B>(s: Seq<A>, i: int, f: spec_fn(A) -> B)
    requires
        0 <= i < s.len(),
    ensures
        forall|v: A| #[trigger] s.update(i, v).map_values(f) == s.map_values(f).update(i, f(v)),
{
    assert forall|v: A| #[trigger] s.update(i, v).map_values(f) == s.map_values(f).update(i, f(v)) by {
        assert(s.update(i, v).map_values(f) =~= s.map_values(f).update(i, f(v)));
    }
}

/// Creating a chunk and then replacing it is replacing it.
pub proof fn lemma_materialized_insert(m: Map<u64, Seq<Seq<Block>>>, k: u64)
    ensures
        forall|v: Seq<Seq<Block>>| #[trigger] materialized(m, k).insert(k, v) == m.insert(k, v),
{
    assert forall|v: Seq<Seq<Block>>| #[trigger] materialized(m, k).insert(k, v) == m.insert(
        k,
        v,
    ) by {
        assert(materialized(m, k).insert(k, v) =~= m.insert(k, v));
    }
}

impl World {
    pub open spec fn wf(&self) -> bool {
        world_wf(self@)
    }

    /// A world of 32 empty layers and an empty queue.
    pub fn new_empty() -> (r: World)
        ensures
            r@.layers == Seq::new(32, |l: int| Map::<u64, Seq<Seq<Block>>>::empty()),
            r@.queue == Seq::<Seq<Signal>>::empty(),
            r.wf(),
    {
        let mut layers: Vec<Layer> = Vec::new();
        let mut n: usize = 0;
        while n < 32
            invariant
                n <= 32,
                layers@.len() == n,
                forall|j: int| 0 <= j < n ==> (#[trigger] layers@[j])@ == Map::<
                    u64,
                    Seq<Seq<Block>>,
                >::empty(),
            decreases 32 - n,
        {
            layers.push(Layer::new());
            n = n + 1;
        }
        let r = World { layers, signals_queue: VecDeque::new() };
        assert(r@.layers =~= Seq::new(32, |l: int| Map::<u64, Seq<Seq<Block>>>::empty()));
        assert(r@.queue =~= Seq::<Seq<Signal>>::empty());
        r
    }

    /// The bucket `delta_t` ticks ahead, with empty buckets added first where the
    /// queue is shorter.
    pub fn signals_mut(&mut self, delta_t: usize) -> (r: &mut Vec<Signal>)
        ensures
            r@ == padded(old(self)@.queue, delta_t as nat + 1)[delta_t as int],
            final(self)@ == (WorldView {
                layers: old(self)@.layers,
                queue: padded(old(self)@.queue, delta_t as nat + 1).update(
                    delta_t as int,
                    final(r)@,
                ),
            }),
    {
        let ghost q0 = old(self)@.queue;
        while delta_t >= self.signals_queue.len()
            invariant
                self@.layers == old(self)@.layers,
                q0.len() <= self@.queue.len(),
                self@.queue == padded(q0, self@.queue.len()),
                self@.queue.len() > q0.len() ==> self@.queue.len() <= delta_t + 1,
            decreases delta_t + 1 - self.signals_queue.len(),
        {
            let e: Vec<Signal> = Vec::new();
            assert(e@ =~= Seq::<Signal>::empty());
            let ghost prev = self@.queue;
            self.signals_queue.push_back(e);
            assert(self@.queue =~= prev.push(Seq::<Signal>::empty()));
            assert(self@.queue =~= padded(q0, self@.queue.len()));
        }
        assert(self@.queue =~= padded(q0, delta_t as nat + 1));
        let ghost qv = self.signals_queue@;
        proof {
            lemma_map_values_update(qv, delta_t as int, |b: Vec<Signal>| b@);
        }
        let r = deque_index_mut(&mut self.signals_queue, delta_t);
        r
    }

    /// The stack at layer `l`, chunk `c`, index `i`, its chunk created first if
    /// it does not exist.
    pub fn stack_mut(&mut self, l: usize, c: u64, i: u8) -> (r: &mut Vec<Block>)
        requires
            old(self).wf(),
            l < 32,
        ensures
            r@ == stack_at(touch(old(self)@, l as int, c), l as int, c, i),
            final(self)@ == with_stack(old(self)@, l as int, c, i, final(r)@),
    {
        let ghost lv = self.layers@;
        let ghost w0 = self@;
        proof {
            lemma_map_values_update(lv, l as int, |x: Layer| x@);
            assert(chunks_wf(w0.layers[l as int]));
            lemma_materialized_insert(w0.layers[l as int], c);
        }
        let layer = &mut self.layers[l];
        let chunk = layer.get_mut(&c);
        let ghost cv = chunk@;
        proof {
            assert(materialized(w0.layers[l as int], c)[c].len() == 256);
            assert(stacks_view(*chunk).len() == cv.len());
            lemma_map_values_update(cv, i as int, |s: Vec<Block>| s@);
        }
        &mut chunk[i as usize]
    }
}

} // verus!

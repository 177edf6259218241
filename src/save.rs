use std::collections::{HashMap, VecDeque};
use vstd::prelude::*;
use vstd::std_specs::hash::spec_keys_iter;
use vstd::std_specs::iter::IteratorSpec;

use crate::codec::{
    concat, each_saved, get_u32, get_u64, items_loaded, items_saved, lemma_items_load_saved,
    lemma_items_loaded_count, lemma_items_loaded_len, lemma_seq_load_saved, lemma_u32_bytes,
    lemma_u64_bytes, lemma_u64_of_prefix, load_items, put_u32, put_u64, save_items, seq_loaded,
    seq_round_trips, seq_saved, u32_bytes, u32_of, u64_bytes, u64_of, SaveLoad,
};
use crate::world::{chunks_wf, stacks_view, world_wf, Block, Layer, Signal, World, WorldView};

verus! {

broadcast use vstd::std_specs::hash::group_hash_axioms;

/// The saved form of a block: a tag byte, then its fields in order; a Gate
/// packs its open flag into bit 0 of its direction byte.
pub open spec fn block_bytes(b: Block) -> Seq<u8> {
    match b {
        Block::Color(c) => seq![0x63u8] + u32_bytes(c),
        Block::Char(c) => seq![0x43u8] + u32_bytes(c),
        Block::Delay(t, d) => seq![0x64u8] + u32_bytes(t) + seq![d],
        Block::Storage(v, m, d) => seq![0x73u8] + u32_bytes(v) + seq![m, d],
        Block::Gate(open, d) => seq![0x67u8, if open { d | 1u8 } else { d }],
        Block::Splitter(d) => seq![0x47u8, d],
        Block::Move(d) => seq![0x6du8, d],
        Block::Swap(d) => seq![0x4du8, d],
    }
}

/// The block whose saved form starts `b`, and the length of that form.
pub open spec fn block_loaded(b: Seq<u8>) -> Option<(Block, nat)> {
    if b.len() == 0 {
        None
    } else if b[0] == 0x63u8 {
        if b.len() >= 5 { Some((Block::Color(u32_of(b.subrange(1, 5))), 5)) } else { None }
    } else if b[0] == 0x43u8 {
        if b.len() >= 5 { Some((Block::Char(u32_of(b.subrange(1, 5))), 5)) } else { None }
    } else if b[0] == 0x64u8 {
        if b.len() >= 6 { Some((Block::Delay(u32_of(b.subrange(1, 5)), b[5]), 6)) } else { None }
    } else if b[0] == 0x73u8 {
        if b.len() >= 7 {
            Some((Block::Storage(u32_of(b.subrange(1, 5)), b[5], b[6]), 7))
        } else {
            None
        }
    } else if b[0] == 0x67u8 {
        if b.len() >= 2 {
            if b[1] % 2 == 1 {
                Some((Block::Gate(true, (b[1] - 1) as u8), 2))
            } else {
                Some((Block::Gate(false, b[1]), 2))
            }
        } else {
            None
        }
    } else if b[0] == 0x47u8 {
        if b.len() >= 2 { Some((Block::Splitter(b[1]), 2)) } else { None }
    } else if b[0] == 0x6du8 {
        if b.len() >= 2 { Some((Block::Move(b[1]), 2)) } else { None }
    } else if b[0] == 0x4du8 {
        if b.len() >= 2 { Some((Block::Swap(b[1]), 2)) } else { None }
    } else {
        None
    }
}

/// A block loads back as it was saved unless it is a Gate whose direction
/// byte has bit 0 set, which the open flag takes.
pub open spec fn block_round_trips(b: Block) -> bool {
    match b {
        Block::Gate(_, d) => d % 2 == 0,
        _ => true,
    }
}

impl SaveLoad for Block {
    type Model = Block;

    open spec fn model(&self) -> Block {
        *self
    }

    open spec fn saved_as(m: Block, e: Seq<u8>) -> bool {
        e == block_bytes(m)
    }

    open spec fn loaded(b: Seq<u8>) -> Option<(Block, nat)> {
        block_loaded(b)
    }

    open spec fn round_trips(m: Block) -> bool {
        block_round_trips(m)
    }

    proof fn lemma_loaded_len(b: Seq<u8>) {
    }

    proof fn lemma_load_saved(m: Block, e: Seq<u8>, rest: Seq<u8>) {
        let b = e + rest;
        assert(b[0] == e[0]);
        match m {
            Block::Color(c) => {
                lemma_u32_bytes(c);
                assert(b.subrange(1, 5) =~= u32_bytes(c));
            },
            Block::Char(c) => {
                lemma_u32_bytes(c);
                assert(b.subrange(1, 5) =~= u32_bytes(c));
            },
            Block::Delay(t, d) => {
                lemma_u32_bytes(t);
                assert(b.subrange(1, 5) =~= u32_bytes(t));
                assert(b[5] == d);
            },
            Block::Storage(v, md, d) => {
                lemma_u32_bytes(v);
                assert(b.subrange(1, 5) =~= u32_bytes(v));
                assert(b[5] == md && b[6] == d);
            },
            Block::Gate(open, d) => {
                assert(b[1] == e[1]);
                assert(d % 2 == 0 ==> (d | 1u8) % 2 == 1 && ((d | 1u8) - 1) as u8 == d) by (bit_vector);
            },
            Block::Splitter(d) => {
                assert(b[1] == e[1]);
            },
            Block::Move(d) => {
                assert(b[1] == e[1]);
            },
            Block::Swap(d) => {
                assert(b[1] == e[1]);
            },
        }
    }

    fn save(&self, buf: &mut Vec<u8>) {
        let ghost b0 = buf@;
        match *self {
            Block::Color(c) => {
                buf.push(0x63u8);
                put_u32(buf, c);
            },
            Block::Char(c) => {
                buf.push(0x43u8);
                put_u32(buf, c);
            },
            Block::Delay(t, d) => {
                buf.push(0x64u8);
                put_u32(buf, t);
                buf.push(d);
            },
            Block::Storage(v, m, d) => {
                buf.push(0x73u8);
                put_u32(buf, v);
                buf.push(m);
                buf.push(d);
            },
            Block::Gate(open, d) => {
                buf.push(0x67u8);
                let as_one = if open {
                    d | 1
                } else {
                    d
                };
                buf.push(as_one);
            },
            Block::Splitter(d) => {
                buf.push(0x47u8);
                buf.push(d);
            },
            Block::Move(d) => {
                buf.push(0x6du8);
                buf.push(d);
            },
            Block::Swap(d) => {
                buf.push(0x4du8);
                buf.push(d);
            },
        }
        assert(buf@.subrange(0, b0.len() as int) =~= b0);
        assert(buf@.subrange(b0.len() as int, buf@.len() as int) =~= block_bytes(*self));
    }

    fn load(src: &Vec<u8>, pos: usize) -> (r: Option<(Block, usize)>) {
        let ghost b = src@.subrange(pos as int, src@.len() as int);
        let left = src.len() - pos;
        if left == 0 {
            return None;
        }
        let tag = src[pos];
        assert(b[0] == tag);
        if tag == 0x63u8 || tag == 0x43u8 || tag == 0x64u8 || tag == 0x73u8 {
            let need: usize = if tag == 0x63u8 || tag == 0x43u8 {
                5
            } else if tag == 0x64u8 {
                6
            } else {
                7
            };
            if left < need {
                return None;
            }
            let v = get_u32(src, pos + 1);
            proof {
                assert(src@.subrange(pos + 1, pos + 5) =~= b.subrange(1, 5));
            }
            if tag == 0x63u8 {
                Some((Block::Color(v), pos + 5))
            } else if tag == 0x43u8 {
                Some((Block::Char(v), pos + 5))
            } else if tag == 0x64u8 {
                assert(b[5] == src[pos + 5]);
                Some((Block::Delay(v, src[pos + 5]), pos + 6))
            } else {
                assert(b[5] == src[pos + 5] && b[6] == src[pos + 6]);
                Some((Block::Storage(v, src[pos + 5], src[pos + 6]), pos + 7))
            }
        } else if tag == 0x67u8 || tag == 0x47u8 || tag == 0x6du8 || tag == 0x4du8 {
            if left < 2 {
                return None;
            }
            let d = src[pos + 1];
            assert(b[1] == d);
            let block = if tag == 0x67u8 {
                if d & 1 == 1 {
                    assert(d & 1 == 1 ==> d % 2 == 1 && d ^ 1 == d - 1) by (bit_vector);
                    Block::Gate(true, d ^ 1)
                } else {
                    assert(d & 1 != 1 ==> d % 2 == 0) by (bit_vector);
                    Block::Gate(false, d)
                }
            } else if tag == 0x47u8 {
                Block::Splitter(d)
            } else if tag == 0x6du8 {
                Block::Move(d)
            } else {
                Block::Swap(d)
            };
            Some((block, pos + 2))
        } else {
            None
        }
    }
}

/// The saved form of a signal: value, direction/layer byte, chunk key, in-chunk index.
pub open spec fn signal_bytes(s: Signal) -> Seq<u8> {
    u32_bytes(s.0) + seq![s.1] + u64_bytes(s.2) + seq![s.3]
}

impl SaveLoad for (u32, u8, u64, u8) {
    type Model = Signal;

    open spec fn model(&self) -> Signal {
        *self
    }

    open spec fn saved_as(m: Signal, e: Seq<u8>) -> bool {
        e == signal_bytes(m)
    }

    open spec fn loaded(b: Seq<u8>) -> Option<(Signal, nat)> {
        if b.len() >= 14 {
            Some((
                (u32_of(b.subrange(0, 4)), b[4], u64_of(b.subrange(5, 13)), b[13]),
                14,
            ))
        } else {
            None
        }
    }

    open spec fn round_trips(m: Signal) -> bool {
        true
    }

    proof fn lemma_loaded_len(b: Seq<u8>) {
    }

    proof fn lemma_load_saved(m: Signal, e: Seq<u8>, rest: Seq<u8>) {
        let b = e + rest;
        lemma_u32_bytes(m.0);
        lemma_u64_bytes(m.2);
        assert(b.subrange(0, 4) =~= u32_bytes(m.0));
        assert(b.subrange(5, 13) =~= u64_bytes(m.2));
        assert(b[4] == m.1 && b[13] == m.3);
    }

    fn save(&self, buf: &mut Vec<u8>) {
        let ghost b0 = buf@;
        put_u32(buf, self.0);
        buf.push(self.1);
        put_u64(buf, self.2);
        buf.push(self.3);
        assert(buf@.subrange(0, b0.len() as int) =~= b0);
        assert(buf@.subrange(b0.len() as int, buf@.len() as int) =~= signal_bytes(*self));
    }

    fn load(src: &Vec<u8>, pos: usize) -> (r: Option<(Signal, usize)>) {
        let ghost b = src@.subrange(pos as int, src@.len() as int);
        if src.len() - pos < 14 {
            return None;
        }
        let v = get_u32(src, pos);
        let dl = src[pos + 4];
        let c = get_u64(src, pos + 5);
        let i = src[pos + 13];
        assert(src@.subrange(pos as int, pos + 4) =~= b.subrange(0, 4));
        assert(src@.subrange(pos + 5, pos + 13) =~= b.subrange(5, 13));
        assert(b[4] == dl && b[13] == i);
        Some(((v, dl, c, i), pos + 14))
    }
}

/// The items of a Vec of blocks are its blocks.
proof fn lemma_stack_model(s: Vec<Block>)
    ensures
        s.model() == s@,
{
    assert(s.model() =~= s@);
}

/// The items of a chunk are its stacks.
pub proof fn lemma_chunk_model(c: Vec<Vec<Block>>)
    ensures
        c.model() == stacks_view(c),
{
    assert forall|i: int| 0 <= i < c@.len() implies c.model()[i] == stacks_view(c)[i] by {
        lemma_stack_model(c@[i]);
    }
    assert(c.model() =~= stacks_view(c));
}

/// `e` is the saved form of one chunk entry: its key as 8 bytes, then its stacks.
pub open spec fn entry_saved(k: u64, chunk: Seq<Seq<Block>>, e: Seq<u8>) -> bool {
    &&& e.len() >= 8
    &&& e.take(8) == u64_bytes(k)
    &&& items_saved::<Vec<Block>>(chunk, e.skip(8))
}

/// `e` saves the chunks of `m` in the order of `keys`, entry `i` being `es[i]`.
pub open spec fn layer_saved_with(
    m: Map<u64, Seq<Seq<Block>>>,
    keys: Seq<u64>,
    es: Seq<Seq<u8>>,
    e: Seq<u8>,
) -> bool {
    &&& keys.no_duplicates()
    &&& keys.to_set() == m.dom()
    &&& keys.len() <= u64::MAX
    &&& es.len() == keys.len()
    &&& forall|i: int| 0 <= i < keys.len() ==> entry_saved(keys[i], m[keys[i]], #[trigger] es[i])
    &&& e == u64_bytes(keys.len() as u64) + concat(es)
}

/// What loading one chunk entry reads from the front of `b`: key, stacks, length.
pub open spec fn entry_loaded(b: Seq<u8>) -> Option<(u64, Seq<Seq<Block>>, nat)> {
    if b.len() < 8 {
        None
    } else {
        match items_loaded::<Vec<Block>>(b.skip(8), 256) {
            None => None,
            Some((chunk, k)) => Some((u64_of(b), chunk, k + 8)),
        }
    }
}

/// What loading `n` chunk entries one after the other reads from the front of
/// `b`: the map they make, a later entry replacing an earlier one of the same key.
pub open spec fn entries_loaded(b: Seq<u8>, n: nat) -> Option<(Map<u64, Seq<Seq<Block>>>, nat)>
    decreases n,
{
    if n == 0 {
        Some((Map::empty(), 0))
    } else {
        match entries_loaded(b, (n - 1) as nat) {
            None => None,
            Some((m, k)) => match entry_loaded(b.skip(k as int)) {
                None => None,
                Some((key, chunk, k2)) => Some((m.insert(key, chunk), k + k2)),
            },
        }
    }
}

/// A chunk loads back as it was saved when it holds 256 stacks, each short
/// enough for its length to fit in 8 bytes, and each of its blocks loads back.
pub open spec fn chunk_round_trips(c: Seq<Seq<Block>>) -> bool {
    &&& c.len() == 256
    &&& forall|i: int| 0 <= i < 256 ==> seq_round_trips::<Block>(#[trigger] c[i])
}

/// A layer loads back as it was saved when each of its chunks does.
pub open spec fn layer_round_trips(m: Map<u64, Seq<Seq<Block>>>) -> bool {
    forall|k: u64| #[trigger] m.contains_key(k) ==> chunk_round_trips(m[k])
}

proof fn lemma_entries_loaded_len(b: Seq<u8>, n: nat)
    ensures
        entries_loaded(b, n) is Some ==> entries_loaded(b, n).unwrap().1 <= b.len(),
    decreases n,
{
    if n > 0 {
        lemma_entries_loaded_len(b, (n - 1) as nat);
        if let Some((m, k)) = entries_loaded(b, (n - 1) as nat) {
            let x = b.skip(k as int);
            if x.len() >= 8 {
                lemma_items_loaded_len::<Vec<Block>>(x.skip(8), 256);
            }
        }
    }
}

proof fn lemma_entries_loaded_none(b: Seq<u8>, m: nat, n: nat)
    requires
        m <= n,
        entries_loaded(b, m) is None,
    ensures
        entries_loaded(b, n) is None,
    decreases n - m,
{
    if m < n {
        lemma_entries_loaded_none(b, m + 1, n);
    }
}

/// A chunk entry saved as `e` loads back, whatever follows it.
proof fn lemma_entry_load_saved(k: u64, chunk: Seq<Seq<Block>>, e: Seq<u8>, rest: Seq<u8>)
    requires
        chunk_round_trips(chunk),
        entry_saved(k, chunk, e),
    ensures
        entry_loaded(e + rest) == Some((k, chunk, e.len())),
{
    let x = e + rest;
    lemma_u64_bytes(k);
    assert(x.subrange(0, 8) =~= e.take(8).subrange(0, 8));
    lemma_u64_of_prefix(x, e.take(8));
    assert(u64_bytes(k).subrange(0, 8) =~= u64_bytes(k));
    lemma_u64_of_prefix(e.take(8), u64_bytes(k));
    let es = choose|es: Seq<Seq<u8>>| #[trigger] each_saved::<Vec<Block>>(chunk, es) && e.skip(8) == concat(es);
    assert forall|i: int| 0 <= i < chunk.len() implies <Vec<Block> as SaveLoad>::round_trips(#[trigger] chunk[i]) by {
    }
    lemma_items_load_saved::<Vec<Block>>(chunk, es, rest);
    assert(x.skip(8) =~= e.skip(8) + rest);
}

/// Chunk entries saved one after the other load back as the map of their
/// keys, whatever follows them.
#[verifier::rlimit(40)]
proof fn lemma_entries_load_saved(
    m: Map<u64, Seq<Seq<Block>>>,
    keys: Seq<u64>,
    es: Seq<Seq<u8>>,
    rest: Seq<u8>,
)
    requires
        layer_round_trips(m),
        es.len() == keys.len(),
        forall|i: int| 0 <= i < keys.len() ==> #[trigger] m.contains_key(keys[i]),
        forall|i: int| 0 <= i < keys.len() ==> entry_saved(keys[i], m[keys[i]], #[trigger] es[i]),
    ensures
        entries_loaded(concat(es) + rest, keys.len()) == Some(
            (m.restrict(keys.to_set()), concat(es).len()),
        ),
    decreases keys.len(),
{
    if keys.len() == 0 {
        assert(m.restrict(keys.to_set()) =~= Map::empty());
    } else {
        let n = keys.len() - 1;
        let ks = keys.drop_last();
        let head = es.drop_last();
        let k = keys.last();
        assert forall|i: int| 0 <= i < ks.len() implies #[trigger] m.contains_key(ks[i]) by {
            assert(ks[i] == keys[i]);
        }
        assert forall|i: int| 0 <= i < ks.len() implies entry_saved(ks[i], m[ks[i]], #[trigger] head[i]) by {
            assert(ks[i] == keys[i] && head[i] == es[i]);
        }
        lemma_entries_load_saved(m, ks, head, es.last() + rest);
        assert(concat(head) + (es.last() + rest) =~= concat(es) + rest);
        assert((concat(es) + rest).skip(concat(head).len() as int) =~= es.last() + rest);
        assert(m.contains_key(keys[n]));
        assert(entry_saved(keys[n], m[keys[n]], es[n]));
        lemma_entry_load_saved(k, m[k], es.last(), rest);
        assert(keys =~= ks.push(k));
        lemma_restrict_push(m, ks, k);
    }
}

/// Restricting to one more key adds that key's entry.
proof fn lemma_restrict_push(m: Map<u64, Seq<Seq<Block>>>, ks: Seq<u64>, k: u64)
    requires
        m.contains_key(k),
    ensures
        m.restrict(ks.to_set()).insert(k, m[k]) == m.restrict(ks.push(k).to_set()),
{
    ks.lemma_push_to_set_commute(k);
    assert(m.restrict(ks.to_set()).insert(k, m[k]) =~= m.restrict(ks.push(k).to_set()));
}

impl SaveLoad for Layer {
    type Model = Map<u64, Seq<Seq<Block>>>;

    open spec fn model(&self) -> Map<u64, Seq<Seq<Block>>> {
        self@
    }

    open spec fn saved_as(m: Map<u64, Seq<Seq<Block>>>, e: Seq<u8>) -> bool {
        exists|keys: Seq<u64>, es: Seq<Seq<u8>>| #[trigger] layer_saved_with(m, keys, es, e)
    }

    open spec fn loaded(b: Seq<u8>) -> Option<(Map<u64, Seq<Seq<Block>>>, nat)> {
        if b.len() < 8 {
            None
        } else {
            match entries_loaded(b.skip(8), u64_of(b) as nat) {
                None => None,
                Some((m, k)) => Some((m, k + 8)),
            }
        }
    }

    open spec fn round_trips(m: Map<u64, Seq<Seq<Block>>>) -> bool {
        layer_round_trips(m)
    }

    proof fn lemma_loaded_len(b: Seq<u8>) {
        if b.len() >= 8 {
            lemma_entries_loaded_len(b.skip(8), u64_of(b) as nat);
        }
    }

    proof fn lemma_load_saved(m: Map<u64, Seq<Seq<Block>>>, e: Seq<u8>, rest: Seq<u8>) {
        let (keys, es) = choose|keys: Seq<u64>, es: Seq<Seq<u8>>| #[trigger] layer_saved_with(m, keys, es, e);
        let b = e + rest;
        lemma_u64_bytes(keys.len() as u64);
        assert(b.subrange(0, 8) =~= u64_bytes(keys.len() as u64).subrange(0, 8));
        lemma_u64_of_prefix(b, u64_bytes(keys.len() as u64));
        assert forall|i: int| 0 <= i < keys.len() implies #[trigger] m.contains_key(keys[i]) by {
            assert(keys.to_set().contains(keys[i]));
        }
        lemma_entries_load_saved(m, keys, es, rest);
        assert(b.skip(8) =~= concat(es) + rest);
        assert(m.restrict(keys.to_set()) =~= m);
    }

    fn save(&self, buf: &mut Vec<u8>) {
        let ghost b0 = buf@;
        let ghost m = self@;
        put_u64(buf, self.chunks.len() as u64);
        let ghost b1 = buf@;
        let ghost mut es: Seq<Seq<u8>> = Seq::empty();
        assert(buf@.subrange(b1.len() as int, buf@.len() as int) =~= concat(es));
        for k in it: self.chunks.keys()
            invariant
                m == self@,
                it.seq() == spec_keys_iter(&self.chunks).remaining(),
                buf@.len() >= b1.len(),
                buf@.subrange(0, b1.len() as int) == b1,
                buf@.subrange(b1.len() as int, buf@.len() as int) == concat(es),
                es.len() == it.index(),
                forall|i: int|
                    0 <= i < it.index() ==> entry_saved(
                        *it.seq()[i],
                        m[*it.seq()[i]],
                        #[trigger] es[i],
                    ),
        {
            let ghost before = buf@;
            proof {
                assert(it.seq().unref().to_set().contains(*k)) by {
                    assert(it.seq().unref()[it.index()] == *k);
                }
            }
            let chunk = self.chunks.get(k).unwrap();
            put_u64(buf, *k);
            let ghost mid = buf@;
            save_items(chunk, buf);
            proof {
                lemma_chunk_model(*chunk);
                let piece = buf@.subrange(before.len() as int, buf@.len() as int);
                assert(piece.take(8) =~= u64_bytes(*k)) by {
                    assert forall|t: int| 0 <= t < 8 implies piece.take(8)[t] == u64_bytes(*k)[t] by {
                        assert(piece[t] == buf@[before.len() + t]);
                        assert(buf@[before.len() + t] == buf@.subrange(0, mid.len() as int)[before.len() + t]);
                        assert(mid[before.len() + t] == u64_bytes(*k)[t]);
                    }
                }
                assert(piece.skip(8) =~= buf@.subrange(mid.len() as int, buf@.len() as int));
                assert(buf@.subrange(b1.len() as int, buf@.len() as int) =~= concat(es) + piece) by {
                    assert(buf@.subrange(0, mid.len() as int) == mid);
                    assert(buf@.subrange(0, before.len() as int) =~= mid.subrange(0, before.len() as int));
                    assert(mid.subrange(0, before.len() as int) =~= before);
                }
                assert(buf@.subrange(0, b1.len() as int) =~= before.subrange(0, b1.len() as int));
                let es2 = es.push(piece);
                assert(es2.drop_last() =~= es);
                assert(entry_saved(*k, m[*k], piece));
                es = es2;
            }
        }
        proof {
            let rs = spec_keys_iter(&self.chunks).remaining();
            let keys = rs.unref();
            assert(es.len() == rs.len());
            assert(keys.len() == rs.len());
            assert(keys.no_duplicates()) by {
                assert forall|i: int, j: int| 0 <= i < keys.len() && 0 <= j < keys.len() && i != j
                    implies keys[i] != keys[j] by {
                    assert(rs[i] != rs[j]);
                }
            }
            let e = buf@.subrange(b0.len() as int, buf@.len() as int);
            assert(e =~= u64_bytes(keys.len() as u64) + concat(es)) by {
                assert(buf@.subrange(0, b1.len() as int) == b1);
                assert(b1 =~= b0 + u64_bytes(self.chunks@.len() as u64));
                assert forall|t: int| 0 <= t < e.len() implies e[t] == (u64_bytes(keys.len() as u64) + concat(es))[t] by {
                    if t < 8 {
                        assert(e[t] == buf@.subrange(0, b1.len() as int)[b0.len() + t]);
                    } else {
                        assert(e[t] == buf@.subrange(b1.len() as int, buf@.len() as int)[t - 8]);
                    }
                }
            }
            assert forall|i: int| 0 <= i < keys.len() implies entry_saved(keys[i], m[keys[i]], #[trigger] es[i]) by {
                assert(keys[i] == *rs[i]);
            }
            assert(keys.to_set() =~= m.dom());
            assert(keys.len() <= u64::MAX);
            assert(layer_saved_with(m, keys, es, e));
            assert(buf@.subrange(0, b0.len() as int) =~= b1.subrange(0, b0.len() as int));
        }
    }

    fn load(src: &Vec<u8>, pos: usize) -> (r: Option<(Layer, usize)>) {
        if src.len() - pos < 8 {
            return None;
        }
        let n = get_u64(src, pos);
        let ghost b = src@.subrange(pos as int, src@.len() as int);
        let ghost rb = b.skip(8);
        proof {
            assert(b.subrange(0, 8) =~= src@.subrange(pos as int, pos + 8).subrange(0, 8));
            lemma_u64_of_prefix(b, src@.subrange(pos as int, pos + 8));
        }
        let mut chunks: HashMap<u64, Vec<Vec<Block>>> = HashMap::new();
        let mut p = pos + 8;
        let mut j: u64 = 0;
        assert(chunks@.map_values(|c: Vec<Vec<Block>>| stacks_view(c)) =~= Map::<u64, Seq<Seq<Block>>>::empty());
        while j < n
            invariant
                j <= n,
                pos + 8 <= p <= src@.len(),
                b == src@.subrange(pos as int, src@.len() as int),
                rb == b.skip(8),
                b.len() >= 8,
                n == u64_of(b),
                entries_loaded(rb, j as nat) == Some(
                    (chunks@.map_values(|c: Vec<Vec<Block>>| stacks_view(c)), (p - pos - 8) as nat),
                ),
            decreases n - j,
        {
            let ghost x = rb.skip(p - pos - 8);
            assert(x =~= src@.subrange(p as int, src@.len() as int));
            if src.len() - p < 8 {
                proof {
                    assert(entry_loaded(x) is None);
                    assert(entries_loaded(rb, (j + 1) as nat) is None);
                    lemma_entries_loaded_none(rb, (j + 1) as nat, n as nat);
                }
                return None;
            }
            let key = get_u64(src, p);
            proof {
                assert(x.subrange(0, 8) =~= src@.subrange(p as int, p + 8).subrange(0, 8));
                lemma_u64_of_prefix(x, src@.subrange(p as int, p + 8));
                assert(x.skip(8) =~= src@.skip(p + 8));
            }
            match load_items::<Vec<Block>>(src, p + 8, 256) {
                None => {
                    proof {
                        assert(entry_loaded(x) is None);
                        assert(entries_loaded(rb, (j + 1) as nat) is None);
                        lemma_entries_loaded_none(rb, (j + 1) as nat, n as nat);
                    }
                    return None;
                },
                Some((chunk, next)) => {
                    proof {
                        lemma_items_loaded_len::<Vec<Block>>(x.skip(8), 256);
                        lemma_chunk_model(chunk);
                    }
                    let ghost before = chunks@;
                    chunks.insert(key, chunk);
                    assert(chunks@.map_values(|c: Vec<Vec<Block>>| stacks_view(c)) =~= before.map_values(
                        |c: Vec<Vec<Block>>| stacks_view(c),
                    ).insert(key, stacks_view(chunk)));
                    p = next;
                    j = j + 1;
                },
            }
        }
        Some((Layer { chunks }, p))
    }
}

/// Every chunk that loading chunk entries gives holds 256 stacks.
proof fn lemma_entries_loaded_wf(b: Seq<u8>, n: nat)
    ensures
        entries_loaded(b, n) is Some ==> chunks_wf(entries_loaded(b, n).unwrap().0),
    decreases n,
{
    if n > 0 {
        lemma_entries_loaded_wf(b, (n - 1) as nat);
        if let Some((m, k)) = entries_loaded(b, (n - 1) as nat) {
            let x = b.skip(k as int);
            if x.len() >= 8 {
                lemma_items_loaded_count::<Vec<Block>>(x.skip(8), 256);
            }
        }
    }
}

/// A world loads back as it was saved when each of its layers does and each
/// queue length fits in 8 bytes.
pub open spec fn world_round_trips(w: WorldView) -> bool {
    &&& forall|l: int| 0 <= l < 32 ==> layer_round_trips(#[trigger] w.layers[l])
    &&& seq_round_trips::<Vec<Signal>>(w.queue)
}

/// The world that a queue file and 32 layer files hold, or `None` where one
/// of them does not load.
pub open spec fn world_loaded(q: Seq<u8>, ls: Seq<Seq<u8>>) -> Option<WorldView> {
    if seq_loaded::<Vec<Signal>>(q) is Some && forall|l: int|
        0 <= l < 32 ==> (#[trigger] <Layer as SaveLoad>::loaded(ls[l])) is Some {
        Some(
            WorldView {
                layers: Seq::new(32, |l: int| <Layer as SaveLoad>::loaded(ls[l]).unwrap().0),
                queue: seq_loaded::<Vec<Signal>>(q).unwrap().0,
            },
        )
    } else {
        None
    }
}

/// The queue's buckets are its signal lists.
proof fn lemma_queue_model(q: VecDeque<Vec<Signal>>)
    ensures
        q.model() == q@.map_values(|b: Vec<Signal>| b@),
{
    assert forall|i: int| 0 <= i < q@.len() implies q.model()[i] == q@.map_values(
        |b: Vec<Signal>| b@,
    )[i] by {
        assert(q@[i].model() =~= q@[i]@);
    }
    assert(q.model() =~= q@.map_values(|b: Vec<Signal>| b@));
}

impl World {
    /// The saved form of the signal queue.
    pub fn save_signals_queue(&self) -> (r: Vec<u8>)
        ensures
            seq_saved::<Vec<Signal>>(self@.queue, r@),
    {
        let mut buf: Vec<u8> = Vec::new();
        self.signals_queue.save(&mut buf);
        proof {
            lemma_queue_model(self.signals_queue);
            assert(buf@.subrange(0, buf@.len() as int) =~= buf@);
        }
        buf
    }

    /// The saved form of layer `layer`.
    pub fn save_layer(&self, layer: usize) -> (r: Vec<u8>)
        requires
            layer < self.layers@.len(),
        ensures
            <Layer as SaveLoad>::saved_as(self@.layers[layer as int], r@),
    {
        let mut buf: Vec<u8> = Vec::new();
        self.layers[layer].save(&mut buf);
        proof {
            assert(buf@.subrange(0, buf@.len() as int) =~= buf@);
        }
        buf
    }

    /// The world held by a saved signal queue and 32 saved layers; `None` where
    /// any of them does not load.
    pub fn load_from_saves(signals: &Vec<u8>, layers: &Vec<Vec<u8>>) -> (r: Option<World>)
        requires
            layers@.len() == 32,
        ensures
            r is Some == world_loaded(signals@, layers@.map_values(|v: Vec<u8>| v@)) is Some,
            r is Some ==> r.unwrap()@ == world_loaded(
                signals@,
                layers@.map_values(|v: Vec<u8>| v@),
            ).unwrap() && r.unwrap().wf(),
    {
        let ghost ls = layers@.map_values(|v: Vec<u8>| v@);
        assert(signals@.subrange(0, signals@.len() as int) =~= signals@);
        let queue = match <VecDeque<Vec<Signal>> as SaveLoad>::load(signals, 0) {
            None => return None,
            Some((q, _)) => q,
        };
        proof {
            lemma_queue_model(queue);
        }
        let mut loaded: Vec<Layer> = Vec::new();
        let mut l: usize = 0;
        while l < 32
            invariant
                l <= 32,
                layers@.len() == 32,
                ls == layers@.map_values(|v: Vec<u8>| v@),
                loaded@.len() == l,
                forall|i: int| 0 <= i < l ==> (#[trigger] <Layer as SaveLoad>::loaded(ls[i])) is Some
                    && loaded@[i]@ == <Layer as SaveLoad>::loaded(ls[i]).unwrap().0
                    && chunks_wf(loaded@[i]@),
            decreases 32 - l,
        {
            assert(layers@[l as int]@.subrange(0, layers@[l as int]@.len() as int) =~= ls[l as int]);
            match <Layer as SaveLoad>::load(&layers[l], 0) {
                None => {
                    assert(<Layer as SaveLoad>::loaded(ls[l as int]) is None);
                    return None;
                },
                Some((layer, _)) => {
                    proof {
                        let b = ls[l as int];
                        lemma_entries_loaded_wf(b.skip(8), u64_of(b) as nat);
                    }
                    loaded.push(layer);
                },
            }
            l = l + 1;
        }
        let w = World { layers: loaded, signals_queue: queue };
        assert(w@.layers =~= world_loaded(signals@, ls).unwrap().layers);
        Some(w)
    }
}

/// Saving a world's queue and each of its layers and loading those bytes
/// back gives the same world: the same chunks, the same stacks in the same
/// order and the same buckets of signals.
pub proof fn lemma_world_round_trip(w: WorldView, q: Seq<u8>, ls: Seq<Seq<u8>>)
    requires
        world_wf(w),
        world_round_trips(w),
        seq_saved::<Vec<Signal>>(w.queue, q),
        ls.len() == 32,
        forall|l: int| 0 <= l < 32 ==> <Layer as SaveLoad>::saved_as(#[trigger] w.layers[l], ls[l]),
    ensures
        world_loaded(q, ls) == Some(w),
{
    lemma_seq_load_saved::<Vec<Signal>>(w.queue, q, Seq::empty());
    assert(q + Seq::<u8>::empty() =~= q);
    assert forall|l: int| 0 <= l < 32 implies (#[trigger] <Layer as SaveLoad>::loaded(ls[l])) == Some(
        (w.layers[l], ls[l].len()),
    ) by {
        assert(layer_round_trips(w.layers[l]));
        <Layer as SaveLoad>::lemma_load_saved(w.layers[l], ls[l], Seq::empty());
        assert(ls[l] + Seq::<u8>::empty() =~= ls[l]);
    }
    assert(world_loaded(q, ls).unwrap().layers =~= w.layers);
}

} // verus!

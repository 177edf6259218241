use std::collections::VecDeque;

use stackmaker::codec::SaveLoad;
use stackmaker::direction::{DIR_DOWN, DIR_LEFT, DIR_RIGHT, DIR_UP, DIR_UP_L};
use stackmaker::world::{Block, Layer, Signal, World};

fn all_blocks() -> Vec<Block> {
    vec![
        Block::Color(0xff112233),
        Block::Char(0x1F600),
        Block::Delay(12, DIR_LEFT),
        Block::Storage(u32::MAX, 7, DIR_DOWN),
        Block::Gate(true, DIR_RIGHT),
        Block::Gate(false, DIR_UP),
        Block::Splitter(DIR_UP_L),
        Block::Move(DIR_LEFT),
        Block::Swap(DIR_RIGHT),
    ]
}

fn sample_world() -> World {
    let mut world = World::new_empty();
    let (c1, i1) = world.layers[0].get_where(-1, -1);
    for b in all_blocks() {
        world.layers[0].get_mut(&c1)[i1 as usize].push(b);
    }
    // An empty chunk stays an empty chunk.
    let (c2, _) = world.layers[5].get_where(1000, -2000);
    world.layers[5].get_mut(&c2);
    let (c3, i3) = world.layers[31].get_where(17, 3);
    world.layers[31].get_mut(&c3)[i3 as usize].push(Block::Color(1));
    world.layers[31].get_mut(&c3)[(i3 + 1) as usize].push(Block::Char(2));
    world.signals_queue.push_back(vec![(1, DIR_LEFT, c1, i1), (2, DIR_UP, c3, i3)]);
    world.signals_queue.push_back(vec![]);
    world.signals_queue.push_back(vec![(3, DIR_RIGHT | 31, c3, 0)]);
    world.signals_queue.push_back(vec![(u32::MAX, DIR_DOWN | 4, u64::MAX, 255)]);
    world
}

fn save_all(world: &World) -> (Vec<u8>, Vec<Vec<u8>>) {
    let layers = (0..32).map(|l| world.save_layer(l)).collect();
    (world.save_signals_queue(), layers)
}

#[test]
fn world_round_trip() {
    let world = sample_world();
    let (signals, layers) = save_all(&world);
    let loaded = World::load_from_saves(&signals, &layers).expect("saved world loads");
    assert_eq!(loaded.signals_queue, world.signals_queue);
    for l in 0..32 {
        assert_eq!(loaded.layers[l].chunks, world.layers[l].chunks);
    }
    assert_eq!(loaded.layers[5].chunks.len(), 1);
    assert_eq!(loaded.layers[0].chunks.values().next().unwrap()[255], all_blocks());
}

#[test]
fn empty_world_round_trip() {
    let world = World::new_empty();
    let (signals, layers) = save_all(&world);
    assert_eq!(signals, vec![0; 8]);
    assert!(layers.iter().all(|l| l == &vec![0; 8]));
    let loaded = World::load_from_saves(&signals, &layers).unwrap();
    assert!(loaded.signals_queue.is_empty());
    assert!(loaded.layers.iter().all(|l| l.chunks.is_empty()));
}

#[test]
fn truncated_save_does_not_load() {
    let world = sample_world();
    let (signals, layers) = save_all(&world);
    let mut short = signals.clone();
    short.pop();
    assert!(World::load_from_saves(&short, &layers).is_none());
    let mut layers2 = layers.clone();
    let n = layers2[0].len();
    layers2[0].truncate(n - 1);
    assert!(World::load_from_saves(&signals, &layers2).is_none());
}

#[test]
fn unknown_block_tag_does_not_load() {
    let mut buf = vec![];
    Block::Color(5).save(&mut buf);
    buf[0] = b'x';
    assert!(Block::load(&buf, 0).is_none());
    let mut layer = Layer::new();
    layer.get_mut(&0)[0].push(Block::Color(5));
    let mut bytes = vec![];
    layer.save(&mut bytes);
    // count, key, stack 0's length, then the block's tag
    assert_eq!(bytes[24], b'c');
    bytes[24] = b'?';
    assert!(Layer::load(&bytes, 0).is_none());
}

#[test]
fn block_bytes() {
    let mut buf = vec![];
    Block::Color(0x01020304).save(&mut buf);
    assert_eq!(buf, vec![b'c', 1, 2, 3, 4]);
    buf.clear();
    Block::Char(65).save(&mut buf);
    assert_eq!(buf, vec![b'C', 0, 0, 0, 65]);
    buf.clear();
    Block::Delay(258, DIR_LEFT).save(&mut buf);
    assert_eq!(buf, vec![b'd', 0, 0, 1, 2, DIR_LEFT]);
    buf.clear();
    Block::Storage(1, 4, DIR_UP).save(&mut buf);
    assert_eq!(buf, vec![b's', 0, 0, 0, 1, 4, DIR_UP]);
    buf.clear();
    Block::Gate(true, DIR_RIGHT).save(&mut buf);
    assert_eq!(buf, vec![b'g', DIR_RIGHT | 1]);
    buf.clear();
    Block::Gate(false, DIR_RIGHT).save(&mut buf);
    assert_eq!(buf, vec![b'g', DIR_RIGHT]);
    buf.clear();
    Block::Splitter(DIR_UP).save(&mut buf);
    Block::Move(DIR_UP).save(&mut buf);
    Block::Swap(DIR_UP).save(&mut buf);
    assert_eq!(buf, vec![b'G', DIR_UP, b'm', DIR_UP, b'M', DIR_UP]);
}

#[test]
fn blocks_load_back_in_sequence() {
    let mut buf = vec![];
    for b in all_blocks() {
        b.save(&mut buf);
    }
    let mut pos = 0;
    for b in all_blocks() {
        let (got, next) = Block::load(&buf, pos).unwrap();
        assert_eq!(got, b);
        pos = next;
    }
    assert_eq!(pos, buf.len());
    assert!(Block::load(&buf, pos).is_none());
}

#[test]
fn gate_with_odd_direction_byte_changes_on_reload() {
    let mut buf = vec![];
    Block::Gate(false, 0b01100001).save(&mut buf);
    assert_eq!(Block::load(&buf, 0).unwrap().0, Block::Gate(true, 0b01100000));
}

#[test]
fn integers_are_big_endian() {
    let mut buf = vec![];
    0x0102_0304u32.save(&mut buf);
    0x0102_0304_0506_0708u64.save(&mut buf);
    7u8.save(&mut buf);
    assert_eq!(buf, vec![1, 2, 3, 4, 1, 2, 3, 4, 5, 6, 7, 8, 7]);
    assert_eq!(u32::load(&buf, 0), Some((0x0102_0304, 4)));
    assert_eq!(u64::load(&buf, 4), Some((0x0102_0304_0506_0708, 12)));
    assert_eq!(u8::load(&buf, 12), Some((7, 13)));
    assert_eq!(u8::load(&buf, 13), None);
    assert_eq!(u32::load(&buf, 10), None);
}

#[test]
fn vectors_and_queues_have_a_length_prefix() {
    let v: Vec<u32> = vec![5, 6];
    let mut buf = vec![];
    v.save(&mut buf);
    assert_eq!(buf, vec![0, 0, 0, 0, 0, 0, 0, 2, 0, 0, 0, 5, 0, 0, 0, 6]);
    assert_eq!(Vec::<u32>::load(&buf, 0), Some((v.clone(), 16)));
    let q: VecDeque<Vec<Signal>> = VecDeque::from(vec![vec![(1, 2, 3, 4)], vec![]]);
    let mut qb = vec![];
    q.save(&mut qb);
    assert_eq!(qb.len(), 8 + 8 + 14 + 8);
    assert_eq!(VecDeque::<Vec<Signal>>::load(&qb, 0), Some((q, qb.len())));
    // A length that promises more items than there are bytes.
    let mut long = buf.clone();
    long[7] = 3;
    assert_eq!(Vec::<u32>::load(&long, 0), None);
}

#[test]
fn layer_bytes() {
    let mut layer = Layer::new();
    layer.get_mut(&0x0000_0001_0000_0002)[17].push(Block::Move(DIR_DOWN));
    let mut buf = vec![];
    layer.save(&mut buf);
    let mut expected = vec![0, 0, 0, 0, 0, 0, 0, 1, 0, 0, 0, 1, 0, 0, 0, 2];
    for i in 0..256 {
        if i == 17 {
            expected.extend_from_slice(&[0, 0, 0, 0, 0, 0, 0, 1, b'm', DIR_DOWN]);
        } else {
            expected.extend_from_slice(&[0; 8]);
        }
    }
    assert_eq!(buf, expected);
    let (back, n) = Layer::load(&buf, 0).unwrap();
    assert_eq!(n, buf.len());
    assert_eq!(back.chunks, layer.chunks);
}

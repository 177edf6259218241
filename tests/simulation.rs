use stackmaker::direction::{DIR_DOWN, DIR_DOWN_L, DIR_LEFT, DIR_RIGHT, DIR_UP, DIR_UP_L};
use stackmaker::runner::{combine_value, Runner};
use stackmaker::world::{Block, Signal, World};

/// A world with `blocks` stacked at `(x, y)` on layer 0, in order, and one
/// signal due on the next tick.
fn world_with(x: i64, y: i64, blocks: &[Block], signal: (u32, u8)) -> (World, u64, u8) {
    let mut world = World::new_empty();
    let (chunk, idx) = world.layers[0].get_where(x, y);
    for b in blocks {
        world.layers[0].get_mut(&chunk)[idx as usize].push(*b);
    }
    world.signals_queue.push_back(vec![(signal.0, signal.1, chunk, idx)]);
    (world, chunk, idx)
}

fn top(world: &mut World, layer: usize, x: i64, y: i64) -> Option<Block> {
    let (chunk, idx) = world.layers[layer].get_where(x, y);
    world.layers[layer].get_mut(&chunk)[idx as usize].last().copied()
}

fn stack(world: &mut World, layer: usize, x: i64, y: i64) -> Vec<Block> {
    let (chunk, idx) = world.layers[layer].get_where(x, y);
    world.layers[layer].get_mut(&chunk)[idx as usize].clone()
}

fn pending(world: &World) -> usize {
    world.signals_queue.iter().map(|b| b.len()).sum()
}

#[test]
fn delay_front_signal_is_scheduled_after_its_ticks() {
    let (world, chunk, idx) = world_with(3, 4, &[Block::Delay(5, DIR_RIGHT)], (7, DIR_RIGHT));
    let mut runner = Runner::new(world);
    runner.tick();
    let q = &runner.world.signals_queue;
    assert!(q.len() >= 6);
    assert_eq!(q[5], vec![(7, DIR_RIGHT, chunk, idx + 1)]);
    assert_eq!(pending(&runner.world), 1);
}

#[test]
fn delay_side_signal_sets_ticks_only() {
    let (world, _, _) = world_with(3, 4, &[Block::Delay(5, DIR_RIGHT)], (3, DIR_UP));
    let mut runner = Runner::new(world);
    runner.tick();
    assert_eq!(top(&mut runner.world, 0, 3, 4), Some(Block::Delay(3, DIR_RIGHT)));
    assert_eq!(pending(&runner.world), 0);
}

#[test]
fn storage_add_saturates() {
    let (world, _, _) =
        world_with(0, 0, &[Block::Storage(u32::MAX - 5, 4, DIR_RIGHT)], (10, DIR_DOWN));
    let mut runner = Runner::new(world);
    runner.tick();
    assert_eq!(top(&mut runner.world, 0, 0, 0), Some(Block::Storage(u32::MAX, 4, DIR_RIGHT)));
    assert_eq!(pending(&runner.world), 0);
}

#[test]
fn storage_front_signal_sets_mode_and_sends_value() {
    let (world, chunk, idx) =
        world_with(15, 0, &[Block::Storage(42, 3, DIR_RIGHT)], (1000, DIR_RIGHT));
    let mut runner = Runner::new(world);
    runner.tick();
    assert_eq!(top(&mut runner.world, 0, 15, 0), Some(Block::Storage(42, 255, DIR_RIGHT)));
    // x = 15 is the right edge of chunk 0: the value goes to x = 16, in chunk 1.
    let (next_chunk, next_idx) = runner.world.layers[0].get_where(16, 0);
    assert_eq!(next_chunk, chunk + 1);
    assert_eq!(next_idx, idx - 15);
    assert_eq!(runner.world.signals_queue[0], vec![(42, DIR_RIGHT, next_chunk, next_idx)]);
}

#[test]
fn storage_unknown_mode_keeps_value_but_still_sends_it() {
    let (world, _, _) = world_with(0, 0, &[Block::Storage(9, 200, DIR_UP)], (77, DIR_LEFT));
    let mut runner = Runner::new(world);
    runner.tick();
    assert_eq!(top(&mut runner.world, 0, 0, 0), Some(Block::Storage(9, 200, DIR_UP)));
    assert_eq!(pending(&runner.world), 0);
    runner.world.signals_queue[0].push((1, DIR_UP, 0, 0));
    runner.tick();
    assert_eq!(top(&mut runner.world, 0, 0, 0), Some(Block::Storage(9, 1, DIR_UP)));
    let (c, i) = runner.world.layers[0].get_where(0, -1);
    assert_eq!(runner.world.signals_queue[0], vec![(9, DIR_UP, c, i)]);
}

#[test]
fn storage_modes_combine_values() {
    assert_eq!(combine_value(0, 5, 9), 9);
    assert_eq!(combine_value(1, 0b1010, 0b0110), 0b1110);
    assert_eq!(combine_value(2, 0b1010, 0b0110), 0b0010);
    assert_eq!(combine_value(3, 0b1010, 0b0110), 0b1100);
    assert_eq!(combine_value(4, 7, 8), 15);
    assert_eq!(combine_value(4, u32::MAX - 5, 10), u32::MAX);
    assert_eq!(combine_value(5, 7, 8), 0);
    assert_eq!(combine_value(5, 8, 7), 1);
    assert_eq!(combine_value(6, 70_000, 70_000), u32::MAX);
    assert_eq!(combine_value(6, 6, 7), 42);
    assert_eq!(combine_value(7, 42, 5), 8);
    assert_eq!(combine_value(7, 42, 0), u32::MAX);
    assert_eq!(combine_value(8, 42, 5), 2);
    assert_eq!(combine_value(8, 42, 0), 42);
    assert_eq!(combine_value(9, 42, 5), 42);
    assert_eq!(combine_value(255, 42, 5), 42);
}

#[test]
fn gate_drops_until_opened() {
    let (world, chunk, idx) = world_with(2, 2, &[Block::Gate(false, DIR_RIGHT)], (7, DIR_RIGHT));
    let mut runner = Runner::new(world);
    runner.tick();
    assert_eq!(pending(&runner.world), 0);
    runner.world.signals_queue[0].push((0, DIR_DOWN, chunk, idx));
    runner.tick();
    assert_eq!(top(&mut runner.world, 0, 2, 2), Some(Block::Gate(true, DIR_RIGHT)));
    runner.world.signals_queue[0].push((7, DIR_RIGHT, chunk, idx));
    runner.tick();
    assert_eq!(runner.world.signals_queue[0], vec![(7, DIR_RIGHT, chunk, idx + 1)]);
    runner.world.signals_queue[0].clear();
    runner.world.signals_queue[0].push((3, DIR_UP, chunk, idx));
    runner.tick();
    assert_eq!(top(&mut runner.world, 0, 2, 2), Some(Block::Gate(false, DIR_RIGHT)));
}

#[test]
fn color_and_char_take_any_signal() {
    let (world, chunk, idx) = world_with(-5, 9, &[Block::Color(1)], (0xff00ff00, DIR_LEFT));
    let mut runner = Runner::new(world);
    runner.tick();
    assert_eq!(top(&mut runner.world, 0, -5, 9), Some(Block::Color(0xff00ff00)));
    runner.world.layers[0].get_mut(&chunk)[idx as usize].push(Block::Char(65));
    runner.world.signals_queue[0].push((66, DIR_UP_L, chunk, idx));
    runner.tick();
    assert_eq!(top(&mut runner.world, 0, -5, 9), Some(Block::Char(66)));
}

#[test]
fn signal_to_empty_stack_is_dropped() {
    let (world, _, _) = world_with(1, 1, &[], (5, DIR_RIGHT));
    let mut runner = Runner::new(world);
    runner.tick();
    assert_eq!(pending(&runner.world), 0);
    assert!(stack(&mut runner.world, 0, 1, 1).is_empty());
}

#[test]
fn splitter_sends_both_ways_along_its_axis() {
    let (world, _, _) = world_with(0, 5, &[Block::Splitter(DIR_RIGHT)], (9, DIR_UP));
    let mut runner = Runner::new(world);
    runner.tick();
    let (rc, ri) = runner.world.layers[0].get_where(1, 5);
    let (lc, li) = runner.world.layers[0].get_where(-1, 5);
    assert_eq!(runner.world.signals_queue[0], vec![(9, DIR_RIGHT, rc, ri), (9, DIR_LEFT, lc, li)]);
}

#[test]
fn splitter_ignores_front_signals() {
    let (world, _, _) = world_with(0, 5, &[Block::Splitter(DIR_RIGHT)], (9, DIR_LEFT));
    let mut runner = Runner::new(world);
    runner.tick();
    assert_eq!(pending(&runner.world), 0);
}

#[test]
fn move_zero_takes_from_behind_and_puts_in_front() {
    let (mut world, _, _) = world_with(0, 0, &[Block::Move(DIR_RIGHT)], (0, DIR_UP));
    let (bc, bi) = world.layers[0].get_where(-1, 0);
    world.layers[0].get_mut(&bc)[bi as usize].push(Block::Color(1));
    world.layers[0].get_mut(&bc)[bi as usize].push(Block::Color(2));
    let mut runner = Runner::new(world);
    runner.tick();
    assert_eq!(stack(&mut runner.world, 0, -1, 0), vec![Block::Color(1)]);
    assert_eq!(stack(&mut runner.world, 0, 1, 0), vec![Block::Color(2)]);
    let (c, i) = runner.world.layers[0].get_where(0, 0);
    runner.world.signals_queue[0].push((4, DIR_DOWN, c, i));
    runner.tick();
    assert_eq!(stack(&mut runner.world, 0, -1, 0), vec![Block::Color(1), Block::Color(2)]);
    assert!(stack(&mut runner.world, 0, 1, 0).is_empty());
}

#[test]
fn move_across_layers() {
    let mut world = World::new_empty();
    let (c, i) = world.layers[3].get_where(7, 7);
    world.layers[3].get_mut(&c)[i as usize].push(Block::Move(DIR_DOWN_L));
    world.layers[2].get_mut(&c)[i as usize].push(Block::Char(1));
    world.signals_queue.push_back(vec![(0, DIR_RIGHT | 3, c, i)]);
    let mut runner = Runner::new(world);
    runner.tick();
    assert!(stack(&mut runner.world, 2, 7, 7).is_empty());
    assert_eq!(stack(&mut runner.world, 4, 7, 7), vec![Block::Char(1)]);
}

#[test]
fn move_at_layer_edge_does_nothing() {
    let (mut world, _, _) = world_with(0, 0, &[Block::Move(DIR_UP_L)], (0, DIR_RIGHT));
    let (c, i) = world.layers[1].get_where(0, 0);
    world.layers[1].get_mut(&c)[i as usize].push(Block::Color(3));
    let mut runner = Runner::new(world);
    runner.tick();
    assert_eq!(stack(&mut runner.world, 1, 0, 0), vec![Block::Color(3)]);
    assert_eq!(stack(&mut runner.world, 0, 0, 0), vec![Block::Move(DIR_UP_L)]);
    assert_eq!(pending(&runner.world), 0);
}

#[test]
fn swap_exchanges_tops() {
    let (mut world, _, _) = world_with(0, 0, &[Block::Swap(DIR_UP)], (1, DIR_LEFT));
    let (fc, fi) = world.layers[0].get_where(0, -1);
    let (bc, bi) = world.layers[0].get_where(0, 1);
    world.layers[0].get_mut(&fc)[fi as usize].push(Block::Color(1));
    world.layers[0].get_mut(&fc)[fi as usize].push(Block::Color(2));
    world.layers[0].get_mut(&bc)[bi as usize].push(Block::Char(3));
    let mut runner = Runner::new(world);
    runner.tick();
    assert_eq!(stack(&mut runner.world, 0, 0, -1), vec![Block::Color(1), Block::Char(3)]);
    assert_eq!(stack(&mut runner.world, 0, 0, 1), vec![Block::Color(2)]);
}

#[test]
fn swap_with_empty_front_does_nothing() {
    let (mut world, _, _) = world_with(0, 0, &[Block::Swap(DIR_UP)], (1, DIR_LEFT));
    let (bc, bi) = world.layers[0].get_where(0, 1);
    world.layers[0].get_mut(&bc)[bi as usize].push(Block::Char(3));
    let mut runner = Runner::new(world);
    runner.tick();
    assert!(stack(&mut runner.world, 0, 0, -1).is_empty());
    assert_eq!(stack(&mut runner.world, 0, 0, 1), vec![Block::Char(3)]);
}

#[test]
fn swap_with_empty_behind_puts_block_back() {
    let (mut world, _, _) = world_with(0, 0, &[Block::Swap(DIR_UP)], (1, DIR_LEFT));
    let (fc, fi) = world.layers[0].get_where(0, -1);
    world.layers[0].get_mut(&fc)[fi as usize].push(Block::Color(5));
    let mut runner = Runner::new(world);
    runner.tick();
    assert_eq!(stack(&mut runner.world, 0, 0, -1), vec![Block::Color(5)]);
    assert!(stack(&mut runner.world, 0, 0, 1).is_empty());
}

#[test]
fn runner_new_adds_a_bucket_to_an_empty_queue() {
    let runner = Runner::new(World::new_empty());
    assert_eq!(runner.world.signals_queue.len(), 1);
    assert!(runner.world.signals_queue[0].is_empty());
}

#[test]
fn tick_takes_off_one_bucket() {
    let mut world = World::new_empty();
    world.signals_queue.push_back(vec![]);
    world.signals_queue.push_back(vec![]);
    world.signals_queue.push_back(vec![(1, DIR_LEFT, 0, 0)]);
    let mut runner = Runner::new(world);
    runner.tick();
    assert_eq!(runner.world.signals_queue.len(), 2);
    assert_eq!(runner.world.signals_queue[1], vec![(1, DIR_LEFT, 0, 0)]);
    runner.tick();
    assert_eq!(runner.world.signals_queue.len(), 1);
    runner.tick();
    assert_eq!(runner.world.signals_queue.len(), 1);
    assert!(runner.world.signals_queue[0].is_empty());
}

#[test]
fn signals_mut_pads_the_queue() {
    let mut world = World::new_empty();
    world.signals_mut(3).push((9, DIR_UP, 1, 2));
    assert_eq!(world.signals_queue.len(), 4);
    assert_eq!(world.signals_queue[3], vec![(9, DIR_UP, 1, 2)]);
    assert!(world.signals_queue[0].is_empty());
    world.signals_mut(1).push((8, DIR_UP, 1, 2));
    assert_eq!(world.signals_queue.len(), 4);
    assert_eq!(world.signals_queue[1], vec![(8, DIR_UP, 1, 2)]);
}

#[test]
fn new_empty_world_has_32_layers() {
    let world = World::new_empty();
    assert_eq!(world.layers.len(), 32);
    assert!(world.layers.iter().all(|l| l.chunks.is_empty()));
    assert!(world.signals_queue.is_empty());
    let s: Vec<Signal> = vec![];
    assert!(s.is_empty());
}

#[test]
fn kind_names() {
    assert_eq!(Block::Color(0).kind_name(), "color");
    assert_eq!(Block::Char(0).kind_name(), "char");
    assert_eq!(Block::Delay(0, DIR_UP).kind_name(), "delay");
    let modes = ["sto", "or", "and", "xor", "add", "sub", "mul", "div", "mod", "default", "default"];
    for (m, name) in modes.iter().enumerate() {
        assert_eq!(Block::Storage(0, m as u8, DIR_UP).kind_name(), format!("storage/{name}"));
    }
    assert_eq!(Block::Gate(true, DIR_UP).kind_name(), "gate/open");
    assert_eq!(Block::Gate(false, DIR_UP).kind_name(), "gate/closed");
    assert_eq!(Block::Splitter(DIR_UP).kind_name(), "splitter");
    assert_eq!(Block::Move(DIR_UP).kind_name(), "move");
    assert_eq!(Block::Swap(DIR_UP).kind_name(), "swap");
}

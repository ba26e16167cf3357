use maze_wars::config::{HIT_DAMAGE, MAX_HP, MAX_INPUT_QUEUE};
use maze_wars::maze::MazeGrid;
use maze_wars::world_rules::{apply_hit, highest_consumed_tick, random_cell, take_tick_batch};
use std::collections::VecDeque;

#[test]
fn flooding_input_caps_movement_at_max_input_queue_per_tick() {
    let mut queue: VecDeque<u32> = (1..=10).collect();
    let batch = take_tick_batch(&mut queue);
    assert_eq!(batch.len(), MAX_INPUT_QUEUE);
    assert_eq!(batch, vec![1, 2, 3, 4, 5, 6]);
    assert_eq!(queue, VecDeque::from(vec![7, 8, 9, 10]));
    let next = take_tick_batch(&mut queue);
    assert_eq!(next, vec![7, 8, 9, 10]);
    assert!(queue.is_empty());
    assert!(take_tick_batch(&mut queue).is_empty());
}

#[test]
fn two_inputs_in_one_tick_window_advance_two_steps() {
    let mut queue: VecDeque<u32> = VecDeque::from(vec![1, 2]);
    assert_eq!(take_tick_batch(&mut queue), vec![1, 2]);
}

#[test]
fn last_input_tick_echoes_the_highest_consumed_tick() {
    assert_eq!(highest_consumed_tick(0, &vec![1, 2, 3, 4, 5]), 5);
    assert_eq!(highest_consumed_tick(3, &vec![5, 2]), 5);
    assert_eq!(highest_consumed_tick(9, &vec![5, 2]), 9);
    assert_eq!(highest_consumed_tick(0, &vec![]), 0);
}

#[test]
fn shooting_aimed_target_deals_damage_then_kills_and_respawns_them() {
    let hits_to_kill = MAX_HP.div_ceil(HIT_DAMAGE);
    let mut hp = MAX_HP;
    let mut expected_hp = MAX_HP;
    for shot in 0..hits_to_kill {
        let (left, killed) = apply_hit(hp);
        expected_hp = expected_hp.saturating_sub(HIT_DAMAGE);
        assert_eq!(left, expected_hp);
        assert_eq!(killed, shot + 1 == hits_to_kill);
        hp = left;
    }
    assert_eq!(hp, 0);
    assert_eq!(hits_to_kill, 4);
}

#[test]
fn a_hit_never_wraps_below_zero() {
    assert_eq!(apply_hit(10), (0, true));
    assert_eq!(apply_hit(0), (0, true));
    assert_eq!(apply_hit(26), (1, false));
}

#[test]
fn respawn_cell_lies_inside_the_grid() {
    let grid = MazeGrid {
        width: 3,
        height: 2,
        walls: vec![0; 6],
    };
    for _ in 0..200 {
        let (x, y) = random_cell(&grid);
        assert!(x < 3 && y < 2);
    }
}

use tswn::cacluate::{
    dispatch_dynamic, dispatch_fixed, gen_name, inner_cacl, screen_name, start_main, thread_config,
    worker_step, ComputeStatus, Dispatch, StartPlan, WorkerStep,
};
use tswn::command::Command;
use tswn::name::{Namer, TeamNamer};

fn command(thread_count: u32) -> Command {
    Command {
        start: 100,
        end: 1000,
        thread_count,
        prop_expect: 640,
        qp_expect: 7,
        team: "shenjack".to_string(),
        report_interval: 10,
        pick_core: 3,
        is_sub_process: false,
    }
}

#[test]
fn names_of_ids() {
    assert_eq!(gen_name(0), "一一一一一㴁");
    assert_eq!(gen_name(1), "一一一一乀㴁");
    assert_eq!(gen_name(255), "一一一一跀㴁");
    assert_eq!(gen_name(4392), "一一一丑堀㴁");
    assert_eq!(gen_name(13072935), "一一七啺埀㴁");
    assert_eq!(gen_name(u64::MAX), "跿跿跿跿跀㴁");
}

#[test]
fn status_bookkeeping() {
    let mut status = ComputeStatus::new(&command(3));
    assert_eq!(status.start, 100);
    assert_eq!(status.end, 1000);
    assert_eq!(status.top_id, 100);
    assert_eq!(status.thread_speed, vec![0, 0, 0]);
    assert_eq!(status.thread_running, vec![false, false, false]);
    assert_eq!(status.get_idle_thread(), Some(0));
    assert!(status.all_stoped());
    status.update_running(0, true);
    status.update_running(2, true);
    assert_eq!(status.get_idle_thread(), Some(1));
    assert!(!status.all_stoped());
    status.update_running(1, true);
    assert_eq!(status.get_idle_thread(), None);
    status.update_speed(1, 500);
    status.update_speed(2, 250);
    assert_eq!(status.count_speed(), 750);
    status.add_get_count(2, 4);
    status.add_get_count(2, 1);
    status.add_get_count(0, 3);
    assert_eq!(status.thread_get_count, vec![3, 0, 5]);
    assert_eq!(status.get_sum_count(), 8);
}

#[test]
fn fixed_dispatch_hands_out_contiguous_batches() {
    let mut status = ComputeStatus::new(&command(2));
    let d = dispatch_fixed(&mut status, 500).unwrap();
    assert_eq!(d, Dispatch::Batch { thread: 0, start: 100, end: 600 });
    assert_eq!(status.top_id, 600);
    status.update_running(0, true);
    let d = dispatch_fixed(&mut status, 500).unwrap();
    assert_eq!(d, Dispatch::Last { thread: 1, start: 600, end: 1000 });
    assert_eq!(status.top_id, 600);
    status.update_running(1, true);
    assert_eq!(dispatch_fixed(&mut status, 500), None);
}

#[test]
fn dynamic_dispatch_sizes_by_speed() {
    let mut status = ComputeStatus::new(&command(2));
    let mut sended = vec![true, true];
    status.update_running(1, true);
    // no speed yet: 10000 ids would pass the end, so the rest goes as the last batch
    let d = dispatch_dynamic(&mut status, &mut sended, (1, 0), 10);
    assert_eq!(d, Dispatch::Last { thread: 1, start: 100, end: 1000 });
    assert_eq!(sended, vec![true, false]);
    assert_eq!(status.top_id, 100);
    let mut big = command(2);
    big.end = 100_000;
    let mut status = ComputeStatus::new(&big);
    let d = dispatch_dynamic(&mut status, &mut sended, (0, 0), 10);
    assert_eq!(d, Dispatch::Batch { thread: 0, start: 100, end: 10100 });
    assert_eq!(status.top_id, 10100);
    let mut status = ComputeStatus::new(&command(2));
    let d = dispatch_dynamic(&mut status, &mut sended, (0, 20), 10);
    assert_eq!(d, Dispatch::Batch { thread: 0, start: 100, end: 300 });
    assert_eq!(status.top_id, 300);
    let d = dispatch_dynamic(&mut status, &mut sended, (0, 100), 10);
    assert_eq!(d, Dispatch::Last { thread: 0, start: 300, end: 1000 });
    assert_eq!(status.top_id, 300);
    let mut tiny = command(1);
    tiny.start = 0;
    tiny.end = 5;
    let mut status = ComputeStatus::new(&tiny);
    let mut one = vec![false];
    let d = dispatch_dynamic(&mut status, &mut one, (0, 0), 10);
    assert_eq!(d, Dispatch::Last { thread: 0, start: 0, end: 5 });
}

#[test]
fn workers_take_their_own_batches() {
    assert_eq!(worker_step(2, Some(Some((2, 5, 9)))), WorkerStep::Compute { start: 5, end: 9 });
    assert_eq!(worker_step(2, Some(Some((1, 5, 9)))), WorkerStep::Retry);
    assert_eq!(worker_step(2, Some(None)), WorkerStep::Stop);
    assert_eq!(worker_step(2, None), WorkerStep::Stop);
}

#[test]
fn configs_of_the_command() {
    let out = "out.csv".to_string();
    let single = command(1);
    assert!(single.is_single_core());
    let config = single.as_cacl_config(&out);
    assert_eq!(config.core_affinity, Some(8));
    assert_eq!(config.xp_expect, 7);
    assert_eq!(config.out_file, "out.csv");
    match start_main(&single, &out) {
        StartPlan::Single { config, cores } => {
            assert_eq!(cores, 8);
            assert_eq!(config.thread_id, 0);
        }
        StartPlan::Threads => panic!("one thread runs in the main thread"),
    }
    let many = command(4);
    assert!(!many.is_single_core());
    assert_eq!(many.as_cacl_config(&out).core_affinity, None);
    assert!(matches!(start_main(&many, &out), StartPlan::Threads));
    let config = thread_config(&many, &out, 2);
    assert_eq!(config.thread_id, 2);
    assert_eq!(config.core_affinity, Some(4));
    assert_eq!(config.team, "shenjack");
}

#[test]
fn align_end_adds_the_remainder() {
    let mut cmd = command(7);
    cmd.align_end();
    assert_eq!(cmd.end, 1000 + 100 % 7);
    let mut cmd = command(3);
    cmd.end = u64::MAX;
    cmd.align_end();
    assert_eq!(cmd.end, 0);
}

fn property(namer: &Namer) -> f32 {
    namer.name_prop[1..=7].iter().sum::<u32>() as f32 + (namer.name_prop[0] as f32 / 3_f32)
}

fn passes_screen(namer: &Namer) -> bool {
    let p = &namer.name_prop;
    let m = |k: usize| p[k] - 36;
    let sum = m(7) + m(2) + m(3) + m(6) + m(1) + m(4) + m(5);
    m(7) >= 24 && m(7) + m(2) + m(3) + m(6) >= 165 && sum >= 250 && sum + p[0] / 3 + 154 >= 380
}

#[test]
fn screening_matches_fresh_names() {
    let team = TeamNamer::new("shenjack").unwrap();
    let mut main_namer = Namer::new_from_team_namer_unchecked(&team, "dummy");
    let config = command(1).as_cacl_config(&"o".to_string());
    let mut config = config;
    config.prop_expect = 450;
    let found = inner_cacl(&config, 0, 3000, &mut main_namer, &team);
    let mut expected = Vec::new();
    for id in 0..3000u64 {
        let fresh = Namer::new_from_team_namer_unchecked(&team, &gen_name(id));
        if passes_screen(&fresh) && property(&fresh) > 450.0 {
            expected.push(id);
        }
    }
    assert_eq!(found, expected);
    let name = gen_name(13072935);
    let fresh = Namer::new_from_team_namer_unchecked(&team, &name);
    let hit = screen_name(&mut main_namer, &team, &name, 0);
    assert_eq!(hit, passes_screen(&fresh));
    assert_eq!(main_namer.name, name);
}

#[test]
fn generated_names_are_allowed() {
    for id in [0u64, 1, 0x20, 0x3F, 0x2000, 0x202F, 1 << 40, u64::MAX - 1, u64::MAX] {
        let name = gen_name(id);
        assert_eq!(name.chars().count(), 6);
        assert!(!name.starts_with(' '));
        for c in name.chars() {
            let c = c as u32;
            assert!(c >= 0x20 && c != 0x3F && !(0x2000..=0x202F).contains(&c));
        }
    }
}

#[test]
fn fixed_batches_tile_the_ids() {
    let mut status = ComputeStatus::new(&command(1));
    let mut next = status.top_id;
    loop {
        match dispatch_fixed(&mut status, 128).unwrap() {
            Dispatch::Batch { start, end, .. } => {
                assert_eq!(start, next);
                assert!(start < end);
                next = end;
            }
            Dispatch::Last { start, end, .. } => {
                assert_eq!(start, next);
                assert_eq!(end, 1000);
                break;
            }
        }
    }
}

#[test]
fn eight_byte_names_spelled_out() {
    assert_eq!(gen_name(0x0123456789abcdef), "么艖氦种觀㴁");
    let id: u64 = 0xfedcba9876543210;
    let b = id.to_be_bytes();
    let n = b[..7].iter().fold(0u64, |a, x| a * 256 + *x as u64);
    let mut expected = String::new();
    for shift in [42, 28, 14, 0] {
        expected.push(char::from_u32(0x4E00 + ((n >> shift) & 0x3FFF) as u32).unwrap());
    }
    expected.push(char::from_u32(0x4E00 + (b[7] as u32) * 64).unwrap());
    expected.push('\u{3D01}');
    assert_eq!(gen_name(id), expected);
}

#[test]
fn dynamic_batches_follow_one_another() {
    let mut cmd = command(2);
    cmd.end = 30_000;
    let mut status = ComputeStatus::new(&cmd);
    let mut sended = vec![false, false];
    let mut next = status.top_id;
    for speed in [0u32, 3, 7, 1, 0, 2, 500, 0, 500, 500, 500, 500] {
        match dispatch_dynamic(&mut status, &mut sended, (1, speed), 10) {
            Dispatch::Batch { start, end, .. } => {
                assert_eq!(start, next);
                assert!(end <= 30_000);
                next = end;
                assert_eq!(status.top_id, next);
            }
            Dispatch::Last { start, end, .. } => {
                assert_eq!(start, next);
                assert_eq!(end, 30_000);
                assert_eq!(status.top_id, next);
                return;
            }
        }
    }
    panic!("the ids ran out before the last batch");
}

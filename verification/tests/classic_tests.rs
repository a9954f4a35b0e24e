use tswn::classic::{median, Command, Namer, PROP_ALLOW};

#[test]
fn basic_new_test() {
    let namer = Namer::new(&"x@x".to_string());
    assert!(namer.is_some());
    let namer = namer.unwrap();
    assert_eq!(namer.name, "x");
    assert_eq!(namer.team, "x");
    println!("val: {:?}", namer.val);
    println!("name_base: {:?}", namer.name_base);
    println!("name_bytes: {:?}", namer.name_bytes);
    println!("team_bytes: {:?}", namer.team_bytes);
    println!("name_prop: {:?}", namer.name_prop);
    println!("skl_id: {:?}", namer.skl_id);
    println!("skl_freq: {:?}", namer.skl_freq);
}

#[test]
fn classic_median_is_the_middle() {
    assert_eq!(median(1, 2, 3), 2);
    assert_eq!(median(3, 2, 1), 2);
    assert_eq!(median(2, 3, 1), 2);
    assert_eq!(median(5, 5, 1), 5);
    assert_eq!(median(0, 9, 4), 4);
}

#[test]
fn classic_props_are_fixed() {
    for raw in ["x@x", "shenjack@team", "abc", "一一七啺埀㴁@shadow"] {
        let namer = Namer::new(&raw.to_string()).unwrap();
        assert_eq!(namer.name_prop.to_vec(), vec![36, 36, 36, 36, 36, 36, 36, 154]);
        assert!(namer.name_base[1..].iter().all(|b| *b == 0));
        assert!(namer.name_base[0] < 64);
    }
}

#[test]
fn classic_name_bytes_and_team() {
    let namer = Namer::new(&"ab".to_string()).unwrap();
    assert_eq!(namer.name, "ab");
    assert_eq!(namer.team, "");
    assert_eq!(namer.name_bytes[0], b'a');
    assert_eq!(namer.name_bytes[1], b'b');
    assert!(namer.name_bytes[2..].iter().all(|b| *b == 0));
    assert!(namer.team_bytes.iter().all(|b| *b == 0));
    assert_eq!(namer.name_len(), 3);
    assert_eq!(namer.team_len(), 1);
    let namer = Namer::new(&"ab@xyz".to_string()).unwrap();
    assert_eq!(namer.team_len(), 4);
    assert_eq!(namer.team_bytes[2], b'z');
}

#[test]
fn classic_permutation_ignores_the_team() {
    let a = Namer::new(&"name@one".to_string()).unwrap();
    let b = Namer::new(&"name@two".to_string()).unwrap();
    assert_eq!(a.val.to_vec(), b.val.to_vec());
    let mut seen = [false; 256];
    for v in a.val.iter() {
        assert!(!seen[*v as usize]);
        seen[*v as usize] = true;
    }
}

#[test]
fn classic_long_parts_are_refused() {
    let long = "a".repeat(256);
    let ok = "a".repeat(255);
    assert!(Namer::new(&long).is_none());
    assert!(Namer::new(&format!("x@{}", long)).is_none());
    assert!(Namer::new(&ok).is_some());
    assert!(Namer::new(&format!("@{}", long)).is_none());
}

#[test]
fn classic_config_has_the_allowance() {
    let cmd = Command {
        start: 5,
        end: 100,
        thread_count: 4,
        prop_expect: 740,
        team: "team".to_string(),
        report_interval: 10,
    };
    let config = cmd.as_cacl_config();
    assert_eq!(config.start, 5);
    assert_eq!(config.end, 100);
    assert_eq!(config.thread_count, 4);
    assert_eq!(config.prop_expect, 740);
    assert_eq!(config.prop_allow, 10);
    assert_eq!(PROP_ALLOW, 10);
    assert_eq!(config.team, "team");
    assert_eq!(config.report_interval, 10);
}

#[test]
fn classic_show_name() {
    let namer = Namer::new(&"x@x".to_string()).unwrap();
    assert_eq!(
        tswn::classic::show_name(&namer, "405.33334"),
        "HP|36 攻|36 防|36 速|36 敏|36 魔|36 抗|36 智|154 八围:405.33334"
    );
}

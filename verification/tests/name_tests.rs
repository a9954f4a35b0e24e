use tswn::name::{Namer, TeamNamer};

/// The attribute total as the game shows it: the seven attributes plus a
/// third of the hit points.
fn property(namer: &Namer) -> f32 {
    namer.name_prop[1..=7].iter().sum::<u32>() as f32 + (namer.name_prop[0] as f32 / 3_f32)
}

#[test]
fn new_test() {
    let namer = Namer::new(&"x@x".to_string());
    assert!(namer.is_some());
    let namer = namer.unwrap();
    assert_eq!(namer.name, "x");
    assert_eq!(namer.team, "x");
}

#[test]
fn val_test() {
    let team = TeamNamer::new_unchecked("x");

    let team_val: Vec<u8> = vec![
        0, 59, 5, 27, 36, 119, 125, 25, 127, 133, 143, 18, 88, 163, 214, 134, 72, 85, 55, 103, 58, 80, 12, 3, 197, 86, 112,
        227, 37, 180, 202, 184, 126, 15, 169, 96, 35, 149, 160, 90, 130, 10, 207, 254, 31, 253, 194, 150, 198, 111, 161, 87,
        128, 129, 24, 73, 238, 34, 245, 168, 52, 42, 232, 142, 152, 135, 201, 132, 200, 144, 203, 138, 154, 141, 109, 47,
        155, 93, 145, 82, 185, 113, 186, 69, 217, 166, 210, 92, 131, 183, 151, 171, 251, 40, 98, 195, 41, 7, 244, 30, 26, 65,
        179, 16, 100, 218, 211, 120, 45, 237, 182, 8, 137, 107, 67, 61, 176, 249, 190, 123, 122, 243, 70, 247, 174, 241, 209,
        148, 228, 50, 208, 14, 51, 146, 117, 68, 162, 234, 102, 104, 62, 11, 76, 84, 9, 139, 224, 235, 108, 44, 78, 222, 242,
        167, 89, 172, 114, 115, 221, 233, 140, 193, 255, 191, 4, 188, 66, 29, 6, 64, 204, 192, 178, 77, 216, 196, 57, 164,
        95, 75, 229, 212, 223, 215, 97, 136, 220, 38, 219, 94, 158, 252, 226, 21, 239, 157, 32, 39, 124, 46, 105, 175, 230,
        156, 248, 106, 116, 43, 101, 250, 231, 28, 147, 173, 177, 187, 20, 181, 205, 22, 91, 83, 225, 1, 81, 99, 199, 246,
        63, 48, 54, 13, 118, 79, 19, 170, 153, 165, 213, 110, 23, 121, 206, 159, 236, 2, 33, 71, 49, 56, 74, 60, 189, 53,
        240, 17,
    ];
    assert_eq!(team.clone_vals().to_vec(), team_val);

    let namer = Namer::new_from_team_namer_unchecked(&team, "x");

    let val_vec: Vec<u8> = vec![
        225, 96, 49, 232, 20, 47, 115, 245, 234, 23, 111, 178, 231, 100, 118, 197, 42, 98, 137, 196, 209, 86, 114, 184, 167,
        129, 164, 239, 205, 211, 82, 173, 189, 153, 198, 67, 4, 3, 90, 52, 128, 134, 176, 145, 85, 9, 250, 30, 63, 247, 240,
        17, 215, 200, 78, 188, 132, 117, 10, 45, 162, 79, 123, 73, 109, 91, 57, 210, 22, 175, 107, 203, 103, 32, 83, 70, 242,
        75, 220, 140, 148, 15, 138, 44, 228, 43, 105, 199, 99, 116, 97, 69, 80, 172, 230, 25, 224, 33, 31, 135, 235, 74, 193,
        238, 233, 88, 216, 204, 24, 163, 141, 6, 201, 26, 38, 21, 186, 237, 101, 206, 212, 76, 144, 219, 149, 169, 202, 110,
        41, 166, 139, 194, 168, 34, 142, 147, 187, 108, 223, 94, 5, 243, 226, 60, 40, 102, 51, 87, 61, 236, 46, 159, 64, 227,
        113, 190, 81, 127, 65, 8, 183, 253, 150, 249, 229, 37, 156, 182, 180, 246, 124, 244, 174, 122, 89, 120, 160, 35, 143,
        11, 14, 151, 133, 27, 177, 251, 221, 207, 58, 29, 131, 119, 171, 157, 93, 185, 48, 112, 192, 191, 66, 106, 39, 59,
        92, 19, 1, 155, 254, 84, 222, 165, 54, 121, 13, 50, 36, 130, 95, 161, 213, 170, 28, 241, 71, 53, 68, 218, 0, 252, 16,
        136, 179, 158, 248, 2, 154, 12, 125, 126, 255, 18, 146, 104, 77, 152, 208, 214, 72, 55, 195, 62, 7, 217, 56, 181,
    ];
    assert_eq!(namer.val.to_vec(), val_vec);
}

#[test]
fn more_val_test() {
    let team = TeamNamer::new_unchecked("y");
    let namer = Namer::new_from_team_namer_unchecked(&team, "y");

    let val_vec: Vec<u8> = vec![
        172, 201, 232, 76, 55, 209, 7, 109, 135, 97, 137, 96, 238, 117, 175, 52, 72, 207, 136, 16, 69, 108, 116, 11, 37, 79,
        169, 46, 244, 57, 8, 67, 156, 21, 48, 43, 162, 185, 191, 141, 40, 65, 233, 211, 54, 42, 208, 28, 87, 251, 167, 53,
        82, 160, 66, 125, 183, 128, 225, 168, 78, 252, 0, 81, 199, 236, 145, 177, 178, 131, 12, 27, 189, 62, 151, 182, 204,
        83, 63, 202, 123, 148, 30, 41, 218, 196, 157, 77, 224, 229, 246, 104, 24, 93, 22, 216, 180, 171, 215, 144, 99, 193,
        176, 17, 158, 44, 213, 103, 29, 70, 18, 120, 2, 231, 61, 50, 51, 74, 106, 247, 105, 166, 133, 205, 152, 235, 248, 71,
        139, 237, 245, 38, 170, 60, 195, 119, 142, 84, 88, 13, 25, 33, 234, 154, 223, 110, 243, 203, 164, 227, 68, 138, 58,
        146, 184, 39, 173, 26, 90, 242, 161, 89, 149, 126, 132, 80, 214, 147, 222, 219, 174, 121, 49, 220, 85, 230, 23, 15,
        111, 32, 102, 75, 35, 98, 253, 56, 186, 9, 198, 118, 91, 1, 150, 112, 187, 190, 254, 10, 197, 212, 31, 113, 181, 153,
        130, 240, 241, 155, 143, 210, 115, 228, 64, 159, 165, 114, 45, 94, 20, 221, 6, 192, 200, 92, 100, 127, 163, 179, 59,
        34, 107, 124, 206, 250, 194, 36, 217, 73, 95, 86, 239, 129, 101, 134, 47, 226, 3, 14, 255, 4, 188, 249, 122, 5, 140,
        19,
    ];
    assert_eq!(namer.val.to_vec(), val_vec);

    let team = TeamNamer::new_unchecked("z");
    let namer = Namer::new_from_team_namer_unchecked(&team, "z");

    let val_vec: Vec<u8> = vec![
        0, 68, 111, 26, 132, 249, 229, 20, 250, 160, 63, 201, 94, 3, 46, 254, 79, 204, 248, 167, 6, 228, 102, 104, 246, 183,
        37, 12, 75, 177, 140, 83, 240, 209, 124, 51, 117, 66, 251, 95, 152, 137, 33, 133, 197, 76, 70, 28, 222, 166, 99, 113,
        27, 87, 82, 161, 34, 121, 212, 141, 143, 244, 35, 169, 30, 59, 31, 47, 13, 89, 236, 86, 192, 92, 237, 231, 8, 148,
        206, 72, 194, 14, 149, 4, 50, 221, 112, 61, 71, 131, 190, 78, 90, 45, 128, 165, 198, 203, 239, 180, 118, 32, 25, 24,
        15, 10, 19, 219, 200, 88, 146, 42, 1, 208, 185, 129, 179, 225, 154, 67, 130, 168, 245, 186, 178, 188, 44, 120, 126,
        242, 110, 247, 49, 252, 211, 163, 193, 144, 241, 7, 91, 145, 199, 189, 115, 73, 226, 127, 184, 157, 138, 175, 40,
        233, 218, 58, 147, 223, 36, 21, 106, 142, 43, 65, 255, 56, 39, 125, 220, 217, 109, 23, 151, 173, 156, 224, 230, 176,
        53, 74, 158, 136, 62, 22, 119, 48, 29, 243, 52, 238, 2, 213, 77, 101, 116, 80, 114, 202, 187, 93, 54, 139, 135, 171,
        196, 84, 108, 64, 174, 38, 16, 55, 96, 234, 182, 103, 195, 207, 235, 69, 122, 97, 100, 214, 18, 232, 205, 191, 162,
        155, 57, 41, 98, 60, 123, 85, 164, 9, 81, 150, 253, 210, 227, 159, 134, 105, 107, 17, 5, 215, 153, 181, 172, 170, 11,
        216,
    ];
    assert_eq!(namer.val.to_vec(), val_vec);
}

#[test]
fn base_name_test() {
    let team = TeamNamer::new_unchecked("x");
    let mut namer = Namer::new_from_team_namer_unchecked(&team, "x");
    let base_name_vec: Vec<u8> = vec![
        53, 0, 40, 4, 58, 61, 37, 46, 56, 51, 21, 20, 27, 17, 15, 26, 13, 30, 52, 63, 36, 30, 57, 34, 22, 37, 35, 6, 12, 25,
        50, 0, 0, 0, 0, 0, 0, 0, 0, 0, 0, 0, 0, 0, 0, 0, 0, 0, 0, 0, 0, 0, 0, 0, 0, 0, 0, 0, 0, 0, 0, 0, 0, 0, 0, 0, 0, 0, 0,
        0, 0, 0, 0, 0, 0, 0, 0, 0, 0, 0, 0, 0, 0, 0, 0, 0, 0, 0, 0, 0, 0, 0, 0, 0, 0, 0, 0, 0, 0, 0, 0, 0, 0, 0, 0, 0, 0, 0,
        0, 0, 0, 0, 0, 0, 0, 0, 0, 0, 0, 0, 0, 0, 0, 0, 0, 0, 0, 0,
    ];
    let full_base_name_vec: Vec<u8> = vec![
        53, 0, 40, 4, 58, 61, 37, 46, 56, 51, 21, 20, 27, 17, 15, 26, 13, 30, 52, 63, 36, 30, 57, 34, 22, 37, 35, 6, 12, 25,
        50, 49, 59, 23, 49, 27, 51, 58, 39, 28, 60, 20, 31, 36, 41, 11, 7, 29, 24, 24, 61, 62, 57, 4, 28, 48, 55, 50, 38, 29,
        10, 40, 42, 15, 23, 47, 42, 62, 47, 1, 60, 5, 43, 21, 1, 46, 45, 9, 9, 14, 38, 13, 56, 0, 31, 59, 39, 6, 35, 41, 55,
        5, 34, 3, 7, 33, 33, 45, 16, 16, 32, 43, 18, 44, 22, 14, 17, 10, 11, 53, 18, 44, 19, 52, 2, 32, 12, 8, 2, 54, 26, 48,
        8, 3, 63, 54, 19, 25,
    ];
    assert_eq!(namer.name_base.to_vec(), base_name_vec);
    namer.update_skill();
    // update skill 之后才会是完整的 name

    assert_eq!(namer.name_base.to_vec(), full_base_name_vec);
}

#[test]
fn skill_prop_test() {
    let team = TeamNamer::new_unchecked("x");
    let mut namer = Namer::new_from_team_namer_unchecked(&team, "x");

    namer.update_skill();
    let skill_freq_vec: Vec<u8> = vec![
        13, 0, 0, 0, 0, 0, 0, 0, 6, 8, 0, 1, 0, 0, 0, 18, 0, 0, 0, 0, 0, 0, 0, 0, 0, 0, 0, 0, 0, 0, 0, 0, 0, 0, 0, 0, 0, 0,
        0, 0,
    ];
    assert_eq!(namer.skl_freq.to_vec(), skill_freq_vec);
}

#[test]
fn skill_id_test() {
    let team = TeamNamer::new_unchecked("x");
    let mut namer = Namer::new_from_team_namer_unchecked(&team, "x");

    namer.update_skill();
    let skill_id_vec: Vec<u8> = vec![
        9, 13, 12, 38, 4, 27, 26, 15, 16, 32, 24, 5, 7, 21, 18, 10, 37, 2, 6, 20, 39, 1, 14, 3, 11, 29, 22, 33, 19, 0, 30,
        31, 17, 28, 34, 35, 23, 8, 25, 36,
    ];
    assert_eq!(namer.skl_id.to_vec(), skill_id_vec);
}

#[test]
fn prop_test() {
    let team = TeamNamer::new_unchecked("x");
    let namer = Namer::new_from_team_namer_unchecked(&team, "x");

    let prop_vec: Vec<u32> = vec![344, 57, 53, 66, 72, 70, 71, 61];
    assert_eq!(namer.name_prop.to_vec(), prop_vec);
    assert_eq!(property(&namer), 564.6667_f32);
}

#[test]
fn shadow_test() {
    let name = Namer::new_unchecked("一一七啺埀㴁?shadow");
    let prop_vec: Vec<u32> = vec![240, 89, 69, 82, 65, 75, 49, 49];

    assert_eq!(name.name_prop.to_vec(), prop_vec);
    assert_eq!(property(&name), 558_f32);
}

#[test]
fn update_name_test() {
    // 先创建一个正常的 namer
    // 然后更新名字
    let team = TeamNamer::new_unchecked("shenjack");
    let mut namer = Namer::new_from_team_namer_unchecked(&team, "x");

    let update_name = "一一一丑堀㴁";
    namer.replace_name(&team, update_name);

    let mut none_update_name = Namer::new_from_team_namer_unchecked(&team, update_name);
    none_update_name.update_skill();
    namer.update_skill();

    assert_eq!(namer.name_base.to_vec(), none_update_name.name_base.to_vec());
    assert_eq!(namer.name_prop.to_vec(), none_update_name.name_prop.to_vec());
    assert_eq!(namer.val.to_vec(), none_update_name.val.to_vec());
    assert_eq!(namer.skl_id.to_vec(), none_update_name.skl_id.to_vec());
    assert_eq!(namer.skl_freq.to_vec(), none_update_name.skl_freq.to_vec());
}

#[test]
fn property_thirds_matches_total() {
    let team = TeamNamer::new_unchecked("x");
    let namer = Namer::new_from_team_namer_unchecked(&team, "x");
    // 3 * (57 + 53 + 66 + 72 + 70 + 71 + 61) + 344
    assert_eq!(namer.property_thirds(), 1694);
}

#[test]
fn fullname_shows_team_or_name() {
    let namer = Namer::new_raw("abc", "team").unwrap();
    assert_eq!(namer.get_fullname(), "abc@team");
    let namer = Namer::new_raw("abc", "").unwrap();
    assert_eq!(namer.get_fullname(), "abc@abc");
}

#[test]
fn name_without_at_is_its_own_team() {
    let namer = Namer::new(&"solo".to_string()).unwrap();
    assert_eq!(namer.name, "solo");
    assert_eq!(namer.team, "solo");
    let other = Namer::new(&"solo@solo".to_string()).unwrap();
    assert_eq!(namer.val.to_vec(), other.val.to_vec());
    assert_eq!(namer.name_prop.to_vec(), other.name_prop.to_vec());
}

#[test]
fn long_names_and_teams_are_refused() {
    let long = "a".repeat(257);
    let ok = "a".repeat(256);
    assert!(TeamNamer::new(&long).is_none());
    assert!(TeamNamer::new(&ok).is_some());
    assert!(Namer::new(&format!("{}@t", long)).is_none());
    assert!(Namer::new(&format!("t@{}", long)).is_none());
    assert!(Namer::new(&format!("{}@{}", ok, ok)).is_some());
    assert!(Namer::new_raw(&long, "t").is_none());
    assert!(Namer::new_raw("t", &long).is_none());
    let team = TeamNamer::new_unchecked("t");
    assert!(Namer::new_from_team_namer(&team, &long).is_none());
    assert!(Namer::new_from_team_namer(&team, &ok).is_some());
}

#[test]
fn checked_and_unchecked_constructors_agree() {
    let a = Namer::new_unchecked("pi31uXx@shadow");
    let b = Namer::new_raw("pi31uXx", "shadow").unwrap();
    let team = TeamNamer::new("shadow").unwrap();
    let c = Namer::new_from_team_namer(&team, "pi31uXx").unwrap();
    assert_eq!(a.val.to_vec(), b.val.to_vec());
    assert_eq!(b.val.to_vec(), c.val.to_vec());
    assert_eq!(a.name_base.to_vec(), c.name_base.to_vec());
    assert_eq!(a.name_prop.to_vec(), c.name_prop.to_vec());
}

#[test]
fn team_permutation_holds_every_byte_once() {
    let team = TeamNamer::new_unchecked("shenjack");
    let mut seen = [false; 256];
    for v in team.clone_vals().iter() {
        assert!(!seen[*v as usize]);
        seen[*v as usize] = true;
    }
    let namer = Namer::new_from_team_namer_unchecked(&team, "x");
    let mut seen = [false; 256];
    for v in namer.val.iter() {
        assert!(!seen[*v as usize]);
        seen[*v as usize] = true;
    }
}

#[test]
fn skill_levels_follow_slots() {
    let team = TeamNamer::new_unchecked("x");
    let mut namer = Namer::new_from_team_namer_unchecked(&team, "x");
    namer.update_skill();
    let levels = namer.skill_levels();
    let mut expected = [0u8; 40];
    for i in 0..40 {
        if namer.skl_freq[i] != 0 {
            expected[namer.skl_id[i] as usize] = namer.skl_freq[i];
        }
    }
    assert_eq!(levels.to_vec(), expected.to_vec());
    // slot 0 holds skill 9 at level 13, slot 15 skill 10 at level 18
    assert_eq!(levels[9], 13);
    assert_eq!(levels[10], 18);
}

#[test]
fn skill_update_permutes_the_skills() {
    let team = TeamNamer::new_unchecked("shenjack");
    let mut namer = Namer::new_from_team_namer_unchecked(&team, "一一七啺埀㴁");
    namer.update_skill();
    let mut ids = namer.skl_id.to_vec();
    ids.sort();
    assert_eq!(ids, (0..40u8).collect::<Vec<u8>>());
    assert!(namer.name_base.iter().all(|b| *b < 64));
}

#[test]
fn replace_name_reports_the_screen() {
    let team = TeamNamer::new_unchecked("shenjack");
    let mut namer = Namer::new_from_team_namer_unchecked(&team, "x");
    let passed = namer.replace_name(&team, "一一一丑堀㴁");
    let fresh = Namer::new_from_team_namer_unchecked(&team, "一一一丑堀㴁");
    let p = &fresh.name_prop;
    let m = |k: usize| p[k] - 36;
    let stage1 = m(7) >= 24;
    let stage2 = m(7) + m(2) + m(3) + m(6) >= 165;
    let sum = m(7) + m(2) + m(3) + m(6) + m(1) + m(4) + m(5);
    let stage3 = sum >= 250;
    let stage4 = sum + p[0] / 3 + 154 >= 380;
    assert_eq!(passed, stage1 && stage2 && stage3 && stage4);
    assert_eq!(namer.val.to_vec(), fresh.val.to_vec());
    assert_eq!(namer.name_prop[7], fresh.name_prop[7]);
    assert_eq!(namer.name_base[..31].to_vec(), fresh.name_base[..31].to_vec());
}

#[test]
fn info_lines_of_a_name() {
    let team = TeamNamer::new_unchecked("x");
    let mut namer = Namer::new_from_team_namer_unchecked(&team, "x");
    namer.update_skill();
    let total = format!("{}", property(&namer));
    assert_eq!(total, "564.6667");
    assert_eq!(
        namer.get_info(&total),
        "name: x, team: x HP|344 攻|57 防|53 速|66 敏|72 魔|70 抗|71 智|61 八围:564.6667|投毒: 1|命轮: 13|狂暴: 18|苏生: 6|亡灵: 8|"
    );
    assert_eq!(
        namer.get_info_csv(&total),
        "x,x,344,57,53,66,72,70,71,61,564.6667,投毒-1,命轮-13,狂暴-18,苏生-6,亡灵-8,"
    );
}

#[test]
fn info_line_without_skills() {
    let team = TeamNamer::new_unchecked("x");
    let namer = Namer::new_from_team_namer_unchecked(&team, "x");
    assert_eq!(namer.get_info("0"), "name: x, team: x HP|344 攻|57 防|53 速|66 敏|72 魔|70 抗|71 智|61 八围:0|");
    assert_eq!(namer.get_info_csv("0"), "x,x,344,57,53,66,72,70,71,61,0,");
}

#[test]
fn attributes_stay_in_range() {
    let team = TeamNamer::new_unchecked("range");
    for i in 0..200u32 {
        let name = format!("n{}", i);
        let namer = Namer::new_from_team_namer_unchecked(&team, &name);
        assert!(namer.name_prop[0] >= 154 && namer.name_prop[0] <= 406);
        for k in 1..8 {
            assert!(namer.name_prop[k] >= 36 && namer.name_prop[k] <= 99);
        }
    }
}

#[test]
fn failed_screen_keeps_the_old_attributes() {
    let team = TeamNamer::new_unchecked("shenjack");
    let mut namer = Namer::new_from_team_namer_unchecked(&team, "x");
    assert_eq!(namer.name_prop.to_vec(), vec![269, 74, 86, 50, 52, 47, 97, 57]);
    // the first check fails for "a": only attribute 7 is recomputed
    assert!(!namer.replace_name(&team, "a"));
    assert_eq!(namer.name_prop.to_vec(), vec![269, 74, 86, 50, 52, 47, 97, 51]);
    let fresh = Namer::new_from_team_namer_unchecked(&team, "a");
    assert_eq!(fresh.name_prop.to_vec(), vec![305, 63, 86, 62, 64, 54, 72, 51]);
    assert_eq!(namer.val.to_vec(), fresh.val.to_vec());
}

#[test]
fn updated_base_values_hold_each_value_twice() {
    for (team, name) in [("x", "x"), ("shenjack", "一一七啺埀㴁"), ("t", "abc")] {
        let team = TeamNamer::new_unchecked(team);
        let mut namer = Namer::new_from_team_namer_unchecked(&team, name);
        let before = namer.skl_freq;
        namer.update_skill();
        let mut counts = [0u32; 64];
        for b in namer.name_base.iter() {
            counts[*b as usize] += 1;
        }
        assert!(counts.iter().all(|c| *c == 2));
        for j in 0..16 {
            if namer.skl_id[j] >= 35 {
                assert_eq!(namer.skl_freq[j], 0);
            }
        }
        assert_eq!(namer.skl_freq[16..].to_vec(), before[16..].to_vec());
    }
}

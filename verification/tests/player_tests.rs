use tswn::engine::PlayerGroup;
use tswn::player::{filter_char, Player, PlayerStatus, PlayerType};
use tswn::rc4::RC4;

#[test]
fn player_raw_new() {
    let player = Player::new_from_namerena_raw("mario".to_string());
    assert_eq!(player.name, "mario");
    assert_eq!(player.team, "mario");
    assert_eq!(player.weapon, None);
    assert_eq!(player.player_type, PlayerType::Normal);

    let player = Player::new_from_namerena_raw("mario@red".to_string());
    println!("{}", player.to_text());
    assert_eq!(player.name, "mario");
    assert_eq!(player.team, "red");
    assert_eq!(player.weapon, None);
    assert_eq!(player.player_type, PlayerType::Normal);

    let player = Player::new_from_namerena_raw("mario+fire".to_string());
    assert_eq!(player.name, "mario");
    assert_eq!(player.team, "mario");
    assert_eq!(player.weapon, Some("fire".to_string()));
    assert_eq!(player.player_type, PlayerType::Normal);

    let player = Player::new_from_namerena_raw("mario+fire+diy{xxxx}".to_string());
    assert_eq!(player.name, "mario");
    assert_eq!(player.team, "mario");
    assert_eq!(player.weapon, Some("fire+diy{xxxx}".to_string()));
    assert_eq!(player.player_type, PlayerType::Normal);

    let player = Player::new_from_namerena_raw("mario@red+fire".to_string());
    assert_eq!(player.name, "mario");
    assert_eq!(player.team, "red");
    assert_eq!(player.weapon, Some("fire".to_string()));
    assert_eq!(player.player_type, PlayerType::Normal);

    let player = Player::new_from_namerena_raw("mario@red+fire+diy{xxxx}".to_string());
    assert_eq!(player.name, "mario");
    assert_eq!(player.team, "red");
    assert_eq!(player.weapon, Some("fire+diy{xxxx}".to_string()));
    assert_eq!(player.player_type, PlayerType::Normal);
}

#[test]
fn player_raw_types() {
    let player = Player::new_from_namerena_raw("normal@normal".to_string());
    assert_eq!(player.player_type, PlayerType::Normal);

    // seed
    let player = Player::new_from_namerena_raw("seed:just seed@!".to_string());
    assert_eq!(player.name, "seed:just seed");
    assert_eq!(player.player_type, PlayerType::Seed);

    // testEx
    let player = Player::new_from_namerena_raw("testEx@!".to_string());
    assert_eq!(player.player_type, PlayerType::TestEx);

    // test1
    let player = Player::new_from_namerena_raw("test1@\u{0002}".to_string());
    assert_eq!(player.team, "\u{0002}".to_string());
    assert_eq!(player.player_type, PlayerType::Test1);

    // test2
    let player = Player::new_from_namerena_raw("test2@\u{0003}".to_string());
    assert_eq!(player.team, "\u{0003}".to_string());
    assert_eq!(player.player_type, PlayerType::Test2);

    // boss
    let player = Player::new_from_namerena_raw("mario@!".to_string());
    assert_eq!(player.player_type, PlayerType::Boss);

    // boosted
    let player = Player::new_from_namerena_raw("云剑狄卡敢@!".to_string());
    assert_eq!(player.player_type, PlayerType::Boost);
}

#[test]
fn blank_characters() {
    for c in ['\t', '\n', '\u{b}', '\u{c}', '\r', ' ', '\u{85}', '\u{a0}', '\u{1680}', '\u{2000}',
        '\u{2009}', '\u{200a}', '\u{2028}', '\u{2029}', '\u{202f}', '\u{205f}', '\u{3000}', '\u{feff}'] {
        assert!(filter_char(c), "{:?}", c);
    }
    for c in ['\u{8}', '\u{e}', 'a', '\u{200b}', '\u{2027}', '\u{202a}', '名'] {
        assert!(!filter_char(c), "{:?}", c);
    }
}

#[test]
fn player_types_of_special_teams() {
    let p = Player::new("!".to_string(), "seed:x".to_string(), None);
    assert_eq!(p.player_type, PlayerType::Seed);
    let p = Player::new("red".to_string(), "seed:x".to_string(), Some("sword".to_string()));
    assert_eq!(p.player_type, PlayerType::Seed);
    assert_eq!(p.weapon, Some("sword".to_string()));
    let p = Player::new("!".to_string(), "田一人".to_string(), None);
    assert_eq!(p.player_type, PlayerType::Boost);
    let p = Player::new("!".to_string(), "saitama".to_string(), None);
    assert_eq!(p.player_type, PlayerType::Boss);
    let p = Player::new("red".to_string(), "saitama".to_string(), None);
    assert_eq!(p.player_type, PlayerType::Normal);
    assert!(p.skil_id.is_empty() && p.skil_prop.is_empty());
    assert!(p.status.alive && !p.status.frozen && p.status.hp == 0 && p.status.point == 0);
}

#[test]
fn raw_input_edge_cases() {
    let p = Player::new_from_namerena_raw("a@b@c".to_string());
    assert_eq!(p.name, "a");
    assert_eq!(p.team, "b@c");
    let p = Player::new_from_namerena_raw("@".to_string());
    assert_eq!(p.name, "");
    assert_eq!(p.team, "");
    let p = Player::new_from_namerena_raw("".to_string());
    assert_eq!(p.name, "");
    assert_eq!(p.team, "");
    assert_eq!(p.weapon, None);
    let p = Player::new_from_namerena_raw("a+".to_string());
    assert_eq!(p.weapon, Some("".to_string()));
}

#[test]
fn status_default_and_no_op_steps() {
    let s = PlayerStatus::default();
    assert!(!s.frozen && s.alive && s.hp == 0 && s.point == 0);
    assert_eq!(PlayerType::default(), PlayerType::Normal);
    let mut p = Player::new_from_namerena_raw("mario@red".to_string());
    let mut rc4 = RC4::new(b"k".to_vec(), None);
    p.update_player();
    p.step(&mut rc4);
    assert_eq!(p.name, "mario");
    assert_eq!(p.team, "red");
    let mut fresh = RC4::new(b"k".to_vec(), None);
    assert_eq!(rc4.next_u8(), fresh.next_u8());
}

#[test]
fn group_reads_one_player_per_line() {
    let group = PlayerGroup::new_from_namerena_raw("mario@red\nluigi@red+fire\n\nseed:s@!".to_string());
    assert_eq!(group.players.len(), 3);
    assert_eq!(group.players[0].name, "mario");
    assert_eq!(group.players[1].weapon, Some("fire".to_string()));
    assert_eq!(group.players[2].name, "seed:s");
    assert_eq!(group.players[2].player_type, PlayerType::Seed);
    let group = PlayerGroup::new_from_namerena_raw("a\n\nb\n".to_string());
    assert_eq!(group.players.len(), 2);
    assert_eq!(group.players[0].name, "a");
    assert_eq!(group.players[1].name, "b");
    let group = PlayerGroup::new_from_namerena_raw("solo".to_string());
    assert_eq!(group.players.len(), 1);
    assert_eq!(group.players[0].team, "solo");
    assert_eq!(PlayerGroup::new_from_namerena_raw(String::new()).players.len(), 0);
}

#[test]
fn player_and_status_text() {
    let player = Player::new_from_namerena_raw("mario@red+fire".to_string());
    assert_eq!(player.to_text(), "Player{mario@red+fire, status: PlayerStatus{正常,存货 hp: 0, point: 0 }}");
    let player = Player::new_from_namerena_raw("mario".to_string());
    assert_eq!(player.to_text(), "Player{mario@mario, status: PlayerStatus{正常,存货 hp: 0, point: 0 }}");
    let status = PlayerStatus { frozen: true, alive: false, hp: 1205, point: 90 };
    assert_eq!(status.to_text(), "PlayerStatus{冻结,死亡 hp: 1205, point: 90 }");
    let status = PlayerStatus { frozen: false, alive: true, hp: u32::MAX, point: 10 };
    assert_eq!(status.to_text(), "PlayerStatus{正常,存货 hp: 4294967295, point: 10 }");
}

//! The players of a battle: how a player is read from its raw input and
//! what kind of player it is.
use vstd::prelude::*;
use crate::rc4::RC4;
use crate::text::{owned, split_once_char, split_once_spec, starts_with_text, text_eq};
use crate::decimal::{decimal, push_decimal};

verus! {

/// The state of a player during a battle.
#[derive(Debug)]
pub struct PlayerStatus {
    /// Frozen.
    pub frozen: bool,
    /// Alive.
    pub alive: bool,
    /// Hit points.
    pub hp: u32,
    /// Score.
    pub point: u32,
}

impl Default for PlayerStatus {
    /// Not frozen, alive, no hit points, no score.
    fn default() -> (r: Self)
        ensures
            !r.frozen,
            r.alive,
            r.hp == 0,
            r.point == 0,
    {
        PlayerStatus { frozen: false, alive: true, hp: 0, point: 0 }
    }
}

/// The text of a player's state: `PlayerStatus{F,A hp: H, point: P }`, with
/// `冻结` (frozen) or `正常` for `F` and `存货` (alive) or `死亡` for `A`.
pub open spec fn status_text(s: PlayerStatus) -> Seq<char> {
    "PlayerStatus{"@ + (if s.frozen {
        "冻结"@
    } else {
        "正常"@
    }) + ","@ + (if s.alive {
        "存货"@
    } else {
        "死亡"@
    }) + " hp: "@ + decimal(s.hp as nat) + ", point: "@ + decimal(s.point as nat) + " }"@
}

impl PlayerStatus {
    /// The state as text.
    pub fn to_text(&self) -> (r: String)
        ensures
            r@ == status_text(*self),
    {
        let mut r = String::new();
        r.append("PlayerStatus{");
        if self.frozen {
            r.append("冻结");
        } else {
            r.append("正常");
        }
        r.append(",");
        if self.alive {
            r.append("存货");
        } else {
            r.append("死亡");
        }
        r.append(" hp: ");
        push_decimal(&mut r, self.hp);
        r.append(", point: ");
        push_decimal(&mut r, self.point);
        r.append(" }");
        assert(r@ =~= status_text(*self));
        r
    }
}

/// The kinds of players.
#[derive(PartialEq, Eq, Structural, Debug, Clone, Copy)]
pub enum PlayerType {
    /// An ordinary player.
    Normal,
    /// A seeded player (its name starts with `seed:`).
    Seed,
    /// A cloned player.
    Clone,
    /// A boss.
    Boss,
    /// A specially strengthened player.
    Boost,
    /// The standard test target (team `\u{2}`).
    Test1,
    /// The unused test player (team `\u{3}`).
    Test2,
    /// The stronger test target (team `!`).
    TestEx,
}

impl Default for PlayerType {
    /// An ordinary player.
    fn default() -> (r: Self)
        ensures
            r == PlayerType::Normal,
    {
        PlayerType::Normal
    }
}

/// The code points taken for blank (the invisible characters): 9 to 13, 32,
/// 133, 160, 5760, 8192 to 8202, 8232, 8233, 8239, 8287, 12288 and 65279.
pub open spec fn is_blank_code(c: u32) -> bool {
    (9 <= c <= 13) || c == 32 || c == 133 || c == 160 || c == 5760 || (8192 <= c <= 8202) || c
        == 8232 || c == 8233 || c == 8239 || c == 8287 || c == 12288 || c == 65279
}

/// The character is one of the blanks of `is_blank_code`.
pub fn filter_char(s: char) -> (r: bool)
    ensures
        r == is_blank_code(s as u32),
{
    let c = s as u32;
    (9 <= c && c <= 13) || c == 32 || c == 133 || c == 160 || c == 5760 || (8192 <= c && c
        <= 8202) || c == 8232 || c == 8233 || c == 8239 || c == 8287 || c == 12288 || c == 65279
}

/// The names of the bosses.
pub open spec fn boss_names() -> Seq<Seq<char>> {
    seq![
        "mario"@,
        "sonic"@,
        "mosquito"@,
        "yuri"@,
        "slime"@,
        "ikaruga"@,
        "conan"@,
        "aokiji"@,
        "lazy"@,
        "covid"@,
        "saitama"@,
    ]
}

/// The names of the strengthened players.
pub open spec fn boost_names() -> Seq<Seq<char>> {
    seq!["云剑狄卡敢"@, "云剑穸跄祇"@, "田一人"@]
}

/// `name` starts with `seed:`.
pub open spec fn is_seed_name(name: Seq<char>) -> bool {
    "seed:"@.len() <= name.len() && name.take("seed:"@.len() as int) == "seed:"@
}

/// The kind of the player `name` of the team `team`: in the team `!` a boss,
/// a strengthened player, a seeded player or else the stronger test target;
/// the teams `\u{2}` and `\u{3}` are the two test players; elsewhere a seeded
/// or an ordinary player.
pub open spec fn player_type_of(team: Seq<char>, name: Seq<char>) -> PlayerType {
    if team == "!"@ {
        if boss_names().contains(name) {
            PlayerType::Boss
        } else if boost_names().contains(name) {
            PlayerType::Boost
        } else if is_seed_name(name) {
            PlayerType::Seed
        } else {
            PlayerType::TestEx
        }
    } else if team == "\u{0002}"@ {
        PlayerType::Test1
    } else if team == "\u{0003}"@ {
        PlayerType::Test2
    } else if is_seed_name(name) {
        PlayerType::Seed
    } else {
        PlayerType::Normal
    }
}

/// `name` is the name of a boss.
fn is_boss_name(name: &str) -> (r: bool)
    ensures
        r == boss_names().contains(name@),
{
    let b = text_eq(name, "mario") || text_eq(name, "sonic") || text_eq(name, "mosquito")
        || text_eq(name, "yuri") || text_eq(name, "slime") || text_eq(name, "ikaruga")
        || text_eq(name, "conan") || text_eq(name, "aokiji") || text_eq(name, "lazy")
        || text_eq(name, "covid") || text_eq(name, "saitama");
    proof {
        let l = boss_names();
        if b {
            assert(exists|i: int| 0 <= i < l.len() && l[i] == name@) by {
                if name@ == "mario"@ {
                    assert(l[0] == name@);
                } else if name@ == "sonic"@ {
                    assert(l[1] == name@);
                } else if name@ == "mosquito"@ {
                    assert(l[2] == name@);
                } else if name@ == "yuri"@ {
                    assert(l[3] == name@);
                } else if name@ == "slime"@ {
                    assert(l[4] == name@);
                } else if name@ == "ikaruga"@ {
                    assert(l[5] == name@);
                } else if name@ == "conan"@ {
                    assert(l[6] == name@);
                } else if name@ == "aokiji"@ {
                    assert(l[7] == name@);
                } else if name@ == "lazy"@ {
                    assert(l[8] == name@);
                } else if name@ == "covid"@ {
                    assert(l[9] == name@);
                } else {
                    assert(l[10] == name@);
                }
            }
        }
    }
    b
}

/// `name` is the name of a strengthened player.
fn is_boost_name(name: &str) -> (r: bool)
    ensures
        r == boost_names().contains(name@),
{
    let b = text_eq(name, "云剑狄卡敢") || text_eq(name, "云剑穸跄祇") || text_eq(name, "田一人");
    proof {
        let l = boost_names();
        if b {
            assert(exists|i: int| 0 <= i < l.len() && l[i] == name@) by {
                if name@ == "云剑狄卡敢"@ {
                    assert(l[0] == name@);
                } else if name@ == "云剑穸跄祇"@ {
                    assert(l[1] == name@);
                } else {
                    assert(l[2] == name@);
                }
            }
        }
    }
    b
}

/// The kind of the player `name` of the team `team`.
fn player_type(team: &str, name: &str) -> (r: PlayerType)
    ensures
        r == player_type_of(team@, name@),
{
    if text_eq(team, "!") {
        if is_boss_name(name) {
            PlayerType::Boss
        } else if is_boost_name(name) {
            PlayerType::Boost
        } else if starts_with_text(name, "seed:") {
            PlayerType::Seed
        } else {
            PlayerType::TestEx
        }
    } else if text_eq(team, "\u{0002}") {
        PlayerType::Test1
    } else if text_eq(team, "\u{0003}") {
        PlayerType::Test2
    } else if starts_with_text(name, "seed:") {
        PlayerType::Seed
    } else {
        PlayerType::Normal
    }
}

/// A player: its team, name and weapon, its kind, its skills and its state.
#[derive(Debug)]
pub struct Player {
    /// The team.
    pub team: String,
    /// The name.
    pub name: String,
    /// The weapon, if any.
    pub weapon: Option<String>,
    /// The kind of player.
    pub player_type: PlayerType,
    /// The skill ids.
    pub skil_id: Vec<u32>,
    /// The skill levels.
    pub skil_prop: Vec<u32>,
    /// The battle state.
    pub status: PlayerStatus,
}

/// The weapon text `w` of a player, if it has one, is `spec`.
pub open spec fn weapon_is(w: Option<String>, spec: Option<Seq<char>>) -> bool {
    match (w, spec) {
        (Some(a), Some(b)) => a@ == b,
        (None, None) => true,
        _ => false,
    }
}

/// `p` is the fresh player `name` of the team `team` with the weapon `weapon`.
pub open spec fn is_new_player(p: Player, team: Seq<char>, name: Seq<char>, weapon: Option<Seq<char>>) -> bool {
    &&& p.team@ == team
    &&& p.name@ == name
    &&& weapon_is(p.weapon, weapon)
    &&& p.player_type == player_type_of(team, name)
    &&& p.skil_id@.len() == 0
    &&& p.skil_prop@.len() == 0
    &&& !p.status.frozen
    &&& p.status.alive
    &&& p.status.hp == 0
    &&& p.status.point == 0
}

/// The team, the name and the weapon of a raw player input: `name`,
/// `name@team`, `name+weapon` or `name@team+weapon` (the weapon runs to the
/// end and may hold `+`); without a team the name is also the team.
pub open spec fn raw_parts(raw: Seq<char>) -> (Seq<char>, Seq<char>, Option<Seq<char>>) {
    match split_once_spec(raw, '@') {
        Some((name, rest)) => match split_once_spec(rest, '+') {
            Some((team, weapon)) => (team, name, Some(weapon)),
            None => (rest, name, None),
        },
        None => match split_once_spec(raw, '+') {
            Some((name, weapon)) => (name, name, Some(weapon)),
            None => (raw, raw, None),
        },
    }
}

/// `p` is the player read from the raw input `raw`.
pub open spec fn is_raw_player(p: Player, raw: Seq<char>) -> bool {
    let (team, name, weapon) = raw_parts(raw);
    is_new_player(p, team, name, weapon)
}

/// The text of a player: `Player{name@team+weapon, status: S}` (without
/// `+weapon` when it has none), `S` the text of its state.
pub open spec fn player_text(p: Player) -> Seq<char> {
    "Player{"@ + p.name@ + "@"@ + p.team@ + (match p.weapon {
        Some(w) => "+"@ + w@,
        None => Seq::empty(),
    }) + ", status: "@ + status_text(p.status) + "}"@
}

impl Player {
    /// The fresh player `name` of the team `team` with the weapon `weapon`.
    pub fn new(team: String, name: String, weapon: Option<String>) -> (r: Self)
        ensures
            is_new_player(
                r,
                team@,
                name@,
                match weapon {
                    Some(w) => Some(w@),
                    None => None,
                },
            ),
    {
        let player_type = player_type(team.as_str(), name.as_str());
        Player {
            team,
            name,
            weapon,
            player_type,
            skil_id: Vec::new(),
            skil_prop: Vec::new(),
            status: PlayerStatus::default(),
        }
    }

    /// The player of a raw input line: `name`, `name@team`, `name+weapon`,
    /// `name+weapon+diy{...}`, `name@team+weapon` or
    /// `name@team+weapon+diy{...}`.
    pub fn new_from_namerena_raw(raw_name: String) -> (r: Self)
        ensures
            is_raw_player(r, raw_name@),
    {
        let raw = raw_name.as_str();
        match split_once_char(raw, '@') {
            Some((name, rest)) => match split_once_char(rest, '+') {
                Some((team, weapon)) => Player::new(owned(team), owned(name), Some(owned(weapon))),
                None => Player::new(owned(rest), owned(name), None),
            },
            None => match split_once_char(raw, '+') {
                Some((name, weapon)) => Player::new(owned(name), owned(name), Some(owned(weapon))),
                None => Player::new(owned(raw), owned(raw), None),
            },
        }
    }

    /// The player as text.
    pub fn to_text(&self) -> (r: String)
        ensures
            r@ == player_text(*self),
    {
        let mut r = String::new();
        r.append("Player{");
        r.append(self.name.as_str());
        r.append("@");
        r.append(self.team.as_str());
        match &self.weapon {
            Some(w) => {
                r.append("+");
                r.append(w.as_str());
            },
            None => {},
        }
        r.append(", status: ");
        let st = self.status.to_text();
        r.append(st.as_str());
        r.append("}");
        assert(r@ =~= player_text(*self));
        r
    }

    /// Updates the player between rounds: nothing changes yet.
    pub fn update_player(&mut self)
        ensures
            *final(self) == *old(self),
    {
    }

    /// Plays the player's turn with the generator `randomer`: nothing
    /// changes yet.
    pub fn step(&mut self, randomer: &mut RC4)
        ensures
            *final(self) == *old(self),
            *final(randomer) == *old(randomer),
    {
    }
}


/// In the team `!`, each of the eleven bosses mario, sonic, mosquito, yuri,
/// slime, ikaruga, conan, aokiji, lazy, covid and saitama is a boss.
pub proof fn lemma_boss_players()
    ensures
        player_type_of("!"@, "mario"@) == PlayerType::Boss,
        player_type_of("!"@, "sonic"@) == PlayerType::Boss,
        player_type_of("!"@, "mosquito"@) == PlayerType::Boss,
        player_type_of("!"@, "yuri"@) == PlayerType::Boss,
        player_type_of("!"@, "slime"@) == PlayerType::Boss,
        player_type_of("!"@, "ikaruga"@) == PlayerType::Boss,
        player_type_of("!"@, "conan"@) == PlayerType::Boss,
        player_type_of("!"@, "aokiji"@) == PlayerType::Boss,
        player_type_of("!"@, "lazy"@) == PlayerType::Boss,
        player_type_of("!"@, "covid"@) == PlayerType::Boss,
        player_type_of("!"@, "saitama"@) == PlayerType::Boss,
{
    let l = boss_names();
    assert(l[0] == "mario"@);
    assert(l[1] == "sonic"@);
    assert(l[2] == "mosquito"@);
    assert(l[3] == "yuri"@);
    assert(l[4] == "slime"@);
    assert(l[5] == "ikaruga"@);
    assert(l[6] == "conan"@);
    assert(l[7] == "aokiji"@);
    assert(l[8] == "lazy"@);
    assert(l[9] == "covid"@);
    assert(l[10] == "saitama"@);
}


/// In the team `!`, each of the three strengthened names 云剑狄卡敢,
/// 云剑穸跄祇 and 田一人 is a strengthened player.
pub proof fn lemma_boost_players()
    ensures
        player_type_of("!"@, "云剑狄卡敢"@) == PlayerType::Boost,
        player_type_of("!"@, "云剑穸跄祇"@) == PlayerType::Boost,
        player_type_of("!"@, "田一人"@) == PlayerType::Boost,
{
    reveal_strlit("mario");
    reveal_strlit("sonic");
    reveal_strlit("mosquito");
    reveal_strlit("yuri");
    reveal_strlit("slime");
    reveal_strlit("ikaruga");
    reveal_strlit("conan");
    reveal_strlit("aokiji");
    reveal_strlit("lazy");
    reveal_strlit("covid");
    reveal_strlit("saitama");
    reveal_strlit("云剑狄卡敢");
    reveal_strlit("云剑穸跄祇");
    reveal_strlit("田一人");
    reveal_strlit("!");
    let l = boost_names();
    assert(l[0] == "云剑狄卡敢"@);
    assert(l[1] == "云剑穸跄祇"@);
    assert(l[2] == "田一人"@);
    let b = boss_names();
    assert forall|i: int| 0 <= i < b.len() implies b[i][0] != '云' && b[i][0] != '田' by {
        assert(b[i] == seq![
            "mario"@,
            "sonic"@,
            "mosquito"@,
            "yuri"@,
            "slime"@,
            "ikaruga"@,
            "conan"@,
            "aokiji"@,
            "lazy"@,
            "covid"@,
            "saitama"@,
        ][i]);
    }
    assert(!b.contains("云剑狄卡敢"@));
    assert(!b.contains("云剑穸跄祇"@));
    assert(!b.contains("田一人"@));
}

} // verus!

use pac_agent::pac::{PacKind, PacProperties};
use pac_agent::pellet::Pellet;
use pac_agent::store::PacSighting;
use pac_agent::world::{CellType, LoadError, Team, WorldModel};

fn load(rows: &[&str]) -> WorldModel {
    let width = rows[0].len() as isize;
    let height = rows.len() as isize;
    let bytes: Vec<Vec<u8>> = rows.iter().map(|r| r.as_bytes().to_vec()).collect();
    WorldModel::from_rows(width, height, &bytes).expect("valid map")
}

fn props(x: isize, y: isize) -> PacProperties {
    PacProperties::new(PacKind::Rock, (x, y), 0, 0)
}

#[test]
fn cell_type_from_marker_bytes() {
    assert_eq!(CellType::try_from(b'#'), Some(CellType::Wall));
    assert_eq!(CellType::try_from(b' '), Some(CellType::Floor));
    assert_eq!(CellType::try_from(b'.'), None);
    assert_eq!(CellType::try_from(b'\n'), None);
}

#[test]
fn pac_kind_from_tokens() {
    assert_eq!(PacKind::try_from("ROCK"), Some(PacKind::Rock));
    assert_eq!(PacKind::try_from("PAPER"), Some(PacKind::Paper));
    assert_eq!(PacKind::try_from("SCISSORS"), Some(PacKind::Scissors));
    assert_eq!(PacKind::try_from("rock"), None);
    assert_eq!(PacKind::try_from("ROCKS"), None);
    assert_eq!(PacKind::try_from(""), None);
}

#[test]
fn asymmetric_grid_is_row_major() {
    let wm = load(&["#  #", "  ##"]);
    assert_eq!(*wm.kind((0, 0)), CellType::Wall);
    assert_eq!(*wm.kind((1, 0)), CellType::Floor);
    assert_eq!(*wm.kind((3, 0)), CellType::Wall);
    assert_eq!(*wm.kind((0, 1)), CellType::Floor);
    assert_eq!(*wm.kind((2, 1)), CellType::Wall);
    assert_eq!(*wm.kind((3, 1)), CellType::Wall);
}

#[test]
fn load_rejects_bad_dimensions() {
    let rows: Vec<Vec<u8>> = vec![b"   ".to_vec()];
    assert_eq!(WorldModel::from_rows(0, 1, &rows).err(), Some(LoadError::BadDimensions));
    assert_eq!(WorldModel::from_rows(3, 2, &rows).err(), Some(LoadError::BadDimensions));
    assert_eq!(WorldModel::from_rows(3, -1, &rows).err(), Some(LoadError::BadDimensions));
}

#[test]
fn load_rejects_short_row() {
    let rows: Vec<Vec<u8>> = vec![b"   ".to_vec(), b"  ".to_vec()];
    assert_eq!(WorldModel::from_rows(3, 2, &rows).err(), Some(LoadError::BadRowLength(1)));
}

#[test]
fn load_rejects_unknown_marker() {
    let rows: Vec<Vec<u8>> = vec![b"   ".to_vec(), b" x ".to_vec()];
    assert_eq!(WorldModel::from_rows(3, 2, &rows).err(), Some(LoadError::UnknownCell(1, 1)));
}

#[test]
fn new_world_is_empty() {
    let wm = WorldModel::new((2, 1), vec![CellType::Floor, CellType::Wall]);
    assert_eq!(wm.turn(), 0);
    assert_eq!(wm.turn_start(), None);
    assert!(wm.get_pellets().is_empty());
    assert!(wm.get_team_pacs().is_empty());
    assert_eq!(*wm.kind((1, 0)), CellType::Wall);
}

#[test]
fn neighbors_in_fixed_order() {
    let wm = load(&["   ", "   ", "   "]);
    assert_eq!(wm.neighbors((1, 1)), vec![(0, 1), (1, 0), (2, 1), (1, 2)]);
}

#[test]
fn neighbors_skip_walls() {
    let wm = load(&[" # ", "#  ", "   "]);
    assert_eq!(wm.neighbors((1, 1)), vec![(2, 1), (1, 2)]);
}

#[test]
fn neighbors_are_few_distinct_floor_and_in_bounds() {
    let wm = load(&["# ## ", "     ", " #  #", "  #  "]);
    for y in 0..4isize {
        for x in 0..5isize {
            let ns = wm.neighbors((x, y));
            assert!(ns.len() <= 4);
            for (i, n) in ns.iter().enumerate() {
                assert!(n.0 >= 0 && n.0 < 5 && n.1 >= 0 && n.1 < 4);
                assert_eq!(*wm.kind(*n), CellType::Floor);
                for m in ns.iter().skip(i + 1) {
                    assert_ne!(n, m);
                }
            }
        }
    }
}

#[test]
fn neighbors_wrap_around_edges() {
    let wm = load(&["    ", "    ", "    "]);
    let ns = wm.neighbors((0, 0));
    assert!(ns.contains(&(3, 0)));
    assert!(ns.contains(&(0, 2)));
    assert_eq!(ns, vec![(3, 0), (0, 2), (1, 0), (0, 1)]);
    assert_eq!(wm.neighbors((3, 2)), vec![(2, 2), (3, 1), (0, 2), (3, 0)]);
}

#[test]
fn upsert_twice_keeps_one_record_with_latest_properties() {
    let mut wm = load(&["     "]);
    wm.upsert_unit(Team::Us, 7, props(1, 0));
    wm.upsert_unit(Team::Us, 7, props(3, 0));
    let mine = wm.get_team_pacs();
    assert_eq!(mine.len(), 1);
    assert_eq!(mine[0].id(), 7);
    assert_eq!(mine[0].pos(), (3, 0));
    assert_eq!(wm.pacs.len(), 1);
}

#[test]
fn upsert_keeps_teams_apart() {
    let mut wm = load(&["     "]);
    wm.upsert_unit(Team::Us, 0, props(0, 0));
    wm.upsert_unit(Team::Opp, 0, props(4, 0));
    wm.upsert_unit(Team::Us, 1, props(2, 0));
    let mine = wm.get_team_pacs();
    assert_eq!(mine.len(), 2);
    assert_eq!(mine[0].id(), 0);
    assert_eq!(mine[0].pos(), (0, 0));
    assert_eq!(mine[1].id(), 1);
    assert_eq!(mine[1].team(), Team::Us);
    assert_eq!(wm.pacs.len(), 3);
}

#[test]
fn replace_pellets_is_total() {
    let mut wm = load(&["     "]);
    wm.replace_pellets(vec![Pellet::new((0, 0), 1), Pellet::new((1, 0), 1)]);
    assert!(wm.pellet_at((0, 0)).is_some());
    wm.replace_pellets(vec![Pellet::new((2, 0), 10)]);
    assert!(wm.pellet_at((0, 0)).is_none());
    assert!(wm.pellet_at((1, 0)).is_none());
    assert_eq!(wm.pellet_at((2, 0)).map(|p| p.value()), Some(10));
    assert_eq!(wm.get_pellets().len(), 1);
}

#[test]
fn replace_pellets_last_duplicate_wins() {
    let mut wm = load(&["     "]);
    wm.replace_pellets(vec![Pellet::new((1, 0), 1), Pellet::new((3, 0), 1), Pellet::new((1, 0), 10)]);
    assert_eq!(wm.get_pellets().len(), 2);
    assert_eq!(wm.pellet_at((1, 0)).map(|p| p.value()), Some(10));
    assert_eq!(wm.pellet_at((3, 0)).map(|p| p.pos()), Some((3, 0)));
}

#[test]
fn replace_pellets_with_nothing() {
    let mut wm = load(&["     "]);
    wm.replace_pellets(vec![Pellet::new((1, 0), 1)]);
    wm.replace_pellets(Vec::new());
    assert!(wm.pellet_at((1, 0)).is_none());
    assert!(wm.get_pellets().is_empty());
}

#[test]
fn apply_turn_updates_everything() {
    let mut wm = load(&["     "]);
    let seen = vec![
        PacSighting { id: 0, mine: true, prop: props(0, 0) },
        PacSighting { id: 0, mine: false, prop: props(4, 0) },
    ];
    wm.apply_turn(5, 7, &seen, vec![Pellet::new((2, 0), 1)], 1000);
    assert_eq!(wm.turn(), 1);
    assert_eq!(wm.turn_start(), Some(1000));
    assert_eq!(wm.my_score, 5);
    assert_eq!(wm.opp_score, 7);
    assert_eq!(wm.pacs.len(), 2);
    assert!(wm.pellet_at((2, 0)).is_some());

    let seen = vec![PacSighting { id: 0, mine: true, prop: props(1, 0) }];
    wm.apply_turn(6, 7, &seen, vec![Pellet::new((3, 0), 1)], 2000);
    assert_eq!(wm.turn(), 2);
    assert_eq!(wm.turn_start(), Some(2000));
    assert_eq!(wm.pacs.len(), 2);
    assert_eq!(wm.get_team_pacs()[0].pos(), (1, 0));
    // the opponent unit out of sight keeps its last known position
    assert_eq!(wm.pacs[1].pos(), (4, 0));
    assert!(wm.pellet_at((2, 0)).is_none());
    assert!(wm.pellet_at((3, 0)).is_some());
}

#[test]
fn pac_new_and_update() {
    let mut pac = pac_agent::pac::Pac::new(Team::Opp, 3, None);
    assert_eq!(pac.kind(), PacKind::Uninitialized);
    assert_eq!(pac.pos(), (0, 0));
    pac.update(PacProperties::new(PacKind::Scissors, (2, 1), 4, 9));
    assert_eq!(pac.kind(), PacKind::Scissors);
    assert_eq!(pac.pos(), (2, 1));
    assert_eq!(pac.prop.speed_turns_left, 4);
    assert_eq!(pac.prop.ability_cooldown, 9);
    assert_eq!(pac.team(), Team::Opp);
    assert_eq!(pac.id(), 3);
    assert_eq!(Team::default(), Team::Unknown);
    assert_eq!(PacKind::default(), PacKind::Uninitialized);
}

#[test]
fn visible_units_by_team() {
    let mut wm = load(&["     "]);
    wm.upsert_unit(Team::Opp, 3, props(4, 0));
    wm.upsert_unit(Team::Us, 1, props(0, 0));
    wm.upsert_unit(Team::Opp, 1, props(2, 0));
    let theirs = wm.visible_units_for(Team::Opp);
    assert_eq!(theirs.len(), 2);
    assert_eq!(theirs[0].id(), 3);
    assert_eq!(theirs[1].pos(), (2, 0));
    assert_eq!(wm.visible_units_for(Team::Us).len(), 1);
    assert!(wm.visible_units_for(Team::Unknown).is_empty());
}

#[test]
fn pac_kind_names() {
    assert_eq!(PacKind::Rock.name(), "Rock");
    assert_eq!(PacKind::Paper.name(), "Paper");
    assert_eq!(PacKind::Scissors.name(), "Scissors");
    assert_eq!(PacKind::Uninitialized.name(), "Uninitialized");
}

#[test]
fn in_maze_checks_both_coordinates() {
    let wm = load(&["    ", "    "]);
    assert!(wm.in_maze((0, 0)));
    assert!(wm.in_maze((3, 1)));
    assert!(!wm.in_maze((4, 0)));
    assert!(!wm.in_maze((0, 2)));
    assert!(!wm.in_maze((-1, 0)));
    assert!(!wm.in_maze((0, -1)));
}

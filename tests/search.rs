use pac_agent::agent::{nearest_pellet, Agent, Directive};
use pac_agent::pac::{PacKind, PacProperties};
use pac_agent::pellet::Pellet;
use pac_agent::world::{Team, WorldModel};

fn load(rows: &[&str]) -> WorldModel {
    let width = rows[0].len() as isize;
    let height = rows.len() as isize;
    let bytes: Vec<Vec<u8>> = rows.iter().map(|r| r.as_bytes().to_vec()).collect();
    WorldModel::from_rows(width, height, &bytes).expect("valid map")
}

fn unit_at(wm: &mut WorldModel, team: Team, id: i32, pos: (isize, isize)) {
    wm.upsert_unit(team, id, PacProperties::new(PacKind::Paper, pos, 0, 0));
}

#[test]
fn finds_single_pellet_at_distance() {
    let mut wm = load(&["      ", " #### ", "      "]);
    wm.replace_pellets(vec![Pellet::new((3, 2), 1)]);
    let found = nearest_pellet(&wm, (1, 0)).map(|p| p.pos());
    assert_eq!(found, Some((3, 2)));
}

#[test]
fn isolated_pellet_is_not_found() {
    let mut wm = load(&["#####", "# # #", "#####", "     "]);
    wm.replace_pellets(vec![Pellet::new((0, 3), 1)]);
    assert!(nearest_pellet(&wm, (1, 1)).is_none());
}

#[test]
fn pellet_under_start_is_found() {
    let mut wm = load(&["   "]);
    wm.replace_pellets(vec![Pellet::new((1, 0), 3), Pellet::new((2, 0), 1)]);
    assert_eq!(nearest_pellet(&wm, (1, 0)).map(|p| p.value()), Some(3));
}

#[test]
fn nearer_pellet_wins() {
    let mut wm = load(&["       "]);
    wm.replace_pellets(vec![Pellet::new((6, 0), 1), Pellet::new((2, 0), 1)]);
    // (6, 0) is one move away through the wrapped edge
    assert_eq!(nearest_pellet(&wm, (0, 0)).map(|p| p.pos()), Some((6, 0)));
    assert_eq!(nearest_pellet(&wm, (3, 0)).map(|p| p.pos()), Some((2, 0)));
}

#[test]
fn tie_broken_by_neighbor_order() {
    let mut wm = load(&["#####", "#   #", "#   #", "#   #", "#####"]);
    wm.replace_pellets(vec![Pellet::new((3, 2), 1), Pellet::new((2, 1), 1), Pellet::new((1, 2), 1)]);
    let first = nearest_pellet(&wm, (2, 2)).map(|p| p.pos());
    assert_eq!(first, Some((1, 2)));
    for _ in 0..5 {
        assert_eq!(nearest_pellet(&wm, (2, 2)).map(|p| p.pos()), first);
    }
    wm.replace_pellets(vec![Pellet::new((3, 2), 1), Pellet::new((2, 1), 1)]);
    assert_eq!(nearest_pellet(&wm, (2, 2)).map(|p| p.pos()), Some((2, 1)));
    wm.replace_pellets(vec![Pellet::new((3, 2), 1), Pellet::new((2, 3), 1)]);
    assert_eq!(nearest_pellet(&wm, (2, 2)).map(|p| p.pos()), Some((3, 2)));
}

#[test]
fn tie_at_distance_two_follows_expansion_order() {
    let mut wm = load(&["#######", "#     #", "#######"]);
    wm.replace_pellets(vec![Pellet::new((5, 1), 1), Pellet::new((1, 1), 1)]);
    assert_eq!(nearest_pellet(&wm, (3, 1)).map(|p| p.pos()), Some((1, 1)));
}

#[test]
fn decide_moves_to_pellet_on_corridor() {
    let mut wm = load(&["     "]);
    unit_at(&mut wm, Team::Us, 4, (0, 0));
    wm.replace_pellets(vec![Pellet::new((4, 0), 1)]);
    let agent = Agent::new(wm);
    let orders = agent.decide();
    assert_eq!(orders, vec![Directive { unit_id: 4, target: (4, 0) }]);
}

#[test]
fn decide_walled_in_unit_stays() {
    let mut wm = load(&["###", "# #", "###"]);
    unit_at(&mut wm, Team::Us, 2, (1, 1));
    wm.replace_pellets(vec![Pellet::new((0, 0), 1), Pellet::new((2, 2), 1)]);
    let agent = Agent::new(wm);
    assert_eq!(agent.decide(), vec![Directive { unit_id: 2, target: (1, 1) }]);
}

#[test]
fn decide_ignores_opponents_and_keeps_order() {
    let mut wm = load(&["      ", "      "]);
    unit_at(&mut wm, Team::Us, 1, (0, 0));
    unit_at(&mut wm, Team::Opp, 1, (5, 1));
    unit_at(&mut wm, Team::Us, 0, (3, 1));
    wm.replace_pellets(vec![Pellet::new((2, 0), 1), Pellet::new((3, 0), 1)]);
    let agent = Agent::new(wm);
    let orders = agent.decide();
    assert_eq!(
        orders,
        vec![
            Directive { unit_id: 1, target: (2, 0) },
            Directive { unit_id: 0, target: (3, 0) },
        ]
    );
}

#[test]
fn decide_without_pellets_stays() {
    let mut wm = load(&["    "]);
    unit_at(&mut wm, Team::Us, 0, (2, 0));
    let agent = Agent::new(wm);
    assert_eq!(agent.decide(), vec![Directive { unit_id: 0, target: (2, 0) }]);
}

#[test]
fn agent_world_access() {
    let wm = load(&["   "]);
    let mut agent = Agent::new(wm);
    agent.wm().apply_turn(1, 2, &Vec::new(), vec![Pellet::new((2, 0), 1)], 50);
    assert_eq!(agent.wm().turn(), 1);
    assert!(agent.wm().pellet_at((2, 0)).is_some());
}

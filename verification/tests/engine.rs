use evonomics::brain::Brain;
use evonomics::codon::{Codon, Decision};
use evonomics::dna::Dna;
use evonomics::rng::SimRng;
use evonomics::sim::{
    step, update, Cell, CellColor, CellType, Config, FromSim, Sense, Sim, ToSim,
    RESERVE_MULTIPLIER,
};

fn empty_senses() -> Vec<Sense> {
    let mut v = Vec::new();
    for _ in 0..8 {
        v.push(Sense { occupied: false, wall: false, food: 0, signal: 0, money: 0 });
    }
    v
}

fn grid_money(sim: &Sim) -> u64 {
    sim.cells.iter().map(|c| c.money as u64).sum()
}

#[test]
fn unoccupied_cell_vacates() {
    let mut rng = SimRng::from_seed(1);
    let mut c = Cell::empty();
    c.food = 9;
    c.money = 3;
    let (diff, moves) = step(&c, &empty_senses(), &mut rng);
    assert_eq!(diff.consume, 0);
    assert_eq!(diff.spend, 0);
    assert!(diff.moved);
    assert!(diff.trade.is_none());
    assert_eq!(moves.len(), 8);
    for m in &moves {
        assert_eq!(m.food, 0);
        assert_eq!(m.money, 0);
        assert!(m.brain.is_none());
    }
}

#[test]
fn update_applies_diff_and_deliveries() {
    let mut rng = SimRng::from_seed(2);
    let mut c = Cell::empty();
    c.food = 10;
    c.money = 5;
    let cfg = Config {
        spawn_ppm: 0,
        mutation_ppm: 0,
        general_food_ppm: 0,
        cornucopia_food_ppm: 0,
        cornucopia_bounty: 0,
    };
    let diff = evonomics::sim::Diff {
        consume: 4,
        spend: 2,
        moved: true,
        trade: None,
        brain: None,
    };
    let incoming = vec![evonomics::sim::Move { food: 7, money: 11, brain: None }];
    let r = update(&c, diff, incoming, &cfg, &mut rng);
    assert_eq!(r.food, 10 - 4 + 7);
    assert_eq!(r.money, 5 - 2 + 11);
    assert!(r.brain.is_none());
    assert_eq!(r.signal, 0);
}

#[test]
fn wall_cells_only_accumulate_money_in_update() {
    let mut rng = SimRng::from_seed(3);
    let mut c = Cell::empty();
    c.ty = CellType::Wall;
    c.food = 2;
    let cfg = Config {
        spawn_ppm: 1_000_000,
        mutation_ppm: 0,
        general_food_ppm: 1_000_000,
        cornucopia_food_ppm: 0,
        cornucopia_bounty: 0,
    };
    let diff = evonomics::sim::Diff {
        consume: 0,
        spend: 0,
        moved: true,
        trade: None,
        brain: None,
    };
    let incoming = vec![evonomics::sim::Move { food: 9, money: 6, brain: None }];
    let r = update(&c, diff, incoming, &cfg, &mut rng);
    // money arrives so the sweep can reclaim it; nothing else changes
    assert_eq!(r.money, 6);
    assert_eq!(r.food, 2);
    assert!(r.brain.is_none());
}

#[test]
fn conservation_holds_across_ticks() {
    let mut sim = Sim::new(6, 5, 1, 300_000, 42);
    let target = (6 * 5 * RESERVE_MULTIPLIER) as u64;
    assert_eq!(grid_money(&sim) + sim.reserve as u64, target);
    sim.apply_command(&ToSim::SetSpawnChance(200_000));
    sim.apply_command(&ToSim::SetGeneralFoodChance(300_000));
    for _ in 0..6 {
        sim = sim.tick();
        assert_eq!(grid_money(&sim) + sim.reserve as u64, target);
    }
}

#[test]
fn walls_never_hold_money_or_agents_after_a_tick() {
    let mut sim = Sim::new(8, 8, 0, 100_000, 7);
    sim.apply_command(&ToSim::SetSpawnChance(500_000));
    for _ in 0..5 {
        sim = sim.tick();
        for c in &sim.cells {
            if c.ty == CellType::Wall {
                assert_eq!(c.money, 0);
                assert!(c.brain.is_none());
            }
        }
    }
}

#[test]
fn certain_spawning_fills_open_cells() {
    let mut sim = Sim::new(4, 4, 0, 0, 9);
    sim.apply_command(&ToSim::SetSpawnChance(1_000_000));
    sim = sim.tick();
    let open = sim.cells.iter().filter(|c| c.ty != CellType::Wall).count();
    let occupied = sim.cells.iter().filter(|c| c.brain.is_some()).count();
    assert_eq!(occupied, open);
}

#[test]
fn new_simulation_starts_with_everything_in_the_reserve() {
    let sim = Sim::new(5, 4, 2, 0, 1);
    assert_eq!(sim.reserve as u64, 5 * 4 * RESERVE_MULTIPLIER as u64);
    assert_eq!(grid_money(&sim), 0);
    for c in &sim.cells {
        assert_eq!(c.food, 0);
        assert!(c.brain.is_none());
        assert!(c.trade.is_none());
    }
}

#[test]
fn view_reports_counts_and_colors() {
    let mut sim = Sim::new(4, 3, 0, 0, 12);
    sim.apply_command(&ToSim::SetSpawnChance(1_000_000));
    sim = sim.tick();
    let v = sim.view(5);
    assert_eq!(v.ticks, 5);
    assert_eq!(v.colors.len(), 12);
    let occupied = sim.cells.iter().filter(|c| c.brain.is_some()).count();
    assert_eq!(v.cells, occupied);
    for (i, (color, generation)) in v.colors.iter().enumerate() {
        match &sim.cells[i].brain {
            Some(b) => {
                assert_eq!(*color, CellColor::Agent(b.color));
                assert_eq!(*generation, b.generation);
            },
            None => {
                assert_eq!(*generation, 0);
                if sim.cells[i].ty == CellType::Wall {
                    assert_eq!(*color, CellColor::Wall);
                }
            },
        }
    }
}

#[test]
fn market_telemetry_mirrors_state() {
    let sim = Sim::new(3, 3, 0, 0, 4);
    match sim.market() {
        FromSim::Market { bid, ask, reserve, buy_volume, sell_volume } => {
            assert_eq!(bid, None);
            assert_eq!(ask, None);
            assert_eq!(reserve, sim.reserve);
            assert_eq!(buy_volume, 0);
            assert_eq!(sell_volume, 0);
        },
        _ => panic!("expected market telemetry"),
    }
}

#[test]
fn commands_tune_the_rates() {
    let mut sim = Sim::new(3, 3, 0, 0, 4);
    sim.apply_command(&ToSim::SetMutationChance(5));
    sim.apply_command(&ToSim::SetCornucopiaBounty(17));
    sim.apply_command(&ToSim::SetCornucopiaChance(400));
    assert_eq!(sim.config.mutation_ppm, 5);
    assert_eq!(sim.config.cornucopia_bounty, 17);
    assert_eq!(sim.config.cornucopia_food_ppm, 400);
}

#[test]
fn a_trading_brain_reaches_the_reserve_through_a_tick() {
    // a wide-open grid (the openness swallows the maze entirely)
    let mut sim = Sim::new(2, 1, 9, 0, 77);
    sim.apply_command(&ToSim::SetMutationChance(0));
    sim.apply_command(&ToSim::SetSpawnChance(0));
    sim.apply_command(&ToSim::SetGeneralFoodChance(0));
    let target = (2 * RESERVE_MULTIPLIER) as u64;
    // implant an agent whose one gene asks to sell 2 food at rate 1
    sim.cells[0].brain = Some(Brain {
        color: 0,
        rotation: 0,
        generation: 0,
        memory: vec![0, 0, 0, 0],
        code: Dna { sequence: vec![Codon::SimpleTrade(1, 2)], entries: vec![0] },
    });
    sim.cells[0].food = 20;
    sim = sim.tick();
    // the lone ask cleared against the reserve at one money per unit
    assert_eq!(sim.sell_volume, 2);
    assert_eq!(sim.cells[0].money, 2);
    assert_eq!(sim.reserve as u64, target - 2);
    assert_eq!(grid_money(&sim) + sim.reserve as u64, target);
    // the agent paid one food to exist and sold two
    assert_eq!(sim.cells[0].food, 20 - 1 - 2);
}

#[test]
fn decide_runs_all_genes_in_some_order() {
    let mut rng = SimRng::from_seed(13);
    let mut b = Brain {
        color: 0,
        rotation: 0,
        generation: 0,
        memory: vec![0, 0, 0, 0],
        code: Dna {
            sequence: vec![Codon::Literal(5), Codon::Write(1)],
            entries: vec![0],
        },
    };
    let d = b.decide(&mut rng, &vec![]);
    assert_eq!(d, Decision::Nothing);
    assert_eq!(b.memory[1], 5);
}

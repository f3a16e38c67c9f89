use std::str::from_utf8;

use tobdd::{Bdd, BddManager, BddOp, Manager, PrintSet};

fn shown(manager: &Manager, bdd: Bdd) -> String {
    let mut buf = Vec::new();
    manager.print(bdd, &mut buf);
    from_utf8(&buf).unwrap().to_string()
}

#[test]
fn fresh_manager_holds_terminals_and_literals() {
    let manager = Manager::init(8, 8, 3);
    assert_eq!(manager.get_node_num(), 8);
    assert!(manager.is_true(manager.get_true()));
    assert!(manager.is_false(manager.get_false()));
    assert!(!manager.is_true(manager.get_false()));
    assert!(!manager.is_false(manager.get_var(0)));
    assert_eq!(shown(&manager, manager.get_var(0)), "1**\n");
    assert_eq!(shown(&manager, manager.get_nvar(2)), "**0\n");
    assert!(manager.is_node(manager.get_var(1)));
    assert!(!manager.is_node(0));
    assert!(!manager.is_node(1000));
}

#[test]
fn manager_without_variables() {
    let mut manager = Manager::init(1, 1, 0);
    let (t, f) = (manager.get_true(), manager.get_false());
    assert_eq!(manager.not(t), f);
    assert_eq!(manager.not(f), t);
    assert_eq!(manager.and(t, f), f);
    assert_eq!(manager.or(t, f), t);
    assert_eq!(manager.comp(t, f), t);
    assert_eq!(manager.get_node_num(), 2);
}

#[test]
fn operations_on_terminals() {
    let mut manager = Manager::init(64, 64, 2);
    let (t, f) = (manager.get_true(), manager.get_false());
    let a = manager.get_var(0);
    let na = manager.get_nvar(0);
    assert_eq!(manager.not(a), na);
    assert_eq!(manager.and(a, t), a);
    assert_eq!(manager.and(a, f), f);
    assert_eq!(manager.and(a, na), f);
    assert_eq!(manager.and(a, a), a);
    assert_eq!(manager.or(a, t), t);
    assert_eq!(manager.or(a, f), a);
    assert_eq!(manager.or(a, na), t);
    assert_eq!(manager.comp(a, a), f);
    assert_eq!(manager.comp(a, f), a);
    assert_eq!(manager.comp(a, t), f);
    assert_eq!(manager.comp(f, a), f);
    assert_eq!(manager.comp(t, a), na);
    assert_eq!(manager.get_node_num(), 6);
}

#[test]
fn equal_functions_are_one_node() {
    let mut manager = Manager::init(64, 64, 3);
    let (a, b, c) = (manager.get_var(0), manager.get_var(1), manager.get_var(2));
    let ab = manager.and(a, b);
    let ab_c = manager.or(ab, c);
    let ac = manager.or(a, c);
    let bc = manager.or(b, c);
    let distributed = manager.and(ac, bc);
    assert_eq!(ab_c, distributed);
    assert_eq!(shown(&manager, ab_c), "0*1\n101\n11*\n");
}

#[test]
fn negation_undoes_itself() {
    let mut manager = Manager::init(64, 64, 3);
    let (a, b) = (manager.get_var(0), manager.get_nvar(2));
    let x = manager.or(a, b);
    let nx = manager.not(x);
    assert_ne!(x, nx);
    assert_eq!(manager.not(nx), x);
    assert_eq!(shown(&manager, nx), "0*1\n");
}

#[test]
fn order_of_operands_does_not_matter() {
    let mut manager = Manager::init(64, 64, 3);
    let (a, b) = (manager.get_var(0), manager.get_var(2));
    let ab = manager.and(a, b);
    assert_eq!(manager.and(b, a), ab);
    let a_or_b = manager.or(a, b);
    assert_eq!(manager.or(b, a), a_or_b);
}

#[test]
fn de_morgan_and_difference() {
    let mut manager = Manager::init(64, 64, 2);
    let (a, b) = (manager.get_var(0), manager.get_var(1));
    let (na, nb) = (manager.get_nvar(0), manager.get_nvar(1));
    let ab = manager.and(a, b);
    let not_ab = manager.not(ab);
    assert_eq!(manager.or(na, nb), not_ab);
    let diff = manager.comp(a, b);
    assert_eq!(manager.and(a, nb), diff);
    assert_eq!(shown(&manager, diff), "10\n");
}

#[test]
fn tautology_is_the_true_terminal() {
    let mut manager = Manager::init(64, 64, 2);
    let (a, b) = (manager.get_var(0), manager.get_var(1));
    let ab = manager.and(a, b);
    let not_ab = manager.not(ab);
    let all = manager.or(ab, not_ab);
    assert!(manager.is_true(all));
    let none = manager.and(ab, not_ab);
    assert!(manager.is_false(none));
}

#[test]
fn printed_cubes_cover_each_assignment_once() {
    let mut manager = Manager::init(64, 64, 3);
    let (a, b, c) = (manager.get_var(0), manager.get_var(1), manager.get_var(2));
    let ab = manager.and(a, b);
    let bc = manager.and(b, c);
    let f = manager.or(ab, bc);
    let text = shown(&manager, f);
    for bits in 0..8u32 {
        let value = |i: u32| bits >> i & 1 == 1;
        let expected = value(0) && value(1) || value(1) && value(2);
        let covering = text
            .lines()
            .filter(|line| {
                line.chars().enumerate().all(|(i, sign)| match sign {
                    '*' => true,
                    _ => (sign == '1') == value(i as u32),
                })
            })
            .count();
        assert_eq!(covering, expected as usize);
    }
}

#[test]
fn result_survives_a_collection() {
    let mut manager = Manager::init(64, 64, 3);
    let (a, b, c) = (manager.get_var(0), manager.get_var(1), manager.get_var(2));
    let ab = manager.and(a, b);
    let abc = manager.and(ab, c);
    manager.deref_bdd(ab);
    assert_eq!(manager.get_node_num(), 11);
    assert_eq!(manager.gc(), 10);
    assert_eq!(manager.get_node_num(), 10);
    assert!(manager.is_node(abc));
    assert!(!manager.is_node(ab));
    assert_eq!(shown(&manager, abc), "111\n");
    assert_eq!(manager.gc(), 10);
}

#[test]
fn collection_undoes_a_released_operation() {
    let mut manager = Manager::init(64, 64, 3);
    let (a, b, c) = (manager.get_var(0), manager.get_var(1), manager.get_var(2));
    manager.gc();
    let before = manager.get_node_num();
    let ab = manager.and(a, b);
    let r = manager.or(ab, c);
    manager.deref_bdd(r);
    manager.deref_bdd(ab);
    manager.gc();
    assert_eq!(manager.get_node_num(), before);
}

#[test]
fn second_reference_keeps_a_node() {
    let mut manager = Manager::init(64, 64, 2);
    let (a, b) = (manager.get_var(0), manager.get_var(1));
    let ab = manager.and(a, b);
    manager.ref_bdd(ab);
    manager.deref_bdd(ab);
    manager.gc();
    assert!(manager.is_node(ab));
    manager.deref_bdd(ab);
    manager.gc();
    assert!(!manager.is_node(ab));
}

/// Six conjunctions that fill a table of sixteen buckets.
fn filled() -> (Manager, Vec<Bdd>) {
    let mut manager = Manager::init(8, 8, 4);
    let mut made = Vec::new();
    for i in 0..4 {
        for j in i + 1..4 {
            let (x, y) = (manager.get_var(i), manager.get_var(j));
            made.push(manager.and(x, y));
        }
    }
    assert_eq!(manager.get_node_num(), 16);
    assert_eq!(manager.table_stat_report().table_size, 16);
    (manager, made)
}

#[test]
fn full_table_grows_when_all_is_alive() {
    let (mut manager, made) = filled();
    let (a, b) = (manager.get_var(0), manager.get_var(1));
    let r = manager.or(a, b);
    assert_eq!(manager.table_stat_report().table_size, 32);
    assert_eq!(manager.get_node_num(), 17);
    assert_eq!(manager.op_stat().grow_cnt, 1);
    assert_eq!(manager.op_stat().grow_newed, 16);
    assert_eq!(manager.op_stat().gc_cnt, 0);
    assert_eq!(shown(&manager, r), "01**\n1***\n");
    assert_eq!(shown(&manager, made[5]), "**11\n");
    assert!(manager.sanity_check());
}

#[test]
fn full_table_is_collected_when_a_quarter_is_dead() {
    let (mut manager, made) = filled();
    for &bdd in &made[..4] {
        manager.deref_bdd(bdd);
    }
    let (a, b) = (manager.get_var(0), manager.get_var(1));
    let r = manager.or(a, b);
    assert_eq!(manager.table_stat_report().table_size, 16);
    assert_eq!(manager.get_node_num(), 13);
    assert_eq!(manager.op_stat().gc_cnt, 1);
    assert_eq!(manager.op_stat().gc_freed, 4);
    assert_eq!(manager.op_stat().grow_cnt, 0);
    assert!(!manager.is_node(made[1]) || made[1] == r);
    assert_eq!(shown(&manager, made[4]), "*1*1\n");
    assert!(manager.sanity_check());
}

#[test]
fn table_just_short_of_a_quarter_dead_grows() {
    let (mut manager, made) = filled();
    for &bdd in &made[..3] {
        manager.deref_bdd(bdd);
    }
    let (a, b) = (manager.get_var(0), manager.get_var(1));
    manager.or(a, b);
    assert_eq!(manager.table_stat_report().table_size, 32);
    assert!(manager.is_node(made[0]));
}

#[test]
fn operands_are_admitted_as_long_as_they_survive() {
    let (mut manager, made) = filled();
    let a = manager.get_var(0);
    assert!(manager.admits(&[a, made[0]]));
    assert!(!manager.admits(&[a, 0]));
    assert!(!manager.admits(&[1000]));
    for &bdd in &made[..4] {
        manager.deref_bdd(bdd);
    }
    assert!(manager.admits(&[a, made[4]]));
    assert!(!manager.admits(&[a, made[0]]));
    assert_eq!(manager.get_node_num(), 16);
    let mut roomy = Manager::init(1024, 8, 1);
    let v = roomy.get_var(0);
    assert!(roomy.admits(&[v]));
    assert!(!roomy.admits(&[77]));
}

#[test]
fn lost_literals_forbid_a_collection() {
    let (mut manager, made) = filled();
    for &bdd in &made {
        manager.deref_bdd(bdd);
    }
    let a = manager.get_var(0);
    assert!(manager.admits(&[a]));
    let nvar = manager.get_nvar(3);
    manager.deref_bdd(nvar);
    assert!(!manager.admits(&[a]));
}

#[test]
fn heading_tells_sizes_and_cache_counts() {
    let mut manager = Manager::init(8, 8, 3);
    let (a, b) = (manager.get_var(0), manager.get_var(1));
    manager.and(a, b);
    manager.and(a, b);
    assert_eq!(
        manager.heading(),
        "TOBDD Debug Information\n\
         node_num: 9\n\
         bucket_size: 16\n\
         var_num: 3\n\
         NOT cache stat: unique_hit: 0, unique_miss: 0\n\
         AND cache stat: unique_hit: 1, unique_miss: 1\n\
         OR cache stat: unique_hit: 0, unique_miss: 0\n\
         COMP cache stat: unique_hit: 0, unique_miss: 0\n\
         QUANT_EXIST cache stat: unique_hit: 0, unique_miss: 0\n\
         QUANT_FORALL cache stat: unique_hit: 0, unique_miss: 0\n"
    );
    assert_eq!(manager.lock_stat().read_acquires, 2);
}

#[test]
fn operation_counts_as_text() {
    let mut manager = Manager::init(8, 8, 3);
    let (a, b) = (manager.get_var(0), manager.get_var(1));
    manager.not(a);
    manager.and(a, b);
    manager.and(a, b);
    manager.or(a, b);
    manager.comp(a, b);
    let mut stat = manager.op_stat();
    assert_eq!((stat.not_cnt, stat.and_cnt, stat.or_cnt, stat.comp_cnt), (1, 2, 1, 1));
    stat.gc_cnt = 3;
    stat.gc_time = 1234567;
    stat.gc_freed = 40;
    stat.grow_cnt = 5;
    stat.grow_time = 60;
    stat.grow_newed = 1024;
    assert_eq!(
        stat.to_text(),
        "NOT: (cnt: 1)\nAND: (cnt: 2)\nOR: (cnt: 1)\nCOMP: (cnt: 1)\n\
         GC: (cnt: 3, time: 1234567 us, freed: 40)\n\
         GROW: (cnt: 5, time: 60 us, newed: 1024)"
    );
}

#[test]
fn collection_time_is_counted() {
    let mut manager = Manager::init(1 << 16, 1 << 16, 64);
    manager.gc();
    manager.gc();
    let stat = manager.op_stat();
    assert_eq!(stat.gc_cnt, 2);
    assert!(stat.gc_time > 0);
    assert!(stat.gc_time < 20_000_000);
    assert_eq!(stat.grow_time, 0);
}

#[test]
fn exactly_the_five_queens_solutions_are_left() {
    // One variable per square of a five by five board.
    const N: usize = 5;
    let mut manager = Manager::init(64, 64, N * N);
    let mut board = manager.get_true();
    manager.ref_bdd(board);
    for i in 0..N {
        let mut row = manager.get_false();
        manager.ref_bdd(row);
        for j in 0..N {
            let mut queen = manager.get_var(i * N + j);
            manager.ref_bdd(queen);
            for k in 0..N {
                for l in 0..N {
                    let attacked = (k, l) != (i, j)
                        && (k == i || l == j || k + l == i + j || k + j == i + l);
                    if attacked {
                        let other = manager.get_var(k * N + l);
                        let next = manager.comp(queen, other);
                        manager.deref_bdd(queen);
                        queen = next;
                    }
                }
            }
            let next = manager.or(row, queen);
            manager.deref_bdd(row);
            manager.deref_bdd(queen);
            row = next;
        }
        let next = manager.and(board, row);
        manager.deref_bdd(board);
        manager.deref_bdd(row);
        board = next;
    }
    assert_eq!(shown(&manager, board).lines().count(), 10);
    assert!(manager.sanity_check());
    assert!(manager.op_stat().grow_cnt + manager.op_stat().gc_cnt > 0);
}

#[test]
fn description_holds_all_statistics() {
    let mut manager = Manager::init(4, 4, 1);
    let (a, na) = (manager.get_var(0), manager.get_nvar(0));
    manager.or(a, na);
    let report = manager.table_stat_report();
    let text = manager.describe(&report, "0.500", "1.333", "0.0000");
    let rest = text.strip_prefix(&manager.heading()).unwrap();
    let expected = format!(
        "Table stat: unique_access: 0, unique_chain: 0, unique_hit: 0, unique_miss: 0\n\
         table_size: 8 buckets, node_count: 4, load_factor: 0.500\n\
         buckets: empty: {}, non_empty: {}\n\
         chain_len: min: {}, max: {}, avg_non_empty: 1.333\n\
         histogram: 0: {}, 1: {}, 2-3: {}, 4-7: {}, 8-15: 0, 16-31: 0, 32-63: 0, 64-127: 0, 128+: 0\n\
         Op stat: NOT: (cnt: 0)\nAND: (cnt: 0)\nOR: (cnt: 1)\nCOMP: (cnt: 0)\n\
         GC: (cnt: 0, time: 0 us, freed: 0)\nGROW: (cnt: 0, time: 0 us, newed: 0)\n\
         RwLock stat: read_acquires: 1, read_cas_retries: 0, read_writer_spins: 0 \
         (retry_rate: 0.0000%)\n",
        report.empty_buckets,
        report.non_empty_buckets,
        report.min_chain_len,
        report.max_chain_len,
        report.histogram[0],
        report.histogram[1],
        report.histogram[2],
        report.histogram[3],
    );
    assert_eq!(rest, expected);
}

#[test]
fn released_literals_are_not_grounded() {
    let mut manager = Manager::init(64, 64, 2);
    assert!(manager.is_grounded());
    let (t, a) = (manager.get_true(), manager.get_var(0));
    // The literals keep the terminals.
    manager.deref_bdd(t);
    assert!(manager.is_grounded());
    manager.deref_bdd(a);
    assert!(!manager.is_grounded());
    // A new reference brings the literal back.
    manager.ref_bdd(a);
    assert!(manager.is_grounded());
    assert_eq!(manager.gc(), 6);
    assert_eq!(manager.op_stat().gc_cnt, 1);
}

#[test]
fn caches_forget_at_a_collection() {
    let mut manager = Manager::init(64, 64, 3);
    assert!(manager.heading().contains("AND cache stat: unique_hit: 0, unique_miss: 0\n"));
    let (a, b) = (manager.get_var(0), manager.get_var(1));
    let r = manager.and(a, b);
    assert_eq!(manager.and(b, a), r);
    assert!(manager.heading().contains("AND cache stat: unique_hit: 1, unique_miss: 1\n"));
    assert_eq!(manager.gc(), 9);
    assert_eq!(manager.and(a, b), r);
    assert!(manager.heading().contains("AND cache stat: unique_hit: 1, unique_miss: 2\n"));
    // What does not look into a cache leaves its counts alone.
    manager.ref_bdd(r);
    manager.deref_bdd(r);
    manager.or(a, b);
    assert!(manager.heading().contains("AND cache stat: unique_hit: 1, unique_miss: 2\n"));
    assert!(manager.heading().contains("NOT cache stat: unique_hit: 0, unique_miss: 0\n"));
}

#[test]
fn difference_from_everything_is_a_remembered_negation() {
    let mut manager = Manager::init(64, 64, 2);
    let (a, t) = (manager.get_var(0), manager.get_true());
    assert_eq!(manager.comp(t, a), manager.get_nvar(0));
    assert_eq!(manager.not(a), manager.get_nvar(0));
    assert!(manager.heading().contains("NOT cache stat: unique_hit: 1, unique_miss: 1\n"));
    assert!(manager.heading().contains("COMP cache stat: unique_hit: 0, unique_miss: 0\n"));
}

#[test]
fn difference_and_conjunction_make_up_the_first_operand() {
    let mut manager = Manager::init(64, 64, 3);
    let (a, b, c) = (manager.get_var(0), manager.get_var(1), manager.get_nvar(2));
    let f = manager.or(a, c);
    let g = manager.and(b, c);
    let rest = manager.comp(f, g);
    let both = manager.and(f, g);
    assert_eq!(manager.or(rest, both), f);
    assert_eq!(manager.comp(g, f), manager.get_false());
    assert_eq!(both, g);
}

#[test]
fn negations_of_built_in_nodes_are_built_in() {
    let mut manager = Manager::init(64, 64, 2);
    assert_eq!(manager.not(manager.get_true()), manager.get_false());
    assert_eq!(manager.not(manager.get_false()), manager.get_true());
    assert_eq!(manager.not(manager.get_var(1)), manager.get_nvar(1));
    assert_eq!(manager.not(manager.get_nvar(1)), manager.get_var(1));
}

#[test]
fn times_stand_still_without_collection_or_growth() {
    let mut manager = Manager::init(64, 64, 3);
    let (a, b) = (manager.get_var(0), manager.get_var(1));
    manager.or(a, b);
    manager.not(a);
    assert_eq!((manager.op_stat().gc_time, manager.op_stat().grow_time), (0, 0));
    manager.gc();
    assert_eq!(manager.op_stat().grow_time, 0);
}

#[test]
fn printed_lines_ascend() {
    let mut manager = Manager::init(64, 64, 4);
    let (a, b, d) = (manager.get_var(0), manager.get_nvar(1), manager.get_var(3));
    let ab = manager.or(a, b);
    let f = manager.comp(ab, d);
    let text = shown(&manager, f);
    let lines: Vec<&str> = text.lines().collect();
    assert_eq!(lines, ["00*0", "1**0"]);
    for pair in lines.windows(2) {
        assert!(pair[0] < pair[1]);
    }
}

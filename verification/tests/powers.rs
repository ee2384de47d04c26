use psi::{
    calculate_ps_powers_with_dag, calculate_source_powers, construct_dag, evaluate_poly,
    materialize_plan, mul_mod, newton_interpolate, ps_evaluate_poly, ps_schedule, ConfigError,
    Matrix, Node, PSParams, PowerStep, PsTerm,
};
use rand::{thread_rng, Rng};
use std::collections::HashMap;

fn pow_mod(x: u32, p: usize, q: u32) -> u32 {
    let mut r = 1 % q;
    for _ in 0..p {
        r = mul_mod(r, x, q);
    }
    r
}

#[test]
fn dag() {
    let source_powers = vec![1, 3, 11, 18, 45, 225];
    let target_degree = 1304;
    let ps_low_deg = 44;
    let ps_params = PSParams::new(ps_low_deg, target_degree);
    let dag = construct_dag(&source_powers, ps_params.powers()).unwrap();
    // the graph holds the source powers and the powers of the evaluation
    for p in source_powers.iter() {
        assert_eq!(dag.get(p), Some(&Node { target: *p, depth: 0, s1: 0, s2: 0 }));
    }
    for p in ps_params.powers().iter() {
        let node = dag.get(p).unwrap();
        assert_eq!(node.target, *p);
        if !source_powers.contains(p) {
            assert_eq!(node.s1 + node.s2, *p);
            assert!(dag.contains_key(&node.s1));
            assert!(dag.contains_key(&node.s2));
            let deeper = dag[&node.s1].depth.max(dag[&node.s2].depth);
            assert_eq!(node.depth, deeper + 1);
        }
    }
    assert_eq!(dag.len(), 72);
}

#[test]
fn dag_is_deterministic() {
    let source_powers = vec![1, 3, 11, 18, 45, 225];
    let ps_params = PSParams::new(44, 1304);
    let a = construct_dag(&source_powers, ps_params.powers()).unwrap();
    let b = construct_dag(&source_powers, ps_params.powers()).unwrap();
    assert_eq!(a, b);
}

#[test]
fn dag_picks_the_smallest_depth_and_then_the_smallest_factor() {
    let dag = construct_dag(&[1], &[1, 2, 3, 4]).unwrap();
    assert_eq!(dag[&1], Node { target: 1, depth: 0, s1: 0, s2: 0 });
    assert_eq!(dag[&2], Node { target: 2, depth: 1, s1: 1, s2: 1 });
    assert_eq!(dag[&3], Node { target: 3, depth: 2, s1: 1, s2: 2 });
    assert_eq!(dag[&4], Node { target: 4, depth: 2, s1: 2, s2: 2 });
    assert_eq!(dag.len(), 4);
}

#[test]
fn dag_fails_on_an_unreachable_power() {
    assert_eq!(construct_dag(&[2], &[3]), Err(ConfigError::UnreachablePower));
    assert_eq!(construct_dag(&[], &[1]), Err(ConfigError::UnreachablePower));
    // 4 comes before the 2 that it would need
    assert_eq!(construct_dag(&[1], &[4, 2]), Err(ConfigError::UnreachablePower));
    assert!(construct_dag(&[], &[]).unwrap().is_empty());
}

#[test]
fn ps_params_list_the_powers_of_the_evaluation() {
    let ps_params = PSParams::new(2, 5);
    assert_eq!(ps_params.powers(), &[1, 2, 3]);
    assert_eq!(ps_params.low_degree(), 2);
    assert_eq!(ps_params.total_degree(), 5);
    assert_eq!(ps_params.eval_degree().0, 5);
    let ps_params = PSParams::new(2, 7);
    assert_eq!(ps_params.powers(), &[1, 2, 3, 6]);
    let ps_params = PSParams::new(44, 1304);
    assert_eq!(ps_params.powers().len(), 44 + 28);
    assert_eq!(ps_params.powers()[43], 44);
    assert_eq!(ps_params.powers()[44], 45);
    assert_eq!(ps_params.powers()[71], 1260);
    let ps_params = PSParams::new(0, 3);
    assert_eq!(ps_params.powers(), &[1, 2, 3]);
}

#[test]
fn plan_takes_sources_then_products_then_changes_representation() {
    let ps_params = PSParams::new(2, 7);
    let sources = vec![1, 3];
    let dag = construct_dag(&sources, ps_params.powers()).unwrap();
    let plan = materialize_plan(&sources, ps_params.powers(), &dag, &ps_params);
    assert_eq!(
        plan,
        vec![
            PowerStep::Source { power: 1, index: 0 },
            PowerStep::Source { power: 3, index: 1 },
            PowerStep::Product { power: 2, s1: 1, s2: 1 },
            PowerStep::Product { power: 6, s1: 3, s2: 3 },
            PowerStep::ToEvaluation { power: 1 },
            PowerStep::ToEvaluation { power: 2 },
        ]
    );
}

#[test]
fn calculate_ps_powers_with_dag_works() {
    let source_powers = vec![1, 3, 11, 18, 45, 225];
    let target_degree = 1304;
    let ps_low_deg = 44;
    let ps_params = PSParams::new(ps_low_deg, target_degree);
    let dag = construct_dag(&source_powers, ps_params.powers()).unwrap();
    let modq = 65537;
    let degree = 8192;

    // we stick with a single input value spanned across all rows
    let input_value = 5;
    let input_vec = vec![input_value; degree];
    let input_source_powers = calculate_source_powers(&input_vec, &source_powers, modq);
    assert_eq!(input_source_powers.len(), 6);
    let expected_sources = [5, 125, 3060, 49061, 44039, 19174];
    for (k, powers) in input_source_powers.iter().enumerate() {
        assert_eq!(powers, &vec![expected_sources[k]; degree]);
    }

    let target_powers = calculate_ps_powers_with_dag(
        &input_source_powers,
        &source_powers,
        ps_params.powers(),
        &dag,
        &ps_params,
        modq,
    );

    // check all target powers are correct
    ps_params.powers().iter().for_each(|power| {
        let m = target_powers.get(power).unwrap();
        let expected_m = pow_mod(input_value, *power, modq);
        assert_eq!(m, &vec![expected_m; degree]);
    });
    assert_eq!(target_powers.len(), 72);
}

#[test]
fn schedule_stops_at_the_degree() {
    let blocks = ps_schedule(&PSParams::new(2, 7));
    assert_eq!(blocks.len(), 3);
    assert_eq!(
        blocks[0].terms,
        vec![PsTerm { power: 1, column: 1 }, PsTerm { power: 2, column: 2 }]
    );
    assert_eq!((blocks[0].constant, blocks[0].outer_power), (0, 0));
    assert_eq!(
        blocks[1].terms,
        vec![PsTerm { power: 1, column: 4 }, PsTerm { power: 2, column: 5 }]
    );
    assert_eq!((blocks[1].constant, blocks[1].outer_power), (3, 3));
    assert_eq!(blocks[2].terms, vec![PsTerm { power: 1, column: 7 }]);
    assert_eq!((blocks[2].constant, blocks[2].outer_power), (6, 6));

    // a degree that the blocks divide: the last block has its constant only
    let blocks = ps_schedule(&PSParams::new(2, 6));
    assert_eq!(blocks.len(), 3);
    assert!(blocks[2].terms.is_empty());
    assert_eq!(blocks[2].constant, 6);

    // a degree below the size of a block
    let blocks = ps_schedule(&PSParams::new(4, 2));
    assert_eq!(blocks.len(), 1);
    assert_eq!(
        blocks[0].terms,
        vec![PsTerm { power: 1, column: 1 }, PsTerm { power: 2, column: 2 }]
    );
}

fn evaluate_in_blocks(low: usize, total: usize, rows: usize, modq: u32) {
    let mut rng = thread_rng();
    let ps_params = PSParams::new(low, total);
    let mut coefficients = vec![];
    for _ in 0..rows {
        let row: Vec<u32> = (0..total + 1).map(|_| rng.gen::<u32>() % modq).collect();
        coefficients.push(row);
    }
    let x: Vec<u32> = (0..rows).map(|_| rng.gen::<u32>() % modq).collect();
    let mut powers = HashMap::new();
    for p in ps_params.powers().iter() {
        let slots: Vec<u32> = x.iter().map(|v| pow_mod(*v, *p, modq)).collect();
        powers.insert(*p, slots);
    }
    let matrix = Matrix::from_rows(&coefficients, total + 1);
    let out = ps_evaluate_poly(&powers, &ps_params, &matrix, modq);
    assert_eq!(out.len(), rows);
    for j in 0..rows {
        assert_eq!(out[j], evaluate_poly(x[j], &coefficients[j], modq));
    }
}

#[test]
fn blocks_evaluate_the_polynomial_of_every_slot() {
    evaluate_in_blocks(2, 7, 5, 65537);
    evaluate_in_blocks(2, 6, 5, 65537);
    evaluate_in_blocks(2, 5, 5, 65537);
    evaluate_in_blocks(4, 2, 3, 65537);
    evaluate_in_blocks(0, 3, 3, 65537);
    evaluate_in_blocks(3, 0, 2, 65537);
    evaluate_in_blocks(5, 40, 4, 97);
}

#[test]
fn ps_works() {
    let mut rng = thread_rng();
    let source_powers = vec![1, 3, 11, 18, 45, 225];
    let ps_params = PSParams::new(44, 1304);
    let modq = 65537;
    let degree = 8192;

    // Interpolate a polynomial
    let data_points_count = ps_params.total_degree() + 1;
    let mut x = vec![];
    let mut y: Vec<u32> = vec![];

    while x.len() != data_points_count {
        let tmp_x = rng.gen::<u32>() % modq;
        if !x.contains(&tmp_x) {
            x.push(tmp_x);
            y.push(rng.gen::<u32>() % modq);
        }
    }
    let coeffs = newton_interpolate(&x, &y, modq).unwrap();

    // turns coefficients into 2D array just like InnerBox
    let mut rows = vec![vec![0u32; data_points_count]; degree];
    rows[0].copy_from_slice(&coeffs);
    let coefficients_2d = Matrix::from_rows(&rows, data_points_count);

    // evalute polynomial at x_input
    let x_input = x[5];

    // the client's source powers
    let mut input_vec = vec![0u32; degree];
    input_vec[0] = x_input;
    let input_source_powers = calculate_source_powers(&input_vec, &source_powers, modq);

    // get target powers for PS on server
    let dag = construct_dag(&source_powers, ps_params.powers()).unwrap();
    let target_powers = calculate_ps_powers_with_dag(
        &input_source_powers,
        &source_powers,
        ps_params.powers(),
        &dag,
        &ps_params,
        modq,
    );

    let evaluated_res = ps_evaluate_poly(&target_powers, &ps_params, &coefficients_2d, modq);

    // Check the results
    let expected_evaluated_res = evaluate_poly(x_input, &coeffs, modq);
    assert_eq!(evaluated_res[0], expected_evaluated_res);
    assert_eq!(evaluated_res[0], y[5]);
    // the other rows hold the zero polynomial
    for j in 1..degree {
        assert_eq!(evaluated_res[j], 0);
    }
}

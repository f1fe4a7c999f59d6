use packet_solver::Packet;
use packet_solver::Possibility;
use packet_solver::Problem;

#[test]
fn packet_new_sets_fields() {
    let p = Packet::new(4, 9);
    assert_eq!(p.price, 4);
    assert_eq!(p.quantity, 9);
}

#[test]
fn filtering_drops_non_positive_prices() {
    let list = Packet::from_array(vec![-5, 0, 7]);
    assert_eq!(list.len(), 1);
    assert_eq!(list[0].price, 7);
    assert_eq!(list[0].quantity, 3);
}

#[test]
fn empty_price_list_gives_empty_catalog() {
    let list = Packet::from_array(Vec::new());
    assert!(list.is_empty());
}

#[test]
fn ranking_prefers_cheaper_unit_cost() {
    // (price 6, qty 1) against (price 4, qty 2): 2 per unit beats 6 per unit.
    let list = Packet::from_array(vec![6, 4]);
    assert_eq!(list[0].price, 4);
    assert_eq!(list[0].quantity, 2);
    assert_eq!(list[1].price, 6);
    assert_eq!(list[1].quantity, 1);
}

#[test]
fn ranking_breaks_ties_by_larger_quantity() {
    // (price 2, qty 1) and (price 4, qty 2) cost the same per unit; the
    // larger packet ranks first because it spends less of the budget.
    let list = Packet::from_array(vec![2, 4]);
    assert_eq!(list[0].quantity, 2);
    assert_eq!(list[1].quantity, 1);
}

#[test]
fn possibility_merge_concatenates() {
    let catalog = Packet::from_array(vec![1, 2, 3]);
    let mut first = Possibility::new(&catalog, vec![2]);
    let second = Possibility::new(&catalog, vec![0, 1, 1]);
    first.merge(&second);
    // 2 * 3 from the first, plus 2 + 1 from the second.
    assert_eq!(first.total_cost(), 9);
}

#[test]
fn zero_target_with_catalog_costs_nothing() {
    let solution = Problem::new(vec![3], 2, 0).solution();
    assert_eq!(solution.unwrap().total_cost(), 0);
}

#[test]
fn zero_target_with_empty_catalog_is_infeasible() {
    // An empty catalog is reported infeasible even for a zero target.
    assert!(Problem::new(Vec::new(), 3, 0).solution().is_none());
    assert!(Problem::new(vec![-1, -2], 3, 0).solution().is_none());
}

#[test]
fn infeasible_when_budget_too_small() {
    // Only a quantity-1 packet exists; a target of 2 needs two of them.
    assert!(Problem::new(vec![3], 1, 2).solution().is_none());
}

#[test]
fn raising_budget_never_raises_cost() {
    let mut last_cost: Option<usize> = None;
    for budget in 4..11 {
        let cost = Problem::new(vec![10, 2, 3, 4], budget, 7)
            .solution()
            .map(|p| p.total_cost());
        match (last_cost, cost) {
            (Some(prev), Some(cur)) => assert!(cur <= prev),
            (Some(_), None) => panic!("feasible problem became infeasible"),
            _ => {}
        }
        last_cost = cost;
    }
    assert_eq!(last_cost, Some(7));
}

#[test]
fn budget_fits_on_small_problems() {
    assert!(Problem::new(vec![5, 1], 10, 3).budget_fits());
}

#[test]
fn solution_uses_repeated_packets() {
    // Catalog: (price 2, qty 1). Target 4 takes four copies.
    let problem = Problem::new(vec![2], 5, 4);
    let solution = problem.solution().unwrap();
    assert_eq!(solution.total_cost(), 8);
    assert_eq!(solution.packet_list.len(), 4);
}

#[test]
fn solution_hits_target_within_budget() {
    let solution = Problem::new(vec![10, 2, 3, 4], 4, 7).solution().unwrap();
    let total_qty: usize = solution.packet_list.iter().map(|p| p.quantity).sum();
    assert_eq!(total_qty, 7);
    assert!(solution.packet_list.len() <= 4);
    assert_eq!(solution.total_cost(), 7);
}

use packet_solver::Packet;
use packet_solver::Possibility;
use packet_solver::Problem;

#[test]
fn test_packet_from_array() {
    /* Trivial constructor */
    let packet_list = Packet::from_array(vec![1, 2, 3]);

    assert!(packet_list.len() == 3);

    assert!(packet_list.get(0).unwrap().price == 3);
    assert!(packet_list.get(1).unwrap().price == 2);
    assert!(packet_list.get(2).unwrap().price == 1);

    assert!(packet_list.get(0).unwrap().quantity == 3);
    assert!(packet_list.get(1).unwrap().quantity == 2);
    assert!(packet_list.get(2).unwrap().quantity == 1);

    /* Non-trivial constructor */
    let packet_list = Packet::from_array(vec![9, -1, 7]);

    /* -1 index will omit second packet */
    assert!(packet_list.len() == 2);

    /* packets are sorted by price, so first packet costs 7, second costs 9 */
    assert!(packet_list.get(0).unwrap().price == 7);
    assert!(packet_list.get(1).unwrap().price == 9);

    /* packets are sorted by price, so first packet contains 3, second contains 1 */
    assert!(packet_list.get(0).unwrap().quantity == 3);
    assert!(packet_list.get(1).unwrap().quantity == 1);
}

#[test]
fn test_possibility_total_cost() {
    let packet_list = Packet::from_array(vec![1, 2, 3, 4, 5]);

    assert!(Possibility::new(&packet_list, vec![1]).total_cost() == 5);
    assert!(Possibility::new(&packet_list, vec![3]).total_cost() == 15);
    assert!(Possibility::new(&packet_list, vec![0, 0, 3]).total_cost() == 9);
    assert!(Possibility::new(&packet_list, vec![0, 0, 0, 2]).total_cost() == 4);
}

#[test]
fn test_problem_solving() {
    assert_eq!(Problem::new(vec![1, 2, 3, 4, 5], 5, 5).solution().unwrap().total_cost(), 5);
    assert_eq!(Problem::new(vec![10, 2, 3, 4], 10, 1).solution().unwrap().total_cost(), 10);
    match Problem::new(vec![-1, -1, 4, 5, -1], 3, 5).solution() {
        Some(_) => panic!("Not supposed to have a solution"),
        None => assert!(true),
    };
    assert_eq!(Problem::new(vec![10, 2, 3, 4], 4, 7).solution().unwrap().total_cost(), 7);
    assert_eq!(Problem::new(vec![10, 2, 3, 4], 15, 5).solution().unwrap().total_cost(), 5);
}

#[test]
fn test_problem_solving_advanced() {
    match Problem::new(vec![2, 1, 3, -1, 4, 10], 3, 6).solution() {
        Some(solution) => assert_eq!(solution.total_cost(), 3),
        None => panic!("Not supposed to have a solution"),
    };

    match Problem::new(vec![2, 5, 3, 2, 6], 1, 5).solution() {
        Some(solution) => assert_eq!(solution.total_cost(), 6),
        None => panic!("Not supposed to have a solution"),
    };

    match Problem::new(vec![2, 1, 3, -1, 4], 3, 5).solution() {
        Some(solution) => assert_eq!(solution.total_cost(), 4),
        None => panic!("Not supposed to have a solution"),
    };

    match Problem::new(vec![-1, -1, 3, -1, -1, -1, 7, -1, -1, -1, -1, -1, 13, -1], 2, 23).solution()
    {
        Some(_) => panic!("Not supposed to have a solution"),
        None => assert!(true),
    };
}

use mkp::Knapsack;
use mkp::Ratio;
use mkp::Statistics;
use mkp::Trial;

fn one_dimension() -> Knapsack {
    Knapsack::from(b"3 1 0 0\n6 5 4\n5 4 3\n10\n").unwrap()
}

fn never_fits() -> Knapsack {
    Knapsack::from(b"1 2 0 0\n7\n6\n1\n5 5\n").unwrap()
}

fn five_alike() -> Knapsack {
    Knapsack::from(b"5 1 0 0\n4 4 4 4 4\n3 3 3 3 3\n10\n").unwrap()
}

fn two_dimensions() -> Knapsack {
    Knapsack::from(b"4 2 0 0\n10 7 3 8\n4 3 1 5\n2 6 1 4\n9 8\n").unwrap()
}

fn weight_of(knapsack: &Knapsack, stats: &Statistics, dimension: usize) -> u32 {
    let mut sum: u32 = 0;
    for id in &stats.picked_items {
        sum += u32::from(knapsack.items()[*id - 1].weights[dimension]);
    }
    sum
}

#[test]
fn greedy_takes_items_by_ratio_on_one_dimension() {
    let stats = one_dimension().run_greedy();
    assert_eq!(stats.total_profit, 9);
    assert_eq!(stats.picked_items, vec![3, 2]);
    assert_eq!(stats.utilization, vec![Ratio { numerator: 7, denominator: 10 }]);
    assert_eq!(stats.runs, 1);
}

#[test]
fn ranking_puts_the_best_ratio_first() {
    assert_eq!(one_dimension().rank(), vec![2, 1, 0]);
}

#[test]
fn ranking_keeps_input_order_among_equal_ratios() {
    let knapsack = Knapsack::from(b"4 1 0 0\n2 4 6 1\n1 2 3 1\n100\n").unwrap();
    assert_eq!(knapsack.rank(), vec![0, 1, 2, 3]);
}

#[test]
fn ranking_leaves_a_weightless_item_in_its_place() {
    let knapsack = Knapsack::from(b"3 1 0 0\n1 5 9\n1 0 1\n100\n").unwrap();
    assert_eq!(knapsack.rank(), vec![0, 1, 2]);
}

#[test]
fn item_that_fits_in_one_dimension_only_is_never_taken() {
    let knapsack = never_fits();
    let greedy = knapsack.run_greedy();
    assert_eq!(greedy.total_profit, 0);
    assert!(greedy.picked_items.is_empty());
    let random = knapsack.run_random(8);
    assert_eq!(random.total_profit, 0);
    assert!(random.picked_items.is_empty());
    assert_eq!(random.runs, 8);
    let zero = Ratio { numerator: 0, denominator: 5 };
    assert_eq!(random.utilization, vec![zero, zero]);
}

#[test]
fn no_trial_reports_nothing_taken() {
    let stats = one_dimension().run_random(0);
    assert_eq!(stats.total_profit, 0);
    assert!(stats.picked_items.is_empty());
    assert_eq!(stats.runs, 0);
    assert_eq!(stats.utilization, vec![Ratio { numerator: 0, denominator: 10 }]);
}

#[test]
fn identical_items_are_taken_as_often_as_they_fit() {
    let knapsack = five_alike();
    let greedy = knapsack.run_greedy();
    assert_eq!(greedy.picked_items.len(), 3);
    assert_eq!(greedy.total_profit, 12);
    for _ in 0..20 {
        let random = knapsack.run_random(4);
        assert_eq!(random.picked_items.len(), 3);
        assert_eq!(random.total_profit, 12);
        assert_eq!(random.utilization, vec![Ratio { numerator: 9, denominator: 10 }]);
    }
}

#[test]
fn greedy_gives_the_same_report_twice() {
    let knapsack = two_dimensions();
    let first = knapsack.run_greedy();
    let second = knapsack.run_greedy();
    assert_eq!(first.picked_items, second.picked_items);
    assert_eq!(first.total_profit, second.total_profit);
    assert_eq!(first.utilization, second.utilization);
}

#[test]
fn greedy_on_two_dimensions() {
    let knapsack = two_dimensions();
    assert_eq!(knapsack.rank(), vec![0, 2, 3, 1]);
    let stats = knapsack.run_greedy();
    assert_eq!(stats.picked_items, vec![1, 3]);
    assert_eq!(stats.total_profit, 13);
    assert_eq!(
        stats.utilization,
        vec![Ratio { numerator: 5, denominator: 9 }, Ratio { numerator: 3, denominator: 8 }]
    );
}

#[test]
fn no_report_exceeds_a_capacity() {
    let knapsack = two_dimensions();
    let greedy = knapsack.run_greedy();
    assert!(weight_of(&knapsack, &greedy, 0) <= 9);
    assert!(weight_of(&knapsack, &greedy, 1) <= 8);
    for _ in 0..20 {
        let random = knapsack.run_random(3);
        assert!(weight_of(&knapsack, &random, 0) <= 9);
        assert!(weight_of(&knapsack, &random, 1) <= 8);
    }
}

#[test]
fn shares_lie_between_zero_and_one() {
    let knapsack = Knapsack::from(b"2 2 0 0\n3 4\n1 2\n0 0\n2 0\n").unwrap();
    let greedy = knapsack.run_greedy();
    assert_eq!(greedy.picked_items, vec![1]);
    assert_eq!(
        greedy.utilization,
        vec![Ratio { numerator: 1, denominator: 2 }, Ratio { numerator: 0, denominator: 1 }]
    );
    let random = knapsack.run_random(5);
    for share in &random.utilization {
        assert!(share.denominator > 0);
        assert!(share.numerator <= share.denominator);
    }
    assert_eq!(random.utilization[1], Ratio { numerator: 0, denominator: 1 });
}

#[test]
fn sweep_follows_the_given_order() {
    let knapsack = one_dimension();
    let stats = knapsack.sweep(&vec![0, 1, 2]);
    assert_eq!(stats.picked_items, vec![1, 2]);
    assert_eq!(stats.total_profit, 11);
    assert_eq!(stats.utilization, vec![Ratio { numerator: 9, denominator: 10 }]);
    assert_eq!(stats.runs, 1);
    let stats = knapsack.sweep(&vec![1, 2, 0]);
    assert_eq!(stats.picked_items, vec![2, 3]);
    assert_eq!(stats.total_profit, 9);
}

#[test]
fn sweep_does_not_come_back_to_a_rejected_item() {
    let knapsack = Knapsack::from(b"3 1 0 0\n1 9 1\n6 5 1\n10\n").unwrap();
    let stats = knapsack.sweep(&vec![0, 1, 2]);
    assert_eq!(stats.picked_items, vec![1, 3]);
    assert_eq!(stats.total_profit, 2);
}

#[test]
fn batch_reports_the_first_of_the_best_trials() {
    let knapsack = one_dimension();
    let trials = vec![
        Trial::new(vec![2, 1, 0]),
        Trial::new(vec![0, 1, 2]),
        Trial::new(vec![1, 0, 2]),
        Trial::new(vec![2, 0, 1]),
    ];
    let stats = knapsack.run_trials(trials);
    assert_eq!(stats.total_profit, 11);
    assert_eq!(stats.picked_items, vec![1, 2]);
    assert_eq!(stats.runs, 4);
}

#[test]
fn batch_is_at_least_as_good_as_each_of_its_trials() {
    let knapsack = two_dimensions();
    let orders = vec![vec![0, 1, 2, 3], vec![3, 2, 1, 0], vec![1, 3, 0, 2], vec![2, 3, 1, 0]];
    let mut trials = Vec::new();
    for order in &orders {
        trials.push(Trial::new(order.clone()));
    }
    let best = knapsack.run_trials(trials);
    assert_eq!(best.runs, 4);
    for order in &orders {
        assert!(knapsack.sweep(order).total_profit <= best.total_profit);
    }
    assert_eq!(best.total_profit, 17);
    assert_eq!(best.picked_items, vec![1, 2]);
}

#[test]
fn batch_without_trials_reports_nothing_taken() {
    let stats = one_dimension().run_trials(Vec::new());
    assert_eq!(stats.total_profit, 0);
    assert!(stats.picked_items.is_empty());
    assert_eq!(stats.runs, 0);
}

#[test]
fn evaluating_a_trial_keeps_its_order_and_fills_in_the_report() {
    let knapsack = one_dimension();
    let mut trial = Trial::new(vec![0, 2, 1]);
    assert!(trial.result.is_none());
    knapsack.evaluate(&mut trial);
    assert_eq!(trial.order, vec![0, 2, 1]);
    let stats = trial.result.unwrap();
    assert_eq!(stats.picked_items, vec![1, 3]);
    assert_eq!(stats.total_profit, 10);
}

#[test]
fn random_runs_report_the_requested_number_of_trials() {
    let knapsack = two_dimensions();
    for runs in 1..12 {
        let stats = knapsack.run_random(runs);
        assert_eq!(stats.runs, runs);
        assert!(stats.total_profit >= 10);
        assert!(stats.total_profit <= 18);
    }
}

#[test]
fn random_orders_vary() {
    let knapsack = Knapsack::from(
        b"12 1 0 0\n1 1 1 1 1 1 1 1 1 1 1 1\n1 1 1 1 1 1 1 1 1 1 1 1\n12\n",
    )
    .unwrap();
    let mut rising = 0;
    for _ in 0..50 {
        let stats = knapsack.run_random(1);
        let mut ids = stats.picked_items.clone();
        if ids == vec![1, 2, 3, 4, 5, 6, 7, 8, 9, 10, 11, 12] {
            rising += 1;
        }
        ids.sort();
        assert_eq!(ids, vec![1, 2, 3, 4, 5, 6, 7, 8, 9, 10, 11, 12]);
    }
    assert!(rising < 50);
}

#[test]
fn ratios_are_compared_exactly() {
    let third = Ratio { numerator: 1, denominator: 3 };
    let half = Ratio { numerator: 1, denominator: 2 };
    let two_quarters = Ratio { numerator: 2, denominator: 4 };
    let undefined = Ratio { numerator: 5, denominator: 0 };
    assert!(half.exceeds(&third));
    assert!(!third.exceeds(&half));
    assert!(!half.exceeds(&two_quarters));
    assert!(!two_quarters.exceeds(&half));
    assert!(!undefined.exceeds(&half));
    assert!(!half.exceeds(&undefined));
    let close = Ratio { numerator: 65534, denominator: 65535 };
    let closer = Ratio { numerator: 4294967294, denominator: 4294967295 };
    assert!(closer.exceeds(&close));
    assert!(!close.exceeds(&closer));
}

#[test]
fn items_outrank_by_profit_per_weight() {
    let knapsack = one_dimension();
    let items = knapsack.items();
    assert!(items[2].outranks(&items[0]));
    assert!(items[1].outranks(&items[0]));
    assert!(!items[0].outranks(&items[1]));
    assert!(!items[0].outranks(&items[0]));
}

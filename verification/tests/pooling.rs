use inference_bench::pooling::{pool_plan, pool_row, PoolTerm};

#[test]
fn plans_hold_the_unmasked_tokens() {
    let mask = vec![1, 1, 0, 1, 0, 0];
    let plan = pool_plan(&mask, 2, 3, 4);
    assert_eq!(plan.len(), 2);
    assert_eq!(
        plan[0].terms,
        vec![PoolTerm { base: 0, weight: 1 }, PoolTerm { base: 4, weight: 1 }]
    );
    assert_eq!(plan[0].denominator, 2);
    assert_eq!(plan[1].terms, vec![PoolTerm { base: 12, weight: 1 }]);
    assert_eq!(plan[1].denominator, 1);
}

#[test]
fn fully_masked_rows_divide_by_one() {
    let row = pool_row(&vec![0, 0, 0], 0, 3, 8);
    assert!(row.terms.is_empty());
    assert_eq!(row.denominator, 1);
}

#[test]
fn weights_add_up() {
    let row = pool_row(&vec![0, 5, 7], 0, 3, 1);
    assert_eq!(row.denominator, 12);
    assert_eq!(row.terms[1], PoolTerm { base: 2, weight: 7 });
}

#[test]
fn padding_leaves_the_plan_alone() {
    let short = pool_row(&vec![1, 1], 0, 2, 3);
    let long = pool_row(&vec![1, 1, 0, 0, 0], 0, 5, 3);
    assert_eq!(short.terms, long.terms);
    assert_eq!(short.denominator, long.denominator);
}

#[test]
fn runs_stay_inside_the_hidden_state() {
    let mask = vec![1; 12];
    for row in pool_plan(&mask, 3, 4, 5) {
        for term in row.terms {
            assert!(term.base + 5 <= 60);
        }
    }
}

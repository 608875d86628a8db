use euler::solutions::p084_monopoly::modal_string;

#[test]
fn modal_string_names_the_three_greatest() {
    let mut scores = vec![0i32; 40];
    scores[10] = 6233;
    scores[24] = 3188;
    scores[0] = 3094;
    assert_eq!(modal_string(&scores), 102400);
    scores[15] = 3500;
    assert_eq!(modal_string(&scores), 101524);
}

#[test]
fn modal_string_puts_the_lower_square_first_among_equals() {
    let mut scores = vec![1i32; 40];
    assert_eq!(modal_string(&scores), 102);
    scores[39] = 2;
    assert_eq!(modal_string(&scores), 390001);
    scores[7] = 2;
    assert_eq!(modal_string(&scores), 73900);
}

#[test]
fn modal_string_takes_negative_scores() {
    assert_eq!(modal_string(&[-5, -1, -3]), 10200);
    assert_eq!(modal_string(&[i32::MIN, i32::MAX, 0, -1]), 10203);
}

use led_positions::mode::tallest;

#[test]
fn tallest_mode_is_chosen_first_on_ties() {
    assert_eq!(tallest(&vec![480, 1080, 720, 1080]), Some(1));
    assert_eq!(tallest(&vec![240]), Some(0));
    assert_eq!(tallest(&vec![]), None);
}

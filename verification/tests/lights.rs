use circuits::machine::{buttons_of_counter, list_holds, Machine};

#[test]
fn parse_lights() {
    let input = "[...#.]";
    let expected = 0b00010;
    assert_eq!(
        expected,
        input.trim_matches(['[', ']']).chars().fold(0, |acc, ch| {
            if ch == '#' { (acc << 1) + 1 } else { acc << 1 }
        })
    );
}

#[test]
fn test_press_all_the_buttons() {
    let mut lights = 0;
    let buttons = vec![vec![0], vec![0, 1], vec![0, 1, 2]];
    let wanted = 5;
    for button in &buttons {
        Machine::press(&mut lights, button);
    }
    assert_eq!(lights, wanted);
}

#[test]
fn test_find_actual_solution() {
    let mut lights = 0;
    let buttons = [vec![2, 4], vec![0, 1, 2], vec![1, 2, 3, 4]];
    let expected = [0b10100, 0b10011, 0b01101];
    for (button, wanted) in buttons.iter().zip(&expected) {
        Machine::press(&mut lights, button);
        assert_eq!(lights, *wanted);
    }
}

#[test]
fn press_nothing_keeps_the_lights() {
    let mut lights = 0b1011;
    Machine::press(&mut lights, &[]);
    assert_eq!(lights, 0b1011);
}

#[test]
fn press_twice_restores_the_lights() {
    let mut lights = 0b0110;
    Machine::press(&mut lights, &[3, 31, 3, 31]);
    assert_eq!(lights, 0b0110);
    Machine::press(&mut lights, &[31]);
    assert_eq!(lights, 0x8000_0006);
}

fn machine(goal: u32, groups: &[&[usize]]) -> Machine {
    Machine {
        goal,
        button_group: groups.iter().map(|g| g.to_vec()).collect(),
        joltages: Vec::new(),
    }
}

fn sample_machines() -> Vec<Machine> {
    vec![
        machine(0b0110, &[&[3], &[1, 3], &[2], &[2, 3], &[0, 2], &[0, 1]]),
        machine(0b01000, &[&[0, 2, 3, 4], &[2, 3], &[0, 4], &[0, 1, 2], &[1, 2, 3, 4]]),
        machine(0b101110, &[&[0, 1, 2, 3, 4], &[0, 3, 4], &[0, 1, 2, 4, 5], &[1, 2]]),
    ]
}

#[test]
fn press_all_presses_the_chosen_buttons() {
    let m = &sample_machines()[0];
    assert_eq!(m.press_all(&vec![]), 0);
    assert_eq!(m.press_all(&vec![1]), 0b1010);
    assert_eq!(m.press_all(&vec![1, 3]), 0b0110);
    assert_eq!(m.press_all(&vec![4, 5]), 0b0110);
}

#[test]
fn fewest_presses_finds_the_smallest_choice() {
    let ms = sample_machines();
    assert_eq!(ms[0].fewest_presses(), 2);
    assert_eq!(ms[1].fewest_presses(), 3);
    assert_eq!(ms[2].fewest_presses(), 2);
}

#[test]
fn fewest_presses_of_a_goal_that_is_already_there() {
    assert_eq!(machine(0, &[&[0], &[1]]).fewest_presses(), 0);
    assert_eq!(machine(0, &[]).fewest_presses(), 0);
}

#[test]
fn fewest_presses_where_no_choice_reaches_the_goal() {
    assert_eq!(machine(1, &[&[1]]).fewest_presses(), 1);
    assert_eq!(machine(1, &[&[1], &[2], &[1, 2]]).fewest_presses(), 3);
    assert_eq!(machine(1, &[]).fewest_presses(), 0);
}

#[test]
fn fewest_presses_needs_every_button() {
    assert_eq!(machine(0b111, &[&[0], &[1], &[2]]).fewest_presses(), 3);
}

#[test]
fn part1_adds_up_the_machines() {
    assert_eq!(circuits::machine::part1(&sample_machines()), Some(7));
    assert_eq!(circuits::machine::part1(&[]), Some(0));
}

#[test]
fn buttons_of_a_counter_come_in_ascending_order() {
    let m = &sample_machines()[0];
    assert_eq!(buttons_of_counter(&m.button_group, 0), vec![4, 5]);
    assert_eq!(buttons_of_counter(&m.button_group, 1), vec![1, 5]);
    assert_eq!(buttons_of_counter(&m.button_group, 2), vec![2, 3, 4]);
    assert_eq!(buttons_of_counter(&m.button_group, 3), vec![0, 1, 3]);
    assert_eq!(buttons_of_counter(&m.button_group, 4), Vec::<usize>::new());
    assert_eq!(buttons_of_counter(&Vec::new(), 0), Vec::<usize>::new());
    assert!(list_holds(&vec![3, 1, 2], 1));
    assert!(!list_holds(&vec![3, 1, 2], 0));
    assert!(!list_holds(&vec![], 0));
}

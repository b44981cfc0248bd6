use cycle_detect::{Brent, Cycle, Floyd, List};

#[test]
fn floyd_test() {
    let d = Floyd::default();
    assert_eq!(d.find_cycle(&List::from(vec![])), None, "empty");
    assert_eq!(d.find_cycle(&List::from(vec!['A'])), None, "A");
    assert_eq!(d.find_cycle(&List::from(vec!['A', 'B', 'C'])), None, "ABC");
    assert_eq!(d.find_cycle(&List::from(vec!['A', 'A'])), Some(Cycle(0, 1)), "AA");
    assert_eq!(d.find_cycle(&List::from(vec!['A', 'B', 'B'])), Some(Cycle(1, 1)), "ABB");
    assert_eq!(d.find_cycle(&List::from(vec!['A', 'B', 'A'])), Some(Cycle(0, 2)), "ABA");
    assert_eq!(
        d.find_cycle(&List::from(vec!['A', 'B', 'C', 'B'])),
        Some(Cycle(1, 2)),
        "ABCB"
    );
    assert_eq!(
        d.find_cycle(&List::from(vec!['A', 'B', 'C', 'D', 'E', 'F', 'G', 'H', 'D'])),
        Some(Cycle(3, 5)),
        "ABCDEFGHD"
    );
}

#[test]
fn brent_test() {
    let d = Brent::default();
    assert_eq!(d.find_cycle(&List::from(vec![])), None, "empty");
    assert_eq!(d.find_cycle(&List::from(vec!['A'])), None, "A");
    assert_eq!(d.find_cycle(&List::from(vec!['A', 'B', 'C'])), None, "ABC");
    assert_eq!(d.find_cycle(&List::from(vec!['A', 'A'])), Some(Cycle(0, 1)), "AA");
    assert_eq!(d.find_cycle(&List::from(vec!['A', 'B', 'B'])), Some(Cycle(1, 1)), "ABB");
    assert_eq!(d.find_cycle(&List::from(vec!['A', 'B', 'A'])), Some(Cycle(0, 2)), "ABA");
    assert_eq!(
        d.find_cycle(&List::from(vec!['A', 'B', 'C', 'B'])),
        Some(Cycle(1, 2)),
        "ABCB"
    );
    assert_eq!(
        d.find_cycle(&List::from(vec!['A', 'B', 'C', 'D', 'E', 'F', 'G', 'H', 'D'])),
        Some(Cycle(3, 5)),
        "ABCDEFGHD"
    );
}

#[test]
fn detectors_agree_on_every_example() {
    let examples: Vec<Vec<char>> = vec![
        vec![],
        vec!['A'],
        vec!['A', 'B', 'C'],
        vec!['A', 'A'],
        vec!['A', 'B', 'B'],
        vec!['A', 'B', 'A'],
        vec!['A', 'B', 'C', 'B'],
        vec!['A', 'B', 'C', 'A'],
        vec!['A', 'B', 'C', 'D', 'E', 'F', 'G', 'H', 'D'],
        vec!['x', 'y', 'z', 'x'],
        vec!['p', 'q', 'r', 's', 't', 'q'],
    ];
    let floyd = Floyd::default();
    let brent = Brent::default();
    for values in examples {
        let list = List::from(values.clone());
        assert_eq!(
            floyd.find_cycle(&list),
            brent.find_cycle(&list),
            "detectors disagree on {:?}",
            values
        );
    }
}

#[test]
fn repeated_calls_return_the_same_result() {
    let list = List::from(vec!['A', 'B', 'C', 'B']);
    let floyd = Floyd::default();
    let brent = Brent::default();
    let first = floyd.find_cycle(&list);
    assert_eq!(first, Some(Cycle(1, 2)));
    assert_eq!(floyd.find_cycle(&list), first);
    assert_eq!(floyd.find_cycle(&list), first);
    assert_eq!(brent.find_cycle(&list), first);
    assert_eq!(brent.find_cycle(&list), first);
}

#[test]
fn self_loop_is_found_at_once() {
    let floyd = Floyd::default();
    let brent = Brent::default();
    assert_eq!(floyd.find_cycle(&List::from(vec!['Z', 'Z'])), Some(Cycle(0, 1)));
    assert_eq!(brent.find_cycle(&List::from(vec!['Z', 'Z'])), Some(Cycle(0, 1)));
}

#[test]
fn whole_list_loop_starts_at_zero() {
    let floyd = Floyd::default();
    let brent = Brent::default();
    let result = Some(Cycle(0, 3));
    assert_eq!(floyd.find_cycle(&List::from(vec!['A', 'B', 'C', 'A'])), result);
    assert_eq!(brent.find_cycle(&List::from(vec!['A', 'B', 'C', 'A'])), result);
}

#[test]
fn repeated_value_keeps_only_its_last_successor() {
    // 'A' first maps to 'B', then the later pair overrides it with 'C', so
    // the chain is A -> C and terminates.
    let list = List::from(vec!['A', 'B', 'A', 'C']);
    assert_eq!(Floyd::default().find_cycle(&list), None);
    assert_eq!(Brent::default().find_cycle(&list), None);
}

#[test]
fn long_tail_and_long_loop() {
    // Twenty distinct values whose last one loops back to offset five, so the
    // doubling search runs through several passes before the cursors meet.
    let mut values: Vec<char> = ('a'..='t').collect();
    values.push('f');
    let list = List::from(values);
    assert_eq!(Floyd::default().find_cycle(&list), Some(Cycle(5, 15)));
    assert_eq!(Brent::default().find_cycle(&list), Some(Cycle(5, 15)));

    let straight: Vec<char> = ('a'..='t').collect();
    let list = List::from(straight);
    assert_eq!(Floyd::default().find_cycle(&list), None);
    assert_eq!(Brent::default().find_cycle(&list), None);
}

#[test]
fn start_and_step_follow_the_table() {
    let list = List::from(vec!['A', 'B', 'C']);
    assert_eq!(list.start(), Some('A'));
    assert_eq!(list.step(Some('A')), Some('B'));
    assert_eq!(list.step(Some('B')), Some('C'));
    assert_eq!(list.step(Some('C')), None);
    assert_eq!(list.step(Some('Q')), None);
    assert_eq!(list.step(None), None);
}

#[test]
fn empty_list_has_no_start() {
    let list = List::from(vec![]);
    assert_eq!(list.start(), None);
    assert_eq!(list.step(None), None);
}

use tokyodoves::analysis::{BoardValue, BoardValueKind};

#[test]
fn test_create_win() {
    for n in 0..100 {
        let Some(val) = BoardValue::win(n) else {
            continue;
        };
        assert_eq!(val, BoardValue::from(Some(n)));
        assert!(val.is_win());
        assert_eq!(val.kind(), BoardValueKind::Win);
        let num = val.unwrap();
        assert_eq!(n, num);
        assert_eq!(val, BoardValue::win(num).unwrap());
    }
}

#[test]
fn test_create_lose() {
    for n in 0..100 {
        let Some(val) = BoardValue::lose(n) else {
            continue;
        };
        assert_eq!(val, BoardValue::from(Some(n)));
        assert!(val.is_lose());
        assert_eq!(val.kind(), BoardValueKind::Lose);
        let num = val.unwrap();
        assert_eq!(n, num);
        assert_eq!(val, BoardValue::lose(num).unwrap());
    }
}

#[test]
fn test_create_unknown() {
    let val = BoardValue::unknown();
    assert_eq!(val, BoardValue::from(None));
    assert!(val.is_unknown());
    assert_eq!(val.kind(), BoardValueKind::Unknown);
    assert!(val.try_unwrap().is_none());
}

#[test]
fn test_create_finished() {
    let val = BoardValue::finished();
    assert_eq!(val, BoardValue::from(Some(0)));
    assert!(val.is_finished());
    assert_eq!(val.kind(), BoardValueKind::Finished);
    assert!(val.try_unwrap().is_none());
}

#[test]
fn test_increment() {
    assert_eq!(BoardValue::unknown(), BoardValue::unknown().increment());

    let mut val = BoardValue::finished();
    for num in 1..100 {
        val = val.increment();
        assert_eq!(val, BoardValue::from(Some(num)));
        assert_eq!(val.unwrap(), num);
    }
}

#[test]
fn test_try_decrement() {
    assert_eq!(
        BoardValue::unknown(),
        BoardValue::unknown().try_decrement().unwrap()
    );
    let mut val = BoardValue::lose(100).unwrap();
    for num in (0..100).rev() {
        val = val.try_decrement().unwrap();
        assert_eq!(val, BoardValue::from(Some(num)));
        if num == 0 {
            assert!(val.try_unwrap().is_none());
        } else {
            assert_eq!(val.unwrap(), num);
        }
    }
    assert!(val.try_decrement().is_none());
}

#[test]
fn test_compare() {
    let unknown = BoardValue::unknown();
    let finished = BoardValue::finished();
    assert!(!(finished < finished));
    assert!(!(finished > finished));
    assert_eq!(finished, finished);
    assert!(!(finished < unknown));
    assert!(!(unknown < finished));
    assert!(!(finished > unknown));
    assert!(!(unknown > finished));

    let mut is_first_loop = true;
    for num_win in (1..100).step_by(2) {
        let win = BoardValue::win(num_win).unwrap();
        assert!(win <= BoardValue::max_value());
        if win != BoardValue::max_value() {
            assert!(win < BoardValue::max_value());
        }
        assert!(unknown < win);
        assert!(!(finished < win));
        assert!(!(finished > win));
        assert!(!(win < finished));
        assert!(!(win > finished));

        for num_lose in (2..100).step_by(2) {
            let lose = BoardValue::lose(num_lose).unwrap();
            assert!(lose >= BoardValue::min_value());
            if lose != BoardValue::min_value() {
                assert!(lose > BoardValue::min_value());
            }
            assert!(lose < win);
            assert!(lose < unknown);

            if is_first_loop {
                assert!(!(finished < lose));
                assert!(!(finished > lose));
                assert!(!(lose < finished));
                assert!(!(lose > finished));
            }
        }
        is_first_loop = false;
    }
}

#[test]
fn increment_then_decrement_is_identity() {
    let values = [
        BoardValue::unknown(),
        BoardValue::finished(),
        BoardValue::win(1).unwrap(),
        BoardValue::lose(2).unwrap(),
        BoardValue::win(7).unwrap(),
        BoardValue::lose(40).unwrap(),
    ];
    for v in values {
        assert_eq!(v.increment().try_decrement(), Some(v));
    }
    assert_eq!(BoardValue::win(3).unwrap().increment(), BoardValue::lose(4).unwrap());
    assert_eq!(BoardValue::finished().try_decrement(), None);
}

#[test]
fn invalid_constructions_are_refused() {
    assert_eq!(BoardValue::win(0), None);
    assert_eq!(BoardValue::win(4), None);
    assert_eq!(BoardValue::lose(0), None);
    assert_eq!(BoardValue::lose(3), None);
    assert_eq!(BoardValue::unknown().try_unwrap(), None);
    assert_eq!(BoardValue::win(5).unwrap().try_unwrap(), Some(5));
}

#[test]
fn unknown_lies_between_losses_and_wins() {
    let unknown = BoardValue::unknown();
    assert!(BoardValue::lose(98).unwrap() < unknown);
    assert!(unknown < BoardValue::win(99).unwrap());
    assert!(BoardValue::lose(2).unwrap().less_than(&BoardValue::lose(4).unwrap()));
    assert!(BoardValue::win(3).unwrap().less_than(&BoardValue::win(1).unwrap()));
    assert!(!BoardValue::finished().less_or_equal(&unknown));
    assert!(BoardValue::finished().less_or_equal(&BoardValue::finished()));
}

use kjdb::gaps::Gaps;
use std::collections::BTreeMap;

/// With an empty file, request space from the end
#[test]
fn test_take_space_empty() {
    let mut gaps = Gaps::default();
    let offset = gaps.take_space(100);
    assert_eq!(offset, 0);
    assert_eq!(
        gaps,
        Gaps {
            file_end: 100,
            ..Default::default()
        }
    );
}

/// With an empty file, request space from the end twice
#[test]
fn test_take_space_empty_twice() {
    let mut gaps = Gaps::default();

    let offset = gaps.take_space(100);
    assert_eq!(offset, 0);

    let offset = gaps.take_space(50);
    assert_eq!(offset, 100);

    assert_eq!(
        gaps,
        Gaps {
            file_end: 150,
            ..Default::default()
        }
    );
}

/// With an empty file, register an immediate gap
#[test]
fn test_empty_add_gap() {
    let mut gaps = Gaps::default();
    gaps.add_gap(0, 100);
    assert_eq!(
        gaps,
        Gaps {
            map: BTreeMap::from([(0, 100)]),
            file_end: 100,
        }
    );
}

/// With a non-empty file, register a gap in the middle
#[test]
fn test_nonempty_add_gap() {
    let mut gaps = Gaps {
        file_end: 150,
        ..Default::default()
    };
    gaps.add_gap(50, 20);
    assert_eq!(
        gaps,
        Gaps {
            map: BTreeMap::from([(50, 20)]),
            file_end: 150,
        }
    );
}

/// On an empty file, register a gap, then truncate gaps from the end of the file
#[test]
fn test_empty_add_gap_truncate() {
    let mut gaps = Gaps::default();
    gaps.add_gap(0, 100);

    let end = gaps.truncate();
    assert_eq!(end, 0);
    assert_eq!(gaps, Gaps::default());
}

/// On a non-empty file, register one gap in the middle, two at the end, then truncate gaps from the end of the file
#[test]
fn test_nonempty_add_gap_truncate() {
    let mut gaps = Gaps {
        file_end: 150,
        ..Default::default()
    };
    gaps.add_gap(50, 20);
    gaps.add_gap(145, 15);
    gaps.add_gap(160, 100);
    let end = gaps.truncate();
    assert_eq!(end, 145);
    assert_eq!(
        gaps,
        Gaps {
            map: BTreeMap::from([(50, 20)]),
            file_end: 145,
        }
    );
}

/// Adding a gap after a gap should merge them
#[test]
fn test_gap_append_merge() {
    let mut gaps = Gaps {
        file_end: 150,
        ..Default::default()
    };
    gaps.add_gap(50, 10);
    gaps.add_gap(60, 30);
    assert_eq!(
        gaps,
        Gaps {
            map: BTreeMap::from([(50, 40)]),
            file_end: 150,
        }
    );
}

/// Adding a gap before a gap should merge them
#[test]
fn test_gap_prepend_merge() {
    let mut gaps = Gaps {
        file_end: 150,
        ..Default::default()
    };
    gaps.add_gap(60, 30);
    gaps.add_gap(50, 10);
    assert_eq!(
        gaps,
        Gaps {
            map: BTreeMap::from([(50, 40)]),
            file_end: 150,
        }
    );
}

/// Adding a gap between two gaps should merge them
#[test]
fn test_gap_between_merge() {
    let mut gaps = Gaps {
        file_end: 150,
        ..Default::default()
    };
    gaps.add_gap(70, 30);
    gaps.add_gap(50, 10);
    gaps.add_gap(60, 10);
    assert_eq!(
        gaps,
        Gaps {
            map: BTreeMap::from([(50, 50)]),
            file_end: 150,
        }
    );
}

/// Adding a gap after a gap (with overlap) should merge them
#[test]
fn test_gap_append_overlap_merge() {
    let mut gaps = Gaps {
        file_end: 150,
        ..Default::default()
    };
    gaps.add_gap(50, 11);
    gaps.add_gap(60, 30);
    assert_eq!(
        gaps,
        Gaps {
            map: BTreeMap::from([(50, 40)]),
            file_end: 150,
        }
    );
}

/// Adding a gap before a gap (with overlap) should merge them
#[test]
fn test_gap_prepend_overlap_merge() {
    let mut gaps = Gaps {
        file_end: 150,
        ..Default::default()
    };
    gaps.add_gap(60, 30);
    gaps.add_gap(50, 11);
    assert_eq!(
        gaps,
        Gaps {
            map: BTreeMap::from([(50, 40)]),
            file_end: 150,
        }
    );
}

/// Adding a gap between two gaps (with overlap) should merge them
#[test]
fn test_gap_between_overlap_merge() {
    let mut gaps = Gaps {
        file_end: 150,
        ..Default::default()
    };
    gaps.add_gap(70, 30);
    gaps.add_gap(50, 11);
    gaps.add_gap(60, 11);
    assert_eq!(
        gaps,
        Gaps {
            map: BTreeMap::from([(50, 50)]),
            file_end: 150,
        }
    );
}

/// Prepend overlapping to a small gap that we fully exhaust
/// This is unlikely to happen in practice
#[test]
fn test_gap_prepend_to_small_overlap_merge() {
    let mut gaps = Gaps {
        file_end: 150,
        ..Default::default()
    };
    gaps.add_gap(60, 2);
    gaps.add_gap(50, 30);
    assert_eq!(
        gaps,
        Gaps {
            map: BTreeMap::from([(50, 30)]),
            file_end: 150,
        }
    );
}

/// A request that fits a gap takes the front of the lowest such gap and
/// leaves the rest as a gap.
#[test]
fn take_space_splits_the_lowest_fitting_gap() {
    let mut gaps = Gaps {
        map: BTreeMap::from([(0, 5), (20, 30), (80, 40)]),
        file_end: 200,
    };
    let offset = gaps.take_space(10);
    assert_eq!(offset, 20);
    assert_eq!(
        gaps,
        Gaps {
            map: BTreeMap::from([(0, 5), (30, 20), (80, 40)]),
            file_end: 200,
        }
    );
}

/// A request of exactly a gap's size uses the gap up.
#[test]
fn take_space_uses_up_an_exact_gap() {
    let mut gaps = Gaps {
        map: BTreeMap::from([(10, 7)]),
        file_end: 40,
    };
    assert_eq!(gaps.take_space(7), 10);
    assert_eq!(
        gaps,
        Gaps {
            map: BTreeMap::new(),
            file_end: 40,
        }
    );
}

/// Taking space past the largest offset holds the file end at u64::MAX.
#[test]
fn take_space_saturates_at_the_end() {
    let mut gaps = Gaps {
        map: BTreeMap::new(),
        file_end: u64::MAX - 3,
    };
    assert_eq!(gaps.take_space(10), u64::MAX - 3);
    assert_eq!(gaps.file_end, u64::MAX);
}

/// A new gap joins the gap just before it, not a lower one.
#[test]
fn add_gap_joins_the_gap_just_before() {
    let mut gaps = Gaps {
        map: BTreeMap::from([(10, 5), (50, 10)]),
        file_end: 150,
    };
    gaps.add_gap(60, 30);
    assert_eq!(
        gaps,
        Gaps {
            map: BTreeMap::from([(10, 5), (50, 40)]),
            file_end: 150,
        }
    );
}

/// Joining never shrinks a gap: space already free stays free.
#[test]
fn add_gap_inside_a_gap_keeps_it() {
    let mut gaps = Gaps {
        map: BTreeMap::from([(50, 40)]),
        file_end: 150,
    };
    gaps.add_gap(60, 10);
    assert_eq!(
        gaps,
        Gaps {
            map: BTreeMap::from([(50, 40)]),
            file_end: 150,
        }
    );
}

/// A gap that meets neither neighbour stands apart.
#[test]
fn add_gap_between_apart_gaps_stands_alone() {
    let mut gaps = Gaps {
        map: BTreeMap::from([(0, 10), (50, 10)]),
        file_end: 200,
    };
    gaps.add_gap(30, 5);
    assert_eq!(
        gaps,
        Gaps {
            map: BTreeMap::from([(0, 10), (30, 5), (50, 10)]),
            file_end: 200,
        }
    );
}

/// A gap past the end of the file moves the end.
#[test]
fn add_gap_past_the_end_moves_the_end() {
    let mut gaps = Gaps::default();
    gaps.add_gap(30, 5);
    assert_eq!(gaps.file_end, 35);
}

/// Truncation stops at the first gap, from the end, that does not reach
/// the end of the file.
#[test]
fn truncate_stops_at_a_gap_short_of_the_end() {
    let mut gaps = Gaps {
        map: BTreeMap::from([(0, 10), (40, 10)]),
        file_end: 60,
    };
    assert_eq!(gaps.truncate(), 60);
    assert_eq!(gaps.map, BTreeMap::from([(0, 10), (40, 10)]));
}

/// Space can be taken unless splitting the chosen gap would pass u64::MAX.
#[test]
fn can_take_detects_overflowing_split() {
    let gaps = Gaps {
        map: BTreeMap::from([(u64::MAX - 2, 10)]),
        file_end: 0,
    };
    assert!(!gaps.can_take(5));
    assert!(gaps.can_take(10));
    assert!(gaps.can_take(11));
    let gaps = Gaps {
        map: BTreeMap::from([(u64::MAX - 10, 10)]),
        file_end: 0,
    };
    assert!(gaps.can_take(5));
}

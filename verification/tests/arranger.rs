use loyalfier::arranger::{make_table, MakeTableError, Sample, Table};

fn pool(n: usize) -> Vec<Sample> {
    let mut v: Vec<Sample> = vec![];
    for i in 0..n {
        v.push(Sample {
            id: i,
            dummy: false,
        });
    }
    v
}

#[test]
pub fn test() {
    let rows = 3;
    let columns = 3;
    let pages = 3;
    let table = make_table(
        vec![
            Sample {
                id: 0,
                dummy: false,
            },
            Sample {
                id: 1,
                dummy: false,
            },
            Sample {
                id: 2,
                dummy: false,
            },
            Sample {
                id: 3,
                dummy: false,
            },
            Sample {
                id: 4,
                dummy: false,
            },
            Sample {
                id: 5,
                dummy: false,
            },
            Sample {
                id: 6,
                dummy: false,
            },
            Sample {
                id: 7,
                dummy: false,
            },
            Sample {
                id: 8,
                dummy: false,
            },
            Sample {
                id: 9,
                dummy: false,
            },
            Sample {
                id: 10,
                dummy: false,
            },
            Sample {
                id: 11,
                dummy: false,
            },
            Sample {
                id: 12,
                dummy: false,
            },
        ],
        pages,
        rows,
        columns,
    );
    match table {
        Ok(x) => {
            assert_eq!(x.table.len(), rows + 2);
            assert_eq!(x.table[0].len(), columns + 1);
            assert_eq!(x.table[0][0].len(), pages);
            assert_ne!(x.table[1][1][0], Sample { id: 0, dummy: true });
            println!("converted vector:\n{:?}]", x.table)
        }
        _ => {}
    };
}

#[test]
pub fn arranger_test() {
    let rows = 3;
    let columns = 3;
    let pages = 3;
    let table = make_table(pool(13), pages, rows, columns);
    match table {
        Ok(x) => {
            assert_eq!(x.table.len(), rows + 2);
            assert_eq!(x.table[0].len(), columns + 1);
            assert_eq!(x.table[0][0].len(), pages);
            assert_ne!(x.table[1][1][0], Sample { id: 0, dummy: true });
            println!("converted vector:\n{:?}]", x.table)
        }
        _ => {}
    };
}

#[test]
fn thirteen_samples_three_pages_succeeds() {
    // 13 unique samples on a 3 x 3 x 3 grid: arrangement is owed.
    let table = make_table(pool(13), 3, 3, 3).unwrap();
    assert_eq!(table.rows, 3);
    assert_eq!(table.columns, 3);
    assert_eq!(table.pages, 3);
    assert_eq!(table.table.len(), 5);
    assert_eq!(table.table[0].len(), 4);
    assert_eq!(table.table[0][0].len(), 3);
    assert!(!table.table[1][1][0].dummy);
}

#[test]
fn zero_rows_is_invalid() {
    assert!(matches!(
        make_table(pool(13), 3, 0, 3),
        Err(MakeTableError::InvalidParameter)
    ));
}

#[test]
fn zero_columns_is_invalid() {
    assert!(matches!(
        make_table(pool(13), 3, 3, 0),
        Err(MakeTableError::InvalidParameter)
    ));
}

#[test]
fn zero_pages_is_invalid() {
    assert!(matches!(
        make_table(pool(13), 0, 3, 3),
        Err(MakeTableError::InvalidParameter)
    ));
}

#[test]
fn empty_pool_is_invalid() {
    assert!(matches!(
        make_table(vec![], 3, 3, 3),
        Err(MakeTableError::InvalidParameter)
    ));
}

#[test]
fn eight_samples_is_not_enough() {
    // 8 < 9, the fixed floor.
    assert!(matches!(
        make_table(pool(8), 3, 3, 3),
        Err(MakeTableError::NotEnoughSamples)
    ));
}

#[test]
fn four_per_page_floor() {
    // 13 < 4 * 4: enough for three pages but not for four.
    assert!(matches!(
        make_table(pool(13), 4, 3, 3),
        Err(MakeTableError::NotEnoughSamples)
    ));
    assert!(make_table(pool(16), 4, 3, 3).is_ok());
}

#[test]
fn repeated_ids_exhaust_the_fill() {
    // Nine copies of one id: the second cell of a column excludes them
    // all at once.
    let mut v: Vec<Sample> = vec![];
    for _ in 0..9 {
        v.push(Sample {
            id: 0,
            dummy: false,
        });
    }
    assert!(matches!(
        make_table(v, 1, 2, 2),
        Err(MakeTableError::ArrangementExhausted)
    ));
}

fn sample_eq(a: Sample, b: Sample) -> bool {
    !a.dummy && !b.dummy && a.id == b.id
}

fn assert_arranged(t: &Table) {
    for x in 1..=t.rows {
        for y in 1..=t.columns {
            for z in 0..t.pages {
                let c = t.table[x][y][z];
                assert!(!sample_eq(c, t.table[x - 1][y][z]));
                assert!(!sample_eq(c, t.table[x][y - 1][z]));
                assert!(!sample_eq(c, t.table[x - 1][y - 1][z]));
                assert!(!sample_eq(c, t.table[x + 1][y - 1][z]));
                assert!(!c.dummy);
            }
        }
    }
}

#[test]
fn no_adjacent_duplicates() {
    // Every interior cell differs from its four constrained neighbours
    // on every page, and borders stay placeholders.
    let t = make_table(pool(20), 2, 5, 5).unwrap();
    assert_arranged(&t);
    for y in 0..=t.columns {
        for z in 0..t.pages {
            assert!(t.table[0][y][z].dummy);
            assert!(t.table[t.rows + 1][y][z].dummy);
        }
    }
    for x in 0..t.rows + 2 {
        for z in 0..t.pages {
            assert!(t.table[x][0][z].dummy);
        }
    }
}

#[test]
fn arrangements_draw_from_the_pool() {
    let t = make_table(pool(9), 1, 3, 3).unwrap();
    for x in 1..=t.rows {
        for y in 1..=t.columns {
            let c = t.table[x][y][0];
            assert!(!c.dummy);
            assert!(c.id < 9);
        }
    }
}

#[test]
fn generate_vector_strips_the_padding() {
    let t = make_table(pool(13), 3, 3, 4).unwrap();
    let v = loyalfier::arranger::generate_vector(t.clone());
    assert_eq!(v.len(), 3);
    for p in 0..3 {
        assert_eq!(v[p].len(), 3);
        for a in 0..3 {
            assert_eq!(v[p][a].len(), 4);
            for b in 0..4 {
                assert_eq!(v[p][a][b], t.table[a + 1][b + 1][p]);
            }
        }
    }
}

#[test]
fn placeholder_equals_nothing() {
    let ph = Sample {
        id: 7,
        dummy: true,
    };
    let real = Sample {
        id: 7,
        dummy: false,
    };
    assert!(ph != ph);
    assert!(ph != real);
    assert!(real != ph);
    assert!(real == real);
    assert!(
        real != Sample {
            id: 8,
            dummy: false
        }
    );
}

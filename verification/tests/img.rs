use loyalfier::arranger::{make_table, Sample, Table};
use loyalfier::img::{i32_to_usize, MakePaperError, Paper, PaperObfuscation, PaperSize, Transform};

fn pool(n: usize) -> Vec<Sample> {
    let mut v: Vec<Sample> = vec![];
    for i in 0..n {
        v.push(Sample {
            id: i,
            dummy: false,
        });
    }
    v
}

fn grid() -> Table {
    make_table(pool(13), 3, 3, 3).unwrap()
}

#[test]
fn paper_sizes_in_pixels() {
    assert_eq!(PaperSize::A4.pixels(), [2480, 3508]);
    assert_eq!(PaperSize::A5.pixels(), [1240, 1754]);
    assert_eq!(PaperSize::B5.pixels(), [1624, 1075]);
}

#[test]
fn i32_to_usize_clamps_negatives() {
    assert_eq!(i32_to_usize(-5), 0);
    assert_eq!(i32_to_usize(0), 0);
    assert_eq!(i32_to_usize(7), 7);
}

#[test]
fn page_out_of_index() {
    // Page five of a three-page grid does not exist.
    let t = grid();
    assert!(matches!(
        Paper::make(t, 5, PaperSize::A4.pixels()),
        Err(MakePaperError::PageOutOfIndex)
    ));
}

#[test]
fn plan_places_cell_centres() {
    // A4 is 2480 x 3508; the table area is 2404 x 3432, one cell of a
    // 3 x 3 grid is 801 x 1144, so the first centre is (438, 610).
    let t = grid();
    let p = Paper::make(t, 0, PaperSize::A4.pixels()).unwrap();
    assert_eq!(p.img_size, [2480, 3508]);
    assert_eq!(p.border, [[38, 38], [2442, 38], [38, 3470], [2442, 3470]]);
    assert_eq!(p.unit_size, [801, 1144]);
    assert_eq!(p.table.len(), 9);
    let first = p.table[0];
    assert_eq!(first.row, 1);
    assert_eq!(first.column, 1);
    assert_eq!(first.position, [438, 610]);
    assert_eq!(first.rotation, 0);
    assert_eq!(first.scale, 1000);
    let last = p.table[8];
    assert_eq!(last.row, 3);
    assert_eq!(last.column, 3);
    assert_eq!(last.position, [438 + 2 * 801, 610 + 2 * 1144]);
}

#[test]
fn plan_is_one_pose_per_real_cell() {
    let t = grid();
    for z in 0..3 {
        let p = Paper::make(t.clone(), z, PaperSize::B5.pixels()).unwrap();
        assert_eq!(p.table.len(), 9);
        for i in 0..p.table.len() {
            let a = p.table[i];
            assert!(1 <= a.row && a.row <= 3);
            assert!(1 <= a.column && a.column <= 3);
            assert_eq!(a.id, t.table[a.row][a.column][z].id);
            assert!(!t.table[a.row][a.column][z].dummy);
            for j in 0..i {
                let b = p.table[j];
                assert!(!(a.row == b.row && a.column == b.column));
            }
        }
    }
}

#[test]
fn degenerate_page_size_saturates() {
    // A page narrower than the two insets: the layout saturates at
    // zero instead of wrapping, and every centre sits on the inset.
    let t = grid();
    let p = Paper::make(t, 0, [10, 200]).unwrap();
    assert_eq!(p.border, [[38, 38], [0, 38], [38, 162], [0, 162]]);
    assert_eq!(p.unit_size, [0, 41]);
    assert_eq!(p.table.len(), 9);
    for tr in p.table.iter() {
        assert_eq!(tr.position[0], 38);
        assert_eq!(tr.position[1], 58 + (tr.row - 1) * 41);
    }
}

#[test]
fn jitter_stays_in_band() {
    // Rotation within three degrees, scale within three percent,
    // position within eleven pixels per axis.
    let t = grid();
    let mut p = Paper::make(t, 0, PaperSize::A4.pixels()).unwrap();
    let before: Vec<Transform> = p.table.clone();
    p.alter();
    assert_eq!(p.table.len(), before.len());
    for i in 0..before.len() {
        let old = before[i];
        let new = p.table[i];
        assert_eq!(new.id, old.id);
        assert_eq!(new.row, old.row);
        assert_eq!(new.column, old.column);
        assert!(-3000 <= new.rotation && new.rotation <= 3000);
        assert!(970 <= new.scale && new.scale <= 1030);
        for axis in 0..2 {
            let lo = old.position[axis].saturating_sub(11);
            let hi = old.position[axis] + 11;
            assert!(lo <= new.position[axis] && new.position[axis] <= hi);
        }
    }
}

#[test]
fn skew_touches_only_its_row() {
    // Only placements of the targeted row move, and an upward skew
    // lifts them while lowering their rotation.
    let t = grid();
    let mut p = Paper::make(t, 0, PaperSize::A4.pixels()).unwrap();
    let before: Vec<Transform> = p.table.clone();
    p.obfuscate(PaperObfuscation::Upward, 2, 30);
    assert_eq!(p.table.len(), before.len());
    for i in 0..before.len() {
        let old = before[i];
        let new = p.table[i];
        if old.row != 2 {
            assert_eq!(new, old);
        } else {
            assert_eq!(new.id, old.id);
            assert_eq!(new.row, old.row);
            assert_eq!(new.column, old.column);
            assert_eq!(new.scale, old.scale);
            assert_eq!(new.position[0], old.position[0]);
            assert!(new.position[1] < old.position[1]);
            assert!(new.rotation < old.rotation);
        }
    }
}

#[test]
fn skew_directions_mirror() {
    // A downward skew moves the row the opposite way.
    let t = grid();
    let mut p = Paper::make(t, 0, PaperSize::A4.pixels()).unwrap();
    let before: Vec<Transform> = p.table.clone();
    p.obfuscate(PaperObfuscation::Downward, 1, 30);
    for i in 0..before.len() {
        let old = before[i];
        let new = p.table[i];
        if old.row != 1 {
            assert_eq!(new, old);
        } else {
            assert!(new.position[1] > old.position[1]);
            assert!(new.rotation > old.rotation);
        }
    }
}

#[test]
fn skew_then_jitter_composes() {
    // The recommended order: skew first, then jitter; the paper keeps
    // one pose per cell throughout.
    let t = grid();
    let mut p = Paper::make(t, 1, PaperSize::A5.pixels()).unwrap();
    p.obfuscate(PaperObfuscation::Downward, 3, 20);
    p.alter();
    assert_eq!(p.table.len(), 9);
    for i in 0..p.table.len() {
        let a = p.table[i];
        for j in 0..i {
            let b = p.table[j];
            assert!(!(a.row == b.row && a.column == b.column));
        }
    }
}

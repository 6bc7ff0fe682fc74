use babel2048::catalog::{find_id, find_shape, Catalog, Entry};
use babel2048::error::GlobalIdError;
use babel2048::shape::Shape;

const BINOMIALS: [usize; 17] =
    [1, 16, 120, 560, 1820, 4368, 8008, 11440, 12870, 11440, 8008, 4368, 1820, 560, 120, 16, 1];

#[test]
fn the_groups_have_binomial_sizes() {
    let catalog = Catalog::build();
    assert_eq!(catalog.groups.len(), 17);
    let mut sum = 0;
    for t in 0..17 {
        assert_eq!(catalog.groups[t].t, t as u32);
        assert_eq!(catalog.groups[t].entries.len(), BINOMIALS[t]);
        sum += catalog.groups[t].entries.len();
    }
    assert_eq!(sum, 65536);
    assert_eq!(catalog.len(), 65536);
    assert_eq!(catalog.tile_counts(), (0..17).collect::<Vec<u32>>());
}

#[test]
fn the_ids_run_from_one_without_a_gap() {
    let catalog = Catalog::build();
    let mut next: u64 = 1;
    let mut seen = vec![false; 65536];
    for group in &catalog.groups {
        let mut last_mask: Option<u16> = None;
        for entry in &group.entries {
            assert_eq!(entry.global_id, next);
            assert_eq!(entry.shape.filled() as u32, group.t);
            assert!(last_mask.map_or(true, |m| m < entry.shape.mask));
            assert!(!seen[entry.shape.mask as usize]);
            seen[entry.shape.mask as usize] = true;
            last_mask = Some(entry.shape.mask);
            next += 1;
        }
    }
    assert_eq!(next, 65537);
    assert!(seen.iter().all(|s| *s));
}

#[test]
fn the_ranges_of_the_groups_follow_each_other() {
    let catalog = Catalog::build();
    assert_eq!(catalog.id_range(0), (1, 1));
    assert_eq!(catalog.id_range(1), (2, 17));
    assert_eq!(catalog.id_range(2), (18, 137));
    assert_eq!(catalog.id_range(8), (26334, 39203));
    assert_eq!(catalog.id_range(16), (65536, 65536));
    assert_eq!(catalog.id_range(17), (65537, 65536));
    assert_eq!(catalog.id_range(u32::MAX), (65537, 65536));
    assert_eq!(Catalog::new().id_range(3), (1, 0));
}

#[test]
fn an_id_is_looked_up_in_the_whole_catalog() {
    let catalog = Catalog::build();
    assert_eq!(catalog.entry(1), Ok(Entry { global_id: 1, shape: Shape::new(0) }));
    assert_eq!(catalog.entry(2), Ok(Entry { global_id: 2, shape: Shape::new(1) }));
    assert_eq!(catalog.entry(17), Ok(Entry { global_id: 17, shape: Shape::new(0x8000) }));
    assert_eq!(catalog.entry(18), Ok(Entry { global_id: 18, shape: Shape::new(3) }));
    assert_eq!(catalog.entry(65536), Ok(Entry { global_id: 65536, shape: Shape::new(0xffff) }));
    assert_eq!(catalog.entry(0), Err(GlobalIdError::BelowRange { id: 0, first: 1 }));
    assert_eq!(catalog.entry(65537), Err(GlobalIdError::AboveRange { id: 65537, last: 65536 }));
    assert_eq!(Catalog::new().entry(1), Err(GlobalIdError::AboveRange { id: 1, last: 0 }));
}

#[test]
fn an_id_is_judged_against_the_range_of_its_group() {
    let catalog = Catalog::build();
    assert_eq!(
        catalog.entry_in_group(1, 1),
        Err(GlobalIdError::BelowRange { id: 1, first: 2 })
    );
    assert_eq!(
        catalog.entry_in_group(1, 18),
        Err(GlobalIdError::AboveRange { id: 18, last: 17 })
    );
    assert_eq!(catalog.entry_in_group(1, 5), Ok(Entry { global_id: 5, shape: Shape::new(8) }));
    assert_eq!(
        catalog.entry_in_group(40, 7),
        Err(GlobalIdError::BelowRange { id: 7, first: 65537 })
    );
    assert_eq!(
        catalog.entry_in_group(40, 65537),
        Err(GlobalIdError::AboveRange { id: 65537, last: 65536 })
    );
}

#[test]
fn entries_go_to_their_groups_in_order() {
    let mut catalog = Catalog::new();
    catalog.insert(3, Entry { global_id: 10, shape: Shape::new(7) });
    catalog.insert(1, Entry { global_id: 11, shape: Shape::new(1) });
    catalog.insert(3, Entry { global_id: 12, shape: Shape::new(11) });
    catalog.insert(2, Entry { global_id: 13, shape: Shape::new(3) });
    catalog.insert(1, Entry { global_id: 11, shape: Shape::new(2) });
    assert_eq!(catalog.tile_counts(), vec![1, 2, 3]);
    assert_eq!(catalog.len(), 5);
    assert_eq!(catalog.groups[0].entries.len(), 2);
    assert_eq!(catalog.groups[2].entries[1].global_id, 12);
    assert_eq!(catalog.id_range(1), (1, 2));
    assert_eq!(catalog.id_range(2), (3, 3));
    assert_eq!(catalog.id_range(3), (4, 5));
    assert_eq!(catalog.entry(3), Err(GlobalIdError::Unlisted { id: 3 }));
    assert_eq!(catalog.entry_in_group(3, 4), Err(GlobalIdError::Unlisted { id: 4 }));
    assert_eq!(
        catalog.entry_in_group(1, 11),
        Err(GlobalIdError::AboveRange { id: 11, last: 2 })
    );
    assert_eq!(catalog.shape_in_group(1, Shape::new(2)).map(|e| e.global_id), Some(11));
    assert_eq!(catalog.shape_in_group(2, Shape::new(2)), None);
    assert_eq!(catalog.shape_in_group(7, Shape::new(2)), None);
}

#[test]
fn the_first_match_is_found() {
    let entries = vec![
        Entry { global_id: 4, shape: Shape::new(1) },
        Entry { global_id: 5, shape: Shape::new(2) },
        Entry { global_id: 4, shape: Shape::new(3) },
        Entry { global_id: 6, shape: Shape::new(2) },
    ];
    assert_eq!(find_id(&entries, 4), Some(entries[0]));
    assert_eq!(find_id(&entries, 6), Some(entries[3]));
    assert_eq!(find_id(&entries, 7), None);
    assert_eq!(find_shape(&entries, Shape::new(2)), Some(entries[1]));
    assert_eq!(find_shape(&entries, Shape::new(4)), None);
}

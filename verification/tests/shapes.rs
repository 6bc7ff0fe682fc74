use babel2048::shape::Shape;

#[test]
fn cells_and_masks_agree() {
    let shape = Shape::new(0b1000_0000_0000_0101);
    assert!(shape.is_occupied(0));
    assert!(!shape.is_occupied(1));
    assert!(shape.is_occupied(2));
    assert!(shape.is_occupied(15));
    assert_eq!(shape.filled(), 3);
    let held = shape.cells();
    assert_eq!(held.iter().filter(|h| **h).count(), 3);
    assert!(held[0] && held[2] && held[15]);
    assert_eq!(Shape::from_cells(&held), shape);
}

#[test]
fn every_mask_comes_back_from_its_cells() {
    let mut mask: u32 = 0;
    while mask < 0x10000 {
        let shape = Shape::new(mask as u16);
        assert_eq!(Shape::from_cells(&shape.cells()).mask, mask as u16);
        assert_eq!(shape.filled() as u32, mask.count_ones());
        mask += 257;
    }
    assert_eq!(Shape::new(0).filled(), 0);
    assert_eq!(Shape::new(0xffff).filled(), 16);
    assert_eq!(Shape::from_cells(&[true; 16]).mask, 0xffff);
    assert_eq!(Shape::from_cells(&[false; 16]).mask, 0);
}

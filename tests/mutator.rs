use unscrambler::Mutator;

#[test]
fn test_extend_mutation() {
    let mut buffer = vec![0x1, 0x2, 0x3];
    let mut m = Mutator::new();

    m.make_diff(4, 4, vec![0x4, 0x5, 0x6]);
    m.make_diff(5, 5, vec![0x7, 0x8, 0x9]);

    m.mutate(&mut buffer);

    assert_eq!(buffer, vec![0x1, 0x2, 0x3, 0x4, 0x5, 0x6, 0x7, 0x8, 0x9]);
}

#[test]
fn test_equal_size_mutation() {
    let mut buffer = vec![0x1, 0x0A, 0x0B, 0x0C, 0x5, 0x6, 0x0D, 0x0E, 0x0A];
    let mut m = Mutator::new();

    m.make_diff(1, 4, vec![0x2, 0x3, 0x4]);
    m.make_diff(6, 9, vec![0x7, 0x8, 0x9]);

    m.mutate(&mut buffer);

    assert_eq!(buffer, vec![0x1, 0x2, 0x3, 0x4, 0x5, 0x6, 0x7, 0x8, 0x9]);
}

#[test]
fn test_equal_size_mutation_1() {
    let mut buffer = vec![0x0A, 0x0B, 0x0C, 0x4, 0x5, 0x6, 0x0A, 0x0B, 0x0C];
    let mut m = Mutator::new();

    m.make_diff(0, 3, vec![0x1, 0x2, 0x3]);
    m.make_diff(6, 9, vec![0x7, 0x8, 0x9]);

    m.mutate(&mut buffer);

    assert_eq!(buffer, vec![0x1, 0x2, 0x3, 0x4, 0x5, 0x6, 0x7, 0x8, 0x9]);
}

#[test]
fn test_cat_mutation() {
    let mut buffer = vec![
        0x0D, 0x0E, 0x0A, 0x1, 0x0D, 0x0E, 0x0A, 0x2, 0x3, 0x4, 0x5, 0x6, 0x7, 0x0D, 0x0E,
        0x0A, 0x8, 0x9, 0x0D, 0x0E, 0x0A,
    ];
    let mut m = Mutator::new();

    m.make_diff(0, 3, vec![]);
    m.make_diff(4, 7, vec![]);
    m.make_diff(13, 16, vec![]);
    m.make_diff(18, 21, vec![]);

    m.mutate(&mut buffer);

    assert_eq!(buffer, vec![0x1, 0x2, 0x3, 0x4, 0x5, 0x6, 0x7, 0x8, 0x9]);
}

#[test]
fn test_cat_mutation_1() {
    let mut buffer = vec![
        0x0D, 0x0E, 0x0A, 0x1, 0x0D, 0x0E, 0x0A, 0x4, 0x5, 0x6, 0x7, 0x0D, 0x0E, 0x0A, 0x8,
        0x9, 0x0D, 0x0E, 0x0A, 0x00, 0x00,
    ];
    let mut m = Mutator::new();

    m.make_diff(0, 3, vec![]);

    m.make_diff(4, 7, vec![0x2, 0x3]);
    m.make_diff(11, 14, vec![]);
    m.make_diff(16, 21, vec![0x0A]);

    m.mutate(&mut buffer);

    assert_eq!(
        buffer,
        vec![0x1, 0x2, 0x3, 0x4, 0x5, 0x6, 0x7, 0x8, 0x9, 0x0A]
    );
}

#[test]
fn test_insert_mutation() {
    let mut buffer = vec![0x4, 0x5, 0x00, 0x00, 0x00];
    let mut m = Mutator::new();

    m.make_diff(0, 0, vec![0x1, 0x2, 0x3]);
    m.make_diff(2, 4, vec![0x6, 0x7, 0x8]);
    m.make_diff(4, 5, vec![0x9, 0x0A]);

    m.mutate(&mut buffer);

    assert_eq!(
        buffer,
        vec![0x1, 0x2, 0x3, 0x4, 0x5, 0x6, 0x7, 0x8, 0x9, 0x0A]
    );
}

#[test]
fn test_complex_mutation() {
    let mut buffer = vec![0x02, 0x00, 0x00, 0x00];
    let mut m = Mutator::new();

    m.make_diff(0, 0, vec![0x1]);
    m.make_diff(1, 3, vec![0x03, 0x04]);
    m.make_diff(3, 4, vec![]);
    m.make_diff(4, 5, vec![0x05, 0x06, 0x07, 0x08, 0x09, 0x0a]);

    m.mutate(&mut buffer);

    assert_eq!(
        buffer,
        vec![0x1, 0x2, 0x3, 0x4, 0x5, 0x6, 0x7, 0x8, 0x9, 0x0A]
    );
}

#[test]
fn mutation_order_of_adding_does_not_matter() {
    let mut buffer = vec![0x4, 0x5, 0x00, 0x00, 0x00];
    let mut m = Mutator::new();

    m.make_diff(4, 5, vec![0x9, 0x0A]);
    m.make_diff(2, 4, vec![0x6, 0x7, 0x8]);
    m.make_diff(0, 0, vec![0x1, 0x2, 0x3]);

    assert!(m.fits(buffer.len()));
    m.mutate(&mut buffer);

    assert_eq!(buffer, vec![0x1, 0x2, 0x3, 0x4, 0x5, 0x6, 0x7, 0x8, 0x9, 0x0A]);
}

#[test]
fn mutation_insertions_at_one_point_keep_their_order() {
    let mut buffer = vec![0x1, 0x4];
    let mut m = Mutator::new();

    m.make_diff(1, 1, vec![0x2]);
    m.make_diff(1, 1, vec![0x3]);

    m.mutate(&mut buffer);

    assert_eq!(buffer, vec![0x1, 0x2, 0x3, 0x4]);
}

#[test]
fn mutation_of_nothing_keeps_buffer() {
    let mut buffer = vec![0x1, 0x2];
    let m = Mutator::new();
    m.mutate(&mut buffer);
    assert_eq!(buffer, vec![0x1, 0x2]);
}

#[test]
fn mutation_fits_refuses_overlap_and_overrun() {
    let mut m = Mutator::new();
    m.make_diff(0, 3, vec![]);
    m.make_diff(2, 4, vec![]);
    assert!(!m.fits(10));

    let mut m = Mutator::new();
    m.make_diff(2, 12, vec![]);
    assert!(!m.fits(10));

    let mut m = Mutator::new();
    m.make_diff(0, 2, vec![]);
    m.make_diff(2, 4, vec![]);
    m.make_diff(12, 20, vec![0x1]);
    assert!(m.fits(10));
}

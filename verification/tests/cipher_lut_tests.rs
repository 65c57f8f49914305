use fhe_processor::operations::cipher_lut::{generate_lut_from_vecs, generate_lut_from_vecs_auto};

fn tables(count: usize, len: usize) -> Vec<Vec<usize>> {
    (0..count)
        .map(|t| (0..len).map(|j| (t * 5 + j) % 16).collect())
        .collect()
}

#[test]
fn tables_share_a_polynomial_where_they_fit() {
    let tables = tables(6, 4);
    let (packed, factor) = generate_lut_from_vecs_auto(&tables, 16, 1 << 60);
    assert_eq!(factor, 4);
    assert_eq!(packed.len(), 2);
    for (g, list) in packed.iter().enumerate() {
        assert_eq!(list.len(), 16);
        for c in 0..16 {
            let t = g * 4 + c / 4;
            let expected = if t < 6 { (tables[t][c % 4] as u64) << 60 } else { 0 };
            assert_eq!(list[c], expected);
        }
    }
}

#[test]
fn the_pack_factor_is_the_capacity_even_where_fewer_tables_come() {
    let tables = tables(2, 4);
    let (packed, factor) = generate_lut_from_vecs_auto(&tables, 32, 3);
    assert_eq!(factor, 8);
    assert_eq!(packed.len(), 1);
    assert_eq!(packed[0].len(), 32);
    assert_eq!(packed[0][..4], [0, 3, 6, 9]);
    assert_eq!(packed[0][4..8], [15, 18, 21, 24]);
    assert!(packed[0][8..].iter().all(|c| *c == 0));
}

#[test]
fn a_table_larger_than_a_polynomial_gets_a_list_of_its_own() {
    let tables = tables(3, 32);
    let (lists, factor) = generate_lut_from_vecs_auto(&tables, 16, 2);
    assert_eq!(factor, 1);
    assert_eq!(lists.len(), 3);
    for (t, list) in lists.iter().enumerate() {
        assert_eq!(list.len(), 32);
        for c in 0..32 {
            assert_eq!(list[c], tables[t][c] as u64 * 2);
        }
    }
    let tables = vec![vec![1usize; 20]];
    let (lists, factor) = generate_lut_from_vecs_auto(&tables, 16, 7);
    assert_eq!(factor, 1);
    assert_eq!(lists[0].len(), 32);
    assert!(lists[0][..20].iter().all(|c| *c == 7));
    assert!(lists[0][20..].iter().all(|c| *c == 0));
}

#[test]
fn a_table_exactly_as_large_as_a_polynomial() {
    let tables = tables(2, 16);
    let (lists, factor) = generate_lut_from_vecs_auto(&tables, 16, 1);
    assert_eq!(factor, 1);
    assert_eq!(lists.len(), 2);
    assert_eq!(lists[1], tables[1].iter().map(|v| *v as u64).collect::<Vec<u64>>());
}

#[test]
fn without_packing_every_table_is_padded_to_whole_polynomials() {
    let tables = vec![vec![1usize, 2, 3], vec![4usize; 8], vec![]];
    let lists = generate_lut_from_vecs(&tables, 4, 10);
    assert_eq!(lists.len(), 3);
    assert_eq!(lists[0], vec![10, 20, 30, 0]);
    assert_eq!(lists[1], vec![40; 8]);
    assert_eq!(lists[2], Vec::<u64>::new());
}

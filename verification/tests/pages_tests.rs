use masking_tool::pages::group_by_page;

#[test]
fn masks_are_grouped_by_page_in_order_of_first_mask() {
    let groups = group_by_page(&[2, 1, 2, 3, 1]);
    assert_eq!(
        groups,
        vec![(2, vec![0, 2]), (1, vec![1, 4]), (3, vec![3])]
    );
}

#[test]
fn no_masks_give_no_groups() {
    assert!(group_by_page(&[]).is_empty());
}

#[test]
fn every_mask_lands_in_exactly_one_group() {
    let pages = [5u32, 5, 7, 1, 7, 5, 0];
    let groups = group_by_page(&pages);
    for (i, p) in pages.iter().enumerate() {
        let holding: Vec<&(u32, Vec<usize>)> =
            groups.iter().filter(|(_, members)| members.contains(&i)).collect();
        assert_eq!(holding.len(), 1);
        assert_eq!(holding[0].0, *p);
    }
    let mut seen = Vec::new();
    for (p, _) in &groups {
        assert!(!seen.contains(p));
        seen.push(*p);
    }
}

use image_rando::plan::{plan_groups, FileInfo, PlanError};

fn fi(name: &str, size: u64) -> FileInfo {
    FileInfo {
        path: name.to_string(),
        name: name.to_string(),
        size,
    }
}

fn names(groups: &[Vec<FileInfo>]) -> Vec<Vec<String>> {
    groups
        .iter()
        .map(|g| g.iter().map(|f| f.name.clone()).collect())
        .collect()
}

#[test]
fn plan_groups_respects_max_files() {
    let files = vec![fi("a.jpg", 1), fi("b.jpg", 1), fi("c.jpg", 1)];
    let groups = plan_groups(&files, 2, 10).ok().unwrap();
    assert_eq!(groups.len(), 2);
    assert_eq!(groups[0].len(), 2);
    assert_eq!(groups[1].len(), 1);
}

#[test]
fn plan_groups_respects_max_bytes() {
    let files = vec![fi("a.jpg", 6), fi("b.jpg", 6)];
    let groups = plan_groups(&files, 1200, 10).ok().unwrap();
    assert_eq!(groups.len(), 2);
    assert_eq!(groups[0][0].name, "a.jpg");
    assert_eq!(groups[1][0].name, "b.jpg");
}

#[test]
fn plan_groups_combines_until_limit() {
    let files = vec![fi("a.jpg", 6), fi("b.jpg", 4), fi("c.jpg", 1)];
    let groups = plan_groups(&files, 1200, 10).ok().unwrap();
    assert_eq!(groups.len(), 2);
    assert_eq!(groups[0].len(), 2); // 6 + 4 = 10
    assert_eq!(groups[1].len(), 1);
}

#[test]
fn plan_groups_errors_if_single_file_too_large() {
    let files = vec![fi("big.jpg", 11)];
    let err = match plan_groups(&files, 1200, 10) {
        Err(e) => e.message(),
        Ok(_) => panic!("expected an error"),
    };
    assert!(err.contains("larger than max-bytes"));
}

#[test]
fn too_large_error_names_file_and_sizes() {
    let files = vec![fi("a.jpg", 3), fi("big.jpg", 11), fi("huge.jpg", 50)];
    match plan_groups(&files, 1200, 10) {
        Err(e) => {
            assert_eq!(e.message(), "file is larger than max-bytes (11 > 10): big.jpg");
            let PlanError::FileTooLarge { path, size, max_bytes } = e;
            assert_eq!(path, "big.jpg");
            assert_eq!(size, 11);
            assert_eq!(max_bytes, 10);
        }
        Ok(_) => panic!("expected an error"),
    }
}

#[test]
fn oversized_file_fails_even_after_fitting_ones() {
    let files = vec![fi("a.jpg", 1), fi("b.jpg", 2), fi("c.jpg", 11)];
    assert!(plan_groups(&files, 2, 10).is_err());
}

#[test]
fn groups_keep_input_order() {
    let files = vec![
        fi("a.jpg", 3),
        fi("b.jpg", 5),
        fi("c.jpg", 4),
        fi("d.jpg", 1),
        fi("e.jpg", 9),
    ];
    let groups = plan_groups(&files, 3, 10).ok().unwrap();
    assert_eq!(
        names(&groups),
        vec![
            vec!["a.jpg".to_string(), "b.jpg".to_string()],
            vec!["c.jpg".to_string(), "d.jpg".to_string()],
            vec!["e.jpg".to_string()],
        ]
    );
    let flat: Vec<String> = names(&groups).into_iter().flatten().collect();
    let input: Vec<String> = files.iter().map(|f| f.name.clone()).collect();
    assert_eq!(flat, input);
}

#[test]
fn every_group_within_both_ceilings() {
    let sizes: Vec<u64> = vec![7, 2, 2, 1, 8, 3, 3, 3, 10, 1, 1, 1, 1, 1];
    let files: Vec<FileInfo> = sizes
        .iter()
        .enumerate()
        .map(|(i, s)| fi(&format!("{i}.jpg"), *s))
        .collect();
    let groups = plan_groups(&files, 3, 10).ok().unwrap();
    for g in &groups {
        assert!(!g.is_empty());
        assert!(g.len() <= 3);
        assert!(g.iter().map(|f| f.size).sum::<u64>() <= 10);
    }
    assert_eq!(groups.iter().map(|g| g.len()).sum::<usize>(), files.len());
}

#[test]
fn file_filling_remaining_capacity_joins_group() {
    let files = vec![fi("a.jpg", 7), fi("b.jpg", 3), fi("c.jpg", 1)];
    let groups = plan_groups(&files, 1200, 10).ok().unwrap();
    assert_eq!(groups.len(), 2);
    assert_eq!(groups[0].len(), 2);
    assert_eq!(groups[1][0].name, "c.jpg");
}

#[test]
fn file_of_exactly_max_bytes_is_accepted() {
    let files = vec![fi("a.jpg", 10), fi("b.jpg", 10)];
    let groups = plan_groups(&files, 1200, 10).ok().unwrap();
    assert_eq!(groups.len(), 2);
    assert_eq!(groups[0].len(), 1);
    assert_eq!(groups[1].len(), 1);
}

#[test]
fn empty_input_gives_no_groups() {
    let files: Vec<FileInfo> = Vec::new();
    let groups = plan_groups(&files, 5, 10).ok().unwrap();
    assert!(groups.is_empty());
}

#[test]
fn large_ceiling_does_not_overflow() {
    let files = vec![fi("a.jpg", u64::MAX - 1), fi("b.jpg", 5)];
    let groups = plan_groups(&files, 1200, u64::MAX).ok().unwrap();
    assert_eq!(groups.len(), 2);
}

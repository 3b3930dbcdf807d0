use minedmap::region_group::RegionGroup;

fn build(missing: &[(i8, i8)]) -> Result<RegionGroup<String>, String> {
    let missing: Vec<(i8, i8)> = missing.to_vec();
    RegionGroup::new(move |x: i8, z: i8| {
        if missing.contains(&(x, z)) {
            Err(format!("no region at {} {}", x, z))
        } else if (x, z) == (0, 0) {
            Ok(String::from("c"))
        } else {
            Ok(format!("{}/{}", x, z))
        }
    })
}

#[test]
fn region_group_with_a_missing_neighbour() {
    let group = build(&[(-1, 0)]).unwrap();
    assert_eq!(group.center(), "c");
    assert_eq!(group.get(0, 0), Some(&String::from("c")));
    assert_eq!(group.get(-1, 0), None);
    assert_eq!(group.get(1, 0), Some(&String::from("1/0")));
    assert_eq!(group.iter().into_iter().count(), 8);
}

#[test]
fn region_group_complete() {
    let group = build(&[]).unwrap();
    for x in -1i8..=1 {
        for z in -1i8..=1 {
            let expected = if (x, z) == (0, 0) { String::from("c") } else { format!("{}/{}", x, z) };
            assert_eq!(group.get(x, z), Some(&expected));
        }
    }
    let values: Vec<String> = group.iter().into_iter().cloned().collect();
    assert_eq!(
        values,
        vec!["c", "-1/-1", "-1/0", "-1/1", "0/-1", "0/1", "1/-1", "1/0", "1/1"]
    );
}

#[test]
fn region_group_center_is_needed() {
    assert_eq!(build(&[(0, 0)]).err(), Some(String::from("no region at 0 0")));
    assert_eq!(
        build(&[(0, 0), (1, 1)]).err(),
        Some(String::from("no region at 0 0"))
    );
}

#[test]
fn region_group_without_neighbours() {
    let all: Vec<(i8, i8)> = vec![(-1, -1), (-1, 0), (-1, 1), (0, -1), (0, 1), (1, -1), (1, 0), (1, 1)];
    let group = build(&all).unwrap();
    assert_eq!(group.iter().len(), 1);
    assert_eq!(group.get(0, 0), Some(&String::from("c")));
    for (x, z) in all {
        assert_eq!(group.get(x, z), None);
    }
}

#[test]
fn region_group_get_out_of_range() {
    let group = build(&[]).unwrap();
    assert_eq!(group.get(2, 0), None);
    assert_eq!(group.get(0, -2), None);
    assert_eq!(group.get(-2, 2), None);
    assert_eq!(group.get(i8::MIN, i8::MAX), None);
    // Offsets that would fall on the index of another cell.
    assert_eq!(group.get(1, -3), None);
    assert_eq!(group.get(-1, 3), None);
}

#[test]
fn region_group_asks_for_centre_first() {
    let order = std::cell::RefCell::new(Vec::new());
    let group: Result<RegionGroup<u8>, ()> = RegionGroup::new(|x: i8, z: i8| {
        order.borrow_mut().push((x, z));
        Ok(0)
    });
    assert!(group.is_ok());
    assert_eq!(
        order.into_inner(),
        vec![(0, 0), (-1, -1), (-1, 0), (-1, 1), (0, -1), (0, 1), (1, -1), (1, 0), (1, 1)]
    );
}

#[test]
fn region_group_map() {
    let group = build(&[(1, 1), (-1, -1)]).unwrap();
    let mut calls: Vec<String> = Vec::new();
    let lengths = group.map(|value: String| {
        calls.push(value.clone());
        value.len()
    });
    assert_eq!(*lengths.center(), 1);
    assert_eq!(lengths.get(-1, 0), Some(&4));
    assert_eq!(lengths.get(0, 1), Some(&3));
    assert_eq!(lengths.get(1, 1), None);
    assert_eq!(lengths.get(-1, -1), None);
    assert_eq!(calls, vec!["c", "-1/0", "-1/1", "0/-1", "0/1", "1/-1", "1/0"]);
    assert_eq!(lengths.iter().len(), 7);
}

#[test]
fn region_group_try_map() {
    let group = build(&[(1, 0)]).unwrap();
    let parsed: Result<RegionGroup<usize>, String> = group.try_map(|value: String| {
        if value.starts_with('-') {
            Err(format!("bad {}", value))
        } else {
            Ok(value.len())
        }
    });
    let parsed = parsed.unwrap();
    assert_eq!(*parsed.center(), 1);
    assert_eq!(parsed.get(-1, -1), None);
    assert_eq!(parsed.get(-1, 0), None);
    assert_eq!(parsed.get(-1, 1), None);
    assert_eq!(parsed.get(0, -1), Some(&4));
    assert_eq!(parsed.get(0, 1), Some(&3));
    assert_eq!(parsed.get(1, -1), Some(&4));
    assert_eq!(parsed.get(1, 0), None);
    assert_eq!(parsed.get(1, 1), Some(&3));
}

#[test]
fn region_group_try_map_fails_with_the_centre() {
    let group = build(&[]).unwrap();
    let failed: Result<RegionGroup<usize>, String> = group.try_map(|value: String| {
        if value == "c" {
            Err(String::from("centre"))
        } else {
            Ok(value.len())
        }
    });
    assert_eq!(failed.err(), Some(String::from("centre")));
}
